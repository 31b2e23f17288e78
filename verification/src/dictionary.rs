//! A dictionary: a named compressed map.

use vstd::prelude::*;
use vstd::string::StringSliceAdditionalSpecFns;
use vstd::utf8::encode_utf8;
use crate::config::FallbackConfig;
use crate::store::{CompressedMap, Entry, StoreError};
use crate::text::{append, fold, has_prefix, lemma_lex_asymmetric, pairs, DOUBLE_QUOTE, SPACE};

verus! {

/// How `MATCH` compares head-words with the word asked for.
#[derive(Clone, Copy, Debug, PartialEq, Eq, Structural)]
pub enum MatchStrategy {
    /// The head-word equals the word.
    Exact,
    /// The head-word begins with the word.
    Prefix,
}

/// `short "long"`: how a dictionary is shown in listings and definitions.
pub open spec fn both_names(short: Seq<u8>, long: Seq<u8>) -> Seq<u8> {
    short + seq![SPACE, DOUBLE_QUOTE] + long + seq![DOUBLE_QUOTE]
}

/// A dictionary: its names, the server it falls back on, and its entries.
pub struct Dictionary {
    short_name: String,
    name: String,
    fallback: Option<FallbackConfig>,
    store: CompressedMap,
}

impl Dictionary {
    pub closed spec fn spec_name(&self) -> Seq<char> {
        self.short_name@
    }

    pub closed spec fn spec_long_name(&self) -> Seq<char> {
        self.name@
    }

    /// The short name as it goes over the wire.
    pub open spec fn name_bytes(&self) -> Seq<u8> {
        encode_utf8(self.spec_name())
    }

    /// The long name as it goes over the wire.
    pub open spec fn long_name_bytes(&self) -> Seq<u8> {
        encode_utf8(self.spec_long_name())
    }

    pub closed spec fn spec_fallback(&self) -> Option<FallbackConfig> {
        self.fallback
    }

    /// Folded head-word to the entry stored under it: the head-word as it
    /// was spelled, and its definition.
    pub closed spec fn entries(&self) -> Map<Seq<u8>, Entry> {
        self.store@
    }

    /// Whether the dictionary takes no more entries.
    pub closed spec fn is_frozen(&self) -> bool {
        self.store.is_frozen()
    }

    /// The representation invariant.
    pub closed spec fn wf(&self) -> bool {
        self.store.wf()
    }

    /// Every entry of a dictionary stands under the folded form of its
    /// head-word.
    pub proof fn lemma_entries_folded(&self, k: Seq<u8>)
        requires
            self.wf(),
            self.entries().dom().contains(k),
        ensures
            fold(k) == k,
            fold(self.entries()[k].0) == k,
    {
        self.store.lemma_keys_folded(k);
    }

    /// A dictionary with no entries, open for loading.
    pub fn new_empty(name: String, long_name: String) -> (r: Dictionary)
        ensures
            r.wf(),
            !r.is_frozen(),
            r.spec_name() == name@,
            r.spec_long_name() == long_name@,
            r.spec_fallback() is None,
            r.entries() == Map::<Seq<u8>, Entry>::empty(),
    {
        Dictionary {
            short_name: name,
            name: long_name,
            fallback: None,
            store: CompressedMap::with_defaults(),
        }
    }

    /// Names the server to ask when this dictionary has no match.
    pub fn set_fallback(&mut self, fallback: Option<FallbackConfig>)
        ensures
            final(self).spec_fallback() == fallback,
            final(self).wf() == old(self).wf(),
            final(self).is_frozen() == old(self).is_frozen(),
            final(self).spec_name() == old(self).spec_name(),
            final(self).spec_long_name() == old(self).spec_long_name(),
            final(self).entries() == old(self).entries(),
    {
        self.fallback = fallback;
    }

    pub fn name(&self) -> (r: &str)
        ensures
            r@ == self.spec_name(),
            r.spec_bytes() == self.name_bytes(),
    {
        self.short_name.as_str()
    }

    pub fn long_name(&self) -> (r: &str)
        ensures
            r@ == self.spec_long_name(),
            r.spec_bytes() == self.long_name_bytes(),
    {
        self.name.as_str()
    }

    pub fn fallback(&self) -> (r: Option<&FallbackConfig>)
        ensures
            r == (match self.spec_fallback() {
                Some(f) => Some(&f),
                None => None,
            }),
    {
        self.fallback.as_ref()
    }

    pub fn frozen(&self) -> (r: bool)
        ensures
            r == self.is_frozen(),
    {
        self.store.frozen()
    }

    /// `short "long"`.
    pub fn get_both_names(&self) -> (r: Vec<u8>)
        ensures
            r@ == both_names(self.name_bytes(), self.long_name_bytes()),
    {
        let mut out: Vec<u8> = Vec::new();
        append(&mut out, self.short_name.as_str().as_bytes());
        out.push(SPACE);
        out.push(DOUBLE_QUOTE);
        append(&mut out, self.name.as_str().as_bytes());
        out.push(DOUBLE_QUOTE);
        assert(out@ =~= both_names(self.name_bytes(), self.long_name_bytes()));
        out
    }

    /// The definition of `word`, compared in folded form.
    pub fn get_word_meaning(&self, word: &[u8]) -> (r: Option<Vec<u8>>)
        requires
            self.wf(),
        ensures
            match r {
                Some(d) => self.entries().dom().contains(fold(word@)) && d@ == self.entries()[fold(
                    word@,
                )].1,
                None => !self.entries().dom().contains(fold(word@)),
            },
    {
        self.store.get(word)
    }

    /// The key of the entry that a match query finds in `entries`: under
    /// `Exact` the folded word if it is a key, under `Prefix` the smallest
    /// key that begins with the folded word.
    pub open spec fn match_key(
        entries: Map<Seq<u8>, Entry>,
        word: Seq<u8>,
        strategy: MatchStrategy,
    ) -> Option<Seq<u8>> {
        match strategy {
            MatchStrategy::Exact => if entries.dom().contains(fold(word)) {
                Some(fold(word))
            } else {
                None
            },
            MatchStrategy::Prefix => if exists|k: Seq<u8>|
                CompressedMap::is_least_with_prefix(entries, fold(word), k) {
                Some(
                    choose|k: Seq<u8>| CompressedMap::is_least_with_prefix(entries, fold(word), k),
                )
            } else {
                None
            },
        }
    }

    /// What a match query finds in `entries`: the head-word of the entry
    /// under `match_key`, as it was stored.
    pub open spec fn match_in(
        entries: Map<Seq<u8>, Entry>,
        word: Seq<u8>,
        strategy: MatchStrategy,
    ) -> Option<Seq<u8>> {
        match Self::match_key(entries, word, strategy) {
            Some(k) => Some(entries[k].0),
            None => None,
        }
    }

    /// The match of this dictionary for `word` under `strategy`.
    pub open spec fn spec_match(&self, word: Seq<u8>, strategy: MatchStrategy) -> Option<Seq<u8>> {
        Self::match_in(self.entries(), word, strategy)
    }

    /// A head-word found by a match is a head-word of the dictionary, in its
    /// stored spelling, and begins with the word asked for when both are
    /// folded; under `Exact` the two are equal when folded.
    pub proof fn lemma_match_begins_with_word(&self, word: Seq<u8>, strategy: MatchStrategy)
        requires
            self.wf(),
            self.spec_match(word, strategy) is Some,
        ensures
            self.entries().dom().contains(fold(self.spec_match(word, strategy)->0)),
            self.entries()[fold(self.spec_match(word, strategy)->0)].0 == self.spec_match(
                word,
                strategy,
            )->0,
            has_prefix(fold(self.spec_match(word, strategy)->0), fold(word)),
            strategy == MatchStrategy::Exact ==> fold(self.spec_match(word, strategy)->0) == fold(
                word,
            ),
    {
        let k = Self::match_key(self.entries(), word, strategy)->0;
        self.lemma_entries_folded(k);
    }

    /// A match is found wherever there is something to find: under `Exact`
    /// if the folded word is a key, under `Prefix` if some key begins with
    /// the folded word.
    pub proof fn lemma_match_is_found(&self, word: Seq<u8>, strategy: MatchStrategy, k: Seq<u8>)
        requires
            self.wf(),
            self.entries().dom().contains(k),
            match strategy {
                MatchStrategy::Exact => k == fold(word),
                MatchStrategy::Prefix => has_prefix(k, fold(word)),
            },
        ensures
            self.spec_match(word, strategy) is Some,
    {
        if strategy == MatchStrategy::Prefix {
            self.store.lemma_least_with_prefix(fold(word), k);
        }
    }

    /// Head-words that match `word` under `strategy`, as they were stored:
    /// one at most, and one wherever a head-word matches.
    pub fn get_word_matches(&self, word: &[u8], strategy: MatchStrategy) -> (r: Vec<Vec<u8>>)
        requires
            self.wf(),
        ensures
            match self.spec_match(word@, strategy) {
                Some(w) => r.len() == 1 && r[0]@ == w,
                None => r.len() == 0,
            },
            r.len() == 0 ==> forall|k: Seq<u8>| #[trigger]
                self.entries().dom().contains(k) ==> (match strategy {
                    MatchStrategy::Exact => k != fold(word@),
                    MatchStrategy::Prefix => !has_prefix(k, fold(word@)),
                }),
    {
        match strategy {
            MatchStrategy::Exact => {
                let mut out: Vec<Vec<u8>> = Vec::new();
                match self.store.stored_word(word) {
                    Some(w) => {
                        out.push(w);
                    },
                    None => {},
                }
                out
            },
            MatchStrategy::Prefix => {
                let out = self.store.prefix_find(word, 1);
                proof {
                    let m = self.entries();
                    let p = fold(word@);
                    if out.len() == 1 {
                        let k = fold(out[0]@);
                        assert(CompressedMap::is_least_with_prefix(m, p, k));
                        let c = choose|c: Seq<u8>| CompressedMap::is_least_with_prefix(m, p, c);
                        if c != k {
                            lemma_lex_asymmetric(c, k);
                        }
                    } else {
                        assert forall|k: Seq<u8>| !CompressedMap::is_least_with_prefix(
                            m,
                            p,
                            k,
                        ) by {}
                    }
                }
                out
            },
        }
    }

    /// Stores one entry.
    pub fn push_word(&mut self, word: &[u8], text: &[u8]) -> (r: Result<(), StoreError>)
        requires
            old(self).wf(),
        ensures
            final(self).wf(),
            final(self).is_frozen() == old(self).is_frozen(),
            final(self).spec_name() == old(self).spec_name(),
            final(self).spec_long_name() == old(self).spec_long_name(),
            final(self).spec_fallback() == old(self).spec_fallback(),
            r == CompressedMap::insert_outcome(old(self).is_frozen(), text@.len()),
            r is Ok ==> final(self).entries() == old(self).entries().insert(
                fold(word@),
                (word@, text@),
            ),
            r is Err ==> final(self).entries() == old(self).entries(),
    {
        self.store.insert(word, text)
    }

    /// Stores a batch of entries, all of it or none.
    pub fn push_words(&mut self, words_texts: &Vec<(Vec<u8>, Vec<u8>)>) -> (r: Result<
        (),
        StoreError,
    >)
        requires
            old(self).wf(),
        ensures
            final(self).wf(),
            final(self).is_frozen() == old(self).is_frozen(),
            final(self).spec_name() == old(self).spec_name(),
            final(self).spec_long_name() == old(self).spec_long_name(),
            final(self).spec_fallback() == old(self).spec_fallback(),
            r == CompressedMap::extend_outcome(old(self).is_frozen(), pairs(words_texts@)),
            r is Ok ==> final(self).entries() == CompressedMap::insert_all(
                old(self).entries(),
                pairs(words_texts@),
            ),
            r is Err ==> final(self).entries() == old(self).entries(),
    {
        self.store.extend(words_texts)
    }

    /// Compresses what is not compressed yet and freezes the dictionary.
    /// Freezing a frozen dictionary does nothing and succeeds.
    pub fn compress_dictionary(&mut self) -> (r: Result<(), StoreError>)
        requires
            old(self).wf(),
        ensures
            final(self).wf(),
            final(self).entries() == old(self).entries(),
            final(self).spec_name() == old(self).spec_name(),
            final(self).spec_long_name() == old(self).spec_long_name(),
            final(self).spec_fallback() == old(self).spec_fallback(),
            old(self).is_frozen() ==> r is Ok && *final(self) == *old(self),
            old(self).entries() == Map::<Seq<u8>, Entry>::empty() ==> r is Ok,
            r is Ok ==> final(self).is_frozen(),
            r is Err ==> r == Err::<(), StoreError>(StoreError::Compression)
                && !final(self).is_frozen(),
    {
        self.store.finalize()
    }
}

} // verus!
