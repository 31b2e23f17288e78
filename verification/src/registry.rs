//! The registry: the loaded dictionaries under their short names, in the
//! order in which they were registered, and the queries that fan out over
//! them.

use vstd::prelude::*;
use vstd::string::StringSliceAdditionalSpecFns;
use crate::dictionary::{both_names, Dictionary, MatchStrategy};
use crate::store::{CompressedMap, Entry};
use crate::text::{bytes_eq, fold, pairs};

verus! {

/// Why a query over the registry found nothing.
#[derive(Clone, Copy, Debug, PartialEq, Eq, Structural)]
pub enum WordSearchError {
    /// No dictionary was selected.
    DbNotFoundErr,
    /// Dictionaries were selected, and none of them had an answer.
    WordNotFoundErr,
}

/// Why a dictionary was not registered.
#[derive(Clone, Copy, Debug, PartialEq, Eq, Structural)]
pub enum RegisterError {
    /// The dictionary has not been finalized.
    NotFrozen,
}

/// The names that select every dictionary.
pub open spec fn is_wildcard(name: Seq<u8>) -> bool {
    name == "*".spec_bytes() || name == "all".spec_bytes() || name == "!".spec_bytes()
}

/// The positions, among the first `n` names, that `name` selects: all of
/// them for a wildcard, else those that hold `name`.
pub open spec fn select_upto(names: Seq<Seq<u8>>, name: Seq<u8>, n: nat) -> Seq<usize>
    decreases n,
{
    if n == 0 {
        Seq::empty()
    } else {
        let rest = select_upto(names, name, (n - 1) as nat);
        if is_wildcard(name) || names[n - 1] == name {
            rest.push((n - 1) as usize)
        } else {
            rest
        }
    }
}

/// The positions that `name` selects, in registration order.
pub open spec fn select(names: Seq<Seq<u8>>, name: Seq<u8>) -> Seq<usize> {
    select_upto(names, name, names.len())
}

/// No two positions hold the same name.
pub open spec fn distinct(names: Seq<Seq<u8>>) -> bool {
    forall|i: int, j: int| 0 <= i < j < names.len() ==> names[i] != names[j]
}

/// What the selected dictionaries hold for `word`: for each that has a
/// definition, its display name and the definition.
pub open spec fn definitions(dicts: Seq<Dictionary>, chosen: Seq<usize>, word: Seq<u8>) -> Seq<
    (Seq<u8>, Seq<u8>),
>
    decreases chosen.len(),
{
    if chosen.len() == 0 {
        Seq::empty()
    } else {
        let rest = definitions(dicts, chosen.drop_last(), word);
        let d = dicts[chosen.last() as int];
        if d.entries().dom().contains(fold(word)) {
            rest.push((both_names(d.name_bytes(), d.long_name_bytes()), d.entries()[fold(word)].1))
        } else {
            rest
        }
    }
}

/// What the selected dictionaries match for `word`: for each that has a
/// match, its short name and the head-word as it was stored.
pub open spec fn matches(
    dicts: Seq<Dictionary>,
    chosen: Seq<usize>,
    word: Seq<u8>,
    strategy: MatchStrategy,
) -> Seq<(Seq<u8>, Seq<u8>)>
    decreases chosen.len(),
{
    if chosen.len() == 0 {
        Seq::empty()
    } else {
        let rest = matches(dicts, chosen.drop_last(), word, strategy);
        let d = dicts[chosen.last() as int];
        match d.spec_match(word, strategy) {
            Some(k) => rest.push((d.name_bytes(), k)),
            None => rest,
        }
    }
}

/// Whether a dictionary names another server and has no definition of its
/// own for `word`.
pub open spec fn needs_fallback(d: Dictionary, word: Seq<u8>) -> bool {
    d.spec_fallback() is Some && !d.entries().dom().contains(fold(word))
}

/// Those of the selected dictionaries that need their fallback for `word`.
pub open spec fn fallbacks(dicts: Seq<Dictionary>, chosen: Seq<usize>, word: Seq<u8>) -> Seq<usize>
    decreases chosen.len(),
{
    if chosen.len() == 0 {
        Seq::empty()
    } else {
        let rest = fallbacks(dicts, chosen.drop_last(), word);
        if needs_fallback(dicts[chosen.last() as int], word) {
            rest.push(chosen.last())
        } else {
            rest
        }
    }
}

/// Every position, in order.
pub open spec fn all_positions(n: nat) -> Seq<usize> {
    Seq::new(n, |i: int| i as usize)
}

/// A wildcard selects every dictionary.
pub proof fn lemma_wildcard_selects_all(names: Seq<Seq<u8>>, name: Seq<u8>)
    requires
        is_wildcard(name),
    ensures
        select(names, name) == all_positions(names.len()),
{
    lemma_wildcard_upto(names, name, names.len());
}

proof fn lemma_wildcard_upto(names: Seq<Seq<u8>>, name: Seq<u8>, n: nat)
    requires
        is_wildcard(name),
    ensures
        select_upto(names, name, n) == all_positions(n),
    decreases n,
{
    if n > 0 {
        lemma_wildcard_upto(names, name, (n - 1) as nat);
        assert(all_positions((n - 1) as nat).push((n - 1) as usize) =~= all_positions(n));
    } else {
        assert(all_positions(0) =~= Seq::<usize>::empty());
    }
}

/// `all`, `*` and `!` select the same dictionaries: all of them.
pub proof fn lemma_three_wildcards(names: Seq<Seq<u8>>)
    ensures
        select(names, "all".spec_bytes()) == all_positions(names.len()),
        select(names, "*".spec_bytes()) == all_positions(names.len()),
        select(names, "!".spec_bytes()) == all_positions(names.len()),
{
    lemma_wildcard_selects_all(names, "all".spec_bytes());
    lemma_wildcard_selects_all(names, "*".spec_bytes());
    lemma_wildcard_selects_all(names, "!".spec_bytes());
}

/// A name that is no wildcard and that no dictionary bears selects nothing.
pub proof fn lemma_unknown_selects_none(names: Seq<Seq<u8>>, name: Seq<u8>)
    requires
        !is_wildcard(name),
        forall|i: int| 0 <= i < names.len() ==> names[i] != name,
    ensures
        select(names, name) == Seq::<usize>::empty(),
{
    lemma_unknown_upto(names, name, names.len());
}

proof fn lemma_unknown_upto(names: Seq<Seq<u8>>, name: Seq<u8>, n: nat)
    requires
        !is_wildcard(name),
        n <= names.len(),
        forall|i: int| 0 <= i < names.len() ==> names[i] != name,
    ensures
        select_upto(names, name, n) == Seq::<usize>::empty(),
    decreases n,
{
    if n > 0 {
        lemma_unknown_upto(names, name, (n - 1) as nat);
    }
}

/// The name of a dictionary, unless it is a wildcard, selects that
/// dictionary and no other.
pub proof fn lemma_name_selects_one(names: Seq<Seq<u8>>, at: int)
    requires
        distinct(names),
        0 <= at < names.len(),
        names.len() <= usize::MAX,
        !is_wildcard(names[at]),
    ensures
        select(names, names[at]) == seq![at as usize],
{
    lemma_one_upto(names, at, names.len());
}

proof fn lemma_one_upto(names: Seq<Seq<u8>>, at: int, n: nat)
    requires
        distinct(names),
        0 <= at < names.len(),
        n <= names.len(),
        !is_wildcard(names[at]),
    ensures
        select_upto(names, names[at], n) == if n <= at {
            Seq::<usize>::empty()
        } else {
            seq![at as usize]
        },
    decreases n,
{
    if n > 0 {
        lemma_one_upto(names, at, (n - 1) as nat);
        if n - 1 != at {
            assert(names[n - 1] != names[at]);
        } else {
            assert(Seq::<usize>::empty().push(at as usize) =~= seq![at as usize]);
        }
    }
}

/// The outcome of a query, given what was selected and what was found.
pub open spec fn outcome(chosen: Seq<usize>, found: Seq<(Seq<u8>, Seq<u8>)>) -> Result<
    Seq<(Seq<u8>, Seq<u8>)>,
    WordSearchError,
> {
    if chosen.len() == 0 {
        Err(WordSearchError::DbNotFoundErr)
    } else if found.len() == 0 {
        Err(WordSearchError::WordNotFoundErr)
    } else {
        Ok(found)
    }
}

/// The view of a query's result.
pub open spec fn result_view(r: Result<Vec<(Vec<u8>, Vec<u8>)>, WordSearchError>) -> Result<
    Seq<(Seq<u8>, Seq<u8>)>,
    WordSearchError,
> {
    match r {
        Ok(v) => Ok(pairs(v@)),
        Err(e) => Err(e),
    }
}

/// The registered dictionaries, in the order of registration.
pub struct Dictionaries {
    dicts: Vec<Dictionary>,
}

impl View for Dictionaries {
    type V = Seq<Dictionary>;

    /// The dictionaries in registration order.
    closed spec fn view(&self) -> Seq<Dictionary> {
        self.dicts@
    }
}

impl Dictionaries {
    /// The short names in registration order, as they go over the wire.
    pub open spec fn names(&self) -> Seq<Seq<u8>> {
        Seq::new(self@.len(), |i: int| self@[i].name_bytes())
    }

    /// Every dictionary is well-formed and frozen, and no short name occurs
    /// twice.
    pub open spec fn wf(&self) -> bool {
        &&& forall|i: int| 0 <= i < self@.len() ==> (#[trigger] self@[i]).wf() && self@[i].is_frozen()
        &&& distinct(self.names())
    }

    /// What `lookup_word` answers.
    pub open spec fn spec_lookup(&self, word: Seq<u8>, name: Seq<u8>) -> Result<
        Seq<(Seq<u8>, Seq<u8>)>,
        WordSearchError,
    > {
        let chosen = select(self.names(), name);
        outcome(chosen, definitions(self@, chosen, word))
    }

    /// What `match_word` answers.
    pub open spec fn spec_match(
        &self,
        word: Seq<u8>,
        name: Seq<u8>,
        strategy: MatchStrategy,
    ) -> Result<Seq<(Seq<u8>, Seq<u8>)>, WordSearchError> {
        let chosen = select(self.names(), name);
        outcome(chosen, matches(self@, chosen, word, strategy))
    }

    /// A registry with no dictionaries.
    pub fn new() -> (r: Dictionaries)
        ensures
            r.wf(),
            r@.len() == 0,
    {
        Dictionaries { dicts: Vec::new() }
    }

    /// Number of dictionaries.
    pub fn len(&self) -> (r: usize)
        ensures
            r == self@.len(),
    {
        self.dicts.len()
    }

    /// The dictionary at a position.
    pub fn get(&self, at: usize) -> (r: Option<&Dictionary>)
        ensures
            r == (if at < self@.len() {
                Some(&self@[at as int])
            } else {
                None
            }),
    {
        if at < self.dicts.len() {
            Some(&self.dicts[at])
        } else {
            None
        }
    }

    /// The position of the dictionary with the given short name.
    pub fn position(&self, name: &[u8]) -> (r: Option<usize>)
        ensures
            match r {
                Some(i) => i < self@.len() && self@[i as int].name_bytes() == name@ && forall|
                    j: int,
                | 0 <= j < i ==> self@[j].name_bytes() != name@,
                None => forall|j: int| 0 <= j < self@.len() ==> self@[j].name_bytes() != name@,
            },
    {
        let mut i: usize = 0;
        while i < self.dicts.len()
            invariant
                i <= self.dicts.len(),
                forall|j: int| 0 <= j < i ==> self@[j].name_bytes() != name@,
            decreases self.dicts.len() - i,
        {
            if bytes_eq(self.dicts[i].name().as_bytes(), name) {
                return Some(i);
            }
            i += 1;
        }
        None
    }

    /// Adds a frozen dictionary. One that is registered under the same short
    /// name is replaced, at its place; otherwise the new one comes last.
    pub fn register(&mut self, dict: Dictionary) -> (r: Result<(), RegisterError>)
        requires
            old(self).wf(),
            dict.wf(),
        ensures
            final(self).wf(),
            r is Ok <==> dict.is_frozen(),
            r is Err ==> r == Err::<(), RegisterError>(RegisterError::NotFrozen) && final(self)@
                == old(self)@,
            r is Ok ==> final(self)@ == (if exists|i: int|
                0 <= i < old(self)@.len() && old(self)@[i].name_bytes() == dict.name_bytes() {
                old(self)@.update(
                    choose|i: int|
                        0 <= i < old(self)@.len() && old(self)@[i].name_bytes()
                            == dict.name_bytes(),
                    dict,
                )
            } else {
                old(self)@.push(dict)
            }),
    {
        if !dict.frozen() {
            return Err(RegisterError::NotFrozen);
        }
        let ghost before = self@;
        let ghost name = dict.name_bytes();
        match self.position(dict.name().as_bytes()) {
            Some(i) => {
                proof {
                    let c = choose|c: int| 0 <= c < before.len() && before[c].name_bytes() == name;
                    assert(old(self).names()[c] == name);
                    assert(old(self).names()[i as int] == name);
                    assert(c == i);
                }
                self.dicts.set(i, dict);
                proof {
                    assert forall|a: int, b: int| 0 <= a < b < self.names().len() implies self.names()[a]
                        != self.names()[b] by {
                        assert(old(self).names()[a] == self.names()[a]);
                        assert(old(self).names()[b] == self.names()[b]);
                    }
                }
            },
            None => {
                self.dicts.push(dict);
                proof {
                    assert forall|a: int, b: int| 0 <= a < b < self.names().len() implies self.names()[a]
                        != self.names()[b] by {
                        if b < before.len() {
                            assert(old(self).names()[a] == self.names()[a]);
                            assert(old(self).names()[b] == self.names()[b]);
                        }
                    }
                }
            },
        }
        Ok(())
    }

    /// Short and long name of every dictionary, in registration order.
    pub fn show_databases(&self) -> (r: Vec<(String, String)>)
        ensures
            r@.len() == self@.len(),
            forall|i: int|
                0 <= i < r@.len() ==> (#[trigger] r@[i]).0@ == self@[i].spec_name() && r@[i].1@
                    == self@[i].spec_long_name(),
    {
        let mut out: Vec<(String, String)> = Vec::new();
        let mut i: usize = 0;
        while i < self.dicts.len()
            invariant
                i <= self.dicts.len(),
                out@.len() == i,
                forall|j: int|
                    0 <= j < i ==> (#[trigger] out@[j]).0@ == self@[j].spec_name() && out@[j].1@
                        == self@[j].spec_long_name(),
            decreases self.dicts.len() - i,
        {
            let short: String = self.dicts[i].name().to_owned();
            let long: String = self.dicts[i].long_name().to_owned();
            out.push((short, long));
            i += 1;
        }
        out
    }

    /// Whether `name` is one of `*`, `all` and `!`.
    pub fn wildcard(name: &[u8]) -> (r: bool)
        ensures
            r == is_wildcard(name@),
    {
        bytes_eq(name, "*".as_bytes()) || bytes_eq(name, "all".as_bytes()) || bytes_eq(
            name,
            "!".as_bytes(),
        )
    }

    /// The positions of the dictionaries that `dict_name` selects.
    pub fn filter_dicts(&self, dict_name: &[u8]) -> (r: Vec<usize>)
        ensures
            r@ == select(self.names(), dict_name@),
            forall|i: int| 0 <= i < r@.len() ==> (#[trigger] r@[i]) < self@.len(),
    {
        let all: bool = Self::wildcard(dict_name);
        let mut out: Vec<usize> = Vec::new();
        let mut i: usize = 0;
        while i < self.dicts.len()
            invariant
                i <= self.dicts.len(),
                all == is_wildcard(dict_name@),
                out@ == select_upto(self.names(), dict_name@, i as nat),
                forall|j: int| 0 <= j < out@.len() ==> (#[trigger] out@[j]) < self@.len(),
            decreases self.dicts.len() - i,
        {
            if all || bytes_eq(self.dicts[i].name().as_bytes(), dict_name) {
                out.push(i);
            }
            i += 1;
        }
        out
    }

    /// What was stored comes back: if a dictionary of the registry holds
    /// what a sequence of entries leaves when stored in order, and entry `i`
    /// is the last with its folded head-word, then looking its head-word up
    /// under the name of that dictionary gives the definition of entry `i`,
    /// and nothing else.
    pub proof fn lemma_round_trip(&self, at: int, entries: Seq<Entry>, i: int)
        requires
            self.wf(),
            0 <= at < self@.len(),
            !is_wildcard(self@[at].name_bytes()),
            self@[at].entries() == CompressedMap::insert_all(Map::empty(), entries),
            0 <= i < entries.len(),
            forall|j: int| i < j < entries.len() ==> fold(entries[j].0) != fold(entries[i].0),
        ensures
            self.spec_lookup(entries[i].0, self@[at].name_bytes()) == Ok::<
                Seq<(Seq<u8>, Seq<u8>)>,
                WordSearchError,
            >(
                seq![
                    (
                        both_names(self@[at].name_bytes(), self@[at].long_name_bytes()),
                        entries[i].1,
                    ),
                ],
            ),
    {
        let names = self.names();
        let d = self@[at];
        assert(self.dicts.len() == self@.len());
        assert(names[at] == d.name_bytes());
        lemma_name_selects_one(names, at);
        CompressedMap::lemma_last_entry_stays(Map::empty(), entries, i);
        let chosen = seq![at as usize];
        assert(chosen.drop_last() =~= Seq::<usize>::empty());
        let found = definitions(self@, chosen, entries[i].0);
        assert(chosen.last() as int == at);
        assert(definitions(self@, chosen.drop_last(), entries[i].0) =~= Seq::empty());
        assert(found =~= seq![
            (both_names(d.name_bytes(), d.long_name_bytes()), entries[i].1),
        ]);
    }

    /// The positions of the selected dictionaries that have no definition of
    /// `word` and name another server to ask.
    pub fn fallback_targets(&self, word: &[u8], dict_name: &[u8]) -> (r: Vec<usize>)
        requires
            self.wf(),
        ensures
            r@ == fallbacks(self@, select(self.names(), dict_name@), word@),
            forall|i: int|
                0 <= i < r@.len() ==> (#[trigger] r@[i]) < self@.len() && needs_fallback(
                    self@[r@[i] as int],
                    word@,
                ),
    {
        let chosen: Vec<usize> = self.filter_dicts(dict_name);
        let mut out: Vec<usize> = Vec::new();
        let mut n: usize = 0;
        while n < chosen.len()
            invariant
                n <= chosen.len(),
                self.wf(),
                forall|i: int| 0 <= i < chosen@.len() ==> (#[trigger] chosen@[i]) < self@.len(),
                out@ == fallbacks(self@, chosen@.take(n as int), word@),
                forall|i: int|
                    0 <= i < out@.len() ==> (#[trigger] out@[i]) < self@.len() && needs_fallback(
                        self@[out@[i] as int],
                        word@,
                    ),
            decreases chosen.len() - n,
        {
            let at: usize = chosen[n];
            let d: &Dictionary = &self.dicts[at];
            assert(self@[at as int].wf());
            assert(chosen@.take(n + 1).drop_last() =~= chosen@.take(n as int));
            if d.fallback().is_some() && d.get_word_meaning(word).is_none() {
                out.push(at);
            }
            n += 1;
        }
        assert(chosen@.take(n as int) =~= chosen@);
        out
    }

    /// The definitions of `word` in the dictionaries that `dict_name`
    /// selects, each with the display name of its dictionary.
    pub fn lookup_word(&self, word: &[u8], dict_name: &[u8]) -> (r: Result<
        Vec<(Vec<u8>, Vec<u8>)>,
        WordSearchError,
    >)
        requires
            self.wf(),
        ensures
            result_view(r) == self.spec_lookup(word@, dict_name@),
    {
        let chosen: Vec<usize> = self.filter_dicts(dict_name);
        if chosen.len() == 0 {
            return Err(WordSearchError::DbNotFoundErr);
        }
        let mut out: Vec<(Vec<u8>, Vec<u8>)> = Vec::new();
        let mut n: usize = 0;
        while n < chosen.len()
            invariant
                n <= chosen.len(),
                self.wf(),
                forall|i: int| 0 <= i < chosen@.len() ==> (#[trigger] chosen@[i]) < self@.len(),
                pairs(out@) == definitions(self@, chosen@.take(n as int), word@),
            decreases chosen.len() - n,
        {
            let d: &Dictionary = &self.dicts[chosen[n]];
            assert(self@[chosen@[n as int] as int].wf());
            assert(chosen@.take(n + 1).drop_last() =~= chosen@.take(n as int));
            let ghost before = pairs(out@);
            match d.get_word_meaning(word) {
                Some(text) => {
                    let shown: Vec<u8> = d.get_both_names();
                    out.push((shown, text));
                    assert(pairs(out@) =~= before.push(
                        (
                            both_names(d.name_bytes(), d.long_name_bytes()),
                            d.entries()[fold(word@)].1,
                        ),
                    ));
                },
                None => {},
            }
            n += 1;
        }
        assert(chosen@.take(n as int) =~= chosen@);
        if out.len() == 0 {
            Err(WordSearchError::WordNotFoundErr)
        } else {
            Ok(out)
        }
    }

    /// The head-words that match `word` in the dictionaries that `dict_name`
    /// selects, each with the short name of its dictionary.
    pub fn match_word(&self, word: &[u8], dict_name: &[u8], strategy: MatchStrategy) -> (r: Result<
        Vec<(Vec<u8>, Vec<u8>)>,
        WordSearchError,
    >)
        requires
            self.wf(),
        ensures
            result_view(r) == self.spec_match(word@, dict_name@, strategy),
    {
        let chosen: Vec<usize> = self.filter_dicts(dict_name);
        if chosen.len() == 0 {
            return Err(WordSearchError::DbNotFoundErr);
        }
        let mut out: Vec<(Vec<u8>, Vec<u8>)> = Vec::new();
        let mut n: usize = 0;
        while n < chosen.len()
            invariant
                n <= chosen.len(),
                self.wf(),
                forall|i: int| 0 <= i < chosen@.len() ==> (#[trigger] chosen@[i]) < self@.len(),
                pairs(out@) == matches(self@, chosen@.take(n as int), word@, strategy),
            decreases chosen.len() - n,
        {
            let d: &Dictionary = &self.dicts[chosen[n]];
            assert(self@[chosen@[n as int] as int].wf());
            assert(chosen@.take(n + 1).drop_last() =~= chosen@.take(n as int));
            let ghost before = pairs(out@);
            let mut found: Vec<Vec<u8>> = d.get_word_matches(word, strategy);
            match found.pop() {
                Some(head) => {
                    let short: Vec<u8> = vstd::slice::slice_to_vec(d.name().as_bytes());
                    out.push((short, head));
                    assert(pairs(out@) =~= before.push((d.name_bytes(), head@)));
                },
                None => {},
            }
            n += 1;
        }
        assert(chosen@.take(n as int) =~= chosen@);
        if out.len() == 0 {
            Err(WordSearchError::WordNotFoundErr)
        } else {
            Ok(out)
        }
    }
}

} // verus!
