//! Loading a dictionary from the lines of a tagged text.
//!
//! A head-word stands between `<k>` and `</k>`. What follows a tag, up to
//! the next tag, is the definition of its head-word; a line feed that ends a
//! line inside a definition is kept, and none is added where the text has
//! none. What precedes the first tag belongs to no entry.
//!
//! The loader takes the text line by line, so that the caller can stream it.
//! A line comes without its line feed, and with the word whether it had one:
//! only the last line of a text can be without.
//! Entries go to the dictionary in batches; `finish` stores the last entry
//! and freezes the dictionary.

use vstd::prelude::*;
use crate::dictionary::Dictionary;
use crate::store::{CompressedMap, Entry, MAX_DEFINITION};
use crate::tags::{
    captures, captures_of, compile, compiles, in_order, pattern_of, Span, TAG_PATTERN, WORD_GROUP,
};
use crate::text::{append, copy_range, pairs, rows, split_bytes, split_on, LF};

verus! {

/// Entries that are collected before they are handed to the dictionary.
pub const BATCH: usize = 1280;

/// Why a load was given up.
#[derive(Clone, Copy, Debug, PartialEq, Eq, Structural)]
pub enum LoadError {
    /// The tag pattern did not compile.
    BadPattern,
    /// A definition is longer than the dictionary can store.
    TooLarge,
    /// The compressor failed while the dictionary was being frozen.
    Compression,
}

/// A line without its line feed, the tags found in it, and whether a line
/// feed ended it.
pub type Tagged = (Seq<u8>, Seq<Span>, bool);

/// Where a scan stands: the head-word whose definition is being collected,
/// the text collected so far, and the entries that are complete.
pub struct Scan {
    pub pending: Option<Seq<u8>>,
    pub text: Seq<u8>,
    pub entries: Seq<(Seq<u8>, Seq<u8>)>,
}

/// The scan before any line.
pub open spec fn start_scan() -> Scan {
    Scan { pending: None, text: Seq::empty(), entries: Seq::empty() }
}

/// The head-word that a tag holds.
pub open spec fn word_of(line: Seq<u8>, span: Span) -> Option<Seq<u8>> {
    match span.2 {
        Some(g) => Some(line.subrange(g.0 as int, g.1 as int)),
        None => None,
    }
}

/// Where the text between tags resumes before tag `i`: at the end of the tag
/// before it, or at the start of the line.
pub open spec fn resume_at(spans: Seq<Span>, i: int) -> int {
    if i <= 0 {
        0
    } else {
        spans[i - 1].1 as int
    }
}

/// A tag ends the definition that was being collected, if there was a
/// head-word for it, and opens the next one.
pub open spec fn scan_tag(s: Scan, line: Seq<u8>, from: int, span: Span) -> Scan {
    let text = s.text + line.subrange(from, span.0 as int);
    Scan {
        pending: word_of(line, span),
        text: Seq::empty(),
        entries: match s.pending {
            Some(w) => s.entries.push((w, text)),
            None => s.entries,
        },
    }
}

/// The scan after the first `n` tags of a line.
pub open spec fn scan_tags(s: Scan, line: Seq<u8>, spans: Seq<Span>, n: nat) -> Scan
    decreases n,
{
    if n == 0 {
        s
    } else {
        scan_tag(
            scan_tags(s, line, spans, (n - 1) as nat),
            line,
            resume_at(spans, n - 1),
            spans[n - 1],
        )
    }
}

/// What ends a line in the text: a line feed where the line had one.
pub open spec fn line_end(ended: bool) -> Seq<u8> {
    if ended {
        seq![LF]
    } else {
        Seq::empty()
    }
}

/// The scan after a whole line: after its tags, the rest of the line joins
/// the text, and so does the line feed if one ended the line.
pub open spec fn scan_line(s: Scan, line: Seq<u8>, spans: Seq<Span>, ended: bool) -> Scan {
    let t = scan_tags(s, line, spans, spans.len());
    Scan {
        pending: t.pending,
        text: t.text + line.skip(resume_at(spans, spans.len() as int)) + line_end(ended),
        entries: t.entries,
    }
}

/// The scan after a sequence of lines.
pub open spec fn scan_lines(history: Seq<Tagged>) -> Scan
    decreases history.len(),
{
    if history.len() == 0 {
        start_scan()
    } else {
        scan_line(
            scan_lines(history.drop_last()),
            history.last().0,
            history.last().1,
            history.last().2,
        )
    }
}

/// The entries of a text: those that are complete, and the one that the end
/// of the text completes.
pub open spec fn parsed_entries(history: Seq<Tagged>) -> Seq<Entry> {
    let s = scan_lines(history);
    match s.pending {
        Some(w) => s.entries.push((w, s.text)),
        None => s.entries,
    }
}

/// The lines of a text with the tags that the tag pattern finds in them.
/// A line feed ended every line but the last; `ended` says whether one ended
/// the last.
pub open spec fn tagged(lines: Seq<Seq<u8>>, ended: bool) -> Seq<Tagged> {
    Seq::new(
        lines.len(),
        |i: int|
            (
                lines[i],
                captures_of(TAG_PATTERN@, WORD_GROUP@, lines[i]),
                i + 1 < lines.len() || ended,
            ),
    )
}

/// The lines of a text, without their line feeds. What follows the last
/// line feed is a line if there is anything.
pub open spec fn text_lines(text: Seq<u8>) -> Seq<Seq<u8>> {
    let pieces = split_on(text, LF);
    if pieces.last().len() == 0 {
        pieces.drop_last()
    } else {
        pieces
    }
}

/// Whether a line feed ends the last line of a text, which is so where
/// nothing follows the last line feed.
pub open spec fn text_ended(text: Seq<u8>) -> bool {
    split_on(text, LF).last().len() == 0
}

/// Tags only ever add entries: those present after `n` tags are still there,
/// at the same places, after `m >= n` tags.
pub proof fn lemma_tags_keep_entries(s: Scan, line: Seq<u8>, spans: Seq<Span>, n: nat, m: nat)
    requires
        n <= m,
    ensures
        scan_tags(s, line, spans, n).entries.len() <= scan_tags(s, line, spans, m).entries.len(),
        forall|k: int|
            0 <= k < scan_tags(s, line, spans, n).entries.len() ==> scan_tags(
                s,
                line,
                spans,
                n,
            ).entries[k] == #[trigger] scan_tags(s, line, spans, m).entries[k],
    decreases m,
{
    if n < m {
        lemma_tags_keep_entries(s, line, spans, n, (m - 1) as nat);
    }
}

/// Lines only ever add entries: those that the first `k` lines complete are
/// still there, at the same places, after all the lines.
pub proof fn lemma_lines_keep_entries(history: Seq<Tagged>, k: int)
    requires
        0 <= k <= history.len(),
    ensures
        scan_lines(history.take(k)).entries.len() <= scan_lines(history).entries.len(),
        forall|j: int|
            0 <= j < scan_lines(history.take(k)).entries.len() ==> scan_lines(
                history.take(k),
            ).entries[j] == #[trigger] scan_lines(history).entries[j],
    decreases history.len(),
{
    if k == history.len() {
        assert(history.take(k) =~= history);
    } else {
        let shorter = history.drop_last();
        assert(shorter.take(k) =~= history.take(k));
        lemma_lines_keep_entries(shorter, k);
        lemma_tags_keep_entries(
            scan_lines(shorter),
            history.last().0,
            history.last().1,
            0,
            history.last().1.len(),
        );
    }
}

/// A load in progress: the dictionary being filled and the state of the
/// scan.
pub struct Loader {
    dict: Dictionary,
    tags: regex::bytes::Regex,
    pending: Option<Vec<u8>>,
    text: Vec<u8>,
    batch: Vec<(Vec<u8>, Vec<u8>)>,
    history: Ghost<Seq<Tagged>>,
}

impl Loader {
    /// The lines taken so far, each with its tags.
    pub closed spec fn history(&self) -> Seq<Tagged> {
        self.history@
    }

    pub closed spec fn spec_name(&self) -> Seq<char> {
        self.dict.spec_name()
    }

    pub closed spec fn spec_long_name(&self) -> Seq<char> {
        self.dict.spec_long_name()
    }

    closed spec fn tracks(&self, s: Scan) -> bool {
        &&& self.dict.wf()
        &&& !self.dict.is_frozen()
        &&& self.dict.spec_fallback() is None
        &&& pattern_of(self.tags) == TAG_PATTERN@
        &&& match self.pending {
            Some(w) => s.pending == Some(w@),
            None => s.pending is None,
        }
        &&& self.text@ == s.text
        &&& CompressedMap::all_fit(s.entries)
        &&& CompressedMap::all_fit(pairs(self.batch@))
        &&& CompressedMap::insert_all(self.dict.entries(), pairs(self.batch@))
            == CompressedMap::insert_all(Map::empty(), s.entries)
    }

    /// The loader holds what the scan of its history says it should.
    pub closed spec fn wf(&self) -> bool {
        self.tracks(scan_lines(self.history@))
    }

    /// Whether every entry that the scan of a history has completed is short
    /// enough to be stored.
    pub open spec fn fits(history: Seq<Tagged>) -> bool {
        CompressedMap::all_fit(scan_lines(history).entries)
    }

    /// A loader for a dictionary with the given names, given the compiled
    /// tag pattern if there is one.
    pub fn with_tags(name: String, long_name: String, tags: Option<regex::bytes::Regex>) -> (r: Result<
        Loader,
        LoadError,
    >)
        requires
            tags matches Some(re) ==> pattern_of(re) == TAG_PATTERN@,
        ensures
            match r {
                Ok(l) => tags is Some && l.wf() && l.history() == Seq::<Tagged>::empty()
                    && l.spec_name() == name@ && l.spec_long_name() == long_name@,
                Err(e) => tags is None && e == LoadError::BadPattern,
            },
    {
        match tags {
            None => Err(LoadError::BadPattern),
            Some(re) => {
                let l = Loader {
                    dict: Dictionary::new_empty(name, long_name),
                    tags: re,
                    pending: None,
                    text: Vec::new(),
                    batch: Vec::new(),
                    history: Ghost(Seq::empty()),
                };
                assert(pairs(l.batch@) =~= Seq::empty());
                Ok(l)
            },
        }
    }

    /// A loader for a dictionary with the given names. It fails if and only
    /// if the tag pattern does not compile.
    pub fn new(name: String, long_name: String) -> (r: Result<Loader, LoadError>)
        ensures
            r is Ok <==> compiles(TAG_PATTERN@),
            match r {
                Ok(l) => l.wf() && l.history() == Seq::<Tagged>::empty() && l.spec_name() == name@
                    && l.spec_long_name() == long_name@,
                Err(e) => e == LoadError::BadPattern,
            },
    {
        Loader::with_tags(name, long_name, compile(TAG_PATTERN))
    }

    /// Hands the collected batch to the dictionary.
    fn flush(&mut self, Ghost(s): Ghost<Scan>)
        requires
            old(self).tracks(s),
        ensures
            final(self).tracks(s),
            final(self).batch@.len() == 0,
            final(self).history == old(self).history,
            final(self).spec_name() == old(self).spec_name(),
            final(self).spec_long_name() == old(self).spec_long_name(),
    {
        let stored = self.dict.push_words(&self.batch);
        assert(stored is Ok);
        self.batch = Vec::new();
        assert(pairs(self.batch@) =~= Seq::empty());
    }

    /// Takes one line, without its line feed, given the tags in it and
    /// whether a line feed ended it.
    ///
    /// The load fails, and is over, if and only if one of the definitions
    /// that this line completes is too long to be stored.
    pub fn feed_spans(self, line: &[u8], spans: &Vec<Span>, ended: bool) -> (r: Result<
        Loader,
        LoadError,
    >)
        requires
            self.wf(),
            in_order(spans@, line@.len()),
        ensures
            r is Ok <==> Self::fits(self.history().push((line@, spans@, ended))),
            match r {
                Ok(l) => l.wf() && l.history() == self.history().push((line@, spans@, ended))
                    && l.spec_name() == self.spec_name() && l.spec_long_name()
                    == self.spec_long_name(),
                Err(e) => e == LoadError::TooLarge,
            },
    {
        let ghost start = scan_lines(self.history@);
        let ghost next = self.history@.push((line@, spans@, ended));
        assert(next.drop_last() =~= self.history@);
        assert(scan_lines(next) == scan_line(start, line@, spans@, ended));
        let mut l = self;
        let mut from: usize = 0;
        let mut i: usize = 0;
        while i < spans.len()
            invariant
                i <= spans.len(),
                in_order(spans@, line@.len()),
                from == resume_at(spans@, i as int),
                from <= line@.len(),
                l.tracks(scan_tags(start, line@, spans@, i as nat)),
                l.history == self.history,
                l.spec_name() == self.spec_name(),
                l.spec_long_name() == self.spec_long_name(),
                next == self.history@.push((line@, spans@, ended)),
                scan_lines(next) == scan_line(start, line@, spans@, ended),
            decreases spans.len() - i,
        {
            let span: Span = spans[i];
            let ghost before = scan_tags(start, line@, spans@, i as nat);
            let ghost after = scan_tags(start, line@, spans@, (i + 1) as nat);
            assert(after == scan_tag(before, line@, from as int, span));
            proof {
                if i > 0 {
                    assert(spans@[i - 1].1 <= spans@[i as int].0);
                }
            }
            append(&mut l.text, vstd::slice::slice_subrange(line, from, span.0));
            let mut word: Option<Vec<u8>> = None;
            core::mem::swap(&mut l.pending, &mut word);
            match word {
                Some(w) => {
                    if l.text.len() > MAX_DEFINITION {
                        proof {
                            let at = before.entries.len() as int;
                            assert(after.entries[at].1.len() > MAX_DEFINITION);
                            lemma_tags_keep_entries(
                                start,
                                line@,
                                spans@,
                                (i + 1) as nat,
                                spans@.len(),
                            );
                            let last = scan_tags(start, line@, spans@, spans@.len());
                            assert(last.entries[at] == after.entries[at]);
                            assert(scan_lines(next).entries[at].1.len() > MAX_DEFINITION);
                        }
                        return Err(LoadError::TooLarge);
                    }
                    let mut text: Vec<u8> = Vec::new();
                    core::mem::swap(&mut l.text, &mut text);
                    let ghost old_batch = pairs(l.batch@);
                    l.batch.push((w, text));
                    proof {
                        let e = (w@, text@);
                        assert(pairs(l.batch@) =~= old_batch.push(e));
                        assert(pairs(l.batch@).drop_last() =~= old_batch);
                        assert(after.entries == before.entries.push(e));
                        assert(after.entries.drop_last() =~= before.entries);
                    }
                },
                None => {
                    l.text = Vec::new();
                },
            }
            l.pending = match span.2 {
                Some(g) => Some(copy_range(line, g.0, g.1)),
                None => None,
            };
            if l.batch.len() > BATCH {
                l.flush(Ghost(after));
            }
            from = span.1;
            i += 1;
        }
        let ghost t = scan_tags(start, line@, spans@, spans@.len());
        assert(l.tracks(t));
        append(&mut l.text, vstd::slice::slice_subrange(line, from, line.len()));
        if ended {
            l.text.push(LF);
        }
        l.history = Ghost(next);
        proof {
            assert(line@.subrange(from as int, line@.len() as int) =~= line@.skip(from as int));
            assert(l.text@ =~= t.text + line@.skip(from as int) + line_end(ended));
            assert(l.tracks(scan_lines(next)));
        }
        Ok(l)
    }

    /// Takes one line, without its line feed, and with the word whether a
    /// line feed ended it.
    ///
    /// The load fails, and is over, if and only if one of the definitions
    /// that this line completes is too long to be stored.
    pub fn feed_line(self, line: &[u8], ended: bool) -> (r: Result<Loader, LoadError>)
        requires
            self.wf(),
        ensures
            r is Ok <==> Self::fits(
                self.history().push((line@, captures_of(TAG_PATTERN@, WORD_GROUP@, line@), ended)),
            ),
            match r {
                Ok(l) => l.wf() && l.history() == self.history().push(
                    (line@, captures_of(TAG_PATTERN@, WORD_GROUP@, line@), ended),
                ) && l.spec_name() == self.spec_name() && l.spec_long_name()
                    == self.spec_long_name(),
                Err(e) => e == LoadError::TooLarge,
            },
    {
        let spans: Vec<Span> = captures(&self.tags, WORD_GROUP, line);
        self.feed_spans(line, &spans, ended)
    }

    /// Ends the load: stores the entry that the end of the text completes,
    /// hands over what is left of the batch, and freezes the dictionary.
    ///
    /// `TooLarge` comes if and only if the last definition is too long to be
    /// stored; otherwise the outcome is the compressor's.
    pub fn finish(self) -> (r: Result<Dictionary, LoadError>)
        requires
            self.wf(),
        ensures
            r == Err::<Dictionary, LoadError>(LoadError::TooLarge) <==> !CompressedMap::all_fit(
                parsed_entries(self.history()),
            ),
            parsed_entries(self.history()).len() == 0 ==> r is Ok,
            match r {
                Ok(d) => d.wf() && d.is_frozen() && d.spec_name() == self.spec_name()
                    && d.spec_long_name() == self.spec_long_name() && d.spec_fallback() is None
                    && d.entries() == CompressedMap::insert_all(
                    Map::empty(),
                    parsed_entries(self.history()),
                ),
                Err(e) => e == LoadError::TooLarge || e == LoadError::Compression,
            },
    {
        let ghost s = scan_lines(self.history@);
        let ghost all = parsed_entries(self.history@);
        let mut l = self;
        let mut word: Option<Vec<u8>> = None;
        core::mem::swap(&mut l.pending, &mut word);
        match word {
            Some(w) => {
                if l.text.len() > MAX_DEFINITION {
                    assert(all[s.entries.len() as int].1.len() > MAX_DEFINITION);
                    return Err(LoadError::TooLarge);
                }
                let mut text: Vec<u8> = Vec::new();
                core::mem::swap(&mut l.text, &mut text);
                let ghost old_batch = pairs(l.batch@);
                l.batch.push((w, text));
                proof {
                    let e = (w@, text@);
                    assert(pairs(l.batch@) =~= old_batch.push(e));
                    assert(pairs(l.batch@).drop_last() =~= old_batch);
                    assert(all == s.entries.push(e));
                    assert(all.drop_last() =~= s.entries);
                }
            },
            None => {},
        }
        assert(CompressedMap::all_fit(all));
        let stored = l.dict.push_words(&l.batch);
        assert(stored is Ok);
        let mut dict = l.dict;
        match dict.compress_dictionary() {
            Ok(()) => Ok(dict),
            Err(_) => Err(LoadError::Compression),
        }
    }

    /// Loads a dictionary from the lines of a text. The lines come without
    /// their line feeds; `ended` says whether a line feed ended the last one.
    ///
    /// The load fails with `BadPattern` if and only if the tag pattern does
    /// not compile, and else with `TooLarge` if and only if a definition is
    /// too long to be stored. Where neither holds, the outcome is the
    /// compressor's, and a text without entries always loads.
    pub fn load_from_lines(
        name: String,
        long_name: String,
        lines: &Vec<Vec<u8>>,
        ended: bool,
    ) -> (r: Result<Dictionary, LoadError>)
        ensures
            r == Err::<Dictionary, LoadError>(LoadError::BadPattern) <==> !compiles(TAG_PATTERN@),
            r == Err::<Dictionary, LoadError>(LoadError::TooLarge) <==> compiles(TAG_PATTERN@)
                && !CompressedMap::all_fit(parsed_entries(tagged(rows(lines@), ended))),
            compiles(TAG_PATTERN@) && parsed_entries(tagged(rows(lines@), ended)).len() == 0
                ==> r is Ok,
            match r {
                Ok(d) => d.wf() && d.is_frozen() && d.spec_name() == name@ && d.spec_long_name()
                    == long_name@ && d.spec_fallback() is None && d.entries()
                    == CompressedMap::insert_all(
                    Map::empty(),
                    parsed_entries(tagged(rows(lines@), ended)),
                ),
                Err(e) => e == LoadError::BadPattern || e == LoadError::TooLarge || e
                    == LoadError::Compression,
            },
    {
        let mut l: Loader = match Loader::new(name, long_name) {
            Ok(l) => l,
            Err(e) => {
                return Err(e);
            },
        };
        let ghost all = tagged(rows(lines@), ended);
        let mut i: usize = 0;
        assert(all.take(0) =~= Seq::<Tagged>::empty());
        while i < lines.len()
            invariant
                i <= lines.len(),
                l.wf(),
                all == tagged(rows(lines@), ended),
                l.history() == all.take(i as int),
                l.spec_name() == name@,
                l.spec_long_name() == long_name@,
                compiles(TAG_PATTERN@),
            decreases lines.len() - i,
        {
            let last: bool = i + 1 < lines.len() || ended;
            proof {
                assert(all.take(i + 1) =~= all.take(i as int).push(
                    (
                        lines@[i as int]@,
                        captures_of(TAG_PATTERN@, WORD_GROUP@, lines@[i as int]@),
                        last,
                    ),
                ));
            }
            match l.feed_line(lines[i].as_slice(), last) {
                Ok(next) => {
                    l = next;
                },
                Err(e) => {
                    proof {
                        // the entry that is too long stays an entry of the whole text
                        let part = scan_lines(all.take(i + 1)).entries;
                        let j = choose|j: int| 0 <= j < part.len() && part[j].1.len() > MAX_DEFINITION;
                        lemma_lines_keep_entries(all, i + 1);
                        assert(scan_lines(all).entries[j] == part[j]);
                        assert(parsed_entries(all)[j] == part[j]);
                    }
                    return Err(e);
                },
            }
            i += 1;
        }
        assert(all.take(i as int) =~= all);
        l.finish()
    }

    /// Loads a dictionary from a text: splits it into lines at its line
    /// feeds and loads the lines.
    pub fn load_from_text(name: String, long_name: String, text: &[u8]) -> (r: Result<
        Dictionary,
        LoadError,
    >)
        ensures
            r == Err::<Dictionary, LoadError>(LoadError::BadPattern) <==> !compiles(TAG_PATTERN@),
            r == Err::<Dictionary, LoadError>(LoadError::TooLarge) <==> compiles(TAG_PATTERN@)
                && !CompressedMap::all_fit(
                parsed_entries(tagged(text_lines(text@), text_ended(text@))),
            ),
            compiles(TAG_PATTERN@) && parsed_entries(
                tagged(text_lines(text@), text_ended(text@)),
            ).len() == 0 ==> r is Ok,
            match r {
                Ok(d) => d.wf() && d.is_frozen() && d.spec_name() == name@ && d.spec_long_name()
                    == long_name@ && d.spec_fallback() is None && d.entries()
                    == CompressedMap::insert_all(
                    Map::empty(),
                    parsed_entries(tagged(text_lines(text@), text_ended(text@))),
                ),
                Err(e) => e == LoadError::BadPattern || e == LoadError::TooLarge || e
                    == LoadError::Compression,
            },
    {
        let mut lines: Vec<Vec<u8>> = split_bytes(text, LF);
        let ghost pieces = rows(lines@);
        let ended: bool = lines[lines.len() - 1].len() == 0;
        if ended {
            lines.pop();
            assert(rows(lines@) =~= pieces.drop_last());
        }
        Loader::load_from_lines(name, long_name, &lines, ended)
    }
}

} // verus!
