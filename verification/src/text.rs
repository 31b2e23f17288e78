//! Byte strings: case folding, ordering, prefixes, and the small text
//! transformations the wire protocol needs.
//!
//! Head-words, definitions and protocol lines are all plain byte strings.
//! Every executable function here is specified against a spec function on
//! `Seq<u8>`.

use vstd::prelude::*;

verus! {

pub const SPACE: u8 = 0x20;

pub const CR: u8 = 0x0d;

pub const LF: u8 = 0x0a;

pub const DOUBLE_QUOTE: u8 = 0x22;

pub const SINGLE_QUOTE: u8 = 0x27;

/// ASCII lower-casing of one byte; bytes outside `A..=Z` pass through.
pub open spec fn lower_byte(b: u8) -> u8 {
    if 0x41 <= b <= 0x5a {
        (b + 0x20) as u8
    } else {
        b
    }
}

/// ASCII upper-casing of one byte; bytes outside `a..=z` pass through.
pub open spec fn upper_byte(b: u8) -> u8 {
    if 0x61 <= b <= 0x7a {
        (b - 0x20) as u8
    } else {
        b
    }
}

/// The normal form under which head-words are indexed and compared.
pub open spec fn fold(s: Seq<u8>) -> Seq<u8> {
    Seq::new(s.len(), |i: int| lower_byte(s[i]))
}

/// The normal form under which protocol keywords are compared.
pub open spec fn upper(s: Seq<u8>) -> Seq<u8> {
    Seq::new(s.len(), |i: int| upper_byte(s[i]))
}

/// `p` is an initial segment of `s`.
pub open spec fn has_prefix(s: Seq<u8>, p: Seq<u8>) -> bool {
    &&& p.len() <= s.len()
    &&& forall|j: int| 0 <= j < p.len() ==> s[j] == p[j]
}

/// `a` and `b` agree on their first `k` bytes and `a` is smaller at
/// position `k`, either by ending there or by holding a smaller byte.
pub open spec fn less_at(a: Seq<u8>, b: Seq<u8>, k: int) -> bool {
    &&& 0 <= k <= a.len()
    &&& k < b.len()
    &&& forall|j: int| 0 <= j < k ==> a[j] == b[j]
    &&& (k == a.len() || a[k] < b[k])
}

/// Strict lexicographic byte order.
pub open spec fn lex_lt(a: Seq<u8>, b: Seq<u8>) -> bool {
    exists|k: int| less_at(a, b, k)
}

/// Outcome of comparing two byte strings.
#[derive(Clone, Copy, Debug, PartialEq, Eq, Structural)]
pub enum Rank {
    Before,
    Same,
    After,
}

/// The order is irreflexive and asymmetric.
pub proof fn lemma_lex_asymmetric(a: Seq<u8>, b: Seq<u8>)
    requires
        lex_lt(a, b),
    ensures
        a != b,
        !lex_lt(b, a),
{
    let k = choose|k: int| less_at(a, b, k);
    if a == b {
        assert(false);
    }
    if lex_lt(b, a) {
        let m = choose|m: int| less_at(b, a, m);
        if m < k {
            assert(a[m] == b[m]);
        } else if k < m {
            assert(b[k] == a[k]);
        }
        assert(false);
    }
}

/// The order is transitive.
pub proof fn lemma_lex_transitive(a: Seq<u8>, b: Seq<u8>, c: Seq<u8>)
    requires
        lex_lt(a, b),
        lex_lt(b, c),
    ensures
        lex_lt(a, c),
{
    let k = choose|k: int| less_at(a, b, k);
    let m = choose|m: int| less_at(b, c, m);
    let n = if k <= m {
        k
    } else {
        m
    };
    assert forall|j: int| 0 <= j < n implies a[j] == c[j] by {
        assert(a[j] == b[j]);
        assert(b[j] == c[j]);
    }
    if k < m {
        assert(b[k] == c[k]);
    }
    assert(less_at(a, c, n));
}

/// A string that extends `p` is never smaller than `p`.
pub proof fn lemma_prefix_not_less(s: Seq<u8>, p: Seq<u8>)
    requires
        has_prefix(s, p),
    ensures
        !lex_lt(s, p),
{
    if lex_lt(s, p) {
        let k = choose|k: int| less_at(s, p, k);
        assert(s[k] == p[k]);
        assert(false);
    }
}

/// Past the first string that is at least `p` and does not extend `p`,
/// nothing extends `p` any more.
pub proof fn lemma_prefix_block_ends(p: Seq<u8>, b: Seq<u8>, c: Seq<u8>)
    requires
        !lex_lt(b, p),
        !has_prefix(b, p),
        lex_lt(b, c),
    ensures
        !has_prefix(c, p),
{
    if has_prefix(c, p) {
        let m = choose|m: int| less_at(b, c, m);
        // b and c agree below m; c extends p, so b agrees with p below min(m, |p|).
        if m >= p.len() {
            assert forall|j: int| 0 <= j < p.len() implies b[j] == p[j] by {
                assert(b[j] == c[j]);
            }
            assert(has_prefix(b, p));
        } else {
            assert forall|j: int| 0 <= j < m implies b[j] == p[j] by {
                assert(b[j] == c[j]);
            }
            assert(c[m] == p[m]);
            assert(less_at(b, p, m));
        }
        assert(false);
    }
}

/// Folding twice is folding once.
pub proof fn lemma_fold_idempotent(s: Seq<u8>)
    ensures
        fold(fold(s)) == fold(s),
{
    assert(fold(fold(s)) =~= fold(s));
}

/// `s` with its ASCII letters in lower case.
pub fn to_lower(s: &[u8]) -> (r: Vec<u8>)
    ensures
        r@ == fold(s@),
{
    let mut out: Vec<u8> = Vec::new();
    let mut i: usize = 0;
    while i < s.len()
        invariant
            i <= s.len(),
            out@ == fold(s@.take(i as int)),
        decreases s.len() - i,
    {
        let b: u8 = s[i];
        let c: u8 = if 0x41 <= b && b <= 0x5a {
            b + 0x20
        } else {
            b
        };
        out.push(c);
        i += 1;
        assert(out@ =~= fold(s@.take(i as int)));
    }
    assert(s@.take(i as int) =~= s@);
    out
}

/// `s` with its ASCII letters in upper case.
pub fn to_upper(s: &[u8]) -> (r: Vec<u8>)
    ensures
        r@ == upper(s@),
{
    let mut out: Vec<u8> = Vec::new();
    let mut i: usize = 0;
    while i < s.len()
        invariant
            i <= s.len(),
            out@ == upper(s@.take(i as int)),
        decreases s.len() - i,
    {
        let b: u8 = s[i];
        let c: u8 = if 0x61 <= b && b <= 0x7a {
            b - 0x20
        } else {
            b
        };
        out.push(c);
        i += 1;
        assert(out@ =~= upper(s@.take(i as int)));
    }
    assert(s@.take(i as int) =~= s@);
    out
}

/// Whether two byte strings are equal.
pub fn bytes_eq(a: &[u8], b: &[u8]) -> (r: bool)
    ensures
        r == (a@ == b@),
{
    if a.len() != b.len() {
        return false;
    }
    let mut i: usize = 0;
    while i < a.len()
        invariant
            i <= a.len(),
            a.len() == b.len(),
            forall|j: int| 0 <= j < i ==> a@[j] == b@[j],
        decreases a.len() - i,
    {
        if a[i] != b[i] {
            return false;
        }
        i += 1;
    }
    assert(a@ =~= b@);
    true
}

/// Whether `s` begins with `p`.
pub fn starts_with(s: &[u8], p: &[u8]) -> (r: bool)
    ensures
        r == has_prefix(s@, p@),
{
    if p.len() > s.len() {
        return false;
    }
    let mut i: usize = 0;
    while i < p.len()
        invariant
            i <= p.len(),
            p.len() <= s.len(),
            forall|j: int| 0 <= j < i ==> s@[j] == p@[j],
        decreases p.len() - i,
    {
        if s[i] != p[i] {
            return false;
        }
        i += 1;
    }
    true
}

/// Three-way lexicographic comparison.
pub fn compare(a: &[u8], b: &[u8]) -> (r: Rank)
    ensures
        r == Rank::Before <==> lex_lt(a@, b@),
        r == Rank::Same <==> a@ == b@,
        r == Rank::After <==> lex_lt(b@, a@),
{
    let mut i: usize = 0;
    while i < a.len() && i < b.len()
        invariant
            i <= a.len(),
            i <= b.len(),
            forall|j: int| 0 <= j < i ==> a@[j] == b@[j],
        decreases a.len() - i,
    {
        if a[i] < b[i] {
            proof {
                assert(less_at(a@, b@, i as int));
                lemma_lex_asymmetric(a@, b@);
            }
            return Rank::Before;
        }
        if a[i] > b[i] {
            proof {
                assert(less_at(b@, a@, i as int));
                lemma_lex_asymmetric(b@, a@);
            }
            return Rank::After;
        }
        i += 1;
    }
    if i < b.len() {
        proof {
            assert(less_at(a@, b@, i as int));
            lemma_lex_asymmetric(a@, b@);
        }
        Rank::Before
    } else if i < a.len() {
        proof {
            assert(less_at(b@, a@, i as int));
            lemma_lex_asymmetric(b@, a@);
        }
        Rank::After
    } else {
        proof {
            assert(a@ =~= b@);
            if lex_lt(a@, b@) {
                lemma_lex_asymmetric(a@, b@);
            }
        }
        Rank::Same
    }
}

/// Appends `src` to `dst`.
pub fn append(dst: &mut Vec<u8>, src: &[u8])
    ensures
        final(dst)@ == old(dst)@ + src@,
{
    dst.extend_from_slice(src);
    assert(dst@ =~= old(dst)@ + src@);
}

/// A fresh copy of `s`.
pub fn copy_of(s: &[u8]) -> (r: Vec<u8>)
    ensures
        r@ == s@,
{
    let r = copy_range(s, 0, s.len());
    assert(s@.subrange(0, s@.len() as int) =~= s@);
    r
}

/// A fresh copy of `s[from..to]`.
pub fn copy_range(s: &[u8], from: usize, to: usize) -> (r: Vec<u8>)
    requires
        from <= to <= s@.len(),
    ensures
        r@ == s@.subrange(from as int, to as int),
{
    let mut out: Vec<u8> = Vec::new();
    let mut i: usize = from;
    while i < to
        invariant
            from <= i <= to,
            to <= s@.len(),
            out@ == s@.subrange(from as int, i as int),
        decreases to - i,
    {
        out.push(s[i]);
        i += 1;
        assert(out@ =~= s@.subrange(from as int, i as int));
    }
    out
}

/// Byte vectors seen as byte strings.
pub open spec fn rows(v: Seq<Vec<u8>>) -> Seq<Seq<u8>> {
    Seq::new(v.len(), |i: int| v[i]@)
}

/// Pairs of byte vectors seen as pairs of byte strings.
pub open spec fn pairs(v: Seq<(Vec<u8>, Vec<u8>)>) -> Seq<(Seq<u8>, Seq<u8>)> {
    Seq::new(v.len(), |i: int| (v[i].0@, v[i].1@))
}

/// Space, tab, line feed, vertical tab, form feed and carriage return.
pub open spec fn is_blank(b: u8) -> bool {
    b == 0x20 || 0x09 <= b <= 0x0d
}

/// `s` without the blanks at its end.
pub open spec fn trim_end(s: Seq<u8>) -> Seq<u8>
    decreases s.len(),
{
    if s.len() > 0 && is_blank(s.last()) {
        trim_end(s.drop_last())
    } else {
        s
    }
}

/// The pieces of `s` between single separators. There is always at least
/// one piece, and two separators in a row enclose an empty one.
pub open spec fn split_on(s: Seq<u8>, separator: u8) -> Seq<Seq<u8>>
    decreases s.len(),
{
    if s.len() == 0 {
        seq![Seq::empty()]
    } else {
        let before = split_on(s.drop_last(), separator);
        if s.last() == separator {
            before.push(Seq::empty())
        } else {
            before.drop_last().push(before.last().push(s.last()))
        }
    }
}

/// The pieces of `s` between single spaces.
pub open spec fn split(s: Seq<u8>) -> Seq<Seq<u8>> {
    split_on(s, SPACE)
}

/// An argument without the pair of quotes that encloses it, if one does:
/// two double quotes or two single quotes, first and last.
pub open spec fn unquoted(s: Seq<u8>) -> Seq<u8> {
    if s.len() >= 2 && s.first() == s.last() && (s.first() == DOUBLE_QUOTE || s.first()
        == SINGLE_QUOTE) {
        s.subrange(1, s.len() - 1)
    } else {
        s
    }
}

/// The decimal digits of `n`.
pub open spec fn decimal(n: nat) -> Seq<u8>
    decreases n,
{
    if n < 10 {
        seq![(0x30 + n) as u8]
    } else {
        decimal(n / 10).push((0x30 + n % 10) as u8)
    }
}

/// `s` with a carriage return put before every line feed that has none.
pub open spec fn unix2dos(s: Seq<u8>) -> Seq<u8>
    decreases s.len(),
{
    if s.len() == 0 {
        Seq::empty()
    } else {
        let before = unix2dos(s.drop_last());
        if s.last() == LF && (s.len() == 1 || s[s.len() - 2] != CR) {
            before.push(CR).push(LF)
        } else {
            before.push(s.last())
        }
    }
}

/// `s` with every carriage return that stands before a line feed taken out.
pub open spec fn dos2unix(s: Seq<u8>) -> Seq<u8>
    decreases s.len(),
{
    if s.len() == 0 {
        Seq::empty()
    } else if s.last() == LF && s.len() >= 2 && s[s.len() - 2] == CR {
        dos2unix(s.drop_last().drop_last()).push(LF)
    } else {
        dos2unix(s.drop_last()).push(s.last())
    }
}

/// Somewhere in `s` a carriage return stands before a line feed.
pub open spec fn has_crlf(s: Seq<u8>) -> bool {
    exists|i: int| 0 <= i < s.len() - 1 && #[trigger] s[i] == CR && s[i + 1] == LF
}

/// Taking the carriage returns out again undoes `unix2dos`, up to those
/// that the text had before its line feeds from the start.
pub proof fn lemma_dos2unix_after_unix2dos(s: Seq<u8>)
    ensures
        dos2unix(unix2dos(s)) == dos2unix(s),
    decreases s.len(),
{
    if s.len() > 0 {
        let t = s.drop_last();
        let c = s.last();
        if c == LF && (s.len() == 1 || s[s.len() - 2] != CR) {
            lemma_dos2unix_after_unix2dos(t);
            let u = unix2dos(s);
            assert(u == unix2dos(t).push(CR).push(LF));
            assert(u.drop_last().drop_last() =~= unix2dos(t));
        } else if c == LF {
            let t2 = t.drop_last();
            lemma_dos2unix_after_unix2dos(t2);
            assert(t.last() == CR);
            assert(unix2dos(t) == unix2dos(t2).push(CR));
            let u = unix2dos(s);
            assert(u == unix2dos(t2).push(CR).push(LF));
            assert(u.drop_last().drop_last() =~= unix2dos(t2));
        } else {
            lemma_dos2unix_after_unix2dos(t);
            let u = unix2dos(s);
            assert(u == unix2dos(t).push(c));
            assert(u.drop_last() =~= unix2dos(t));
        }
    }
}

/// A text in which no carriage return stands before a line feed comes back
/// byte for byte when `unix2dos` is undone.
pub proof fn lemma_line_ends_come_back(s: Seq<u8>)
    requires
        !has_crlf(s),
    ensures
        dos2unix(unix2dos(s)) == s,
{
    lemma_dos2unix_after_unix2dos(s);
    lemma_dos2unix_without_crlf(s);
}

proof fn lemma_dos2unix_without_crlf(s: Seq<u8>)
    requires
        !has_crlf(s),
    ensures
        dos2unix(s) == s,
    decreases s.len(),
{
    if s.len() > 0 {
        let t = s.drop_last();
        assert(!has_crlf(t)) by {
            if has_crlf(t) {
                let i = choose|i: int| 0 <= i < t.len() - 1 && #[trigger] t[i] == CR && t[i + 1] == LF;
                assert(s[i] == CR && s[i + 1] == LF);
            }
        }
        lemma_dos2unix_without_crlf(t);
        if s.last() == LF && s.len() >= 2 && s[s.len() - 2] == CR {
            assert(s[s.len() - 2] == CR && s[s.len() - 2 + 1] == LF);
            assert(false);
        }
        assert(t.push(s.last()) =~= s);
    }
}

/// `s` without the blanks at its end.
pub fn trim_trailing(s: &[u8]) -> (r: Vec<u8>)
    ensures
        r@ == trim_end(s@),
{
    let mut end: usize = s.len();
    assert(s@.take(end as int) =~= s@);
    while end > 0 && (s[end - 1] == 0x20 || (0x09 <= s[end - 1] && s[end - 1] <= 0x0d))
        invariant
            end <= s.len(),
            trim_end(s@) == trim_end(s@.take(end as int)),
        decreases end,
    {
        assert(s@.take(end as int).drop_last() =~= s@.take(end - 1));
        end -= 1;
    }
    copy_range(s, 0, end)
}

/// The pieces of `s` between single spaces.
pub fn split_spaces(s: &[u8]) -> (r: Vec<Vec<u8>>)
    ensures
        rows(r@) == split(s@),
        r@.len() >= 1,
{
    split_bytes(s, SPACE)
}

/// The pieces of `s` between single separators.
pub fn split_bytes(s: &[u8], separator: u8) -> (r: Vec<Vec<u8>>)
    ensures
        rows(r@) == split_on(s@, separator),
        r@.len() >= 1,
{
    let mut done: Vec<Vec<u8>> = Vec::new();
    let mut piece: Vec<u8> = Vec::new();
    let mut i: usize = 0;
    assert(rows(done@).push(piece@) =~= split_on(s@.take(0), separator));
    while i < s.len()
        invariant
            i <= s.len(),
            rows(done@).push(piece@) == split_on(s@.take(i as int), separator),
        decreases s.len() - i,
    {
        let ghost before = rows(done@).push(piece@);
        assert(s@.take(i + 1).drop_last() =~= s@.take(i as int));
        let b: u8 = s[i];
        if b == separator {
            done.push(piece);
            piece = Vec::new();
            assert(rows(done@).push(piece@) =~= before.push(Seq::empty()));
        } else {
            piece.push(b);
            assert(rows(done@).push(piece@) =~= before.drop_last().push(before.last().push(b)));
        }
        i += 1;
    }
    assert(s@.take(i as int) =~= s@);
    let ghost before = rows(done@).push(piece@);
    done.push(piece);
    assert(rows(done@) =~= before);
    done
}

/// `s` without the pair of quotes that encloses it, if one does.
pub fn unquote(s: &[u8]) -> (r: Vec<u8>)
    ensures
        r@ == unquoted(s@),
{
    let n: usize = s.len();
    if n >= 2 && s[0] == s[n - 1] && (s[0] == DOUBLE_QUOTE || s[0] == SINGLE_QUOTE) {
        copy_range(s, 1, n - 1)
    } else {
        let r = copy_range(s, 0, n);
        assert(s@.subrange(0, n as int) =~= s@);
        r
    }
}

/// The decimal digits of `n`.
pub fn to_decimal(n: usize) -> (r: Vec<u8>)
    ensures
        r@ == decimal(n as nat),
    decreases n,
{
    if n < 10 {
        let mut out: Vec<u8> = Vec::new();
        out.push(0x30 + n as u8);
        assert(out@ =~= decimal(n as nat));
        out
    } else {
        let mut out: Vec<u8> = to_decimal(n / 10);
        out.push(0x30 + (n % 10) as u8);
        out
    }
}

/// `s` with every bare line feed turned into carriage return and line
/// feed.
pub fn to_dos(s: &[u8]) -> (r: Vec<u8>)
    ensures
        r@ == unix2dos(s@),
{
    let mut out: Vec<u8> = Vec::new();
    let mut i: usize = 0;
    while i < s.len()
        invariant
            i <= s.len(),
            out@ == unix2dos(s@.take(i as int)),
        decreases s.len() - i,
    {
        assert(s@.take(i + 1).drop_last() =~= s@.take(i as int));
        let b: u8 = s[i];
        if b == LF && (i == 0 || s[i - 1] != CR) {
            out.push(CR);
        }
        out.push(b);
        i += 1;
    }
    assert(s@.take(i as int) =~= s@);
    out
}

} // verus!
