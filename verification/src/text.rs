//! Character-level text utilities with their mathematical models.

use vstd::prelude::*;
use vstd::utf8::*;

verus! {

/// The Unicode `White_Space` property, as used by `char::is_whitespace`.
pub open spec fn is_ws(c: char) -> bool {
    ||| ('\u{9}' <= c && c <= '\u{d}')
    ||| c == ' '
    ||| c == '\u{85}'
    ||| c == '\u{a0}'
    ||| c == '\u{1680}'
    ||| ('\u{2000}' <= c && c <= '\u{200a}')
    ||| c == '\u{2028}'
    ||| c == '\u{2029}'
    ||| c == '\u{202f}'
    ||| c == '\u{205f}'
    ||| c == '\u{3000}'
}

/// A class of characters that text is trimmed at or split on.
#[derive(Clone, Copy)]
pub enum CharClass {
    Whitespace,
    Is(char),
}

impl CharClass {
    pub open spec fn holds(self, c: char) -> bool {
        match self {
            CharClass::Whitespace => is_ws(c),
            CharClass::Is(x) => c == x,
        }
    }

    pub fn matches(&self, c: char) -> (r: bool)
        ensures
            r == self.holds(c),
    {
        match self {
            CharClass::Whitespace => is_whitespace(c),
            CharClass::Is(x) => c == *x,
        }
    }
}

pub fn is_whitespace(c: char) -> (r: bool)
    ensures
        r == is_ws(c),
{
    ('\u{9}' <= c && c <= '\u{d}') || c == ' ' || c == '\u{85}' || c == '\u{a0}' || c == '\u{1680}'
        || ('\u{2000}' <= c && c <= '\u{200a}') || c == '\u{2028}' || c == '\u{2029}' || c
        == '\u{202f}' || c == '\u{205f}' || c == '\u{3000}'
}

/// Number of leading characters of `s` in class `k`.
pub open spec fn lead_len(s: Seq<char>, k: CharClass) -> nat
    decreases s.len(),
{
    if s.len() > 0 && k.holds(s[0]) {
        1 + lead_len(s.drop_first(), k)
    } else {
        0
    }
}

/// Number of trailing characters of `s` in class `k`.
pub open spec fn trail_len(s: Seq<char>, k: CharClass) -> nat
    decreases s.len(),
{
    if s.len() > 0 && k.holds(s.last()) {
        1 + trail_len(s.drop_last(), k)
    } else {
        0
    }
}

pub open spec fn trim_start_by(s: Seq<char>, k: CharClass) -> Seq<char> {
    s.skip(lead_len(s, k) as int)
}

pub open spec fn trim_end_by(s: Seq<char>, k: CharClass) -> Seq<char> {
    s.take(s.len() - trail_len(s, k))
}

pub open spec fn trim_by(s: Seq<char>, k: CharClass) -> Seq<char> {
    trim_end_by(trim_start_by(s, k), k)
}

/// `str::trim`: leading and trailing whitespace removed.
pub open spec fn trim(s: Seq<char>) -> Seq<char> {
    trim_by(s, CharClass::Whitespace)
}

pub proof fn lemma_lead_len(s: Seq<char>, k: CharClass, i: int)
    requires
        0 <= i <= s.len(),
        forall|j: int| 0 <= j < i ==> k.holds(#[trigger] s[j]),
        i == s.len() || !k.holds(s[i]),
    ensures
        lead_len(s, k) == i,
    decreases i,
{
    if i > 0 {
        assert(k.holds(s[0]));
        let t = s.drop_first();
        assert forall|j: int| 0 <= j < i - 1 implies k.holds(#[trigger] t[j]) by {
            assert(t[j] == s[j + 1]);
        }
        if i < s.len() {
            assert(t[i - 1] == s[i]);
        }
        lemma_lead_len(t, k, i - 1);
    }
}

pub proof fn lemma_trail_len(s: Seq<char>, k: CharClass, j: int)
    requires
        0 <= j <= s.len(),
        forall|i: int| j <= i < s.len() ==> k.holds(#[trigger] s[i]),
        j == 0 || !k.holds(s[j - 1]),
    ensures
        trail_len(s, k) == s.len() - j,
    decreases s.len() - j,
{
    if j < s.len() {
        assert(k.holds(s[s.len() - 1]));
        let t = s.drop_last();
        assert forall|i: int| j <= i < t.len() implies k.holds(#[trigger] t[i]) by {
            assert(t[i] == s[i]);
        }
        if j > 0 {
            assert(t[j - 1] == s[j - 1]);
        }
        lemma_trail_len(t, k, j);
    }
}

pub proof fn lemma_lead_len_bound(s: Seq<char>, k: CharClass)
    ensures
        lead_len(s, k) <= s.len(),
        lead_len(s, k) < s.len() ==> !k.holds(s[lead_len(s, k) as int]),
    decreases s.len(),
{
    if s.len() > 0 && k.holds(s[0]) {
        let t = s.drop_first();
        lemma_lead_len_bound(t, k);
        let l = lead_len(t, k);
        if l < t.len() {
            assert(t[l as int] == s[l as int + 1]);
        }
    }
}

pub proof fn lemma_trail_len_bound(s: Seq<char>, k: CharClass)
    ensures
        trail_len(s, k) <= s.len(),
        trail_len(s, k) < s.len() ==> !k.holds(s[s.len() - trail_len(s, k) - 1]),
    decreases s.len(),
{
    if s.len() > 0 && k.holds(s.last()) {
        let t = s.drop_last();
        lemma_trail_len_bound(t, k);
        let l = trail_len(t, k);
        if l < t.len() {
            assert(t[t.len() - l - 1] == s[s.len() - (l + 1) - 1]);
        }
    }
}

/// Trimming twice is trimming once.
pub proof fn lemma_trim_idempotent(s: Seq<char>, k: CharClass)
    ensures
        trim_by(trim_by(s, k), k) == trim_by(s, k),
{
    let u = trim_start_by(s, k);
    let t = trim_by(s, k);
    lemma_lead_len_bound(s, k);
    lemma_trail_len_bound(u, k);
    let tl = trail_len(u, k);
    if t.len() > 0 {
        assert(t[0] == u[0]);
        assert(u[0] == s[lead_len(s, k) as int]);
        assert(t[t.len() - 1] == u[u.len() - tl - 1]);
    }
    assert(lead_len(t, k) == 0);
    assert(trim_start_by(t, k) =~= t);
    if t.len() > 0 {
        assert(t.last() == t[t.len() - 1]);
    }
    assert(trail_len(t, k) == 0);
    assert(trim_end_by(t, k) =~= t);
}

/// Index of the first character at or after `from` that is not in class `k`.
fn skip_class(s: &str, k: CharClass, from: usize, n: usize) -> (i: usize)
    requires
        n == s@.len(),
        from <= n,
    ensures
        from <= i <= n,
        forall|j: int| from <= j < i ==> k.holds(#[trigger] s@[j]),
        i == n || !k.holds(s@[i as int]),
{
    let mut i = from;
    while i < n
        invariant
            from <= i <= n,
            n == s@.len(),
            forall|j: int| from <= j < i ==> k.holds(#[trigger] s@[j]),
        ensures
            from <= i <= n,
            forall|j: int| from <= j < i ==> k.holds(#[trigger] s@[j]),
            i == n || !k.holds(s@[i as int]),
        decreases n - i,
    {
        if !k.matches(s.get_char(i)) {
            break;
        }
        i += 1;
    }
    i
}

/// Index just past the last character before `to` (and at or after `low`)
/// that is not in class `k`.
fn skip_class_back(s: &str, k: CharClass, low: usize, to: usize) -> (j: usize)
    requires
        low <= to <= s@.len(),
    ensures
        low <= j <= to,
        forall|i: int| j <= i < to ==> k.holds(#[trigger] s@[i]),
        j == low || !k.holds(s@[j - 1]),
{
    let mut j = to;
    while j > low
        invariant
            low <= j <= to,
            to <= s@.len(),
            forall|i: int| j <= i < to ==> k.holds(#[trigger] s@[i]),
        ensures
            low <= j <= to,
            forall|i: int| j <= i < to ==> k.holds(#[trigger] s@[i]),
            j == low || !k.holds(s@[j - 1]),
        decreases j,
    {
        if !k.matches(s.get_char(j - 1)) {
            break;
        }
        j -= 1;
    }
    j
}

/// Removes leading characters of class `k` when `start`, trailing ones when `end`.
pub fn trim_class(s: &str, k: CharClass, start: bool, end: bool) -> (r: &str)
    ensures
        r@ == {
            let a = if start { trim_start_by(s@, k) } else { s@ };
            if end { trim_end_by(a, k) } else { a }
        },
{
    let n = s.unicode_len();
    let i = if start { skip_class(s, k, 0, n) } else { 0 };
    proof {
        if start {
            lemma_lead_len(s@, k, i as int);
        }
    }
    let ghost a = s@.skip(i as int);
    assert(a == (if start { trim_start_by(s@, k) } else { s@ }));
    let j = if end { skip_class_back(s, k, i, n) } else { n };
    proof {
        if end {
            assert forall|x: int| j - i <= x < a.len() implies k.holds(#[trigger] a[x]) by {
                assert(a[x] == s@[x + i]);
            }
            if j > i {
                assert(a[j - i - 1] == s@[j - 1]);
            }
            lemma_trail_len(a, k, j - i);
        }
    }
    let r = s.substring_char(i, j);
    assert(r@ =~= (if end { trim_end_by(a, k) } else { a }));
    r
}

/// `str::trim`.
pub fn trim_ws(s: &str) -> (r: &str)
    ensures
        r@ == trim(s@),
{
    trim_class(s, CharClass::Whitespace, true, true)
}


/// The pieces of `s` between characters of class `k` (as `str::split`).
pub open spec fn split_on(s: Seq<char>, k: CharClass) -> Seq<Seq<char>>
    decreases s.len(),
{
    if s.len() == 0 {
        seq![Seq::<char>::empty()]
    } else {
        let r = split_on(s.drop_last(), k);
        if k.holds(s.last()) {
            r.push(Seq::<char>::empty())
        } else {
            r.update(r.len() - 1, r.last().push(s.last()))
        }
    }
}

pub proof fn lemma_split_on_len(s: Seq<char>, k: CharClass)
    ensures
        split_on(s, k).len() >= 1,
    decreases s.len(),
{
    if s.len() > 0 {
        lemma_split_on_len(s.drop_last(), k);
    }
}

/// Splitting two texts one after the other: the last piece of the first
/// joins the first piece of the second.
pub proof fn lemma_split_on_concat(a: Seq<char>, b: Seq<char>, k: CharClass)
    ensures
        split_on(a + b, k) == split_on(a, k).drop_last() + seq![
            split_on(a, k).last() + split_on(b, k)[0],
        ] + split_on(b, k).drop_first(),
    decreases b.len(),
{
    lemma_split_on_len(a, k);
    let sa = split_on(a, k);
    if b.len() == 0 {
        assert(a + b =~= a);
        assert(sa.last() + Seq::<char>::empty() =~= sa.last());
        assert(sa.drop_last() + seq![sa.last()] =~= sa);
        assert(split_on(b, k).drop_first() =~= Seq::<Seq<char>>::empty());
        assert(sa.drop_last() + seq![sa.last() + split_on(b, k)[0]] + split_on(b, k).drop_first()
            =~= sa);
    } else {
        let b0 = b.drop_last();
        let x = b.last();
        lemma_split_on_concat(a, b0, k);
        lemma_split_on_len(b0, k);
        assert((a + b).drop_last() =~= a + b0);
        assert((a + b).last() == x);
        let sb0 = split_on(b0, k);
        let sb = split_on(b, k);
        let s0 = split_on(a + b0, k);
        if k.holds(x) {
            assert(sb[0] == sb0[0]);
            assert(sb.drop_first() =~= sb0.drop_first().push(Seq::<char>::empty()));
            assert(split_on(a + b, k) =~= sa.drop_last() + seq![sa.last() + sb[0]]
                + sb.drop_first());
        } else {
            if sb0.len() == 1 {
                assert(sb =~= seq![sb0[0].push(x)]);
                assert(sa.last() + sb0[0].push(x) =~= (sa.last() + sb0[0]).push(x));
                assert(sb.drop_first() =~= Seq::<Seq<char>>::empty());
                assert(sb0.drop_first() =~= Seq::<Seq<char>>::empty());
            } else {
                assert(sb[0] == sb0[0]);
                assert(sb.drop_first() =~= sb0.drop_first().update(
                    sb0.len() - 2,
                    sb0.last().push(x),
                ));
            }
            assert(split_on(a + b, k) =~= sa.drop_last() + seq![sa.last() + sb[0]]
                + sb.drop_first());
        }
    }
}

/// Splitting a text made only of separators gives empty pieces only.
pub proof fn lemma_split_on_separators(p: Seq<char>, k: CharClass)
    requires
        forall|i: int| 0 <= i < p.len() ==> k.holds(#[trigger] p[i]),
    ensures
        forall|i: int|
            0 <= i < split_on(p, k).len() ==> (#[trigger] split_on(p, k)[i]).len() == 0,
    decreases p.len(),
{
    if p.len() > 0 {
        let p0 = p.drop_last();
        assert forall|i: int| 0 <= i < p0.len() implies k.holds(#[trigger] p0[i]) by {
            assert(p0[i] == p[i]);
        }
        lemma_split_on_separators(p0, k);
        assert(k.holds(p[p.len() - 1]));
        assert(p.drop_last() =~= p0);
        let s0 = split_on(p0, k);
        assert(split_on(p, k) =~= s0.push(Seq::<char>::empty()));
        assert forall|i: int| 0 <= i < split_on(p, k).len() implies (#[trigger] split_on(
            p,
            k,
        )[i]).len() == 0 by {
            if i < s0.len() {
                assert(split_on(p, k)[i] == s0[i]);
            }
        }
    }
}

/// The views of a sequence of string slices.
pub open spec fn strs_view(v: Seq<&str>) -> Seq<Seq<char>> {
    Seq::new(v.len(), |i: int| v[i]@)
}

/// The views of a sequence of strings.
pub open spec fn strings_view(v: Seq<String>) -> Seq<Seq<char>> {
    Seq::new(v.len(), |i: int| v[i]@)
}

/// `str::split` on a character class.
pub fn split_class(s: &str, k: CharClass) -> (r: Vec<&str>)
    ensures
        strs_view(r@) == split_on(s@, k),
{
    let n = s.unicode_len();
    let mut pieces: Vec<&str> = Vec::new();
    let mut start: usize = 0;
    let mut i: usize = 0;
    assert(s@.take(0) =~= Seq::<char>::empty());
    assert(strs_view(pieces@).push(s@.subrange(0, 0)) =~= seq![Seq::<char>::empty()]);
    while i < n
        invariant
            n == s@.len(),
            start <= i <= n,
            split_on(s@.take(i as int), k) == strs_view(pieces@).push(
                s@.subrange(start as int, i as int),
            ),
        decreases n - i,
    {
        let c = s.get_char(i);
        let ghost prev = strs_view(pieces@);
        assert(s@.take(i + 1).drop_last() =~= s@.take(i as int));
        assert(s@.take(i + 1).last() == c);
        if k.matches(c) {
            let piece = s.substring_char(start, i);
            let ghost old_pieces = pieces@;
            pieces.push(piece);
            assert(pieces@ == old_pieces.push(piece));
            assert(strs_view(pieces@) =~= prev.push(s@.subrange(start as int, i as int)));
            start = i + 1;
            assert(s@.subrange(start as int, (i + 1) as int) =~= Seq::<char>::empty());
            assert(split_on(s@.take(i + 1), k) =~= strs_view(pieces@).push(
                s@.subrange(start as int, (i + 1) as int),
            ));
        } else {
            assert(s@.subrange(start as int, (i + 1) as int) =~= s@.subrange(
                start as int,
                i as int,
            ).push(c));
            assert(split_on(s@.take(i + 1), k) =~= strs_view(pieces@).push(
                s@.subrange(start as int, (i + 1) as int),
            ));
        }
        i += 1;
    }
    let ghost prev = strs_view(pieces@);
    let ghost old_pieces = pieces@;
    let piece = s.substring_char(start, n);
    pieces.push(piece);
    assert(pieces@ == old_pieces.push(piece));
    assert(s@.take(n as int) =~= s@);
    assert(strs_view(pieces@) =~= prev.push(s@.subrange(start as int, n as int)));
    pieces
}

/// Appending characters outside class `k` extends the last piece.
pub proof fn lemma_split_on_plain(s: Seq<char>, t: Seq<char>, k: CharClass)
    requires
        forall|i: int| 0 <= i < t.len() ==> !k.holds(#[trigger] t[i]),
    ensures
        split_on(s + t, k) == split_on(s, k).update(
            split_on(s, k).len() - 1,
            split_on(s, k).last() + t,
        ),
        split_on(s + t, k).len() == split_on(s, k).len(),
    decreases t.len(),
{
    lemma_split_on_len(s, k);
    let r = split_on(s, k);
    if t.len() == 0 {
        assert(s + t =~= s);
        assert(r.last() + t =~= r.last());
        assert(r.update(r.len() - 1, r.last()) =~= r);
    } else {
        let t0 = t.drop_last();
        assert forall|i: int| 0 <= i < t0.len() implies !k.holds(#[trigger] t0[i]) by {
            assert(t0[i] == t[i]);
        }
        lemma_split_on_plain(s, t0, k);
        assert((s + t).drop_last() =~= s + t0);
        assert((s + t).last() == t.last());
        assert(!k.holds(t[t.len() - 1]));
        let r0 = split_on(s + t0, k);
        assert(r0.last() == r.last() + t0);
        assert((r.last() + t0).push(t.last()) =~= r.last() + t);
        assert(r0.update(r0.len() - 1, r0.last().push(t.last())) =~= r.update(
            r.len() - 1,
            r.last() + t,
        ));
    }
}

/// Appending a character of class `k` starts a new, empty piece.
pub proof fn lemma_split_on_sep(s: Seq<char>, c: char, k: CharClass)
    requires
        k.holds(c),
    ensures
        split_on(s.push(c), k) == split_on(s, k).push(Seq::<char>::empty()),
{
    assert(s.push(c).drop_last() =~= s);
    assert(s.push(c).last() == c);
}

/// The non-empty elements of `v`, in order.
pub open spec fn nonempty_only(v: Seq<Seq<char>>) -> Seq<Seq<char>>
    decreases v.len(),
{
    if v.len() == 0 {
        v
    } else {
        let r = nonempty_only(v.drop_last());
        if v.last().len() > 0 {
            r.push(v.last())
        } else {
            r
        }
    }
}

pub proof fn lemma_nonempty_only_concat(x: Seq<Seq<char>>, y: Seq<Seq<char>>)
    ensures
        nonempty_only(x + y) == nonempty_only(x) + nonempty_only(y),
    decreases y.len(),
{
    if y.len() == 0 {
        assert(x + y =~= x);
        assert(nonempty_only(x) + nonempty_only(y) =~= nonempty_only(x));
    } else {
        assert((x + y).drop_last() =~= x + y.drop_last());
        assert((x + y).last() == y.last());
        lemma_nonempty_only_concat(x, y.drop_last());
        if y.last().len() > 0 {
            assert((nonempty_only(x) + nonempty_only(y.drop_last())).push(y.last())
                =~= nonempty_only(x) + nonempty_only(y.drop_last()).push(y.last()));
        }
    }
}

pub proof fn lemma_nonempty_only_of_empties(v: Seq<Seq<char>>)
    requires
        forall|i: int| 0 <= i < v.len() ==> (#[trigger] v[i]).len() == 0,
    ensures
        nonempty_only(v) == Seq::<Seq<char>>::empty(),
    decreases v.len(),
{
    if v.len() > 0 {
        let v0 = v.drop_last();
        assert forall|i: int| 0 <= i < v0.len() implies (#[trigger] v0[i]).len() == 0 by {
            assert(v0[i] == v[i]);
        }
        lemma_nonempty_only_of_empties(v0);
        assert(v.last() == v[v.len() - 1]);
    }
}

/// Whitespace before and after a text does not change its words.
pub proof fn lemma_words_padded(p: Seq<char>, y: Seq<char>, q: Seq<char>)
    requires
        forall|i: int| 0 <= i < p.len() ==> is_ws(#[trigger] p[i]),
        forall|i: int| 0 <= i < q.len() ==> is_ws(#[trigger] q[i]),
    ensures
        words(p + y + q) == words(y),
{
    let k = CharClass::Whitespace;
    let sp = split_on(p, k);
    let sy = split_on(y, k);
    let sq = split_on(q, k);
    lemma_split_on_len(p, k);
    lemma_split_on_len(y, k);
    lemma_split_on_len(q, k);
    lemma_split_on_separators(p, k);
    lemma_split_on_separators(q, k);
    lemma_split_on_concat(p, y, k);
    let spy = split_on(p + y, k);
    assert(sp.last() == sp[sp.len() - 1]);
    assert(sp.last() + sy[0] =~= sy[0]);
    assert forall|i: int| 0 <= i < sp.drop_last().len() implies (#[trigger] sp.drop_last()[
        i
    ]).len() == 0 by {
        assert(sp.drop_last()[i] == sp[i]);
    }
    lemma_nonempty_only_of_empties(sp.drop_last());
    lemma_nonempty_only_concat(sp.drop_last(), seq![sy[0]] + sy.drop_first());
    assert(sy =~= seq![sy[0]] + sy.drop_first());
    assert(spy =~= sp.drop_last() + (seq![sy[0]] + sy.drop_first()));
    assert(Seq::<Seq<char>>::empty() + nonempty_only(sy) =~= nonempty_only(sy));
    assert(nonempty_only(spy) == nonempty_only(sy));
    lemma_split_on_len(p + y, k);
    lemma_split_on_concat(p + y, q, k);
    assert(sq[0] == sq[0]);
    assert(spy.last() + sq[0] =~= spy.last());
    assert forall|i: int| 0 <= i < sq.drop_first().len() implies (#[trigger] sq.drop_first()[
        i
    ]).len() == 0 by {
        assert(sq.drop_first()[i] == sq[i + 1]);
    }
    lemma_nonempty_only_of_empties(sq.drop_first());
    assert(spy =~= spy.drop_last() + seq![spy.last()]);
    lemma_nonempty_only_concat(spy.drop_last() + seq![spy.last()], sq.drop_first());
    assert(nonempty_only(spy) + Seq::<Seq<char>>::empty() =~= nonempty_only(spy));
}

pub proof fn lemma_lead_chars(s: Seq<char>, k: CharClass)
    ensures
        forall|i: int| 0 <= i < lead_len(s, k) ==> k.holds(#[trigger] s[i]),
    decreases s.len(),
{
    lemma_lead_len_bound(s, k);
    if s.len() > 0 && k.holds(s[0]) {
        let t = s.drop_first();
        lemma_lead_chars(t, k);
        assert forall|i: int| 0 <= i < lead_len(s, k) implies k.holds(#[trigger] s[i]) by {
            if i > 0 {
                assert(s[i] == t[i - 1]);
            }
        }
    }
}

pub proof fn lemma_trail_chars(s: Seq<char>, k: CharClass)
    ensures
        forall|i: int| s.len() - trail_len(s, k) <= i < s.len() ==> k.holds(#[trigger] s[i]),
    decreases s.len(),
{
    lemma_trail_len_bound(s, k);
    if s.len() > 0 && k.holds(s.last()) {
        let t = s.drop_last();
        lemma_trail_chars(t, k);
        assert forall|i: int| s.len() - trail_len(s, k) <= i < s.len() implies k.holds(
            #[trigger] s[i],
        ) by {
            if i < s.len() - 1 {
                assert(s[i] == t[i]);
            }
        }
    }
}

/// Trimming a text does not change its words.
pub proof fn lemma_words_trim(x: Seq<char>)
    ensures
        words(trim(x)) == words(x),
{
    let k = CharClass::Whitespace;
    lemma_lead_len_bound(x, k);
    lemma_lead_chars(x, k);
    let l = lead_len(x, k) as int;
    let u = x.skip(l);
    lemma_trail_len_bound(u, k);
    lemma_trail_chars(u, k);
    let m = u.len() - trail_len(u, k);
    let p = x.take(l);
    let q = u.skip(m);
    assert forall|i: int| 0 <= i < p.len() implies is_ws(#[trigger] p[i]) by {
        assert(p[i] == x[i]);
    }
    assert forall|i: int| 0 <= i < q.len() implies is_ws(#[trigger] q[i]) by {
        assert(q[i] == u[m + i]);
    }
    assert(x =~= p + trim(x) + q);
    lemma_words_padded(p, trim(x), q);
}

/// The words of `w ` followed by a text: `w` and then the text's words.
pub proof fn lemma_words_after_word(w: Seq<char>, z: Seq<char>)
    requires
        w.len() > 0,
        forall|i: int| 0 <= i < w.len() ==> !is_ws(#[trigger] w[i]),
    ensures
        words(w.push(' ') + z) == seq![w] + words(z),
{
    let k = CharClass::Whitespace;
    lemma_split_on_plain(Seq::empty(), w, k);
    assert(Seq::<char>::empty() + w =~= w);
    assert(split_on(w, k) =~= seq![w]);
    lemma_split_on_sep(w, ' ', k);
    let sw = split_on(w.push(' '), k);
    assert(sw =~= seq![w, Seq::<char>::empty()]);
    lemma_split_on_len(z, k);
    lemma_split_on_concat(w.push(' '), z, k);
    let sz = split_on(z, k);
    assert(sw.last() + sz[0] =~= sz[0]);
    assert(sz =~= seq![sz[0]] + sz.drop_first());
    assert(split_on(w.push(' ') + z, k) =~= seq![w] + sz);
    lemma_nonempty_only_concat(seq![w], sz);
    let e = seq![w].drop_last();
    assert(e =~= Seq::<Seq<char>>::empty());
    assert(nonempty_only(e) == e);
    assert(seq![w].last() == w);
    assert(nonempty_only(seq![w]) =~= seq![w]);
}

/// `str::split_whitespace`: the maximal runs of non-whitespace characters.
pub open spec fn words(s: Seq<char>) -> Seq<Seq<char>> {
    nonempty_only(split_on(s, CharClass::Whitespace))
}

/// `str::split_whitespace`.
pub fn split_words(s: &str) -> (r: Vec<&str>)
    ensures
        strs_view(r@) == words(s@),
{
    let pieces = split_class(s, CharClass::Whitespace);
    let mut out: Vec<&str> = Vec::new();
    let mut i: usize = 0;
    while i < pieces.len()
        invariant
            i <= pieces@.len(),
            strs_view(out@) == nonempty_only(strs_view(pieces@).take(i as int)),
        decreases pieces@.len() - i,
    {
        let ghost all = strs_view(pieces@);
        assert(all.take(i + 1).drop_last() =~= all.take(i as int));
        let ghost prev = strs_view(out@);
        let p = pieces[i];
        if p.unicode_len() > 0 {
            let ghost old_out = out@;
            out.push(p);
            assert(out@ == old_out.push(p));
            assert(strs_view(out@) =~= prev.push(p@));
        }
        i += 1;
    }
    assert(strs_view(pieces@).take(pieces@.len() as int) =~= strs_view(pieces@));
    out
}

/// A line without the carriage return that ends it, if any.
pub open spec fn strip_cr(l: Seq<char>) -> Seq<char> {
    if l.len() > 0 && l.last() == '\r' {
        l.drop_last()
    } else {
        l
    }
}

/// `str::lines`: the pieces between line breaks, a final empty piece left
/// out, and a carriage return before a line break removed.
pub open spec fn lines_of(s: Seq<char>) -> Seq<Seq<char>> {
    let p = split_on(s, CharClass::Is('\n'));
    let q = if p.last().len() == 0 {
        p.drop_last()
    } else {
        p
    };
    Seq::new(q.len(), |i: int| if i < p.len() - 1 { strip_cr(q[i]) } else { q[i] })
}

/// `str::lines`.
pub fn split_lines(s: &str) -> (r: Vec<&str>)
    ensures
        strs_view(r@) == lines_of(s@),
{
    let p = split_class(s, CharClass::Is('\n'));
    proof {
        lemma_split_on_len(s@, CharClass::Is('\n'));
    }
    let ghost pv = strs_view(p@);
    let np = p.len();
    let last = np - 1;
    let count = if p[last].unicode_len() == 0 {
        last
    } else {
        np
    };
    assert(pv[last as int] == p@[last as int]@);
    let mut out: Vec<&str> = Vec::new();
    let mut i: usize = 0;
    while i < count
        invariant
            i <= count <= np,
            np == p@.len(),
            last + 1 == np,
            count == lines_of(s@).len(),
            pv == strs_view(p@),
            pv == split_on(s@, CharClass::Is('\n')),
            forall|k: int| 0 <= k < i ==> #[trigger] strs_view(out@)[k] == lines_of(s@)[k],
            out@.len() == i,
        decreases count - i,
    {
        let piece = p[i];
        assert(pv[i as int] == piece@);
        let n = piece.unicode_len();
        let line = if i < last && n > 0 && piece.get_char(n - 1) == '\r' {
            let l = piece.substring_char(0, n - 1);
            assert(l@ =~= piece@.drop_last());
            l
        } else {
            piece
        };
        let ghost q = if pv.last().len() == 0 {
            pv.drop_last()
        } else {
            pv
        };
        assert(q[i as int] == piece@);
        assert(i < last ==> line@ == strip_cr(piece@));
        assert(i >= last ==> line@ == piece@);
        assert(line@ == lines_of(s@)[i as int]);
        let ghost prev = out@;
        out.push(line);
        assert(out@ == prev.push(line));
        assert(strs_view(out@)[i as int] == lines_of(s@)[i as int]);
        assert forall|k: int| 0 <= k < i + 1 implies #[trigger] strs_view(out@)[k] == lines_of(
            s@,
        )[k] by {
            if k < i {
                assert(strs_view(out@)[k] == strs_view(prev)[k]);
            }
        }
        i += 1;
    }
    assert(strs_view(out@) =~= lines_of(s@));
    out
}

/// Length of a text in UTF-8 bytes (`str::len`).
pub fn byte_len(s: &str) -> (n: usize)
    ensures
        n == encode_utf8(s@).len(),
{
    s.as_bytes().len()
}

/// Equality of two string slices.
pub fn str_eq(a: &str, b: &str) -> (r: bool)
    ensures
        r == (a@ == b@),
{
    let n = a.unicode_len();
    if n != b.unicode_len() {
        return false;
    }
    let mut i: usize = 0;
    while i < n
        invariant
            n == a@.len() == b@.len(),
            i <= n,
            forall|j: int| 0 <= j < i ==> a@[j] == b@[j],
        decreases n - i,
    {
        if a.get_char(i) != b.get_char(i) {
            return false;
        }
        i += 1;
    }
    assert(a@ =~= b@);
    true
}

/// Whether `s` begins with `prefix`.
pub fn starts_with(s: &str, prefix: &str) -> (r: bool)
    ensures
        r == (prefix@.len() <= s@.len() && s@.take(prefix@.len() as int) == prefix@),
{
    let n = prefix.unicode_len();
    if n > s.unicode_len() {
        return false;
    }
    let mut i: usize = 0;
    while i < n
        invariant
            n == prefix@.len() <= s@.len(),
            i <= n,
            forall|j: int| 0 <= j < i ==> s@[j] == prefix@[j],
        decreases n - i,
    {
        if s.get_char(i) != prefix.get_char(i) {
            assert(s@.take(n as int)[i as int] != prefix@[i as int]);
            return false;
        }
        i += 1;
    }
    assert(s@.take(n as int) =~= prefix@);
    true
}

/// Concatenation of two strings.
pub fn concat_str(a: &str, b: &str) -> (r: String)
    ensures
        r@ == a@ + b@,
{
    let mut s = String::new();
    s.append(a);
    s.append(b);
    assert(s@ =~= a@ + b@);
    s
}

/// Copies a string slice into a new string.
pub fn owned(a: &str) -> (r: String)
    ensures
        r@ == a@,
{
    let mut s = String::new();
    s.append(a);
    assert(s@ =~= a@);
    s
}

/// Lower-case form of a text, as `str::to_lowercase` computes it (Unicode
/// `Lowercase` mapping).
pub uninterp spec fn lowercase(s: Seq<char>) -> Seq<char>;

/// The ASCII lower-case of a character code: `A`..`Z` become `a`..`z`, every
/// other code stays.
pub open spec fn ascii_lower_code(x: int) -> int {
    if 65 <= x && x <= 90 {
        x + 32
    } else {
        x
    }
}

/// The bytes of the ASCII lower-case form of an ASCII text.
pub open spec fn ascii_lower_bytes(s: Seq<char>) -> Seq<u8> {
    Seq::new(s.len(), |j: int| ascii_lower_code(s[j] as int) as u8)
}

/// `lower` begins with the ASCII lower-case form of the ASCII prefix of `s`,
/// character for character.
pub open spec fn lowers_ascii_prefix(s: Seq<char>, lower: Seq<char>) -> bool {
    forall|j: int|
        #![trigger s[j]]
        0 <= j < s.len() && is_ascii_chars(s.take(j + 1)) ==> j < lower.len() && lower[j] as int
            == ascii_lower_code(s[j] as int)
}

/// Calls `str::to_lowercase`. Trusted: the result is the text's lower-case
/// form, a function of the text alone (the Unicode tables of std). As far as
/// the text is ASCII from its start, the result begins with one character for
/// each of those characters, `A`..`Z` turned into `a`..`z` and every other
/// ASCII character kept, and an all-ASCII text keeps its length: Unicode
/// lower-cases each ASCII character to exactly that one character, and
/// `str::to_lowercase` maps the characters in order (its one rule that looks
/// at neighbours concerns the Greek capital sigma).
#[verifier::external_body]
pub(crate) fn to_lowercase(s: &str) -> (r: String)
    ensures
        r@ == lowercase(s@),
        lowers_ascii_prefix(s@, r@),
        is_ascii_chars(s@) ==> r@.len() == s@.len(),
{
    s.to_lowercase()
}

/// Encoding two texts one after the other gives their encodings one after
/// the other.
pub proof fn lemma_encode_concat(a: Seq<char>, b: Seq<char>)
    ensures
        encode_utf8(a + b) == encode_utf8(a) + encode_utf8(b),
    decreases a.len(),
{
    if a.len() == 0 {
        assert(a + b =~= b);
        assert(encode_utf8(a) + encode_utf8(b) =~= encode_utf8(b));
    } else {
        let ab = a + b;
        assert(ab[0] == a[0]);
        assert(ab.drop_first() =~= a.drop_first() + b);
        lemma_encode_concat(a.drop_first(), b);
        assert(encode_utf8(ab) =~= encode_scalar(a[0] as u32) + encode_utf8(a.drop_first())
            + encode_utf8(b));
    }
}

/// A text with characters of class `k` only around an untrimmable core
/// trims down to that core.
pub proof fn lemma_trim_padded(p: Seq<char>, x: Seq<char>, q: Seq<char>, k: CharClass)
    requires
        forall|i: int| 0 <= i < p.len() ==> k.holds(#[trigger] p[i]),
        forall|i: int| 0 <= i < q.len() ==> k.holds(#[trigger] q[i]),
        x.len() == 0 || (!k.holds(x[0]) && !k.holds(x.last())),
    ensures
        trim_by(p + x + q, k) == x,
{
    let s = p + x + q;
    if x.len() == 0 {
        assert forall|j: int| 0 <= j < s.len() implies k.holds(#[trigger] s[j]) by {
            if j < p.len() {
                assert(s[j] == p[j]);
            } else {
                assert(s[j] == q[j - p.len()]);
            }
        }
        lemma_lead_len(s, k, s.len() as int);
        let u = trim_start_by(s, k);
        assert(u.len() == 0);
        assert(trim_by(s, k) =~= x);
    } else {
        assert forall|j: int| 0 <= j < p.len() implies k.holds(#[trigger] s[j]) by {
            assert(s[j] == p[j]);
        }
        assert(s[p.len() as int] == x[0]);
        lemma_lead_len(s, k, p.len() as int);
        let u = trim_start_by(s, k);
        assert(u =~= x + q);
        assert forall|j: int| x.len() <= j < u.len() implies k.holds(#[trigger] u[j]) by {
            assert(u[j] == q[j - x.len()]);
        }
        assert(u[x.len() - 1] == x.last());
        lemma_trail_len(u, k, x.len() as int);
        assert(trim_end_by(u, k) =~= x);
    }
}

/// A text that trimming leaves unchanged neither starts nor ends with a
/// character of the class.
pub proof fn lemma_trimmed_ends(x: Seq<char>, k: CharClass)
    requires
        trim_by(x, k) == x,
    ensures
        x.len() == 0 || (!k.holds(x[0]) && !k.holds(x.last())),
{
    if x.len() > 0 {
        lemma_lead_len_bound(x, k);
        let u = trim_start_by(x, k);
        lemma_trail_len_bound(u, k);
        assert(lead_len(x, k) == 0);
        assert(u =~= x);
        assert(trail_len(u, k) == 0);
    }
}


/// `needle` occurs in `hay` at byte offset `i`.
pub open spec fn occurs_at(hay: Seq<u8>, needle: Seq<u8>, i: int) -> bool {
    0 <= i && i + needle.len() <= hay.len() && hay.subrange(i, i + needle.len()) == needle
}

/// The first offset at or after `i` where `needle` occurs in `hay`.
pub open spec fn find_from(hay: Seq<u8>, needle: Seq<u8>, i: int) -> Option<int>
    decreases hay.len() + 1 - i,
{
    if i < 0 || i + needle.len() > hay.len() {
        None
    } else if occurs_at(hay, needle, i) {
        Some(i)
    } else {
        find_from(hay, needle, i + 1)
    }
}

/// The first occurrence at or after `i` is at `p` when there is one at `p`
/// and none between `i` and `p`.
pub proof fn lemma_find_from_first(hay: Seq<u8>, needle: Seq<u8>, i: int, p: int)
    requires
        0 <= i <= p,
        occurs_at(hay, needle, p),
        forall|k: int| i <= k < p ==> !occurs_at(hay, needle, k),
    ensures
        find_from(hay, needle, i) == Some(p),
    decreases p - i,
{
    if i < p {
        lemma_find_from_first(hay, needle, i + 1, p);
    }
}

pub proof fn lemma_find_from_bounds(hay: Seq<u8>, needle: Seq<u8>, i: int)
    ensures
        find_from(hay, needle, i) matches Some(j) ==> i <= j && occurs_at(hay, needle, j),
    decreases hay.len() + 1 - i,
{
    if i >= 0 && i + needle.len() <= hay.len() && !occurs_at(hay, needle, i) {
        lemma_find_from_bounds(hay, needle, i + 1);
    }
}

/// First byte offset of `needle` in `hay` (as `str::find` reports for text).
pub fn find_bytes(hay: &[u8], needle: &Vec<u8>) -> (r: Option<usize>)
    ensures
        r matches Some(i) ==> find_from(hay@, needle@, 0) == Some(i as int),
        r is None ==> find_from(hay@, needle@, 0) is None,
{
    let h = hay.len();
    let m = needle.len();
    if m > h {
        return None;
    }
    let mut i: usize = 0;
    while i <= h - m
        invariant
            h == hay@.len(),
            m == needle@.len(),
            m <= h,
            i <= h - m + 1,
            find_from(hay@, needle@, 0) == find_from(hay@, needle@, i as int),
        decreases h - m + 1 - i,
    {
        let mut k: usize = 0;
        let mut same = true;
        while k < m
            invariant
                h == hay@.len(),
                m == needle@.len(),
                i + m <= h,
                k <= m,
                same == (forall|x: int| 0 <= x < k ==> hay@[i + x] == needle@[x]),
            decreases m - k,
        {
            if hay[i + k] != needle[k] {
                same = false;
            }
            k += 1;
        }
        if same {
            assert(hay@.subrange(i as int, i + m) =~= needle@);
            return Some(i);
        }
        assert(!occurs_at(hay@, needle@, i as int)) by {
            if occurs_at(hay@, needle@, i as int) {
                assert forall|x: int| 0 <= x < m implies hay@[i + x] == needle@[x] by {
                    assert(hay@.subrange(i as int, i + m)[x] == hay@[i + x]);
                }
            }
        }
        i += 1;
    }
    None
}

proof fn lemma_boundary_in_prefix(bytes: Seq<u8>, a: int, b: int)
    requires
        valid_utf8(bytes),
        0 <= a <= b <= bytes.len(),
        is_char_boundary(bytes, a),
        is_char_boundary(bytes, b),
    ensures
        valid_utf8(bytes.subrange(0, b)),
        is_char_boundary(bytes.subrange(0, b), a),
{
    broadcast use valid_utf8_split, is_char_boundary_start_end_of_seq;

    let p = bytes.subrange(0, b);
    assert(valid_utf8(p));
    if a == 0 {
    } else if a == b {
        assert(p.len() == b);
    } else {
        is_char_boundary_iff_not_is_continuation_byte(bytes, a);
        is_char_boundary_iff_not_is_continuation_byte(p, a);
        assert(p[a] == bytes[a]);
    }
}

/// `&s[a..b]` for byte offsets `a` and `b` that fall on character boundaries.
pub fn byte_slice(s: &str, a: usize, b: usize) -> (r: &str)
    requires
        a <= b <= encode_utf8(s@).len(),
        is_char_boundary(encode_utf8(s@), a as int),
        is_char_boundary(encode_utf8(s@), b as int),
    ensures
        encode_utf8(r@) == encode_utf8(s@).subrange(a as int, b as int),
        r@ == decode_utf8(encode_utf8(s@).subrange(a as int, b as int)),
{
    proof {
        encode_utf8_valid_utf8(s@);
        lemma_boundary_in_prefix(encode_utf8(s@), a as int, b as int);
    }
    let (head, _) = s.split_at(b);
    assert(encode_utf8(head@) =~= encode_utf8(s@).subrange(0, b as int));
    let (_, r) = head.split_at(a);
    assert(encode_utf8(r@) =~= encode_utf8(s@).subrange(a as int, b as int));
    proof {
        encode_utf8_decode_utf8(r@);
    }
    r
}

} // verus!
