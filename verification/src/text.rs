//! Character-level text handling shared by every parser in the crate.
//!
//! Inputs arrive as `&str`; they are turned into `Vec<char>` once and every
//! operation below works on `&[char]`. Each operation has a spec function that
//! says what it computes, so the parsers above can state their contracts in
//! terms of lines, fields and trimmed words rather than loops.
use vstd::prelude::*;

verus! {

// ------------------------------------------------------------------ classes

/// A set of characters an operation skips or splits on.
pub enum Class {
    /// Unicode `White_Space`, what `str::trim` and `split_whitespace` use.
    Ws,
    /// The five ASCII whitespace bytes `split_ascii_whitespace` uses.
    AsciiWs,
    /// One particular character.
    Is(char),
    /// Everything `char::is_alphanumeric` rejects.
    NotAlnum,
}

/// Unicode `White_Space`: the characters `char::is_whitespace` accepts.
pub open spec fn is_ws(c: char) -> bool {
    ||| ('\u{9}' <= c && c <= '\u{d}')
    ||| c == ' '
    ||| c == '\u{85}'
    ||| c == '\u{a0}'
    ||| c == '\u{1680}'
    ||| ('\u{2000}' <= c && c <= '\u{200a}')
    ||| c == '\u{2028}'
    ||| c == '\u{2029}'
    ||| c == '\u{202f}'
    ||| c == '\u{205f}'
    ||| c == '\u{3000}'
}

/// The characters `char::is_ascii_whitespace` accepts.
pub open spec fn is_ascii_ws(c: char) -> bool {
    c == ' ' || c == '\t' || c == '\n' || c == '\u{c}' || c == '\r'
}

pub open spec fn in_class(k: Class, c: char) -> bool {
    match k {
        Class::Ws => is_ws(c),
        Class::AsciiWs => is_ascii_ws(c),
        Class::Is(x) => c == x,
        Class::NotAlnum => !is_alnum(c),
    }
}

pub fn char_is_ws(c: char) -> (b: bool)
    ensures
        b == is_ws(c),
{
    ('\u{9}' <= c && c <= '\u{d}') || c == ' ' || c == '\u{85}' || c == '\u{a0}' || c
        == '\u{1680}' || ('\u{2000}' <= c && c <= '\u{200a}') || c == '\u{2028}' || c
        == '\u{2029}' || c == '\u{202f}' || c == '\u{205f}' || c == '\u{3000}'
}

pub fn class_has(k: &Class, c: char) -> (b: bool)
    ensures
        b == in_class(*k, c),
{
    match k {
        Class::Ws => char_is_ws(c),
        Class::AsciiWs => c == ' ' || c == '\t' || c == '\n' || c == '\u{c}' || c == '\r',
        Class::Is(x) => c == *x,
        Class::NotAlnum => !char_is_alphanumeric(c),
    }
}

// ------------------------------------------------------------------ counting

/// Number of leading characters of `s` in `k`.
pub open spec fn lead(s: Seq<char>, k: Class) -> nat
    decreases s.len(),
{
    if s.len() > 0 && in_class(k, s[0]) {
        1 + lead(s.drop_first(), k)
    } else {
        0
    }
}

/// Number of trailing characters of `s` in `k`.
pub open spec fn trail(s: Seq<char>, k: Class) -> nat
    decreases s.len(),
{
    if s.len() > 0 && in_class(k, s.last()) {
        1 + trail(s.drop_last(), k)
    } else {
        0
    }
}

/// Index of the first character of `s` in `k`, or `s.len()` when there is none.
pub open spec fn first_in(s: Seq<char>, k: Class) -> nat
    decreases s.len(),
{
    if s.len() == 0 {
        0
    } else if in_class(k, s[0]) {
        0
    } else {
        1 + first_in(s.drop_first(), k)
    }
}

pub proof fn lemma_lead(s: Seq<char>, k: Class, i: int)
    requires
        0 <= i <= s.len(),
        forall|j: int| 0 <= j < i ==> in_class(k, #[trigger] s[j]),
        i == s.len() || !in_class(k, s[i]),
    ensures
        lead(s, k) == i,
    decreases s.len(),
{
    if i > 0 {
        assert forall|j: int| 0 <= j < i - 1 implies in_class(k, #[trigger] s.drop_first()[j]) by {
            assert(s.drop_first()[j] == s[j + 1]);
        }
        if i < s.len() {
            assert(s.drop_first()[i - 1] == s[i]);
        }
        lemma_lead(s.drop_first(), k, i - 1);
    }
}

pub proof fn lemma_lead_bounds(s: Seq<char>, k: Class)
    ensures
        lead(s, k) <= s.len(),
        forall|j: int| 0 <= j < lead(s, k) ==> in_class(k, #[trigger] s[j]),
        lead(s, k) == s.len() || !in_class(k, s[lead(s, k) as int]),
    decreases s.len(),
{
    if s.len() > 0 && in_class(k, s[0]) {
        lemma_lead_bounds(s.drop_first(), k);
        assert forall|j: int| 0 <= j < lead(s, k) implies in_class(k, #[trigger] s[j]) by {
            if j > 0 {
                assert(s[j] == s.drop_first()[j - 1]);
            }
        }
        if lead(s, k) < s.len() {
            assert(s[lead(s, k) as int] == s.drop_first()[lead(s, k) - 1]);
        }
    }
}

pub proof fn lemma_trail(s: Seq<char>, k: Class, i: int)
    requires
        0 <= i <= s.len(),
        forall|j: int| s.len() - i <= j < s.len() ==> in_class(k, #[trigger] s[j]),
        i == s.len() || !in_class(k, s[s.len() - i - 1]),
    ensures
        trail(s, k) == i,
    decreases s.len(),
{
    if i > 0 {
        assert forall|j: int|
            s.drop_last().len() - (i - 1) <= j < s.drop_last().len() implies in_class(
            k,
            #[trigger] s.drop_last()[j],
        ) by {
            assert(s.drop_last()[j] == s[j]);
        }
        if i < s.len() {
            assert(s.drop_last()[s.drop_last().len() - (i - 1) - 1] == s[s.len() - i - 1]);
        }
        lemma_trail(s.drop_last(), k, i - 1);
    }
}

pub proof fn lemma_first_in(s: Seq<char>, k: Class, i: int)
    requires
        0 <= i <= s.len(),
        forall|j: int| 0 <= j < i ==> !in_class(k, #[trigger] s[j]),
        i == s.len() || in_class(k, s[i]),
    ensures
        first_in(s, k) == i,
    decreases s.len(),
{
    if i > 0 {
        assert forall|j: int| 0 <= j < i - 1 implies !in_class(k, #[trigger] s.drop_first()[j]) by {
            assert(s.drop_first()[j] == s[j + 1]);
        }
        if i < s.len() {
            assert(s.drop_first()[i - 1] == s[i]);
        }
        lemma_first_in(s.drop_first(), k, i - 1);
    }
}

pub proof fn lemma_first_in_bounds(s: Seq<char>, k: Class)
    ensures
        first_in(s, k) <= s.len(),
        forall|j: int| 0 <= j < first_in(s, k) ==> !in_class(k, #[trigger] s[j]),
        first_in(s, k) == s.len() || in_class(k, s[first_in(s, k) as int]),
    decreases s.len(),
{
    if s.len() > 0 && !in_class(k, s[0]) {
        lemma_first_in_bounds(s.drop_first(), k);
        assert forall|j: int| 0 <= j < first_in(s, k) implies !in_class(k, #[trigger] s[j]) by {
            if j > 0 {
                assert(s[j] == s.drop_first()[j - 1]);
            }
        }
        if first_in(s, k) < s.len() {
            assert(s[first_in(s, k) as int] == s.drop_first()[first_in(s, k) - 1]);
        }
    }
}

// ------------------------------------------------------------------ trimming

pub open spec fn trim_start(s: Seq<char>, k: Class) -> Seq<char> {
    s.subrange(lead(s, k) as int, s.len() as int)
}

pub open spec fn trim_end(s: Seq<char>, k: Class) -> Seq<char> {
    s.subrange(0, s.len() - trail(s, k))
}

/// Both ends, as `str::trim`, `str::trim_matches(c)` and friends do.
pub open spec fn trim(s: Seq<char>, k: Class) -> Seq<char> {
    trim_end(trim_start(s, k), k)
}

/// `str::trim`.
pub open spec fn trim_ws(s: Seq<char>) -> Seq<char> {
    trim(s, Class::Ws)
}

pub proof fn lemma_trail_bound(s: Seq<char>, k: Class)
    ensures
        trail(s, k) <= s.len(),
    decreases s.len(),
{
    if s.len() > 0 && in_class(k, s.last()) {
        lemma_trail_bound(s.drop_last(), k);
    }
}

/// Index of the first character at or after `from` that is in `k`, or `s.len()`.
pub fn find_in(s: &[char], from: usize, k: &Class) -> (i: usize)
    requires
        from <= s@.len(),
    ensures
        from <= i <= s@.len(),
        i == from + first_in(s@.subrange(from as int, s@.len() as int), *k),
{
    let mut i: usize = from;
    while i < s.len() && !class_has(k, s[i])
        invariant
            from <= i <= s@.len(),
            forall|j: int| from <= j < i ==> !in_class(*k, #[trigger] s@[j]),
        decreases s@.len() - i,
    {
        i += 1;
    }
    proof {
        let t = s@.subrange(from as int, s@.len() as int);
        assert forall|j: int| 0 <= j < i - from implies !in_class(*k, #[trigger] t[j]) by {
            assert(t[j] == s@[j + from]);
        }
        if i < s@.len() {
            assert(t[i - from] == s@[i as int]);
        }
        lemma_first_in(t, *k, i - from);
    }
    i
}

/// Index of the first character at or after `from` that is not in `k`, or `s.len()`.
pub fn skip_in(s: &[char], from: usize, k: &Class) -> (i: usize)
    requires
        from <= s@.len(),
    ensures
        from <= i <= s@.len(),
        i == from + lead(s@.subrange(from as int, s@.len() as int), *k),
{
    let mut i: usize = from;
    while i < s.len() && class_has(k, s[i])
        invariant
            from <= i <= s@.len(),
            forall|j: int| from <= j < i ==> in_class(*k, #[trigger] s@[j]),
        decreases s@.len() - i,
    {
        i += 1;
    }
    proof {
        let t = s@.subrange(from as int, s@.len() as int);
        assert forall|j: int| 0 <= j < i - from implies in_class(*k, #[trigger] t[j]) by {
            assert(t[j] == s@[j + from]);
        }
        if i < s@.len() {
            assert(t[i - from] == s@[i as int]);
        }
        lemma_lead(t, *k, i - from);
    }
    i
}

/// A copy of `s[from..to]`.
pub fn slice_to_vec(s: &[char], from: usize, to: usize) -> (out: Vec<char>)
    requires
        from <= to <= s@.len(),
    ensures
        out@ == s@.subrange(from as int, to as int),
{
    let mut out: Vec<char> = Vec::new();
    let mut i: usize = from;
    while i < to
        invariant
            from <= i <= to <= s@.len(),
            out@ == s@.subrange(from as int, i as int),
        decreases to - i,
    {
        out.push(s[i]);
        proof {
            assert(s@.subrange(from as int, i + 1) == s@.subrange(from as int, i as int).push(
                s@[i as int],
            ));
        }
        i += 1;
    }
    out
}

/// Bounds of the part of `s[from..to]` that is left after trimming `k` from both ends.
pub fn trim_bounds(s: &[char], from: usize, to: usize, k: &Class) -> (r: (usize, usize))
    requires
        from <= to <= s@.len(),
    ensures
        from <= r.0 <= r.1 <= to,
        s@.subrange(r.0 as int, r.1 as int) == trim(s@.subrange(from as int, to as int), *k),
{
    let ghost t = s@.subrange(from as int, to as int);
    let mut a: usize = from;
    while a < to && class_has(k, s[a])
        invariant
            from <= a <= to <= s@.len(),
            forall|j: int| from <= j < a ==> in_class(*k, #[trigger] s@[j]),
        decreases to - a,
    {
        a += 1;
    }
    proof {
        assert forall|j: int| 0 <= j < a - from implies in_class(*k, #[trigger] t[j]) by {
            assert(t[j] == s@[j + from]);
        }
        if a < to {
            assert(t[a - from] == s@[a as int]);
        }
        lemma_lead(t, *k, a - from);
    }
    let ghost u = s@.subrange(a as int, to as int);
    assert(u == trim_start(t, *k));
    let mut b: usize = to;
    while b > a && class_has(k, s[b - 1])
        invariant
            from <= a <= b <= to <= s@.len(),
            forall|j: int| b <= j < to ==> in_class(*k, #[trigger] s@[j]),
        decreases b - a,
    {
        b -= 1;
    }
    proof {
        let i = to - b;
        assert forall|j: int| u.len() - i <= j < u.len() implies in_class(*k, #[trigger] u[j]) by {
            assert(u[j] == s@[j + a]);
        }
        if i < u.len() {
            assert(u[u.len() - i - 1] == s@[b - 1]);
        }
        lemma_trail(u, *k, i);
        assert(s@.subrange(a as int, b as int) == u.subrange(0, u.len() - i));
    }
    (a, b)
}

/// `trim(s, k)` as a new vector.
pub fn trimmed(s: &[char], k: &Class) -> (out: Vec<char>)
    ensures
        out@ == trim(s@, *k),
{
    let (a, b) = trim_bounds(s, 0, s.len(), k);
    proof {
        assert(s@.subrange(0, s@.len() as int) == s@);
    }
    slice_to_vec(s, a, b)
}

// ------------------------------------------------------------------ splitting

/// `str::split_once(c)`: the parts before and after the first `c`.
pub open spec fn split_once(s: Seq<char>, c: char) -> Option<(Seq<char>, Seq<char>)> {
    let i = first_in(s, Class::Is(c)) as int;
    if i < s.len() {
        Some((s.subrange(0, i), s.subrange(i + 1, s.len() as int)))
    } else {
        None
    }
}

pub fn split_once_at(s: &[char], c: char) -> (r: Option<usize>)
    ensures
        match r {
            Some(i) => i < s@.len() && i == first_in(s@, Class::Is(c)),
            None => first_in(s@, Class::Is(c)) == s@.len(),
        },
{
    let i = find_in(s, 0, &Class::Is(c));
    proof {
        assert(s@.subrange(0, s@.len() as int) == s@);
    }
    if i < s.len() {
        Some(i)
    } else {
        None
    }
}

/// `str::split(c)`: every piece between occurrences of `c`, empty ones included.
pub open spec fn split(s: Seq<char>, c: char) -> Seq<Seq<char>>
    decreases s.len(),
{
    let i = first_in(s, Class::Is(c)) as int;
    if 0 <= i < s.len() {
        seq![s.subrange(0, i)] + split(s.subrange(i + 1, s.len() as int), c)
    } else {
        seq![s]
    }
}

/// Text without `c` is one piece, and has no first `c` to split at.
pub proof fn lemma_split_none(s: Seq<char>, c: char)
    requires
        forall|i: int| 0 <= i < s.len() ==> s[i] != c,
    ensures
        split(s, c) == seq![s],
        split_once(s, c) is None,
{
    lemma_first_in(s, Class::Is(c), s.len() as int);
}

/// Splitting at the first `c` takes off the text before it.
pub proof fn lemma_split_at(a: Seq<char>, b: Seq<char>, c: char)
    requires
        forall|i: int| 0 <= i < a.len() ==> a[i] != c,
    ensures
        split(a + seq![c] + b, c) == seq![a] + split(b, c),
        split_once(a + seq![c] + b, c) == Some((a, b)),
{
    let s = a + seq![c] + b;
    assert forall|j: int| 0 <= j < a.len() implies !in_class(Class::Is(c), #[trigger] s[j]) by {
        assert(s[j] == a[j]);
    }
    assert(s[a.len() as int] == c);
    lemma_first_in(s, Class::Is(c), a.len() as int);
    assert(s.subrange(0, a.len() as int) =~= a);
    assert(s.subrange(a.len() as int + 1, s.len() as int) =~= b);
}

/// Joining two texts with `c` joins their pieces.
pub proof fn lemma_split_concat(x: Seq<char>, y: Seq<char>, c: char)
    ensures
        split(x + seq![c] + y, c) == split(x, c) + split(y, c),
    decreases x.len(),
{
    let i = first_in(x, Class::Is(c)) as int;
    lemma_first_in_bounds(x, Class::Is(c));
    if i == x.len() {
        lemma_split_none(x, c);
        lemma_split_at(x, y, c);
    } else {
        let x1 = x.subrange(0, i);
        let x2 = x.subrange(i + 1, x.len() as int);
        assert(x =~= x1 + seq![c] + x2);
        assert forall|j: int| 0 <= j < x1.len() implies x1[j] != c by {
            assert(x1[j] == x[j]);
        }
        lemma_split_at(x1, x2, c);
        lemma_split_at(x1, x2 + seq![c] + y, c);
        lemma_split_concat(x2, y, c);
        assert(x + seq![c] + y =~= x1 + seq![c] + (x2 + seq![c] + y));
        assert(seq![x1] + (split(x2, c) + split(y, c)) =~= (seq![x1] + split(x2, c)) + split(y, c));
    }
}

/// The pieces of `s` between runs of `k`, with no empty piece: `split_whitespace` and
/// `split_ascii_whitespace`.
pub open spec fn fields(s: Seq<char>, k: Class) -> Seq<Seq<char>>
    decreases s.len(),
{
    proof {
        lemma_lead_bounds(s, k);
        lemma_first_in_bounds(trim_start(s, k), k);
    }
    let t = trim_start(s, k);
    if t.len() == 0 {
        seq![]
    } else {
        let i = first_in(t, k) as int;
        seq![t.subrange(0, i)] + fields(t.subrange(i, t.len() as int), k)
    }
}

/// `str::lines`: pieces ended by `\n`, one trailing `\r` dropped from each, and no empty
/// piece after a final newline.
pub open spec fn lines(s: Seq<char>) -> Seq<Seq<char>>
    decreases s.len(),
{
    proof {
        lemma_first_in_bounds(s, Class::Is('\n'));
    }
    if s.len() == 0 {
        seq![]
    } else {
        let i = first_in(s, Class::Is('\n')) as int;
        if i < s.len() {
            seq![strip_cr(s.subrange(0, i))] + lines(s.subrange(i + 1, s.len() as int))
        } else {
            seq![s]
        }
    }
}

pub open spec fn strip_cr(s: Seq<char>) -> Seq<char> {
    if s.len() > 0 && s.last() == '\r' {
        s.drop_last()
    } else {
        s
    }
}

/// Views of a vector of character vectors.
pub open spec fn views(v: Seq<Vec<char>>) -> Seq<Seq<char>> {
    v.map_values(|x: Vec<char>| x@)
}

pub proof fn lemma_views_push(v: Seq<Vec<char>>, x: Vec<char>)
    ensures
        views(v.push(x)) == views(v).push(x@),
{
    assert(views(v.push(x)) =~= views(v).push(x@));
}

/// `str::split(c)`.
pub fn split_char(s: &[char], c: char) -> (out: Vec<Vec<char>>)
    ensures
        views(out@) == split(s@, c),
{
    let mut out: Vec<Vec<char>> = Vec::new();
    let mut start: usize = 0;
    proof {
        assert(s@.subrange(0, s@.len() as int) == s@);
    }
    loop
        invariant
            start <= s@.len(),
            views(out@) + split(s@.subrange(start as int, s@.len() as int), c) == split(s@, c),
        decreases s@.len() - start,
    {
        let ghost rest = s@.subrange(start as int, s@.len() as int);
        let i = find_in(s, start, &Class::Is(c));
        let piece = slice_to_vec(s, start, i);
        proof {
            lemma_views_push(out@, piece);
        }
        if i < s.len() {
            proof {
                assert(rest.subrange(0, i - start) == s@.subrange(start as int, i as int));
                assert(rest.subrange(i - start + 1, rest.len() as int) == s@.subrange(
                    i + 1,
                    s@.len() as int,
                ));
                assert(split(rest, c) == seq![piece@] + split(
                    s@.subrange(i + 1, s@.len() as int),
                    c,
                ));
                assert(views(out@.push(piece)) + split(s@.subrange(i + 1, s@.len() as int), c)
                    =~= views(out@) + split(rest, c));
            }
            out.push(piece);
            start = i + 1;
        } else {
            proof {
                assert(split(rest, c) == seq![rest]);
                assert(views(out@.push(piece)) =~= views(out@) + split(rest, c));
            }
            out.push(piece);
            return out;
        }
    }
}

/// `split_whitespace` (for `Class::Ws`) and `split_ascii_whitespace` (for `Class::AsciiWs`).
pub fn fields_of(s: &[char], k: &Class) -> (out: Vec<Vec<char>>)
    ensures
        views(out@) == fields(s@, *k),
{
    let mut out: Vec<Vec<char>> = Vec::new();
    let mut start: usize = 0;
    proof {
        assert(s@.subrange(0, s@.len() as int) == s@);
    }
    loop
        invariant
            start <= s@.len(),
            views(out@) + fields(s@.subrange(start as int, s@.len() as int), *k) == fields(
                s@,
                *k,
            ),
        decreases s@.len() - start,
    {
        let ghost rest = s@.subrange(start as int, s@.len() as int);
        let a = skip_in(s, start, k);
        proof {
            assert(trim_start(rest, *k) =~= s@.subrange(a as int, s@.len() as int));
        }
        if a == s.len() {
            proof {
                assert(fields(rest, *k) == Seq::<Seq<char>>::empty());
                assert(views(out@) + fields(rest, *k) =~= views(out@));
            }
            return out;
        }
        let b = find_in(s, a, k);
        let piece = slice_to_vec(s, a, b);
        proof {
            let t = trim_start(rest, *k);
            assert(t.subrange(0, b - a) =~= piece@);
            assert(t.subrange(b - a, t.len() as int) =~= s@.subrange(b as int, s@.len() as int));
            assert(fields(rest, *k) == seq![piece@] + fields(
                s@.subrange(b as int, s@.len() as int),
                *k,
            ));
            lemma_views_push(out@, piece);
            assert(views(out@.push(piece)) + fields(s@.subrange(b as int, s@.len() as int), *k)
                =~= views(out@) + fields(rest, *k));
        }
        out.push(piece);
        start = b;
    }
}

/// `str::lines`.
pub fn lines_of(s: &[char]) -> (out: Vec<Vec<char>>)
    ensures
        views(out@) == lines(s@),
{
    let mut out: Vec<Vec<char>> = Vec::new();
    let mut start: usize = 0;
    proof {
        assert(s@.subrange(0, s@.len() as int) == s@);
    }
    while start < s.len()
        invariant
            start <= s@.len(),
            views(out@) + lines(s@.subrange(start as int, s@.len() as int)) == lines(s@),
        decreases s@.len() - start,
    {
        let ghost rest = s@.subrange(start as int, s@.len() as int);
        let i = find_in(s, start, &Class::Is('\n'));
        if i < s.len() {
            let mut end: usize = i;
            if end > start && s[end - 1] == '\r' {
                end = end - 1;
            }
            let piece = slice_to_vec(s, start, end);
            proof {
                assert(rest.subrange(0, i - start) =~= s@.subrange(start as int, i as int));
                assert(strip_cr(rest.subrange(0, i - start)) =~= piece@);
                assert(rest.subrange(i - start + 1, rest.len() as int) =~= s@.subrange(
                    i + 1,
                    s@.len() as int,
                ));
                lemma_views_push(out@, piece);
                assert(views(out@.push(piece)) + lines(s@.subrange(i + 1, s@.len() as int))
                    =~= views(out@) + lines(rest));
            }
            out.push(piece);
            start = i + 1;
        } else {
            let piece = slice_to_vec(s, start, s.len());
            proof {
                lemma_views_push(out@, piece);
                assert(lines(s@.subrange(s@.len() as int, s@.len() as int)) == Seq::<
                    Seq<char>,
                >::empty());
                assert(views(out@.push(piece)) + lines(
                    s@.subrange(s@.len() as int, s@.len() as int),
                ) =~= views(out@) + lines(rest));
            }
            out.push(piece);
            start = s.len();
        }
    }
    proof {
        assert(lines(s@.subrange(start as int, s@.len() as int)) == Seq::<Seq<char>>::empty());
        assert(views(out@) + Seq::<Seq<char>>::empty() =~= views(out@));
    }
    out
}

// ------------------------------------------------------------------ comparing

pub fn chars_eq(a: &[char], b: &[char]) -> (r: bool)
    ensures
        r == (a@ == b@),
{
    if a.len() != b.len() {
        return false;
    }
    let mut i: usize = 0;
    while i < a.len()
        invariant
            a@.len() == b@.len(),
            i <= a@.len(),
            forall|j: int| 0 <= j < i ==> a@[j] == b@[j],
        decreases a@.len() - i,
    {
        if a[i] != b[i] {
            return false;
        }
        i += 1;
    }
    proof {
        assert(a@ =~= b@);
    }
    true
}

/// Whether `s[at..]` starts with `p`.
pub fn has_at(s: &[char], at: usize, p: &[char]) -> (r: bool)
    requires
        at <= s@.len(),
    ensures
        r == (at + p@.len() <= s@.len() && s@.subrange(at as int, at + p@.len()) == p@),
{
    let n = s.len();
    if p.len() > n - at {
        return false;
    }
    let mut i: usize = 0;
    while i < p.len()
        invariant
            n == s@.len(),
            at + p@.len() <= s@.len(),
            i <= p@.len(),
            forall|j: int| 0 <= j < i ==> s@[at + j] == p@[j],
        decreases p@.len() - i,
    {
        if s[at + i] != p[i] {
            proof {
                assert(s@.subrange(at as int, at + p@.len())[i as int] != p@[i as int]);
            }
            return false;
        }
        i += 1;
    }
    proof {
        assert(s@.subrange(at as int, at + p@.len()) =~= p@);
    }
    true
}

pub open spec fn starts_with(s: Seq<char>, p: Seq<char>) -> bool {
    p.len() <= s.len() && s.subrange(0, p.len() as int) == p
}

pub fn has_prefix(s: &[char], p: &[char]) -> (r: bool)
    ensures
        r == starts_with(s@, p@),
{
    has_at(s, 0, p)
}

/// Whether `p` occurs anywhere in `s` (`str::contains`).
pub open spec fn contains_seq(s: Seq<char>, p: Seq<char>) -> bool {
    exists|i: int| 0 <= i && i + p.len() <= s.len() && #[trigger] s.subrange(i, i + p.len()) == p
}

pub fn contains_chars(s: &[char], p: &[char]) -> (r: bool)
    ensures
        r == contains_seq(s@, p@),
{
    if p.len() > s.len() {
        return false;
    }
    let last = s.len() - p.len();
    let mut i: usize = 0;
    loop
        invariant
            p@.len() <= s@.len(),
            last == s@.len() - p@.len(),
            i <= last,
            forall|j: int| 0 <= j < i ==> #[trigger] s@.subrange(j, j + p@.len()) != p@,
        decreases last - i,
    {
        if has_at(s, i, p) {
            return true;
        }
        if i == last {
            return false;
        }
        i += 1;
    }
}

// ------------------------------------------------------------------ ascii case

pub open spec fn ascii_lower_char(c: char) -> char {
    if 'A' <= c && c <= 'Z' {
        ((c as u32) + 32) as char
    } else {
        c
    }
}

pub open spec fn ascii_upper_char(c: char) -> char {
    if 'a' <= c && c <= 'z' {
        ((c as u32) - 32) as char
    } else {
        c
    }
}

/// `str::to_ascii_lowercase`.
pub open spec fn ascii_lower(s: Seq<char>) -> Seq<char> {
    s.map_values(|c: char| ascii_lower_char(c))
}

/// `str::to_ascii_uppercase`.
pub open spec fn ascii_upper(s: Seq<char>) -> Seq<char> {
    s.map_values(|c: char| ascii_upper_char(c))
}

/// Upper-casing twice is upper-casing once.
pub proof fn lemma_ascii_upper_idempotent(s: Seq<char>)
    ensures
        ascii_upper(ascii_upper(s)) == ascii_upper(s),
{
    assert(ascii_upper(ascii_upper(s)) =~= ascii_upper(s));
}

pub fn lower_char(c: char) -> (r: char)
    ensures
        r == ascii_lower_char(c),
{
    if 'A' <= c && c <= 'Z' {
        let v: u32 = (c as u32) + 32;
        char_of(v)
    } else {
        c
    }
}

pub fn upper_char(c: char) -> (r: char)
    ensures
        r == ascii_upper_char(c),
{
    if 'a' <= c && c <= 'z' {
        let v: u32 = (c as u32) - 32;
        char_of(v)
    } else {
        c
    }
}

/// An ASCII code point as a `char`.
pub fn char_of(v: u32) -> (c: char)
    requires
        v < 128,
    ensures
        c == v as char,
{
    let b: u8 = v as u8;
    let c = b as char;
    proof {
        assert(c as u32 == v);
    }
    c
}

pub fn to_ascii_lower(s: &[char]) -> (out: Vec<char>)
    ensures
        out@ == ascii_lower(s@),
{
    let mut out: Vec<char> = Vec::new();
    let mut i: usize = 0;
    while i < s.len()
        invariant
            i <= s@.len(),
            out@ == ascii_lower(s@.subrange(0, i as int)),
        decreases s@.len() - i,
    {
        out.push(lower_char(s[i]));
        proof {
            assert(ascii_lower(s@.subrange(0, i + 1)) =~= ascii_lower(
                s@.subrange(0, i as int),
            ).push(ascii_lower_char(s@[i as int])));
        }
        i += 1;
    }
    proof {
        assert(s@.subrange(0, s@.len() as int) == s@);
    }
    out
}

pub fn to_ascii_upper(s: &[char]) -> (out: Vec<char>)
    ensures
        out@ == ascii_upper(s@),
{
    let mut out: Vec<char> = Vec::new();
    let mut i: usize = 0;
    while i < s.len()
        invariant
            i <= s@.len(),
            out@ == ascii_upper(s@.subrange(0, i as int)),
        decreases s@.len() - i,
    {
        out.push(upper_char(s[i]));
        proof {
            assert(ascii_upper(s@.subrange(0, i + 1)) =~= ascii_upper(
                s@.subrange(0, i as int),
            ).push(ascii_upper_char(s@[i as int])));
        }
        i += 1;
    }
    proof {
        assert(s@.subrange(0, s@.len() as int) == s@);
    }
    out
}

// ------------------------------------------------------------------ unicode

/// What `char::is_alphanumeric` answers: the Unicode `Alphabetic` or `Numeric` property.
pub uninterp spec fn is_alnum(c: char) -> bool;

/// What `str::to_lowercase` produces: full Unicode lower-casing.
pub uninterp spec fn lowercase(s: Seq<char>) -> Seq<char>;

/// What `String::from_utf8_lossy` produces: the bytes decoded as UTF-8, every invalid
/// sequence replaced by U+FFFD.
pub uninterp spec fn utf8_lossy(b: Seq<u8>) -> Seq<char>;

/// Calls `char::is_alphanumeric`; the contract claims only that its answer is the one
/// named `is_alnum` for that character (the Unicode tables are not restated here).
#[verifier::external_body]
pub(crate) fn char_is_alphanumeric(c: char) -> (b: bool)
    ensures
        b == is_alnum(c),
{
    c.is_alphanumeric()
}

/// Calls `str::to_lowercase`; the contract claims only that the result is the one named
/// `lowercase` for that text (full Unicode lower-casing is not restated here).
#[verifier::external_body]
pub(crate) fn str_to_lowercase(s: &str) -> (r: String)
    ensures
        r@ == lowercase(s@),
{
    s.to_lowercase()
}

/// Calls `String::from_utf8_lossy` and takes the result as an owned string; the contract
/// claims only that it is the decoding named `utf8_lossy` for those bytes.
#[verifier::external_body]
pub(crate) fn lossy(b: &[u8]) -> (r: String)
    ensures
        r@ == utf8_lossy(b@),
{
    String::from_utf8_lossy(b).into_owned()
}

// ------------------------------------------------------------------ bytes

/// Bytes taken one for one as characters (U+0000 to U+00FF).
pub open spec fn latin1(b: Seq<u8>) -> Seq<char> {
    b.map_values(|x: u8| x as char)
}

/// Characters below U+0100 taken back as bytes.
pub open spec fn unlatin1(c: Seq<char>) -> Seq<u8> {
    c.map_values(|x: char| x as u8)
}

pub fn latin1_of(b: &[u8]) -> (out: Vec<char>)
    ensures
        out@ == latin1(b@),
        forall|i: int| 0 <= i < out@.len() ==> (#[trigger] out@[i] as u32) < 256,
{
    let mut out: Vec<char> = Vec::new();
    let mut i: usize = 0;
    while i < b.len()
        invariant
            i <= b@.len(),
            out@ == latin1(b@.subrange(0, i as int)),
            forall|j: int| 0 <= j < out@.len() ==> (#[trigger] out@[j] as u32) < 256,
        decreases b@.len() - i,
    {
        let c = b[i] as char;
        out.push(c);
        proof {
            assert(latin1(b@.subrange(0, i + 1)) =~= latin1(b@.subrange(0, i as int)).push(
                b@[i as int] as char,
            ));
        }
        i += 1;
    }
    proof {
        assert(b@.subrange(0, b@.len() as int) =~= b@);
    }
    out
}

pub fn unlatin1_of(c: &[char]) -> (out: Vec<u8>)
    ensures
        out@ == unlatin1(c@),
{
    let mut out: Vec<u8> = Vec::new();
    let mut i: usize = 0;
    while i < c.len()
        invariant
            i <= c@.len(),
            out@ == unlatin1(c@.subrange(0, i as int)),
        decreases c@.len() - i,
    {
        out.push(c[i] as u8);
        proof {
            assert(unlatin1(c@.subrange(0, i + 1)) =~= unlatin1(c@.subrange(0, i as int)).push(
                c@[i as int] as u8,
            ));
        }
        i += 1;
    }
    proof {
        assert(c@.subrange(0, c@.len() as int) =~= c@);
    }
    out
}

// ------------------------------------------------------------------ strings

/// Characters of a string, in order.
pub fn chars_of(s: &str) -> (out: Vec<char>)
    ensures
        out@ == s@,
{
    let mut out: Vec<char> = Vec::new();
    for c in it: s.chars()
        invariant
            it.seq() == s@,
            out@ == s@.take(it.index() as int),
    {
        out.push(c);
    }
    out
}

/// Calls `String::push`; the contract claims what its documentation says: the character
/// is appended to the end of the string.
#[verifier::external_body]
pub(crate) fn push_char(s: &mut String, c: char)
    ensures
        final(s)@ == old(s)@.push(c),
{
    s.push(c);
}

/// A string holding exactly `v`.
pub fn string_of(v: &[char]) -> (s: String)
    ensures
        s@ == v@,
{
    let mut s = String::new();
    let mut i: usize = 0;
    while i < v.len()
        invariant
            i <= v@.len(),
            s@ == v@.subrange(0, i as int),
        decreases v@.len() - i,
    {
        push_char(&mut s, v[i]);
        proof {
            assert(v@.subrange(0, i + 1) == v@.subrange(0, i as int).push(v@[i as int]));
        }
        i += 1;
    }
    proof {
        assert(v@.subrange(0, v@.len() as int) == v@);
    }
    s
}

} // verus!
