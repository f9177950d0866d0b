//! Character-level text helpers: trimming, splitting, ASCII case folding,
//! decimal numbers and lexicographic order.
//!
//! Text is modelled by `Seq<char>`, the view of `String` and `str`.

use vstd::prelude::*;

verus! {

/// `String::push`: appends one character.
pub assume_specification[ String::push ](s: &mut String, c: char)
    ensures
        final(s)@ == old(s)@.push(c),
;

/// The characters of a string.
pub fn chars_of(s: &str) -> (r: Vec<char>)
    ensures
        r@ == s@,
{
    let mut r: Vec<char> = Vec::new();
    for c in it: s.chars()
        invariant
            it.seq() == s@,
            r@ == s@.take(it.index()),
    {
        proof {
            assert(s@.take(it.index() + 1) =~= s@.take(it.index()).push(s@[it.index()]));
        }
        r.push(c);
    }
    proof {
        assert(s@.take(s@.len() as int) =~= s@);
    }
    r
}

/// The string with the given characters.
pub fn string_of(v: &Vec<char>) -> (r: String)
    ensures
        r@ == v@,
{
    let mut r = String::new();
    let mut i: usize = 0;
    while i < v.len()
        invariant
            i <= v@.len(),
            r@ == v@.take(i as int),
        decreases v@.len() - i,
    {
        r.push(v[i]);
        i = i + 1;
        proof {
            assert(v@.take(i as int) =~= v@.take(i - 1).push(v@[i - 1]));
        }
    }
    proof {
        assert(v@.take(v@.len() as int) =~= v@);
    }
    r
}

/// An owned copy of a string slice.
pub fn owned(s: &str) -> (r: String)
    ensures
        r@ == s@,
{
    s.to_owned()
}

/// Whether two strings hold the same characters.
pub fn same(a: &str, b: &str) -> (r: bool)
    ensures
        r == (a@ == b@),
{
    let x: String = a.to_owned();
    let y: String = b.to_owned();
    x == y
}

/// What [`quote`] returns.
pub uninterp spec fn quoted(s: Seq<char>) -> Seq<char>;

/// The `Debug` form of a string slice (the standard library's formatting of
/// `str` under `{:?}`): the text in double quotes, with escapes. What it is on
/// a given text is left to the standard library; it depends on the text alone.
#[verifier::external_body]
pub(crate) fn quote(s: &str) -> (r: String)
    ensures
        r@ == quoted(s@),
{
    format!("{s:?}")
}

// ---------------------------------------------------------------------------
// ASCII case
// ---------------------------------------------------------------------------

/// ASCII lower case of one character; every other character is itself.
pub open spec fn lower_char(c: char) -> char {
    if 'A' <= c && c <= 'Z' {
        (c as u32 + 32) as char
    } else {
        c
    }
}

/// ASCII lower case of a text.
pub open spec fn ascii_lower(s: Seq<char>) -> Seq<char> {
    Seq::new(s.len(), |i: int| lower_char(s[i]))
}

/// Lower-cases one ASCII letter.
pub fn to_lower_char(c: char) -> (r: char)
    ensures
        r == lower_char(c),
{
    if 'A' <= c && c <= 'Z' {
        ((c as u8) + 32) as char
    } else {
        c
    }
}

/// Lower-cases the ASCII letters of a character vector.
pub fn lower_chars(v: &Vec<char>) -> (r: Vec<char>)
    ensures
        r@ == ascii_lower(v@),
{
    let mut r: Vec<char> = Vec::new();
    let mut i: usize = 0;
    while i < v.len()
        invariant
            i <= v@.len(),
            r@ == ascii_lower(v@.take(i as int)),
        decreases v@.len() - i,
    {
        r.push(to_lower_char(v[i]));
        i = i + 1;
        proof {
            assert(ascii_lower(v@.take(i as int)) =~= ascii_lower(v@.take(i - 1)).push(
                lower_char(v@[i - 1]),
            ));
        }
    }
    proof {
        assert(v@.take(v@.len() as int) =~= v@);
    }
    r
}

/// Lower-cases the ASCII letters of a string.
pub fn to_ascii_lower(s: &str) -> (r: String)
    ensures
        r@ == ascii_lower(s@),
{
    string_of(&lower_chars(&chars_of(s)))
}

/// Whether two strings are equal up to ASCII case.
pub fn eq_ignore_case(a: &str, b: &str) -> (r: bool)
    ensures
        r == (ascii_lower(a@) == ascii_lower(b@)),
{
    let x: String = to_ascii_lower(a);
    let y: String = to_ascii_lower(b);
    x == y
}

// ---------------------------------------------------------------------------
// Trimming
// ---------------------------------------------------------------------------

/// The characters that a trim removes.
#[derive(Clone, Copy, PartialEq, Eq, Structural)]
pub enum Class {
    /// Unicode white space.
    White,
    /// The full stop.
    Dot,
    /// The NUL character.
    Nul,
}

/// Unicode's White_Space property.
pub open spec fn is_white(c: char) -> bool {
    let n = c as u32;
    ||| 0x9 <= n <= 0xd
    ||| n == 0x20
    ||| n == 0x85
    ||| n == 0xa0
    ||| n == 0x1680
    ||| 0x2000 <= n <= 0x200a
    ||| n == 0x2028
    ||| n == 0x2029
    ||| n == 0x202f
    ||| n == 0x205f
    ||| n == 0x3000
}

/// Whether a trim of class `k` removes `c`.
pub open spec fn in_class(k: Class, c: char) -> bool {
    match k {
        Class::White => is_white(c),
        Class::Dot => c == '.',
        Class::Nul => c == '\0',
    }
}

/// Tests membership in a trim class.
pub fn class_has(k: Class, c: char) -> (r: bool)
    ensures
        r == in_class(k, c),
{
    match k {
        Class::White => {
            let n: u32 = c as u32;
            (0x9 <= n && n <= 0xd) || n == 0x20 || n == 0x85 || n == 0xa0 || n == 0x1680 || (0x2000
                <= n && n <= 0x200a) || n == 0x2028 || n == 0x2029 || n == 0x202f || n == 0x205f
                || n == 0x3000
        },
        Class::Dot => c == '.',
        Class::Nul => c == '\0',
    }
}

/// `s` without its leading characters of class `k`.
pub open spec fn trim_left(s: Seq<char>, k: Class) -> Seq<char>
    decreases s.len(),
{
    if s.len() > 0 && in_class(k, s[0]) {
        trim_left(s.skip(1), k)
    } else {
        s
    }
}

/// `s` without its trailing characters of class `k`.
pub open spec fn trim_right(s: Seq<char>, k: Class) -> Seq<char>
    decreases s.len(),
{
    if s.len() > 0 && in_class(k, s.last()) {
        trim_right(s.drop_last(), k)
    } else {
        s
    }
}

/// `s` without the characters of class `k` at either end.
pub open spec fn trimmed(s: Seq<char>, k: Class) -> Seq<char> {
    trim_right(trim_left(s, k), k)
}

/// A copy of `v[from..to]`.
pub fn slice_chars(v: &Vec<char>, from: usize, to: usize) -> (r: Vec<char>)
    requires
        from <= to <= v@.len(),
    ensures
        r@ == v@.subrange(from as int, to as int),
{
    let mut r: Vec<char> = Vec::new();
    let mut i: usize = from;
    while i < to
        invariant
            from <= i <= to <= v@.len(),
            r@ == v@.subrange(from as int, i as int),
        decreases to - i,
    {
        r.push(v[i]);
        i = i + 1;
        proof {
            assert(v@.subrange(from as int, i as int) =~= v@.subrange(from as int, i - 1).push(
                v@[i - 1],
            ));
        }
    }
    r
}

/// Drops leading characters of class `k`.
pub fn drop_left(v: &Vec<char>, k: Class) -> (r: Vec<char>)
    ensures
        r@ == trim_left(v@, k),
{
    let mut i: usize = 0;
    proof {
        assert(v@.skip(0) =~= v@);
    }
    while i < v.len() && class_has(k, v[i])
        invariant
            i <= v@.len(),
            trim_left(v@, k) == trim_left(v@.skip(i as int), k),
        decreases v@.len() - i,
    {
        proof {
            assert(v@.skip(i as int).skip(1) =~= v@.skip(i + 1));
        }
        i = i + 1;
    }
    proof {
        assert(v@.skip(i as int) =~= v@.subrange(i as int, v@.len() as int));
    }
    slice_chars(v, i, v.len())
}

/// Drops trailing characters of class `k`.
pub fn drop_right(v: &Vec<char>, k: Class) -> (r: Vec<char>)
    ensures
        r@ == trim_right(v@, k),
{
    let mut n: usize = v.len();
    proof {
        assert(v@.take(v@.len() as int) =~= v@);
    }
    while n > 0 && class_has(k, v[n - 1])
        invariant
            n <= v@.len(),
            trim_right(v@, k) == trim_right(v@.take(n as int), k),
        decreases n,
    {
        proof {
            assert(v@.take(n as int).drop_last() =~= v@.take(n - 1));
        }
        n = n - 1;
    }
    proof {
        assert(v@.take(n as int) =~= v@.subrange(0, n as int));
    }
    slice_chars(v, 0, n)
}

/// Drops characters of class `k` at both ends.
pub fn trim_chars(v: &Vec<char>, k: Class) -> (r: Vec<char>)
    ensures
        r@ == trimmed(v@, k),
{
    drop_right(&drop_left(v, k), k)
}

/// Drops white space at both ends of a string.
pub fn trim_white(s: &str) -> (r: String)
    ensures
        r@ == trimmed(s@, Class::White),
{
    string_of(&trim_chars(&chars_of(s), Class::White))
}

/// Trimming adds no character, and leaves none of its class at the ends.
pub proof fn lemma_trimmed(s: Seq<char>, k: Class)
    ensures
        forall|i: int| 0 <= i < trimmed(s, k).len() ==> s.contains(#[trigger] trimmed(s, k)[i]),
        trimmed(s, k).len() > 0 ==> !in_class(k, trimmed(s, k)[0]) && !in_class(
            k,
            trimmed(s, k).last(),
        ),
{
    let t = trim_left(s, k);
    lemma_trim_left(s, k);
    lemma_trim_right(t, k);
    assert forall|i: int| 0 <= i < trimmed(s, k).len() implies s.contains(
        #[trigger] trimmed(s, k)[i],
    ) by {
        assert(t.contains(trimmed(s, k)[i]));
        let j = choose|j: int| 0 <= j < t.len() && t[j] == trimmed(s, k)[i];
        assert(s.contains(t[j]));
    }
}

proof fn lemma_trim_left(s: Seq<char>, k: Class)
    ensures
        forall|i: int| 0 <= i < trim_left(s, k).len() ==> s.contains(#[trigger] trim_left(s, k)[i]),
        trim_left(s, k).len() > 0 ==> !in_class(k, trim_left(s, k)[0]),
    decreases s.len(),
{
    if s.len() > 0 && in_class(k, s[0]) {
        let r = s.skip(1);
        lemma_trim_left(r, k);
        assert forall|i: int| 0 <= i < trim_left(s, k).len() implies s.contains(
            #[trigger] trim_left(s, k)[i],
        ) by {
            assert(r.contains(trim_left(r, k)[i]));
            let j = choose|j: int| 0 <= j < r.len() && r[j] == trim_left(r, k)[i];
            assert(s[j + 1] == r[j]);
        }
    }
}

proof fn lemma_trim_right(s: Seq<char>, k: Class)
    ensures
        trim_right(s, k).len() <= s.len(),
        trim_right(s, k) == s.take(trim_right(s, k).len() as int),
        forall|i: int|
            0 <= i < trim_right(s, k).len() ==> s.contains(#[trigger] trim_right(s, k)[i]),
        trim_right(s, k).len() > 0 ==> !in_class(k, trim_right(s, k).last()),
        trim_right(s, k).len() > 0 ==> trim_right(s, k)[0] == s[0],
    decreases s.len(),
{
    if s.len() > 0 && in_class(k, s.last()) {
        let r = s.drop_last();
        lemma_trim_right(r, k);
        assert forall|i: int| 0 <= i < trim_right(s, k).len() implies s.contains(
            #[trigger] trim_right(s, k)[i],
        ) by {
            assert(r.contains(trim_right(r, k)[i]));
            let j = choose|j: int| 0 <= j < r.len() && r[j] == trim_right(r, k)[i];
            assert(s[j] == r[j]);
        }
        assert(trim_right(s, k) =~= s.take(trim_right(s, k).len() as int));
    } else {
        assert(trim_right(s, k) =~= s.take(s.len() as int));
    }
}

/// What a trim takes off at the ends is of its class.
pub proof fn lemma_trimmed_ends(s: Seq<char>, k: Class) -> (r: (Seq<char>, Seq<char>))
    ensures
        s == r.0 + trimmed(s, k) + r.1,
        forall|i: int| 0 <= i < r.0.len() ==> in_class(k, #[trigger] r.0[i]),
        forall|i: int| 0 <= i < r.1.len() ==> in_class(k, #[trigger] r.1[i]),
{
    let t = trim_left(s, k);
    let lead = lemma_trim_left_end(s, k);
    let tail = lemma_trim_right_end(t, k);
    assert(s =~= lead + trimmed(s, k) + tail);
    (lead, tail)
}

proof fn lemma_trim_left_end(s: Seq<char>, k: Class) -> (r: Seq<char>)
    ensures
        s == r + trim_left(s, k),
        forall|i: int| 0 <= i < r.len() ==> in_class(k, #[trigger] r[i]),
    decreases s.len(),
{
    if s.len() > 0 && in_class(k, s[0]) {
        let t = lemma_trim_left_end(s.skip(1), k);
        let r = seq![s[0]] + t;
        assert(s =~= seq![s[0]] + s.skip(1));
        assert(s =~= r + trim_left(s, k));
        r
    } else {
        assert(s =~= Seq::<char>::empty() + s);
        Seq::empty()
    }
}

proof fn lemma_trim_right_end(s: Seq<char>, k: Class) -> (r: Seq<char>)
    ensures
        s == trim_right(s, k) + r,
        forall|i: int| 0 <= i < r.len() ==> in_class(k, #[trigger] r[i]),
    decreases s.len(),
{
    if s.len() > 0 && in_class(k, s.last()) {
        let t = lemma_trim_right_end(s.drop_last(), k);
        let r = t.push(s.last());
        assert(s =~= s.drop_last().push(s.last()));
        assert(s =~= trim_right(s, k) + r);
        r
    } else {
        assert(s =~= s + Seq::<char>::empty());
        Seq::empty()
    }
}

// ---------------------------------------------------------------------------
// Searching and splitting
// ---------------------------------------------------------------------------

/// The first position of `c` in `s`, or `s.len()` where there is none.
pub open spec fn find(s: Seq<char>, c: char) -> int
    decreases s.len(),
{
    if s.len() == 0 || s[0] == c {
        0
    } else {
        1 + find(s.skip(1), c)
    }
}

/// The last position of `c` in `s`, or -1 where there is none.
pub open spec fn rfind(s: Seq<char>, c: char) -> int
    decreases s.len(),
{
    if s.len() == 0 {
        -1
    } else if s.last() == c {
        s.len() - 1
    } else {
        rfind(s.drop_last(), c)
    }
}

/// What `find` returns is the first occurrence.
pub proof fn lemma_find(s: Seq<char>, c: char)
    ensures
        0 <= find(s, c) <= s.len(),
        find(s, c) < s.len() ==> s[find(s, c)] == c,
        forall|i: int| 0 <= i < find(s, c) ==> s[i] != c,
        find(s, c) == s.len() <==> !s.contains(c),
    decreases s.len(),
{
    if s.len() == 0 || s[0] == c {
    } else {
        let r = s.skip(1);
        lemma_find(r, c);
        assert forall|i: int| 0 <= i < find(s, c) implies s[i] != c by {
            if i > 0 {
                assert(s[i] == r[i - 1]);
            }
        }
        if s.contains(c) {
            let k = choose|k: int| 0 <= k < s.len() && s[k] == c;
            assert(r[k - 1] == c);
        }
        if find(s, c) < s.len() {
            assert(s[find(s, c)] == r[find(r, c)]);
        }
    }
}

/// What `rfind` returns is the last occurrence.
pub proof fn lemma_rfind(s: Seq<char>, c: char)
    ensures
        -1 <= rfind(s, c) < s.len(),
        rfind(s, c) >= 0 ==> s[rfind(s, c)] == c,
        forall|i: int| rfind(s, c) < i < s.len() ==> s[i] != c,
        rfind(s, c) == -1 <==> !s.contains(c),
    decreases s.len(),
{
    if s.len() == 0 || s.last() == c {
    } else {
        let r = s.drop_last();
        lemma_rfind(r, c);
        assert forall|i: int| rfind(s, c) < i < s.len() implies s[i] != c by {
            if i < s.len() - 1 {
                assert(s[i] == r[i]);
            }
        }
        if s.contains(c) {
            let k = choose|k: int| 0 <= k < s.len() && s[k] == c;
            assert(r[k] == c);
        }
    }
}

/// `find` is determined by its characterization.
proof fn lemma_find_is(s: Seq<char>, c: char, i: int)
    requires
        0 <= i <= s.len(),
        i < s.len() ==> s[i] == c,
        forall|j: int| 0 <= j < i ==> s[j] != c,
    ensures
        find(s, c) == i,
{
    lemma_find(s, c);
    if find(s, c) < i {
        assert(s[find(s, c)] == c);
    }
}

/// The first position of `c` at or after `from`, relative to `from`.
pub fn find_from(v: &Vec<char>, c: char, from: usize) -> (r: Option<usize>)
    requires
        from <= v@.len(),
    ensures
        match r {
            Some(i) => i == find(v@.skip(from as int), c) && from + i < v@.len(),
            None => find(v@.skip(from as int), c) == v@.len() - from,
        },
{
    let mut i: usize = from;
    while i < v.len()
        invariant
            from <= i <= v@.len(),
            forall|j: int| from <= j < i ==> v@[j] != c,
        decreases v@.len() - i,
    {
        if v[i] == c {
            proof {
                lemma_find_is(v@.skip(from as int), c, i - from);
            }
            return Some(i - from);
        }
        i = i + 1;
    }
    proof {
        lemma_find_is(v@.skip(from as int), c, v@.len() - from);
    }
    None
}

/// The last position of `c`.
pub fn find_last(v: &Vec<char>, c: char) -> (r: Option<usize>)
    ensures
        match r {
            Some(i) => i == rfind(v@, c),
            None => rfind(v@, c) == -1,
        },
{
    let mut n: usize = v.len();
    while n > 0
        invariant
            n <= v@.len(),
            forall|j: int| n <= j < v@.len() ==> v@[j] != c,
        decreases n,
    {
        if v[n - 1] == c {
            proof {
                lemma_rfind(v@, c);
                if rfind(v@, c) < n - 1 {
                    assert(v@[n - 1] != c);
                }
            }
            return Some(n - 1);
        }
        n = n - 1;
    }
    proof {
        lemma_rfind(v@, c);
    }
    None
}

/// Whether `s` begins with `p`.
pub open spec fn has_prefix(s: Seq<char>, p: Seq<char>) -> bool {
    p.len() <= s.len() && s.take(p.len() as int) == p
}

/// Tests for a prefix.
pub fn starts_with(s: &str, p: &str) -> (r: bool)
    ensures
        r == has_prefix(s@, p@),
{
    let a: Vec<char> = chars_of(s);
    let b: Vec<char> = chars_of(p);
    if b.len() > a.len() {
        return false;
    }
    let mut i: usize = 0;
    while i < b.len()
        invariant
            i <= b@.len() <= a@.len(),
            a@ == s@,
            b@ == p@,
            forall|j: int| 0 <= j < i ==> a@[j] == b@[j],
        decreases b@.len() - i,
    {
        if a[i] != b[i] {
            proof {
                assert(s@.take(p@.len() as int)[i as int] != p@[i as int]);
            }
            return false;
        }
        i = i + 1;
    }
    proof {
        assert(s@.take(p@.len() as int) =~= p@);
    }
    true
}

/// Whether `p` occurs somewhere in `s`.
pub open spec fn contains_text(s: Seq<char>, p: Seq<char>) -> bool {
    exists|k: int| 0 <= k <= s.len() && has_prefix(#[trigger] s.skip(k), p)
}

/// Tests whether `p` occurs in `s`.
pub fn has_text(s: &str, p: &str) -> (r: bool)
    ensures
        r == contains_text(s@, p@),
{
    let a: Vec<char> = chars_of(s);
    let b: Vec<char> = chars_of(p);
    let mut k: usize = 0;
    while k <= a.len()
        invariant
            k <= a@.len() + 1,
            a@ == s@,
            b@ == p@,
            forall|j: int| 0 <= j < k ==> !has_prefix(#[trigger] s@.skip(j), p@),
        decreases a@.len() + 1 - k,
    {
        let rest: Vec<char> = slice_chars(&a, k, a.len());
        proof {
            assert(rest@ =~= s@.skip(k as int));
        }
        let rest_text: String = string_of(&rest);
        if starts_with(rest_text.as_str(), p) {
            return true;
        }
        if k == a.len() {
            return false;
        }
        k = k + 1;
    }
    false
}

/// The pieces of `s` between occurrences of `c`; always at least one piece.
pub open spec fn split(s: Seq<char>, c: char) -> Seq<Seq<char>>
    decreases s.len(),
    via split_decreases
{
    let i = find(s, c);
    if i >= s.len() || i < 0 {
        seq![s]
    } else {
        seq![s.take(i)] + split(s.skip(i + 1), c)
    }
}

#[via_fn]
proof fn split_decreases(s: Seq<char>, c: char) {
}

/// The views of a vector of strings.
pub open spec fn views(v: Seq<String>) -> Seq<Seq<char>> {
    Seq::new(v.len(), |i: int| v[i]@)
}

/// Pushing a string pushes its view.
pub proof fn lemma_views_push(v: Seq<String>, x: String)
    ensures
        views(v.push(x)) == views(v).push(x@),
{
    assert(views(v.push(x)) =~= views(v).push(x@));
}

/// Adds a string to a list.
pub fn push_line(v: &mut Vec<String>, s: String)
    ensures
        views(final(v)@) == views(old(v)@).push(s@),
{
    proof {
        lemma_views_push(v@, s);
    }
    v.push(s);
}

/// Splits a string at every `c`.
pub fn split_text(s: &str, c: char) -> (r: Vec<String>)
    ensures
        views(r@) == split(s@, c),
{
    let v: Vec<char> = chars_of(s);
    let mut out: Vec<String> = Vec::new();
    let mut at: usize = 0;
    let n: usize = v.len();
    proof {
        assert(v@.skip(0) =~= v@);
        assert(views(out@) + split(v@, c) =~= split(v@, c));
    }
    loop
        invariant
            v@ == s@,
            n == v@.len(),
            at <= n,
            views(out@) + split(v@.skip(at as int), c) == split(s@, c),
        decreases v@.len() - at,
    {
        let ghost before = views(out@);
        let ghost rest = v@.skip(at as int);
        proof {
            lemma_find(rest, c);
        }
        match find_from(&v, c, at) {
            Some(i) => {
                let piece: String = string_of(&slice_chars(&v, at, at + i));
                proof {
                    assert(piece@ =~= rest.take(i as int));
                    assert(rest.skip(i + 1) =~= v@.skip(at + i + 1));
                    lemma_views_push(out@, piece);
                    assert(before.push(piece@) + split(v@.skip(at + i + 1), c) =~= before + (seq![
                        piece@,
                    ] + split(v@.skip(at + i + 1), c)));
                }
                out.push(piece);
                at = at + i + 1;
            },
            None => {
                let piece: String = string_of(&slice_chars(&v, at, v.len()));
                proof {
                    assert(piece@ =~= rest);
                    lemma_views_push(out@, piece);
                    assert(before.push(piece@) =~= before + seq![piece@]);
                }
                out.push(piece);
                return out;
            },
        }
    }
}

/// The pieces joined with `sep` between them.
pub open spec fn join(parts: Seq<Seq<char>>, sep: Seq<char>) -> Seq<char>
    decreases parts.len(),
{
    if parts.len() == 0 {
        Seq::empty()
    } else if parts.len() == 1 {
        parts[0]
    } else {
        join(parts.drop_last(), sep) + sep + parts.last()
    }
}

/// Joins strings with a separator.
pub fn join_text(parts: &Vec<String>, sep: &str) -> (r: String)
    ensures
        r@ == join(views(parts@), sep@),
{
    let mut out = String::new();
    let mut i: usize = 0;
    proof {
        assert(views(parts@).take(0) =~= Seq::<Seq<char>>::empty());
    }
    while i < parts.len()
        invariant
            i <= parts@.len(),
            out@ == join(views(parts@).take(i as int), sep@),
        decreases parts@.len() - i,
    {
        if i > 0 {
            out.append(sep);
        }
        out.append(parts[i].as_str());
        i = i + 1;
        proof {
            let t = views(parts@).take(i as int);
            assert(t.drop_last() =~= views(parts@).take(i - 1));
            assert(t.last() == parts@[i - 1]@);
            if i == 1 {
                assert(Seq::<char>::empty() + parts@[0]@ =~= parts@[0]@);
            }
        }
    }
    proof {
        assert(views(parts@).take(parts@.len() as int) =~= views(parts@));
    }
    out
}

/// Whether a list of strings holds `x`.
pub fn list_has(list: &Vec<String>, x: &str) -> (r: bool)
    ensures
        r == views(list@).contains(x@),
{
    let mut i: usize = 0;
    while i < list.len()
        invariant
            i <= list@.len(),
            forall|j: int| 0 <= j < i ==> list@[j]@ != x@,
        decreases list@.len() - i,
    {
        if same(list[i].as_str(), x) {
            proof {
                assert(views(list@)[i as int] == x@);
            }
            return true;
        }
        i = i + 1;
    }
    false
}

// ---------------------------------------------------------------------------
// Decimal numbers
// ---------------------------------------------------------------------------

/// The digit character of `d`.
pub open spec fn digit_char(d: int) -> char {
    (d + 48) as char
}

/// Whether `c` is an ASCII digit.
pub open spec fn is_digit(c: char) -> bool {
    '0' <= c && c <= '9'
}

/// The value of an ASCII digit.
pub open spec fn digit_value(c: char) -> int {
    c as int - 48
}

/// Decimal notation, without leading zeros.
pub open spec fn decimal(n: nat) -> Seq<char>
    decreases n,
{
    if n < 10 {
        seq![digit_char(n as int)]
    } else {
        decimal(n / 10).push(digit_char((n % 10) as int))
    }
}

/// `s` filled up with `c` on the left to `width` characters.
pub open spec fn pad_left(s: Seq<char>, width: int, c: char) -> Seq<char> {
    if width <= s.len() {
        s
    } else {
        Seq::new((width - s.len()) as nat, |i: int| c) + s
    }
}

/// `s` filled up with blanks on the right to `width` characters.
pub open spec fn pad_right(s: Seq<char>, width: int) -> Seq<char> {
    if width <= s.len() {
        s
    } else {
        s + Seq::new((width - s.len()) as nat, |i: int| ' ')
    }
}

/// Decimal notation of a possibly negative number, zero-filled to `width`
/// characters, the sign counted and in front of the zeros.
pub open spec fn signed_decimal(n: int, width: int) -> Seq<char> {
    if n < 0 {
        seq!['-'] + pad_left(decimal((-n) as nat), width - 1, '0')
    } else {
        pad_left(decimal(n as nat), width, '0')
    }
}

/// The digit character of `d`.
pub fn digit(d: u8) -> (r: char)
    requires
        d < 10,
    ensures
        r == digit_char(d as int),
{
    (d + 48) as char
}

/// Decimal digits of `n`.
pub fn decimal_chars(n: u64) -> (r: Vec<char>)
    ensures
        r@ == decimal(n as nat),
    decreases n,
{
    if n < 10 {
        let mut r: Vec<char> = Vec::new();
        r.push(digit(n as u8));
        proof {
            assert(r@ =~= decimal(n as nat));
        }
        r
    } else {
        let mut r: Vec<char> = decimal_chars(n / 10);
        r.push(digit((n % 10) as u8));
        r
    }
}

/// Fills up on the left.
pub fn pad_chars(v: &Vec<char>, width: usize, c: char) -> (r: Vec<char>)
    ensures
        r@ == pad_left(v@, width as int, c),
{
    let mut r: Vec<char> = Vec::new();
    let n: usize = v.len();
    let mut i: usize = n;
    while i < width
        invariant
            n == v@.len(),
            n <= i,
            i <= width || r@.len() == 0,
            i == n + r@.len(),
            forall|k: int| 0 <= k < r@.len() ==> r@[k] == c,
        decreases width - i,
    {
        r.push(c);
        i = i + 1;
    }
    let ghost fill = r@;
    let mut j: usize = 0;
    while j < n
        invariant
            n == v@.len(),
            j <= n,
            r@ == fill + v@.take(j as int),
        decreases n - j,
    {
        r.push(v[j]);
        j = j + 1;
        proof {
            assert(fill + v@.take(j as int) =~= (fill + v@.take(j - 1)).push(v@[j - 1]));
        }
    }
    proof {
        assert(v@.take(n as int) =~= v@);
        assert(r@ =~= pad_left(v@, width as int, c));
    }
    r
}

/// Zero-filled decimal notation of an unsigned number.
pub fn unsigned_text(n: u64, width: usize) -> (r: String)
    ensures
        r@ == pad_left(decimal(n as nat), width as int, '0'),
{
    string_of(&pad_chars(&decimal_chars(n), width, '0'))
}

/// Zero-filled decimal notation of a signed number.
pub fn signed_text(n: i32, width: usize) -> (r: String)
    ensures
        r@ == signed_decimal(n as int, width as int),
{
    if n < 0 {
        let m: u64 = (-(n as i64)) as u64;
        let w: usize = if width > 0 {
            width - 1
        } else {
            0
        };
        let mut r = String::new();
        r.push('-');
        r.append(string_of(&pad_chars(&decimal_chars(m), w, '0')).as_str());
        proof {
            assert(Seq::<char>::empty().push('-') =~= seq!['-']);
        }
        r
    } else {
        unsigned_text(n as u64, width)
    }
}

/// Blanks up to `width` characters.
pub fn pad_right_text(s: &str, width: usize) -> (r: String)
    ensures
        r@ == pad_right(s@, width as int),
{
    let mut r: Vec<char> = chars_of(s);
    let n: usize = r.len();
    while r.len() < width
        invariant
            n == s@.len(),
            r@.len() >= n,
            r@.len() <= width || r@.len() == n,
            forall|k: int| 0 <= k < n ==> r@[k] == s@[k],
            forall|k: int| n <= k < r@.len() ==> r@[k] == ' ',
        decreases width - r@.len(),
    {
        r.push(' ');
    }
    proof {
        assert(r@ =~= pad_right(s@, width as int));
    }
    string_of(&r)
}

/// The number that a run of digits denotes.
pub open spec fn digits_value(s: Seq<char>) -> int
    decreases s.len(),
{
    if s.len() == 0 {
        0
    } else {
        digits_value(s.drop_last()) * 10 + digit_value(s.last())
    }
}

/// Whether every character is a digit.
pub open spec fn all_digits(s: Seq<char>) -> bool {
    forall|i: int| 0 <= i < s.len() ==> is_digit(#[trigger] s[i])
}

/// A run of digits denotes a natural number.
pub proof fn lemma_digits_value_bound(s: Seq<char>)
    requires
        all_digits(s),
    ensures
        digits_value(s) >= 0,
    decreases s.len(),
{
    if s.len() > 0 {
        assert(all_digits(s.drop_last())) by {
            assert forall|i: int| 0 <= i < s.drop_last().len() implies is_digit(
                #[trigger] s.drop_last()[i],
            ) by {
                assert(is_digit(s[i]));
            }
        }
        lemma_digits_value_bound(s.drop_last());
        assert(is_digit(s[s.len() - 1]));
    }
}

/// A longer run of digits denotes no smaller number.
pub proof fn lemma_digits_value_grows(s: Seq<char>, k: int)
    requires
        all_digits(s),
        0 <= k <= s.len(),
    ensures
        digits_value(s.take(k)) <= digits_value(s),
    decreases s.len(),
{
    if k == s.len() {
        assert(s.take(k) =~= s);
    } else {
        let t = s.drop_last();
        assert(all_digits(t)) by {
            assert forall|i: int| 0 <= i < t.len() implies is_digit(#[trigger] t[i]) by {
                assert(is_digit(s[i]));
            }
        }
        assert(t.take(k) =~= s.take(k));
        lemma_digits_value_grows(t, k);
        lemma_digits_value_bound(t);
        assert(is_digit(s[s.len() - 1]));
    }
}

/// The number that a run of digits denotes, unless it exceeds `u64`.
pub fn parse_digits(v: &Vec<char>) -> (r: Option<u64>)
    ensures
        r is Some <==> v@.len() > 0 && all_digits(v@) && digits_value(v@) <= u64::MAX,
        r matches Some(n) ==> n == digits_value(v@),
{
    if v.len() == 0 {
        return None;
    }
    let mut n: u64 = 0;
    let mut i: usize = 0;
    while i < v.len()
        invariant
            i <= v@.len(),
            all_digits(v@.take(i as int)),
            n == digits_value(v@.take(i as int)),
        decreases v@.len() - i,
    {
        let c: char = v[i];
        if c < '0' || c > '9' {
            proof {
                assert(!is_digit(v@[i as int]));
            }
            return None;
        }
        let d: u64 = (c as u64) - 48;
        let ghost t = v@.take(i + 1);
        proof {
            assert(t.drop_last() =~= v@.take(i as int));
            assert(t.last() == c);
            assert(all_digits(t)) by {
                assert forall|j: int| 0 <= j < t.len() implies is_digit(#[trigger] t[j]) by {
                    if j < i {
                        assert(is_digit(v@.take(i as int)[j]));
                    }
                }
            }
            assert(digits_value(t) == n * 10 + d);
        }
        if n > (u64::MAX - d) / 10 {
            proof {
                assert(n * 10 + d > u64::MAX) by (nonlinear_arith)
                    requires
                        n > (u64::MAX - d) / 10,
                        d < 10,
                ;
                if all_digits(v@) {
                    lemma_digits_value_grows(v@, i + 1);
                }
            }
            return None;
        }
        n = n * 10 + d;
        i = i + 1;
    }
    proof {
        assert(v@.take(v@.len() as int) =~= v@);
    }
    Some(n)
}

// ---------------------------------------------------------------------------
// Order
// ---------------------------------------------------------------------------

/// Strict lexicographic order by code point.
pub open spec fn precedes(a: Seq<char>, b: Seq<char>) -> bool
    decreases a.len(),
{
    if b.len() == 0 {
        false
    } else if a.len() == 0 {
        true
    } else if a[0] != b[0] {
        a[0] < b[0]
    } else {
        precedes(a.skip(1), b.skip(1))
    }
}

/// Exactly one of less, equal and greater holds of two texts.
pub proof fn lemma_precedes_total(a: Seq<char>, b: Seq<char>)
    ensures
        precedes(a, b) || precedes(b, a) || a == b,
        !(precedes(a, b) && precedes(b, a)),
        a == b ==> !precedes(a, b),
    decreases a.len(),
{
    if a.len() == 0 || b.len() == 0 {
        if a.len() == 0 && b.len() == 0 {
            assert(a =~= b);
        }
    } else if a[0] == b[0] {
        lemma_precedes_total(a.skip(1), b.skip(1));
        if a.skip(1) == b.skip(1) {
            assert forall|i: int| 0 <= i < a.len() implies a[i] == b[i] by {
                if i > 0 {
                    assert(a.skip(1)[i - 1] == b.skip(1)[i - 1]);
                }
            }
            assert(a.len() == a.skip(1).len() + 1);
            assert(b.len() == b.skip(1).len() + 1);
            assert(a =~= b);
        }
    }
}

/// The order is transitive.
pub proof fn lemma_precedes_transitive(a: Seq<char>, b: Seq<char>, c: Seq<char>)
    requires
        precedes(a, b),
        precedes(b, c),
    ensures
        precedes(a, c),
    decreases a.len(),
{
    if a.len() > 0 && b.len() > 0 && c.len() > 0 && a[0] == b[0] && b[0] == c[0] {
        lemma_precedes_transitive(a.skip(1), b.skip(1), c.skip(1));
    }
}

/// Tests the order of two strings.
pub fn text_precedes(a: &str, b: &str) -> (r: bool)
    ensures
        r == precedes(a@, b@),
{
    let x: Vec<char> = chars_of(a);
    let y: Vec<char> = chars_of(b);
    let mut i: usize = 0;
    proof {
        assert(x@.skip(0) =~= x@);
        assert(y@.skip(0) =~= y@);
    }
    loop
        invariant
            x@ == a@,
            y@ == b@,
            i <= x@.len(),
            i <= y@.len(),
            precedes(a@, b@) == precedes(x@.skip(i as int), y@.skip(i as int)),
        decreases x@.len() - i,
    {
        if i == y.len() {
            return false;
        }
        if i == x.len() {
            return true;
        }
        if x[i] != y[i] {
            return x[i] < y[i];
        }
        proof {
            assert(x@.skip(i as int).skip(1) =~= x@.skip(i + 1));
            assert(y@.skip(i as int).skip(1) =~= y@.skip(i + 1));
        }
        i = i + 1;
    }
}

/// Decimal notation is made of digits.
pub proof fn lemma_decimal_digits(n: nat)
    ensures
        forall|i: int| 0 <= i < decimal(n).len() ==> is_digit(
            #[trigger] decimal(n)[i],
        ),
        decimal(n).len() > 0,
    decreases n,
{
    if n >= 10 {
        lemma_decimal_digits(n / 10);
        let d = decimal(n);
        let e = decimal(n / 10);
        assert forall|i: int| 0 <= i < d.len() implies is_digit(#[trigger] d[i]) by {
            if i < e.len() {
                assert(d[i] == e[i]);
            }
        }
    }
}

} // verus!
