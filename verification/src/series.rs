//! The numbers of a series: which number a file's name was made with.
//!
//! A name template with a `{counter}` token makes a series of names. A name in
//! a folder belongs to it where the template could have made it; a name that a
//! camera gave does not, whatever digits it ends in.

use vstd::prelude::*;

use crate::clock;
use crate::clock::Moment;
use crate::template;
use crate::template::CtxModel;
use crate::text;
use crate::text::Class;

verus! {

// ---------------------------------------------------------------------------
// Pieces of a template
// ---------------------------------------------------------------------------

/// What a template puts into a name.
#[derive(Clone, Copy)]
pub enum Piece {
    /// A character that stands for itself.
    Letter(char),
    /// Some text: the original name, the extension, the camera.
    Text,
    /// A date or time of two digits, or nothing where the date is missing.
    Pair,
    /// A year, or nothing where the date is missing.
    Year,
    /// The number, filled up to a width.
    Number(usize),
}

/// The pieces of a text that stands for itself, cleaned as in a name.
pub open spec fn letters(s: Seq<char>) -> Seq<Piece> {
    Seq::new(s.len(), |i: int| Piece::Letter(template::clean_char(s[i], false)))
}

/// The pieces of a token.
pub open spec fn token_pieces(tok: Seq<char>) -> Seq<Piece> {
    let k = text::find(tok, ':');
    let name = template::token_name(tok);
    if name == "YYYY"@ {
        seq![Piece::Year]
    } else if template::is_date_token(name) {
        seq![Piece::Pair]
    } else if name == "original"@ || name == "ext"@ || name == "camera_make"@ || name
        == "camera_model"@ {
        seq![Piece::Text]
    } else if name == "counter"@ {
        let width = if k < tok.len() {
            template::width_of(tok.skip(k + 1))
        } else {
            0
        };
        seq![Piece::Number(width as usize)]
    } else {
        letters(seq!['{'] + tok + seq!['}'])
    }
}

/// The pieces of a template.
pub open spec fn pieces(tpl: Seq<char>) -> Seq<Piece>
    decreases tpl.len(),
    via pieces_decreases
{
    let open = text::find(tpl, '{');
    if open < 0 || open >= tpl.len() {
        letters(tpl)
    } else {
        let after = tpl.skip(open + 1);
        let close = text::find(after, '}');
        if close < 0 || close >= after.len() {
            letters(tpl)
        } else {
            letters(tpl.take(open)) + token_pieces(after.take(close)) + pieces(
                after.skip(close + 1),
            )
        }
    }
}

#[via_fn]
proof fn pieces_decreases(tpl: Seq<char>) {
}

/// Whether the number is among the pieces.
pub open spec fn counts(ps: Seq<Piece>) -> bool {
    exists|i: int| 0 <= i < ps.len() && #[trigger] ps[i] is Number
}

/// Whether a piece can stand for a text, under a number.
pub open spec fn takes(p: Piece, n: nat, x: Seq<char>) -> bool {
    match p {
        Piece::Letter(c) => x.len() == 1 && x[0] == c,
        Piece::Text => true,
        Piece::Pair => x.len() == 0 || (x.len() == 2 && text::all_digits(x)),
        Piece::Year => x.len() == 0 || (x.len() >= 4 && (text::is_digit(x[0]) || x[0] == '-')
            && text::all_digits(x.skip(1))),
        Piece::Number(width) => x == text::pad_left(text::decimal(n), width as int, '0'),
    }
}

/// Whether the pieces, one behind the other, can spell a text under a number.
pub open spec fn spells(ps: Seq<Piece>, n: nat, x: Seq<char>) -> bool
    decreases ps.len(),
{
    if ps.len() == 0 {
        x.len() == 0
    } else {
        exists|k: int|
            0 <= k <= x.len() && #[trigger] takes(ps[0], n, x.take(k)) && spells(
                ps.skip(1),
                n,
                x.skip(k),
            )
    }
}

/// Whether a character may be taken off at the ends of a name.
pub open spec fn loose(c: char) -> bool {
    text::is_white(c) || c == '.'
}

/// Whether every character may be taken off.
pub open spec fn all_loose(x: Seq<char>) -> bool {
    forall|i: int| 0 <= i < x.len() ==> loose(#[trigger] x[i])
}

/// Whether a text with something loose put back at its ends can be spelled.
pub open spec fn fringed(
    ps: Seq<Piece>,
    n: nat,
    s: Seq<char>,
    lead: Seq<char>,
    tail: Seq<char>,
) -> bool {
    all_loose(lead) && all_loose(tail) && spells(ps, n, lead + s + tail)
}

/// Whether the pieces, the number among them, could have made a stem with a
/// number: they spell it, but for what is taken off at the ends of a name.
pub open spec fn made(ps: Seq<Piece>, n: nat, stem: Seq<char>) -> bool {
    counts(ps) && exists|lead: Seq<char>, tail: Seq<char>| #[trigger]
        fringed(ps, n, stem, lead, tail)
}

/// One past the largest number that a series counts.
pub const LIMIT: u32 = 1000000000;

/// One past the largest number below `m` with which a stem could have been
/// made; 0 where there is none.
pub open spec fn past(ps: Seq<Piece>, stem: Seq<char>, m: nat) -> nat
    decreases m,
{
    if m == 0 {
        0
    } else if made(ps, (m - 1) as nat, stem) {
        m
    } else {
        past(ps, stem, (m - 1) as nat)
    }
}

/// The first number that is free in a folder: one past the largest number of at
/// most nine digits with which the name template could have made a stem there.
pub open spec fn first_free(tpl: Seq<char>, stems: Seq<Seq<char>>) -> nat
    decreases stems.len(),
{
    if stems.len() == 0 {
        0
    } else {
        let rest = first_free(tpl, stems.drop_last());
        let here = past(pieces(tpl), stems.last(), LIMIT as nat);
        if here > rest {
            here
        } else {
            rest
        }
    }
}

// ---------------------------------------------------------------------------
// Taking a template apart
// ---------------------------------------------------------------------------

/// Adds the pieces of a text that stands for itself.
fn push_letters(ps: &mut Vec<Piece>, v: &Vec<char>)
    ensures
        final(ps)@ == old(ps)@ + letters(v@),
{
    let ghost before = ps@;
    let cleaned: Vec<char> = template::clean_chars(v, false);
    let mut i: usize = 0;
    proof {
        assert(before + letters(v@.take(0)) =~= before);
    }
    while i < cleaned.len()
        invariant
            cleaned@ == template::cleaned(v@, false),
            i <= cleaned@.len(),
            ps@ == before + letters(v@.take(i as int)),
        decreases cleaned@.len() - i,
    {
        proof {
            assert(letters(v@.take(i + 1)) =~= letters(v@.take(i as int)).push(
                Piece::Letter(cleaned@[i as int]),
            ));
        }
        ps.push(Piece::Letter(cleaned[i]));
        i = i + 1;
        proof {
            assert(ps@ =~= before + letters(v@.take(i as int)));
        }
    }
    proof {
        assert(v@.take(v@.len() as int) =~= v@);
    }
}

/// Adds the pieces of a token.
fn push_token(ps: &mut Vec<Piece>, v: &Vec<char>)
    ensures
        final(ps)@ == old(ps)@ + token_pieces(v@),
{
    let ghost before = ps@;
    let n: usize = v.len();
    let mut name: String = text::string_of(v);
    let mut width: usize = 0;
    proof {
        assert(v@.skip(0) =~= v@);
    }
    match text::find_from(v, ':', 0) {
        Some(k) => {
            proof {
                assert(v@.take(k as int) =~= v@.subrange(0, k as int));
                assert(v@.skip(k + 1) =~= v@.subrange(k + 1, v@.len() as int));
            }
            name = text::string_of(&text::slice_chars(v, 0, k));
            width = template::parse_width(
                text::string_of(&text::slice_chars(v, k + 1, n)).as_str(),
            );
        },
        None => {},
    }
    let key: &str = name.as_str();
    let piece: Piece = if text::same(key, "YYYY") {
        Piece::Year
    } else if text::same(key, "YY") || text::same(key, "MM") || text::same(key, "DD")
        || text::same(key, "HH") || text::same(key, "mm") || text::same(key, "ss") {
        Piece::Pair
    } else if text::same(key, "original") || text::same(key, "ext") || text::same(
        key,
        "camera_make",
    ) || text::same(key, "camera_model") {
        Piece::Text
    } else if text::same(key, "counter") {
        Piece::Number(width)
    } else {
        let mut whole: Vec<char> = Vec::new();
        whole.push('{');
        let mut i: usize = 0;
        while i < n
            invariant
                n == v@.len(),
                i <= n,
                whole@ == seq!['{'] + v@.take(i as int),
            decreases n - i,
        {
            whole.push(v[i]);
            i = i + 1;
            proof {
                assert(whole@ =~= seq!['{'] + v@.take(i as int));
            }
        }
        whole.push('}');
        proof {
            assert(v@.take(n as int) =~= v@);
            assert(whole@ =~= seq!['{'] + v@ + seq!['}']);
        }
        push_letters(ps, &whole);
        return ;
    };
    ps.push(piece);
    proof {
        assert(ps@ =~= before + seq![piece]);
    }
}

/// Takes a template apart.
fn template_pieces(tpl: &str) -> (r: Vec<Piece>)
    ensures
        r@ == pieces(tpl@),
{
    let v: Vec<char> = text::chars_of(tpl);
    let n: usize = v.len();
    let mut out: Vec<Piece> = Vec::new();
    let mut at: usize = 0;
    proof {
        assert(v@.skip(0) =~= v@);
        assert(out@ + pieces(v@) =~= pieces(v@));
    }
    loop
        invariant
            v@ == tpl@,
            n == v@.len(),
            at <= n,
            out@ + pieces(v@.skip(at as int)) == pieces(tpl@),
        decreases n - at,
    {
        let ghost rest = v@.skip(at as int);
        let ghost done = out@;
        proof {
            text::lemma_find(rest, '{');
            assert(rest =~= v@.subrange(at as int, n as int));
        }
        let open: usize = match text::find_from(&v, '{', at) {
            Some(i) => i,
            None => {
                push_letters(&mut out, &text::slice_chars(&v, at, n));
                return out;
            },
        };
        let ghost after = rest.skip(open + 1);
        proof {
            assert(after =~= v@.skip(at + open + 1));
            text::lemma_find(after, '}');
        }
        let close: usize = match text::find_from(&v, '}', at + open + 1) {
            Some(i) => i,
            None => {
                push_letters(&mut out, &text::slice_chars(&v, at, n));
                return out;
            },
        };
        let lead: Vec<char> = text::slice_chars(&v, at, at + open);
        let tok: Vec<char> = text::slice_chars(&v, at + open + 1, at + open + 1 + close);
        proof {
            assert(lead@ =~= rest.take(open as int));
            assert(tok@ =~= after.take(close as int));
            assert(after.skip(close + 1) =~= v@.skip(at + open + 1 + close + 1));
        }
        push_letters(&mut out, &lead);
        push_token(&mut out, &tok);
        at = at + open + 1 + close + 1;
        proof {
            let a = letters(rest.take(open as int));
            let b = token_pieces(tok@);
            let c = pieces(v@.skip(at as int));
            assert(done + a + b + c =~= done + (a + b + c));
        }
    }
}

fn has_number(ps: &Vec<Piece>) -> (r: bool)
    ensures
        r == counts(ps@),
{
    let mut i: usize = 0;
    while i < ps.len()
        invariant
            i <= ps@.len(),
            forall|j: int| 0 <= j < i ==> !(#[trigger] ps@[j] is Number),
        decreases ps@.len() - i,
    {
        match ps[i] {
            Piece::Number(_) => {
                proof {
                    assert(ps@[i as int] is Number);
                }
                return true;
            },
            _ => {},
        }
        i = i + 1;
    }
    false
}

// ---------------------------------------------------------------------------
// Matching a stem
// ---------------------------------------------------------------------------

/// The rest of a stem against the rest of the pieces: `begun` says whether
/// anything of the stem has been spelled. A loose letter may be missing before
/// the stem begins and behind its end.
spec fn fits(ps: Seq<Piece>, n: nat, s: Seq<char>, begun: bool) -> bool
    decreases ps.len(),
{
    if ps.len() == 0 {
        s.len() == 0
    } else {
        ||| missing(ps[0], s.len() == 0, begun) && fits(ps.skip(1), n, s, begun)
        ||| exists|k: int|
            0 <= k <= s.len() && #[trigger] takes(ps[0], n, s.take(k)) && fits(
                ps.skip(1),
                n,
                s.skip(k),
                begun || k > 0,
            )
    }
}

/// Whether a piece may be missing.
spec fn missing(p: Piece, ended: bool, begun: bool) -> bool {
    (!begun || ended) && (p matches Piece::Letter(c) && loose(c))
}

/// What can be spelled with something loose at the ends fits without it.
proof fn lemma_fits(
    ps: Seq<Piece>,
    n: nat,
    s: Seq<char>,
    lead: Seq<char>,
    tail: Seq<char>,
    begun: bool,
)
    requires
        fringed(ps, n, s, lead, tail),
        begun ==> lead.len() == 0,
    ensures
        fits(ps, n, s, begun),
    decreases ps.len(),
{
    let x = lead + s + tail;
    if ps.len() > 0 {
        let k = choose|k: int|
            0 <= k <= x.len() && #[trigger] takes(ps[0], n, x.take(k)) && spells(
                ps.skip(1),
                n,
                x.skip(k),
            );
        let a = lead.len() as int;
        let b = a + s.len();
        // The part of the stem that the piece stands for.
        let from = if k <= a { 0 } else if k <= b { k - a } else { b - a };
        let l = if k <= a { lead.skip(k) } else { Seq::empty() };
        let t = if k <= b { tail } else { tail.skip(k - b) };
        assert(x.skip(k) =~= l + s.skip(from) + t);
        assert forall|i: int| 0 <= i < l.len() implies loose(#[trigger] l[i]) by {
            assert(l[i] == lead[i + k]);
        }
        assert forall|i: int| 0 <= i < t.len() implies loose(#[trigger] t[i]) by {
            if k > b {
                assert(t[i] == tail[i + k - b]);
            }
        }
        lemma_fits(ps.skip(1), n, s.skip(from), l, t, begun || from > 0);
        let y = x.take(k);
        match ps[0] {
            Piece::Letter(c) => {
                assert(y[0] == x[0]);
                if a > 0 {
                    assert(x[0] == lead[0]);
                    assert(loose(c));
                    assert(s.skip(0) =~= s);
                } else if s.len() > 0 {
                    assert(s.take(from) =~= y);
                    assert(takes(ps[0], n, s.take(from)));
                } else {
                    assert(x[0] == tail[0]);
                    assert(loose(c));
                    assert(s.skip(from) =~= s);
                }
            },
            Piece::Text => {
                assert(takes(ps[0], n, s.take(from)));
            },
            Piece::Pair => {
                lemma_not_loose(y, x, a, b, k, lead, s, tail);
                assert(takes(ps[0], n, s.take(from)));
            },
            Piece::Year => {
                lemma_not_loose(y, x, a, b, k, lead, s, tail);
                assert(takes(ps[0], n, s.take(from)));
            },
            Piece::Number(w) => {
                lemma_number_text(n, w as int);
                lemma_not_loose(y, x, a, b, k, lead, s, tail);
                assert(takes(ps[0], n, s.take(from)));
            },
        }
    }
}

proof fn lemma_number_text(n: nat, w: int)
    ensures
        text::all_digits(text::pad_left(text::decimal(n), w, '0')),
        text::pad_left(text::decimal(n), w, '0').len() > 0,
{
    let d = text::decimal(n);
    let x = text::pad_left(d, w, '0');
    text::lemma_decimal_digits(n);
    assert forall|i: int| 0 <= i < x.len() implies text::is_digit(#[trigger] x[i]) by {
        if w > d.len() && i >= w - d.len() {
            assert(x[i] == d[i - (w - d.len())]);
        }
    }
}

/// A text of digits, or of a hyphen and digits, is no part of a fringe.
proof fn lemma_not_loose(
    y: Seq<char>,
    x: Seq<char>,
    a: int,
    b: int,
    k: int,
    lead: Seq<char>,
    s: Seq<char>,
    tail: Seq<char>,
)
    requires
        x == lead + s + tail,
        a == lead.len(),
        b == a + s.len(),
        0 <= k <= x.len(),
        y == x.take(k),
        all_loose(lead),
        all_loose(tail),
        text::all_digits(y) || (y.len() > 0 && y[0] == '-' && text::all_digits(y.skip(1))) || (
        y.len() > 0 && text::is_digit(y[0]) && text::all_digits(y.skip(1))),
    ensures
        k == 0 || (a == 0 && k <= b && s.take(k) == y),
        k == 0 ==> s.take(0) == y,
{
    if k > 0 {
        if a > 0 {
            assert(x[0] == lead[0]);
            assert(y[0] == x[0]);
            assert(text::all_digits(y) ==> text::is_digit(y[0]));
            assert(false);
        }
        if k > b {
            assert(x[b] == tail[0]);
            assert(y[b] == x[b]);
            if b > 0 {
                assert(y.skip(1)[b - 1] == y[b]);
            }
            assert(false);
        }
        assert(s.take(k) =~= y);
    } else {
        assert(s.take(0) =~= y);
    }
}

/// What fits can be spelled with something loose at the ends.
proof fn lemma_fringed(ps: Seq<Piece>, n: nat, s: Seq<char>, begun: bool) -> (r: (
    Seq<char>,
    Seq<char>,
))
    requires
        fits(ps, n, s, begun),
    ensures
        fringed(ps, n, s, r.0, r.1),
        begun ==> r.0.len() == 0,
    decreases ps.len(),
{
    let empty = Seq::<char>::empty();
    if ps.len() == 0 {
        assert((empty + s + empty).len() == 0);
        (empty, empty)
    } else if missing(ps[0], s.len() == 0, begun) && fits(ps.skip(1), n, s, begun) {
        let c = ps[0]->Letter_0;
        let (lead, tail) = lemma_fringed(ps.skip(1), n, s, begun);
        let l = if begun { lead } else { seq![c] + lead };
        let t = if begun { seq![c] + tail } else { tail };
        let x = l + s + t;
        assert(x.skip(1) =~= lead + s + tail);
        assert(x.take(1) =~= seq![c]);
        assert(takes(ps[0], n, x.take(1)));
        assert forall|i: int| 0 <= i < l.len() implies loose(#[trigger] l[i]) by {
            if !begun && i > 0 {
                assert(l[i] == lead[i - 1]);
            }
        }
        assert forall|i: int| 0 <= i < t.len() implies loose(#[trigger] t[i]) by {
            if begun && i > 0 {
                assert(t[i] == tail[i - 1]);
            }
        }
        assert(spells(ps, n, x));
        (l, t)
    } else {
        let k = choose|k: int|
            0 <= k <= s.len() && #[trigger] takes(ps[0], n, s.take(k)) && fits(
                ps.skip(1),
                n,
                s.skip(k),
                begun || k > 0,
            );
        let (lead, tail) = lemma_fringed(ps.skip(1), n, s.skip(k), begun || k > 0);
        let x = lead + s + tail;
        assert(x.take(k) =~= s.take(k));
        assert(x.skip(k) =~= lead + s.skip(k) + tail);
        assert(takes(ps[0], n, x.take(k)));
        assert(spells(ps, n, x));
        (lead, tail)
    }
}

/// Whether a piece can stand for the characters from `j` to `j + k`; `d` holds
/// the digits of the number.
fn piece_takes(p: Piece, n: u32, d: &Vec<char>, s: &Vec<char>, j: usize, k: usize) -> (r: bool)
    requires
        d@ == text::decimal(n as nat),
        j + k <= s@.len(),
    ensures
        r == takes(p, n as nat, s@.subrange(j as int, j + k)),
{
    let ghost x = s@.subrange(j as int, j + k);
    let len: usize = s.len();
    match p {
        Piece::Letter(c) => k == 1 && s[j] == c,
        Piece::Text => true,
        Piece::Pair => {
            if k == 0 {
                return true;
            }
            if k != 2 {
                return false;
            }
            digits_at(s, j, 2)
        },
        Piece::Year => {
            if k == 0 {
                return true;
            }
            if k < 4 {
                return false;
            }
            let c: char = s[j];
            let r: bool = digits_at(s, j + 1, k - 1);
            proof {
                assert(x.skip(1) =~= s@.subrange(j + 1, j + k));
            }
            (c == '-' || ('0' <= c && c <= '9')) && r
        },
        Piece::Number(width) => {
            let m: usize = d.len();
            let full: usize = if width > m {
                width
            } else {
                m
            };
            let ghost want = text::pad_left(d@, width as int, '0');
            if k != full {
                proof {
                    assert(x.len() != want.len());
                }
                return false;
            }
            let pad: usize = k - m;
            let mut i: usize = 0;
            while i < k
                invariant
                    i <= k,
                    len == s@.len(),
                    j + k <= len,
                    d@ == text::decimal(n as nat),
                    p == Piece::Number(width),
                    m == d@.len(),
                    pad == k - m,
                    m <= k,
                    k == full,
                    full == if width > m { width } else { m },
                    want == text::pad_left(d@, width as int, '0'),
                    x == s@.subrange(j as int, j + k),
                    forall|h: int| 0 <= h < i ==> x[h] == #[trigger] want[h],
                decreases k - i,
            {
                let c: char = s[j + i];
                let ok: bool = if i < pad {
                    c == '0'
                } else {
                    c == d[i - pad]
                };
                proof {
                    assert(x[i as int] == c);
                    assert(want[i as int] == if i < pad { '0' } else { d@[i - pad] });
                }
                if !ok {
                    return false;
                }
                i = i + 1;
            }
            proof {
                assert(x =~= want);
            }
            true
        },
    }
}

fn digits_at(s: &Vec<char>, j: usize, k: usize) -> (r: bool)
    requires
        j + k <= s@.len(),
    ensures
        r == text::all_digits(s@.subrange(j as int, j + k)),
{
    let ghost x = s@.subrange(j as int, j + k);
    let len: usize = s.len();
    let mut i: usize = 0;
    while i < k
        invariant
            i <= k,
            len == s@.len(),
            j + k <= len,
            x == s@.subrange(j as int, j + k),
            forall|h: int| 0 <= h < i ==> text::is_digit(#[trigger] x[h]),
        decreases k - i,
    {
        let c: char = s[j + i];
        if c < '0' || c > '9' {
            proof {
                assert(!text::is_digit(x[i as int]));
            }
            return false;
        }
        i = i + 1;
    }
    true
}

/// Whether each entry of a row says whether the stem from there on fits.
spec fn row_of(ps: Seq<Piece>, n: nat, s: Seq<char>, begun: bool, row: Seq<bool>) -> bool {
    &&& row.len() == s.len() + 1
    &&& forall|j: int| 0 <= j <= s.len() ==> #[trigger] row[j] == fits(ps, n, s.skip(j), begun)
}

/// Whether the stem from `j` on fits, given that for the pieces behind the
/// first.
fn fits_at(
    p: Piece,
    n: u32,
    d: &Vec<char>,
    s: &Vec<char>,
    j: usize,
    begun: bool,
    fresh: &Vec<bool>,
    going: &Vec<bool>,
    Ghost(ps): Ghost<Seq<Piece>>,
) -> (r: bool)
    requires
        d@ == text::decimal(n as nat),
        j <= s@.len(),
        ps.len() > 0,
        ps[0] == p,
        row_of(ps.skip(1), n as nat, s@, false, fresh@),
        row_of(ps.skip(1), n as nat, s@, true, going@),
    ensures
        r == fits(ps, n as nat, s@.skip(j as int), begun),
{
    let len: usize = s.len();
    let ghost t = s@.skip(j as int);
    let next: bool = if begun {
        going[j]
    } else {
        fresh[j]
    };
    if next && (!begun || j == len) {
        match p {
            Piece::Letter(c) => {
                if c == '.' || text::class_has(Class::White, c) {
                    return true;
                }
            },
            _ => {},
        }
    }
    let mut k: usize = 0;
    proof {
        assert(t.skip(0) =~= t);
    }
    while k < len - j
        invariant
            len == s@.len(),
            j <= len,
            k <= len - j,
            t == s@.skip(j as int),
            d@ == text::decimal(n as nat),
            ps.len() > 0,
            ps[0] == p,
            row_of(ps.skip(1), n as nat, s@, false, fresh@),
            row_of(ps.skip(1), n as nat, s@, true, going@),
            forall|h: int|
                0 <= h < k ==> !(#[trigger] takes(p, n as nat, t.take(h)) && fits(
                    ps.skip(1),
                    n as nat,
                    t.skip(h),
                    begun || h > 0,
                )),
        decreases len - j - k,
    {
        if goes_on(p, n, d, s, j, k, begun, fresh, going, Ghost(ps)) {
            proof {
                assert(takes(ps[0], n as nat, t.take(k as int)));
            }
            return true;
        }
        k = k + 1;
    }
    let last: bool = goes_on(p, n, d, s, j, k, begun, fresh, going, Ghost(ps));
    proof {
        if last {
            assert(takes(ps[0], n as nat, t.take(k as int)));
        }
    }
    last
}

/// Whether the first piece can stand for the characters from `j` to `j + k`,
/// with what comes behind them fitting.
fn goes_on(
    p: Piece,
    n: u32,
    d: &Vec<char>,
    s: &Vec<char>,
    j: usize,
    k: usize,
    begun: bool,
    fresh: &Vec<bool>,
    going: &Vec<bool>,
    Ghost(ps): Ghost<Seq<Piece>>,
) -> (r: bool)
    requires
        d@ == text::decimal(n as nat),
        j + k <= s@.len(),
        ps.len() > 0,
        ps[0] == p,
        row_of(ps.skip(1), n as nat, s@, false, fresh@),
        row_of(ps.skip(1), n as nat, s@, true, going@),
    ensures
        r == (takes(p, n as nat, s@.skip(j as int).take(k as int)) && fits(
            ps.skip(1),
            n as nat,
            s@.skip(j as int).skip(k as int),
            begun || k > 0,
        )),
{
    let len: usize = s.len();
    let there: bool = if begun || k > 0 {
        going[j + k]
    } else {
        fresh[j + k]
    };
    proof {
        let t = s@.skip(j as int);
        assert(t.take(k as int) =~= s@.subrange(j as int, j + k));
        assert(t.skip(k as int) =~= s@.skip(j + k));
    }
    there && piece_takes(p, n, d, s, j, k)
}

/// Whether the pieces could have made a stem with a number, the number being
/// among them.
fn fits_stem(ps: &Vec<Piece>, n: u32, s: &Vec<char>) -> (r: bool)
    ensures
        r == fits(ps@, n as nat, s@, false),
{
    let d: Vec<char> = text::decimal_chars(n as u64);
    let len: usize = s.len();
    let mut fresh: Vec<bool> = Vec::new();
    let mut going: Vec<bool> = Vec::new();
    let mut i: usize = 0;
    while i < len
        invariant
            len == s@.len(),
            i <= len,
            fresh@.len() == i,
            going@.len() == i,
            forall|j: int| 0 <= j < i ==> !#[trigger] fresh@[j],
            forall|j: int| 0 <= j < i ==> !#[trigger] going@[j],
        decreases len - i,
    {
        fresh.push(false);
        going.push(false);
        i = i + 1;
    }
    fresh.push(true);
    going.push(true);
    let mut m: usize = ps.len();
    proof {
        assert(ps@.skip(m as int) =~= Seq::<Piece>::empty());
    }
    while m > 0
        invariant
            m <= ps@.len(),
            len == s@.len(),
            d@ == text::decimal(n as nat),
            row_of(ps@.skip(m as int), n as nat, s@, false, fresh@),
            row_of(ps@.skip(m as int), n as nat, s@, true, going@),
        decreases m,
    {
        let p: Piece = ps[m - 1];
        let ghost rest = ps@.skip(m - 1);
        proof {
            assert(rest.skip(1) =~= ps@.skip(m as int));
        }
        let mut f: Vec<bool> = Vec::new();
        let mut g: Vec<bool> = Vec::new();
        let mut j: usize = 0;
        while j < len
            invariant
                len == s@.len(),
                j <= len,
                f@.len() == j,
                g@.len() == j,
                d@ == text::decimal(n as nat),
                rest.len() > 0,
                rest[0] == p,
                row_of(rest.skip(1), n as nat, s@, false, fresh@),
                row_of(rest.skip(1), n as nat, s@, true, going@),
                forall|h: int|
                    0 <= h < j ==> #[trigger] f@[h] == fits(rest, n as nat, s@.skip(h), false),
                forall|h: int|
                    0 <= h < j ==> #[trigger] g@[h] == fits(rest, n as nat, s@.skip(h), true),
            decreases len - j,
        {
            let a: bool = fits_at(p, n, &d, s, j, false, &fresh, &going, Ghost(rest));
            let b: bool = fits_at(p, n, &d, s, j, true, &fresh, &going, Ghost(rest));
            f.push(a);
            g.push(b);
            j = j + 1;
        }
        let a: bool = fits_at(p, n, &d, s, len, false, &fresh, &going, Ghost(rest));
        let b: bool = fits_at(p, n, &d, s, len, true, &fresh, &going, Ghost(rest));
        f.push(a);
        g.push(b);
        fresh = f;
        going = g;
        m = m - 1;
    }
    proof {
        assert(ps@.skip(0) =~= ps@);
        assert(s@.skip(0) =~= s@);
    }
    fresh[0]
}

// ---------------------------------------------------------------------------
// The number of a stem
// ---------------------------------------------------------------------------

proof fn lemma_digits_limit(d: Seq<char>)
    requires
        text::all_digits(d),
    ensures
        0 <= text::digits_value(d) < vstd::arithmetic::power::pow(10, d.len()),
    decreases d.len(),
{
    vstd::arithmetic::power::lemma_pow0(10);
    if d.len() > 0 {
        let t = d.drop_last();
        assert forall|i: int| 0 <= i < t.len() implies text::is_digit(#[trigger] t[i]) by {
            assert(text::is_digit(d[i]));
        }
        assert(text::is_digit(d[d.len() - 1]));
        lemma_digits_limit(t);
        assert(vstd::arithmetic::power::pow(10, d.len()) == 10 * vstd::arithmetic::power::pow(
            10,
            t.len(),
        )) by {
            reveal(vstd::arithmetic::power::pow);
        }
    }
}

proof fn lemma_limit()
    ensures
        vstd::arithmetic::power::pow(10, 9) == LIMIT,
{
    assert(vstd::arithmetic::power::pow(10, 9) == 1000000000) by {
        reveal_with_fuel(vstd::arithmetic::power::pow, 10);
    }
}

proof fn lemma_small_number(d: Seq<char>)
    requires
        text::all_digits(d),
        d.len() <= 9,
    ensures
        0 <= text::digits_value(d) < LIMIT,
{
    lemma_digits_limit(d);
    lemma_limit();
    vstd::arithmetic::power::lemma_pow_increases(10, d.len(), 9);
}

/// Decimal notation denotes its number, and has no more digits than it needs.
proof fn lemma_decimal(n: nat, m: nat)
    requires
        n < vstd::arithmetic::power::pow(10, m),
        m > 0,
    ensures
        text::digits_value(text::decimal(n)) == n,
        text::decimal(n).len() <= m,
    decreases n,
{
    if n < 10 {
        let d = text::decimal(n);
        assert(d.drop_last() =~= Seq::<char>::empty());
        assert(text::digits_value(d.drop_last()) == 0);
    } else {
        let e = text::decimal(n / 10);
        assert(text::decimal(n).drop_last() =~= e);
        if m == 1 {
            vstd::arithmetic::power::lemma_pow1(10);
        } else {
            let p = vstd::arithmetic::power::pow(10, (m - 1) as nat);
            assert(vstd::arithmetic::power::pow(10, m) == 10 * p) by {
                reveal(vstd::arithmetic::power::pow);
            }
            lemma_decimal(n / 10, (m - 1) as nat);
        }
    }
}

/// Where the number is among the pieces, its digits are in the stem.
proof fn lemma_number_inside(ps: Seq<Piece>, n: nat, s: Seq<char>, begun: bool) -> (i: int)
    requires
        counts(ps),
        fits(ps, n, s, begun),
    ensures
        0 <= i,
        i + text::decimal(n).len() <= s.len(),
        s.subrange(i, i + text::decimal(n).len()) == text::decimal(n),
    decreases ps.len(),
{
    let d = text::decimal(n);
    let at = choose|at: int| 0 <= at < ps.len() && #[trigger] ps[at] is Number;
    let rest = ps.skip(1);
    if at > 0 {
        assert(rest[at - 1] is Number);
    }
    if missing(ps[0], s.len() == 0, begun) && fits(rest, n, s, begun) {
        lemma_number_inside(rest, n, s, begun)
    } else {
        let k = choose|k: int|
            0 <= k <= s.len() && #[trigger] takes(ps[0], n, s.take(k)) && fits(
                rest,
                n,
                s.skip(k),
                begun || k > 0,
            );
        if ps[0] is Number {
            let x = s.take(k);
            let w = ps[0]->Number_0 as int;
            assert(x == text::pad_left(d, w, '0'));
            assert(x.len() == k);
            let fill = k - d.len();
            assert(fill >= 0);
            let y = s.subrange(fill, k);
            assert forall|h: int| 0 <= h < y.len() implies #[trigger] y[h] == d[h] by {
                assert(y[h] == s[fill + h]);
                assert(s[fill + h] == x[fill + h]);
                assert(x[fill + h] == d[h]);
            }
            assert(y =~= d);
            fill
        } else {
            let i = lemma_number_inside(rest, n, s.skip(k), begun || k > 0);
            assert(s.subrange(i + k, i + k + d.len()) =~= s.skip(k).subrange(i, i + d.len()));
            i + k
        }
    }
}

/// Whether a stem could have been made, by way of fitting.
proof fn lemma_made(ps: Seq<Piece>, n: nat, s: Seq<char>)
    ensures
        made(ps, n, s) == (counts(ps) && fits(ps, n, s, false)),
{
    if made(ps, n, s) {
        let (lead, tail) = choose|lead: Seq<char>, tail: Seq<char>| #[trigger]
            fringed(ps, n, s, lead, tail);
        lemma_fits(ps, n, s, lead, tail, false);
    }
    if counts(ps) && fits(ps, n, s, false) {
        let (lead, tail) = lemma_fringed(ps, n, s, false);
        assert(fringed(ps, n, s, lead, tail));
    }
}

proof fn lemma_past(ps: Seq<Piece>, s: Seq<char>, m: nat, r: nat)
    requires
        r <= m,
        r > 0 ==> made(ps, (r - 1) as nat, s),
        forall|n: nat| r <= n < m ==> !#[trigger] made(ps, n, s),
    ensures
        past(ps, s, m) == r,
    decreases m,
{
    if m > r {
        assert(!made(ps, (m - 1) as nat, s));
        lemma_past(ps, s, (m - 1) as nat, r);
    }
}

/// Whether every number at `i` of at most `l` digits that fits is below `r`.
spec fn covered(ps: Seq<Piece>, s: Seq<char>, i: int, l: int, r: int) -> bool {
    forall|h: int|
        1 <= h <= l && i + h <= s.len() && text::all_digits(#[trigger] s.subrange(i, i + h))
            && fits(ps, text::digits_value(s.subrange(i, i + h)) as nat, s, false)
            ==> text::digits_value(s.subrange(i, i + h)) < r
}

/// One past the largest number that begins at `i` and fits, but at least
/// `start`.
fn past_at(ps: &Vec<Piece>, s: &Vec<char>, i: usize, start: u32) -> (r: u32)
    requires
        i < s@.len(),
        start <= LIMIT,
        start > 0 ==> fits(ps@, (start - 1) as nat, s@, false),
    ensures
        start <= r <= LIMIT,
        r > 0 ==> fits(ps@, (r - 1) as nat, s@, false),
        covered(ps@, s@, i as int, 9, r as int),
{
    let len: usize = s.len();
    let mut r: u32 = start;
    let mut v: u32 = 0;
    let mut l: usize = 0;
    proof {
        assert(text::digits_value(s@.subrange(i as int, i as int)) == 0);
    }
    while l < 9 && l < len - i && '0' <= s[i + l] && s[i + l] <= '9'
        invariant
            len == s@.len(),
            i < len,
            l <= 9,
            l <= len - i,
            text::all_digits(s@.subrange(i as int, i + l)),
            v == text::digits_value(s@.subrange(i as int, i + l)),
            start <= r <= LIMIT,
            r > 0 ==> fits(ps@, (r - 1) as nat, s@, false),
            covered(ps@, s@, i as int, l as int, r as int),
        decreases 9 - l,
    {
        let ghost x = s@.subrange(i as int, i + l);
        let ghost y = s@.subrange(i as int, i + l + 1);
        let ghost before = r as int;
        proof {
            assert(y.drop_last() =~= x);
            assert forall|h: int| 0 <= h < y.len() implies text::is_digit(#[trigger] y[h]) by {
                if h < l {
                    assert(y[h] == x[h]);
                }
            }
            lemma_small_number(y);
            lemma_digits_limit(x);
        }
        v = v * 10 + (s[i + l] as u32 - 48);
        l = l + 1;
        if v >= r && fits_stem(ps, v, s) {
            r = v + 1;
        }
        proof {
            assert(covered(ps@, s@, i as int, l as int, r as int)) by {
                assert forall|h: int|
                    1 <= h <= l && i + h <= s@.len() && text::all_digits(
                        #[trigger] s@.subrange(i as int, i + h),
                    ) && fits(
                        ps@,
                        text::digits_value(s@.subrange(i as int, i + h)) as nat,
                        s@,
                        false,
                    ) implies text::digits_value(s@.subrange(i as int, i + h)) < r by {
                    if h < l {
                        assert(text::digits_value(s@.subrange(i as int, i + h)) < before);
                    }
                }
            }
        }
    }
    proof {
        assert forall|h: int|
            1 <= h <= 9 && i + h <= s@.len() && text::all_digits(
                #[trigger] s@.subrange(i as int, i + h),
            ) && fits(ps@, text::digits_value(s@.subrange(i as int, i + h)) as nat, s@, false) implies
            text::digits_value(s@.subrange(i as int, i + h)) < r by {
            if h > l {
                assert(s@.subrange(i as int, i + h)[l as int] == s@[i + l]);
                assert(text::is_digit(s@.subrange(i as int, i + h)[l as int]));
            }
        }
    }
    r
}

/// One past the largest number with which a stem could have been made.
fn number_after(ps: &Vec<Piece>, stem: &str) -> (r: u32)
    requires
        counts(ps@),
    ensures
        r == past(ps@, stem@, LIMIT as nat),
        r <= LIMIT,
{
    let s: Vec<char> = text::chars_of(stem);
    let mut r: u32 = 0;
    let mut i: usize = 0;
    while i < s.len()
        invariant
            i <= s@.len(),
            r <= LIMIT,
            r > 0 ==> fits(ps@, (r - 1) as nat, s@, false),
            forall|h: int| 0 <= h < i ==> #[trigger] covered(ps@, s@, h, 9, r as int),
        decreases s@.len() - i,
    {
        let ghost before = r as int;
        r = past_at(ps, &s, i, r);
        proof {
            assert forall|h: int| 0 <= h < i + 1 implies #[trigger] covered(
                ps@,
                s@,
                h,
                9,
                r as int,
            ) by {
                if h < i {
                    assert(covered(ps@, s@, h, 9, before));
                }
            }
        }
        i = i + 1;
    }
    proof {
        if r > 0 {
            lemma_made(ps@, (r - 1) as nat, s@);
        }
        assert forall|n: nat| r <= n < LIMIT implies !#[trigger] made(ps@, n, s@) by {
            lemma_made(ps@, n, s@);
            if made(ps@, n, s@) {
                let h = lemma_number_inside(ps@, n, s@, false);
                let d = text::decimal(n);
                lemma_limit();
                lemma_decimal(n, 9);
                text::lemma_decimal_digits(n);
                assert(covered(ps@, s@, h, 9, r as int));
                assert(text::all_digits(s@.subrange(h, h + d.len())));
            }
        }
        lemma_past(ps@, s@, LIMIT as nat, r as nat);
    }
    r
}

proof fn lemma_uncounted(ps: Seq<Piece>, s: Seq<char>, m: nat)
    requires
        !counts(ps),
    ensures
        past(ps, s, m) == 0,
    decreases m,
{
    if m > 0 {
        lemma_uncounted(ps, s, (m - 1) as nat);
    }
}

proof fn lemma_past_bound(ps: Seq<Piece>, s: Seq<char>, m: nat)
    ensures
        past(ps, s, m) <= m,
        forall|n: nat| n < m && #[trigger] made(ps, n, s) ==> past(ps, s, m) > n,
    decreases m,
{
    if m > 0 {
        lemma_past_bound(ps, s, (m - 1) as nat);
    }
}

/// The first free number is past every number of a stem.
pub proof fn lemma_first_free(tpl: Seq<char>, stems: Seq<Seq<char>>)
    ensures
        first_free(tpl, stems) <= LIMIT,
        forall|k: int, n: nat|
            0 <= k < stems.len() && n < LIMIT && #[trigger] made(pieces(tpl), n, stems[k])
                ==> first_free(tpl, stems) > n,
    decreases stems.len(),
{
    if stems.len() > 0 {
        let t = stems.drop_last();
        lemma_first_free(tpl, t);
        lemma_past_bound(pieces(tpl), stems.last(), LIMIT as nat);
        assert forall|k: int, n: nat|
            0 <= k < stems.len() && n < LIMIT && #[trigger] made(
                pieces(tpl),
                n,
                stems[k],
            ) implies first_free(tpl, stems) > n by {
            if k < t.len() {
                assert(made(pieces(tpl), n, t[k]));
            }
        }
    }
}

/// Where no stem could have been made, the numbers begin at 0.
pub proof fn lemma_first_free_none(tpl: Seq<char>, stems: Seq<Seq<char>>)
    requires
        forall|k: int, n: nat|
            0 <= k < stems.len() && n < LIMIT ==> !#[trigger] made(pieces(tpl), n, stems[k]),
    ensures
        first_free(tpl, stems) == 0,
    decreases stems.len(),
{
    if stems.len() > 0 {
        let t = stems.drop_last();
        assert forall|k: int, n: nat| 0 <= k < t.len() && n < LIMIT implies !#[trigger] made(
            pieces(tpl),
            n,
            t[k],
        ) by {
            assert(!made(pieces(tpl), n, stems[k]));
        }
        lemma_first_free_none(tpl, t);
        assert forall|n: nat| 0 <= n < LIMIT implies !#[trigger] made(
            pieces(tpl),
            n,
            stems.last(),
        ) by {
            assert(!made(pieces(tpl), n, stems[stems.len() - 1]));
        }
        lemma_past(pieces(tpl), stems.last(), LIMIT as nat, 0);
    }
}

/// A stem that was made with a number holds a digit.
pub proof fn lemma_made_digit(ps: Seq<Piece>, n: nat, s: Seq<char>)
    requires
        made(ps, n, s),
    ensures
        exists|h: int| 0 <= h < s.len() && text::is_digit(#[trigger] s[h]),
{
    lemma_made(ps, n, s);
    let h = lemma_number_inside(ps, n, s, false);
    text::lemma_decimal_digits(n);
    assert(text::is_digit(text::decimal(n)[0]));
    assert(s[h] == s.subrange(h, h + text::decimal(n).len())[0]);
}

/// The first number that is free in a folder, given the name template and the
/// stems of the files in the folder.
pub fn counter_start(name_template: &str, stems: &Vec<String>) -> (r: u32)
    ensures
        r == first_free(name_template@, text::views(stems@)),
        r <= LIMIT,
{
    let ghost all = text::views(stems@);
    let ghost tpl = name_template@;
    let ps: Vec<Piece> = template_pieces(name_template);
    let counted: bool = has_number(&ps);
    let mut r: u32 = 0;
    let mut i: usize = 0;
    proof {
        assert(all.take(0) =~= Seq::<Seq<char>>::empty());
    }
    while i < stems.len()
        invariant
            i <= stems@.len(),
            all == text::views(stems@),
            ps@ == pieces(tpl),
            counted == counts(ps@),
            r == first_free(tpl, all.take(i as int)),
            r <= LIMIT,
        decreases stems@.len() - i,
    {
        proof {
            assert(all.take(i + 1).drop_last() =~= all.take(i as int));
            assert(all.take(i + 1).last() == stems@[i as int]@);
        }
        if counted {
            let here: u32 = number_after(&ps, stems[i].as_str());
            if here > r {
                r = here;
            }
        } else {
            proof {
                lemma_uncounted(ps@, stems@[i as int]@, LIMIT as nat);
            }
        }
        i = i + 1;
    }
    proof {
        assert(all.take(all.len() as int) =~= all);
    }
    r
}

// ---------------------------------------------------------------------------
// Laws
// ---------------------------------------------------------------------------

proof fn lemma_spells_on(a: Seq<Piece>, b: Seq<Piece>, n: nat, x: Seq<char>, y: Seq<char>)
    requires
        spells(a, n, x),
        spells(b, n, y),
    ensures
        spells(a + b, n, x + y),
    decreases a.len(),
{
    if a.len() == 0 {
        assert(a + b =~= b);
        assert(x + y =~= y);
    } else {
        let k = choose|k: int|
            0 <= k <= x.len() && #[trigger] takes(a[0], n, x.take(k)) && spells(
                a.skip(1),
                n,
                x.skip(k),
            );
        lemma_spells_on(a.skip(1), b, n, x.skip(k), y);
        let c = a + b;
        let z = x + y;
        assert(c.skip(1) =~= a.skip(1) + b);
        assert(z.take(k) =~= x.take(k));
        assert(z.skip(k) =~= x.skip(k) + y);
        assert(takes(c[0], n, z.take(k)));
    }
}

proof fn lemma_spells_one(p: Piece, n: nat, x: Seq<char>)
    requires
        takes(p, n, x),
    ensures
        spells(seq![p], n, x),
{
    let k = x.len() as int;
    assert(x.take(k) =~= x);
    assert(takes(seq![p][0], n, x.take(k)));
    assert(seq![p].skip(1) =~= Seq::<Piece>::empty());
    assert(x.skip(k).len() == 0);
    assert(spells(seq![p].skip(1), n, x.skip(k)));
}

proof fn lemma_spells_letters(s: Seq<char>, n: nat)
    ensures
        spells(letters(s), n, template::cleaned(s, false)),
    decreases s.len(),
{
    let x = template::cleaned(s, false);
    if s.len() > 0 {
        let t = s.skip(1);
        lemma_spells_letters(t, n);
        assert(letters(s).skip(1) =~= letters(t));
        assert(x.skip(1) =~= template::cleaned(t, false));
        assert(takes(letters(s)[0], n, x.take(1)));
    }
}

proof fn lemma_clean_digits(x: Seq<char>)
    requires
        forall|i: int| 0 <= i < x.len() ==> text::is_digit(#[trigger] x[i]) || x[i] == '-',
    ensures
        template::cleaned(x, false) == x,
{
    assert(template::cleaned(x, false) =~= x);
}

proof fn lemma_two(v: int)
    requires
        0 <= v < 100,
    ensures
        text::all_digits(clock::two(v)),
        clock::two(v).len() == 2,
{
    lemma_number_text(v as nat, 2);
    vstd::arithmetic::power::lemma_pow1(10);
    assert(vstd::arithmetic::power::pow(10, 2) == 100) by {
        reveal_with_fuel(vstd::arithmetic::power::pow, 3);
    }
    lemma_decimal(v as nat, 2);
}

proof fn lemma_spells_token(tok: Seq<char>, ctx: CtxModel, n: u32)
    requires
        ctx.counter == Some(n),
        ctx.dt matches Some(m) ==> m.valid(),
    ensures
        spells(
            token_pieces(tok),
            n as nat,
            template::cleaned(template::token_text(tok, ctx), false),
        ),
{
    let k = text::find(tok, ':');
    let name = template::token_name(tok);
    let x = template::token_text(tok, ctx);
    let y = template::cleaned(x, false);
    if template::is_date_token(name) {
        match ctx.dt {
            None => {
                assert(y.len() == 0);
            },
            Some(m) => {
                if name == "YYYY"@ {
                    lemma_year(m.year as int);
                } else if name == "YY"@ {
                    lemma_two(m.year as int % 100);
                } else {
                    lemma_month_days(m);
                    lemma_two(m.month as int);
                    lemma_two(m.day as int);
                    lemma_two(m.hour as int);
                    lemma_two(m.minute as int);
                    lemma_two(m.second as int);
                }
                lemma_clean_digits(x);
            },
        }
        lemma_spells_one(token_pieces(tok)[0], n as nat, y);
    } else if name == "original"@ || name == "ext"@ || name == "camera_make"@ || name
        == "camera_model"@ {
        lemma_spells_one(Piece::Text, n as nat, y);
    } else if name == "counter"@ {
        let width = if k < tok.len() {
            template::width_of(tok.skip(k + 1))
        } else {
            0
        };
        template::lemma_width(tok.skip(k + 1));
        lemma_number_text(n as nat, width);
        lemma_clean_digits(x);
        lemma_spells_one(Piece::Number(width as usize), n as nat, y);
    } else {
        lemma_spells_letters(seq!['{'] + tok + seq!['}'], n as nat);
    }
}

proof fn lemma_month_days(m: Moment)
    requires
        m.valid(),
    ensures
        m.month < 100 && m.day < 100 && m.hour < 100 && m.minute < 100 && m.second < 100,
{
}

proof fn lemma_year(y: int)
    ensures
        ({
            let x = text::signed_decimal(y, 4);
            &&& takes(Piece::Year, 0, x)
            &&& x.len() >= 4
            &&& forall|i: int| 0 <= i < x.len() ==> text::is_digit(#[trigger] x[i]) || x[i] == '-'
        }),
{
    let x = text::signed_decimal(y, 4);
    if y < 0 {
        let d = text::pad_left(text::decimal((-y) as nat), 3, '0');
        lemma_number_text((-y) as nat, 3);
        assert(x.skip(1) =~= d);
        assert forall|i: int| 0 <= i < x.len() implies text::is_digit(#[trigger] x[i]) || x[i]
            == '-' by {
            if i > 0 {
                assert(x[i] == d[i - 1]);
            }
        }
    } else {
        lemma_number_text(y as nat, 4);
        assert forall|i: int| 0 <= i < x.skip(1).len() implies text::is_digit(
            #[trigger] x.skip(1)[i],
        ) by {
            assert(x.skip(1)[i] == x[i + 1]);
        }
    }
}

proof fn lemma_spells_template(tpl: Seq<char>, ctx: CtxModel, n: u32)
    requires
        ctx.counter == Some(n),
        ctx.dt matches Some(m) ==> m.valid(),
    ensures
        spells(pieces(tpl), n as nat, template::cleaned(template::rendered(tpl, ctx), false)),
    decreases tpl.len(),
{
    let open = text::find(tpl, '{');
    text::lemma_find(tpl, '{');
    if open >= tpl.len() {
        lemma_spells_letters(tpl, n as nat);
    } else {
        let after = tpl.skip(open + 1);
        let close = text::find(after, '}');
        text::lemma_find(after, '}');
        if close >= after.len() {
            lemma_spells_letters(tpl, n as nat);
        } else {
            let lead = tpl.take(open);
            let tok = after.take(close);
            let rest = after.skip(close + 1);
            let a = template::cleaned(lead, false);
            let b = template::cleaned(template::token_text(tok, ctx), false);
            let c = template::cleaned(template::rendered(rest, ctx), false);
            lemma_spells_letters(lead, n as nat);
            lemma_spells_token(tok, ctx, n);
            lemma_spells_template(rest, ctx, n);
            lemma_spells_on(letters(lead), token_pieces(tok), n as nat, a, b);
            lemma_spells_on(letters(lead) + token_pieces(tok), pieces(rest), n as nat, a + b, c);
            assert(template::cleaned(template::rendered(tpl, ctx), false) =~= a + b + c);
        }
    }
}

/// What sanitizing takes off at the ends is loose.
proof fn lemma_stripped_ends(x: Seq<char>) -> (r: (Seq<char>, Seq<char>))
    ensures
        x == r.0 + template::stripped(x) + r.1,
        all_loose(r.0),
        all_loose(r.1),
{
    let a = text::trimmed(x, Class::White);
    let b = text::trimmed(a, Class::Dot);
    let c = text::trimmed(b, Class::White);
    let (l0, t0) = text::lemma_trimmed_ends(x, Class::White);
    let (l1, t1) = text::lemma_trimmed_ends(a, Class::Dot);
    let (l2, t2) = text::lemma_trimmed_ends(b, Class::White);
    let lead = l0 + l1 + l2;
    let tail = t2 + t1 + t0;
    assert(x =~= lead + c + tail);
    assert forall|i: int| 0 <= i < lead.len() implies loose(#[trigger] lead[i]) by {
        if i < l0.len() {
            assert(lead[i] == l0[i]);
        } else if i < l0.len() + l1.len() {
            assert(lead[i] == l1[i - l0.len()]);
        } else {
            assert(lead[i] == l2[i - l0.len() - l1.len()]);
        }
    }
    assert forall|i: int| 0 <= i < tail.len() implies loose(#[trigger] tail[i]) by {
        if i < t2.len() {
            assert(tail[i] == t2[i]);
        } else if i < t2.len() + t1.len() {
            assert(tail[i] == t1[i - t2.len()]);
        } else {
            assert(tail[i] == t0[i - t2.len() - t1.len()]);
        }
    }
    (lead, tail)
}

/// Every name that a template with a counter makes is recognized with its
/// number, whatever the date, the camera and the original name are.
pub proof fn law_made_is_recognized(tpl: Seq<char>, ctx: CtxModel, n: u32)
    requires
        counts(pieces(tpl)),
        ctx.counter == Some(n),
        ctx.dt matches Some(m) ==> m.valid(),
    ensures
        made(
            pieces(tpl),
            n as nat,
            template::stripped(template::cleaned(template::rendered(tpl, ctx), false)),
        ),
{
    let x = template::cleaned(template::rendered(tpl, ctx), false);
    lemma_spells_template(tpl, ctx, n);
    let (lead, tail) = lemma_stripped_ends(x);
    assert(fringed(pieces(tpl), n as nat, template::stripped(x), lead, tail));
}

} // verus!
