//! What the text helpers keep, said in terms of characters alone.

use vstd::prelude::*;

use crate::text;
use crate::text::Class;

verus! {

/// The number that decimal digits denote, read from the left.
pub open spec fn read_decimal(s: Seq<char>) -> int {
    s.fold_left(0int, |n: int, c: char| n * 10 + (c as int - 48))
}

/// Reading one more digit.
pub proof fn lemma_read_push(s: Seq<char>, c: char)
    ensures
        read_decimal(s.push(c)) == read_decimal(s) * 10 + (c as int - 48),
{
    assert(s.push(c).drop_last() =~= s);
}

pub proof fn lemma_read_empty()
    ensures
        read_decimal(Seq::empty()) == 0,
{
}

/// Writing a number and reading it gives the number; there is no digit too
/// many in front.
pub proof fn law_decimal(n: nat)
    ensures
        read_decimal(text::decimal(n)) == n,
        text::decimal(n).len() > 0,
        forall|i: int|
            0 <= i < text::decimal(n).len() ==> '0' <= #[trigger] text::decimal(n)[i]
                && text::decimal(n)[i] <= '9',
        n > 0 ==> text::decimal(n)[0] != '0',
    decreases n,
{
    let d = text::decimal(n);
    if n < 10 {
        assert(d =~= Seq::<char>::empty().push(text::digit_char(n as int)));
        lemma_read_push(Seq::empty(), d[0]);
        lemma_read_empty();
    } else {
        let e = text::decimal(n / 10);
        law_decimal(n / 10);
        lemma_read_push(e, text::digit_char((n % 10) as int));
        assert forall|i: int| 0 <= i < d.len() implies '0' <= #[trigger] d[i] && d[i] <= '9' by {
            if i < e.len() {
                assert(d[i] == e[i]);
            }
        }
        assert(d[0] == e[0]);
    }
}

/// Reading digits gives the number that they denote.
pub proof fn law_digits_value(s: Seq<char>)
    ensures
        text::digits_value(s) == read_decimal(s),
    decreases s.len(),
{
    if s.len() > 0 {
        law_digits_value(s.drop_last());
        lemma_read_push(s.drop_last(), s.last());
        assert(s.drop_last().push(s.last()) =~= s);
    }
}

/// Filling up adds characters on the left alone, just as many as are missing.
pub proof fn law_pad_left(s: Seq<char>, width: int, c: char)
    ensures
        ({
            let p = text::pad_left(s, width, c);
            &&& p.len() == if width > s.len() { width } else { s.len() as int }
            &&& p.skip(p.len() - s.len()) == s
            &&& forall|i: int| 0 <= i < p.len() - s.len() ==> #[trigger] p[i] == c
        }),
{
    let p = text::pad_left(s, width, c);
    assert(p.skip(p.len() - s.len()) =~= s);
}

/// Zeros in front do not change what a number reads as.
pub proof fn law_zeros_count_for_nothing(s: Seq<char>, width: int)
    ensures
        read_decimal(text::pad_left(s, width, '0')) == read_decimal(s),
    decreases s.len(),
{
    let p = text::pad_left(s, width, '0');
    if s.len() == 0 {
        lemma_zeros(p);
        assert(s =~= Seq::<char>::empty());
        lemma_read_empty();
    } else {
        let t = s.drop_last();
        law_zeros_count_for_nothing(t, width - 1);
        assert(p =~= text::pad_left(t, width - 1, '0').push(s.last()));
        lemma_read_push(text::pad_left(t, width - 1, '0'), s.last());
        lemma_read_push(t, s.last());
        assert(t.push(s.last()) =~= s);
    }
}

proof fn lemma_zeros(p: Seq<char>)
    requires
        forall|i: int| 0 <= i < p.len() ==> #[trigger] p[i] == '0',
    ensures
        read_decimal(p) == 0,
    decreases p.len(),
{
    if p.len() > 0 {
        lemma_zeros(p.drop_last());
        lemma_read_push(p.drop_last(), p.last());
        assert(p.drop_last().push(p.last()) =~= p);
        assert(p[p.len() - 1] == '0');
    } else {
        assert(p =~= Seq::<char>::empty());
    }
}

/// A number below a power of ten has no more digits than that.
pub proof fn lemma_decimal_len(n: nat, digits: nat, limit: nat)
    requires
        digits >= 1,
        limit == vstd::arithmetic::power::pow(10, digits),
        n < limit,
    ensures
        text::decimal(n).len() <= digits,
    decreases digits,
{
    if n >= 10 {
        if digits == 1 {
            vstd::arithmetic::power::lemma_pow1(10);
        } else {
            let less = vstd::arithmetic::power::pow(10, (digits - 1) as nat);
            assert(limit == 10 * less) by {
                reveal(vstd::arithmetic::power::pow);
            }
            vstd::arithmetic::power::lemma_pow_positive(10, (digits - 1) as nat);
            lemma_decimal_len(n / 10, (digits - 1) as nat, less as nat);
        }
    }
}

/// Two digits, each said on its own.
pub open spec fn two_digits_of(t: Seq<char>, n: int) -> bool {
    t.len() == 2 && t[0] as int == 48 + n / 10 && t[1] as int == 48 + n % 10
}

/// A number below a hundred, filled up to two digits, is its tens and its ones.
pub proof fn law_two_digits(n: int)
    requires
        0 <= n < 100,
    ensures
        two_digits_of(text::pad_left(text::decimal(n as nat), 2, '0'), n),
{
    let t = text::pad_left(text::decimal(n as nat), 2, '0');
    if n < 10 {
        assert(text::decimal(n as nat) =~= seq![text::digit_char(n)]);
        assert(t[0] == '0');
        assert(t[1] == text::digit_char(n));
    } else {
        let m = (n / 10) as nat;
        assert(m < 10);
        assert(text::decimal(m) =~= seq![text::digit_char(m as int)]);
        assert(text::decimal(n as nat) =~= seq![
            text::digit_char(m as int),
            text::digit_char(n % 10),
        ]);
    }
}

/// A number below ten thousand, filled up to four digits, is its digits.
pub proof fn law_four_digits(n: int)
    requires
        0 <= n < 10000,
    ensures
        ({
            let t = text::pad_left(text::decimal(n as nat), 4, '0');
            &&& t.len() == 4
            &&& t[0] as int == 48 + n / 1000
            &&& t[1] as int == 48 + n / 100 % 10
            &&& t[2] as int == 48 + n / 10 % 10
            &&& t[3] as int == 48 + n % 10
        }),
{
    reveal_with_fuel(text::decimal, 5);
    let t = text::pad_left(text::decimal(n as nat), 4, '0');
    assert(n / 10 / 10 == n / 100 && n / 100 / 10 == n / 1000);
}

/// Lower case moves the letters from A to Z and nothing else.
pub proof fn law_ascii_lower(s: Seq<char>, i: int)
    requires
        0 <= i < s.len(),
    ensures
        text::ascii_lower(s).len() == s.len(),
        65 <= s[i] as int <= 90 ==> text::ascii_lower(s)[i] as int == s[i] as int + 32,
        !(65 <= s[i] as int <= 90) ==> text::ascii_lower(s)[i] == s[i],
{
}

/// Blanks, tabs and line ends are white; what is printed in ASCII is not.
pub proof fn law_white(c: char)
    ensures
        c == ' ' || c == '\t' || c == '\n' || c == '\r' ==> text::is_white(c),
        33 <= c as int <= 126 ==> !text::is_white(c),
        text::is_white(c) <==> {
            ||| c == ' '
            ||| c == '\u{85}'
            ||| c == '\u{a0}'
            ||| c == '\u{1680}'
            ||| c == '\u{2028}'
            ||| c == '\u{2029}'
            ||| c == '\u{202f}'
            ||| c == '\u{205f}'
            ||| c == '\u{3000}'
            ||| '\u{9}' <= c && c <= '\u{d}'
            ||| '\u{2000}' <= c && c <= '\u{200a}'
        },
{
}

/// Trimming takes off all that is of a class at both ends, and only that.
pub proof fn law_trimmed(s: Seq<char>, k: Class)
    ensures
        exists|a: int, b: int| #[trigger] cut_out(s, k, a, b) && text::trimmed(s, k) == s.subrange(a, b),
        text::trimmed(s, k).len() > 0 ==> !text::in_class(k, text::trimmed(s, k)[0])
            && !text::in_class(k, text::trimmed(s, k).last()),
{
    text::lemma_trimmed(s, k);
    let (lead, tail) = text::lemma_trimmed_ends(s, k);
    let t = text::trimmed(s, k);
    let a = lead.len() as int;
    let b = a + t.len();
    assert forall|i: int| 0 <= i < a implies text::in_class(k, #[trigger] s[i]) by {
        assert(s[i] == lead[i]);
    }
    assert forall|i: int| b <= i < s.len() implies text::in_class(k, #[trigger] s[i]) by {
        assert(s[i] == tail[i - b]);
    }
    assert(s.subrange(a, b) =~= t);
    assert(cut_out(s, k, a, b));
}

/// Whether everything outside a range is of a class.
pub open spec fn cut_out(s: Seq<char>, k: Class, a: int, b: int) -> bool {
    &&& 0 <= a <= b <= s.len()
    &&& forall|i: int| 0 <= i < a ==> text::in_class(k, #[trigger] s[i])
    &&& forall|i: int| b <= i < s.len() ==> text::in_class(k, #[trigger] s[i])
}

/// Trimming leaves alone what has nothing of the class at its ends.
pub proof fn law_trimmed_fixed(s: Seq<char>, k: Class)
    requires
        s.len() > 0 ==> !text::in_class(k, s[0]) && !text::in_class(k, s.last()),
    ensures
        text::trimmed(s, k) == s,
        text::trim_right(s, k) == s,
{
}

/// Splitting and joining are inverse, and no piece holds the separator.
pub proof fn law_split(s: Seq<char>, c: char)
    ensures
        text::join(text::split(s, c), seq![c]) == s,
        text::split(s, c).len() > 0,
        forall|i: int|
            0 <= i < text::split(s, c).len() ==> !(#[trigger] text::split(s, c)[i]).contains(c),
    decreases s.len(),
{
    let k = text::find(s, c);
    text::lemma_find(s, c);
    let p = text::split(s, c);
    if k >= s.len() {
        assert(p =~= seq![s]);
    } else {
        let rest = s.skip(k + 1);
        law_split(rest, c);
        let q = text::split(rest, c);
        lemma_join_front(s.take(k), q, seq![c]);
        assert(s =~= s.take(k) + seq![c] + rest);
        assert forall|i: int| 0 <= i < p.len() implies !(#[trigger] p[i]).contains(c) by {
            if i > 0 {
                assert(p[i] == q[i - 1]);
            } else {
                assert(p[0] == s.take(k));
                if p[0].contains(c) {
                    let j = choose|j: int| 0 <= j < p[0].len() && p[0][j] == c;
                    assert(s[j] == c);
                }
            }
        }
    }
}

/// Joining puts the separator between the first piece and the rest.
pub proof fn lemma_join_front(a: Seq<char>, q: Seq<Seq<char>>, sep: Seq<char>)
    requires
        q.len() > 0,
    ensures
        text::join(seq![a] + q, sep) == a + sep + text::join(q, sep),
    decreases q.len(),
{
    let p = seq![a] + q;
    assert(p.drop_last() =~= seq![a] + q.drop_last());
    assert(p.last() == q.last());
    if q.len() == 1 {
        assert(p.drop_last() =~= seq![a]);
        assert(text::join(p.drop_last(), sep) == a);
        assert(text::join(q, sep) == q[0]);
        assert(text::join(p, sep) == text::join(p.drop_last(), sep) + sep + p.last());
    } else {
        assert(text::join(p, sep) == text::join(p.drop_last(), sep) + sep + p.last());
        lemma_join_front(a, q.drop_last(), sep);
        assert(a + sep + text::join(q.drop_last(), sep) + sep + q.last() =~= a + sep + (text::join(
            q.drop_last(),
            sep,
        ) + sep + q.last()));
    }
}

/// Whether two texts agree up to a place where the first is smaller, or ends.
pub open spec fn smaller_at(a: Seq<char>, b: Seq<char>, k: int) -> bool {
    &&& 0 <= k <= a.len()
    &&& k < b.len()
    &&& forall|i: int| 0 <= i < k ==> #[trigger] a[i] == b[i]
    &&& k == a.len() || a[k] < b[k]
}

/// Text is ordered as in a dictionary: at the first difference, the smaller
/// character comes first, and a text comes before what it begins.
pub proof fn law_text_order(a: Seq<char>, b: Seq<char>)
    ensures
        text::precedes(a, b) <==> exists|k: int| smaller_at(a, b, k),
    decreases a.len(),
{
    if b.len() == 0 {
    } else if a.len() == 0 {
        assert(smaller_at(a, b, 0));
    } else if a[0] != b[0] {
        if a[0] < b[0] {
            assert(smaller_at(a, b, 0));
        }
    } else {
        let x = a.skip(1);
        let y = b.skip(1);
        law_text_order(x, y);
        if exists|k: int| smaller_at(x, y, k) {
            let k = choose|k: int| smaller_at(x, y, k);
            assert forall|i: int| 0 <= i < k + 1 implies #[trigger] a[i] == b[i] by {
                if i > 0 {
                    assert(x[i - 1] == y[i - 1]);
                }
            }
            assert(smaller_at(a, b, k + 1));
        }
        if exists|k: int| smaller_at(a, b, k) {
            let k = choose|k: int| smaller_at(a, b, k);
            assert(k > 0);
            assert forall|i: int| 0 <= i < k - 1 implies #[trigger] x[i] == y[i] by {
                assert(a[i + 1] == b[i + 1]);
            }
            assert(smaller_at(x, y, k - 1));
        }
    }
}

/// A text begins with what it was begun with, and holds what was put into it.
pub proof fn law_prefix(a: Seq<char>, p: Seq<char>, b: Seq<char>)
    ensures
        text::has_prefix(p + b, p),
        text::contains_text(a + p + b, p),
        text::has_prefix(a, p) ==> exists|r: Seq<char>| a == #[trigger] (p + r),
{
    assert((p + b).take(p.len() as int) =~= p);
    let s = a + p + b;
    assert(s.skip(a.len() as int) =~= p + b);
    assert(text::has_prefix(s.skip(a.len() as int), p));
    if text::has_prefix(a, p) {
        assert(a =~= p + a.skip(p.len() as int));
    }
}

/// A text is found in another exactly where the other can be cut into what
/// stands before it, the text, and what stands behind it.
pub proof fn law_found_in(s: Seq<char>, p: Seq<char>)
    ensures
        text::contains_text(s, p) <==> exists|a: Seq<char>, b: Seq<char>| s == #[trigger] (a + p
            + b),
{
    if text::contains_text(s, p) {
        let k = choose|k: int| 0 <= k <= s.len() && text::has_prefix(#[trigger] s.skip(k), p);
        let a = s.take(k);
        let b = s.skip(k + p.len());
        assert(s =~= a + p + b) by {
            let t = s.skip(k);
            assert forall|i: int| 0 <= i < p.len() implies s[k + i] == p[i] by {
                assert(t.take(p.len() as int)[i] == t[i]);
            }
        }
    }
    if exists|a: Seq<char>, b: Seq<char>| s == #[trigger] (a + p + b) {
        let (a, b) = choose|a: Seq<char>, b: Seq<char>| s == #[trigger] (a + p + b);
        let t = s.skip(a.len() as int);
        assert(t.take(p.len() as int) =~= p);
    }
}

/// Texts are joined one behind the other with the separator between them.
pub proof fn law_joined_texts(parts: Seq<Seq<char>>, x: Seq<char>, sep: Seq<char>)
    ensures
        text::join(Seq::<Seq<char>>::empty(), sep).len() == 0,
        text::join(seq![x], sep) == x,
        parts.len() > 0 ==> text::join(parts.push(x), sep) == text::join(parts, sep) + sep + x,
{
    assert(parts.push(x).drop_last() =~= parts);
}

/// A negative number is written with a minus sign; the sign counts for the
/// width.
pub proof fn law_signed(n: int, width: int)
    ensures
        n >= 0 ==> text::signed_decimal(n, width) == text::pad_left(
            text::decimal(n as nat),
            width,
            '0',
        ),
        n < 0 ==> text::signed_decimal(n, width) == seq!['-'] + text::pad_left(
            text::decimal((-n) as nat),
            width - 1,
            '0',
        ),
{
}

/// What stands between characters of a class, and neither begins nor ends with
/// one, is what trimming leaves.
pub proof fn law_trimmed_middle(lead: Seq<char>, m: Seq<char>, tail: Seq<char>, k: Class)
    requires
        forall|i: int| 0 <= i < lead.len() ==> text::in_class(k, #[trigger] lead[i]),
        forall|i: int| 0 <= i < tail.len() ==> text::in_class(k, #[trigger] tail[i]),
        m.len() > 0,
        !text::in_class(k, m[0]),
        !text::in_class(k, m.last()),
    ensures
        text::trimmed(lead + m + tail, k) == m,
{
    let s = lead + m + tail;
    let t = text::trimmed(s, k);
    law_trimmed(s, k);
    let (a, b) = choose|a: int, b: int| #[trigger]
        cut_out(s, k, a, b) && t == s.subrange(a, b);
    let x = lead.len() as int;
    let y = x + m.len();
    assert(s[x] == m[0]);
    assert(s[y - 1] == m.last());
    assert(a <= x && y <= b);
    assert(t[0] == s[a]);
    assert(t.last() == s[b - 1]);
    if a < x {
        assert(s[a] == lead[a]);
    }
    if b > y {
        assert(s[b - 1] == tail[b - 1 - y]);
    }
    assert(s.subrange(x, y) =~= m);
}

} // verus!
