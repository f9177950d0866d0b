//! What a size in words says.

use vstd::prelude::*;

use crate::text;
use crate::util;

verus! {

/// Rounding to a whole number goes to the nearest, and to the even one of two
/// that are equally near.
pub proof fn law_rounded(n: int, d: int)
    requires
        n >= 0,
        d > 0,
    ensures
        ({
            let r = util::half_even(n, d);
            &&& -d <= 2 * (r * d - n) <= d
            &&& 2 * (r * d - n) == d || 2 * (r * d - n) == -d ==> r % 2 == 0
        }),
{
    let q = n / d;
    let m = n % d;
    vstd::arithmetic::div_mod::lemma_fundamental_div_mod(n, d);
    vstd::arithmetic::div_mod::lemma_mod_bound(n, d);
    assert(q * d == d * q) by (nonlinear_arith);
    assert((q + 1) * d == q * d + d) by (nonlinear_arith);
}

/// Sizes below nine quadrillion are exact; a larger one is rounded by less than
/// one part in nine quadrillion.
pub proof fn law_as_double(n: int)
    requires
        n >= 0,
    ensures
        n < 0x20_0000_0000_0000 ==> util::as_double(n) == n,
        -n <= (util::as_double(n) - n) * 0x20_0000_0000_0000 <= n,
{
    let q = util::quantum(n);
    lemma_quantum(n);
    law_rounded(n, q);
    let r = util::half_even(n, q);
    if n < 0x20_0000_0000_0000 {
        assert(q == 1);
        assert(n / 1 == n && n % 1 == 0);
        assert(r == n);
        assert(r * 1 == n);
    } else {
        let e = r * q - n;
        assert(-q <= 2 * e <= q);
        assert(q * 0x10_0000_0000_0000 <= n);
    }
}

proof fn lemma_quantum(n: int)
    requires
        n >= 0,
    ensures
        util::quantum(n) >= 1,
        n >= 0x20_0000_0000_0000 ==> util::quantum(n) * 0x10_0000_0000_0000 <= n,
    decreases n,
{
    if n >= 0x20_0000_0000_0000 {
        lemma_quantum(n / 2);
        if n / 2 < 0x20_0000_0000_0000 {
            assert(util::quantum(n / 2) == 1);
        }
    }
}

/// Whether a text is a number of tenths, with one digit behind the point, and a
/// unit.
pub open spec fn tenths_of(t: Seq<char>, tenths: nat, unit: Seq<char>) -> bool {
    t == text::decimal(tenths / 10) + seq!['.'] + text::decimal(tenths % 10) + unit
}

/// Whether a text says a size in a unit, to the nearest tenth.
pub open spec fn says_size(t: Seq<char>, bytes: int, size: int, unit: Seq<char>) -> bool {
    exists|tenths: nat| #[trigger]
        tenths_of(t, tenths, unit) && -size <= 2 * (tenths * size - 10 * bytes) <= size
}

/// A size is told in bytes below one kilobyte, else in the largest of
/// kilobytes, megabytes, gigabytes, terabytes and petabytes that it reaches, to
/// the nearest tenth.
pub proof fn law_size_text(bytes: int)
    requires
        0 <= bytes < 0x20_0000_0000_0000,
    ensures
        ({
            let t = util::size_text(bytes);
            if bytes < 1024 {
                t == text::decimal(bytes as nat) + " B"@
            } else if bytes < 1024int * 1024 {
                says_size(t, bytes, 1024, " KB"@)
            } else if bytes < 1024int * 1024 * 1024 {
                says_size(t, bytes, 1024int * 1024, " MB"@)
            } else if bytes < 1024int * 1024 * 1024 * 1024 {
                says_size(t, bytes, 1024int * 1024 * 1024, " GB"@)
            } else if bytes < 1024int * 1024 * 1024 * 1024 * 1024 {
                says_size(t, bytes, 1024int * 1024 * 1024 * 1024, " TB"@)
            } else {
                says_size(t, bytes, 1024int * 1024 * 1024 * 1024 * 1024, " PB"@)
            }
        }),
{
    if bytes >= 1024 {
        reveal_strlit(".");
        assert("."@ =~= seq!['.']);
        law_as_double(bytes);
        let unit = util::unit_of(bytes);
        let size = util::unit_size(unit);
        let tenths = util::half_even(10 * bytes, size);
        law_rounded(10 * bytes, size);
        assert(tenths >= 0) by {
            vstd::arithmetic::div_mod::lemma_div_pos_is_pos(10 * bytes, size);
        }
        assert(tenths_of(util::size_text(bytes), tenths as nat, util::unit_name(unit)));
    }
}

} // verus!
