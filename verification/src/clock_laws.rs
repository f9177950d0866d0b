//! What the calendar and the written forms of times keep.

use vstd::prelude::*;

use crate::clock;
use crate::clock::{Day, Moment};
use crate::text;
use crate::text_laws;

verus! {

/// The number of a day.
pub open spec fn number_of(d: Day) -> int {
    clock::day_number(d.year as int, d.month as int, d.day as int)
}

/// The days of the years before a year.
spec fn days_before_year(y: int) -> int {
    365 * (y - 1) + (y - 1) / 4 - (y - 1) / 100 + (y - 1) / 400
}

spec fn year_days(y: int) -> int {
    if clock::is_leap(y) {
        366
    } else {
        365
    }
}

proof fn lemma_year_step(y: int)
    ensures
        days_before_year(y + 1) == days_before_year(y) + year_days(y),
{
    let z = y - 1;
    assert(y / 4 == z / 4 + if y % 4 == 0 { 1int } else { 0 });
    assert(y / 100 == z / 100 + if y % 100 == 0 { 1int } else { 0 });
    assert(y / 400 == z / 400 + if y % 400 == 0 { 1int } else { 0 });
    assert(y % 400 == 0 ==> y % 100 == 0);
    assert(y % 100 == 0 ==> y % 4 == 0);
}

proof fn lemma_years_grow(a: int, b: int)
    requires
        a < b,
    ensures
        days_before_year(a) + year_days(a) <= days_before_year(b),
    decreases b - a,
{
    lemma_year_step(b - 1);
    if a + 1 < b {
        lemma_years_grow(a, b - 1);
    }
}

proof fn lemma_months(y: int, m: int)
    requires
        1 <= m <= 12,
    ensures
        0 <= clock::days_before_month(y, m),
        clock::days_before_month(y, m) + clock::month_days(y, m) <= year_days(y),
        m < 12 ==> clock::days_before_month(y, m + 1) == clock::days_before_month(y, m)
            + clock::month_days(y, m),
        m == 12 ==> clock::days_before_month(y, m) + clock::month_days(y, m) == year_days(y),
{
    reveal_with_fuel(clock::days_before_month, 13);
}

proof fn lemma_months_grow(y: int, a: int, b: int)
    requires
        1 <= a < b <= 12,
    ensures
        clock::days_before_month(y, a) + clock::month_days(y, a) <= clock::days_before_month(y, b),
    decreases b - a,
{
    lemma_months(y, b - 1);
    if a + 1 < b {
        lemma_months_grow(y, a, b - 1);
    }
}

proof fn lemma_before_numbers(a: Day, b: Day)
    requires
        a.valid(),
        b.valid(),
        a.before(b),
    ensures
        number_of(a) < number_of(b),
{
    let y = a.year as int;
    lemma_months(y, a.month as int);
    lemma_months(b.year as int, b.month as int);
    if a.year < b.year {
        lemma_years_grow(y, b.year as int);
    } else if a.month < b.month {
        lemma_months_grow(y, a.month as int, b.month as int);
    }
}

/// The calendar: the day after a day has the next number, leap years and the
/// lengths of months taken into account, and the Unix epoch is the second 0.
pub proof fn law_day_follows_day(d: Day)
    requires
        d.valid(),
    ensures
        clock::next_day(d) matches Some(n) ==> number_of(n) == number_of(d) + 1,
        clock::previous_day(d) matches Some(p) ==> number_of(p) == number_of(d) - 1,
        clock::epoch().unix() == 0,
        clock::epoch().date() == (Day { year: 1970, month: 1, day: 1 }),
{
    lemma_months(d.year as int, d.month as int);
    lemma_year_step(d.year as int);
    lemma_year_step(d.year - 1);
    lemma_months(d.year - 1, 12);
    if d.month > 1 {
        lemma_months(d.year as int, d.month - 1);
    }
    assert(clock::days_before_month(d.year + 1, 1) == 0);
    assert(clock::days_before_month(1970, 1) == 0);
}

/// Days are ordered as their numbers are, and no two have one number.
pub proof fn law_days_in_order(a: Day, b: Day)
    requires
        a.valid(),
        b.valid(),
    ensures
        a.before(b) <==> number_of(a) < number_of(b),
        a == b <==> number_of(a) == number_of(b),
{
    if a.before(b) {
        lemma_before_numbers(a, b);
    }
    if b.before(a) {
        lemma_before_numbers(b, a);
    }
}

/// Moments are ordered as the seconds since the epoch are, and within a second
/// by its fraction: earlier means earlier.
pub proof fn law_moments_in_order(a: Moment, b: Moment)
    requires
        a.valid(),
        b.valid(),
    ensures
        a.before(b) <==> a.unix() < b.unix() || (a.unix() == b.unix() && a.nano < b.nano),
        a == b <==> a.unix() == b.unix() && a.nano == b.nano,
{
    law_days_in_order(a.date(), b.date());
    let x = number_of(a.date());
    let y = number_of(b.date());
    let s = a.hour * 3600 + a.minute * 60 + a.second;
    let t = b.hour * 3600 + b.minute * 60 + b.second;
    assert(a.unix() == (x - 719163) * 86400 + s);
    assert(b.unix() == (y - 719163) * 86400 + t);
    assert(0 <= s < 86400 && 0 <= t < 86400);
}

/// Whether a neighbouring day is meant: the number differs by one at most.
pub proof fn law_neighbours(a: Day, b: Day)
    requires
        a.valid(),
        b.valid(),
    ensures
        a == b || clock::previous_day(a) == Some(b) || clock::next_day(a) == Some(b) <==> -1
            <= number_of(a) - number_of(b) <= 1,
{
    law_day_follows_day(a);
    law_days_in_order(a, b);
    if number_of(b) == number_of(a) + 1 {
        if clock::next_day(a) is Some {
            clock::law_day_steps(a);
            law_days_in_order(clock::next_day(a)->0, b);
        } else {
            assert(a.before(b));
        }
    }
    if number_of(b) == number_of(a) - 1 {
        if clock::previous_day(a) is Some {
            clock::law_day_steps(a);
            law_days_in_order(clock::previous_day(a)->0, b);
        } else {
            law_days_in_order(b, a);
            assert(b.before(a));
        }
    }
}

/// A day of the years 0 to 9999 is written as four digits, a hyphen, two
/// digits, a hyphen and two digits, which are its year, its month and its day.
pub proof fn law_day_text(d: Day)
    requires
        d.valid(),
        0 <= d.year <= 9999,
    ensures
        ({
            let t = clock::day_text(d);
            &&& t.len() == 10
            &&& t[0] as int == 48 + d.year as int / 1000
            &&& t[1] as int == 48 + d.year as int / 100 % 10
            &&& t[2] as int == 48 + d.year as int / 10 % 10
            &&& t[3] as int == 48 + d.year as int % 10
            &&& t[4] == '-'
            &&& text_laws::two_digits_of(t.subrange(5, 7), d.month as int)
            &&& t[7] == '-'
            &&& text_laws::two_digits_of(t.subrange(8, 10), d.day as int)
        }),
{
    text_laws::law_four_digits(d.year as int);
    text_laws::law_two_digits(d.month as int);
    text_laws::law_two_digits(d.day as int);
    let t = clock::day_text(d);
    assert(t.subrange(5, 7) =~= clock::two(d.month as int));
    assert(t.subrange(8, 10) =~= clock::two(d.day as int));
}

/// A moment is written as its day, a blank, and hour, minute and second in two
/// digits each, with colons between them. A leap second counts on.
pub proof fn law_moment_text(m: Moment)
    requires
        m.valid(),
    ensures
        ({
            let d = clock::day_text(m.date());
            let t = clock::moment_text(m);
            let n = d.len() as int;
            &&& t.len() == n + 9
            &&& t.take(n) == d
            &&& t[n] == ' '
            &&& text_laws::two_digits_of(t.subrange(n + 1, n + 3), m.hour as int)
            &&& t[n + 3] == ':'
            &&& text_laws::two_digits_of(t.subrange(n + 4, n + 6), m.minute as int)
            &&& t[n + 6] == ':'
            &&& text_laws::two_digits_of(
                t.subrange(n + 7, n + 9),
                m.second + if m.nano >= 1000000000 { 1int } else { 0 },
            )
        }),
{
    let d = clock::day_text(m.date());
    let t = clock::moment_text(m);
    let n = d.len() as int;
    let s = m.second + if m.nano >= 1000000000 { 1int } else { 0 };
    text_laws::law_two_digits(m.hour as int);
    text_laws::law_two_digits(m.minute as int);
    text_laws::law_two_digits(s);
    assert(t.take(n) =~= d);
    assert(t.subrange(n + 1, n + 3) =~= clock::two(m.hour as int));
    assert(t.subrange(n + 4, n + 6) =~= clock::two(m.minute as int));
    assert(t.subrange(n + 7, n + 9) =~= clock::two(s));
}

/// Days of different dates are written differently, whatever the year.
pub proof fn law_day_text_tells_apart(a: Day, b: Day)
    requires
        a.valid(),
        b.valid(),
        clock::day_text(a) == clock::day_text(b),
    ensures
        a == b,
{
    let s = clock::day_text(a);
    let t = clock::day_text(b);
    text_laws::law_two_digits(a.month as int);
    text_laws::law_two_digits(a.day as int);
    text_laws::law_two_digits(b.month as int);
    text_laws::law_two_digits(b.day as int);
    let n = s.len() as int;
    let y = clock::year_text(a.year as int);
    let z = clock::year_text(b.year as int);
    assert(y =~= s.take(n - 6));
    assert(z =~= t.take(n - 6));
    assert(s[n - 5] == clock::two(a.month as int)[0] && s[n - 4] == clock::two(a.month as int)[1]);
    assert(t[n - 5] == clock::two(b.month as int)[0] && t[n - 4] == clock::two(b.month as int)[1]);
    assert(s[n - 2] == clock::two(a.day as int)[0] && s[n - 1] == clock::two(a.day as int)[1]);
    assert(t[n - 2] == clock::two(b.day as int)[0] && t[n - 1] == clock::two(b.day as int)[1]);
    lemma_year_text(a.year as int);
    lemma_year_text(b.year as int);
    assert(a.year == b.year) by {
        assert(y[0] == z[0]);
    }
}

/// A year can be read back from its text.
proof fn lemma_year_text(y: int)
    ensures
        ({
            let t = clock::year_text(y);
            &&& t.len() > 0
            &&& t[0] == '-' <==> y < 0
            &&& t[0] == '+' <==> y > 9999
            &&& 0 <= y <= 9999 ==> text_laws::read_decimal(t) == y
            &&& y < 0 ==> text_laws::read_decimal(t.skip(1)) == -y
            &&& y > 9999 ==> text_laws::read_decimal(t.skip(1)) == y
        }),
{
    let t = clock::year_text(y);
    let n: nat = if y < 0 { (-y) as nat } else { y as nat };
    let p = text::pad_left(text::decimal(n), 4, '0');
    text_laws::law_decimal(n);
    text_laws::law_zeros_count_for_nothing(text::decimal(n), 4);
    text_laws::law_pad_left(text::decimal(n), 4, '0');
    assert(p[0] != '-' && p[0] != '+') by {
        if p.len() == text::decimal(n).len() {
            assert(p.skip(0) =~= p);
            assert(p[0] == text::decimal(n)[0]);
        }
    }
    if y < 0 || y > 9999 {
        assert(t.skip(1) =~= p);
    }
}

} // verus!
