//! Which names belong to a numbered series, and where its numbers go on.

use vstd::prelude::*;

use crate::series;
use crate::series::Piece;
use crate::template;
use crate::template_laws;
use crate::text;
use crate::text::Class;
use crate::text_laws;

verus! {

/// A text that is spelled by letters and what follows them begins with the
/// letters.
proof fn lemma_letters_first(s: Seq<char>, rest: Seq<Piece>, n: nat, x: Seq<char>)
    ensures
        series::spells(series::letters(s) + rest, n, x) <==> {
            &&& s.len() <= x.len()
            &&& x.take(s.len() as int) == template::cleaned(s, false)
            &&& series::spells(rest, n, x.skip(s.len() as int))
        },
    decreases s.len(),
{
    let ps = series::letters(s) + rest;
    if s.len() == 0 {
        assert(ps =~= rest);
        assert(x.skip(0) =~= x);
        assert(x.take(0) =~= template::cleaned(s, false));
    } else {
        let t = s.skip(1);
        let c = template::clean_char(s[0], false);
        assert(ps[0] == Piece::Letter(c));
        assert(ps.skip(1) =~= series::letters(t) + rest);
        if x.len() > 0 {
            let y = x.skip(1);
            lemma_letters_first(t, rest, n, y);
            if s.len() <= x.len() {
                assert(y.skip(t.len() as int) =~= x.skip(s.len() as int));
            }
            assert(x.take(1)[0] == x[0]);
            if series::spells(ps, n, x) {
                let k = choose|k: int|
                    0 <= k <= x.len() && #[trigger] series::takes(ps[0], n, x.take(k))
                        && series::spells(ps.skip(1), n, x.skip(k));
                assert(x.take(k).len() == k);
                assert(k == 1);
                assert(x.take(s.len() as int) =~= template::cleaned(s, false)) by {
                    assert forall|i: int| 0 <= i < s.len() implies x.take(s.len() as int)[i]
                        == template::cleaned(s, false)[i] by {
                        if i > 0 {
                            assert(y.take(t.len() as int)[i - 1] == template::cleaned(
                                t,
                                false,
                            )[i - 1]);
                        }
                    }
                }
            }
            if s.len() <= x.len() && x.take(s.len() as int) == template::cleaned(s, false) {
                assert(x.take(s.len() as int)[0] == template::cleaned(s, false)[0]);
                assert(y.take(t.len() as int) =~= template::cleaned(t, false)) by {
                    assert forall|i: int| 0 <= i < t.len() implies y.take(t.len() as int)[i]
                        == template::cleaned(t, false)[i] by {
                        assert(x.take(s.len() as int)[i + 1] == template::cleaned(s, false)[i + 1]);
                    }
                }
                assert(series::takes(ps[0], n, x.take(1)));
            }
        } else {
            if series::spells(ps, n, x) {
                let k = choose|k: int|
                    0 <= k <= x.len() && #[trigger] series::takes(ps[0], n, x.take(k))
                        && series::spells(ps.skip(1), n, x.skip(k));
                assert(x.take(k).len() == 0);
            }
        }
    }
}

/// The number of a series as it is written.
pub open spec fn number_text(n: nat, w: Seq<char>) -> Seq<char> {
    text::pad_left(text::decimal(n), text_laws::read_decimal(w), '0')
}

/// Whether a text holds nothing that is forbidden on a card.
pub open spec fn clean(s: Seq<char>) -> bool {
    forall|i: int| 0 <= i < s.len() ==> #[trigger] template::clean_char(s[i], false) == s[i]
}

proof fn lemma_pieces(pre: Seq<char>, w: Seq<char>, post: Seq<char>)
    requires
        !pre.contains('{') && !post.contains('{'),
        w.len() > 0,
        forall|i: int| 0 <= i < w.len() ==> '0' <= #[trigger] w[i] && w[i] <= '9',
        text_laws::read_decimal(w) <= usize::MAX,
    ensures
        series::pieces(pre + seq!['{'] + "counter:"@ + w + seq!['}'] + post) == series::letters(pre)
            + (seq![Piece::Number(text_laws::read_decimal(w) as usize)] + series::letters(post)),
{
    reveal_strlit("counter:");
    reveal_strlit("counter");
    let tok = "counter:"@ + w;
    let tpl = pre + seq!['{'] + "counter:"@ + w + seq!['}'] + post;
    let after = tok + seq!['}'] + post;
    assert(tpl =~= pre + seq!['{'] + after);
    template_laws::lemma_find_at(pre, '{', after);
    assert(!tok.contains('}')) by {
        assert forall|i: int| 0 <= i < tok.len() implies tok[i] != '}' by {
            if i >= 8 {
                assert(tok[i] == w[i - 8]);
            }
        }
    }
    template_laws::lemma_find_at(tok, '}', post);
    assert(tpl.skip(pre.len() as int + 1) =~= after);
    assert(tpl.take(pre.len() as int) =~= pre);
    assert(after.take(tok.len() as int) =~= tok);
    assert(after.skip(tok.len() as int + 1) =~= post);
    text::lemma_find(post, '{');
    assert(series::pieces(post) == series::letters(post));
    assert(tok =~= "counter"@ + seq![':'] + w);
    assert(!"counter"@.contains(':'));
    template_laws::lemma_find_at("counter"@, ':', w);
    assert(tok.take(7) =~= "counter"@);
    assert(tok.skip(8) =~= w);
    text_laws::law_digits_value(w);
    assert(text::all_digits(w)) by {
        assert forall|i: int| 0 <= i < w.len() implies text::is_digit(#[trigger] w[i]) by {}
    }
    assert(!text::is_white(w[0]) && !text::is_white(w.last())) by {
        assert('0' <= w[w.len() - 1] && w[w.len() - 1] <= '9');
    }
    text_laws::law_trimmed_fixed(w, Class::White);
    assert(w[0] != '+');
    assert(template::width_digits(w) == w);
    assert(template::width_of(w) == text_laws::read_decimal(w));
    template_laws::lemma_names();
    let num = seq![Piece::Number(text_laws::read_decimal(w) as usize)];
    assert(series::token_pieces(tok) == num);
    assert(series::letters(pre) + num + series::letters(post) =~= series::letters(pre) + (num
        + series::letters(post)));
}

proof fn lemma_number_first(w: usize, post: Seq<char>, n: nat, x: Seq<char>)
    requires
        clean(post),
    ensures
        series::spells(seq![Piece::Number(w)] + series::letters(post), n, x) <==> x
            == text::pad_left(text::decimal(n), w as int, '0') + post,
{
    let num = text::pad_left(text::decimal(n), w as int, '0');
    let ps = seq![Piece::Number(w)] + series::letters(post);
    let none = Seq::<Piece>::empty();
    assert(ps.skip(1) =~= series::letters(post));
    assert(series::letters(post) + none =~= series::letters(post));
    assert(template::cleaned(post, false) =~= post);
    if series::spells(ps, n, x) {
        let k = choose|k: int|
            0 <= k <= x.len() && #[trigger] series::takes(ps[0], n, x.take(k)) && series::spells(
                ps.skip(1),
                n,
                x.skip(k),
            );
        let y = x.skip(k);
        lemma_letters_first(post, none, n, y);
        assert(y.take(post.len() as int) =~= y);
        assert(x =~= x.take(k) + y);
    }
    if x == num + post {
        let k = num.len() as int;
        assert(x.take(k) =~= num);
        assert(x.skip(k) =~= post);
        lemma_letters_first(post, none, n, post);
        assert(post.take(post.len() as int) =~= post);
        assert(post.skip(post.len() as int) =~= Seq::<char>::empty());
        assert(series::takes(ps[0], n, x.take(k)));
    }
}

/// Which names a template with one number makes: exactly those with the number,
/// filled up to its width, between the same two texts. No other name counts as
/// one of the series.
pub proof fn law_series_names(
    pre: Seq<char>,
    w: Seq<char>,
    post: Seq<char>,
    n: nat,
    stem: Seq<char>,
)
    requires
        !pre.contains('{') && !post.contains('{'),
        clean(pre) && clean(post),
        pre.len() > 0 ==> !text::is_white(pre[0]) && pre[0] != '.',
        post.len() > 0 ==> !text::is_white(post.last()) && post.last() != '.',
        w.len() > 0,
        forall|i: int| 0 <= i < w.len() ==> '0' <= #[trigger] w[i] && w[i] <= '9',
        text_laws::read_decimal(w) <= usize::MAX,
    ensures
        series::made(
            series::pieces(pre + seq!['{'] + "counter:"@ + w + seq!['}'] + post),
            n,
            stem,
        ) <==> stem == pre + number_text(n, w) + post,
{
    lemma_pieces(pre, w, post);
    let width = text_laws::read_decimal(w) as usize;
    let tail = seq![Piece::Number(width)] + series::letters(post);
    let ps = series::letters(pre) + tail;
    let num = number_text(n, w);
    let full = pre + num + post;
    text_laws::law_digits_value(w);
    text::lemma_digits_value_bound(w);
    lemma_number_ends(n, width as int);
    assert(series::counts(ps)) by {
        assert(ps[pre.len() as int] == Piece::Number(width));
    }
    assert forall|x: Seq<char>| #[trigger] series::spells(ps, n, x) <==> x == full by {
        lemma_spelled(pre, width, post, n, x);
    }
    assert(!series::loose(full[0])) by {
        if pre.len() > 0 {
            assert(full[0] == pre[0]);
        } else {
            assert(full[0] == num[0]);
        }
    }
    assert(!series::loose(full.last())) by {
        if post.len() > 0 {
            assert(full.last() == post.last());
        } else {
            assert(full.last() == num.last());
        }
    }
    lemma_made_exactly(ps, n, stem, full);
}

proof fn lemma_spelled(pre: Seq<char>, width: usize, post: Seq<char>, n: nat, x: Seq<char>)
    requires
        clean(pre) && clean(post),
    ensures
        series::spells(
            series::letters(pre) + (seq![Piece::Number(width)] + series::letters(post)),
            n,
            x,
        ) <==> x == pre + text::pad_left(text::decimal(n), width as int, '0') + post,
{
    let tail = seq![Piece::Number(width)] + series::letters(post);
    let num = text::pad_left(text::decimal(n), width as int, '0');
    let k = pre.len() as int;
    lemma_letters_first(pre, tail, n, x);
    assert(template::cleaned(pre, false) =~= pre);
    if k <= x.len() {
        lemma_number_first(width, post, n, x.skip(k));
        assert(x =~= x.take(k) + x.skip(k));
        assert(pre + (num + post) =~= pre + num + post);
        if x == pre + num + post {
            assert(x.take(k) =~= pre);
            assert(x.skip(k) =~= num + post);
        }
    }
}

/// Where one text alone is spelled, and it begins and ends with something firm,
/// that text alone is made.
proof fn lemma_made_exactly(ps: Seq<Piece>, n: nat, stem: Seq<char>, full: Seq<char>)
    requires
        series::counts(ps),
        forall|x: Seq<char>| #[trigger] series::spells(ps, n, x) <==> x == full,
        full.len() > 0,
        !series::loose(full[0]),
        !series::loose(full.last()),
    ensures
        series::made(ps, n, stem) <==> stem == full,
{
    let none = Seq::<char>::empty();
    if stem == full {
        assert(none + stem + none =~= full);
        assert(series::fringed(ps, n, stem, none, none));
    }
    if series::made(ps, n, stem) {
        let (lead, trail) = choose|lead: Seq<char>, trail: Seq<char>| #[trigger]
            series::fringed(ps, n, stem, lead, trail);
        let x = lead + stem + trail;
        assert(x == full);
        if lead.len() > 0 {
            assert(x[0] == lead[0]);
            assert(series::loose(lead[0]));
        }
        if trail.len() > 0 {
            assert(x.last() == trail[trail.len() - 1]);
            assert(series::loose(trail[trail.len() - 1]));
        }
        assert(x =~= stem);
    }
}

proof fn lemma_number_ends(n: nat, width: int)
    ensures
        ({
            let num = text::pad_left(text::decimal(n), width, '0');
            &&& num.len() > 0
            &&& !series::loose(num[0])
            &&& !series::loose(num.last())
        }),
{
    let d = text::decimal(n);
    text::lemma_decimal_digits(n);
    let num = text::pad_left(d, width, '0');
    assert(num.last() == d[d.len() - 1]);
    assert(text::is_digit(d[d.len() - 1]));
    assert(text::is_digit(d[0]));
    assert(num[0] == '0' || num[0] == d[0]);
}

/// Numbers go on right behind the highest of the names that are there: there is
/// a name with the number before the first free one, unless none is of the
/// series.
pub proof fn law_first_free_follows(tpl: Seq<char>, stems: Seq<Seq<char>>)
    ensures
        series::first_free(tpl, stems) > 0 ==> exists|k: int|
            0 <= k < stems.len() && series::made(
                series::pieces(tpl),
                (series::first_free(tpl, stems) - 1) as nat,
                #[trigger] stems[k],
            ),
        series::first_free(tpl, Seq::<Seq<char>>::empty()) == 0,
    decreases stems.len(),
{
    if stems.len() > 0 {
        let t = stems.drop_last();
        law_first_free_follows(tpl, t);
        lemma_past_made(series::pieces(tpl), stems.last(), series::LIMIT as nat);
        let f = series::first_free(tpl, stems);
        if f > 0 {
            if f == series::first_free(tpl, t) {
                let k = choose|k: int|
                    0 <= k < t.len() && series::made(
                        series::pieces(tpl),
                        (f - 1) as nat,
                        #[trigger] t[k],
                    );
                assert(stems[k] == t[k]);
            } else {
                assert(stems[stems.len() - 1] == stems.last());
            }
        }
    }
}

proof fn lemma_past_made(ps: Seq<Piece>, s: Seq<char>, m: nat)
    ensures
        series::past(ps, s, m) > 0 ==> series::made(ps, (series::past(ps, s, m) - 1) as nat, s),
    decreases m,
{
    if m > 0 {
        lemma_past_made(ps, s, (m - 1) as nat);
    }
}

} // verus!
