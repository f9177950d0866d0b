//! What templates render to, said token by token.

use vstd::prelude::*;

use crate::clock::Moment;
use crate::template;
use crate::template::CtxModel;
use crate::text;
use crate::text::Class;
use crate::text_laws;

verus! {

// ---------------------------------------------------------------------------
// The shape of a template
// ---------------------------------------------------------------------------

pub proof fn lemma_find_at(pre: Seq<char>, c: char, post: Seq<char>)
    requires
        !pre.contains(c),
    ensures
        text::find(pre + seq![c] + post, c) == pre.len(),
{
    let s = pre + seq![c] + post;
    text::lemma_find(s, c);
    assert(s[pre.len() as int] == c);
    assert(s.contains(c));
    let k = text::find(s, c);
    if k < pre.len() {
        assert(s[k] == pre[k]);
        assert(pre.contains(pre[k]));
    }
}

/// A template is rendered piece by piece: what stands before a token stays as
/// it is, the token is replaced, and what comes behind it is rendered on its
/// own.
pub proof fn law_render_piece(
    pre: Seq<char>,
    tok: Seq<char>,
    post: Seq<char>,
    ctx: CtxModel,
)
    requires
        !pre.contains('{'),
        !tok.contains('}'),
    ensures
        template::rendered(pre + seq!['{'] + tok + seq!['}'] + post, ctx) == pre
            + template::token_text(tok, ctx) + template::rendered(post, ctx),
{
    let tpl = pre + seq!['{'] + tok + seq!['}'] + post;
    let after = tok + seq!['}'] + post;
    assert(tpl =~= pre + seq!['{'] + after);
    lemma_find_at(pre, '{', after);
    assert(tpl.skip(pre.len() as int + 1) =~= after);
    assert(tpl.take(pre.len() as int) =~= pre);
    lemma_find_at(tok, '}', post);
    assert(after.take(tok.len() as int) =~= tok);
    assert(after.skip(tok.len() as int + 1) =~= post);
}

proof fn lemma_plain_name(tok: Seq<char>)
    requires
        !tok.contains(':'),
    ensures
        template::token_name(tok) == tok,
        text::find(tok, ':') == tok.len(),
{
    text::lemma_find(tok, ':');
}

// ---------------------------------------------------------------------------
// Tokens
// ---------------------------------------------------------------------------

/// The date tokens hold the numbers of the capture time: month, day, hour,
/// minute and second in two digits, the last two digits of the year, and for
/// the years 0 to 9999 the year in four digits.
pub proof fn law_date_tokens(ctx: CtxModel, m: Moment)
    requires
        ctx.dt == Some(m),
        m.valid(),
    ensures
        text_laws::two_digits_of(template::token_text("MM"@, ctx), m.month as int),
        text_laws::two_digits_of(template::token_text("DD"@, ctx), m.day as int),
        text_laws::two_digits_of(template::token_text("HH"@, ctx), m.hour as int),
        text_laws::two_digits_of(template::token_text("mm"@, ctx), m.minute as int),
        text_laws::two_digits_of(template::token_text("ss"@, ctx), m.second as int),
        text_laws::two_digits_of(template::token_text("YY"@, ctx), m.year as int % 100),
        0 <= m.year <= 9999 ==> {
            let t = template::token_text("YYYY"@, ctx);
            &&& t.len() == 4
            &&& t[0] as int == 48 + m.year as int / 1000
            &&& t[1] as int == 48 + m.year as int / 100 % 10
            &&& t[2] as int == 48 + m.year as int / 10 % 10
            &&& t[3] as int == 48 + m.year as int % 10
        },
{
    lemma_names();
    lemma_plain_name("MM"@);
    lemma_plain_name("DD"@);
    lemma_plain_name("HH"@);
    lemma_plain_name("mm"@);
    lemma_plain_name("ss"@);
    lemma_plain_name("YY"@);
    lemma_plain_name("YYYY"@);
    text_laws::law_two_digits(m.month as int);
    text_laws::law_two_digits(m.day as int);
    text_laws::law_two_digits(m.hour as int);
    text_laws::law_two_digits(m.minute as int);
    text_laws::law_two_digits(m.second as int);
    text_laws::law_two_digits(m.year as int % 100);
    if 0 <= m.year <= 9999 {
        text_laws::law_four_digits(m.year as int);
    }
}

/// Without a capture time the date tokens hold nothing.
pub proof fn law_date_tokens_blank(ctx: CtxModel)
    requires
        ctx.dt is None,
    ensures
        template::token_text("YYYY"@, ctx).len() == 0,
        template::token_text("YY"@, ctx).len() == 0,
        template::token_text("MM"@, ctx).len() == 0,
        template::token_text("DD"@, ctx).len() == 0,
        template::token_text("HH"@, ctx).len() == 0,
        template::token_text("mm"@, ctx).len() == 0,
        template::token_text("ss"@, ctx).len() == 0,
{
    lemma_names();
    lemma_plain_name("MM"@);
    lemma_plain_name("DD"@);
    lemma_plain_name("HH"@);
    lemma_plain_name("mm"@);
    lemma_plain_name("ss"@);
    lemma_plain_name("YY"@);
    lemma_plain_name("YYYY"@);
}

/// The names of the tokens are all different and hold no colon.
pub proof fn lemma_names()
    ensures
        !"YYYY"@.contains(':'),
        !"YY"@.contains(':'),
        !"MM"@.contains(':'),
        !"DD"@.contains(':'),
        !"HH"@.contains(':'),
        !"mm"@.contains(':'),
        !"ss"@.contains(':'),
        !"original"@.contains(':'),
        !"ext"@.contains(':'),
        !"camera_make"@.contains(':'),
        !"camera_model"@.contains(':'),
        !"counter"@.contains(':'),
        "YY"@ != "YYYY"@,
        "MM"@ != "YYYY"@ && "MM"@ != "YY"@,
        "DD"@ != "YYYY"@ && "DD"@ != "YY"@ && "DD"@ != "MM"@,
        "HH"@ != "YYYY"@ && "HH"@ != "YY"@ && "HH"@ != "MM"@ && "HH"@ != "DD"@,
        "mm"@ != "YYYY"@ && "mm"@ != "YY"@ && "mm"@ != "MM"@ && "mm"@ != "DD"@ && "mm"@ != "HH"@,
        "ss"@ != "YYYY"@ && "ss"@ != "YY"@ && "ss"@ != "MM"@ && "ss"@ != "DD"@ && "ss"@ != "HH"@
            && "ss"@ != "mm"@,
        !template::is_date_token("original"@),
        !template::is_date_token("ext"@),
        !template::is_date_token("camera_make"@),
        !template::is_date_token("camera_model"@),
        !template::is_date_token("counter"@),
        "ext"@ != "original"@,
        "camera_make"@ != "original"@ && "camera_make"@ != "ext"@,
        "camera_model"@ != "original"@ && "camera_model"@ != "ext"@ && "camera_model"@
            != "camera_make"@,
        "counter"@ != "original"@ && "counter"@ != "ext"@ && "counter"@ != "camera_make"@
            && "counter"@ != "camera_model"@,
{
    reveal_strlit("YYYY");
    reveal_strlit("YY");
    reveal_strlit("MM");
    reveal_strlit("DD");
    reveal_strlit("HH");
    reveal_strlit("mm");
    reveal_strlit("ss");
    reveal_strlit("original");
    reveal_strlit("ext");
    reveal_strlit("camera_make");
    reveal_strlit("camera_model");
    reveal_strlit("counter");
    assert("MM"@[0] == 'M' && "YY"@[0] == 'Y' && "DD"@[0] == 'D' && "HH"@[0] == 'H' && "mm"@[0]
        == 'm' && "ss"@[0] == 's');
    assert("YYYY"@.len() == 4 && "YY"@.len() == 2 && "ext"@.len() == 3 && "original"@.len() == 8
        && "camera_make"@.len() == 11 && "camera_model"@.len() == 12 && "counter"@.len() == 7);
}

/// The other tokens hold what they are named after: the original name and the
/// extension as they are, the camera made safe for a name.
pub proof fn law_value_tokens(ctx: CtxModel)
    ensures
        template::token_text("original"@, ctx) == ctx.original,
        template::token_text("ext"@, ctx) == ctx.ext,
        template::token_text("camera_make"@, ctx) == template::safe_value(ctx.make),
        template::token_text("camera_model"@, ctx) == template::safe_value(ctx.model),
{
    lemma_names();
    lemma_plain_name("original"@);
    lemma_plain_name("ext"@);
    lemma_plain_name("camera_make"@);
    lemma_plain_name("camera_model"@);
}

/// `{counter}` reads as the number and has no zeros in front; `{counter:w}`
/// reads as the number too and is filled up to `w` characters. Without a number
/// it reads as 0.
pub proof fn law_counter_token(ctx: CtxModel, w: Seq<char>)
    requires
        w.len() > 0,
        forall|i: int| 0 <= i < w.len() ==> '0' <= #[trigger] w[i] && w[i] <= '9',
        text_laws::read_decimal(w) <= usize::MAX,
    ensures
        ({
            let n: int = match ctx.counter {
                Some(c) => c as int,
                None => 0,
            };
            let a = template::token_text("counter"@, ctx);
            let b = template::token_text("counter:"@ + w, ctx);
            &&& text_laws::read_decimal(a) == n
            &&& a.len() > 0
            &&& n > 0 ==> a[0] != '0'
            &&& text_laws::read_decimal(b) == n
            &&& b.len() == if text_laws::read_decimal(w) > a.len() {
                text_laws::read_decimal(w)
            } else {
                a.len() as int
            }
            &&& forall|i: int|
                0 <= i < b.len() ==> '0' <= #[trigger] b[i] && b[i] <= '9'
        }),
{
    lemma_names();
    lemma_plain_name("counter"@);
    reveal_strlit("counter:");
    reveal_strlit("counter");
    let tok = "counter:"@ + w;
    assert(tok =~= "counter"@ + seq![':'] + w);
    lemma_find_at("counter"@, ':', w);
    assert(tok.take(7) =~= "counter"@);
    assert(tok.skip(8) =~= w);
    let n: nat = match ctx.counter {
        Some(c) => c as nat,
        None => 0,
    };
    text_laws::law_decimal(n);
    text_laws::law_digits_value(w);
    let d = text::decimal(n);
    assert(text::all_digits(w)) by {
        assert forall|i: int| 0 <= i < w.len() implies text::is_digit(#[trigger] w[i]) by {}
    }
    assert(!text::is_white(w[0]) && !text::is_white(w.last())) by {
        assert('0' <= w[w.len() - 1] && w[w.len() - 1] <= '9');
    }
    text_laws::law_trimmed_fixed(w, Class::White);
    assert(w[0] != '+');
    assert(template::width_digits(w) == w);
    let width = text_laws::read_decimal(w);
    assert(template::width_of(w) == width);
    text_laws::law_zeros_count_for_nothing(d, width);
    text_laws::law_pad_left(d, width, '0');
    let b = template::token_text(tok, ctx);
    assert(b == text::pad_left(d, width, '0'));
    assert forall|i: int| 0 <= i < b.len() implies '0' <= #[trigger] b[i] && b[i] <= '9' by {
        let k = b.len() - d.len();
        if i >= k {
            assert(b[i] == b.skip(k)[i - k]);
        }
    }
    assert(template::token_text("counter"@, ctx) == text::pad_left(d, 0, '0'));
}

/// A token that nothing is known by stands for itself, braces included.
pub proof fn law_unknown_token(tok: Seq<char>, ctx: CtxModel)
    requires
        !tok.contains(':'),
        tok != "YYYY"@ && tok != "YY"@ && tok != "MM"@ && tok != "DD"@ && tok != "HH"@ && tok
            != "mm"@ && tok != "ss"@,
        tok != "original"@ && tok != "ext"@ && tok != "camera_make"@ && tok != "camera_model"@ && tok
            != "counter"@,
    ensures
        template::token_text(tok, ctx) == seq!['{'] + tok + seq!['}'],
{
    lemma_plain_name(tok);
}

// ---------------------------------------------------------------------------
// Sanitizing
// ---------------------------------------------------------------------------

/// Whether a text can be a name as it stands: nothing in it is forbidden on a
/// card, and it has neither blanks nor dots at its ends.
pub open spec fn tidy(s: Seq<char>) -> bool {
    &&& s.len() > 0
    &&& forall|i: int|
        0 <= i < s.len() ==> {
            let c = #[trigger] s[i];
            &&& c != '\\' && c != ':' && c != '*' && c != '?' && c != '"' && c != '<' && c != '>'
            &&& c != '|' && c as u32 >= 32
        }
    &&& !text::is_white(s[0]) && s[0] != '.'
    &&& !text::is_white(s.last()) && s.last() != '.'
}

/// Sanitizing leaves a tidy name as it is.
pub proof fn law_tidy_names_stay(s: Seq<char>)
    requires
        tidy(s),
    ensures
        template::safe_component(s) == s,
        !s.contains('/') ==> template::safe_value(s) == s,
{
    assert(template::cleaned(s, false) =~= s);
    text_laws::law_trimmed_fixed(s, Class::White);
    text_laws::law_trimmed_fixed(s, Class::Dot);
    reveal_strlit(".");
    reveal_strlit("..");
    assert("."@[0] == '.' && ".."@[0] == '.');
    if !s.contains('/') {
        assert forall|i: int| 0 <= i < s.len() implies s[i] != '/' by {
            assert(s.contains(s[i]));
        }
        assert(template::cleaned(s, true) =~= s);
    }
}

/// Sanitizing replaces every forbidden character by a hyphen and leaves every
/// other one, but for blanks and dots at the ends.
pub proof fn law_cleaned(s: Seq<char>, slash: bool, i: int)
    requires
        0 <= i < s.len(),
    ensures
        template::cleaned(s, slash).len() == s.len(),
        ({
            let c = s[i];
            let bad = c == '\\' || c == ':' || c == '*' || c == '?' || c == '"' || c == '<' || c
                == '>' || c == '|' || (c as u32) < 32 || (slash && c == '/');
            template::cleaned(s, slash)[i] == if bad { '-' } else { c }
        }),
{
}

// ---------------------------------------------------------------------------
// Capture-date folders
// ---------------------------------------------------------------------------

/// The default folder template gives the year, then the day as `2026-06-20`.
pub proof fn law_default_folder(ctx: CtxModel)
    ensures
        template::rendered("{YYYY}/{YYYY}-{MM}-{DD}"@, ctx) == template::token_text("YYYY"@, ctx)
            + seq!['/'] + template::token_text("YYYY"@, ctx) + seq!['-'] + template::token_text(
            "MM"@,
            ctx,
        ) + seq!['-'] + template::token_text("DD"@, ctx),
{
    let empty = Seq::<char>::empty();
    let y = "YYYY"@;
    let d4 = seq!['-'] + seq!['{'] + "DD"@ + seq!['}'] + empty;
    let d3 = seq!['-'] + seq!['{'] + "MM"@ + seq!['}'] + d4;
    let d2 = seq!['/'] + seq!['{'] + y + seq!['}'] + d3;
    let tpl = "{YYYY}/{YYYY}-{MM}-{DD}"@;
    lemma_default_text();
    lemma_closed();
    law_render_piece(empty, y, d2, ctx);
    law_render_piece(seq!['/'], y, d3, ctx);
    law_render_piece(seq!['-'], "MM"@, d4, ctx);
    law_render_piece(seq!['-'], "DD"@, empty, ctx);
    template::law_plain_template(empty, ctx);
    let a = template::token_text(y, ctx);
    let m = template::token_text("MM"@, ctx);
    let d = template::token_text("DD"@, ctx);
    lemma_regroup(a, m, d);
}

proof fn lemma_regroup(a: Seq<char>, m: Seq<char>, d: Seq<char>)
    ensures
        ({
            let empty = Seq::<char>::empty();
            let c4 = seq!['-'] + d + empty;
            let c3 = seq!['-'] + m + c4;
            let c2 = seq!['/'] + a + c3;
            empty + a + c2 == a + seq!['/'] + a + seq!['-'] + m + seq!['-'] + d
        }),
{
    let empty = Seq::<char>::empty();
    let c4 = seq!['-'] + d + empty;
    let c3 = seq!['-'] + m + c4;
    let c2 = seq!['/'] + a + c3;
    assert(empty + a + c2 =~= a + seq!['/'] + a + seq!['-'] + m + seq!['-'] + d);
}

proof fn lemma_closed()
    ensures
        !"YYYY"@.contains('}'),
        !"MM"@.contains('}'),
        !"DD"@.contains('}'),
{
    reveal_strlit("YYYY");
    reveal_strlit("MM");
    reveal_strlit("DD");
}

/// The default folder template, taken apart.
proof fn lemma_default_text()
    ensures
        ({
            let empty = Seq::<char>::empty();
            let y = "YYYY"@;
            let d4 = seq!['-'] + seq!['{'] + "DD"@ + seq!['}'] + empty;
            let d3 = seq!['-'] + seq!['{'] + "MM"@ + seq!['}'] + d4;
            let d2 = seq!['/'] + seq!['{'] + y + seq!['}'] + d3;
            "{YYYY}/{YYYY}-{MM}-{DD}"@ == empty + seq!['{'] + y + seq!['}'] + d2
        }),
{
    reveal_strlit("{YYYY}/{YYYY}-{MM}-{DD}");
    reveal_strlit("YYYY");
    reveal_strlit("MM");
    reveal_strlit("DD");
    let empty = Seq::<char>::empty();
    let y = "YYYY"@;
    let d4 = seq!['-'] + seq!['{'] + "DD"@ + seq!['}'] + empty;
    let d3 = seq!['-'] + seq!['{'] + "MM"@ + seq!['}'] + d4;
    let d2 = seq!['/'] + seq!['{'] + y + seq!['}'] + d3;
    assert("{YYYY}/{YYYY}-{MM}-{DD}"@ =~= empty + seq!['{'] + y + seq!['}'] + d2);
}

/// Shots of different days go to different folders under the default folder
/// template, and shots of one day to one folder.
pub proof fn law_default_folder_is_the_day(x: CtxModel, y: CtxModel, a: Moment, b: Moment)
    requires
        x.dt == Some(a),
        y.dt == Some(b),
        a.valid(),
        b.valid(),
    ensures
        template::rendered("{YYYY}/{YYYY}-{MM}-{DD}"@, x) == template::rendered(
            "{YYYY}/{YYYY}-{MM}-{DD}"@,
            y,
        ) <==> a.year == b.year && a.month == b.month && a.day == b.day,
{
    law_default_folder(x);
    law_default_folder(y);
    law_date_tokens(x, a);
    law_date_tokens(y, b);
    lemma_names();
    lemma_plain_name("YYYY"@);
    lemma_plain_name("MM"@);
    lemma_plain_name("DD"@);
    let s = template::rendered("{YYYY}/{YYYY}-{MM}-{DD}"@, x);
    let t = template::rendered("{YYYY}/{YYYY}-{MM}-{DD}"@, y);
    let p = template::token_text("YYYY"@, x);
    let q = template::token_text("YYYY"@, y);
    let m = template::token_text("MM"@, x);
    let k = template::token_text("MM"@, y);
    let d = template::token_text("DD"@, x);
    let e = template::token_text("DD"@, y);
    if s == t {
        let n = s.len() as int;
        assert(n == 2 * p.len() + 7 && n == 2 * q.len() + 7);
        assert(p =~= s.take(p.len() as int));
        assert(q =~= t.take(q.len() as int));
        assert(s[n - 5] == m[0] && s[n - 4] == m[1] && s[n - 2] == d[0] && s[n - 1] == d[1]);
        assert(t[n - 5] == k[0] && t[n - 4] == k[1] && t[n - 2] == e[0] && t[n - 1] == e[1]);
        lemma_year(a.year as int);
        lemma_year(b.year as int);
        assert(p == q);
        assert(a.year == b.year);
    }
}

/// A year can be read back from its token.
proof fn lemma_year(y: int)
    ensures
        ({
            let t = text::signed_decimal(y, 4);
            &&& t.len() > 0
            &&& t[0] == '-' <==> y < 0
            &&& y >= 0 ==> text_laws::read_decimal(t) == y
            &&& y < 0 ==> text_laws::read_decimal(t.skip(1)) == -y
        }),
{
    let t = text::signed_decimal(y, 4);
    let n: nat = if y < 0 { (-y) as nat } else { y as nat };
    let w: int = if y < 0 { 3 } else { 4 };
    let p = text::pad_left(text::decimal(n), w, '0');
    text_laws::law_decimal(n);
    text_laws::law_zeros_count_for_nothing(text::decimal(n), w);
    text_laws::law_pad_left(text::decimal(n), w, '0');
    assert(p[0] != '-') by {
        if p.len() == text::decimal(n).len() {
            assert(p.skip(0) =~= p);
            assert(p[0] == text::decimal(n)[0]);
        }
    }
    if y < 0 {
        assert(t.skip(1) =~= p);
    }
}

/// Whether a text consists of white space.
pub open spec fn all_white(s: Seq<char>) -> bool {
    forall|i: int| 0 <= i < s.len() ==> text::is_white(#[trigger] s[i])
}

/// Whether a text consists of dots.
pub open spec fn all_dots(s: Seq<char>) -> bool {
    forall|i: int| 0 <= i < s.len() ==> (#[trigger] s[i]) == '.'
}

/// Blanks and dots at the ends of a name go, and blanks behind the dots go too:
/// what is left is the name itself.
pub proof fn law_stripped(
    w: Seq<char>,
    d: Seq<char>,
    v: Seq<char>,
    m: Seq<char>,
    v2: Seq<char>,
    d2: Seq<char>,
    w2: Seq<char>,
)
    requires
        all_white(w) && all_white(v) && all_white(v2) && all_white(w2),
        all_dots(d) && all_dots(d2),
        d.len() > 0 && d2.len() > 0,
        m.len() > 0,
        !text::is_white(m[0]) && m[0] != '.',
        !text::is_white(m.last()) && m.last() != '.',
    ensures
        template::stripped(w + (d + (v + m + v2) + d2) + w2) == m,
        template::stripped(m) == m,
{
    let inner = v + m + v2;
    let x = d + inner + d2;
    assert(x[0] == d[0]);
    assert(x.last() == d2[d2.len() - 1]);
    text_laws::law_trimmed_middle(w, x, w2, Class::White);
    assert(!text::in_class(Class::Dot, inner[0])) by {
        if v.len() > 0 {
            assert(inner[0] == v[0]);
        } else {
            assert(inner[0] == m[0]);
        }
    }
    assert(!text::in_class(Class::Dot, inner.last())) by {
        if v2.len() > 0 {
            assert(inner.last() == v2[v2.len() - 1]);
        } else {
            assert(inner.last() == m.last());
        }
    }
    text_laws::law_trimmed_middle(d, inner, d2, Class::Dot);
    text_laws::law_trimmed_middle(v, m, v2, Class::White);
    text_laws::law_trimmed_fixed(m, Class::White);
    text_laws::law_trimmed_fixed(m, Class::Dot);
}

/// A component that nothing is left of, or that would mean a directory of its
/// own, becomes an underscore; any other stays as it was stripped. A value is
/// cleaned of slashes too.
pub proof fn law_safe(s: Seq<char>)
    ensures
        ({
            let t = template::stripped(template::cleaned(s, false));
            template::safe_component(s) == if t.len() == 0 || t == seq!['.'] || t == seq!['.', '.'] {
                seq!['_']
            } else {
                t
            }
        }),
        template::safe_value(s) == template::stripped(template::cleaned(s, true)),
        forall|i: int| 0 <= i < template::safe_value(s).len() ==> template::safe_value(s)[i] != '/',
{
    reveal_strlit(".");
    reveal_strlit("..");
    reveal_strlit("_");
    assert("."@ =~= seq!['.']);
    assert(".."@ =~= seq!['.', '.']);
    assert("_"@ =~= seq!['_']);
    template::law_safe_value(s);
}

} // verus!
