//! Folder / file-name template rendering.
//!
//! Supported tokens: `{YYYY} {YY} {MM} {DD} {HH} {mm} {ss} {original} {ext}`
//! `{counter} {counter:03} {camera_make} {camera_model}`.

use vstd::prelude::*;

use crate::clock;
use crate::clock::Moment;
use crate::paths;
use crate::text;
use crate::text::Class;

verus! {

/// Values available while rendering a template.
pub struct Ctx<'a> {
    pub dt: Option<Moment>,
    /// Original file stem (no extension).
    pub original: &'a str,
    /// Original extension (no dot).
    pub ext: &'a str,
    pub counter: Option<u32>,
    pub make: &'a str,
    pub model: &'a str,
}

/// The model of a [`Ctx`].
#[verifier::ext_equal]
pub struct CtxModel {
    pub dt: Option<Moment>,
    pub original: Seq<char>,
    pub ext: Seq<char>,
    pub counter: Option<u32>,
    pub make: Seq<char>,
    pub model: Seq<char>,
}

impl<'a> View for Ctx<'a> {
    type V = CtxModel;

    open spec fn view(&self) -> CtxModel {
        CtxModel {
            dt: self.dt,
            original: self.original@,
            ext: self.ext@,
            counter: self.counter,
            make: self.make@,
            model: self.model@,
        }
    }
}

// ---------------------------------------------------------------------------
// Sanitizing
// ---------------------------------------------------------------------------

/// Characters that FAT/exFAT does not allow in a name, but for the separator.
pub open spec fn illegal(c: char) -> bool {
    ||| c == '\\'
    ||| c == ':'
    ||| c == '*'
    ||| c == '?'
    ||| c == '"'
    ||| c == '<'
    ||| c == '>'
    ||| c == '|'
    ||| (c as u32) < 0x20
}

/// `c`, or a hyphen where `c` is illegal; `slash` says whether the separator
/// counts as illegal too.
pub open spec fn clean_char(c: char, slash: bool) -> char {
    if illegal(c) || (slash && c == '/') {
        '-'
    } else {
        c
    }
}

/// Every character cleaned.
pub open spec fn cleaned(s: Seq<char>, slash: bool) -> Seq<char> {
    Seq::new(s.len(), |i: int| clean_char(s[i], slash))
}

/// `s` without blanks, then dots, then blanks at the ends.
pub open spec fn stripped(s: Seq<char>) -> Seq<char> {
    text::trimmed(text::trimmed(text::trimmed(s, Class::White), Class::Dot), Class::White)
}

/// A token value that can inject neither separators nor illegal characters.
pub open spec fn safe_value(s: Seq<char>) -> Seq<char> {
    stripped(cleaned(s, true))
}

/// A path component without illegal characters; `_` where nothing is left, or
/// only what would name the directory itself or the one above.
pub open spec fn safe_component(s: Seq<char>) -> Seq<char> {
    let t = stripped(cleaned(s, false));
    if t.len() == 0 || t == "."@ || t == ".."@ {
        "_"@
    } else {
        t
    }
}

/// Cleans every character.
pub(crate) fn clean_chars(v: &Vec<char>, slash: bool) -> (r: Vec<char>)
    ensures
        r@ == cleaned(v@, slash),
{
    let mut r: Vec<char> = Vec::new();
    let mut i: usize = 0;
    while i < v.len()
        invariant
            i <= v@.len(),
            r@ == cleaned(v@.take(i as int), slash),
        decreases v@.len() - i,
    {
        let c: char = v[i];
        let bad: bool = c == '\\' || c == ':' || c == '*' || c == '?' || c == '"' || c == '<' || c
            == '>' || c == '|' || (c as u32) < 0x20 || (slash && c == '/');
        r.push(
            if bad {
                '-'
            } else {
                c
            },
        );
        i = i + 1;
        proof {
            assert(cleaned(v@.take(i as int), slash) =~= cleaned(v@.take(i - 1), slash).push(
                clean_char(v@[i - 1], slash),
            ));
        }
    }
    proof {
        assert(v@.take(v@.len() as int) =~= v@);
    }
    r
}

/// Strips blanks and dots at the ends.
fn strip_chars(v: &Vec<char>) -> (r: Vec<char>)
    ensures
        r@ == stripped(v@),
{
    text::trim_chars(&text::trim_chars(&text::trim_chars(v, Class::White), Class::Dot), Class::White)
}

/// Sanitize a *token value* (e.g. camera model) so it cannot inject path
/// separators or characters illegal on FAT/exFAT.
pub fn sanitize_value(s: &str) -> (r: String)
    ensures
        r@ == safe_value(s@),
{
    text::string_of(&strip_chars(&clean_chars(&text::chars_of(s), true)))
}

/// Sanitize a single path component produced by a folder template (keeps the
/// component intact but strips illegal characters; `/` separators are handled
/// by the caller splitting on them first). The result is never `.` or `..`.
pub fn sanitize_component(s: &str) -> (r: String)
    ensures
        r@ == safe_component(s@),
{
    let t: Vec<char> = strip_chars(&clean_chars(&text::chars_of(s), false));
    let kept: String = text::string_of(&t);
    if t.len() == 0 || text::same(kept.as_str(), ".") || text::same(kept.as_str(), "..") {
        "_".to_owned()
    } else {
        kept
    }
}

// ---------------------------------------------------------------------------
// Tokens
// ---------------------------------------------------------------------------

/// The digits of a width, behind an optional plus sign.
pub open spec fn width_digits(spec: Seq<char>) -> Seq<char> {
    let t = text::trimmed(spec, Class::White);
    if t.len() > 0 && t[0] == '+' {
        t.skip(1)
    } else {
        t
    }
}

/// The width that a counter token asks for: its number, or its length in
/// bytes where it is none.
pub open spec fn width_of(spec: Seq<char>) -> int {
    let d = width_digits(spec);
    if d.len() > 0 && text::all_digits(d) && text::digits_value(d) <= usize::MAX {
        text::digits_value(d)
    } else {
        vstd::utf8::encode_utf8(spec).len() as usize as int
    }
}

/// A width fits in `usize`.
pub proof fn lemma_width(spec: Seq<char>)
    ensures
        0 <= width_of(spec) <= usize::MAX,
{
    let d = width_digits(spec);
    if text::all_digits(d) {
        text::lemma_digits_value_bound(d);
    }
}

/// The width that a counter token asks for.
pub fn parse_width(spec: &str) -> (r: usize)
    ensures
        r == width_of(spec@),
{
    let t: Vec<char> = text::trim_chars(&text::chars_of(spec), Class::White);
    let d: Vec<char> = if t.len() > 0 && t[0] == '+' {
        proof {
            assert(t@.skip(1) =~= t@.subrange(1, t@.len() as int));
        }
        text::slice_chars(&t, 1, t.len())
    } else {
        t
    };
    match text::parse_digits(&d) {
        Some(n) => {
            if n <= usize::MAX as u64 {
                n as usize
            } else {
                spec.len()
            }
        },
        None => spec.len(),
    }
}

/// A number of at most two digits, or nothing where the date is missing.
pub open spec fn date_part(ctx: CtxModel, name: Seq<char>) -> Seq<char> {
    match ctx.dt {
        None => Seq::empty(),
        Some(m) => if name == "YYYY"@ {
            text::signed_decimal(m.year as int, 4)
        } else if name == "YY"@ {
            clock::two(m.year as int % 100)
        } else if name == "MM"@ {
            clock::two(m.month as int)
        } else if name == "DD"@ {
            clock::two(m.day as int)
        } else if name == "HH"@ {
            clock::two(m.hour as int)
        } else if name == "mm"@ {
            clock::two(m.minute as int)
        } else {
            clock::two(m.second as int)
        },
    }
}

/// Whether a name is that of a date token.
pub open spec fn is_date_token(name: Seq<char>) -> bool {
    ||| name == "YYYY"@
    ||| name == "YY"@
    ||| name == "MM"@
    ||| name == "DD"@
    ||| name == "HH"@
    ||| name == "mm"@
    ||| name == "ss"@
}

/// The name of a token: what stands before its first colon.
pub open spec fn token_name(tok: Seq<char>) -> Seq<char> {
    let k = text::find(tok, ':');
    if k < tok.len() {
        tok.take(k)
    } else {
        tok
    }
}

/// What a token stands for. An unknown one stands for itself, braces included.
pub open spec fn token_text(tok: Seq<char>, ctx: CtxModel) -> Seq<char> {
    let k = text::find(tok, ':');
    let name = token_name(tok);
    if is_date_token(name) {
        date_part(ctx, name)
    } else if name == "original"@ {
        ctx.original
    } else if name == "ext"@ {
        ctx.ext
    } else if name == "camera_make"@ {
        safe_value(ctx.make)
    } else if name == "camera_model"@ {
        safe_value(ctx.model)
    } else if name == "counter"@ {
        let n: u32 = match ctx.counter {
            Some(c) => c,
            None => 0,
        };
        let width = if k < tok.len() {
            width_of(tok.skip(k + 1))
        } else {
            0
        };
        text::pad_left(text::decimal(n as nat), width, '0')
    } else {
        seq!['{'] + tok + seq!['}']
    }
}

/// The text of a date token.
fn date_token(dt: Option<Moment>, name: &str, Ghost(ctx): Ghost<CtxModel>) -> (r: String)
    requires
        ctx.dt == dt,
        is_date_token(name@),
    ensures
        r@ == date_part(ctx, name@),
{
    match dt {
        None => String::new(),
        Some(m) => if text::same(name, "YYYY") {
            text::signed_text(m.year, 4)
        } else if text::same(name, "YY") {
            clock::two_digits(year_of_century(m.year))
        } else if text::same(name, "MM") {
            clock::two_digits(m.month)
        } else if text::same(name, "DD") {
            clock::two_digits(m.day)
        } else if text::same(name, "HH") {
            clock::two_digits(m.hour)
        } else if text::same(name, "mm") {
            clock::two_digits(m.minute)
        } else {
            clock::two_digits(m.second)
        },
    }
}

/// The last two digits of a year.
fn year_of_century(y: i32) -> (r: u32)
    ensures
        r == y as int % 100,
{
    let n: i64 = y as i64;
    let shifted: i64 = n + 3000000000;
    proof {
        assert((n + 3000000000int) % 100 == n % 100) by (nonlinear_arith);
    }
    (shifted % 100) as u32
}

/// Render one token.
pub fn render_token(tok: &str, ctx: &Ctx) -> (r: String)
    ensures
        r@ == token_text(tok@, ctx@),
{
    let v: Vec<char> = text::chars_of(tok);
    let n: usize = v.len();
    let mut name: String = tok.to_owned();
    let mut width: usize = 0;
    proof {
        assert(v@.skip(0) =~= v@);
    }
    match text::find_from(&v, ':', 0) {
        Some(k) => {
            proof {
                assert(v@.take(k as int) =~= v@.subrange(0, k as int));
                assert(v@.skip(k + 1) =~= v@.subrange(k + 1, v@.len() as int));
            }
            name = text::string_of(&text::slice_chars(&v, 0, k));
            width = parse_width(text::string_of(&text::slice_chars(&v, k + 1, n)).as_str());
        },
        None => {},
    }
    let key: &str = name.as_str();
    if text::same(key, "YYYY") || text::same(key, "YY") || text::same(key, "MM") || text::same(key, "DD")
        || text::same(key, "HH") || text::same(key, "mm") || text::same(key, "ss") {
        date_token(ctx.dt, key, Ghost(ctx@))
    } else if text::same(key, "original") {
        ctx.original.to_owned()
    } else if text::same(key, "ext") {
        ctx.ext.to_owned()
    } else if text::same(key, "camera_make") {
        sanitize_value(ctx.make)
    } else if text::same(key, "camera_model") {
        sanitize_value(ctx.model)
    } else if text::same(key, "counter") {
        let c: u32 = match ctx.counter {
            Some(c) => c,
            None => 0,
        };
        text::unsigned_text(c as u64, width)
    } else {
        let mut r = String::new();
        r.push('{');
        r.append(tok);
        r.push('}');
        proof {
            assert(r@ =~= seq!['{'] + tok@ + seq!['}']);
        }
        r
    }
}

// ---------------------------------------------------------------------------
// Templates
// ---------------------------------------------------------------------------

/// A template with every `{...}` replaced by what it stands for. From an
/// opening brace that is never closed, the template stands for itself.
pub open spec fn rendered(tpl: Seq<char>, ctx: CtxModel) -> Seq<char>
    decreases tpl.len(),
    via rendered_decreases
{
    let open = text::find(tpl, '{');
    if open < 0 || open >= tpl.len() {
        tpl
    } else {
        let after = tpl.skip(open + 1);
        let close = text::find(after, '}');
        if close < 0 || close >= after.len() {
            tpl
        } else {
            tpl.take(open) + token_text(after.take(close), ctx) + rendered(
                after.skip(close + 1),
                ctx,
            )
        }
    }
}

#[via_fn]
proof fn rendered_decreases(tpl: Seq<char>, ctx: CtxModel) {
}

/// Render a template string. Unknown tokens are passed through verbatim so a
/// typo is visible rather than silently dropped.
pub fn render(tpl: &str, ctx: &Ctx) -> (r: String)
    ensures
        r@ == rendered(tpl@, ctx@),
{
    let v: Vec<char> = text::chars_of(tpl);
    let n: usize = v.len();
    let mut out = String::new();
    let mut at: usize = 0;
    proof {
        assert(v@.skip(0) =~= v@);
        assert(out@ + rendered(v@, ctx@) =~= rendered(v@, ctx@));
    }
    loop
        invariant
            v@ == tpl@,
            n == v@.len(),
            at <= n,
            out@ + rendered(v@.skip(at as int), ctx@) == rendered(tpl@, ctx@),
        decreases n - at,
    {
        let ghost rest = v@.skip(at as int);
        let ghost done = out@;
        proof {
            text::lemma_find(rest, '{');
            assert(rest =~= v@.subrange(at as int, n as int));
        }
        let open: usize = match text::find_from(&v, '{', at) {
            Some(i) => i,
            None => {
                out.append(text::string_of(&text::slice_chars(&v, at, n)).as_str());
                return out;
            },
        };
        let ghost after = rest.skip(open + 1);
        proof {
            assert(after =~= v@.skip(at + open + 1));
            text::lemma_find(after, '}');
        }
        let close: usize = match text::find_from(&v, '}', at + open + 1) {
            Some(i) => i,
            None => {
                out.append(text::string_of(&text::slice_chars(&v, at, n)).as_str());
                return out;
            },
        };
        let lead: String = text::string_of(&text::slice_chars(&v, at, at + open));
        let tok: String = text::string_of(
            &text::slice_chars(&v, at + open + 1, at + open + 1 + close),
        );
        proof {
            assert(lead@ =~= rest.take(open as int));
            assert(tok@ =~= after.take(close as int));
            assert(after.skip(close + 1) =~= v@.skip(at + open + 1 + close + 1));
        }
        out.append(lead.as_str());
        out.append(render_token(tok.as_str(), ctx).as_str());
        at = at + open + 1 + close + 1;
        proof {
            let a = rest.take(open as int);
            let b = token_text(tok@, ctx@);
            let c = rendered(v@.skip(at as int), ctx@);
            assert(done + a + b + c =~= done + (a + b + c));
        }
    }
}

// ---------------------------------------------------------------------------
// Laws
// ---------------------------------------------------------------------------

/// A template without an opening brace stands for itself.
pub proof fn law_plain_template(tpl: Seq<char>, ctx: CtxModel)
    requires
        !tpl.contains('{'),
    ensures
        rendered(tpl, ctx) == tpl,
{
    text::lemma_find(tpl, '{');
}

proof fn lemma_stripped(s: Seq<char>)
    ensures
        forall|i: int| 0 <= i < stripped(s).len() ==> s.contains(#[trigger] stripped(s)[i]),
        stripped(s).len() > 0 ==> !text::is_white(stripped(s)[0]) && !text::is_white(
            stripped(s).last(),
        ),
{
    let a = text::trimmed(s, Class::White);
    let b = text::trimmed(a, Class::Dot);
    text::lemma_trimmed(s, Class::White);
    text::lemma_trimmed(a, Class::Dot);
    text::lemma_trimmed(b, Class::White);
    assert forall|i: int| 0 <= i < stripped(s).len() implies s.contains(
        #[trigger] stripped(s)[i],
    ) by {
        assert(b.contains(text::trimmed(b, Class::White)[i]));
        let j = choose|j: int| 0 <= j < b.len() && b[j] == stripped(s)[i];
        assert(a.contains(text::trimmed(a, Class::Dot)[j]));
        let k = choose|k: int| 0 <= k < a.len() && a[k] == b[j];
        assert(s.contains(text::trimmed(s, Class::White)[k]));
    }
}

/// A token value brings neither a separator nor an illegal character into a
/// name, and no blank at either end.
pub proof fn law_safe_value(s: Seq<char>)
    ensures
        forall|i: int|
            0 <= i < safe_value(s).len() ==> !illegal(#[trigger] safe_value(s)[i]) && safe_value(
                s,
            )[i] != '/',
        safe_value(s).len() > 0 ==> !text::is_white(safe_value(s)[0]) && !text::is_white(
            safe_value(s).last(),
        ),
{
    let c = cleaned(s, true);
    lemma_stripped(c);
    assert forall|i: int| 0 <= i < safe_value(s).len() implies !illegal(
        #[trigger] safe_value(s)[i],
    ) && safe_value(s)[i] != '/' by {
        assert(c.contains(stripped(c)[i]));
        let j = choose|j: int| 0 <= j < c.len() && c[j] == stripped(c)[i];
        assert(c[j] == clean_char(s[j], true));
    }
}

/// A sanitized component is never empty, holds no illegal character and no
/// separator that was not there before, has no blank at either end, and is
/// neither `.` nor `..`. Without a separator it is a proper name.
pub proof fn law_safe_component(s: Seq<char>)
    ensures
        safe_component(s).len() > 0,
        forall|i: int| 0 <= i < safe_component(s).len() ==> !illegal(#[trigger] safe_component(s)[i]),
        !s.contains('/') ==> !safe_component(s).contains('/'),
        !text::is_white(safe_component(s)[0]) && !text::is_white(safe_component(s).last()),
        safe_component(s) != "."@ && safe_component(s) != ".."@,
        !s.contains('/') ==> paths::proper_name(safe_component(s)),
{
    reveal_strlit("_");
    reveal_strlit(".");
    reveal_strlit("..");
    assert("_"@[0] == '_');
    let c = cleaned(s, false);
    lemma_stripped(c);
    let t = stripped(c);
    if t.len() > 0 {
        assert forall|i: int| 0 <= i < t.len() implies !illegal(#[trigger] t[i]) && (!s.contains(
            '/',
        ) ==> t[i] != '/') by {
            assert(c.contains(stripped(c)[i]));
            let j = choose|j: int| 0 <= j < c.len() && c[j] == stripped(c)[i];
            assert(c[j] == clean_char(s[j], false));
            if s[j] == '/' {
                assert(s.contains('/'));
            }
        }
    }
}

} // verus!
