//! What a configuration takes from the command line, the config file and the
//! defaults, said field by field.

use vstd::prelude::*;

use crate::cli::{
    Cli, DateSourceArg, DedupArg, ModeArg, OnConflictArg, OnMissingDateArg, TypeSel, VerifyArg,
};
use crate::config;
use crate::config::{ConfigIssue, ConfigModel, FileConfig};
use crate::paths;
use crate::text;
use crate::text::Class;
use crate::text_laws;

verus! {

// ---------------------------------------------------------------------------
// Words
// ---------------------------------------------------------------------------

/// Whether a text of the config file is a word, whatever its case and the
/// blanks around it.
pub open spec fn says(s: Seq<char>, w: Seq<char>) -> bool {
    exists|a: int, b: int|
        #[trigger] text_laws::cut_out(s, Class::White, a, b) && text::ascii_lower(s.subrange(a, b))
            == w && (a < b ==> !text::is_white(s[a]) && !text::is_white(s[b - 1]))
}

pub proof fn lemma_says(s: Seq<char>, w: Seq<char>)
    ensures
        says(s, w) <==> config::word(s) == w,
{
    let t = text::trimmed(s, Class::White);
    text_laws::law_trimmed(s, Class::White);
    let (a, b) = choose|a: int, b: int| #[trigger]
        text_laws::cut_out(s, Class::White, a, b) && t == s.subrange(a, b);
    assert(a < b ==> t[0] == s[a] && t.last() == s[b - 1]);
    if says(s, w) {
        let (x, y) = choose|x: int, y: int| #[trigger]
            text_laws::cut_out(s, Class::White, x, y) && text::ascii_lower(s.subrange(x, y)) == w
                && (x < y ==> !text::is_white(s[x]) && !text::is_white(s[y - 1]));
        assert(s.subrange(x, y) =~= t) by {
            if x < y {
                assert(text::in_class(Class::White, s[x]) == text::is_white(s[x]));
                assert(text::in_class(Class::White, s[y - 1]) == text::is_white(s[y - 1]));
                assert(a <= x && y <= b);
                if a < x {
                    assert(text::in_class(Class::White, s[a]));
                }
                if y < b {
                    assert(text::in_class(Class::White, s[b - 1]));
                }
            } else if a < b {
                if a < x {
                    assert(text::in_class(Class::White, s[a]));
                } else {
                    assert(text::in_class(Class::White, s[a]));
                }
            }
        }
    }
}

/// The words of the config file: each names what it says, and every other word
/// names nothing.
pub proof fn law_words(s: Seq<char>)
    ensures
        config::type_named(s) == Some(TypeSel::Raw) <==> says(s, "raw"@),
        config::type_named(s) == Some(TypeSel::Jpeg) <==> says(s, "jpeg"@) || says(s, "jpg"@),
        config::type_named(s) == Some(TypeSel::Video) <==> says(s, "video"@),
        config::type_named(s) == Some(TypeSel::All) <==> says(s, "all"@),
        config::date_source_named(s) == Some(DateSourceArg::Exif) <==> says(s, "exif"@),
        config::date_source_named(s) == Some(DateSourceArg::Mtime) <==> says(s, "mtime"@),
        config::date_source_named(s) == Some(DateSourceArg::ExifThenMtime) <==> says(
            s,
            "exif-then-mtime"@,
        ),
        config::on_missing_named(s) == Some(OnMissingDateArg::Skip) <==> says(s, "skip"@),
        config::on_missing_named(s) == Some(OnMissingDateArg::Mtime) <==> says(s, "mtime"@),
        config::on_missing_named(s) == Some(OnMissingDateArg::UnknownFolder) <==> says(
            s,
            "unknown-folder"@,
        ),
        config::on_conflict_named(s) == Some(OnConflictArg::Rename) <==> says(s, "rename"@),
        config::on_conflict_named(s) == Some(OnConflictArg::Skip) <==> says(s, "skip"@),
        config::on_conflict_named(s) == Some(OnConflictArg::Overwrite) <==> says(s, "overwrite"@),
        config::dedup_named(s) == Some(DedupArg::Name) <==> says(s, "name"@),
        config::dedup_named(s) == Some(DedupArg::Hash) <==> says(s, "hash"@),
        config::dedup_named(s) == Some(DedupArg::Off) <==> says(s, "off"@),
        config::verify_named(s) == Some(VerifyArg::Auto) <==> says(s, "auto"@),
        config::verify_named(s) == Some(VerifyArg::Size) <==> says(s, "size"@),
        config::verify_named(s) == Some(VerifyArg::Hash) <==> says(s, "hash"@),
        config::verify_named(s) == Some(VerifyArg::Off) <==> says(s, "off"@),
{
    lemma_type_words(s);
    lemma_date_words(s);
    lemma_policy_words(s);
    lemma_check_words(s);
}

proof fn lemma_type_words(s: Seq<char>)
    ensures
        config::type_named(s) == Some(TypeSel::Raw) <==> says(s, "raw"@),
        config::type_named(s) == Some(TypeSel::Jpeg) <==> says(s, "jpeg"@) || says(s, "jpg"@),
        config::type_named(s) == Some(TypeSel::Video) <==> says(s, "video"@),
        config::type_named(s) == Some(TypeSel::All) <==> says(s, "all"@),
{
    reveal_strlit("raw");
    reveal_strlit("jpeg");
    reveal_strlit("jpg");
    reveal_strlit("video");
    reveal_strlit("all");
    assert("raw"@[0] == 'r' && "jpeg"@[0] == 'j' && "jpg"@[0] == 'j' && "video"@[0] == 'v'
        && "all"@[0] == 'a');
    lemma_says(s, "raw"@);
    lemma_says(s, "jpeg"@);
    lemma_says(s, "jpg"@);
    lemma_says(s, "video"@);
    lemma_says(s, "all"@);
}

proof fn lemma_date_words(s: Seq<char>)
    ensures
        config::date_source_named(s) == Some(DateSourceArg::Exif) <==> says(s, "exif"@),
        config::date_source_named(s) == Some(DateSourceArg::Mtime) <==> says(s, "mtime"@),
        config::date_source_named(s) == Some(DateSourceArg::ExifThenMtime) <==> says(
            s,
            "exif-then-mtime"@,
        ),
        config::on_missing_named(s) == Some(OnMissingDateArg::Skip) <==> says(s, "skip"@),
        config::on_missing_named(s) == Some(OnMissingDateArg::Mtime) <==> says(s, "mtime"@),
        config::on_missing_named(s) == Some(OnMissingDateArg::UnknownFolder) <==> says(
            s,
            "unknown-folder"@,
        ),
{
    reveal_strlit("exif");
    reveal_strlit("mtime");
    reveal_strlit("exif-then-mtime");
    reveal_strlit("skip");
    reveal_strlit("unknown-folder");
    assert("exif"@.len() == 4 && "exif-then-mtime"@.len() == 15 && "mtime"@[0] == 'm'
        && "exif"@[0] == 'e' && "exif-then-mtime"@[0] == 'e' && "skip"@[0] == 's'
        && "unknown-folder"@[0] == 'u');
    lemma_says(s, "exif"@);
    lemma_says(s, "mtime"@);
    lemma_says(s, "exif-then-mtime"@);
    lemma_says(s, "skip"@);
    lemma_says(s, "unknown-folder"@);
}

proof fn lemma_policy_words(s: Seq<char>)
    ensures
        config::on_conflict_named(s) == Some(OnConflictArg::Rename) <==> says(s, "rename"@),
        config::on_conflict_named(s) == Some(OnConflictArg::Skip) <==> says(s, "skip"@),
        config::on_conflict_named(s) == Some(OnConflictArg::Overwrite) <==> says(s, "overwrite"@),
{
    reveal_strlit("rename");
    reveal_strlit("skip");
    reveal_strlit("overwrite");
    assert("rename"@[0] == 'r' && "skip"@[0] == 's' && "overwrite"@[0] == 'o');
    lemma_says(s, "rename"@);
    lemma_says(s, "skip"@);
    lemma_says(s, "overwrite"@);
}

proof fn lemma_check_words(s: Seq<char>)
    ensures
        config::dedup_named(s) == Some(DedupArg::Name) <==> says(s, "name"@),
        config::dedup_named(s) == Some(DedupArg::Hash) <==> says(s, "hash"@),
        config::dedup_named(s) == Some(DedupArg::Off) <==> says(s, "off"@),
        config::verify_named(s) == Some(VerifyArg::Auto) <==> says(s, "auto"@),
        config::verify_named(s) == Some(VerifyArg::Size) <==> says(s, "size"@),
        config::verify_named(s) == Some(VerifyArg::Hash) <==> says(s, "hash"@),
        config::verify_named(s) == Some(VerifyArg::Off) <==> says(s, "off"@),
{
    reveal_strlit("name");
    reveal_strlit("hash");
    reveal_strlit("off");
    reveal_strlit("auto");
    reveal_strlit("size");
    assert("name"@[0] == 'n' && "hash"@[0] == 'h' && "off"@[0] == 'o' && "auto"@[0] == 'a'
        && "size"@[0] == 's');
    lemma_says(s, "name"@);
    lemma_says(s, "hash"@);
    lemma_says(s, "off"@);
    lemma_says(s, "auto"@);
    lemma_says(s, "size"@);
}

// ---------------------------------------------------------------------------
// Time-zone offsets
// ---------------------------------------------------------------------------

/// Whether a character is a digit.
pub open spec fn figure(c: char) -> bool {
    '0' <= c && c <= '9'
}

proof fn lemma_digits_push(s: Seq<char>, c: char)
    ensures
        config::digits_in(s.push(c)) == if figure(c) {
            config::digits_in(s).push(c)
        } else {
            config::digits_in(s)
        },
{
    assert(s.push(c).drop_last() =~= s);
}

/// `+08:00`, `-0530` and `+08` are hours and minutes east or west of UTC, in
/// seconds; a day or more is out of range. `Z` is UTC.
pub proof fn law_offset(sign: char, a: char, b: char, c: char, d: char)
    requires
        sign == '+' || sign == '-',
        figure(a) && figure(b) && figure(c) && figure(d),
    ensures
        ({
            let h = (a as int - 48) * 10 + (b as int - 48);
            let m = (c as int - 48) * 10 + (d as int - 48);
            let size = h * 3600 + m * 60;
            let east = if sign == '+' { size } else { -size };
            &&& size < 86400 ==> config::offset_of(seq![sign, a, b, ':', c, d]) == Ok::<
                int,
                ConfigIssue,
            >(east)
            &&& size < 86400 ==> config::offset_of(seq![sign, a, b, c, d]) == Ok::<
                int,
                ConfigIssue,
            >(east)
            &&& h < 24 ==> config::offset_of(seq![sign, a, b]) == Ok::<int, ConfigIssue>(
                if sign == '+' {
                    h * 3600
                } else {
                    -h * 3600
                },
            )
            &&& size >= 86400 ==> config::offset_of(seq![sign, a, b, ':', c, d]) == Err::<
                int,
                ConfigIssue,
            >(ConfigIssue::OffsetRange)
            &&& config::offset_of(seq!['Z']) == Ok::<int, ConfigIssue>(0)
            &&& config::offset_of(seq!['z']) == Ok::<int, ConfigIssue>(0)
        }),
{
    let s1 = seq![sign, a, b, ':', c, d];
    let s2 = seq![sign, a, b, c, d];
    let s3 = seq![sign, a, b];
    lemma_offset_text(s1);
    lemma_offset_text(s2);
    lemma_offset_text(s3);
    let empty = Seq::<char>::empty();
    let ab = empty.push(a).push(b);
    let abcd = ab.push(c).push(d);
    lemma_digits_push(empty, a);
    lemma_digits_push(empty.push(a), b);
    lemma_digits_push(ab, c);
    lemma_digits_push(ab.push(c), d);
    lemma_digits_push(ab, ':');
    lemma_digits_push(ab.push(':'), c);
    lemma_digits_push(ab.push(':').push(c), d);
    assert(config::digits_in(empty) == empty);
    assert(s1.skip(1) =~= ab.push(':').push(c).push(d));
    assert(s2.skip(1) =~= abcd);
    assert(s3.skip(1) =~= ab);
    assert(config::digits_in(s1.skip(1)) == abcd);
    assert(config::digits_in(s2.skip(1)) == abcd);
    assert(config::digits_in(s3.skip(1)) == ab);
    assert(abcd.take(2) =~= ab);
    assert(abcd.skip(2) =~= empty.push(c).push(d));
    lemma_two_value(a, b);
    lemma_two_value(c, d);
    lemma_zulu();
}

proof fn lemma_two_value(a: char, b: char)
    ensures
        text::digits_value(Seq::<char>::empty().push(a).push(b)) == (a as int - 48) * 10 + (b as int
            - 48),
{
    let s = Seq::<char>::empty().push(a).push(b);
    assert(s.drop_last() =~= Seq::<char>::empty().push(a));
    assert(Seq::<char>::empty().push(a).drop_last() =~= Seq::<char>::empty());
    reveal_with_fuel(text::digits_value, 3);
}

proof fn lemma_zulu()
    ensures
        config::offset_of(seq!['Z']) == Ok::<int, ConfigIssue>(0),
        config::offset_of(seq!['z']) == Ok::<int, ConfigIssue>(0),
{
    reveal_strlit("z");
    text_laws::law_trimmed_fixed(seq!['Z'], Class::White);
    text_laws::law_trimmed_fixed(seq!['z'], Class::White);
    assert(text::ascii_lower(seq!['Z']) =~= text::ascii_lower("z"@));
    assert(text::ascii_lower(seq!['z']) =~= text::ascii_lower("z"@));
}

/// A text that begins with a sign and ends in a digit is read as it is, and is
/// none of the short forms but `+00:00`.
proof fn lemma_offset_text(s: Seq<char>)
    requires
        s.len() >= 3,
        s[0] == '+' || s[0] == '-',
        figure(s.last()),
    ensures
        text::trimmed(s, Class::White) == s,
        text::ascii_lower(s) != text::ascii_lower("z"@),
        s != "0"@,
        s == "+00:00"@ ==> s =~= seq!['+', '0', '0', ':', '0', '0'],
{
    reveal_strlit("z");
    reveal_strlit("0");
    reveal_strlit("+00:00");
    text_laws::law_trimmed_fixed(s, Class::White);
    assert(text::ascii_lower(s).len() == s.len());
    assert(text::ascii_lower("z"@).len() == 1);
}

/// An offset without a sign is refused.
pub proof fn law_offset_needs_sign(s: Seq<char>)
    requires
        s.len() >= 2,
        s[0] != '+' && s[0] != '-',
        !text::is_white(s[0]) && !text::is_white(s.last()),
    ensures
        config::offset_of(s) == Err::<int, ConfigIssue>(ConfigIssue::OffsetSign(s)),
{
    reveal_strlit("z");
    reveal_strlit("0");
    reveal_strlit("+00:00");
    text_laws::law_trimmed_fixed(s, Class::White);
    assert(text::ascii_lower(s).len() == s.len());
    assert(text::ascii_lower("z"@).len() == 1);
}

// ---------------------------------------------------------------------------
// Fields
// ---------------------------------------------------------------------------

/// The text of an option of the command line, else of the config file.
pub open spec fn given(a: Option<String>, b: Option<String>) -> Option<Seq<char>> {
    match a {
        Some(s) => Some(s@),
        None => match b {
            Some(s) => Some(s@),
            None => None,
        },
    }
}

/// What a resolved configuration holds, field by field: the option of the
/// command line, else the value of the config file, else the default.
pub proof fn law_fields(cli: Cli, file: FileConfig, m: ConfigModel)
    requires
        config::resolution(cli, file) == Ok::<ConfigModel, ConfigIssue>(m),
    ensures
        cli.source matches Some(s) && m.source == s@,
        given(cli.dest, file.dest) == Some(m.dest),
        m.dry_run == cli.dry_run,
        m.copy == cli.copy,
        m.link == cli.link,
        m.mode == (if cli.mode == Some(ModeArg::Video) {
            ModeArg::Video
        } else {
            ModeArg::Photo
        }),
        m.folder_template == (match given(cli.folder_template, file.folder_template) {
            Some(s) => s,
            None => "{YYYY}/{YYYY}-{MM}-{DD}"@,
        }),
        m.name_template == (match given(cli.name_template, file.name_template) {
            Some(s) => s,
            None => "{original}"@,
        }),
        m.journal == (match given(cli.journal, file.journal) {
            Some(s) => s,
            None => paths::joined(m.dest, ".shotsort-journal.jsonl"@),
        }),
        m.clean_empty_dirs <==> cli.clean_empty_dirs || file.clean_empty_dirs == Some(true),
        m.jobs as int == (match cli.jobs {
            Some(n) => if n >= 1 {
                n as int
            } else {
                1
            },
            None => match file.jobs {
                Some(n) => if n >= 1 {
                    n as int
                } else {
                    1
                },
                None => 1,
            },
        }),
        m.yes == cli.yes,
        m.quiet == cli.quiet,
        m.verbose == cli.verbose,
        m.manifest == (match cli.manifest {
            Some(s) => Some(s@),
            None => None,
        }),
        given(cli.tz_offset, file.tz_offset) is None ==> m.tz_offset is None,
        given(cli.tz_offset, file.tz_offset) matches Some(s) ==> exists|n: int| #[trigger]
            offset_is(s, n) && m.tz_offset == Some(n as i32),
{
    if given(cli.tz_offset, file.tz_offset) is Some {
        let s = given(cli.tz_offset, file.tz_offset)->0;
        assert(offset_is(s, config::offset_of(s)->Ok_0));
    }
}

/// Whether a text reads as an offset.
pub open spec fn offset_is(s: Seq<char>, n: int) -> bool {
    config::offset_of(s) == Ok::<int, ConfigIssue>(n)
}

/// What the policies of a configuration are: the option of the command line,
/// else what the word of the config file names, else the default: `exif`,
/// `unknown-folder`, `rename`, `name` and `auto`.
pub proof fn law_policies(cli: Cli, file: FileConfig, m: ConfigModel)
    requires
        config::resolution(cli, file) == Ok::<ConfigModel, ConfigIssue>(m),
    ensures
        m.date_source == (match cli.date_source {
            Some(x) => x,
            None => match file.date_source {
                Some(w) => match config::date_source_named(w@) {
                    Some(x) => x,
                    None => DateSourceArg::Exif,
                },
                None => DateSourceArg::Exif,
            },
        }),
        m.on_missing_date == (match cli.on_missing_date {
            Some(x) => x,
            None => match file.on_missing_date {
                Some(w) => match config::on_missing_named(w@) {
                    Some(x) => x,
                    None => OnMissingDateArg::UnknownFolder,
                },
                None => OnMissingDateArg::UnknownFolder,
            },
        }),
        m.on_conflict == (match cli.on_conflict {
            Some(x) => x,
            None => match file.on_conflict {
                Some(w) => match config::on_conflict_named(w@) {
                    Some(x) => x,
                    None => OnConflictArg::Rename,
                },
                None => OnConflictArg::Rename,
            },
        }),
        m.dedup == (match cli.dedup {
            Some(x) => x,
            None => match file.dedup {
                Some(w) => match config::dedup_named(w@) {
                    Some(x) => x,
                    None => DedupArg::Name,
                },
                None => DedupArg::Name,
            },
        }),
        m.verify == (match cli.verify {
            Some(x) => x,
            None => match file.verify {
                Some(w) => match config::verify_named(w@) {
                    Some(x) => x,
                    None => VerifyArg::Auto,
                },
                None => VerifyArg::Auto,
            },
        }),
{
}

/// What is selected: the types of the command line, else those of the config
/// file, where `all` and no types at all mean every kind; and the extensions
/// without leading dots, in lower case.
pub proof fn law_selection(cli: Cli, file: FileConfig, m: ConfigModel)
    requires
        config::resolution(cli, file) == Ok::<ConfigModel, ConfigIssue>(m),
    ensures
        cli.types matches Some(v) ==> m.kinds == (if v@.contains(TypeSel::All) {
            None
        } else {
            Some(v@)
        }),
        cli.types is None && file.types is None ==> m.kinds is None,
        cli.types is None ==> (file.types matches Some(v) ==> {
            &&& forall|i: int|
                0 <= i < v@.len() ==> config::type_named((#[trigger] v@[i])@) is Some
            &&& m.kinds is None <==> exists|i: int|
                0 <= i < v@.len() && config::type_named((#[trigger] v@[i])@) == Some(TypeSel::All)
            &&& m.kinds matches Some(k) ==> k.len() == v@.len() && forall|i: int|
                0 <= i < k.len() ==> config::type_named(v@[i]@) == Some(#[trigger] k[i])
        }),
        cli.ext is None && file.ext is None <==> m.ext_whitelist is None,
        m.ext_whitelist matches Some(w) ==> {
            let v = if cli.ext is Some {
                cli.ext->0@
            } else {
                file.ext->0@
            };
            w.len() == v.len() && forall|i: int|
                0 <= i < w.len() ==> #[trigger] w[i] == text::ascii_lower(
                    text::trim_left(v[i]@, Class::Dot),
                )
        },
{
    if cli.types is None {
        match file.types {
            Some(v) => {
                let all = text::views(v@);
                lemma_types(all);
                let k = config::types_named(all)->Ok_0;
                assert forall|i: int| 0 <= i < v@.len() implies config::type_named(
                    (#[trigger] v@[i])@,
                ) == Some(k[i]) by {
                    assert(all[i] == v@[i]@);
                }
                if k.contains(TypeSel::All) {
                    let i = choose|i: int| 0 <= i < k.len() && k[i] == TypeSel::All;
                    assert(config::type_named(v@[i]@) == Some(TypeSel::All));
                }
                if exists|i: int|
                    0 <= i < v@.len() && config::type_named((#[trigger] v@[i])@) == Some(
                        TypeSel::All,
                    ) {
                    let i = choose|i: int|
                        0 <= i < v@.len() && config::type_named((#[trigger] v@[i])@) == Some(
                            TypeSel::All,
                        );
                    assert(k[i] == TypeSel::All);
                }
            },
            None => {},
        }
    }
}

proof fn lemma_types(v: Seq<Seq<char>>)
    ensures
        config::types_named(v) matches Ok(k) ==> k.len() == v.len() && forall|i: int|
            0 <= i < v.len() ==> config::type_named(#[trigger] v[i]) == Some(k[i]),
    decreases v.len(),
{
    if v.len() > 0 {
        lemma_types(v.drop_last());
        match config::types_named(v) {
            Ok(k) => {
                let d = config::types_named(v.drop_last())->Ok_0;
                assert forall|i: int| 0 <= i < v.len() implies config::type_named(
                    #[trigger] v[i],
                ) == Some(k[i]) by {
                    if i < d.len() {
                        assert(v.drop_last()[i] == v[i]);
                    }
                }
            },
            Err(_) => {},
        }
    }
}

/// A configuration is refused exactly where something is missing or cannot be
/// read: the source, the destination, a type word, the offset.
pub proof fn law_refusals(cli: Cli, file: FileConfig)
    ensures
        cli.source is None ==> config::resolution(cli, file) == Err::<ConfigModel, ConfigIssue>(
            ConfigIssue::MissingSource,
        ),
        cli.source is Some && cli.dest is None && file.dest is None ==> config::resolution(cli, file)
            == Err::<ConfigModel, ConfigIssue>(ConfigIssue::MissingDest),
        cli.source is Some && given(cli.dest, file.dest) is Some && file.types is None && given(
            cli.tz_offset,
            file.tz_offset,
        ) is None ==> config::resolution(cli, file) is Ok,
{
}

/// A run copies where `--copy` is given or clips are organized.
pub proof fn law_copies(c: ConfigModel)
    ensures
        config::copies(c) <==> c.copy || c.mode == ModeArg::Video,
{
}

/// An offset that has neither two nor four digits is refused.
pub proof fn law_offset_shape(sign: char, d: Seq<char>)
    requires
        sign == '+' || sign == '-',
        forall|i: int| 0 <= i < d.len() ==> figure(#[trigger] d[i]),
        d.len() > 0,
        d.len() != 2 && d.len() != 4,
    ensures
        config::offset_of(seq![sign] + d) == Err::<int, ConfigIssue>(
            ConfigIssue::OffsetShape(seq![sign] + d),
        ),
{
    reveal_strlit("z");
    reveal_strlit("0");
    reveal_strlit("+00:00");
    let s = seq![sign] + d;
    text_laws::law_trimmed_fixed(s, Class::White);
    assert(text::ascii_lower(s).len() == s.len());
    assert(text::ascii_lower("z"@).len() == 1);
    assert(s.skip(1) =~= d);
    lemma_all_digits_in(d);
    assert(s != "+00:00"@) by {
        if s == "+00:00"@ {
            assert(s[3] == ':');
            assert(d[2] == ':');
        }
    }
}

proof fn lemma_all_digits_in(d: Seq<char>)
    requires
        forall|i: int| 0 <= i < d.len() ==> figure(#[trigger] d[i]),
    ensures
        config::digits_in(d) == d,
    decreases d.len(),
{
    if d.len() > 0 {
        let t = d.drop_last();
        assert forall|i: int| 0 <= i < t.len() implies figure(#[trigger] t[i]) by {
            assert(t[i] == d[i]);
        }
        lemma_all_digits_in(t);
        lemma_digits_push(t, d.last());
        assert(t.push(d.last()) =~= d);
    }
}

/// A type word of the config file that means nothing is refused, whatever the
/// command line selects: the first such word is told, blanks and case aside.
pub proof fn law_unknown_type(cli: Cli, file: FileConfig, i: int)
    requires
        cli.source is Some,
        given(cli.dest, file.dest) is Some,
        file.types is Some,
        0 <= i < file.types->0@.len(),
        config::type_named(file.types->0@[i]@) is None,
        forall|j: int| 0 <= j < i ==> config::type_named((#[trigger] file.types->0@[j])@) is Some,
    ensures
        config::resolution(cli, file) matches Err(ConfigIssue::UnknownType(w)) && says(
            file.types->0@[i]@,
            w,
        ),
{
    let all = text::views(file.types->0@);
    assert(all[i] == file.types->0@[i]@);
    assert forall|j: int| 0 <= j < i implies config::type_named(#[trigger] all[j]) is Some by {
        assert(all[j] == file.types->0@[j]@);
    }
    lemma_first_unknown(all, i);
    lemma_says(all[i], config::word(all[i]));
}

proof fn lemma_first_unknown(v: Seq<Seq<char>>, i: int)
    requires
        0 <= i < v.len(),
        config::type_named(v[i]) is None,
        forall|j: int| 0 <= j < i ==> config::type_named(#[trigger] v[j]) is Some,
    ensures
        config::types_named(v) == Err::<Seq<TypeSel>, ConfigIssue>(
            ConfigIssue::UnknownType(config::word(v[i])),
        ),
    decreases v.len(),
{
    let t = v.drop_last();
    if i < t.len() {
        assert forall|j: int| 0 <= j < i implies config::type_named(#[trigger] t[j]) is Some by {
            assert(t[j] == v[j]);
        }
        lemma_first_unknown(t, i);
    } else {
        assert forall|j: int| 0 <= j < t.len() implies config::type_named(
            #[trigger] t[j],
        ) is Some by {
            assert(t[j] == v[j]);
        }
        lemma_all_known(t);
    }
}

proof fn lemma_all_known(v: Seq<Seq<char>>)
    requires
        forall|j: int| 0 <= j < v.len() ==> config::type_named(#[trigger] v[j]) is Some,
    ensures
        config::types_named(v) is Ok,
    decreases v.len(),
{
    if v.len() > 0 {
        let t = v.drop_last();
        assert forall|j: int| 0 <= j < t.len() implies config::type_named(
            #[trigger] t[j],
        ) is Some by {
            assert(t[j] == v[j]);
        }
        lemma_all_known(t);
        assert(config::type_named(v[v.len() - 1]) is Some);
    }
}

/// What the user is told of a configuration that cannot be resolved.
pub proof fn law_issue_told(s: Seq<char>)
    ensures
        config::issue_text(ConfigIssue::MissingSource)
            == "missing SOURCE directory (e.g. /Volumes/SONY/DCIM)"@,
        config::issue_text(ConfigIssue::MissingDest)
            == "missing --dest (in-card destination root)"@,
        config::issue_text(ConfigIssue::UnknownType(s)) == "unknown type in config: "@ + s,
        config::issue_text(ConfigIssue::OffsetSign(s)) == "tz-offset must start with + or - (got "@
            + text::quoted(s) + ")"@,
        config::issue_text(ConfigIssue::OffsetShape(s))
            == "tz-offset must look like +08:00 or -0530 (got "@ + text::quoted(s) + ")"@,
        config::issue_text(ConfigIssue::OffsetRange) == "tz-offset out of range"@,
{
}

} // verus!
