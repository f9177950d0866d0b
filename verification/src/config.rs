//! The config file's values, and their merge with the command line into a
//! fully-resolved [`RunConfig`].
//!
//! Precedence: command-line option > config file value > built-in default.

use vstd::prelude::*;

use crate::cli::{
    Cli, DateSourceArg, DedupArg, ModeArg, OnConflictArg, OnMissingDateArg, TypeSel, VerifyArg,
};
use crate::filetype;
use crate::paths;
use crate::text;
use crate::text::Class;
use crate::types;

verus! {

/// The values of the optional `shotsort.toml` file. Every field is optional so
/// it can be partially specified.
#[derive(Debug)]
pub struct FileConfig {
    pub dest: Option<String>,
    pub types: Option<Vec<String>>,
    pub ext: Option<Vec<String>>,
    pub folder_template: Option<String>,
    pub name_template: Option<String>,
    pub date_source: Option<String>,
    pub on_missing_date: Option<String>,
    pub on_conflict: Option<String>,
    pub dedup: Option<String>,
    pub verify: Option<String>,
    pub clean_empty_dirs: Option<bool>,
    pub journal: Option<String>,
    pub jobs: Option<usize>,
    pub tz_offset: Option<String>,
}

impl Default for FileConfig {
    fn default() -> (r: FileConfig)
        ensures
            r == (FileConfig {
                dest: None,
                types: None,
                ext: None,
                folder_template: None,
                name_template: None,
                date_source: None,
                on_missing_date: None,
                on_conflict: None,
                dedup: None,
                verify: None,
                clean_empty_dirs: None,
                journal: None,
                jobs: None,
                tz_offset: None,
            }),
    {
        FileConfig {
            dest: None,
            types: None,
            ext: None,
            folder_template: None,
            name_template: None,
            date_source: None,
            on_missing_date: None,
            on_conflict: None,
            dedup: None,
            verify: None,
            clean_empty_dirs: None,
            journal: None,
            jobs: None,
            tz_offset: None,
        }
    }
}

/// Final, resolved configuration for an organize run.
#[derive(Debug)]
pub struct RunConfig {
    pub source: String,
    pub dest: String,
    pub dry_run: bool,
    pub copy: bool,
    pub link: bool,
    pub mode: ModeArg,
    /// `None` means "every recognized media kind".
    pub kinds: Option<Vec<TypeSel>>,
    pub ext_whitelist: Option<Vec<String>>,
    pub folder_template: String,
    pub name_template: String,
    pub date_source: DateSourceArg,
    pub on_missing_date: OnMissingDateArg,
    pub on_conflict: OnConflictArg,
    pub dedup: DedupArg,
    pub verify: VerifyArg,
    pub clean_empty_dirs: bool,
    pub journal: String,
    pub jobs: usize,
    pub manifest: Option<String>,
    /// Seconds east of UTC.
    pub tz_offset: Option<i32>,
    pub yes: bool,
    pub quiet: bool,
    pub verbose: bool,
}

/// The model of a [`RunConfig`].
#[verifier::ext_equal]
pub struct ConfigModel {
    pub source: Seq<char>,
    pub dest: Seq<char>,
    pub dry_run: bool,
    pub copy: bool,
    pub link: bool,
    pub mode: ModeArg,
    pub kinds: Option<Seq<TypeSel>>,
    pub ext_whitelist: Option<Seq<Seq<char>>>,
    pub folder_template: Seq<char>,
    pub name_template: Seq<char>,
    pub date_source: DateSourceArg,
    pub on_missing_date: OnMissingDateArg,
    pub on_conflict: OnConflictArg,
    pub dedup: DedupArg,
    pub verify: VerifyArg,
    pub clean_empty_dirs: bool,
    pub journal: Seq<char>,
    pub jobs: usize,
    pub manifest: Option<Seq<char>>,
    pub tz_offset: Option<i32>,
    pub yes: bool,
    pub quiet: bool,
    pub verbose: bool,
}

/// The views of an optional list of strings.
pub open spec fn opt_views(v: Option<Vec<String>>) -> Option<Seq<Seq<char>>> {
    match v {
        Some(w) => Some(text::views(w@)),
        None => None,
    }
}

impl View for RunConfig {
    type V = ConfigModel;

    open spec fn view(&self) -> ConfigModel {
        ConfigModel {
            source: self.source@,
            dest: self.dest@,
            dry_run: self.dry_run,
            copy: self.copy,
            link: self.link,
            mode: self.mode,
            kinds: filetype::opt_seq(self.kinds),
            ext_whitelist: opt_views(self.ext_whitelist),
            folder_template: self.folder_template@,
            name_template: self.name_template@,
            date_source: self.date_source,
            on_missing_date: self.on_missing_date,
            on_conflict: self.on_conflict,
            dedup: self.dedup,
            verify: self.verify,
            clean_empty_dirs: self.clean_empty_dirs,
            journal: self.journal@,
            jobs: self.jobs,
            manifest: types::opt_view(self.manifest),
            tz_offset: self.tz_offset,
            yes: self.yes,
            quiet: self.quiet,
            verbose: self.verbose,
        }
    }
}

pub const DEFAULT_FOLDER_TEMPLATE: &'static str = "{YYYY}/{YYYY}-{MM}-{DD}";

pub const DEFAULT_NAME_TEMPLATE: &'static str = "{original}";

pub const JOURNAL_BASENAME: &'static str = ".shotsort-journal.jsonl";

// ---------------------------------------------------------------------------
// Errors
// ---------------------------------------------------------------------------

/// Why a configuration cannot be resolved.
#[derive(Debug)]
pub enum ConfigError {
    MissingSource,
    MissingDest,
    /// A type in the config file that is none of the known ones.
    UnknownType(String),
    /// A time-zone offset without a sign.
    OffsetSign(String),
    /// A time-zone offset without two or four digits.
    OffsetShape(String),
    /// A time-zone offset of a day or more.
    OffsetRange,
}

/// The model of a [`ConfigError`].
#[verifier::ext_equal]
pub enum ConfigIssue {
    MissingSource,
    MissingDest,
    UnknownType(Seq<char>),
    OffsetSign(Seq<char>),
    OffsetShape(Seq<char>),
    OffsetRange,
}

impl View for ConfigError {
    type V = ConfigIssue;

    open spec fn view(&self) -> ConfigIssue {
        match self {
            ConfigError::MissingSource => ConfigIssue::MissingSource,
            ConfigError::MissingDest => ConfigIssue::MissingDest,
            ConfigError::UnknownType(s) => ConfigIssue::UnknownType(s@),
            ConfigError::OffsetSign(s) => ConfigIssue::OffsetSign(s@),
            ConfigError::OffsetShape(s) => ConfigIssue::OffsetShape(s@),
            ConfigError::OffsetRange => ConfigIssue::OffsetRange,
        }
    }
}

/// What the user is told of a configuration that cannot be resolved.
pub open spec fn issue_text(e: ConfigIssue) -> Seq<char> {
    match e {
        ConfigIssue::MissingSource => "missing SOURCE directory (e.g. /Volumes/SONY/DCIM)"@,
        ConfigIssue::MissingDest => "missing --dest (in-card destination root)"@,
        ConfigIssue::UnknownType(s) => "unknown type in config: "@ + s,
        ConfigIssue::OffsetSign(s) => "tz-offset must start with + or - (got "@ + text::quoted(s)
            + ")"@,
        ConfigIssue::OffsetShape(s) => "tz-offset must look like +08:00 or -0530 (got "@
            + text::quoted(s) + ")"@,
        ConfigIssue::OffsetRange => "tz-offset out of range"@,
    }
}

impl ConfigError {
    /// What the user is told.
    pub fn message(&self) -> (r: String)
        ensures
            r@ == issue_text(self@),
    {
        match self {
            ConfigError::MissingSource => {
                "missing SOURCE directory (e.g. /Volumes/SONY/DCIM)".to_owned()
            },
            ConfigError::MissingDest => "missing --dest (in-card destination root)".to_owned(),
            ConfigError::UnknownType(s) => {
                let mut r: String = "unknown type in config: ".to_owned();
                r.append(s.as_str());
                r
            },
            ConfigError::OffsetSign(s) => {
                let mut r: String = "tz-offset must start with + or - (got ".to_owned();
                r.append(text::quote(s.as_str()).as_str());
                r.append(")");
                r
            },
            ConfigError::OffsetShape(s) => {
                let mut r: String = "tz-offset must look like +08:00 or -0530 (got ".to_owned();
                r.append(text::quote(s.as_str()).as_str());
                r.append(")");
                r
            },
            ConfigError::OffsetRange => "tz-offset out of range".to_owned(),
        }
    }
}

// ---------------------------------------------------------------------------
// Words of the config file
// ---------------------------------------------------------------------------

/// A word of the config file without blanks around it, in lower case.
pub open spec fn word(s: Seq<char>) -> Seq<char> {
    text::ascii_lower(text::trimmed(s, Class::White))
}

fn to_word(s: &str) -> (r: String)
    ensures
        r@ == word(s@),
{
    text::to_ascii_lower(text::trim_white(s).as_str())
}

/// The type that a word names.
pub open spec fn type_named(s: Seq<char>) -> Option<TypeSel> {
    let w = word(s);
    if w == "raw"@ {
        Some(TypeSel::Raw)
    } else if w == "jpeg"@ || w == "jpg"@ {
        Some(TypeSel::Jpeg)
    } else if w == "video"@ {
        Some(TypeSel::Video)
    } else if w == "all"@ {
        Some(TypeSel::All)
    } else {
        None
    }
}

/// The type that a word of the config file names.
pub fn parse_type(s: &str) -> (r: Result<TypeSel, ConfigError>)
    ensures
        match r {
            Ok(t) => type_named(s@) == Some(t),
            Err(e) => type_named(s@) is None && e@ == ConfigIssue::UnknownType(word(s@)),
        },
{
    let w: String = to_word(s);
    let k: &str = w.as_str();
    if text::same(k, "raw") {
        Ok(TypeSel::Raw)
    } else if text::same(k, "jpeg") || text::same(k, "jpg") {
        Ok(TypeSel::Jpeg)
    } else if text::same(k, "video") {
        Ok(TypeSel::Video)
    } else if text::same(k, "all") {
        Ok(TypeSel::All)
    } else {
        Err(ConfigError::UnknownType(w))
    }
}

/// The date source that a word names.
pub open spec fn date_source_named(s: Seq<char>) -> Option<DateSourceArg> {
    let w = word(s);
    if w == "exif"@ {
        Some(DateSourceArg::Exif)
    } else if w == "mtime"@ {
        Some(DateSourceArg::Mtime)
    } else if w == "exif-then-mtime"@ {
        Some(DateSourceArg::ExifThenMtime)
    } else {
        None
    }
}

/// The date source that a word of the config file names.
pub fn parse_date_source(s: &str) -> (r: Option<DateSourceArg>)
    ensures
        r == date_source_named(s@),
{
    let w: String = to_word(s);
    let k: &str = w.as_str();
    if text::same(k, "exif") {
        Some(DateSourceArg::Exif)
    } else if text::same(k, "mtime") {
        Some(DateSourceArg::Mtime)
    } else if text::same(k, "exif-then-mtime") {
        Some(DateSourceArg::ExifThenMtime)
    } else {
        None
    }
}

/// The answer to a missing date that a word names.
pub open spec fn on_missing_named(s: Seq<char>) -> Option<OnMissingDateArg> {
    let w = word(s);
    if w == "skip"@ {
        Some(OnMissingDateArg::Skip)
    } else if w == "mtime"@ {
        Some(OnMissingDateArg::Mtime)
    } else if w == "unknown-folder"@ {
        Some(OnMissingDateArg::UnknownFolder)
    } else {
        None
    }
}

/// The answer to a missing date that a word of the config file names.
pub fn parse_on_missing(s: &str) -> (r: Option<OnMissingDateArg>)
    ensures
        r == on_missing_named(s@),
{
    let w: String = to_word(s);
    let k: &str = w.as_str();
    if text::same(k, "skip") {
        Some(OnMissingDateArg::Skip)
    } else if text::same(k, "mtime") {
        Some(OnMissingDateArg::Mtime)
    } else if text::same(k, "unknown-folder") {
        Some(OnMissingDateArg::UnknownFolder)
    } else {
        None
    }
}

/// The answer to a conflict that a word names.
pub open spec fn on_conflict_named(s: Seq<char>) -> Option<OnConflictArg> {
    let w = word(s);
    if w == "rename"@ {
        Some(OnConflictArg::Rename)
    } else if w == "skip"@ {
        Some(OnConflictArg::Skip)
    } else if w == "overwrite"@ {
        Some(OnConflictArg::Overwrite)
    } else {
        None
    }
}

/// The answer to a conflict that a word of the config file names.
pub fn parse_on_conflict(s: &str) -> (r: Option<OnConflictArg>)
    ensures
        r == on_conflict_named(s@),
{
    let w: String = to_word(s);
    let k: &str = w.as_str();
    if text::same(k, "rename") {
        Some(OnConflictArg::Rename)
    } else if text::same(k, "skip") {
        Some(OnConflictArg::Skip)
    } else if text::same(k, "overwrite") {
        Some(OnConflictArg::Overwrite)
    } else {
        None
    }
}

/// The duplicate test that a word names.
pub open spec fn dedup_named(s: Seq<char>) -> Option<DedupArg> {
    let w = word(s);
    if w == "name"@ {
        Some(DedupArg::Name)
    } else if w == "hash"@ {
        Some(DedupArg::Hash)
    } else if w == "off"@ {
        Some(DedupArg::Off)
    } else {
        None
    }
}

/// The duplicate test that a word of the config file names.
pub fn parse_dedup(s: &str) -> (r: Option<DedupArg>)
    ensures
        r == dedup_named(s@),
{
    let w: String = to_word(s);
    let k: &str = w.as_str();
    if text::same(k, "name") {
        Some(DedupArg::Name)
    } else if text::same(k, "hash") {
        Some(DedupArg::Hash)
    } else if text::same(k, "off") {
        Some(DedupArg::Off)
    } else {
        None
    }
}

/// The verification level that a word names.
pub open spec fn verify_named(s: Seq<char>) -> Option<VerifyArg> {
    let w = word(s);
    if w == "auto"@ {
        Some(VerifyArg::Auto)
    } else if w == "size"@ {
        Some(VerifyArg::Size)
    } else if w == "hash"@ {
        Some(VerifyArg::Hash)
    } else if w == "off"@ {
        Some(VerifyArg::Off)
    } else {
        None
    }
}

/// The verification level that a word of the config file names.
pub fn parse_verify(s: &str) -> (r: Option<VerifyArg>)
    ensures
        r == verify_named(s@),
{
    let w: String = to_word(s);
    let k: &str = w.as_str();
    if text::same(k, "auto") {
        Some(VerifyArg::Auto)
    } else if text::same(k, "size") {
        Some(VerifyArg::Size)
    } else if text::same(k, "hash") {
        Some(VerifyArg::Hash)
    } else if text::same(k, "off") {
        Some(VerifyArg::Off)
    } else {
        None
    }
}

// ---------------------------------------------------------------------------
// Time-zone offsets
// ---------------------------------------------------------------------------

/// The ASCII digits of a text, in order.
pub open spec fn digits_in(s: Seq<char>) -> Seq<char>
    decreases s.len(),
{
    if s.len() == 0 {
        s
    } else if text::is_digit(s.last()) {
        digits_in(s.drop_last()).push(s.last())
    } else {
        digits_in(s.drop_last())
    }
}

/// The seconds that the digits of an offset stand for: hours, then minutes
/// where there are four digits.
pub open spec fn offset_size(d: Seq<char>) -> int {
    if d.len() == 2 {
        text::digits_value(d) * 3600
    } else {
        text::digits_value(d.take(2)) * 3600 + text::digits_value(d.skip(2)) * 60
    }
}

/// The seconds east of UTC that an offset stands for.
pub open spec fn offset_of(s: Seq<char>) -> Result<int, ConfigIssue> {
    let t = text::trimmed(s, Class::White);
    if text::ascii_lower(t) == text::ascii_lower("z"@) || t == "+00:00"@ || t == "0"@ {
        Ok(0)
    } else if t.len() == 0 || (t[0] != '+' && t[0] != '-') {
        Err(ConfigIssue::OffsetSign(t))
    } else {
        let d = digits_in(t.skip(1));
        if d.len() != 2 && d.len() != 4 {
            Err(ConfigIssue::OffsetShape(t))
        } else if offset_size(d) >= 86400 {
            Err(ConfigIssue::OffsetRange)
        } else if t[0] == '+' {
            Ok(offset_size(d))
        } else {
            Ok(-offset_size(d))
        }
    }
}

/// The digits of the characters from `from` on.
fn pick_digits(v: &Vec<char>, from: usize) -> (r: Vec<char>)
    requires
        from <= v@.len(),
    ensures
        r@ == digits_in(v@.skip(from as int)),
        text::all_digits(r@),
{
    let mut r: Vec<char> = Vec::new();
    let ghost s = v@.skip(from as int);
    let mut i: usize = from;
    while i < v.len()
        invariant
            from <= i <= v@.len(),
            s == v@.skip(from as int),
            r@ == digits_in(s.take(i - from)),
            text::all_digits(r@),
        decreases v@.len() - i,
    {
        let c: char = v[i];
        proof {
            let t = s.take(i + 1 - from);
            assert(t.drop_last() =~= s.take(i - from));
            assert(t.last() == c);
        }
        if '0' <= c && c <= '9' {
            r.push(c);
        }
        i = i + 1;
    }
    proof {
        assert(s.take(s.len() as int) =~= s);
    }
    r
}

/// The number that two digits stand for.
fn two_digit_value(v: &Vec<char>, at: usize) -> (r: i32)
    requires
        at + 2 <= v@.len(),
        text::all_digits(v@),
    ensures
        r == text::digits_value(v@.subrange(at as int, at + 2)),
        0 <= r < 100,
{
    proof {
        let s = v@.subrange(at as int, at + 2);
        reveal_with_fuel(text::digits_value, 3);
        assert(s.drop_last().drop_last() =~= Seq::<char>::empty());
        assert(s.drop_last().last() == v@[at as int]);
        assert(s.last() == v@[at + 1]);
    }
    let n: usize = v.len();
    let a: i32 = (v[at] as u32 - 48) as i32;
    let next: usize = at + 1;
    let b: i32 = (v[next] as u32 - 48) as i32;
    a * 10 + b
}

/// Parse `+08:00` / `-0530` / `Z` into seconds east of UTC.
pub fn parse_tz_offset(s: &str) -> (r: Result<i32, ConfigError>)
    ensures
        match r {
            Ok(n) => offset_of(s@) == Ok::<int, ConfigIssue>(n as int) && -86400 < n < 86400,
            Err(e) => offset_of(s@) == Err::<int, ConfigIssue>(e@),
        },
{
    let t: String = text::trim_white(s);
    let k: &str = t.as_str();
    if text::eq_ignore_case(k, "z") || text::same(k, "+00:00") || text::same(k, "0") {
        return Ok(0);
    }
    let v: Vec<char> = text::chars_of(k);
    if v.len() == 0 || (v[0] != '+' && v[0] != '-') {
        return Err(ConfigError::OffsetSign(t));
    }
    let d: Vec<char> = pick_digits(&v, 1);
    if d.len() != 2 && d.len() != 4 {
        return Err(ConfigError::OffsetShape(t));
    }
    let h: i32 = two_digit_value(&d, 0);
    let m: i32 = if d.len() == 4 {
        two_digit_value(&d, 2)
    } else {
        0
    };
    proof {
        assert(d@.len() == 2 ==> d@.subrange(0, 2) =~= d@);
        assert(d@.len() == 4 ==> d@.take(2) =~= d@.subrange(0, 2));
        assert(d@.len() == 4 ==> d@.skip(2) =~= d@.subrange(2, 4));
    }
    let size: i32 = h * 3600 + m * 60;
    if size >= 86400 {
        Err(ConfigError::OffsetRange)
    } else if v[0] == '+' {
        Ok(size)
    } else {
        Ok(-size)
    }
}

// ---------------------------------------------------------------------------
// Resolving
// ---------------------------------------------------------------------------

/// The types that a list of words names, or the first word that names none.
pub open spec fn types_named(v: Seq<Seq<char>>) -> Result<Seq<TypeSel>, ConfigIssue>
    decreases v.len(),
{
    if v.len() == 0 {
        Ok(Seq::empty())
    } else {
        match types_named(v.drop_last()) {
            Err(e) => Err(e),
            Ok(done) => match type_named(v.last()) {
                None => Err(ConfigIssue::UnknownType(word(v.last()))),
                Some(t) => Ok(done.push(t)),
            },
        }
    }
}

/// The kinds to organize, `None` for all of them. The command line wins, but
/// the config file's words are read all the same.
pub open spec fn chosen_kinds(
    from_cli: Option<Seq<TypeSel>>,
    from_file: Option<Seq<Seq<char>>>,
) -> Result<Option<Seq<TypeSel>>, ConfigIssue> {
    let file: Result<Option<Seq<TypeSel>>, ConfigIssue> = match from_file {
        None => Ok(None),
        Some(v) => match types_named(v) {
            Ok(t) => Ok(Some(t)),
            Err(e) => Err(e),
        },
    };
    match file {
        Err(e) => Err(e),
        Ok(f) => {
            let sel = if from_cli is Some {
                from_cli
            } else {
                f
            };
            if sel is Some && sel->0.contains(TypeSel::All) {
                Ok(None)
            } else {
                Ok(sel)
            }
        },
    }
}

fn parse_types(v: &Vec<String>) -> (r: Result<Vec<TypeSel>, ConfigError>)
    ensures
        match r {
            Ok(t) => types_named(text::views(v@)) == Ok::<Seq<TypeSel>, ConfigIssue>(t@),
            Err(e) => types_named(text::views(v@)) == Err::<Seq<TypeSel>, ConfigIssue>(e@),
        },
{
    let mut out: Vec<TypeSel> = Vec::new();
    let mut i: usize = 0;
    let ghost all = text::views(v@);
    proof {
        assert(all.take(0) =~= Seq::<Seq<char>>::empty());
    }
    while i < v.len()
        invariant
            i <= v@.len(),
            all == text::views(v@),
            types_named(all.take(i as int)) == Ok::<Seq<TypeSel>, ConfigIssue>(out@),
        decreases v@.len() - i,
    {
        proof {
            assert(all.take(i + 1).drop_last() =~= all.take(i as int));
        }
        match parse_type(v[i].as_str()) {
            Ok(t) => out.push(t),
            Err(e) => {
                proof {
                    lemma_types_named_error(all, i + 1);
                }
                return Err(e);
            },
        }
        i = i + 1;
    }
    proof {
        assert(all.take(all.len() as int) =~= all);
    }
    Ok(out)
}

proof fn lemma_types_named_error(v: Seq<Seq<char>>, n: int)
    requires
        0 <= n <= v.len(),
        types_named(v.take(n)) is Err,
    ensures
        types_named(v) == types_named(v.take(n)),
    decreases v.len(),
{
    if n == v.len() {
        assert(v.take(n) =~= v);
    } else {
        assert(v.drop_last().take(n) =~= v.take(n));
        lemma_types_named_error(v.drop_last(), n);
    }
}

fn copy_types(v: &Vec<TypeSel>) -> (r: Vec<TypeSel>)
    ensures
        r@ == v@,
{
    let mut out: Vec<TypeSel> = Vec::new();
    let mut i: usize = 0;
    while i < v.len()
        invariant
            i <= v@.len(),
            out@ == v@.take(i as int),
        decreases v@.len() - i,
    {
        out.push(v[i]);
        i = i + 1;
    }
    proof {
        assert(v@.take(v@.len() as int) =~= v@);
    }
    out
}

fn has_all(v: &Vec<TypeSel>) -> (r: bool)
    ensures
        r == v@.contains(TypeSel::All),
{
    let mut i: usize = 0;
    while i < v.len()
        invariant
            i <= v@.len(),
            forall|j: int| 0 <= j < i ==> v@[j] != TypeSel::All,
        decreases v@.len() - i,
    {
        if v[i] == TypeSel::All {
            return true;
        }
        i = i + 1;
    }
    false
}

/// The kinds to organize.
pub fn resolve_kinds(cli: &Cli, file_cfg: &FileConfig) -> (r: Result<
    Option<Vec<TypeSel>>,
    ConfigError,
>)
    ensures
        match r {
            Ok(k) => chosen_kinds(filetype::opt_seq(cli.types), opt_views(file_cfg.types)) == Ok::<
                Option<Seq<TypeSel>>,
                ConfigIssue,
            >(filetype::opt_seq(k)),
            Err(e) => chosen_kinds(filetype::opt_seq(cli.types), opt_views(file_cfg.types)) == Err::<
                Option<Seq<TypeSel>>,
                ConfigIssue,
            >(e@),
        },
{
    let from_file: Option<Vec<TypeSel>> = match &file_cfg.types {
        None => None,
        Some(v) => match parse_types(v) {
            Ok(t) => Some(t),
            Err(e) => return Err(e),
        },
    };
    let sel: Option<Vec<TypeSel>> = match &cli.types {
        Some(v) => Some(copy_types(v)),
        None => from_file,
    };
    match sel {
        None => Ok(None),
        Some(v) => if has_all(&v) {
            Ok(None)
        } else {
            Ok(Some(v))
        },
    }
}

/// Extensions without leading dots, in lower case.
pub open spec fn plain_exts(v: Seq<Seq<char>>) -> Seq<Seq<char>> {
    Seq::new(v.len(), |i: int| text::ascii_lower(text::trim_left(v[i], Class::Dot)))
}

fn clean_exts(v: &Vec<String>) -> (r: Vec<String>)
    ensures
        text::views(r@) == plain_exts(text::views(v@)),
{
    let mut out: Vec<String> = Vec::new();
    let mut i: usize = 0;
    while i < v.len()
        invariant
            i <= v@.len(),
            text::views(out@) == plain_exts(text::views(v@)).take(i as int),
        decreases v@.len() - i,
    {
        let e: String = text::string_of(
            &text::lower_chars(&text::drop_left(&text::chars_of(v[i].as_str()), Class::Dot)),
        );
        proof {
            text::lemma_views_push(out@, e);
            assert(plain_exts(text::views(v@)).take(i + 1) =~= plain_exts(text::views(v@)).take(
                i as int,
            ).push(e@));
        }
        out.push(e);
        i = i + 1;
    }
    proof {
        assert(plain_exts(text::views(v@)).take(v@.len() as int) =~= plain_exts(text::views(v@)));
    }
    out
}

/// The first of two values that is there, or a third.
pub open spec fn first_of<T>(a: Option<T>, b: Option<T>, c: T) -> T {
    match a {
        Some(x) => x,
        None => match b {
            Some(y) => y,
            None => c,
        },
    }
}

/// The first of two values that is there.
pub open spec fn either<T>(a: Option<T>, b: Option<T>) -> Option<T> {
    if a is Some {
        a
    } else {
        b
    }
}

/// The date source that the command line asks for, else the config file, else the
/// default. A word of the file that names none counts as absent.
pub open spec fn date_source_of(arg: Option<DateSourceArg>, file: Option<Seq<char>>) -> DateSourceArg {
    match (arg, file) {
        (Some(x), _) => x,
        (None, Some(s)) => first_of(date_source_named(s), None, DateSourceArg::Exif),
        (None, None) => DateSourceArg::Exif,
    }
}

fn pick_date_source(arg: Option<DateSourceArg>, file: &Option<String>) -> (r: DateSourceArg)
    ensures
        r == date_source_of(arg, types::opt_view(*file)),
{
    match arg {
        Some(x) => x,
        None => match file {
            Some(s) => match parse_date_source(s.as_str()) {
                Some(x) => x,
                None => DateSourceArg::Exif,
            },
            None => DateSourceArg::Exif,
        },
    }
}

/// The answer to a missing date that the command line asks for, else the config file, else the
/// default. A word of the file that names none counts as absent.
pub open spec fn on_missing_date_of(arg: Option<OnMissingDateArg>, file: Option<Seq<char>>) -> OnMissingDateArg {
    match (arg, file) {
        (Some(x), _) => x,
        (None, Some(s)) => first_of(on_missing_named(s), None, OnMissingDateArg::UnknownFolder),
        (None, None) => OnMissingDateArg::UnknownFolder,
    }
}

fn pick_on_missing_date(arg: Option<OnMissingDateArg>, file: &Option<String>) -> (r: OnMissingDateArg)
    ensures
        r == on_missing_date_of(arg, types::opt_view(*file)),
{
    match arg {
        Some(x) => x,
        None => match file {
            Some(s) => match parse_on_missing(s.as_str()) {
                Some(x) => x,
                None => OnMissingDateArg::UnknownFolder,
            },
            None => OnMissingDateArg::UnknownFolder,
        },
    }
}

/// The answer to a conflict that the command line asks for, else the config file, else the
/// default. A word of the file that names none counts as absent.
pub open spec fn on_conflict_of(arg: Option<OnConflictArg>, file: Option<Seq<char>>) -> OnConflictArg {
    match (arg, file) {
        (Some(x), _) => x,
        (None, Some(s)) => first_of(on_conflict_named(s), None, OnConflictArg::Rename),
        (None, None) => OnConflictArg::Rename,
    }
}

fn pick_on_conflict(arg: Option<OnConflictArg>, file: &Option<String>) -> (r: OnConflictArg)
    ensures
        r == on_conflict_of(arg, types::opt_view(*file)),
{
    match arg {
        Some(x) => x,
        None => match file {
            Some(s) => match parse_on_conflict(s.as_str()) {
                Some(x) => x,
                None => OnConflictArg::Rename,
            },
            None => OnConflictArg::Rename,
        },
    }
}

/// The duplicate test that the command line asks for, else the config file, else the
/// default. A word of the file that names none counts as absent.
pub open spec fn dedup_of(arg: Option<DedupArg>, file: Option<Seq<char>>) -> DedupArg {
    match (arg, file) {
        (Some(x), _) => x,
        (None, Some(s)) => first_of(dedup_named(s), None, DedupArg::Name),
        (None, None) => DedupArg::Name,
    }
}

fn pick_dedup(arg: Option<DedupArg>, file: &Option<String>) -> (r: DedupArg)
    ensures
        r == dedup_of(arg, types::opt_view(*file)),
{
    match arg {
        Some(x) => x,
        None => match file {
            Some(s) => match parse_dedup(s.as_str()) {
                Some(x) => x,
                None => DedupArg::Name,
            },
            None => DedupArg::Name,
        },
    }
}

/// The verification level that the command line asks for, else the config file, else the
/// default. A word of the file that names none counts as absent.
pub open spec fn verify_of(arg: Option<VerifyArg>, file: Option<Seq<char>>) -> VerifyArg {
    match (arg, file) {
        (Some(x), _) => x,
        (None, Some(s)) => first_of(verify_named(s), None, VerifyArg::Auto),
        (None, None) => VerifyArg::Auto,
    }
}

fn pick_verify(arg: Option<VerifyArg>, file: &Option<String>) -> (r: VerifyArg)
    ensures
        r == verify_of(arg, types::opt_view(*file)),
{
    match arg {
        Some(x) => x,
        None => match file {
            Some(s) => match parse_verify(s.as_str()) {
                Some(x) => x,
                None => VerifyArg::Auto,
            },
            None => VerifyArg::Auto,
        },
    }
}

/// The configuration made of the values that can be wrong, and of the other
/// ones: each comes from the command line, else from the file, else from the
/// built-in defaults.
pub open spec fn merged(
    cli: Cli,
    file: FileConfig,
    source: Seq<char>,
    dest: Seq<char>,
    kinds: Option<Seq<TypeSel>>,
    tz_offset: Option<i32>,
) -> ConfigModel {
    let jobs: usize = first_of(cli.jobs, file.jobs, 1);
    ConfigModel {
        source,
        dest,
        dry_run: cli.dry_run,
        copy: cli.copy,
        link: cli.link,
        mode: first_of(cli.mode, None, ModeArg::Photo),
        kinds,
        ext_whitelist: match either(opt_views(cli.ext), opt_views(file.ext)) {
            Some(v) => Some(plain_exts(v)),
            None => None,
        },
        folder_template: first_of(
            types::opt_view(cli.folder_template),
            types::opt_view(file.folder_template),
            DEFAULT_FOLDER_TEMPLATE@,
        ),
        name_template: first_of(
            types::opt_view(cli.name_template),
            types::opt_view(file.name_template),
            DEFAULT_NAME_TEMPLATE@,
        ),
        date_source: date_source_of(cli.date_source, types::opt_view(file.date_source)),
        on_missing_date: on_missing_date_of(cli.on_missing_date, types::opt_view(file.on_missing_date)),
        on_conflict: on_conflict_of(cli.on_conflict, types::opt_view(file.on_conflict)),
        dedup: dedup_of(cli.dedup, types::opt_view(file.dedup)),
        verify: verify_of(cli.verify, types::opt_view(file.verify)),
        clean_empty_dirs: cli.clean_empty_dirs || file.clean_empty_dirs == Some(true),
        journal: first_of(
            types::opt_view(cli.journal),
            types::opt_view(file.journal),
            paths::joined(dest, JOURNAL_BASENAME@),
        ),
        jobs: if jobs < 1 {
            1
        } else {
            jobs
        },
        manifest: types::opt_view(cli.manifest),
        tz_offset,
        yes: cli.yes,
        quiet: cli.quiet,
        verbose: cli.verbose,
    }
}

/// The time-zone offset of a configuration.
pub open spec fn chosen_offset(s: Option<Seq<char>>) -> Result<Option<i32>, ConfigIssue> {
    match s {
        None => Ok(None),
        Some(t) => match offset_of(t) {
            Ok(n) => Ok(Some(n as i32)),
            Err(e) => Err(e),
        },
    }
}

/// The configuration that a command line and a config file resolve to.
pub open spec fn resolution(cli: Cli, file: FileConfig) -> Result<ConfigModel, ConfigIssue> {
    let dest = either(types::opt_view(cli.dest), types::opt_view(file.dest));
    let kinds = chosen_kinds(filetype::opt_seq(cli.types), opt_views(file.types));
    let tz = chosen_offset(either(types::opt_view(cli.tz_offset), types::opt_view(file.tz_offset)));
    if cli.source is None {
        Err(ConfigIssue::MissingSource)
    } else if dest is None {
        Err(ConfigIssue::MissingDest)
    } else if kinds is Err {
        Err(kinds->Err_0)
    } else if tz is Err {
        Err(tz->Err_0)
    } else {
        Ok(merged(cli, file, cli.source->0@, dest->0, kinds->Ok_0, tz->Ok_0))
    }
}

fn pick_text(a: &Option<String>, b: &Option<String>) -> (r: Option<String>)
    ensures
        types::opt_view(r) == either(types::opt_view(*a), types::opt_view(*b)),
{
    match a {
        Some(s) => Some(s.clone()),
        None => types::opt_copy(b),
    }
}

fn text_or(a: Option<String>, default: &str) -> (r: String)
    ensures
        r@ == (match types::opt_view(a) {
            Some(s) => s,
            None => default@,
        }),
{
    match a {
        Some(s) => s,
        None => default.to_owned(),
    }
}

fn pick_exts(a: &Option<Vec<String>>, b: &Option<Vec<String>>) -> (r: Option<Vec<String>>)
    ensures
        opt_views(r) == (match either(opt_views(*a), opt_views(*b)) {
            Some(v) => Some(plain_exts(v)),
            None => None,
        }),
{
    match a {
        Some(v) => Some(clean_exts(v)),
        None => match b {
            Some(v) => Some(clean_exts(v)),
            None => None,
        },
    }
}

/// The time-zone offset of a run.
fn resolve_offset(cli: &Cli, file_cfg: &FileConfig) -> (r: Result<Option<i32>, ConfigError>)
    ensures
        ({
            let tz = chosen_offset(
                either(types::opt_view(cli.tz_offset), types::opt_view(file_cfg.tz_offset)),
            );
            match r {
                Ok(n) => tz == Ok::<Option<i32>, ConfigIssue>(n),
                Err(e) => tz == Err::<Option<i32>, ConfigIssue>(e@),
            }
        }),
{
    match pick_text(&cli.tz_offset, &file_cfg.tz_offset) {
        Some(s) => match parse_tz_offset(s.as_str()) {
            Ok(n) => Ok(Some(n)),
            Err(e) => Err(e),
        },
        None => Ok(None),
    }
}

/// Merges the values that cannot be wrong.
fn merge(
    cli: &Cli,
    file_cfg: &FileConfig,
    source: String,
    dest: String,
    kinds: Option<Vec<TypeSel>>,
    tz_offset: Option<i32>,
) -> (r: RunConfig)
    ensures
        r@ == merged(*cli, *file_cfg, source@, dest@, filetype::opt_seq(kinds), tz_offset),
{
    let date_source: DateSourceArg = pick_date_source(cli.date_source, &file_cfg.date_source);
    let on_missing_date: OnMissingDateArg = pick_on_missing_date(cli.on_missing_date, &file_cfg.on_missing_date);
    let on_conflict: OnConflictArg = pick_on_conflict(cli.on_conflict, &file_cfg.on_conflict);
    let dedup: DedupArg = pick_dedup(cli.dedup, &file_cfg.dedup);
    let verify: VerifyArg = pick_verify(cli.verify, &file_cfg.verify);
    let from_file: bool = match file_cfg.clean_empty_dirs {
        Some(b) => b,
        None => false,
    };
    let jobs: usize = match cli.jobs {
        Some(n) => n,
        None => match file_cfg.jobs {
            Some(n) => n,
            None => 1,
        },
    };
    let journal: String = text_or(
        pick_text(&cli.journal, &file_cfg.journal),
        paths::join(dest.as_str(), JOURNAL_BASENAME).as_str(),
    );
    RunConfig {
        source,
        dest,
        dry_run: cli.dry_run,
        copy: cli.copy,
        link: cli.link,
        mode: match cli.mode {
            Some(m) => m,
            None => ModeArg::Photo,
        },
        kinds,
        ext_whitelist: pick_exts(&cli.ext, &file_cfg.ext),
        folder_template: text_or(
            pick_text(&cli.folder_template, &file_cfg.folder_template),
            DEFAULT_FOLDER_TEMPLATE,
        ),
        name_template: text_or(
            pick_text(&cli.name_template, &file_cfg.name_template),
            DEFAULT_NAME_TEMPLATE,
        ),
        date_source,
        on_missing_date,
        on_conflict,
        dedup,
        verify,
        clean_empty_dirs: cli.clean_empty_dirs || from_file,
        journal,
        jobs: if jobs < 1 {
            1
        } else {
            jobs
        },
        manifest: types::opt_copy(&cli.manifest),
        tz_offset,
        yes: cli.yes,
        quiet: cli.quiet,
        verbose: cli.verbose,
    }
}

impl RunConfig {
    /// Build the resolved config from the command line and the config file's
    /// values (the default ones where there is no file).
    pub fn resolve(cli: &Cli, file_cfg: &FileConfig) -> (r: Result<RunConfig, ConfigError>)
        ensures
            match r {
                Ok(c) => resolution(*cli, *file_cfg) == Ok::<ConfigModel, ConfigIssue>(c@),
                Err(e) => resolution(*cli, *file_cfg) == Err::<ConfigModel, ConfigIssue>(e@),
            },
    {
        let source: String = match &cli.source {
            Some(s) => s.clone(),
            None => return Err(ConfigError::MissingSource),
        };
        let dest: String = match pick_text(&cli.dest, &file_cfg.dest) {
            Some(s) => s,
            None => return Err(ConfigError::MissingDest),
        };
        let kinds: Option<Vec<TypeSel>> = match resolve_kinds(cli, file_cfg) {
            Ok(k) => k,
            Err(e) => return Err(e),
        };
        let tz_offset: Option<i32> = match resolve_offset(cli, file_cfg) {
            Ok(t) => t,
            Err(e) => return Err(e),
        };
        Ok(merge(cli, file_cfg, source, dest, kinds, tz_offset))
    }

    /// Whether the run keeps its source files by copying: asked for, or implied
    /// by video mode.
    pub fn is_copy(&self) -> (r: bool)
        ensures
            r == copies(self@),
    {
        self.copy || self.mode == ModeArg::Video
    }
}

/// Whether a run copies: asked for, or implied by video mode.
pub open spec fn copies(c: ConfigModel) -> bool {
    c.copy || c.mode == ModeArg::Video
}

// ---------------------------------------------------------------------------
// Laws
// ---------------------------------------------------------------------------

/// A resolved offset is less than a day, so that it names a time zone, and a
/// run has at least one job.
pub proof fn law_resolution_bounds(cli: Cli, file: FileConfig)
    requires
        resolution(cli, file) is Ok,
    ensures
        resolution(cli, file)->Ok_0.jobs >= 1,
        resolution(cli, file)->Ok_0.tz_offset matches Some(n) ==> -86400 < n < 86400,
        resolution(cli, file)->Ok_0.kinds matches Some(k) ==> !k.contains(TypeSel::All),
{
    let tz = either(types::opt_view(cli.tz_offset), types::opt_view(file.tz_offset));
    if tz is Some {
        let t = text::trimmed(tz->0, Class::White);
        if t.len() > 0 {
            let d = digits_in(t.skip(1));
            lemma_digits_in(t.skip(1));
            if d.len() == 2 {
                text::lemma_digits_value_bound(d);
            } else if d.len() == 4 {
                text::lemma_digits_value_bound(d.take(2));
                text::lemma_digits_value_bound(d.skip(2));
            }
        }
    }
}

proof fn lemma_digits_in(s: Seq<char>)
    ensures
        text::all_digits(digits_in(s)),
    decreases s.len(),
{
    if s.len() > 0 {
        lemma_digits_in(s.drop_last());
    }
}

/// Whether every type word of a config file can be read.
pub open spec fn words_read(file: FileConfig) -> bool {
    opt_views(file.types) matches Some(v) ==> types_named(v) is Ok
}

/// The command line wins over the config file: what the file says matters only
/// where the command line gives nothing. The type words of the file are apart
/// from that: one that cannot be read is an error all the same.
pub proof fn law_command_line_wins(cli: Cli, file: FileConfig, other: FileConfig)
    requires
        words_read(file),
        words_read(other),
        cli.types is Some || opt_views(file.types) == opt_views(other.types),
        cli.dest is Some || types::opt_view(file.dest) == types::opt_view(other.dest),
        cli.ext is Some || opt_views(file.ext) == opt_views(other.ext),
        cli.folder_template is Some || types::opt_view(file.folder_template) == types::opt_view(
            other.folder_template,
        ),
        cli.name_template is Some || types::opt_view(file.name_template) == types::opt_view(
            other.name_template,
        ),
        cli.date_source is Some || types::opt_view(file.date_source) == types::opt_view(
            other.date_source,
        ),
        cli.on_missing_date is Some || types::opt_view(file.on_missing_date) == types::opt_view(
            other.on_missing_date,
        ),
        cli.on_conflict is Some || types::opt_view(file.on_conflict) == types::opt_view(
            other.on_conflict,
        ),
        cli.dedup is Some || types::opt_view(file.dedup) == types::opt_view(other.dedup),
        cli.verify is Some || types::opt_view(file.verify) == types::opt_view(other.verify),
        cli.clean_empty_dirs || file.clean_empty_dirs == other.clean_empty_dirs,
        cli.journal is Some || types::opt_view(file.journal) == types::opt_view(other.journal),
        cli.jobs is Some || file.jobs == other.jobs,
        cli.tz_offset is Some || types::opt_view(file.tz_offset) == types::opt_view(
            other.tz_offset,
        ),
    ensures
        resolution(cli, file) == resolution(cli, other),
{
    assert(either(types::opt_view(cli.dest), types::opt_view(file.dest)) == either(
        types::opt_view(cli.dest),
        types::opt_view(other.dest),
    ));
    assert(chosen_kinds(filetype::opt_seq(cli.types), opt_views(file.types)) == chosen_kinds(
        filetype::opt_seq(cli.types),
        opt_views(other.types),
    ));
    assert(either(types::opt_view(cli.tz_offset), types::opt_view(file.tz_offset)) == either(
        types::opt_view(cli.tz_offset),
        types::opt_view(other.tz_offset),
    ));
    if resolution(cli, file) is Ok {
        let m = resolution(cli, file)->Ok_0;
        let o = resolution(cli, other)->Ok_0;
        assert(m.ext_whitelist == o.ext_whitelist);
        assert(m.folder_template == o.folder_template);
        assert(m.name_template == o.name_template);
        assert(m.date_source == o.date_source);
        assert(m.on_missing_date == o.on_missing_date);
        assert(m.on_conflict == o.on_conflict);
        assert(m.dedup == o.dedup);
        assert(m.verify == o.verify);
        assert(m.clean_empty_dirs == o.clean_empty_dirs);
        assert(m.journal == o.journal);
        assert(m.jobs == o.jobs);
        assert(m == o);
    }
}

} // verus!
