use shotsort::cli::{
    Cli, DateSourceArg, DedupArg, ModeArg, OnConflictArg, OnMissingDateArg, TypeSel, VerifyArg,
};
use shotsort::config::{
    parse_date_source, parse_dedup, parse_on_conflict, parse_on_missing, parse_type,
    parse_tz_offset, parse_verify, ConfigError, FileConfig, RunConfig,
};

fn cli() -> Cli {
    Cli {
        source: Some("/card/DCIM".to_string()),
        dest: Some("/card/Organized".to_string()),
        dry_run: false,
        copy: false,
        link: false,
        mode: None,
        types: None,
        ext: None,
        folder_template: None,
        name_template: None,
        date_source: None,
        on_missing_date: None,
        on_conflict: None,
        dedup: None,
        verify: None,
        clean_empty_dirs: false,
        journal: None,
        jobs: None,
        manifest: None,
        config: None,
        tz_offset: None,
        yes: false,
        quiet: false,
        verbose: false,
        command: None,
    }
}

fn file() -> FileConfig {
    FileConfig::default()
}

fn some(s: &str) -> Option<String> {
    Some(s.to_string())
}

#[test]
fn defaults_are_filled_in() {
    let c = RunConfig::resolve(&cli(), &file()).unwrap();
    assert_eq!(c.source, "/card/DCIM");
    assert_eq!(c.dest, "/card/Organized");
    assert_eq!(c.folder_template, "{YYYY}/{YYYY}-{MM}-{DD}");
    assert_eq!(c.name_template, "{original}");
    assert_eq!(c.date_source, DateSourceArg::Exif);
    assert_eq!(c.on_missing_date, OnMissingDateArg::UnknownFolder);
    assert_eq!(c.on_conflict, OnConflictArg::Rename);
    assert_eq!(c.dedup, DedupArg::Name);
    assert_eq!(c.verify, VerifyArg::Auto);
    assert_eq!(c.mode, ModeArg::Photo);
    assert_eq!(c.journal, "/card/Organized/.shotsort-journal.jsonl");
    assert_eq!(c.jobs, 1);
    assert_eq!(c.kinds, None);
    assert_eq!(c.ext_whitelist, None);
    assert_eq!(c.tz_offset, None);
    assert!(!c.is_copy() && !c.clean_empty_dirs);
}

#[test]
fn the_file_fills_in_and_the_command_line_wins() {
    let mut f = file();
    f.dest = some("/card/FromFile");
    f.types = Some(vec!["raw".to_string(), " JPG ".to_string()]);
    f.name_template = some("{counter}");
    f.on_conflict = some("Overwrite");
    f.dedup = some("nonsense");
    f.verify = some("hash");
    f.jobs = Some(0);
    f.clean_empty_dirs = Some(true);
    f.tz_offset = some("+08:00");
    let mut c = cli();
    c.dest = None;
    let r = RunConfig::resolve(&c, &f).unwrap();
    assert_eq!(r.dest, "/card/FromFile");
    assert_eq!(r.journal, "/card/FromFile/.shotsort-journal.jsonl");
    assert_eq!(r.kinds, Some(vec![TypeSel::Raw, TypeSel::Jpeg]));
    assert_eq!(r.name_template, "{counter}");
    assert_eq!(r.on_conflict, OnConflictArg::Overwrite);
    // A word that names nothing counts as absent.
    assert_eq!(r.dedup, DedupArg::Name);
    assert_eq!(r.verify, VerifyArg::Hash);
    assert_eq!(r.jobs, 1);
    assert!(r.clean_empty_dirs);
    assert_eq!(r.tz_offset, Some(28800));

    let mut c = cli();
    c.name_template = some("{original}");
    c.on_conflict = Some(OnConflictArg::Skip);
    c.types = Some(vec![TypeSel::Video]);
    c.verify = Some(VerifyArg::Off);
    c.jobs = Some(4);
    c.tz_offset = some("-0530");
    let r = RunConfig::resolve(&c, &f).unwrap();
    assert_eq!(r.dest, "/card/Organized");
    assert_eq!(r.name_template, "{original}");
    assert_eq!(r.on_conflict, OnConflictArg::Skip);
    assert_eq!(r.kinds, Some(vec![TypeSel::Video]));
    assert_eq!(r.verify, VerifyArg::Off);
    assert_eq!(r.jobs, 4);
    assert_eq!(r.tz_offset, Some(-19800));
}

#[test]
fn extensions_lose_their_dots() {
    let mut c = cli();
    c.ext = Some(vec![".ARW".to_string(), "..Jpg".to_string(), "mp4".to_string()]);
    let r = RunConfig::resolve(&c, &file()).unwrap();
    assert_eq!(
        r.ext_whitelist,
        Some(vec!["arw".to_string(), "jpg".to_string(), "mp4".to_string()])
    );
}

#[test]
fn all_means_no_filter() {
    let mut c = cli();
    c.types = Some(vec![TypeSel::Raw, TypeSel::All]);
    assert_eq!(RunConfig::resolve(&c, &file()).unwrap().kinds, None);
}

#[test]
fn what_is_missing_or_wrong_is_named() {
    let mut c = cli();
    c.source = None;
    let e = RunConfig::resolve(&c, &file()).unwrap_err();
    assert!(matches!(e, ConfigError::MissingSource));
    assert_eq!(
        e.message(),
        "missing SOURCE directory (e.g. /Volumes/SONY/DCIM)"
    );
    let mut c = cli();
    c.dest = None;
    let e = RunConfig::resolve(&c, &file()).unwrap_err();
    assert!(matches!(e, ConfigError::MissingDest));
    // An unknown type in the file is an error even where the command line wins.
    let mut c = cli();
    c.types = Some(vec![TypeSel::Raw]);
    let mut f = file();
    f.types = Some(vec!["raw".to_string(), "Gif ".to_string()]);
    let e = RunConfig::resolve(&c, &f).unwrap_err();
    assert_eq!(e.message(), "unknown type in config: gif");
    let mut c = cli();
    c.tz_offset = some("08:00");
    let e = RunConfig::resolve(&c, &file()).unwrap_err();
    assert_eq!(
        e.message(),
        "tz-offset must start with + or - (got \"08:00\")"
    );
}

#[test]
fn offsets_are_seconds_east() {
    assert_eq!(parse_tz_offset("+08:00").unwrap(), 28800);
    assert_eq!(parse_tz_offset(" -0530 ").unwrap(), -19800);
    assert_eq!(parse_tz_offset("Z").unwrap(), 0);
    assert_eq!(parse_tz_offset("z").unwrap(), 0);
    assert_eq!(parse_tz_offset("0").unwrap(), 0);
    assert_eq!(parse_tz_offset("+00:00").unwrap(), 0);
    assert_eq!(parse_tz_offset("+09").unwrap(), 32400);
    assert_eq!(parse_tz_offset("-23:59").unwrap(), -86340);
    assert!(matches!(parse_tz_offset("+24:00"), Err(ConfigError::OffsetRange)));
    assert!(matches!(parse_tz_offset("+1"), Err(ConfigError::OffsetShape(_))));
    assert!(matches!(parse_tz_offset("-12345"), Err(ConfigError::OffsetShape(_))));
    assert!(matches!(parse_tz_offset(""), Err(ConfigError::OffsetSign(_))));
    assert_eq!(
        parse_tz_offset("+1").unwrap_err().message(),
        "tz-offset must look like +08:00 or -0530 (got \"+1\")"
    );
    assert_eq!(
        parse_tz_offset("+99:99").unwrap_err().message(),
        "tz-offset out of range"
    );
}

#[test]
fn words_of_the_file() {
    assert_eq!(parse_type("All").unwrap(), TypeSel::All);
    assert_eq!(parse_type("video").unwrap(), TypeSel::Video);
    assert_eq!(parse_type(" jpeg").unwrap(), TypeSel::Jpeg);
    assert!(parse_type("").is_err());
    assert_eq!(parse_date_source("exif-then-mtime"), Some(DateSourceArg::ExifThenMtime));
    assert_eq!(parse_date_source("MTIME"), Some(DateSourceArg::Mtime));
    assert_eq!(parse_date_source("exif"), Some(DateSourceArg::Exif));
    assert_eq!(parse_date_source("x"), None);
    assert_eq!(parse_on_missing("unknown-folder"), Some(OnMissingDateArg::UnknownFolder));
    assert_eq!(parse_on_missing("skip"), Some(OnMissingDateArg::Skip));
    assert_eq!(parse_on_missing("mtime"), Some(OnMissingDateArg::Mtime));
    assert_eq!(parse_on_missing("x"), None);
    assert_eq!(parse_on_conflict("rename"), Some(OnConflictArg::Rename));
    assert_eq!(parse_on_conflict("skip"), Some(OnConflictArg::Skip));
    assert_eq!(parse_on_conflict("x"), None);
    assert_eq!(parse_dedup("hash"), Some(DedupArg::Hash));
    assert_eq!(parse_dedup("off"), Some(DedupArg::Off));
    assert_eq!(parse_dedup("x"), None);
    assert_eq!(parse_verify("auto"), Some(VerifyArg::Auto));
    assert_eq!(parse_verify("size"), Some(VerifyArg::Size));
    assert_eq!(parse_verify("off"), Some(VerifyArg::Off));
    assert_eq!(parse_verify("x"), None);
}

#[test]
fn video_mode_implies_copying() {
    let mut c = cli();
    c.mode = Some(ModeArg::Video);
    assert!(RunConfig::resolve(&c, &file()).unwrap().is_copy());
    let mut c = cli();
    c.copy = true;
    assert!(RunConfig::resolve(&c, &file()).unwrap().is_copy());
}
