use shotsort::cli::{
    DateSourceArg, DedupArg, ModeArg, OnConflictArg, OnMissingDateArg, TypeSel, VerifyArg,
};
use shotsort::clock::Moment;
use shotsort::config::RunConfig;
use shotsort::plan::{
    folder_in, group_files, is_selected, normalized_stem, order_groups, Dating, Group, Numbering,
};
use shotsort::scan::{keep_dir, media_file, recognize};
use shotsort::series::counter_start;
use shotsort::target::{
    claim_key, files_identical, order_group_files, target_filename, Question, Targeting,
};
use shotsort::types::{Action, CaptureInfo, DateProvenance, FileKind, MediaFile, PlanItem};

fn at(day: u32, hour: u32) -> Moment {
    Moment {
        year: 2026,
        month: 6,
        day,
        hour,
        minute: 0,
        second: 0,
        nano: 0,
    }
}

fn file(path: &str, kind: FileKind, mtime: Option<Moment>) -> MediaFile {
    media_file(path, kind, 4, mtime, "/c/DCIM", "/")
}

fn config() -> RunConfig {
    RunConfig {
        source: "/c/DCIM".to_string(),
        dest: "/c/O".to_string(),
        dry_run: false,
        copy: false,
        link: false,
        mode: ModeArg::Photo,
        kinds: None,
        ext_whitelist: None,
        folder_template: "{YYYY}/{YYYY}-{MM}-{DD}".to_string(),
        name_template: "{original}".to_string(),
        date_source: DateSourceArg::Exif,
        on_missing_date: OnMissingDateArg::UnknownFolder,
        on_conflict: OnConflictArg::Rename,
        dedup: DedupArg::Name,
        verify: VerifyArg::Auto,
        clean_empty_dirs: false,
        journal: "/c/O/j".to_string(),
        jobs: 1,
        manifest: None,
        tz_offset: None,
        yes: false,
        quiet: false,
        verbose: false,
    }
}

/// Dates the groups; every file has the given metadata.
fn dated(files: &Vec<MediaFile>, cfg: &RunConfig, info: &CaptureInfo) -> Vec<Group> {
    let mut d = Dating::new(group_files(files, cfg), cfg);
    while d.need().is_some() {
        d.give(info.clone(), cfg);
    }
    d.finish()
}

/// Places the groups on a disk that holds the given paths, with the given
/// answer to whether contents are the same.
fn placed(groups: Vec<Group>, cfg: &RunConfig, present: &[&str], same: bool) -> Vec<PlanItem> {
    let mut t = Targeting::new(groups, cfg, 99);
    while let Some(q) = t.need(cfg) {
        let answer = match q {
            Question::Exists { path } => present.contains(&path.as_str()),
            Question::Same { .. } => same,
        };
        t.give(answer, cfg);
    }
    t.finish(cfg)
}

#[test]
fn a_shot_stays_together() {
    let files = vec![
        file("/c/DCIM/100/B.ARW", FileKind::Raw, None),
        file("/c/DCIM/100/A.JPG", FileKind::Jpeg, None),
        file("/c/DCIM/100/A.ARW.xmp", FileKind::Sidecar, None),
        file("/c/DCIM/100/A.ARW", FileKind::Raw, None),
        file("/c/DCIM/101/A.JPG", FileKind::Jpeg, None),
        file("/c/DCIM/101/alone.xmp", FileKind::Sidecar, None),
    ];
    let groups = group_files(&files, &config());
    let names: Vec<Vec<String>> = groups
        .iter()
        .map(|g| g.files.iter().map(|f| f.path.clone()).collect())
        .collect();
    assert_eq!(
        names,
        vec![
            vec![
                "/c/DCIM/100/A.JPG".to_string(),
                "/c/DCIM/100/A.ARW.xmp".to_string(),
                "/c/DCIM/100/A.ARW".to_string(),
            ],
            vec!["/c/DCIM/100/B.ARW".to_string()],
            vec!["/c/DCIM/101/A.JPG".to_string()],
        ]
    );
    assert_eq!(groups[0].rep_stem, "A");
    assert_eq!(normalized_stem(&files[2]), "A");
    // Primaries first, then sidecars.
    let order: Vec<FileKind> = order_group_files(&groups[0].files).iter().map(|f| f.kind).collect();
    assert_eq!(order, vec![FileKind::Raw, FileKind::Jpeg, FileKind::Sidecar]);
}

#[test]
fn types_and_extensions_select() {
    let files = vec![
        file("/c/DCIM/100/A.JPG", FileKind::Jpeg, None),
        file("/c/DCIM/100/A.ARW", FileKind::Raw, None),
        file("/c/DCIM/100/A.xmp", FileKind::Sidecar, None),
        file("/c/DCIM/100/B.JPG", FileKind::Jpeg, None),
    ];
    let mut cfg = config();
    cfg.kinds = Some(vec![TypeSel::Raw]);
    let groups = group_files(&files, &cfg);
    assert_eq!(groups.len(), 1);
    assert_eq!(groups[0].files.len(), 2);
    // The whitelist overrides the types.
    cfg.ext_whitelist = Some(vec!["jpg".to_string()]);
    assert!(is_selected(&files[0], &cfg) && !is_selected(&files[1], &cfg));
    // Sidecars pass whatever is chosen: they travel with their shot.
    assert!(is_selected(&files[2], &cfg));
    let names: Vec<Vec<String>> = group_files(&files, &cfg)
        .iter()
        .map(|g| g.files.iter().map(|f| f.path.clone()).collect())
        .collect();
    assert_eq!(
        names,
        vec![
            vec!["/c/DCIM/100/A.JPG".to_string(), "/c/DCIM/100/A.xmp".to_string()],
            vec!["/c/DCIM/100/B.JPG".to_string()],
        ]
    );
}

#[test]
fn names_that_climb_out_are_refused() {
    let files = vec![file("/c/DCIM/100/A.JPG", FileKind::Jpeg, Some(at(15, 9)))];
    let mut cfg = config();
    cfg.date_source = DateSourceArg::Mtime;
    cfg.folder_template = "x".to_string();
    cfg.name_template = "a/../../../DCIM/{original}".to_string();
    let items = placed(dated(&files, &cfg, &CaptureInfo::default()), &cfg, &[], false);
    assert_eq!(items.len(), 1);
    assert!(items[0].action.is_skip(), "{}", items[0].dst);
}

#[test]
fn dates_follow_the_policy() {
    let files = vec![file("/c/DCIM/100/A.JPG", FileKind::Jpeg, Some(at(15, 9)))];
    let known = CaptureInfo {
        datetime: Some(at(20, 8)),
        make: Some("SONY".to_string()),
        model: None,
    };
    let nothing = CaptureInfo::default();
    let mut cfg = config();
    let g = &dated(&files, &cfg, &known)[0];
    assert_eq!((g.date, g.provenance), (Some(at(20, 8)), DateProvenance::Embedded));
    assert_eq!((g.folder.as_str(), g.make.as_str()), ("2026/2026-06-20", "SONY"));
    let g = &dated(&files, &cfg, &nothing)[0];
    assert_eq!((g.date, g.folder.as_str()), (None, "NoDate"));
    cfg.on_missing_date = OnMissingDateArg::Skip;
    assert!(dated(&files, &cfg, &nothing)[0].skip_no_date);
    cfg.on_missing_date = OnMissingDateArg::Mtime;
    let g = &dated(&files, &cfg, &nothing)[0];
    assert_eq!((g.date, g.provenance), (Some(at(15, 9)), DateProvenance::Mtime));
    cfg.date_source = DateSourceArg::Mtime;
    assert_eq!(dated(&files, &cfg, &known)[0].folder, "2026/2026-06-15");
    cfg.date_source = DateSourceArg::ExifThenMtime;
    assert_eq!(dated(&files, &cfg, &known)[0].folder, "2026/2026-06-20");
    assert_eq!(dated(&files, &cfg, &nothing)[0].folder, "2026/2026-06-15");
}

#[test]
fn a_series_knows_its_own_names() {
    let start = |tpl: &str, v: &[&str]| {
        counter_start(tpl, &v.iter().map(|s| s.to_string()).collect::<Vec<String>>())
    };
    assert_eq!(start("{counter:04}", &[]), 0);
    assert_eq!(start("{counter:04}", &["0000", "0001", "0002"]), 3);
    assert_eq!(start("{counter:04}", &["12345", "0002"]), 12346);
    // What the camera named, what was renamed beside another file, and what is
    // filled up otherwise do not belong to it.
    assert_eq!(start("{counter:04}", &["IMG_0041", "x", "0007_001", "41", "00041"]), 0);
    assert_eq!(start("{counter}", &["41", "041"]), 42);
    // Ten digits and more are no number.
    assert_eq!(start("{counter}", &["9999999999"]), 0);
    assert_eq!(start("{counter}", &["999999999"]), 1000000000);
    assert_eq!(start("{counter:12}", &["000000000007"]), 8);
    // The rest of the name may differ, as far as the template lets it.
    let dated = "{YYYY}{MM}{DD}_{counter:03}";
    assert_eq!(start(dated, &["20260615_007", "20250101_003", "IMG_041", "100_0041"]), 8);
    assert_eq!(start(dated, &["_009"]), 10);
    assert_eq!(start("{original}_{counter:03}", &["DSC_005", "IMG_0041"]), 6);
    assert_eq!(start("{counter:03}_{HH}", &["004_09", "900_9"]), 5);
    assert_eq!(start("{counter}-{counter:03}", &["5-005", "7-006"]), 6);
    assert_eq!(start("a:{nope}{counter}", &["a-{nope}3", "a:{nope}9"]), 4);
    // What sanitizing takes off at the ends.
    assert_eq!(start(" {camera_make} {counter}.", &["5", "SONY 6"]), 7);
    // Without a counter there is no series.
    assert_eq!(start("{original}", &["0041"]), 0);
    assert_eq!(start("IMG_{YY}", &["IMG_26"]), 0);
}

#[test]
fn numbers_go_on_behind_those_on_disk() {
    let stems = |v: &[&str]| v.iter().map(|s| s.to_string()).collect::<Vec<String>>();
    let files = vec![
        file("/c/DCIM/100/B.JPG", FileKind::Jpeg, Some(at(15, 9))),
        file("/c/DCIM/100/A.JPG", FileKind::Jpeg, Some(at(15, 10))),
        file("/c/DCIM/100/C.JPG", FileKind::Jpeg, Some(at(16, 1))),
    ];
    let mut cfg = config();
    cfg.date_source = DateSourceArg::Mtime;
    let groups = order_groups(&dated(&files, &cfg, &CaptureInfo::default()));
    cfg.name_template = "{counter:04}".to_string();
    let mut n = Numbering::new(groups, &cfg.name_template);
    assert_eq!(n.need("/c/O").unwrap(), "/c/O/2026/2026-06-15");
    n.give(&stems(&["0006", "IMG_0041"]));
    assert_eq!(n.need("/c/O").unwrap(), "/c/O/2026/2026-06-16");
    n.give(&stems(&["DSC00041"]));
    assert!(n.need("/c/O").is_none());
    let numbers: Vec<(String, u32)> =
        n.finish().iter().map(|g| (g.rep_stem.clone(), g.counter)).collect();
    assert_eq!(
        numbers,
        vec![("B".to_string(), 7), ("A".to_string(), 8), ("C".to_string(), 0)]
    );
    assert_eq!(folder_in("/c/O", ""), "/c/O");
}

#[test]
fn names_come_from_the_template() {
    let files = vec![
        file("/c/DCIM/100/A.ARW", FileKind::Raw, Some(at(15, 9))),
        file("/c/DCIM/100/A.JPG", FileKind::Jpeg, Some(at(15, 9))),
    ];
    let mut cfg = config();
    cfg.date_source = DateSourceArg::Mtime;
    cfg.name_template = "{YYYY}{MM}{DD}_{HH}_{counter:03}".to_string();
    let groups = dated(&files, &cfg, &CaptureInfo::default());
    assert_eq!(target_filename(&files[0], &groups[0], &cfg), "20260615_09_000.ARW");
    assert_eq!(target_filename(&files[1], &groups[0], &cfg), "20260615_09_000.JPG");
    // A template that leaves nothing falls back to the stem.
    cfg.name_template = "{camera_make}".to_string();
    let groups = dated(&files, &cfg, &CaptureInfo::default());
    assert_eq!(target_filename(&files[0], &groups[0], &cfg), "A.ARW");
}

#[test]
fn a_taken_place_is_dealt_with() {
    let files = vec![file("/c/DCIM/100/A.JPG", FileKind::Jpeg, Some(at(15, 9)))];
    let mut cfg = config();
    cfg.date_source = DateSourceArg::Mtime;
    let place = "/c/O/2026/2026-06-15/A.JPG";
    let next = "/c/O/2026/2026-06-15/A_001.JPG";
    let go = |cfg: &RunConfig, present: &[&str], same: bool| {
        let mut v = placed(dated(&files, cfg, &CaptureInfo::default()), cfg, present, same);
        v.remove(0)
    };
    let it = go(&cfg, &[], false);
    assert_eq!((it.action, it.dst.as_str()), (Action::Move, place));
    let it = go(&cfg, &[place], false);
    assert_eq!(it.action, Action::SkipDuplicate);
    assert_eq!(it.note, "same name already at target");
    cfg.dedup = DedupArg::Hash;
    assert_eq!(go(&cfg, &[place], true).note, "identical content already at target");
    let it = go(&cfg, &[place], false);
    assert_eq!((it.action, it.dst.as_str()), (Action::Move, next));
    assert_eq!(it.note, "renamed to avoid conflict");
    let it = go(&cfg, &[place, next], false);
    assert_eq!(it.dst, "/c/O/2026/2026-06-15/A_002.JPG");
    cfg.dedup = DedupArg::Off;
    cfg.on_conflict = OnConflictArg::Overwrite;
    let it = go(&cfg, &[place], true);
    assert_eq!((it.action, it.dst.as_str()), (Action::Overwrite, place));
    cfg.on_conflict = OnConflictArg::Skip;
    let it = go(&cfg, &[place], true);
    assert_eq!((it.action, it.note.as_str()), (Action::SkipConflict, "target exists (skip)"));
    cfg.on_conflict = OnConflictArg::Rename;
    cfg.copy = true;
    assert_eq!(go(&cfg, &[], false).action, Action::Copy);
    cfg.link = true;
    assert_eq!(go(&cfg, &[], false).action, Action::Link);
}

#[test]
fn names_clash_without_regard_to_case() {
    let files = vec![
        file("/c/DCIM/100/a.jpg", FileKind::Jpeg, Some(at(15, 9))),
        file("/c/DCIM/101/A.JPG", FileKind::Jpeg, Some(at(15, 9))),
    ];
    let mut cfg = config();
    cfg.date_source = DateSourceArg::Mtime;
    let groups = order_groups(&dated(&files, &cfg, &CaptureInfo::default()));
    let items = placed(groups, &cfg, &[], false);
    assert_eq!(items[0].dst, "/c/O/2026/2026-06-15/A.JPG");
    assert_eq!(items[1].dst, "/c/O/2026/2026-06-15/a_001.jpg");
    assert_eq!(claim_key("/C/Ä.JPG"), "/c/Ä.jpg");
}

#[test]
fn digests_decide_sameness() {
    let a = Some(vec![1u8, 2]);
    assert!(files_identical(&a, &Some(vec![1, 2])));
    assert!(!files_identical(&a, &Some(vec![1, 3])));
    assert!(!files_identical(&a, &None));
    assert!(!files_identical(&None, &None));
}

#[test]
fn scans_leave_zones_out() {
    let keep = |dir: &str, name: &str, mode: ModeArg| {
        keep_dir(dir, Some(name), "/c/DCIM", "/c/DCIM/O", mode)
    };
    assert!(keep("/c/DCIM", "DCIM", ModeArg::Photo));
    assert!(keep("/c/DCIM/100", "100", ModeArg::Photo));
    assert!(!keep("/c/DCIM/O/2026", "2026", ModeArg::Photo));
    assert!(!keep("/c/DCIM/.Trashes", ".Trashes", ModeArg::Video));
    assert!(!keep("/c/DCIM/m4root", "m4root", ModeArg::Photo));
    assert!(keep("/c/DCIM/M4ROOT", "M4ROOT", ModeArg::Video));
    assert!(!keep("/c/DCIM/THMBNL", "THMBNL", ModeArg::Video));
    assert!(keep_dir("/c/DCIM/x", None, "/c/DCIM", "/c/O", ModeArg::Photo));
    assert_eq!(recognize("/c/a.ArW", ModeArg::Photo), Some(FileKind::Raw));
    assert_eq!(recognize("/c/._a.jpg", ModeArg::Photo), None);
    assert_eq!(recognize("/c/a", ModeArg::Photo), None);
    assert_eq!(recognize("/c/a.txt", ModeArg::Photo), None);
    assert_eq!(recognize("/c/a.jpg", ModeArg::Video), None);
    assert_eq!(recognize("/c/a.mp4", ModeArg::Video), Some(FileKind::Video));
    let f = file("/c/DCIM/100/../100/x.y.JPG", FileKind::Jpeg, None);
    assert_eq!(f.path, "/c/DCIM/100/x.y.JPG");
    assert_eq!((f.parent.as_str(), f.stem.as_str(), f.ext.as_str()), ("/c/DCIM/100", "x.y", "JPG"));
}
