use shotsort::cli::{
    DateSourceArg, DedupArg, ModeArg, OnConflictArg, OnMissingDateArg, VerifyArg,
};
use shotsort::clock::{Day, Moment};
use shotsort::config::RunConfig;
use shotsort::journal::{completed_sources, entry_lines, frame, keep_parsed, JournalEntry};
use shotsort::report::{
    csv_escape, csv_line, csv_lines, final_line, is_json, plan_bytes, preview_lines,
    provenance_label, summarize, to_row, FinalStats,
};
use shotsort::run::{
    after_preview, cleanable, cleans, count_event, decide_item, exit_code, journal_entry,
    start_stats, undo_line, DoneSources, Event, Next, Order,
};
use shotsort::types::{Action, DateProvenance, FileKind, PlanItem};
use shotsort::undo::{reverse_journal_path, UndoSummary};

fn at(day: u32) -> Moment {
    Moment {
        year: 2026,
        month: 6,
        day,
        hour: 9,
        minute: 5,
        second: 3,
        nano: 0,
    }
}

fn item(action: Action, folder: &str, size: u64, day: Option<u32>) -> PlanItem {
    PlanItem {
        src: "/c/DCIM/a.jpg".to_string(),
        dst: format!("/c/O/{folder}/a.jpg"),
        kind: FileKind::Jpeg,
        size,
        date: day.map(at),
        provenance: if day.is_some() {
            DateProvenance::Embedded
        } else {
            DateProvenance::Absent
        },
        action,
        rel_folder: folder.to_string(),
        note: String::new(),
    }
}

fn config() -> RunConfig {
    RunConfig {
        source: "/c/DCIM".to_string(),
        dest: "/c/O".to_string(),
        dry_run: false,
        copy: false,
        link: false,
        mode: ModeArg::Photo,
        kinds: None,
        ext_whitelist: None,
        folder_template: "{YYYY}".to_string(),
        name_template: "{original}".to_string(),
        date_source: DateSourceArg::Exif,
        on_missing_date: OnMissingDateArg::UnknownFolder,
        on_conflict: OnConflictArg::Rename,
        dedup: DedupArg::Name,
        verify: VerifyArg::Auto,
        clean_empty_dirs: true,
        journal: "/c/O/j".to_string(),
        jobs: 1,
        manifest: None,
        tz_offset: None,
        yes: false,
        quiet: false,
        verbose: false,
    }
}

fn plan() -> Vec<PlanItem> {
    let mut renamed = item(Action::Move, "2026", 1024, Some(21));
    renamed.note = "renamed to avoid conflict".to_string();
    vec![
        item(Action::Move, "2026", 512, Some(20)),
        renamed,
        item(Action::Overwrite, "", 100, Some(19)),
        item(Action::Move, "NoDate", 10, None),
        item(Action::SkipDuplicate, "2026", 7, None),
        item(Action::SkipConflict, "2026", 7, None),
        item(Action::SkipNoDate, "NoDate", 7, None),
    ]
}

#[test]
fn plans_are_counted() {
    let items = plan();
    assert_eq!(plan_bytes(&items), Some(1646));
    let s = summarize(&items);
    assert_eq!((s.to_move, s.move_bytes), (4, 1646));
    assert_eq!((s.skip_duplicate, s.skip_conflict, s.skip_no_date), (1, 1, 1));
    assert_eq!((s.conflicts_renamed, s.overwrites, s.no_date), (1, 1, 1));
    let day = |day: u32| Day {
        year: 2026,
        month: 6,
        day,
    };
    assert_eq!((s.min_date, s.max_date), (Some(day(19)), Some(day(21))));
    assert_eq!(
        s.by_folder,
        vec![
            (String::new(), 1),
            ("2026".to_string(), 2),
            ("NoDate".to_string(), 1)
        ]
    );
    let huge = vec![item(Action::Move, "", u64::MAX, None), item(Action::Copy, "", 1, None)];
    assert_eq!(plan_bytes(&huge), None);
}

#[test]
fn previews_are_written() {
    let lines = preview_lines(&config(), &summarize(&plan()), true);
    assert_eq!(
        lines,
        vec![
            String::new(),
            "Plan preview (dry-run, nothing moved)".to_string(),
            "  source: /c/DCIM    dest: /c/O (same card → atomic move)".to_string(),
            "  to move: 4 (1.6 KB), dates 2026-06-19 ~ 2026-06-21".to_string(),
            format!("  → /c/O/{:<28} 1", "<dest root>"),
            format!("  → /c/O/{:<28} 2", "2026"),
            format!("  → /c/O/{:<28} 1", "NoDate"),
            "  skipped(duplicate): 1   conflicts(renamed): 1   overwrites: 1   \
             skipped(conflict): 1   no-date → NoDate/: 1   skipped(no-date): 1"
                .to_string(),
            "  ⚠ this is a MOVE; afterwards these files leave DCIM and camera playback \
             won't see them."
                .to_string(),
        ]
    );
    let mut cfg = config();
    cfg.copy = true;
    let lines = preview_lines(&cfg, &summarize(&vec![]), false);
    assert_eq!(
        lines,
        vec![
            "",
            "Plan summary",
            "  source: /c/DCIM    dest: /c/O (same card → atomic copy)",
            "  to copy: 0 (0 B)",
        ]
    );
}

#[test]
fn the_last_line_adds_up() {
    let s = FinalStats {
        action_verb: "moved",
        moved: 5,
        moved_bytes: 17,
        skipped: 1,
        no_date: 2,
        errors: 3,
    };
    assert_eq!(
        final_line(&s, "0.1"),
        "  moved 5 (17 B), skipped 1, no-date 2, errors 3, 0.1s"
    );
}

#[test]
fn manifests_are_csv_or_json() {
    assert!(is_json("/x/m.JSON") && !is_json("/x/m.csv") && !is_json("json"));
    assert_eq!(csv_escape("plain"), "plain");
    assert_eq!(csv_escape("a,b"), "\"a,b\"");
    assert_eq!(csv_escape("say \"hi\""), "\"say \"\"hi\"\"\"");
    assert_eq!(csv_escape("a\nb"), "\"a\nb\"");
    assert_eq!(csv_escape(""), "");
    let mut it = item(Action::Move, "2026", 1, Some(20));
    it.note = "x, y".to_string();
    assert_eq!(
        csv_line(&to_row(&it)),
        "/c/DCIM/a.jpg,/c/O/2026/a.jpg,jpeg,2026-06-20 09:05:03,embedded,moved,\"x, y\""
    );
    let lines = csv_lines(&vec![item(Action::SkipNoDate, "NoDate", 1, None)]);
    assert_eq!(
        lines,
        vec![
            "src,dst,kind,date,date_source,action,note",
            "/c/DCIM/a.jpg,/c/O/NoDate/a.jpg,jpeg,,none,skipped-nodate,",
        ]
    );
    assert_eq!(provenance_label(DateProvenance::Mtime), "mtime");
}

#[test]
fn journals_are_lines() {
    let text = format!("{}{}\n \r\n{}", frame("{1}"), frame("{2}\r"), "{3}");
    let lines = entry_lines(&text);
    assert_eq!(
        lines,
        vec![
            (1, "{1}".to_string()),
            (2, "{2}".to_string()),
            (5, "{3}".to_string())
        ]
    );
    assert!(entry_lines("").is_empty());
    let it = item(Action::Overwrite, "2026", 1, None);
    let e = journal_entry(&it, Action::Overwrite, "t".to_string(), 9);
    assert_eq!((e.op.as_str(), e.bytes), ("overwrite", 9));
    assert_eq!(completed_sources(&vec![e]), vec!["/c/DCIM/a.jpg"]);
}

#[test]
fn a_journal_gives_back_what_was_appended() {
    let entry = |op: &str| JournalEntry {
        op: op.to_string(),
        src: "/s".to_string(),
        dst: "/d".to_string(),
        ts: "t".to_string(),
        bytes: 3,
    };
    // A line stands for the operation that it names; "?" cannot be read.
    let read = |text: &str| -> Vec<String> {
        let parsed = entry_lines(text)
            .iter()
            .map(|(_, line)| if line == "?" { None } else { Some(entry(line)) })
            .collect();
        keep_parsed(parsed).iter().map(|e| e.op.clone()).collect()
    };
    let before = format!("{}{}{}", frame("move"), frame("?"), frame(""));
    assert_eq!(read(&before), vec!["move"]);
    assert_eq!(read(&(before + &frame("copy"))), vec!["move", "copy"]);
    assert_eq!(read(&frame("copy")), vec!["copy"]);
    let kept = keep_parsed(vec![None, Some(entry("link"))]);
    assert_eq!(kept.len(), 1);
    assert_eq!((kept[0].src.as_str(), kept[0].dst.as_str()), ("/s", "/d"));
    assert_eq!((kept[0].ts.as_str(), kept[0].bytes), ("t", 3));
}

#[test]
fn reverse_journals_stand_beside() {
    assert_eq!(
        reverse_journal_path("/c/O/.shotsort-journal.jsonl", at(20)),
        "/c/O/.shotsort-journal.jsonl.undo-20260620-090503.jsonl"
    );
}

#[test]
fn what_follows_a_preview() {
    assert_eq!(after_preview(true, 3, true), Next::DryRun);
    assert_eq!(after_preview(false, 0, false), Next::Nothing);
    assert_eq!(after_preview(false, 3, false), Next::Ask);
    assert_eq!(after_preview(false, 3, true), Next::Go);
    assert_eq!(exit_code(0), 0);
    assert_eq!(exit_code(2), 1);
}

#[test]
fn items_are_decided() {
    let done = DoneSources::new(&vec![JournalEntry {
        op: "move".to_string(),
        src: "/done".to_string(),
        dst: String::new(),
        ts: String::new(),
        bytes: 0,
    }]);
    let mut cfg = config();
    let it = item(Action::Move, "2026", 1, None);
    assert_eq!(decide_item(&it, &done, true, &cfg), Order::Transfer(Action::Move));
    assert_eq!(decide_item(&it, &done, false, &cfg), Order::AlreadyDone);
    let skip = item(Action::SkipConflict, "2026", 1, None);
    assert_eq!(decide_item(&skip, &done, true, &cfg), Order::Skip);
    let mut again = item(Action::Copy, "2026", 1, None);
    again.src = "/done".to_string();
    assert_eq!(decide_item(&again, &done, true, &cfg), Order::AlreadyDone);
    let over = item(Action::Overwrite, "2026", 1, None);
    assert_eq!(decide_item(&over, &done, true, &cfg), Order::Transfer(Action::Overwrite));
    cfg.copy = true;
    assert_eq!(decide_item(&over, &done, true, &cfg), Order::Transfer(Action::Copy));
    cfg.link = true;
    assert_eq!(decide_item(&over, &done, true, &cfg), Order::Transfer(Action::Link));
    cfg.dest = "/c/Other".to_string();
    assert!(matches!(decide_item(&it, &done, true, &cfg), Order::Refuse(_)));
}

#[test]
fn events_are_counted() {
    let mut s = start_stats(&config());
    assert_eq!(s.action_verb, "moved");
    let it = item(Action::Move, "NoDate", 1, None);
    count_event(&mut s, &it, Event::Done { bytes: 4 });
    count_event(&mut s, &it, Event::Failed);
    count_event(&mut s, &it, Event::Skipped);
    count_event(&mut s, &it, Event::AlreadyDone);
    assert_eq!((s.moved, s.moved_bytes, s.no_date), (1, 4, 1));
    assert_eq!((s.skipped, s.errors), (1, 1));
    let mut cfg = config();
    cfg.link = true;
    assert_eq!(start_stats(&cfg).action_verb, "linked");
}

#[test]
fn emptied_folders_may_go() {
    assert!(cleans(&config()));
    let mut cfg = config();
    cfg.copy = true;
    assert!(!cleans(&cfg));
    assert!(cleanable("/c/DCIM/100", "/c/DCIM"));
    assert!(cleanable("/c/DCIM/100/x", "/c/DCIM"));
    assert!(!cleanable("/c/DCIM", "/c/DCIM"));
    assert!(!cleanable("/c/O/x", "/c/DCIM"));
    assert!(!cleanable("/c/DCIM/misc", "/c/DCIM"));
    // Nothing inside a camera-managed directory goes either.
    assert!(!cleanable("/c/DCIM/MISC/E", "/c/DCIM"));
    // What the source itself lies in does not count.
    assert!(cleanable("/PRIVATE/c/100", "/PRIVATE/c"));
}

#[test]
fn an_undo_is_told() {
    let s = UndoSummary {
        restored: 2,
        skipped: 1,
        errors: 0,
        reverse_journal: "/r".to_string(),
    };
    assert_eq!(
        undo_line(&s).unwrap(),
        "Undo complete: restored 2, skipped 1, errors 0.\n  reverse journal: /r"
    );
    let none = UndoSummary {
        restored: 0,
        skipped: 0,
        errors: 0,
        reverse_journal: String::new(),
    };
    assert_eq!(undo_line(&none), None);
}
