//! Whole runs against a card held in memory.

use std::collections::{BTreeMap, BTreeSet};

use shotsort::cli::{
    Cli, DateSourceArg, DedupArg, MatchAction, ModeArg, OnConflictArg, VerifyArg,
};
use shotsort::clock::Moment;
use shotsort::config::{FileConfig, RunConfig};
use shotsort::datesrc;
use shotsort::engine::{Op, Reply, Transfer};
use shotsort::guard;
use shotsort::journal::JournalEntry;
use shotsort::matchcmd;
use shotsort::matchcmd::{Gathering, PlaceQuestion, RawIndex, RawSeen};
use shotsort::paths;
use shotsort::pixcake;
use shotsort::pixcake::ThumbRow;
use shotsort::plan;
use shotsort::plan::{Dating, Numbering};
use shotsort::report;
use shotsort::report::FinalStats;
use shotsort::run;
use shotsort::run::{DoneSources, Event, Next, Order};
use shotsort::scan;
use shotsort::target;
use shotsort::target::{Question, Targeting};
use shotsort::types::{Action, CaptureInfo, PlanItem};
use shotsort::undo::{UndoNote, UndoOp, UndoReply, UndoSummary, Undoing};
use shotsort::util::FileHash;

#[derive(Clone)]
enum Entry {
    File { content: Vec<u8>, mtime: Moment },
    Link { target: String },
}

/// A card: paths with what is there, and the directories.
struct Card {
    entries: BTreeMap<String, Entry>,
    dirs: BTreeSet<String>,
    journal: Vec<JournalEntry>,
}

fn at(month: u32, day: u32, hour: u32, minute: u32) -> Moment {
    Moment {
        year: 2026,
        month,
        day,
        hour,
        minute,
        second: 0,
        nano: 0,
    }
}

impl Card {
    fn new() -> Card {
        Card {
            entries: BTreeMap::new(),
            dirs: BTreeSet::new(),
            journal: Vec::new(),
        }
    }

    fn write(&mut self, path: &str, content: &str, mtime: Moment) {
        self.put(path, content.as_bytes().to_vec(), mtime);
    }

    fn put(&mut self, path: &str, content: Vec<u8>, mtime: Moment) {
        self.make_dirs(&paths::parent(path).unwrap());
        let entry = Entry::File { content, mtime };
        self.entries.insert(path.to_string(), entry);
    }

    fn make_dirs(&mut self, dir: &str) {
        self.dirs.insert(dir.to_string());
        if let Some(above) = paths::parent(dir) {
            self.make_dirs(&above);
        }
    }

    /// Removes the emptied directories below the source, innermost first.
    fn clean(&mut self, cfg: &RunConfig) {
        let all: Vec<String> = self.dirs.iter().rev().cloned().collect();
        for dir in all {
            let within = |p: &String| paths::parent(p).as_deref() == Some(dir.as_str());
            let empty = !self.entries.keys().any(within) && !self.dirs.iter().any(within);
            if empty && run::cleanable(&dir, &cfg.source) {
                self.dirs.remove(&dir);
            }
        }
    }

    /// The bytes at a path, through a link where there is one.
    fn read(&self, path: &str) -> Option<Vec<u8>> {
        match self.entries.get(path) {
            Some(Entry::File { content, .. }) => Some(content.clone()),
            Some(Entry::Link { target }) => {
                let dir = paths::parent(path).unwrap();
                self.read(&guard::normalize(&paths::join(&dir, target), "/"))
            }
            None => None,
        }
    }

    fn text(&self, path: &str) -> String {
        String::from_utf8(self.read(path).unwrap()).unwrap()
    }

    fn has(&self, path: &str) -> bool {
        self.read(path).is_some()
    }

    fn digest(&self, path: &str) -> Option<Vec<u8>> {
        self.read(path).map(|bytes| {
            let mut h = FileHash::new();
            h.update(&bytes);
            h.finish()
        })
    }

    /// The stems of what a directory holds.
    fn stems(&self, dir: &str) -> Vec<String> {
        self.entries
            .keys()
            .filter(|p| paths::parent(p).as_deref() == Some(dir))
            .map(|p| paths::stem(&paths::file_name(p).unwrap()))
            .collect()
    }

    fn scan(&self, cfg: &RunConfig) -> Vec<shotsort::types::MediaFile> {
        let mut found = Vec::new();
        for (path, entry) in &self.entries {
            let mtime = match entry {
                Entry::File { mtime, .. } => *mtime,
                Entry::Link { .. } => continue,
            };
            if !guard::is_within(path, &cfg.source) {
                continue;
            }
            let mut dir = paths::parent(path).unwrap();
            let mut reached = true;
            while !guard::same_path(&dir, &cfg.source) {
                let name = paths::file_name(&dir);
                reached = reached
                    && scan::keep_dir(&dir, name.as_deref(), &cfg.source, &cfg.dest, cfg.mode);
                dir = paths::parent(&dir).unwrap();
            }
            if !reached {
                continue;
            }
            if let Some(kind) = scan::recognize(path, cfg.mode) {
                let size = self.read(path).unwrap().len() as u64;
                found.push(scan::media_file(path, kind, size, Some(mtime), &cfg.source, "/"));
            }
        }
        found
    }

    fn plan(&self, cfg: &RunConfig) -> Vec<PlanItem> {
        let groups = plan::group_files(&self.scan(cfg), cfg);
        let mut dating = Dating::new(groups, cfg);
        while dating.need().is_some() {
            dating.give(CaptureInfo::default(), cfg);
        }
        let groups = plan::order_groups(&dating.finish());
        let mut numbering = Numbering::new(groups, &cfg.name_template);
        while let Some(dir) = numbering.need(&cfg.dest) {
            numbering.give(&self.stems(&dir));
        }
        let mut targeting = Targeting::new(numbering.finish(), cfg, 42);
        while let Some(question) = targeting.need(cfg) {
            let answer = match question {
                Question::Exists { path } => self.has(&path),
                Question::Same { a, b } => {
                    target::files_identical(&self.digest(&a), &self.digest(&b))
                }
            };
            targeting.give(answer, cfg);
        }
        targeting.finish(cfg)
    }

    fn perform(&mut self, op: Op) -> Reply {
        match op {
            Op::MakeDirs { path } => {
                self.make_dirs(&path);
                Reply::Done
            }
            Op::Size { path } => match self.read(&path) {
                Some(b) => Reply::Size(b.len() as u64),
                None => Reply::Failed,
            },
            Op::Rename { from, to } => match self.entries.remove(&from) {
                Some(e) => {
                    self.entries.insert(to, e);
                    Reply::Done
                }
                None => Reply::Failed,
            },
            Op::Copy { from, to } => match self.entries.get(&from) {
                Some(e) => {
                    let e = e.clone();
                    self.entries.insert(to, e);
                    Reply::Done
                }
                None => Reply::Failed,
            },
            Op::Hash { path } => match self.digest(&path) {
                Some(d) => Reply::Digest(d),
                None => Reply::Failed,
            },
            Op::Remove { path } => match self.entries.remove(&path) {
                Some(_) => Reply::Done,
                None => Reply::Failed,
            },
            Op::Exists { path } => Reply::Found(self.has(&path)),
            Op::Link { at, target } => {
                self.entries.insert(at, Entry::Link { target });
                Reply::Done
            }
        }
    }

    fn execute(&mut self, items: &[PlanItem], cfg: &RunConfig) -> FinalStats {
        let done = DoneSources::new(&self.journal);
        let mut stats = run::start_stats(cfg);
        for item in items {
            let event = match run::decide_item(item, &done, self.has(&item.src), cfg) {
                Order::Skip => Event::Skipped,
                Order::AlreadyDone => Event::AlreadyDone,
                Order::Refuse(_) => Event::Failed,
                Order::Transfer(action) => {
                    let mut t = Transfer::new(&item.src, &item.dst, action, cfg.verify, 42);
                    while let Some(op) = t.ask() {
                        let reply = self.perform(op);
                        t.reply(reply);
                    }
                    match t.result() {
                        Some(Ok(o)) => {
                            let ts = "now".to_string();
                            self.journal
                                .push(run::journal_entry(item, action, ts, o.bytes));
                            Event::Done { bytes: o.bytes }
                        }
                        _ => Event::Failed,
                    }
                }
            };
            run::count_event(&mut stats, item, event);
        }
        stats
    }

    fn organize(&mut self, cli: &Cli) -> FinalStats {
        let cfg = RunConfig::resolve(cli, &FileConfig::default()).unwrap();
        guard::validate_dest_in_mode(&cfg.source, &cfg.dest, cfg.mode).unwrap();
        let items = self.plan(&cfg);
        let stats = self.execute(&items, &cfg);
        if run::cleans(&cfg) {
            self.clean(&cfg);
        }
        stats
    }

    fn undo(&mut self) -> (UndoSummary, Vec<String>) {
        let mut u = Undoing::new(&self.journal);
        let mut told = Vec::new();
        while let Some(op) = u.ask() {
            let reply = match op {
                UndoOp::Present { path } => UndoReply::Found(self.entries.contains_key(&path)),
                UndoOp::Exists { path } => UndoReply::Found(self.has(&path)),
                UndoOp::Remove { path } => match self.entries.remove(&path) {
                    Some(_) => UndoReply::Done,
                    None => UndoReply::Failed,
                },
                UndoOp::MakeDirs { path } => {
                    self.make_dirs(&path);
                    UndoReply::Done
                }
                UndoOp::Rename { from, to } => match self.entries.remove(&from) {
                    Some(e) => {
                        self.entries.insert(to, e);
                        UndoReply::Done
                    }
                    None => UndoReply::Failed,
                },
            };
            match u.reply(reply) {
                UndoNote::Silent => {}
                UndoNote::Skip { line } => told.push(line),
                UndoNote::Error { line } => told.push(line),
                UndoNote::Record { op, src, dst, .. } => told.push(format!("{op} {src} {dst}")),
            }
        }
        (u.summary("reverse".to_string()), told)
    }
}

fn cli(source: &str, dest: &str) -> Cli {
    Cli {
        source: Some(source.to_string()),
        dest: Some(dest.to_string()),
        dry_run: false,
        copy: false,
        link: false,
        mode: None,
        types: None,
        ext: None,
        folder_template: None,
        name_template: None,
        date_source: Some(DateSourceArg::Mtime),
        on_missing_date: None,
        on_conflict: None,
        dedup: None,
        verify: None,
        clean_empty_dirs: false,
        journal: None,
        jobs: None,
        manifest: None,
        config: None,
        tz_offset: None,
        yes: true,
        quiet: false,
        verbose: false,
        command: None,
    }
}

#[test]
fn move_pairs_conflicts_and_excludes_managed_dirs() {
    let mut card = Card::new();
    let noon = at(6, 15, 9, 30);
    // RAW + JPEG + sidecar share a stem and must travel together.
    card.write("/card/DCIM/100MSDCF/DSC00001.ARW", "raw", noon);
    card.write("/card/DCIM/100MSDCF/DSC00001.JPG", "jpg", noon);
    card.write("/card/DCIM/100MSDCF/DSC00001.xmp", "xmp", noon);
    // Two distinct files with the same name -> conflict -> rename.
    card.write("/card/DCIM/101MSDCF/DSC00009.JPG", "AAAA", noon);
    card.write("/card/DCIM/102MSDCF/DSC00009.JPG", "BBBB", noon);
    // Inside a managed dir -> must never move.
    card.write("/card/PRIVATE/M4ROOT/SECRET.JPG", "x", noon);

    let mut args = cli("/card/DCIM", "/card/Organized");
    args.clean_empty_dirs = true;
    let stats = card.organize(&args);
    assert_eq!(run::exit_code(stats.errors), 0);
    assert_eq!(stats.moved, 5);
    assert_eq!(stats.moved_bytes, 17);

    let day = "/card/Organized/2026/2026-06-15";
    assert!(card.has(&format!("{day}/DSC00001.ARW")));
    assert!(card.has(&format!("{day}/DSC00001.JPG")));
    assert!(card.has(&format!("{day}/DSC00001.xmp")));
    // One of the colliding files keeps its name, the other is renamed.
    assert!(card.has(&format!("{day}/DSC00009.JPG")));
    assert!(card.has(&format!("{day}/DSC00009_001.JPG")));
    // Managed dir untouched.
    assert!(card.has("/card/PRIVATE/M4ROOT/SECRET.JPG"));
    assert!(!card.has("/card/DCIM/100MSDCF/DSC00001.ARW"));
    // DCIM itself stays, emptied folders below it go.
    assert!(card.dirs.contains("/card/DCIM"));
    assert!(!card.dirs.contains("/card/DCIM/100MSDCF"));
    assert!(card.dirs.contains("/card/PRIVATE/M4ROOT"));

    // Journal records five moves.
    assert_eq!(card.journal.len(), 5);
    assert!(card.journal.iter().all(|e| e.op == "move"));

    // Undo restores the original layout and records the reverse moves, last
    // one first.
    let (summary, told) = card.undo();
    assert_eq!(run::exit_code(summary.errors), 0);
    assert_eq!((summary.restored, summary.skipped), (5, 0));
    let reverse: Vec<String> = card
        .journal
        .iter()
        .rev()
        .map(|e| format!("undo-move {} {}", e.dst, e.src))
        .collect();
    assert_eq!(told, reverse);
    assert_eq!(card.text("/card/DCIM/100MSDCF/DSC00001.ARW"), "raw");
    assert_eq!(card.text("/card/DCIM/101MSDCF/DSC00009.JPG"), "AAAA");
    assert_eq!(card.text("/card/DCIM/102MSDCF/DSC00009.JPG"), "BBBB");
    assert!(!card.has(&format!("{day}/DSC00001.ARW")));
}

#[test]
fn rejects_dest_inside_dcim() {
    let e = guard::validate_dest("/card/DCIM", "/card/DCIM/Organized").unwrap_err();
    assert!(e.message("/card/DCIM", "/card/DCIM/Organized").contains("inside SOURCE"));
}

#[test]
fn missing_date_goes_to_nodate() {
    let mut card = Card::new();
    card.write("/card/DCIM/100MSDCF/IMG_0001.JPG", "noexif", at(6, 15, 9, 30));
    // No EXIF, default date-source = exif -> no date -> NoDate folder.
    let mut args = cli("/card/DCIM", "/card/Organized");
    args.date_source = None;
    let stats = card.organize(&args);
    assert_eq!(stats.errors, 0);
    assert_eq!(stats.no_date, 1);
    assert!(card.has("/card/Organized/NoDate/IMG_0001.JPG"));
}

#[test]
fn video_mode_copies_clips_and_keeps_originals() {
    let mut card = Card::new();
    // Sony XAVC clips live under a managed dir that photo mode never touches.
    let clip = "/card/PRIVATE/M4ROOT/CLIP";
    card.write(&format!("{clip}/C0005.MP4"), "clip-five", at(6, 25, 8, 39));
    card.write(&format!("{clip}/C0006.MP4"), "clip-six", at(6, 26, 1, 23));
    // A proxy under SUB and a thumbnail under THMBNL must NOT be copied out.
    card.write("/card/PRIVATE/M4ROOT/SUB/C0005S01.MP4", "proxy", at(6, 25, 8, 39));
    card.write("/card/PRIVATE/M4ROOT/THMBNL/C0005T01.JPG", "thumb", at(6, 25, 8, 39));

    // Point SOURCE at the card root in video mode.
    let mut args = cli("/card", "/card/Organized");
    args.mode = Some(ModeArg::Video);
    let stats = card.organize(&args);
    assert_eq!(stats.errors, 0);
    assert_eq!(stats.action_verb, "copied");

    // Masters copied into date folders.
    assert!(card.has("/card/Organized/2026/2026-06-25/C0005.MP4"));
    assert!(card.has("/card/Organized/2026/2026-06-26/C0006.MP4"));
    // Proxy + thumbnail were skipped.
    assert!(!card.has("/card/Organized/2026/2026-06-25/C0005S01.MP4"));
    assert!(!card.has("/card/Organized/2026/2026-06-25/C0005T01.JPG"));
    // Originals are still on the card (copy, not move).
    assert!(card.has(&format!("{clip}/C0005.MP4")));
    assert!(card.has(&format!("{clip}/C0006.MP4")));

    // Journal records two copies.
    assert_eq!(card.journal.iter().filter(|e| e.op == "copy").count(), 2);

    // Undo deletes the copies but leaves the originals intact.
    let (summary, _) = card.undo();
    assert_eq!(summary.errors, 0);
    assert!(!card.has("/card/Organized/2026/2026-06-25/C0005.MP4"));
    assert!(!card.has("/card/Organized/2026/2026-06-26/C0006.MP4"));
    assert!(card.has(&format!("{clip}/C0005.MP4")));
    assert!(card.has(&format!("{clip}/C0006.MP4")));
}

#[test]
fn video_link_mode_makes_relative_symlinks() {
    let mut card = Card::new();
    let clip = "/card/PRIVATE/M4ROOT/CLIP";
    card.write(&format!("{clip}/C0005.MP4"), "clip-five", at(6, 25, 8, 39));

    let mut args = cli("/card", "/card/Organized");
    args.mode = Some(ModeArg::Video);
    args.link = true;
    let stats = card.organize(&args);
    assert_eq!(stats.errors, 0);

    let link = "/card/Organized/2026/2026-06-25/C0005.MP4";
    // It's a symlink (not a copy) with a RELATIVE target (survives the card
    // being renamed)...
    match card.entries.get(link) {
        Some(Entry::Link { target }) => assert!(!paths::is_absolute(target)),
        _ => panic!("expected a symlink"),
    }
    // ...that resolves to the original clip's bytes.
    assert_eq!(card.text(link), "clip-five");
    // Original untouched.
    assert!(card.has(&format!("{clip}/C0005.MP4")));

    // Undo removes the link; the original stays.
    assert!(card.journal.iter().any(|e| e.op == "link"));
    let (summary, _) = card.undo();
    assert_eq!(summary.errors, 0);
    assert!(!card.entries.contains_key(link), "link should be gone");
    assert!(card.has(&format!("{clip}/C0005.MP4")));
}

#[test]
fn counter_names_by_shot_order_and_continues_across_runs() {
    let mut card = Card::new();
    let day = "/card/Organized/2026/2026-06-15";

    // Three shots on one day, in ascending capture (mtime) order.
    card.write("/card/DCIM/100MSDCF/DSC00001.JPG", "A", at(6, 15, 9, 1));
    card.write("/card/DCIM/100MSDCF/DSC00002.JPG", "B", at(6, 15, 9, 2));
    card.write("/card/DCIM/100MSDCF/DSC00003.JPG", "C", at(6, 15, 9, 3));

    let mut args = cli("/card/DCIM", "/card/Organized");
    args.name_template = Some("{counter:04}".to_string());
    assert_eq!(card.organize(&args).errors, 0);

    // 0-based, numbered by shooting order within the date folder.
    assert_eq!(card.text(&format!("{day}/0000.JPG")), "A");
    assert_eq!(card.text(&format!("{day}/0001.JPG")), "B");
    assert_eq!(card.text(&format!("{day}/0002.JPG")), "C");

    // A second batch shot later the same day, run separately...
    card.write("/card/DCIM/100MSDCF/DSC00004.JPG", "D", at(6, 15, 9, 4));
    card.write("/card/DCIM/100MSDCF/DSC00005.JPG", "E", at(6, 15, 9, 5));
    assert_eq!(card.organize(&args).errors, 0);

    // ...continues the sequence instead of restarting at 0000 and colliding.
    assert_eq!(card.text(&format!("{day}/0003.JPG")), "D");
    assert_eq!(card.text(&format!("{day}/0004.JPG")), "E");
    // Files from the first run keep their original numbers (never renamed).
    assert_eq!(card.text(&format!("{day}/0000.JPG")), "A");
    assert_eq!(card.text(&format!("{day}/0002.JPG")), "C");
}

#[test]
fn camera_names_do_not_move_the_counter() {
    let mut card = Card::new();
    let day = "/card/Organized/2026/2026-06-15";
    // A first run kept the camera's names; the next one numbers.
    card.write(&format!("{day}/DSC00041.JPG"), "old", at(6, 15, 8, 0));
    card.write("/card/DCIM/100MSDCF/DSC00042.JPG", "A", at(6, 15, 9, 1));
    let mut args = cli("/card/DCIM", "/card/Organized");
    args.name_template = Some("{counter:04}".to_string());
    assert_eq!(card.organize(&args).errors, 0);
    assert_eq!(card.text(&format!("{day}/0000.JPG")), "A");
    assert_eq!(card.text(&format!("{day}/DSC00041.JPG")), "old");
}

/// A minimal JPEG carrying EXIF `DateTimeOriginal` + `SubSecTimeOriginal`.
fn exif_image(dt: &str, subsec: &str) -> Vec<u8> {
    assert_eq!(dt.len(), 19, "datetime must be YYYY:MM:DD HH:MM:SS");
    let subsec_bytes = subsec.as_bytes();
    let subsec_count = (subsec_bytes.len() + 1) as u32;
    assert!(subsec_count <= 4);
    let exif_ifd_off: u32 = 26;
    let dt_off: u32 = 56;
    let mut tiff: Vec<u8> = Vec::new();
    tiff.extend_from_slice(b"II");
    tiff.extend_from_slice(&0x2Au16.to_le_bytes());
    tiff.extend_from_slice(&8u32.to_le_bytes());
    tiff.extend_from_slice(&1u16.to_le_bytes());
    tiff.extend_from_slice(&0x8769u16.to_le_bytes());
    tiff.extend_from_slice(&4u16.to_le_bytes());
    tiff.extend_from_slice(&1u32.to_le_bytes());
    tiff.extend_from_slice(&exif_ifd_off.to_le_bytes());
    tiff.extend_from_slice(&0u32.to_le_bytes());
    tiff.extend_from_slice(&2u16.to_le_bytes());
    tiff.extend_from_slice(&0x9003u16.to_le_bytes());
    tiff.extend_from_slice(&2u16.to_le_bytes());
    tiff.extend_from_slice(&20u32.to_le_bytes());
    tiff.extend_from_slice(&dt_off.to_le_bytes());
    tiff.extend_from_slice(&0x9291u16.to_le_bytes());
    tiff.extend_from_slice(&2u16.to_le_bytes());
    tiff.extend_from_slice(&subsec_count.to_le_bytes());
    let mut inline = [0u8; 4];
    inline[..subsec_bytes.len()].copy_from_slice(subsec_bytes);
    tiff.extend_from_slice(&inline);
    tiff.extend_from_slice(&0u32.to_le_bytes());
    assert_eq!(tiff.len() as u32, dt_off);
    tiff.extend_from_slice(dt.as_bytes());
    tiff.push(0);
    let mut jpeg: Vec<u8> = vec![0xFF, 0xD8, 0xFF, 0xE1];
    let app1_len = (2 + 6 + tiff.len()) as u16;
    jpeg.extend_from_slice(&app1_len.to_be_bytes());
    jpeg.extend_from_slice(b"Exif\0\0");
    jpeg.extend_from_slice(&tiff);
    jpeg.extend_from_slice(&[0xFF, 0xD9]);
    jpeg
}

fn capture_key(bytes: &[u8]) -> Option<shotsort::types::CaptureKey> {
    datesrc::read_head(&bytes.to_vec()).and_then(|m| datesrc::exif_capture_key(&m))
}

#[test]
fn match_pairs_keepers_to_raws_by_subsecond() {
    let mut card = Card::new();
    let archive = "/root/Organized/2026/2026-07-13";
    // Archive RAWs: a same-second burst (A,B differ only in sub-second) + a later
    // frame (C). A wrong second-only match could grab A instead of B.
    let raws = [
        (format!("{archive}/A.ARW"), exif_image("2026:07:13 17:00:00", "110")),
        (format!("{archive}/B.ARW"), exif_image("2026:07:13 17:00:00", "451")),
        (format!("{archive}/C.ARW"), exif_image("2026:07:13 17:00:05", "000")),
    ];
    for (path, bytes) in &raws {
        card.put(path, bytes.clone(), at(7, 13, 17, 0));
    }
    // Preview JPEGs: two kept (pointing at B and C by sub-second) + one removed
    // (which would map to A) to prove recycle-bin rows are excluded.
    let mut previews = BTreeMap::new();
    previews.insert("/previews/shot_0002.JPG", exif_image("2026:07:13 17:00:00", "451"));
    previews.insert("/previews/shot_0009.JPG", exif_image("2026:07:13 17:00:05", "000"));
    previews.insert("/previews/shot_0001.JPG", exif_image("2026:07:13 17:00:00", "110"));
    let row = |path: &str, bin: i64| ThumbRow {
        path: Some(path.to_string()),
        in_recycle_bin: Some(bin),
        is_valid: Some(1),
        capture_time: Some(0),
    };
    let rows = vec![
        row("/previews/shot_0002.JPG", 0),
        row("/previews/shot_0009.JPG", 0),
        row("/previews/shot_0001.JPG", 1), // removed -> excluded
    ];
    let kept = pixcake::kept_items(&rows);
    let keys: Vec<matchcmd::KeeperKey> = kept
        .iter()
        .map(|k| matchcmd::keeper_key(capture_key(&previews[k.original.as_str()]), k))
        .collect();
    let needed = matchcmd::needed_dates(&keys);
    let mut index = RawIndex::new();
    for (path, bytes) in &raws {
        if matchcmd::sort_raw(path, &needed) == RawSeen::Wanted {
            index.add(capture_key(bytes), path.clone());
        }
    }
    let keepers = matchcmd::resolve_keepers(&kept, &keys, &index);
    assert_eq!(matchcmd::unmatched_count(&keepers), 0);
    let mut gathering = Gathering::new("/root/Selects", matchcmd::raws_of(&keepers));
    while let Some(question) = gathering.need() {
        gathering.give(match question {
            PlaceQuestion::SameSize { .. } => false,
            PlaceQuestion::Exists { .. } => false,
        });
    }
    // Sub-second picked B (not A) for the 17:00:00 keeper, and C for the later
    // one; A's shot was removed from the project, so its RAW is NOT gathered.
    let plan = gathering.finish();
    assert_eq!(
        plan,
        vec![
            (format!("{archive}/B.ARW"), "/root/Selects/B.ARW".to_string()),
            (format!("{archive}/C.ARW"), "/root/Selects/C.ARW".to_string()),
        ]
    );
    for (src, dst) in &plan {
        let action = matchcmd::engine_action(MatchAction::Copy);
        let mut t = Transfer::new(src, dst, action, VerifyArg::Auto, 42);
        while let Some(op) = t.ask() {
            let reply = card.perform(op);
            t.reply(reply);
        }
        let bytes = match t.result() {
            Some(Ok(o)) => o.bytes,
            _ => panic!("the copy failed"),
        };
        card.journal.push(JournalEntry {
            op: matchcmd::op_word(MatchAction::Copy).to_string(),
            src: src.clone(),
            dst: dst.clone(),
            ts: "now".to_string(),
            bytes,
        });
    }
    assert!(card.has("/root/Selects/B.ARW"));
    assert!(card.has("/root/Selects/C.ARW"));
    assert!(!card.has("/root/Selects/A.ARW"));
    // Copy, not move: originals remain in the archive.
    for (path, bytes) in &raws {
        assert_eq!(card.read(path).as_ref(), Some(bytes));
    }
    // Journal records two copies, so undo can reverse the gather.
    assert_eq!(card.journal.iter().filter(|e| e.op == "copy").count(), 2);
    let (summary, told) = card.undo();
    assert_eq!((summary.restored, summary.errors), (2, 0));
    assert_eq!(
        told,
        vec![
            format!("undo-copy /root/Selects/C.ARW {archive}/C.ARW"),
            format!("undo-copy /root/Selects/B.ARW {archive}/B.ARW"),
        ]
    );
    assert!(!card.has("/root/Selects/B.ARW"));
    assert!(card.has(&format!("{archive}/B.ARW")));
}

#[test]
fn dry_run_moves_nothing() {
    let mut card = Card::new();
    card.write("/card/DCIM/100MSDCF/IMG_0001.JPG", "a", at(6, 15, 9, 30));
    let mut args = cli("/card/DCIM", "/card/Organized");
    args.dry_run = true;
    let cfg = RunConfig::resolve(&args, &FileConfig::default()).unwrap();
    let items = card.plan(&cfg);
    assert_eq!(report::plan_bytes(&items), Some(1));
    let stats = report::summarize(&items);
    assert_eq!(stats.to_move, 1);
    // Source untouched, dest never created.
    assert_eq!(run::after_preview(cfg.dry_run, stats.to_move, cfg.yes), Next::DryRun);
    assert!(card.has("/card/DCIM/100MSDCF/IMG_0001.JPG"));
    assert_eq!(card.entries.len(), 1);
}

#[test]
fn a_second_run_has_nothing_left_to_do() {
    let mut card = Card::new();
    card.write("/card/DCIM/100MSDCF/IMG_0001.JPG", "a", at(6, 15, 9, 30));
    let mut args = cli("/card/DCIM", "/card/Organized");
    args.copy = true;
    assert_eq!(card.organize(&args).moved, 1);
    // The copy is on disk: the same bytes are no conflict.
    let cfg = RunConfig::resolve(&args, &FileConfig::default()).unwrap();
    let items = card.plan(&cfg);
    assert_eq!(items[0].action, Action::SkipDuplicate);
    let stats = card.organize(&args);
    assert_eq!((stats.moved, stats.skipped), (0, 1));
}

#[test]
fn what_the_journal_records_is_not_done_again() {
    let mut card = Card::new();
    card.write("/card/DCIM/100MSDCF/IMG_0001.JPG", "a", at(6, 15, 9, 30));
    card.journal.push(JournalEntry {
        op: "move".to_string(),
        src: "/card/DCIM/100MSDCF/IMG_0001.JPG".to_string(),
        dst: "/card/Organized/x".to_string(),
        ts: String::new(),
        bytes: 1,
    });
    let stats = card.organize(&cli("/card/DCIM", "/card/Organized"));
    assert_eq!((stats.moved, stats.skipped, stats.errors), (0, 0, 0));
    assert!(card.has("/card/DCIM/100MSDCF/IMG_0001.JPG"));
}

#[test]
fn undo_never_clobbers() {
    let mut card = Card::new();
    card.write("/card/DCIM/100MSDCF/IMG_0001.JPG", "a", at(6, 15, 9, 30));
    card.organize(&cli("/card/DCIM", "/card/Organized"));
    // Something else has taken the place of the source.
    card.write("/card/DCIM/100MSDCF/IMG_0001.JPG", "new", at(7, 1, 0, 0));
    let (summary, told) = card.undo();
    assert_eq!((summary.restored, summary.skipped, summary.errors), (0, 1, 0));
    assert_eq!(
        told,
        vec!["skip: source already occupied /card/DCIM/100MSDCF/IMG_0001.JPG"]
    );
    assert_eq!(card.text("/card/DCIM/100MSDCF/IMG_0001.JPG"), "new");
    assert_eq!(
        card.text("/card/Organized/2026/2026-06-15/IMG_0001.JPG"),
        "a"
    );
}

#[test]
fn undo_keeps_a_copy_whose_original_is_gone() {
    let mut card = Card::new();
    card.write("/card/DCIM/100MSDCF/IMG_0001.JPG", "a", at(6, 15, 9, 30));
    let mut args = cli("/card/DCIM", "/card/Organized");
    args.copy = true;
    card.organize(&args);
    card.entries.remove("/card/DCIM/100MSDCF/IMG_0001.JPG");
    let (summary, _) = card.undo();
    assert_eq!((summary.restored, summary.skipped), (0, 1));
    assert!(card.has("/card/Organized/2026/2026-06-15/IMG_0001.JPG"));
}

#[test]
fn overwriting_copies_keep_their_originals() {
    for link in [false, true] {
        let mut card = Card::new();
        let clip = "/card/PRIVATE/M4ROOT/CLIP/C0005.MP4";
        let place = "/card/Organized/2026/2026-06-25/C0005.MP4";
        card.write(clip, "clip-five", at(6, 25, 8, 39));
        card.write(place, "other", at(6, 25, 8, 39));
        let mut args = cli("/card", "/card/Organized");
        args.mode = Some(ModeArg::Video);
        args.link = link;
        args.dedup = Some(DedupArg::Hash);
        args.on_conflict = Some(OnConflictArg::Overwrite);
        let cfg = RunConfig::resolve(&args, &FileConfig::default()).unwrap();
        assert_eq!(card.plan(&cfg)[0].action, Action::Overwrite);
        assert_eq!(card.organize(&args).moved, 1);
        assert_eq!(card.text(place), "clip-five");
        assert_eq!(card.text(clip), "clip-five");
        assert_eq!(card.journal[0].op, if link { "link" } else { "copy" });
        // Undo takes the copy away and leaves the original.
        card.undo();
        assert!(card.has(clip) && !card.entries.contains_key(place));
    }
}

#[test]
fn overwriting_moves_replace_the_target() {
    let mut card = Card::new();
    card.write("/card/DCIM/100MSDCF/A.JPG", "new", at(6, 15, 9, 30));
    card.write("/card/Organized/2026/2026-06-15/A.JPG", "old", at(6, 15, 9, 30));
    let mut args = cli("/card/DCIM", "/card/Organized");
    args.dedup = Some(DedupArg::Off);
    args.on_conflict = Some(OnConflictArg::Overwrite);
    assert_eq!(card.organize(&args).moved, 1);
    assert_eq!(card.text("/card/Organized/2026/2026-06-15/A.JPG"), "new");
    assert!(!card.has("/card/DCIM/100MSDCF/A.JPG"));
    assert_eq!(card.journal[0].op, "overwrite");
}
