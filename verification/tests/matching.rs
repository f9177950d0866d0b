use shotsort::cli::MatchAction;
use shotsort::clock::{Day, Moment};
use shotsort::matchcmd::{
    commit, count_keepers, done_verb, engine_action, exit_code, folder_date, is_hidden, keeper_key,
    local_naive_from_millis, needed_dates, op_word, pick, preview_lines, raws_of, resolve_keepers,
    resolve_key, short, sort_raw, unmatched_count, Gathering, Keeper, KeeperKey, PlaceQuestion,
    RawIndex, RawSeen, Resolution, Tally,
};
use shotsort::pixcake::KeptItem;
use shotsort::types::{Action, CaptureKey};

fn p(s: &str) -> String {
    s.to_string()
}

fn at(second: u32) -> Moment {
    Moment {
        year: 2026,
        month: 7,
        day: 13,
        hour: 17,
        minute: 0,
        second,
        nano: 0,
    }
}

fn key(second: u32, ms: u16) -> CaptureKey {
    CaptureKey {
        dt: at(second),
        subsec_ms: ms,
    }
}

fn day(month: u32, day: u32) -> Day {
    Day {
        year: 2026,
        month,
        day,
    }
}

fn item(original: &str, ms: Option<i64>) -> KeptItem {
    KeptItem {
        original: p(original),
        capture_time_ms: ms,
    }
}

/// Runs the gathering against a disk that holds the given paths, of which the
/// given ones have the size of the RAW that goes there.
fn gather(out: &str, raws: &[&str], present: &[&str], same: &[&str]) -> Vec<(String, String)> {
    let mut g = Gathering::new(out, raws.iter().map(|r| p(r)).collect());
    while let Some(q) = g.need() {
        assert!(g.can_try());
        let answer = match q {
            PlaceQuestion::SameSize { a, .. } => same.contains(&a.as_str()),
            PlaceQuestion::Exists { path } => present.contains(&path.as_str()),
        };
        g.give(answer);
    }
    g.finish()
}

#[test]
fn commit_matches_single_free_candidate() {
    let mut claimed = Vec::new();
    let r = commit(&vec![p("/raw/a.ARW")], false, &mut claimed);
    assert!(matches!(r, Resolution::Matched { coarse: false, .. }));
    // The RAW is now claimed, so a second keeper hitting it is a duplicate.
    let r2 = commit(&vec![p("/raw/a.ARW")], false, &mut claimed);
    assert!(matches!(r2, Resolution::Duplicate(_)));
}

#[test]
fn commit_flags_true_ambiguity() {
    // Two distinct RAWs sharing one timestamp, none claimed -> ambiguous.
    let mut claimed = Vec::new();
    let r = commit(&vec![p("/raw/a.ARW"), p("/raw/b.ARW")], false, &mut claimed);
    assert!(matches!(r, Resolution::Ambiguous(v) if v.len() == 2));
}

#[test]
fn commit_picks_the_only_free_of_several() {
    // A burst pair where one frame was already claimed by an earlier keeper:
    // the second keeper deterministically takes the remaining free RAW.
    let mut claimed = Vec::new();
    claimed.push(p("/raw/a.ARW"));
    let r = commit(&vec![p("/raw/a.ARW"), p("/raw/b.ARW")], false, &mut claimed);
    match r {
        Resolution::Matched { raw, .. } => assert_eq!(raw, p("/raw/b.ARW")),
        _ => panic!("expected a match to the free RAW"),
    }
}

#[test]
fn plan_dst_disambiguates_same_named_raws() {
    // Two different day folders can both hold `0005.ARW` (counter naming).
    let out = "/tmp/shotsort-dsttest";
    let list = gather(
        out,
        &["/card/2026-07-12/0005.ARW", "/card/2026-07-13/0005.ARW"],
        &[],
        &[],
    );
    let d1 = &list[0].1;
    let d2 = &list[1].1;
    assert_eq!(*d1, format!("{out}/0005.ARW"));
    assert_eq!(*d2, format!("{out}/0005_2.ARW"));
    assert_ne!(d1, d2);
}

#[test]
fn gathering_leaves_out_what_is_there() {
    // Present with matching size: already gathered.
    assert!(gather("/out", &["/raw/a.ARW"], &["/out/a.ARW"], &["/out/a.ARW"]).is_empty());
    // Present with another size: gathered beside it.
    assert_eq!(
        gather("/out", &["/raw/a.ARW"], &["/out/a.ARW", "/out/a_2.ARW"], &[]),
        vec![(p("/raw/a.ARW"), p("/out/a_3.ARW"))]
    );
    // A name taken in the same list never counts as gathered before.
    assert_eq!(
        gather("/out", &["/r/1/a.ARW", "/r/2/a.ARW"], &[], &[])[1].1,
        "/out/a_2.ARW"
    );
    assert_eq!(
        gather("/out", &["/raw/noext"], &["/out/noext"], &[])[0].1,
        "/out/noext_2"
    );
}

#[test]
fn keepers_are_paired_by_subsecond() {
    let mut index = RawIndex::new();
    index.add(Some(key(0, 110)), p("/o/2026-07-13/A.ARW"));
    index.add(Some(key(0, 451)), p("/o/2026-07-13/B.ARW"));
    index.add(Some(key(5, 0)), p("/o/2026-07-13/C.ARW"));
    index.add(None, p("/o/2026-07-13/no-time.ARW"));
    let items = vec![
        item("/previews/shot_0002.JPG", None),
        item("/previews/shot_0009.JPG", None),
    ];
    let keys = vec![KeeperKey::Precise(key(0, 451)), KeeperKey::Precise(key(5, 0))];
    let keepers = resolve_keepers(&items, &keys, &index);
    assert_eq!(
        raws_of(&keepers),
        vec![p("/o/2026-07-13/B.ARW"), p("/o/2026-07-13/C.ARW")]
    );
    assert_eq!(count_keepers(&keepers, Tally::Matched), 2);
    assert_eq!(count_keepers(&keepers, Tally::Coarse), 0);
    assert_eq!(unmatched_count(&keepers), 0);
}

#[test]
fn keepers_without_subseconds_fall_back() {
    let mut index = RawIndex::new();
    index.add(Some(key(0, 110)), p("A"));
    index.add(Some(key(0, 451)), p("B"));
    index.add(Some(key(5, 0)), p("C"));
    let mut claimed = Vec::new();
    // No RAW with that fraction: the second decides, and two share it.
    let r = resolve_key(&KeeperKey::Precise(key(0, 7)), &index, &mut claimed);
    assert!(matches!(r, Resolution::Ambiguous(v) if v.len() == 2));
    let r = resolve_key(&KeeperKey::Precise(key(5, 7)), &index, &mut claimed);
    assert!(matches!(r, Resolution::Matched { coarse: true, .. }));
    let r = resolve_key(&KeeperKey::Coarse(at(5)), &index, &mut claimed);
    assert!(matches!(r, Resolution::Duplicate(_)));
    let r = resolve_key(&KeeperKey::Coarse(at(9)), &index, &mut claimed);
    assert!(matches!(r, Resolution::Unmatched));
    let r = resolve_key(&KeeperKey::Unknown, &index, &mut claimed);
    assert!(matches!(r, Resolution::Unmatched));
    let r = pick(&vec![], &vec![], false, &mut claimed);
    assert!(matches!(r, Resolution::Unmatched));
}

#[test]
fn no_raw_goes_to_two_keepers() {
    let mut index = RawIndex::new();
    index.add(Some(key(0, 1)), p("A"));
    let items = vec![item("x", None), item("y", None)];
    let keys = vec![KeeperKey::Precise(key(0, 1)), KeeperKey::Precise(key(0, 1))];
    let keepers = resolve_keepers(&items, &keys, &index);
    assert!(matches!(keepers[0].resolution, Resolution::Matched { .. }));
    assert!(matches!(keepers[1].resolution, Resolution::Duplicate(_)));
}

#[test]
fn a_keeper_has_its_own_time_or_the_stored_one() {
    let it = item("x", Some(1783936195000));
    assert_eq!(keeper_key(Some(key(1, 2)), &it), KeeperKey::Precise(key(1, 2)));
    assert!(matches!(keeper_key(None, &it), KeeperKey::Coarse(_)));
    assert_eq!(keeper_key(None, &item("x", None)), KeeperKey::Unknown);
    assert_eq!(keeper_key(None, &item("x", Some(i64::MAX))), KeeperKey::Unknown);
}

#[test]
fn stored_times_keep_their_milliseconds() {
    assert_eq!(local_naive_from_millis(1783936195123).unwrap().nano, 123000000);
    assert_eq!(local_naive_from_millis(-1).unwrap().nano, 999000000);
    assert_eq!(local_naive_from_millis(-1000).unwrap().nano, 0);
    assert_eq!(local_naive_from_millis(i64::MIN), None);
}

#[test]
fn needed_dates_reach_a_day_around() {
    let days = needed_dates(&vec![KeeperKey::Precise(key(0, 0)), KeeperKey::Unknown]);
    for d in [12, 13, 14] {
        assert!(days.contains(&day(7, d)));
    }
    assert!(!days.contains(&day(7, 11)));
    let new_year = Moment {
        month: 1,
        day: 1,
        ..at(0)
    };
    let days = needed_dates(&vec![KeeperKey::Coarse(new_year)]);
    assert!(days.contains(&Day {
        year: 2025,
        month: 12,
        day: 31
    }));
    assert!(days.contains(&day(1, 2)));
    let leap = Moment {
        year: 2024,
        month: 2,
        day: 28,
        ..at(0)
    };
    let days = needed_dates(&vec![KeeperKey::Coarse(leap)]);
    assert!(days.contains(&Day {
        year: 2024,
        month: 2,
        day: 29
    }));
    assert!(needed_dates(&vec![]).is_empty());
}

#[test]
fn raws_are_filtered_by_their_folder() {
    assert_eq!(folder_date("/o/2026/2026-07-13/A.ARW"), Some(day(7, 13)));
    assert_eq!(folder_date("/o/misc/A.ARW"), None);
    assert_eq!(folder_date("/o/2026-02-30/A.ARW"), None);
    let needed = vec![day(7, 13)];
    assert_eq!(sort_raw("/o/2026-07-13/A.ARW", &needed), RawSeen::Wanted);
    assert_eq!(sort_raw("/o/2026-07-15/A.arw", &needed), RawSeen::Skipped);
    assert_eq!(sort_raw("/o/somewhere/A.ARW", &needed), RawSeen::Wanted);
    assert_eq!(sort_raw("/o/2026-07-13/A.JPG", &needed), RawSeen::Other);
    assert_eq!(sort_raw("/o/2026-07-13/A", &needed), RawSeen::Other);
}

#[test]
fn hidden_names() {
    assert!(is_hidden(Some(".Trashes")));
    assert!(!is_hidden(Some(".")));
    assert!(!is_hidden(Some("..")));
    assert!(!is_hidden(Some("a")));
    assert!(!is_hidden(None));
}

#[test]
fn words_and_codes() {
    assert_eq!(op_word(MatchAction::Copy), "copy");
    assert_eq!(op_word(MatchAction::Move), "move");
    assert_eq!(op_word(MatchAction::Link), "link");
    assert_eq!(done_verb(MatchAction::Link), "Linked");
    assert_eq!(engine_action(MatchAction::Move), Action::Move);
    assert_eq!(exit_code(0, 0), 0);
    assert_eq!(exit_code(1, 0), 1);
    assert_eq!(exit_code(0, 1), 1);
    assert_eq!(short("/a/b.jpg"), "b.jpg");
    assert_eq!(short("/"), "/");
}

#[test]
fn summary_of_a_match() {
    let keepers = vec![
        Keeper {
            original: p("/k/1.JPG"),
            resolution: Resolution::Matched {
                raw: p("/r/1.ARW"),
                coarse: true,
            },
        },
        Keeper {
            original: p("/k/2.JPG"),
            resolution: Resolution::Unmatched,
        },
        Keeper {
            original: p("/k/3.JPG"),
            resolution: Resolution::Ambiguous(vec![p("/r/a.ARW"), p("/r/b.ARW")]),
        },
        Keeper {
            original: p("/k/4.JPG"),
            resolution: Resolution::Duplicate(p("/r/1.ARW")),
        },
    ];
    assert_eq!(unmatched_count(&keepers), 2);
    let lines = preview_lines(&keepers, 1, MatchAction::Copy, "/out");
    assert_eq!(
        lines,
        vec![
            "",
            "Match summary",
            "  kept photos : 4",
            "  matched RAW : 1",
            "    (of these, 1 matched at second precision only)",
            "  to copy     : 1  ->  /out",
            "  unmatched   : 1 (no RAW with this capture time)",
            "      2.JPG",
            "  ambiguous   : 1 (several RAWs share the timestamp)",
            "      3.JPG  ->  a.ARW, b.ARW",
            "  duplicate   : 1 (keeper resolves to an already-claimed RAW)",
            "      4.JPG  ->  1.ARW",
        ]
    );
}

#[test]
fn long_lists_of_unmatched_keepers_are_cut() {
    let mut keepers = Vec::new();
    for i in 0..23 {
        keepers.push(Keeper {
            original: format!("/k/{i}.JPG"),
            resolution: Resolution::Unmatched,
        });
    }
    let lines = preview_lines(&keepers, 0, MatchAction::Move, "/out");
    assert_eq!(lines.len(), 5 + 1 + 20 + 1);
    assert_eq!(lines[25], "      19.JPG");
    assert_eq!(lines[26], "      ... and 3 more");
}
