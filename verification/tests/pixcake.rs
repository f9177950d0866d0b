use shotsort::pixcake::{
    base_db, default_data_dir, find_project, is_project_dir, is_user_dir, kept_items,
    known_project_names, like_pattern, project_db, project_ids, resolve_via_base_db,
    resolve_via_scan, sidecar, LogRow, ScanHit, Sightings, ThumbRow,
};

fn thumb(path: &str, bin: i64, cap: i64) -> ThumbRow {
    ThumbRow {
        path: Some(path.to_string()),
        in_recycle_bin: Some(bin),
        is_valid: Some(1),
        capture_time: Some(cap),
    }
}

fn log(name: &str, user: i64, project: i64, time: i64) -> LogRow {
    LogRow {
        name: Some(name.to_string()),
        user,
        project,
        time: Some(time),
    }
}

fn nothing_seen() -> Sightings {
    Sightings {
        data_dir_exists: true,
        via_base: None,
        via_scan: None,
        known: Vec::new(),
    }
}

#[test]
fn kept_items_excludes_recycle_bin() {
    let rows = vec![
        thumb("/p/shot_0005.JPG", 0, 1783936195000),
        thumb("/p/shot_0006.JPG", 1, 1783936196000), // removed -> excluded
        thumb("/p/shot_0007.JPG", 0, 0),             // kept, no capture time
    ];
    let mut kept = kept_items(&rows);
    kept.sort_by(|a, b| a.original.cmp(&b.original));
    assert_eq!(kept.len(), 2);
    assert_eq!(kept[0].original, "/p/shot_0005.JPG");
    assert_eq!(kept[0].capture_time_ms, Some(1783936195000));
    assert_eq!(kept[1].original, "/p/shot_0007.JPG");
    assert_eq!(kept[1].capture_time_ms, None); // 0 normalized to None
}

#[test]
fn kept_items_come_once_in_order() {
    let mut invalid = thumb("/p/x.JPG", 0, 5);
    invalid.is_valid = Some(0);
    let mut unflagged = thumb("/p/y.JPG", 0, 5);
    unflagged.in_recycle_bin = None;
    let mut nameless = thumb("", 0, 5);
    let rows = vec![
        thumb("/p/b.JPG", 0, 7),
        thumb("/p/a.JPG", 0, 3),
        thumb("/p/b.JPG", 0, 9),
        thumb("/p/b.JPG", 1, 11),
        invalid,
        unflagged,
        nameless.clone(),
    ];
    let kept = kept_items(&rows);
    assert_eq!(kept.len(), 2);
    assert_eq!(kept[0].original, "/p/a.JPG");
    assert_eq!(kept[1].original, "/p/b.JPG");
    assert_eq!(kept[1].capture_time_ms, Some(9));
    nameless.path = None;
    assert!(kept_items(&vec![nameless]).is_empty());
}

#[test]
fn the_newest_project_of_a_name_comes_first() {
    let rows = vec![
        log("SHOOT", 1, 1, 100),
        log("SHOOT", 1, 2, 300),
        log("OTHER", 9, 9, 900),
        log("SHOOT", 1, 1, 200),
        LogRow {
            name: Some("SHOOT".to_string()),
            user: 5,
            project: 5,
            time: None,
        },
    ];
    assert_eq!(project_ids(&rows, "SHOOT"), vec![(1, 2), (1, 1), (5, 5)]);
    assert_eq!(project_ids(&rows, "NONE"), vec![]);
    assert_eq!(known_project_names(&rows), vec!["OTHER", "SHOOT"]);
}

#[test]
fn at_most_thirty_names_are_listed() {
    let mut rows = Vec::new();
    for i in 0..40 {
        rows.push(log(&format!("P{i}"), 1, i, i));
    }
    let names = known_project_names(&rows);
    assert_eq!(names.len(), 30);
    assert_eq!(names[0], "P39");
    assert_eq!(names[29], "P10");
}

#[test]
fn paths_of_databases() {
    assert_eq!(
        project_db("/pix", (1, -2)),
        "/pix/db/user_1/project_-2/project.db"
    );
    assert_eq!(base_db("/pix"), "/pix/db/base.db");
    assert_eq!(
        default_data_dir("/Users/me"),
        "/Users/me/Library/Application Support/PixCake-qt_pro"
    );
    assert_eq!(sidecar("/pix/foo.db", "-wal"), "/pix/foo.db-wal");
    assert_eq!(like_pattern("SHOOT"), "%/SHOOT\\_%");
    assert!(is_user_dir("user_7") && !is_user_dir("users"));
    assert!(is_project_dir("project_7") && !is_project_dir("x"));
    assert!(project_db("/p", (i64::MIN, 0)).contains("user_-9223372036854775808"));
}

#[test]
fn the_first_live_database_wins() {
    let ids = vec![(1, 2), (1, 1)];
    assert_eq!(
        resolve_via_base_db("/pix", &ids, &vec![false, true]),
        Some("/pix/db/user_1/project_1/project.db".to_string())
    );
    assert_eq!(resolve_via_base_db("/pix", &ids, &vec![false, false]), None);
}

#[test]
fn the_last_changed_database_wins_a_scan() {
    let hit = |secs: i64, nanos: u32, db: &str| ScanHit {
        secs,
        nanos,
        db: db.to_string(),
    };
    assert_eq!(resolve_via_scan(&vec![]), None);
    let hits = vec![hit(5, 0, "a"), hit(7, 1, "b"), hit(7, 1, "c"), hit(7, 0, "d")];
    assert_eq!(resolve_via_scan(&hits), Some("b".to_string()));
}

#[test]
fn a_project_is_found_or_its_absence_explained() {
    let mut s = nothing_seen();
    s.via_scan = Some("/scan.db".to_string());
    assert_eq!(find_project("/pix", "X", &s), Ok("/scan.db".to_string()));
    s.via_base = Some("/base.db".to_string());
    assert_eq!(find_project("/pix", "X", &s), Ok("/base.db".to_string()));
    s.data_dir_exists = false;
    assert_eq!(
        find_project("/pix", "X", &s),
        Err(
            "PixCake data directory not found: /pix\n  (pass --pixcake-dir to point at it)"
                .to_string()
        )
    );
    assert_eq!(
        find_project("/pix", "a\"b", &nothing_seen()),
        Err("no PixCake project named \"a\\\"b\" found under /pix".to_string())
    );
    let mut s = nothing_seen();
    s.known = vec!["A".to_string(), "B".to_string()];
    assert_eq!(
        find_project("/pix", "X", &s),
        Err("no PixCake project named \"X\". Known projects (newest first):\n  A\n  B".to_string())
    );
}
