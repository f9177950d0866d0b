use shotsort::cli::VerifyArg;
use shotsort::engine::{relative_link, same_filesystem, temp_sibling, Op, Reply, Transfer, Trouble};
use shotsort::types::Action;

fn begin(action: Action, verify: VerifyArg) -> Transfer {
    Transfer::new("/s/a.jpg", "/d/x/a.jpg", action, verify, 7)
}

/// Plays a transfer against the given replies; returns the operations asked for.
fn play(t: &mut Transfer, replies: Vec<Reply>) -> Vec<String> {
    let mut asked = Vec::new();
    for r in replies {
        asked.push(name(t.ask().unwrap()));
        t.reply(r);
    }
    asked
}

fn name(op: Op) -> String {
    match op {
        Op::MakeDirs { path } => format!("mkdir {path}"),
        Op::Size { path } => format!("stat {path}"),
        Op::Rename { from, to } => format!("mv {from} {to}"),
        Op::Copy { from, to } => format!("cp {from} {to}"),
        Op::Hash { path } => format!("hash {path}"),
        Op::Remove { path } => format!("rm {path}"),
        Op::Exists { path } => format!("test {path}"),
        Op::Link { at, target } => format!("ln {target} {at}"),
    }
}

fn trouble(t: &Transfer) -> (Trouble, String) {
    match t.result() {
        Some(Err(e)) => (e, t.message(e)),
        _ => panic!("the transfer did not fail"),
    }
}

#[test]
fn a_move_is_one_rename() {
    let mut t = begin(Action::Move, VerifyArg::Auto);
    assert!(t.result().is_none());
    let asked = play(
        &mut t,
        vec![
            Reply::Done,
            Reply::Size(9),
            Reply::Done,
            Reply::Found(true),
            Reply::Found(false),
        ],
    );
    assert_eq!(
        asked,
        vec![
            "mkdir /d/x",
            "stat /s/a.jpg",
            "mv /s/a.jpg /d/x/a.jpg",
            "test /d/x/a.jpg",
            "test /s/a.jpg"
        ]
    );
    assert!(t.ask().is_none());
    match t.result() {
        Some(Ok(o)) => assert_eq!((o.bytes, o.crossed_fs), (9, false)),
        _ => panic!("the move should have ended"),
    }
}

#[test]
fn verification_can_be_off() {
    let mut t = begin(Action::Move, VerifyArg::Off);
    play(&mut t, vec![Reply::Done, Reply::Size(9), Reply::Done]);
    assert!(matches!(t.result(), Some(Ok(_))));
}

#[test]
fn across_filesystems_the_source_goes_last() {
    let mut t = begin(Action::Overwrite, VerifyArg::Off);
    let tmp = "/d/x/.a.jpg.shotsort-7.tmp";
    let asked = play(
        &mut t,
        vec![
            Reply::Done,
            Reply::Size(9),
            Reply::CrossDevice,
            Reply::Done,
            Reply::Digest(vec![1, 2]),
            Reply::Digest(vec![1, 2]),
            Reply::Done,
            Reply::Done,
        ],
    );
    assert_eq!(
        asked[3..],
        [
            format!("cp /s/a.jpg {tmp}"),
            "hash /s/a.jpg".to_string(),
            format!("hash {tmp}"),
            format!("mv {tmp} /d/x/a.jpg"),
            "rm /s/a.jpg".to_string(),
        ]
    );
    assert!(matches!(t.result(), Some(Ok(o)) if o.crossed_fs));
}

#[test]
fn a_copy_that_differs_is_thrown_away() {
    let mut t = begin(Action::Move, VerifyArg::Auto);
    let asked = play(
        &mut t,
        vec![
            Reply::Done,
            Reply::Size(9),
            Reply::CrossDevice,
            Reply::Done,
            Reply::Digest(vec![1]),
            Reply::Digest(vec![2]),
            Reply::Failed,
        ],
    );
    assert_eq!(asked[6], "rm /d/x/.a.jpg.shotsort-7.tmp");
    assert_eq!(
        trouble(&t),
        (
            Trouble::Mismatch,
            "cross-fs copy verification failed for /s/a.jpg; source left intact".to_string()
        )
    );
    let mut t = begin(Action::Copy, VerifyArg::Hash);
    play(
        &mut t,
        vec![
            Reply::Done,
            Reply::Size(9),
            Reply::Done,
            Reply::Digest(vec![1]),
            Reply::Digest(vec![2]),
            Reply::Done,
        ],
    );
    assert_eq!(
        trouble(&t).1,
        "copy verification failed for /s/a.jpg".to_string()
    );
}

#[test]
fn a_copy_is_hashed_where_asked() {
    let hashed = |v: VerifyArg| {
        let mut t = begin(Action::Copy, v);
        let asked = play(&mut t, vec![Reply::Done, Reply::Size(1), Reply::Done]);
        assert_eq!(asked[2], "cp /s/a.jpg /d/x/.a.jpg.shotsort-7.tmp");
        name(t.ask().unwrap()).starts_with("hash")
    };
    assert!(hashed(VerifyArg::Auto) && hashed(VerifyArg::Hash));
    assert!(!hashed(VerifyArg::Size) && !hashed(VerifyArg::Off));
}

#[test]
fn every_failure_is_told() {
    let cases: Vec<(Action, Vec<Reply>, Trouble, &str)> = vec![
        (
            Action::Move,
            vec![Reply::Failed],
            Trouble::CreateDir,
            "creating target dir /d/x",
        ),
        (
            Action::Move,
            vec![Reply::Done, Reply::Failed],
            Trouble::Stat,
            "stat source /s/a.jpg",
        ),
        (
            Action::Move,
            vec![Reply::Done, Reply::Size(1), Reply::Failed],
            Trouble::Rename,
            "renaming /s/a.jpg -> /d/x/a.jpg",
        ),
        (
            Action::Move,
            vec![Reply::Done, Reply::Size(1), Reply::Done, Reply::Found(false)],
            Trouble::TargetMissing,
            "post-move check failed: target missing /d/x/a.jpg",
        ),
        (
            Action::Move,
            vec![
                Reply::Done,
                Reply::Size(1),
                Reply::Done,
                Reply::Found(true),
                Reply::Found(true),
            ],
            Trouble::SourcePresent,
            "post-move check failed: source still present /s/a.jpg",
        ),
        (
            Action::Copy,
            vec![Reply::Done, Reply::Size(1), Reply::Failed],
            Trouble::Copy,
            "copying /s/a.jpg -> /d/x/.a.jpg.shotsort-7.tmp",
        ),
        (
            Action::Move,
            vec![Reply::Done, Reply::Size(1), Reply::CrossDevice, Reply::Done, Reply::Failed],
            Trouble::HashSource,
            "hashing source /s/a.jpg",
        ),
        (
            Action::Move,
            vec![
                Reply::Done,
                Reply::Size(1),
                Reply::CrossDevice,
                Reply::Done,
                Reply::Digest(vec![1]),
                Reply::Failed,
            ],
            Trouble::HashTemp,
            "hashing temp /d/x/.a.jpg.shotsort-7.tmp",
        ),
        (
            Action::Move,
            vec![
                Reply::Done,
                Reply::Size(1),
                Reply::CrossDevice,
                Reply::Done,
                Reply::Digest(vec![1]),
                Reply::Digest(vec![1]),
                Reply::Done,
                Reply::Failed,
            ],
            Trouble::RemoveSource,
            "removing source /s/a.jpg",
        ),
        (
            Action::Copy,
            vec![
                Reply::Done,
                Reply::Size(1),
                Reply::Done,
                Reply::Digest(vec![1]),
                Reply::Digest(vec![1]),
                Reply::Failed,
            ],
            Trouble::Promote,
            "promoting temp /d/x/.a.jpg.shotsort-7.tmp -> /d/x/a.jpg",
        ),
        (
            Action::Link,
            vec![Reply::Done, Reply::Size(1), Reply::Failed],
            Trouble::Link,
            "linking /d/x/a.jpg -> /s/a.jpg",
        ),
        (
            Action::SkipConflict,
            vec![Reply::Done, Reply::Size(1)],
            Trouble::Impossible,
            "engine cannot perform action SkipConflict",
        ),
    ];
    for (action, replies, wanted, text) in cases {
        let mut t = begin(action, VerifyArg::Auto);
        play(&mut t, replies);
        assert_eq!(trouble(&t), (wanted, text.to_string()));
    }
}

#[test]
fn temporary_names_stand_beside_the_target() {
    assert_eq!(temp_sibling("/d/a.jpg", 12), "/d/.a.jpg.shotsort-12.tmp");
    assert_eq!(temp_sibling("a", 1), ".a.shotsort-1.tmp");
    // The root has neither a name nor a directory above it.
    assert_eq!(temp_sibling("/", 1), "./.file.shotsort-1.tmp");
}

#[test]
fn links_lead_back_over_the_common_root() {
    assert_eq!(
        relative_link("/card/Videos/2026/d", "/card/PRIVATE/CLIP/C.MP4"),
        "../../../PRIVATE/CLIP/C.MP4"
    );
    assert_eq!(relative_link("/a", "/a/b"), "b");
    assert_eq!(relative_link("/a/b", "/c"), "../../c");
}

#[test]
fn a_link_is_written_beside_and_put_in_place() {
    let mut t = begin(Action::Link, VerifyArg::Auto);
    let asked = play(&mut t, vec![Reply::Done, Reply::Size(9), Reply::Done, Reply::Done]);
    assert_eq!(
        asked[2..],
        [
            "ln ../../s/a.jpg /d/x/.a.jpg.shotsort-7.tmp",
            "mv /d/x/.a.jpg.shotsort-7.tmp /d/x/a.jpg"
        ]
    );
    assert!(matches!(t.result(), Some(Ok(o)) if o.bytes == 9 && !o.crossed_fs));
}

#[test]
fn links_outlive_a_renamed_card() {
    let on = |card: &str| {
        relative_link(
            &format!("{card}/Videos/2026"),
            &format!("{card}/PRIVATE/M4ROOT/CLIP/C0005.MP4"),
        )
    };
    assert_eq!(on("/Volumes/SONY"), "../../PRIVATE/M4ROOT/CLIP/C0005.MP4");
    assert_eq!(on("/Volumes/SONY"), on("/mnt/somewhere/else"));
}

#[test]
fn devices_tell_filesystems_apart() {
    assert!(same_filesystem(7, 7));
    assert!(!same_filesystem(7, 8));
}
