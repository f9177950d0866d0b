use shotsort::cli::ModeArg;
use shotsort::guard::{
    assert_target_allowed, is_within, normalize, same_path, validate_dest, validate_dest_in_mode,
    GuardError,
};

#[test]
fn rejects_dest_in_dcim() {
    let src = "/Volumes/SONY/DCIM";
    let dst = "/Volumes/SONY/DCIM/Organized";
    assert!(validate_dest(src, dst).is_err());
}

#[test]
fn rejects_dest_equals_source() {
    let p = "/Volumes/SONY/DCIM";
    assert!(validate_dest(p, p).is_err());
}

#[test]
fn rejects_admin_dest() {
    let src = "/Volumes/SONY/DCIM";
    let dst = "/Volumes/SONY/PRIVATE/x";
    assert!(validate_dest(src, dst).is_err());
}

#[test]
fn accepts_sibling_dest() {
    let src = "/Volumes/SONY/DCIM";
    let dst = "/Volumes/SONY/Organized";
    assert!(validate_dest(src, dst).is_ok());
}

#[test]
fn normalize_resolves_dotdot() {
    assert_eq!(normalize("/a/b/../c", "/"), "/a/c");
}

#[test]
fn normalize_makes_paths_absolute() {
    assert_eq!(normalize("x/./y", "/home/me"), "/home/me/x/y");
    assert_eq!(normalize("../x", "/home/me"), "/home/x");
    assert_eq!(normalize("/a//b/", "/"), "/a/b");
    assert_eq!(normalize("/..", "/"), "/");
    // Twice is once.
    let once = normalize("/a/./b/../c//d", "/");
    assert_eq!(normalize(&once, "/elsewhere"), once);
}

#[test]
fn each_refusal_has_its_reason() {
    let src = "/Volumes/SONY/DCIM";
    assert_eq!(validate_dest(src, src), Err(GuardError::SameAsSource));
    assert_eq!(
        validate_dest(src, "/Volumes/SONY/DCIM/Organized"),
        Err(GuardError::InsideSource)
    );
    assert_eq!(
        validate_dest(src, "/Volumes/SONY"),
        Err(GuardError::ContainsSource)
    );
    assert_eq!(
        validate_dest(src, "/Volumes/SONY/private/x"),
        Err(GuardError::Forbidden)
    );
    assert_eq!(
        validate_dest("/Volumes/SONY/Other", "/Volumes/SONY/dcim/x"),
        Err(GuardError::Forbidden)
    );
    assert_eq!(
        assert_target_allowed("/Volumes/SONY/x.jpg", "/Volumes/SONY/Organized"),
        Err(GuardError::OutsideRoot)
    );
    assert_eq!(
        assert_target_allowed("/Volumes/SONY/Organized/x.jpg", "/Volumes/SONY/Organized"),
        Ok(())
    );
}

#[test]
fn refusals_say_why() {
    let m = GuardError::InsideSource.message("/card/DCIM", "/card/DCIM/Organized");
    assert!(m.contains("inside SOURCE"), "{m}");
    assert_eq!(
        GuardError::SameAsSource.message("/a", "/a"),
        "--dest must differ from SOURCE (/a)"
    );
}

#[test]
fn video_mode_takes_a_dest_inside_the_card() {
    let card = "/Volumes/SONY";
    assert!(validate_dest_in_mode(card, "/Volumes/SONY/Videos", ModeArg::Video).is_ok());
    assert!(validate_dest_in_mode(card, "/Volumes/SONY/Videos", ModeArg::Photo).is_err());
    assert!(validate_dest_in_mode(card, "/Volumes/SONY/PRIVATE/x", ModeArg::Video).is_err());
    assert!(validate_dest_in_mode(card, card, ModeArg::Video).is_err());
}

#[test]
fn within_goes_by_components() {
    assert!(is_within("/a/b/c", "/a/b"));
    assert!(is_within("/a/b", "/a/b"));
    assert!(!is_within("/a/bc", "/a/b"));
    assert!(same_path("/a//b/", "/a/b"));
    assert!(!same_path("/a/B", "/a/b"));
}

#[test]
fn the_card_root_may_be_spelled_in_another_case() {
    let src = "/Volumes/SONY/DCIM";
    for dst in ["/volumes/sony/PRIVATE/x", "/VOLUMES/SONY/dcim/x", "/Volumes/SONY/dcim/x"] {
        assert_eq!(validate_dest(src, dst), Err(GuardError::Forbidden), "{dst}");
    }
    // The name of the volume itself is not the camera's directory.
    assert!(validate_dest(src, "/volumes/sony/Organized").is_ok());
    assert_eq!(
        validate_dest_in_mode("/Volumes/SONY", "/volumes/sony/PRIVATE/x", ModeArg::Video),
        Err(GuardError::Forbidden)
    );
}

#[test]
fn targets_cannot_climb_out() {
    let root = "/c/Organized";
    for dst in ["/c/Organized/../DCIM/a.JPG", "/c/Organized/x/../../a.JPG", "/c/Organized/.."] {
        assert_eq!(assert_target_allowed(dst, root), Err(GuardError::OutsideRoot), "{dst}");
    }
    for dst in ["/c/Organized/a/../b.JPG", "/c/Organized/./b.JPG", "/c/Organized"] {
        assert_eq!(assert_target_allowed(dst, root), Ok(()), "{dst}");
    }
}
