use shotsort::cli::TypeSel;
use shotsort::filetype::{classify, is_admin_dir, is_video_aux_dir, kind_selected};
use shotsort::types::FileKind;

#[test]
fn video_mode_descends_containers_but_skips_aux() {
    // Containers we must enter to reach the masters.
    for c in ["PRIVATE", "M4ROOT", "MP_ROOT", "CLIP", "STREAM", "BDMV"] {
        assert!(
            !is_video_aux_dir(c),
            "{c} should be descended in video mode"
        );
    }
    // Proxy / thumbnail / metadata trees we must skip.
    for a in ["SUB", "THMBNL", "WAV", "GENERAL", "DATABASE", "AVF_INFO"] {
        assert!(is_video_aux_dir(a), "{a} should be skipped in video mode");
    }
    // Case-insensitive (cards are FAT/exFAT).
    assert!(is_video_aux_dir("sub"));
}

#[test]
fn managed_dirs_are_known_in_any_case() {
    for d in ["PRIVATE", "MP_ROOT", "M4ROOT", "AVF_INFO", "MISC", "SONY", "private", "Sony"] {
        assert!(is_admin_dir(d), "{d}");
    }
    assert!(!is_admin_dir("DCIM"));
    assert!(!is_admin_dir("100MSDCF"));
}

#[test]
fn extensions_have_their_kinds() {
    for e in ["arw", "cr2", "cr3", "nef", "raf", "orf", "rw2", "dng", "pef", "srw", "nrw"] {
        assert_eq!(classify(e), Some(FileKind::Raw), "{e}");
    }
    for e in ["jpg", "jpeg", "heic", "heif", "tif", "tiff", "png"] {
        assert_eq!(classify(e), Some(FileKind::Jpeg), "{e}");
    }
    for e in ["mp4", "mov", "m4v", "avi", "mts", "m2ts"] {
        assert_eq!(classify(e), Some(FileKind::Video), "{e}");
    }
    assert_eq!(classify("xmp"), Some(FileKind::Sidecar));
    assert_eq!(classify("txt"), None);
    assert_eq!(classify("ARW"), None);
    assert_eq!(classify(""), None);
}

#[test]
fn type_filter_selects_kinds() {
    assert!(kind_selected(FileKind::Video, &None));
    let raw = Some(vec![TypeSel::Raw]);
    assert!(kind_selected(FileKind::Raw, &raw));
    assert!(!kind_selected(FileKind::Jpeg, &raw));
    // Their primary decides over sidecars.
    assert!(kind_selected(FileKind::Sidecar, &raw));
    let two = Some(vec![TypeSel::Jpeg, TypeSel::Video]);
    assert!(kind_selected(FileKind::Jpeg, &two));
    assert!(kind_selected(FileKind::Video, &two));
    assert!(!kind_selected(FileKind::Raw, &two));
    assert!(!kind_selected(FileKind::Raw, &Some(vec![])));
}

#[test]
fn labels_of_kinds() {
    assert_eq!(FileKind::Raw.label(), "raw");
    assert_eq!(FileKind::Jpeg.label(), "jpeg");
    assert_eq!(FileKind::Video.label(), "video");
    assert_eq!(FileKind::Sidecar.label(), "sidecar");
}
