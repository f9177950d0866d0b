//! Extension-based classification and the camera-managed directory blocklist.

use vstd::prelude::*;

use crate::cli::TypeSel;
use crate::text;
use crate::types::FileKind;

verus! {

/// Whether a text equals one of the given words.
pub open spec fn one_of(s: Seq<char>, words: Seq<Seq<char>>) -> bool {
    words.contains(s)
}

/// Camera-managed directories that must never be scanned, written into, or
/// cleaned, in lower case.
pub open spec fn admin_dirs() -> Seq<Seq<char>> {
    seq!["private"@, "mp_root"@, "m4root"@, "avf_info"@, "misc"@, "sony"@]
}

/// Whether a directory name is camera-managed, whatever its case.
pub open spec fn admin_name(name: Seq<char>) -> bool {
    one_of(text::ascii_lower(name), admin_dirs())
}

/// Camera-internal subdirectories that never hold full-resolution video
/// masters: proxy, thumbnail, audio and metadata trees, in lower case.
pub open spec fn video_aux_dirs() -> Seq<Seq<char>> {
    seq!["sub"@, "thmbnl"@, "wav"@, "general"@, "database"@, "avf_info"@, "misc"@, "sony"@]
}

/// Whether a directory name is one that a video scan skips, whatever its case.
pub open spec fn video_aux_name(name: Seq<char>) -> bool {
    one_of(text::ascii_lower(name), video_aux_dirs())
}

/// Extensions of RAW images.
pub open spec fn raw_exts() -> Seq<Seq<char>> {
    seq![
        "arw"@,
        "cr2"@,
        "cr3"@,
        "nef"@,
        "raf"@,
        "orf"@,
        "rw2"@,
        "dng"@,
        "pef"@,
        "srw"@,
        "nrw"@,
    ]
}

/// Extensions of processed images.
pub open spec fn jpeg_exts() -> Seq<Seq<char>> {
    seq!["jpg"@, "jpeg"@, "heic"@, "heif"@, "tif"@, "tiff"@, "png"@]
}

/// Extensions of videos.
pub open spec fn video_exts() -> Seq<Seq<char>> {
    seq!["mp4"@, "mov"@, "m4v"@, "avi"@, "mts"@, "m2ts"@]
}

/// The kind that a lower-case extension stands for.
pub open spec fn kind_of(ext: Seq<char>) -> Option<FileKind> {
    if one_of(ext, raw_exts()) {
        Some(FileKind::Raw)
    } else if one_of(ext, jpeg_exts()) {
        Some(FileKind::Jpeg)
    } else if one_of(ext, video_exts()) {
        Some(FileKind::Video)
    } else if ext == "xmp"@ {
        Some(FileKind::Sidecar)
    } else {
        None
    }
}

/// The words of a static list, as a vector.
fn word_list(words: &[&'static str]) -> (r: Vec<String>)
    ensures
        r@.len() == words@.len(),
        forall|i: int| 0 <= i < words@.len() ==> (#[trigger] r@[i])@ == words@[i]@,
{
    let mut r: Vec<String> = Vec::new();
    let mut i: usize = 0;
    while i < words.len()
        invariant
            i <= words@.len(),
            r@.len() == i,
            forall|j: int| 0 <= j < i ==> (#[trigger] r@[j])@ == words@[j]@,
        decreases words@.len() - i,
    {
        r.push(words[i].to_owned());
        i = i + 1;
    }
    r
}

/// Whether `s` is among `words`.
fn is_one_of(s: &str, words: &[&'static str]) -> (r: bool)
    ensures
        r == one_of(s@, Seq::new(words@.len(), |i: int| words@[i]@)),
{
    let list: Vec<String> = word_list(words);
    proof {
        assert(text::views(list@) =~= Seq::new(words@.len(), |i: int| words@[i]@));
    }
    text::list_has(&list, s)
}

/// Returns true if a directory name is a camera-managed (forbidden) dir.
pub fn is_admin_dir(name: &str) -> (r: bool)
    ensures
        r == admin_name(name@),
{
    let words: [&'static str; 6] = ["private", "mp_root", "m4root", "avf_info", "misc", "sony"];
    proof {
        assert(Seq::new(words@.len(), |i: int| words@[i]@) =~= admin_dirs());
    }
    is_one_of(text::to_ascii_lower(name).as_str(), &words)
}

/// True if a directory name should be skipped while scanning in video mode.
pub fn is_video_aux_dir(name: &str) -> (r: bool)
    ensures
        r == video_aux_name(name@),
{
    let words: [&'static str; 8] = [
        "sub",
        "thmbnl",
        "wav",
        "general",
        "database",
        "avf_info",
        "misc",
        "sony",
    ];
    proof {
        assert(Seq::new(words@.len(), |i: int| words@[i]@) =~= video_aux_dirs());
    }
    is_one_of(text::to_ascii_lower(name).as_str(), &words)
}

/// Classify a lowercase extension (no dot) into a [`FileKind`].
pub fn classify(ext_lower: &str) -> (r: Option<FileKind>)
    ensures
        r == kind_of(ext_lower@),
{
    let raw: [&'static str; 11] = [
        "arw",
        "cr2",
        "cr3",
        "nef",
        "raf",
        "orf",
        "rw2",
        "dng",
        "pef",
        "srw",
        "nrw",
    ];
    let jpeg: [&'static str; 7] = ["jpg", "jpeg", "heic", "heif", "tif", "tiff", "png"];
    let video: [&'static str; 6] = ["mp4", "mov", "m4v", "avi", "mts", "m2ts"];
    proof {
        assert(Seq::new(raw@.len(), |i: int| raw@[i]@) =~= raw_exts());
        assert(Seq::new(jpeg@.len(), |i: int| jpeg@[i]@) =~= jpeg_exts());
        assert(Seq::new(video@.len(), |i: int| video@[i]@) =~= video_exts());
    }
    if is_one_of(ext_lower, &raw) {
        Some(FileKind::Raw)
    } else if is_one_of(ext_lower, &jpeg) {
        Some(FileKind::Jpeg)
    } else if is_one_of(ext_lower, &video) {
        Some(FileKind::Video)
    } else if text::same(ext_lower, "xmp") {
        Some(FileKind::Sidecar)
    } else {
        None
    }
}

/// The kind that a type selector stands for; `All` stands for none of them.
pub open spec fn selects(t: TypeSel, kind: FileKind) -> bool {
    match t {
        TypeSel::Raw => kind == FileKind::Raw,
        TypeSel::Jpeg => kind == FileKind::Jpeg,
        TypeSel::Video => kind == FileKind::Video,
        TypeSel::All => false,
    }
}

/// Whether a kind passes the resolved type filter. No filter passes every
/// kind, and sidecars always pass: their primary decides.
pub open spec fn kind_passes(kind: FileKind, kinds: Option<Seq<TypeSel>>) -> bool {
    match kinds {
        None => true,
        Some(sel) => kind == FileKind::Sidecar || exists|i: int|
            0 <= i < sel.len() && selects(#[trigger] sel[i], kind),
    }
}

/// The elements of an optional vector.
pub open spec fn opt_seq<T>(v: Option<Vec<T>>) -> Option<Seq<T>> {
    match v {
        Some(w) => Some(w@),
        None => None,
    }
}

/// Whether a media kind is selected, given the resolved type filter.
pub fn kind_selected(kind: FileKind, kinds: &Option<Vec<TypeSel>>) -> (r: bool)
    ensures
        r == kind_passes(kind, opt_seq(*kinds)),
{
    if kind == FileKind::Sidecar {
        return true;
    }
    match kinds {
        None => true,
        Some(sel) => {
            let mut i: usize = 0;
            while i < sel.len()
                invariant
                    i <= sel@.len(),
                    opt_seq(*kinds) == Some(sel@),
                    forall|j: int| 0 <= j < i ==> !selects(#[trigger] sel@[j], kind),
                decreases sel@.len() - i,
            {
                let hit: bool = match sel[i] {
                    TypeSel::Raw => kind == FileKind::Raw,
                    TypeSel::Jpeg => kind == FileKind::Jpeg,
                    TypeSel::Video => kind == FileKind::Video,
                    TypeSel::All => false,
                };
                if hit {
                    proof {
                        let all = opt_seq(*kinds)->0;
                        assert(0 <= i < all.len() && selects(all[i as int], kind));
                    }
                    return true;
                }
                i = i + 1;
            }
            false
        },
    }
}

} // verus!
