//! What belongs to a shot: how extensions and names are read, and which files
//! stand together.

use vstd::prelude::*;

use crate::cli::TypeSel;
use crate::config::ConfigModel;
use crate::filetype;
use crate::paths;
use crate::plan;
use crate::text;
use crate::types::{FileKind, FileModel};

verus! {

// ---------------------------------------------------------------------------
// Extensions and directory names
// ---------------------------------------------------------------------------

/// The extensions of raw photos.
pub open spec fn raw_word(e: Seq<char>) -> bool {
    e == "arw"@ || e == "cr2"@ || e == "cr3"@ || e == "nef"@ || e == "raf"@ || e == "orf"@ || e
        == "rw2"@ || e == "dng"@ || e == "pef"@ || e == "srw"@ || e == "nrw"@
}

/// The extensions of finished photos.
pub open spec fn photo_word(e: Seq<char>) -> bool {
    e == "jpg"@ || e == "jpeg"@ || e == "heic"@ || e == "heif"@ || e == "tif"@ || e == "tiff"@ || e
        == "png"@
}

/// The extensions of clips.
pub open spec fn clip_word(e: Seq<char>) -> bool {
    e == "mp4"@ || e == "mov"@ || e == "m4v"@ || e == "avi"@ || e == "mts"@ || e == "m2ts"@
}

proof fn lemma_raw_word(e: Seq<char>)
    ensures
        filetype::raw_exts().contains(e) <==> raw_word(e),
{
    let w = filetype::raw_exts();
    assert(w[0] == "arw"@ && w[1] == "cr2"@ && w[2] == "cr3"@ && w[3] == "nef"@ && w[4] == "raf"@
        && w[5] == "orf"@ && w[6] == "rw2"@ && w[7] == "dng"@ && w[8] == "pef"@ && w[9] == "srw"@
        && w[10] == "nrw"@);
}

proof fn lemma_photo_word(e: Seq<char>)
    ensures
        filetype::jpeg_exts().contains(e) <==> photo_word(e),
{
    let w = filetype::jpeg_exts();
    assert(w[0] == "jpg"@ && w[1] == "jpeg"@ && w[2] == "heic"@ && w[3] == "heif"@ && w[4]
        == "tif"@ && w[5] == "tiff"@ && w[6] == "png"@);
}

proof fn lemma_clip_word(e: Seq<char>)
    ensures
        filetype::video_exts().contains(e) <==> clip_word(e),
{
    let w = filetype::video_exts();
    assert(w[0] == "mp4"@ && w[1] == "mov"@ && w[2] == "m4v"@ && w[3] == "avi"@ && w[4] == "mts"@
        && w[5] == "m2ts"@);
}

proof fn lemma_words_apart(e: Seq<char>)
    ensures
        photo_word(e) ==> !raw_word(e),
        clip_word(e) ==> !raw_word(e) && !photo_word(e),
        e == "xmp"@ ==> !raw_word(e) && !photo_word(e) && !clip_word(e),
{
    reveal_strlit("arw");
    reveal_strlit("cr2");
    reveal_strlit("cr3");
    reveal_strlit("nef");
    reveal_strlit("raf");
    reveal_strlit("orf");
    reveal_strlit("rw2");
    reveal_strlit("dng");
    reveal_strlit("pef");
    reveal_strlit("srw");
    reveal_strlit("nrw");
    assert(raw_word(e) ==> e[0] != 'j' && e[0] != 'h' && e[0] != 't' && e[0] != 'm' && e[0] != 'x'
        && (e[0] == 'p' ==> e[1] == 'e') && (e[0] == 'a' ==> e[1] == 'r'));
    reveal_strlit("jpg");
    reveal_strlit("jpeg");
    reveal_strlit("heic");
    reveal_strlit("heif");
    reveal_strlit("tif");
    reveal_strlit("tiff");
    reveal_strlit("png");
    assert(photo_word(e) ==> (e[0] == 'j' || e[0] == 'h' || e[0] == 't' || (e[0] == 'p' && e[1]
        == 'n')));
    reveal_strlit("mp4");
    reveal_strlit("mov");
    reveal_strlit("m4v");
    reveal_strlit("avi");
    reveal_strlit("mts");
    reveal_strlit("m2ts");
    assert(clip_word(e) ==> (e[0] == 'm' || (e[0] == 'a' && e[1] == 'v')));
    reveal_strlit("xmp");
    assert("xmp"@[0] == 'x');
}

/// Each extension means one kind, and no other extension means any.
pub proof fn law_kinds(e: Seq<char>)
    ensures
        filetype::kind_of(e) == Some(FileKind::Raw) <==> raw_word(e),
        filetype::kind_of(e) == Some(FileKind::Jpeg) <==> photo_word(e),
        filetype::kind_of(e) == Some(FileKind::Video) <==> clip_word(e),
        filetype::kind_of(e) == Some(FileKind::Sidecar) <==> e == "xmp"@,
{
    lemma_raw_word(e);
    lemma_photo_word(e);
    lemma_clip_word(e);
    lemma_words_apart(e);
}

/// The directories that a camera manages, whatever their case, and those beside
/// the clips that hold no clip.
pub proof fn law_managed_names(name: Seq<char>)
    ensures
        ({
            let n = text::ascii_lower(name);
            &&& filetype::admin_name(name) <==> n == "private"@ || n == "mp_root"@ || n
                == "m4root"@ || n == "avf_info"@ || n == "misc"@ || n == "sony"@
            &&& filetype::video_aux_name(name) <==> n == "sub"@ || n == "thmbnl"@ || n == "wav"@
                || n == "general"@ || n == "database"@ || n == "avf_info"@ || n == "misc"@ || n
                == "sony"@
        }),
{
    let w = filetype::admin_dirs();
    assert(w[0] == "private"@ && w[1] == "mp_root"@ && w[2] == "m4root"@ && w[3] == "avf_info"@
        && w[4] == "misc"@ && w[5] == "sony"@);
    let v = filetype::video_aux_dirs();
    assert(v[0] == "sub"@ && v[1] == "thmbnl"@ && v[2] == "wav"@ && v[3] == "general"@ && v[4]
        == "database"@ && v[5] == "avf_info"@ && v[6] == "misc"@ && v[7] == "sony"@);
}

/// A name is split at its last dot, unless that is its first character: what
/// stands before is the stem, what stands behind is the extension.
pub proof fn law_stem_and_extension(a: Seq<char>, e: Seq<char>)
    requires
        !e.contains('.'),
    ensures
        a.len() > 0 ==> paths::stem_of(a + seq!['.'] + e) == a && paths::ext_of(a + seq!['.'] + e)
            == Some(e),
        a.len() == 0 ==> paths::stem_of(a + seq!['.'] + e) == a + seq!['.'] + e && paths::ext_of(
            a + seq!['.'] + e,
        ) is None,
        paths::stem_of(e) == e && paths::ext_of(e) is None,
{
    let s = a + seq!['.'] + e;
    lemma_last_dot(a, e);
    assert(s.take(a.len() as int) =~= a);
    assert(s.skip(a.len() as int + 1) =~= e);
    text::lemma_rfind(e, '.');
}

proof fn lemma_last_dot(a: Seq<char>, e: Seq<char>)
    requires
        !e.contains('.'),
    ensures
        text::rfind(a + seq!['.'] + e, '.') == a.len(),
{
    let s = a + seq!['.'] + e;
    let k = text::rfind(s, '.');
    text::lemma_rfind(s, '.');
    assert(s[a.len() as int] == '.');
    if k > a.len() {
        assert(e[k - a.len() - 1] == '.');
    }
}

// ---------------------------------------------------------------------------
// Shots
// ---------------------------------------------------------------------------

/// A photo or a clip belongs to the shot of its own stem. A sidecar belongs to
/// the shot of its stem too, and where it carries the extension of its primary
/// before its own (`DSC1.ARW.xmp`), to the shot without it (`DSC1`).
pub proof fn law_shot_stem(f: FileModel, a: Seq<char>, e: Seq<char>)
    requires
        !e.contains('.'),
    ensures
        f.kind != FileKind::Sidecar ==> plan::group_stem(f) == f.stem,
        f.kind == FileKind::Sidecar && f.stem == a + seq!['.'] + e ==> plan::group_stem(f) == if (
        raw_word(text::ascii_lower(e)) || photo_word(text::ascii_lower(e)) || clip_word(
            text::ascii_lower(e),
        )) {
            a
        } else {
            f.stem
        },
        f.stem == e ==> plan::group_stem(f) == e,
{
    law_kinds(text::ascii_lower(e));
    if f.stem == a + seq!['.'] + e {
        lemma_last_dot(a, e);
        assert(f.stem.take(a.len() as int) =~= a);
        assert(f.stem.skip(a.len() as int + 1) =~= e);
    }
    text::lemma_rfind(e, '.');
}

/// Two files are of one shot where their directories and their shot stems are
/// the same.
pub proof fn law_shot_key(f: FileModel, g: FileModel)
    ensures
        plan::key_of(f) == plan::key_of(g) <==> paths::parts(f.parent) == paths::parts(g.parent)
            && plan::group_stem(f) == plan::group_stem(g),
{
}

/// Which files a run wants: every sidecar; with a list of extensions those that
/// carry one of them, whatever its case; else those of a selected kind, or all.
pub proof fn law_selected(f: FileModel, cfg: ConfigModel)
    ensures
        f.kind == FileKind::Sidecar ==> plan::passes(f, cfg),
        f.kind != FileKind::Sidecar ==> (match cfg.ext_whitelist {
            Some(w) => plan::passes(f, cfg) <==> exists|i: int|
                0 <= i < w.len() && text::ascii_lower(#[trigger] w[i]) == text::ascii_lower(f.ext),
            None => match cfg.kinds {
                None => plan::passes(f, cfg),
                Some(k) => plan::passes(f, cfg) <==> {
                    ||| f.kind == FileKind::Raw && k.contains(TypeSel::Raw)
                    ||| f.kind == FileKind::Jpeg && k.contains(TypeSel::Jpeg)
                    ||| f.kind == FileKind::Video && k.contains(TypeSel::Video)
                },
            },
        }),
{
    match cfg.kinds {
        None => {},
        Some(k) => {
            let want = match f.kind {
                FileKind::Raw => TypeSel::Raw,
                FileKind::Jpeg => TypeSel::Jpeg,
                FileKind::Video => TypeSel::Video,
                FileKind::Sidecar => TypeSel::All,
            };
            if k.contains(want) && f.kind != FileKind::Sidecar {
                let i = choose|i: int| 0 <= i < k.len() && k[i] == want;
                assert(filetype::selects(k[i], f.kind));
            }
            if f.kind != FileKind::Sidecar && filetype::kind_passes(f.kind, cfg.kinds) {
                let i = choose|i: int|
                    0 <= i < k.len() && filetype::selects(#[trigger] k[i], f.kind);
                assert(k[i] == want);
            }
        },
    }
}

} // verus!
