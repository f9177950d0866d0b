//! The scan of a source: which directories are entered, and which files are
//! taken.
//!
//! In [`ModeArg::Photo`] (default) every camera-managed dir is skipped and all
//! recognized kinds are collected. In [`ModeArg::Video`] the scan descends
//! *into* the managed video containers (to reach `M4ROOT/CLIP`, AVCHD `STREAM`,
//! …) but skips the proxy/thumbnail/metadata aux dirs, and collects video files
//! only.

use vstd::prelude::*;

use crate::cli::ModeArg;
use crate::clock::Moment;
use crate::filetype;
use crate::guard;
use crate::paths;
use crate::text;
use crate::types::{FileKind, FileModel, MediaFile};

verus! {

/// Whether a name is that of a hidden file or directory.
pub open spec fn dotted(name: Seq<char>) -> bool {
    name.len() > 0 && name[0] == '.'
}

fn is_dotted(name: &str) -> (r: bool)
    ensures
        r == dotted(name@),
{
    let v: Vec<char> = text::chars_of(name);
    v.len() > 0 && v[0] == '.'
}

/// Whether a directory is entered: the source always, nothing in the
/// destination, no hidden directory and none that the mode skips.
pub open spec fn entered(
    dir: Seq<char>,
    name: Option<Seq<char>>,
    source: Seq<char>,
    dest: Seq<char>,
    mode: ModeArg,
) -> bool {
    paths::parts(dir) == paths::parts(source) || {
        &&& !paths::at_or_below(dir, dest)
        &&& name matches Some(n) ==> {
            &&& !dotted(n)
            &&& match mode {
                ModeArg::Photo => !filetype::admin_name(n),
                ModeArg::Video => !filetype::video_aux_name(n),
            }
        }
    }
}

/// Whether the scan enters a directory. All three paths are normalized; `name`
/// is the directory's own name.
pub fn keep_dir(dir: &str, name: Option<&str>, source: &str, dest: &str, mode: ModeArg) -> (r: bool)
    ensures
        r == entered(
            dir@,
            match name {
                Some(n) => Some(n@),
                None => None,
            },
            source@,
            dest@,
            mode,
        ),
{
    if guard::same_path(dir, source) {
        return true;
    }
    if guard::is_within(dir, dest) {
        return false;
    }
    match name {
        Some(n) => {
            if is_dotted(n) {
                return false;
            }
            match mode {
                ModeArg::Photo => !filetype::is_admin_dir(n),
                ModeArg::Video => !filetype::is_video_aux_dir(n),
            }
        },
        None => true,
    }
}

/// The kind under which the scan takes a file: that of its extension. Hidden
/// files are left out (on exFAT `._IMG.JPG` is a companion, not a photo), and
/// so is everything but clips in video mode.
pub open spec fn taken_as(path: Seq<char>, mode: ModeArg) -> Option<FileKind> {
    match paths::name_of(path) {
        None => None,
        Some(name) => if dotted(name) {
            None
        } else {
            match paths::ext_of(name) {
                None => None,
                Some(ext) => {
                    let kind = filetype::kind_of(text::ascii_lower(ext));
                    if mode == ModeArg::Video && kind != Some(FileKind::Video) {
                        None
                    } else {
                        kind
                    }
                },
            }
        },
    }
}

/// The kind under which the scan takes a file, if it does.
pub fn recognize(path: &str, mode: ModeArg) -> (r: Option<FileKind>)
    ensures
        r == taken_as(path@, mode),
{
    let name: String = match paths::file_name(path) {
        Some(n) => n,
        None => return None,
    };
    if is_dotted(name.as_str()) {
        return None;
    }
    let ext: String = match paths::extension(name.as_str()) {
        Some(e) => e,
        None => return None,
    };
    let kind: FileKind = match filetype::classify(text::to_ascii_lower(ext.as_str()).as_str()) {
        Some(k) => k,
        None => return None,
    };
    if mode == ModeArg::Video && kind != FileKind::Video {
        return None;
    }
    Some(kind)
}

/// The record of a file that the scan takes. `path` is absolute.
pub open spec fn record_of(
    path: Seq<char>,
    kind: FileKind,
    size: u64,
    mtime: Option<Moment>,
    source: Seq<char>,
    cwd: Seq<char>,
) -> FileModel {
    let name = crate::types::or_empty(paths::name_of(path));
    FileModel {
        path: guard::normal_form(path, cwd),
        parent: match paths::parent_parts(path) {
            Some(c) => guard::normal_form(paths::path_of(c), cwd),
            None => source,
        },
        stem: paths::stem_of(name),
        ext: crate::types::or_empty(paths::ext_of(name)),
        kind,
        size,
        mtime,
    }
}

/// The record of a file that the scan takes.
pub fn media_file(
    path: &str,
    kind: FileKind,
    size: u64,
    mtime: Option<Moment>,
    source: &str,
    cwd: &str,
) -> (r: MediaFile)
    ensures
        r@ == record_of(path@, kind, size, mtime, source@, cwd@),
{
    let name: String = match paths::file_name(path) {
        Some(n) => n,
        None => String::new(),
    };
    let parent: String = match paths::parent(path) {
        Some(p) => guard::normalize(p.as_str(), cwd),
        None => source.to_owned(),
    };
    MediaFile {
        path: guard::normalize(path, cwd),
        parent,
        stem: paths::stem(name.as_str()),
        ext: match paths::extension(name.as_str()) {
            Some(e) => e,
            None => String::new(),
        },
        kind,
        size,
        mtime,
    }
}

// ---------------------------------------------------------------------------
// A whole tree
// ---------------------------------------------------------------------------

/// The directory that the first `k` components of a path name.
pub open spec fn dir_above(path: Seq<char>, k: int) -> Seq<char> {
    paths::path_of(paths::parts(path).take(k))
}

/// Whether a scan comes to a file: it lies below the source, and every
/// directory from the source down to the one that holds it is entered.
pub open spec fn reached(
    path: Seq<char>,
    source: Seq<char>,
    dest: Seq<char>,
    mode: ModeArg,
) -> bool {
    let n = paths::parts(source).len();
    &&& paths::at_or_below(path, source)
    &&& n < paths::parts(path).len()
    &&& forall|k: int|
        n <= k < paths::parts(path).len() ==> entered(
            #[trigger] dir_above(path, k),
            paths::name_of(dir_above(path, k)),
            source,
            dest,
            mode,
        )
}

/// The kind under which a scan of a whole tree takes a file, if it does: the
/// file is reached and recognized.
pub open spec fn scanned_as(
    path: Seq<char>,
    source: Seq<char>,
    dest: Seq<char>,
    mode: ModeArg,
) -> Option<FileKind> {
    if reached(path, source, dest, mode) {
        taken_as(path, mode)
    } else {
        None
    }
}

/// Whether the mode's scan stays out of a directory with a name.
pub open spec fn shunned(name: Seq<char>, mode: ModeArg) -> bool {
    dotted(name) || match mode {
        ModeArg::Photo => filetype::admin_name(name),
        ModeArg::Video => filetype::video_aux_name(name),
    }
}

proof fn lemma_dir_above(path: Seq<char>, k: int)
    requires
        paths::proper(paths::parts(path)),
        1 <= k <= paths::parts(path).len(),
    ensures
        paths::parts(dir_above(path, k)) == paths::parts(path).take(k),
{
    let c = paths::parts(path).take(k);
    assert forall|i: int| 1 <= i < c.len() implies ((#[trigger] c[i]) is Up || (c[i] is Name
        && paths::proper_name(c[i]->Name_0))) by {
        assert(c[i] == paths::parts(path)[i]);
    }
    paths::law_path_round_trip(c);
}

/// What a scan of a whole tree takes: exactly the files below the source that
/// are recognized, with no hidden directory and none that the mode skips
/// between the source and the file, and outside every directory of the
/// destination. The paths are in normal form, and the source is not inside the
/// destination.
pub proof fn law_scan_takes(path: Seq<char>, source: Seq<char>, dest: Seq<char>, mode: ModeArg)
    requires
        paths::proper(paths::parts(path)),
        paths::proper(paths::parts(source)),
        !paths::at_or_below(source, dest),
    ensures
        ({
            let c = paths::parts(path);
            let n = paths::parts(source).len();
            &&& reached(path, source, dest, mode) <==> {
                &&& paths::at_or_below(path, source)
                &&& n < c.len()
                &&& forall|i: int|
                    n <= i < c.len() - 1 ==> !shunned((#[trigger] c[i])->Name_0, mode)
                &&& !paths::at_or_below(dir_above(path, c.len() - 1), dest)
            }
            &&& scanned_as(path, source, dest, mode) is Some <==> reached(
                path,
                source,
                dest,
                mode,
            ) && taken_as(path, mode) is Some
        }),
{
    let a = paths::parts(source);
    let b = paths::parts(dest);
    let c = paths::parts(path);
    let n = a.len() as int;
    let m = c.len() as int;
    let right = {
        &&& paths::at_or_below(path, source)
        &&& n < c.len()
        &&& forall|i: int| n <= i < c.len() - 1 ==> !shunned((#[trigger] c[i])->Name_0, mode)
        &&& !paths::at_or_below(dir_above(path, c.len() - 1), dest)
    };
    if paths::at_or_below(path, source) && n < m {
        assert forall|k: int| n <= k < m implies paths::parts(#[trigger] dir_above(path, k))
            == c.take(k) && (k > n ==> paths::name_of(dir_above(path, k)) == Some(
            c[k - 1]->Name_0,
        ) && c.take(k) != a) by {
            lemma_dir_above(path, k);
            assert(c.take(k).last() == c[k - 1]);
            assert(c.take(k).len() == k);
        }
        assert(c.take(n) == a);
        if reached(path, source, dest, mode) {
            assert forall|i: int| n <= i < m - 1 implies !shunned(
                (#[trigger] c[i])->Name_0,
                mode,
            ) by {
                let d = dir_above(path, i + 1);
                assert(entered(d, paths::name_of(d), source, dest, mode));
            }
            let d = dir_above(path, m - 1);
            assert(entered(d, paths::name_of(d), source, dest, mode));
            if m - 1 == n {
                assert(paths::parts(d) == a);
            }
        }
        if right {
            let last = dir_above(path, m - 1);
            assert(paths::parts(last) == c.take(m - 1));
            assert forall|k: int| n <= k < m implies entered(
                #[trigger] dir_above(path, k),
                paths::name_of(dir_above(path, k)),
                source,
                dest,
                mode,
            ) by {
                let d = dir_above(path, k);
                assert(paths::parts(d) == c.take(k));
                if k > n {
                    assert(!shunned(c[k - 1]->Name_0, mode));
                    if paths::at_or_below(d, dest) {
                        assert(c.take(m - 1).take(b.len() as int) =~= c.take(k).take(
                            b.len() as int,
                        ));
                    }
                }
            }
        }
    }
}

/// Anti-recursion: the scan enters no directory of the destination, but for the
/// source itself, so that freshly moved files are never picked up again.
pub proof fn law_scan_leaves_dest_out(
    dir: Seq<char>,
    name: Option<Seq<char>>,
    source: Seq<char>,
    dest: Seq<char>,
    mode: ModeArg,
)
    requires
        paths::at_or_below(dir, dest),
        paths::parts(dir) != paths::parts(source),
    ensures
        !entered(dir, name, source, dest, mode),
{
}

/// Forbidden zones: photo mode never enters a camera-managed directory below
/// the source.
pub proof fn law_scan_leaves_managed_out(
    dir: Seq<char>,
    name: Seq<char>,
    source: Seq<char>,
    dest: Seq<char>,
)
    requires
        filetype::admin_name(name),
        paths::parts(dir) != paths::parts(source),
    ensures
        !entered(dir, Some(name), source, dest, ModeArg::Photo),
{
}

} // verus!
