//! How paths are read, what lies below what, and which destinations, targets
//! and files a run accepts.

use vstd::prelude::*;

use crate::cli::ModeArg;
use crate::clock::Moment;
use crate::guard;
use crate::guard::GuardError;
use crate::paths;
use crate::paths::Part;
use crate::run_laws;
use crate::scan;
use crate::shot_laws;
use crate::text;
use crate::types::FileKind;

verus! {

// ---------------------------------------------------------------------------
// Reading a path
// ---------------------------------------------------------------------------

/// A path is read name by name: a name that follows a slash is one more
/// component, `..` is one step up, and `.` or nothing behind a slash adds
/// nothing.
pub proof fn law_parts(a: Seq<char>, x: Seq<char>)
    requires
        a.len() > 0,
        !x.contains('/'),
    ensures
        x.len() > 0 && x != seq!['.'] && x != seq!['.', '.'] ==> paths::parts(a.push('/') + x)
            == paths::parts(a).push(Part::Name(x)),
        x == seq!['.', '.'] ==> paths::parts(a.push('/') + x) == paths::parts(a).push(Part::Up),
        x == seq!['.'] || x.len() == 0 ==> paths::parts(a.push('/') + x) == paths::parts(a),
{
    reveal_strlit(".");
    reveal_strlit("..");
    assert("."@ =~= seq!['.']);
    assert(".."@ =~= seq!['.', '.']);
    let s = a.push('/') + x;
    paths::lemma_split_push(a, x);
    assert(s[0] == a[0]);
    let first = !paths::absolute(a);
    let pieces = text::split(a, '/');
    assert(pieces.len() > 0);
    assert(pieces.push(x).drop_last() =~= pieces);
    assert(paths::pieces_parts(pieces.push(x), first) == paths::pieces_parts(pieces, first)
        + paths::piece_parts(x, false));
    let rest = paths::pieces_parts(pieces, first);
    let tail = paths::piece_parts(x, false);
    assert(paths::parts(s) =~= paths::parts(a) + tail);
    if x.len() == 0 {
        assert(tail =~= Seq::<Part>::empty());
    }
    assert(paths::parts(a) + Seq::<Part>::empty() =~= paths::parts(a));
    assert(paths::parts(a) + seq![Part::Up] =~= paths::parts(a).push(Part::Up));
    assert(paths::parts(a) + seq![Part::Name(x)] =~= paths::parts(a).push(Part::Name(x)));
}

/// The shortest paths: the root, nothing, and a bare name.
pub proof fn law_short_paths(x: Seq<char>)
    requires
        !x.contains('/'),
        x.len() > 0,
    ensures
        paths::parts(seq!['/']) == seq![Part::Root],
        paths::parts(Seq::<char>::empty()) == Seq::<Part>::empty(),
        x == seq!['.'] ==> paths::parts(x) == seq![Part::Here],
        x == seq!['.', '.'] ==> paths::parts(x) == seq![Part::Up],
        x != seq!['.'] && x != seq!['.', '.'] ==> paths::parts(x) == seq![Part::Name(x)],
{
    reveal_strlit(".");
    reveal_strlit("..");
    assert("."@ =~= seq!['.']);
    assert(".."@ =~= seq!['.', '.']);
    let empty = Seq::<char>::empty();
    let none = Seq::<Seq<char>>::empty();
    text::lemma_find(empty, '/');
    assert(text::split(empty, '/') =~= seq![empty]);
    assert(seq![empty].drop_last() =~= none);
    assert(paths::pieces_parts(none, true) =~= Seq::<Part>::empty());
    assert(paths::pieces_parts(none, false) =~= Seq::<Part>::empty());
    assert(paths::pieces_parts(seq![empty], true) =~= Seq::<Part>::empty());
    assert(paths::pieces_parts(seq![empty], false) =~= Seq::<Part>::empty());
    paths::lemma_split_push(empty, empty);
    assert(empty.push('/') + empty =~= seq!['/']);
    assert(seq![empty].push(empty).drop_last() =~= seq![empty]);
    assert(paths::pieces_parts(seq![empty].push(empty), false) =~= Seq::<Part>::empty());
    assert(paths::parts(seq!['/']) =~= seq![Part::Root]);
    text::lemma_find(x, '/');
    assert(text::split(x, '/') =~= seq![x]);
    assert(seq![x].drop_last() =~= none);
    assert(!paths::absolute(x)) by {
        if paths::absolute(x) {
            assert(x[0] == '/');
        }
    }
    assert(paths::pieces_parts(seq![x], true) =~= paths::piece_parts(x, true));
}

/// A path is put below another with one slash between them; an absolute path
/// stands for itself.
pub proof fn law_joined(a: Seq<char>, x: Seq<char>)
    ensures
        x.len() > 0 && x[0] == '/' ==> paths::joined(a, x) == x,
        a.len() == 0 ==> paths::joined(a, x) == x,
        a.len() > 0 && (x.len() == 0 || x[0] != '/') ==> paths::joined(a, x) == if a.last() == '/' {
            a + x
        } else {
            a + seq!['/'] + x
        },
{
    if a.len() > 0 {
        assert(a.push('/') + x =~= a + seq!['/'] + x);
    }
}

/// A path lies at or below another where its components go on from those of the
/// other.
pub proof fn law_below(p: Seq<char>, q: Seq<char>)
    ensures
        paths::at_or_below(p, q) <==> exists|tail: Seq<Part>|
            paths::parts(p) == #[trigger] (paths::parts(q) + tail),
{
    let a = paths::parts(p);
    let b = paths::parts(q);
    if paths::at_or_below(p, q) {
        assert(a =~= b + a.skip(b.len() as int));
    }
    if exists|tail: Seq<Part>| a == #[trigger] (b + tail) {
        let tail = choose|tail: Seq<Part>| a == #[trigger] (b + tail);
        assert(a.take(b.len() as int) =~= b);
    }
}

/// The last component and what stands before it.
pub proof fn law_name_and_parent(a: Seq<char>, x: Seq<char>)
    requires
        a.len() > 0,
        paths::proper_name(x),
    ensures
        paths::name_of(a.push('/') + x) == Some(x),
        paths::parent_parts(a.push('/') + x) == Some(paths::parts(a)),
{
    reveal_strlit(".");
    reveal_strlit("..");
    assert("."@ =~= seq!['.']);
    assert(".."@ =~= seq!['.', '.']);
    law_parts(a, x);
    assert(paths::parts(a).push(Part::Name(x)).drop_last() =~= paths::parts(a));
}

// ---------------------------------------------------------------------------
// Resolving
// ---------------------------------------------------------------------------

/// Resolving a path: a name stays, `..` takes back the name before it and does
/// nothing at the root, `.` does nothing.
pub proof fn law_resolved(c: Seq<Part>, n: Seq<char>)
    ensures
        guard::resolved(c.push(Part::Name(n))) == guard::resolved(c).push(Part::Name(n)),
        guard::resolved(c.push(Part::Name(n)).push(Part::Up)) == guard::resolved(c),
        guard::resolved(c.push(Part::Here)) == guard::resolved(c),
        guard::resolved(seq![Part::Root]) == seq![Part::Root],
        guard::resolved(c) == seq![Part::Root] ==> guard::resolved(c.push(Part::Up))
            == seq![Part::Root],
{
    assert(c.push(Part::Name(n)).drop_last() =~= c);
    assert(c.push(Part::Name(n)).push(Part::Up).drop_last() =~= c.push(Part::Name(n)));
    assert(guard::resolved(c).push(Part::Name(n)).drop_last() =~= guard::resolved(c));
    assert(c.push(Part::Here).drop_last() =~= c);
    assert(c.push(Part::Up).drop_last() =~= c);
}

/// A relative path is read from the working directory, an absolute one from the
/// root.
pub proof fn law_absolutized(path: Seq<char>, cwd: Seq<char>)
    requires
        cwd.len() > 0,
        cwd.last() != '/',
    ensures
        path.len() > 0 && path[0] == '/' ==> guard::absolutized(path, cwd) == path,
        path.len() == 0 || path[0] != '/' ==> guard::absolutized(path, cwd) == cwd + seq!['/']
            + path,
{
    law_joined(cwd, path);
}

/// A target is allowed where it stays at or below the root both as it is
/// written and with `.` and `..` resolved.
pub proof fn law_allowed(dst: Seq<char>, root: Seq<char>)
    ensures
        ({
            let a = guard::resolved(paths::parts(dst));
            let b = guard::resolved(paths::parts(root));
            let stays = (exists|t: Seq<Part>|
                paths::parts(dst) == #[trigger] (paths::parts(root) + t)) && exists|t: Seq<Part>|
                a == #[trigger] (b + t);
            &&& guard::target_verdict(dst, root) == if stays {
                Ok::<(), GuardError>(())
            } else {
                Err::<(), GuardError>(GuardError::OutsideRoot)
            }
            &&& guard::inside(dst, root) <==> stays && a != b
        }),
{
    law_below(dst, root);
    let a = guard::resolved(paths::parts(dst));
    let b = guard::resolved(paths::parts(root));
    if b.len() <= a.len() && a.take(b.len() as int) == b {
        assert(a =~= b + a.skip(b.len() as int));
    }
    if exists|t: Seq<Part>| a == #[trigger] (b + t) {
        let t = choose|t: Seq<Part>| a == #[trigger] (b + t);
        assert(a.take(b.len() as int) =~= b);
    }
}

// ---------------------------------------------------------------------------
// Destinations
// ---------------------------------------------------------------------------

/// Whether two components are the same but for the case of a name.
pub open spec fn alike(a: Part, b: Part) -> bool {
    if a is Name && b is Name {
        text::ascii_lower(a->Name_0) == text::ascii_lower(b->Name_0)
    } else {
        a == b
    }
}

/// Whether two paths are alike in exactly their first `k` components.
pub open spec fn part_ways(a: Seq<Part>, b: Seq<Part>, k: int) -> bool {
    &&& 0 <= k <= a.len() && k <= b.len()
    &&& forall|i: int| 0 <= i < k ==> alike(#[trigger] a[i], b[i])
    &&& k < a.len() && k < b.len() ==> !alike(a[k], b[k])
}

proof fn lemma_part_ways(a: Seq<Part>, b: Seq<Part>, k: int)
    requires
        part_ways(a, b, k),
    ensures
        guard::shared(a, b) == k,
    decreases a.len(),
{
    if a.len() > 0 && b.len() > 0 {
        assert(guard::like(a[0], b[0]) == alike(a[0], b[0]));
        if k > 0 {
            assert(alike(a[0], b[0]));
            let x = a.skip(1);
            let y = b.skip(1);
            assert forall|i: int| 0 <= i < k - 1 implies alike(#[trigger] x[i], y[i]) by {
                assert(alike(a[i + 1], b[i + 1]));
            }
            lemma_part_ways(x, y, k - 1);
        }
    }
}

/// Whether a component may not stand in a destination.
pub open spec fn off_limits(c: Part) -> bool {
    c is Name && (text::ascii_lower(c->Name_0) == "dcim"@ || run_laws::camera_word(c->Name_0))
}

/// Which destinations are refused, and why. The destination must not be the
/// source; for photos it must not lie inside the source; the source must not
/// lie inside it; and beyond the place where it leaves the way to the source no
/// name of it may be `DCIM` or camera-managed. For photos the last component of
/// the source counts as beyond that place.
pub proof fn law_destination(source: Seq<char>, dest: Seq<char>, mode: ModeArg, k: int)
    requires
        part_ways(paths::parts(source), paths::parts(dest), k),
    ensures
        ({
            let a = paths::parts(source);
            let b = paths::parts(dest);
            let from = if mode == ModeArg::Photo && k == a.len() && k > 0 {
                k - 1
            } else {
                k
            };
            let v = guard::dest_verdict(source, dest, mode);
            if a == b {
                v == Err::<(), GuardError>(GuardError::SameAsSource)
            } else if mode == ModeArg::Photo && a.is_prefix_of(b) {
                v == Err::<(), GuardError>(GuardError::InsideSource)
            } else if b.is_prefix_of(a) {
                v == Err::<(), GuardError>(GuardError::ContainsSource)
            } else if exists|i: int| from <= i < b.len() && off_limits(#[trigger] b[i]) {
                v == Err::<(), GuardError>(GuardError::Forbidden)
            } else {
                v == Ok::<(), GuardError>(())
            }
        }),
{
    let a = paths::parts(source);
    let b = paths::parts(dest);
    lemma_part_ways(a, b, k);
    assert(a.is_prefix_of(b) <==> paths::at_or_below(dest, source)) by {
        assert(b.take(a.len() as int) == b.subrange(0, a.len() as int));
    }
    assert(b.is_prefix_of(a) <==> paths::at_or_below(source, dest)) by {
        assert(a.take(b.len() as int) == a.subrange(0, b.len() as int));
    }
    assert forall|i: int| 0 <= i < b.len() implies off_limits(#[trigger] b[i])
        == guard::forbidden_part(b[i]) by {
        if b[i] is Name {
            shot_laws::law_managed_names(b[i]->Name_0);
        }
    }
}

// ---------------------------------------------------------------------------
// Scanning
// ---------------------------------------------------------------------------

/// Which directories a scan enters: the source; else none at or below the
/// destination, none whose name begins with a dot, for photos none that a
/// camera manages, and for clips none that holds no clips.
pub proof fn law_entered(
    dir: Seq<char>,
    name: Seq<char>,
    source: Seq<char>,
    dest: Seq<char>,
    mode: ModeArg,
)
    ensures
        paths::parts(dir) == paths::parts(source) ==> scan::entered(
            dir,
            Some(name),
            source,
            dest,
            mode,
        ),
        paths::parts(dir) != paths::parts(source) ==> (scan::entered(
            dir,
            Some(name),
            source,
            dest,
            mode,
        ) <==> {
            let n = text::ascii_lower(name);
            &&& !(exists|t: Seq<Part>| paths::parts(dir) == #[trigger] (paths::parts(dest) + t))
            &&& !(name.len() > 0 && name[0] == '.')
            &&& mode == ModeArg::Photo ==> !run_laws::camera_word(name)
            &&& mode == ModeArg::Video ==> n != "sub"@ && n != "thmbnl"@ && n != "wav"@ && n
                != "general"@ && n != "database"@ && n != "avf_info"@ && n != "misc"@ && n
                != "sony"@
        }),
{
    law_below(dir, dest);
    shot_laws::law_managed_names(name);
}

/// What a scan takes a file for: its extension says, in whatever case; a hidden
/// file is nothing, and where clips are organized nothing else is taken.
pub proof fn law_recognized(d: Seq<char>, a: Seq<char>, e: Seq<char>, mode: ModeArg)
    requires
        d.len() > 0,
        a.len() > 0,
        !a.contains('/') && !e.contains('/'),
        !e.contains('.'),
        a[0] != '.',
    ensures
        ({
            let w = text::ascii_lower(e);
            let k = scan::taken_as(d.push('/') + (a + seq!['.'] + e), mode);
            &&& k == Some(FileKind::Video) <==> shot_laws::clip_word(w)
            &&& k == Some(FileKind::Raw) <==> shot_laws::raw_word(w) && mode == ModeArg::Photo
            &&& k == Some(FileKind::Jpeg) <==> shot_laws::photo_word(w) && mode == ModeArg::Photo
            &&& k == Some(FileKind::Sidecar) <==> w == "xmp"@ && mode == ModeArg::Photo
        }),
        scan::taken_as(d.push('/') + (seq!['.'] + a + seq!['.'] + e), mode) is None,
        !a.contains('.') ==> scan::taken_as(d.push('/') + a, mode) is None,
{
    reveal_strlit(".");
    reveal_strlit("..");
    let n = a + seq!['.'] + e;
    lemma_dotted_name(a, e);
    law_name_and_parent(d, n);
    shot_laws::law_stem_and_extension(a, e);
    shot_laws::law_kinds(text::ascii_lower(e));
    let h = seq!['.'] + a;
    lemma_dotted_name(h, e);
    law_name_and_parent(d, h + seq!['.'] + e);
    assert((h + seq!['.'] + e)[0] == '.');
    assert(seq!['.'] + a + seq!['.'] + e =~= h + seq!['.'] + e);
    if !a.contains('.') {
        assert(paths::proper_name(a)) by {
            assert("."@[0] == '.');
            assert(".."@[0] == '.');
        }
        law_name_and_parent(d, a);
        shot_laws::law_stem_and_extension(seq!['x'], a);
    }
}

pub proof fn lemma_dotted_name(a: Seq<char>, e: Seq<char>)
    requires
        a.len() > 0,
        !a.contains('/') && !e.contains('/'),
        a[0] != '.' || a.len() > 1,
    ensures
        paths::proper_name(a + seq!['.'] + e),
{
    reveal_strlit(".");
    reveal_strlit("..");
    let n = a + seq!['.'] + e;
    assert forall|i: int| 0 <= i < n.len() implies n[i] != '/' by {
        if i < a.len() {
            assert(n[i] == a[i]);
            assert(a.contains(a[i]));
        } else if i > a.len() {
            assert(n[i] == e[i - a.len() - 1]);
            assert(e.contains(e[i - a.len() - 1]));
        }
    }
    assert(n.len() >= 2);
    assert(n[0] == a[0]);
    assert("."@.len() == 1);
    assert(".."@.len() == 2 && ".."@[0] == '.');
}

/// What a scan records of a file: its path and its directory in normal form,
/// its stem and its extension as they are written, its kind, its size and the
/// time of its last change.
pub proof fn law_recorded(
    d: Seq<char>,
    a: Seq<char>,
    e: Seq<char>,
    kind: FileKind,
    size: u64,
    mtime: Option<Moment>,
    source: Seq<char>,
    cwd: Seq<char>,
)
    requires
        d.len() > 0,
        a.len() > 0,
        !a.contains('/') && !e.contains('/'),
        !e.contains('.'),
        a[0] != '.',
    ensures
        ({
            let p = d.push('/') + (a + seq!['.'] + e);
            let f = scan::record_of(p, kind, size, mtime, source, cwd);
            &&& f.path == guard::normal_form(p, cwd)
            &&& f.parent == guard::normal_form(paths::path_of(paths::parts(d)), cwd)
            &&& f.stem == a
            &&& f.ext == e
            &&& f.kind == kind
            &&& f.size == size
            &&& f.mtime == mtime
        }),
{
    lemma_dotted_name(a, e);
    law_name_and_parent(d, a + seq!['.'] + e);
    shot_laws::law_stem_and_extension(a, e);
}

/// What is told of a destination that is refused.
pub proof fn law_refusal_told(source: Seq<char>, dest: Seq<char>)
    ensures
        guard::refusal_text(GuardError::SameAsSource, source, dest)
            == "--dest must differ from SOURCE ("@ + source + ")"@,
        guard::refusal_text(GuardError::InsideSource, source, dest) == "--dest ("@ + dest
            + ") is inside SOURCE ("@ + source + "); that would re-scan moved files"@,
        guard::refusal_text(GuardError::ContainsSource, source, dest) == "SOURCE ("@ + source
            + ") is inside --dest ("@ + dest
            + "); refusing to organize a tree into its own ancestor"@,
        guard::refusal_text(GuardError::Forbidden, source, dest) == "--dest ("@ + dest
            + ") lies inside DCIM or a camera-managed directory; choose a folder at the card root"@,
        guard::refusal_text(GuardError::OutsideRoot, source, dest)
            == "refusing to write outside the destination root: "@ + dest + " (root "@ + source
            + ")"@,
{
}

/// The common beginning of two paths, and what may not stand behind it.
pub proof fn law_common_beginning(a: Seq<Part>, b: Seq<Part>, k: int)
    requires
        part_ways(a, b, k),
    ensures
        guard::ancestor(a, b) == a.take(k),
        guard::forbidden_below(k, b) <==> exists|i: int|
            k <= i < b.len() && off_limits(#[trigger] b[i]),
{
    lemma_part_ways(a, b, k);
    assert forall|i: int| 0 <= i < b.len() implies off_limits(#[trigger] b[i])
        == guard::forbidden_part(b[i]) by {
        if b[i] is Name {
            shot_laws::law_managed_names(b[i]->Name_0);
        }
    }
}

} // verus!
