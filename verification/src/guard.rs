//! Path safety: destination validation, forbidden-zone checks, anti-recursion.

use vstd::prelude::*;

use crate::cli::ModeArg;
use crate::filetype;
use crate::paths;
use crate::paths::{Component, Part};
use crate::text;

verus! {

/// Why a destination or a target is refused.
#[derive(Debug, Clone, Copy, PartialEq, Eq, Structural)]
pub enum GuardError {
    /// The destination is the source.
    SameAsSource,
    /// The destination lies inside the source.
    InsideSource,
    /// The source lies inside the destination.
    ContainsSource,
    /// The destination lies inside `DCIM` or a camera-managed directory.
    Forbidden,
    /// A target lies outside the destination root.
    OutsideRoot,
}

/// The words for a refusal of the destination `dest` for `source`. For
/// [`GuardError::OutsideRoot`] these are the root and the target.
pub open spec fn refusal_text(e: GuardError, source: Seq<char>, dest: Seq<char>) -> Seq<char> {
    match e {
        GuardError::SameAsSource => "--dest must differ from SOURCE ("@ + source + ")"@,
        GuardError::InsideSource => "--dest ("@ + dest + ") is inside SOURCE ("@ + source
            + "); that would re-scan moved files"@,
        GuardError::ContainsSource => "SOURCE ("@ + source + ") is inside --dest ("@ + dest
            + "); refusing to organize a tree into its own ancestor"@,
        GuardError::Forbidden => "--dest ("@ + dest
            + ") lies inside DCIM or a camera-managed directory; choose a folder at the card root"@,
        GuardError::OutsideRoot => "refusing to write outside the destination root: "@ + dest
            + " (root "@ + source + ")"@,
    }
}

impl GuardError {
    /// The words for the refusal.
    pub fn message(self, source: &str, dest: &str) -> (r: String)
        ensures
            r@ == refusal_text(self, source@, dest@),
    {
        match self {
            GuardError::SameAsSource => {
                let mut r: String = "--dest must differ from SOURCE (".to_owned();
                r.append(source);
                r.append(")");
                r
            },
            GuardError::InsideSource => {
                let mut r: String = "--dest (".to_owned();
                r.append(dest);
                r.append(") is inside SOURCE (");
                r.append(source);
                r.append("); that would re-scan moved files");
                r
            },
            GuardError::ContainsSource => {
                let mut r: String = "SOURCE (".to_owned();
                r.append(source);
                r.append(") is inside --dest (");
                r.append(dest);
                r.append("); refusing to organize a tree into its own ancestor");
                r
            },
            GuardError::Forbidden => {
                let mut r: String = "--dest (".to_owned();
                r.append(dest);
                r.append(
                    ") lies inside DCIM or a camera-managed directory; choose a folder at the card root",
                );
                r
            },
            GuardError::OutsideRoot => {
                let mut r: String =
                    "refusing to write outside the destination root: ".to_owned();
                r.append(dest);
                r.append(" (root ");
                r.append(source);
                r.append(")");
                r
            },
        }
    }
}

// ---------------------------------------------------------------------------
// Normal form
// ---------------------------------------------------------------------------

/// `c` without its final name; the root and the empty path stay.
pub open spec fn popped(c: Seq<Part>) -> Seq<Part> {
    if c.len() > 0 && c.last() is Name {
        c.drop_last()
    } else {
        c
    }
}

/// The components after resolving `.` and `..` from left to right.
pub open spec fn resolved(c: Seq<Part>) -> Seq<Part>
    decreases c.len(),
{
    if c.len() == 0 {
        Seq::empty()
    } else {
        let r = resolved(c.drop_last());
        match c.last() {
            Part::Up => popped(r),
            Part::Here => r,
            Part::Root => seq![Part::Root],
            Part::Name(n) => r.push(Part::Name(n)),
        }
    }
}

/// `path` read from the directory `cwd`.
pub open spec fn absolutized(path: Seq<char>, cwd: Seq<char>) -> Seq<char> {
    if paths::absolute(path) {
        path
    } else {
        paths::joined(cwd, path)
    }
}

/// The absolute normal form of a path.
pub open spec fn normal_form(path: Seq<char>, cwd: Seq<char>) -> Seq<char> {
    paths::path_of(resolved(paths::parts(absolutized(path, cwd))))
}

/// Resolves `.` and `..` from left to right.
fn resolve(comps: &Vec<Component>) -> (r: Vec<Component>)
    ensures
        paths::part_views(r@) == resolved(paths::part_views(comps@)),
{
    let mut out: Vec<Component> = Vec::new();
    let ghost all = paths::part_views(comps@);
    let mut i: usize = 0;
    proof {
        assert(paths::part_views(out@) =~= resolved(all.take(0)));
    }
    while i < comps.len()
        invariant
            i <= comps@.len(),
            all == paths::part_views(comps@),
            paths::part_views(out@) == resolved(all.take(i as int)),
        decreases comps@.len() - i,
    {
        let ghost before = paths::part_views(out@);
        proof {
            assert(all.take(i + 1).drop_last() =~= all.take(i as int));
            assert(all.take(i + 1).last() == comps@[i as int]@);
        }
        match &comps[i] {
            Component::Up => {
                let mut pop: bool = false;
                if out.len() > 0 {
                    proof {
                        assert(before.last() == out@[out@.len() - 1]@);
                    }
                    match &out[out.len() - 1] {
                        Component::Name(_) => {
                            pop = true;
                        },
                        _ => {},
                    }
                }
                if pop {
                    let _ = out.pop();
                    proof {
                        assert(paths::part_views(out@) =~= before.drop_last());
                    }
                }
            },
            Component::Here => {},
            Component::Root => {
                out = Vec::new();
                out.push(Component::Root);
                proof {
                    assert(paths::part_views(out@) =~= seq![Part::Root]);
                }
            },
            Component::Name(n) => {
                out.push(Component::Name(n.clone()));
                proof {
                    assert(paths::part_views(out@) =~= before.push(Part::Name(n@)));
                }
            },
        }
        i = i + 1;
    }
    proof {
        assert(all.take(comps@.len() as int) =~= all);
    }
    out
}

/// Lexically absolutize and normalize a path (resolves `.`/`..` without
/// touching the filesystem, so it works for not-yet-created destinations).
/// `cwd` is the working directory.
pub fn normalize(path: &str, cwd: &str) -> (r: String)
    ensures
        r@ == normal_form(path@, cwd@),
{
    let abs: String = if paths::is_absolute(path) {
        path.to_owned()
    } else {
        paths::join(cwd, path)
    };
    let comps: Vec<Component> = paths::components(abs.as_str());
    let out: Vec<Component> = resolve(&comps);
    proof {
        assert(paths::part_views(out@).take(out@.len() as int) =~= paths::part_views(out@));
    }
    paths::path_from(&out, out.len())
}

/// True if `path` is at or below `prefix`.
pub fn is_within(path: &str, prefix: &str) -> (r: bool)
    ensures
        r == paths::at_or_below(path@, prefix@),
{
    paths::begins_with(&paths::components(path), &paths::components(prefix))
}

/// Whether a path stays in the tree at `root`: it is at or below the root as it
/// is written, and still is once `.` and `..` are resolved.
pub open spec fn contained(p: Seq<char>, root: Seq<char>) -> bool {
    let a = resolved(paths::parts(p));
    let b = resolved(paths::parts(root));
    paths::at_or_below(p, root) && b.len() <= a.len() && a.take(b.len() as int) == b
}

/// Whether a path stays in the tree at `root` and is not the root itself.
pub open spec fn inside(p: Seq<char>, root: Seq<char>) -> bool {
    contained(p, root) && resolved(paths::parts(p)) != resolved(paths::parts(root))
}

/// Whether a path stays in the tree at `root`, and whether it is not the root
/// itself.
fn place_in(p: &str, root: &str) -> (r: (bool, bool))
    ensures
        r.0 == contained(p@, root@),
        r.1 == inside(p@, root@),
{
    let x: Vec<Component> = resolve(&paths::components(p));
    let y: Vec<Component> = resolve(&paths::components(root));
    let held: bool = is_within(p, root) && paths::begins_with(&x, &y);
    proof {
        let a = resolved(paths::parts(p@));
        let b = resolved(paths::parts(root@));
        if held && a.len() == b.len() {
            assert(a.take(b.len() as int) =~= a);
        }
    }
    (held, held && x.len() != y.len())
}

/// Whether a path stays in the tree at `root` and is not the root itself.
pub fn is_inside(p: &str, root: &str) -> (r: bool)
    ensures
        r == inside(p@, root@),
{
    place_in(p, root).1
}

/// Whether two paths have the same components.
pub fn same_path(a: &str, b: &str) -> (r: bool)
    ensures
        r == (paths::parts(a@) == paths::parts(b@)),
{
    let x: Vec<Component> = paths::components(a);
    let y: Vec<Component> = paths::components(b);
    if x.len() != y.len() {
        return false;
    }
    proof {
        assert(paths::parts(a@).take(y@.len() as int) =~= paths::parts(a@));
    }
    paths::begins_with(&x, &y)
}

// ---------------------------------------------------------------------------
// Forbidden zones
// ---------------------------------------------------------------------------

/// The name of a component that has one.
pub open spec fn part_name(c: Part) -> Option<Seq<char>> {
    match c {
        Part::Name(n) => Some(n),
        _ => None,
    }
}

/// The name of a component that has one.
pub fn normal_name(c: &Component) -> (r: Option<&String>)
    ensures
        match r {
            Some(n) => part_name(c@) == Some(n@),
            None => part_name(c@) is None,
        },
{
    match c {
        Component::Name(n) => Some(n),
        _ => None,
    }
}

/// Equality of components up to the case of names.
pub open spec fn like(a: Part, b: Part) -> bool {
    match (part_name(a), part_name(b)) {
        (Some(x), Some(y)) => text::ascii_lower(x) == text::ascii_lower(y),
        _ => a == b,
    }
}

/// How many leading components two paths share, up to case.
pub open spec fn shared(a: Seq<Part>, b: Seq<Part>) -> int
    decreases a.len(),
{
    if a.len() == 0 || b.len() == 0 || !like(a[0], b[0]) {
        0
    } else {
        1 + shared(a.skip(1), b.skip(1))
    }
}

/// The leading components that two paths share, as `a` writes them.
pub open spec fn ancestor(a: Seq<Part>, b: Seq<Part>) -> Seq<Part> {
    a.take(shared(a, b))
}

/// `shared` is a length of both.
pub proof fn lemma_shared(a: Seq<Part>, b: Seq<Part>)
    ensures
        0 <= shared(a, b) <= a.len(),
        shared(a, b) <= b.len(),
    decreases a.len(),
{
    if a.len() == 0 || b.len() == 0 || !like(a[0], b[0]) {
    } else {
        lemma_shared(a.skip(1), b.skip(1));
    }
}

/// The shared leading path of `a` and `b` (case-insensitive), i.e. the card
/// root when one is `<card>/DCIM` and the other `<card>/Organized`.
pub fn common_ancestor(a: &str, b: &str) -> (r: Vec<Component>)
    ensures
        paths::part_views(r@) == ancestor(paths::parts(a@), paths::parts(b@)),
{
    let x: Vec<Component> = paths::components(a);
    let y: Vec<Component> = paths::components(b);
    let ghost pa = paths::parts(a@);
    let ghost pb = paths::parts(b@);
    let mut out: Vec<Component> = Vec::new();
    let mut i: usize = 0;
    proof {
        assert(pa.skip(0) =~= pa);
        assert(pb.skip(0) =~= pb);
        assert(paths::part_views(out@) =~= pa.take(0));
    }
    loop
        invariant
            pa == paths::part_views(x@),
            pb == paths::part_views(y@),
            i <= x@.len(),
            i <= y@.len(),
            shared(pa, pb) == i + shared(pa.skip(i as int), pb.skip(i as int)),
            paths::part_views(out@) == pa.take(i as int),
        ensures
            shared(pa, pb) == i,
            paths::part_views(out@) == pa.take(i as int),
        decreases x@.len() - i,
    {
        if i == x.len() || i == y.len() {
            break;
        }
        let alike: bool = match (normal_name(&x[i]), normal_name(&y[i])) {
            (Some(m), Some(n)) => text::eq_ignore_case(m.as_str(), n.as_str()),
            _ => paths::same_component(&x[i], &y[i]),
        };
        proof {
            assert(pa.skip(i as int)[0] == x@[i as int]@);
            assert(pb.skip(i as int)[0] == y@[i as int]@);
            assert(pa.skip(i as int).skip(1) =~= pa.skip(i + 1));
            assert(pb.skip(i as int).skip(1) =~= pb.skip(i + 1));
        }
        if !alike {
            break;
        }
        let ghost before = paths::part_views(out@);
        let c: Component = paths::copy_component(&x[i]);
        out.push(c);
        proof {
            assert(paths::part_views(out@) =~= before.push(pa[i as int]));
            assert(pa.take(i + 1) =~= pa.take(i as int).push(pa[i as int]));
        }
        i = i + 1;
    }
    out
}

/// A name that the destination must not pass through.
pub open spec fn forbidden_name(name: Seq<char>) -> bool {
    text::ascii_lower(name) == "dcim"@ || filetype::admin_name(name)
}

/// Whether a component carries a forbidden name.
pub open spec fn forbidden_part(c: Part) -> bool {
    part_name(c) is Some && forbidden_name(part_name(c)->0)
}

/// Whether some component of `path` from the `n`-th on is forbidden.
pub open spec fn forbidden_below(n: int, path: Seq<Part>) -> bool {
    exists|i: int| n <= i < path.len() && forbidden_part(#[trigger] path[i])
}

/// True if any component of `path` *below* `base` is `DCIM` or a managed dir.
/// Components at or above `base` (e.g. a volume literally named `SONY`) are
/// ignored so the card's own name never trips the guard. How the path spells
/// them, in upper or lower case, does not matter: only their number does.
pub fn has_forbidden_below(base: &Vec<Component>, path: &str) -> (r: bool)
    ensures
        r == forbidden_below(base@.len() as int, paths::parts(path@)),
{
    let p: Vec<Component> = paths::components(path);
    let ghost all = paths::parts(path@);
    proof {
        reveal_strlit("dcim");
        reveal_strlit("DCIM");
    }
    let mut i: usize = base.len();
    while i < p.len()
        invariant
            base@.len() <= i,
            all == paths::part_views(p@),
            all == paths::parts(path@),
            forall|j: int|
                base@.len() <= j < i && j < p@.len() ==> !forbidden_part(#[trigger] all[j]),
        decreases p@.len() - i,
    {
        let bad: bool = match normal_name(&p[i]) {
            Some(name) => text::same(text::to_ascii_lower(name.as_str()).as_str(), "dcim")
                || filetype::is_admin_dir(name.as_str()),
            None => false,
        };
        if bad {
            proof {
                assert(forbidden_part(all[i as int]));
            }
            return true;
        }
        i = i + 1;
    }
    false
}

/// How many leading components of a destination make up the card root: those
/// that it shares with the source, up to case. A photo run's own source is no
/// card root: a destination below another spelling of it is below `DCIM` too.
pub open spec fn root_depth(source: Seq<Part>, dest: Seq<Part>, mode: ModeArg) -> int {
    let k = shared(source, dest);
    if mode == ModeArg::Photo && k > 0 && k == source.len() {
        k - 1
    } else {
        k
    }
}

/// The verdict on a destination.
pub open spec fn dest_verdict(source: Seq<char>, dest: Seq<char>, mode: ModeArg) -> Result<
    (),
    GuardError,
> {
    let a = paths::parts(source);
    let b = paths::parts(dest);
    if b == a {
        Err(GuardError::SameAsSource)
    } else if mode == ModeArg::Photo && paths::at_or_below(dest, source) {
        Err(GuardError::InsideSource)
    } else if paths::at_or_below(source, dest) {
        Err(GuardError::ContainsSource)
    } else if forbidden_below(root_depth(a, b, mode), b) {
        Err(GuardError::Forbidden)
    } else {
        Ok(())
    }
}

/// Validate the source/destination relationship of a photo run before doing
/// anything. `source` and `dest` should already be normalized & absolute.
pub fn validate_dest(source: &str, dest: &str) -> (r: Result<(), GuardError>)
    ensures
        r == dest_verdict(source@, dest@, ModeArg::Photo),
{
    validate_dest_in_mode(source, dest, ModeArg::Photo)
}

/// Validate the source/destination relationship in a mode. A video run starts
/// at the card root and its scan leaves the destination out, so there the
/// destination may lie inside the source.
pub fn validate_dest_in_mode(source: &str, dest: &str, mode: ModeArg) -> (r: Result<
    (),
    GuardError,
>)
    ensures
        r == dest_verdict(source@, dest@, mode),
{
    if same_path(dest, source) {
        return Err(GuardError::SameAsSource);
    }
    if mode == ModeArg::Photo && is_within(dest, source) {
        return Err(GuardError::InsideSource);
    }
    if is_within(source, dest) {
        return Err(GuardError::ContainsSource);
    }
    let mut card_root: Vec<Component> = common_ancestor(source, dest);
    proof {
        lemma_shared(paths::parts(source@), paths::parts(dest@));
        assert(paths::part_views(card_root@).len() == card_root@.len());
    }
    if mode == ModeArg::Photo && card_root.len() == paths::components(source).len() {
        let _ = card_root.pop();
    }
    if has_forbidden_below(&card_root, dest) {
        return Err(GuardError::Forbidden);
    }
    Ok(())
}

/// What is said of a target: it has to stay under the destination root, `..`
/// among its components resolved.
pub open spec fn target_verdict(dst: Seq<char>, dest_root: Seq<char>) -> Result<(), GuardError> {
    if contained(dst, dest_root) {
        Ok(())
    } else {
        Err(GuardError::OutsideRoot)
    }
}

/// Final guard before writing: a computed target must stay under the validated
/// destination root and never escape into a sibling tree.
pub fn assert_target_allowed(dst: &str, dest_root: &str) -> (r: Result<(), GuardError>)
    ensures
        r == target_verdict(dst@, dest_root@),
{
    if !place_in(dst, dest_root).0 {
        return Err(GuardError::OutsideRoot);
    }
    Ok(())
}

// ---------------------------------------------------------------------------
// Laws
// ---------------------------------------------------------------------------

proof fn lemma_resolved(c: Seq<Part>)
    requires
        c.len() > 0,
        c[0] == Part::Root,
        forall|i: int| 0 < i < c.len() ==> (#[trigger] c[i]) != Part::Root,
        forall|i: int|
            0 <= i < c.len() ==> ((#[trigger] c[i]) is Name ==> paths::proper_name(c[i]->Name_0)),
    ensures
        paths::proper(resolved(c)),
    decreases c.len(),
{
    let d = c.drop_last();
    if c.len() == 1 {
        assert(resolved(d) =~= Seq::<Part>::empty());
        assert(resolved(c) =~= seq![Part::Root]);
    } else {
        assert forall|i: int| 0 < i < d.len() implies (#[trigger] d[i]) != Part::Root by {
            assert(d[i] == c[i]);
        }
        assert forall|i: int| 0 <= i < d.len() implies ((#[trigger] d[i]) is Name
            ==> paths::proper_name(d[i]->Name_0)) by {
            assert(d[i] == c[i]);
        }
        lemma_resolved(d);
        assert(c[c.len() - 1] != Part::Root);
    }
}

/// A path without `.` and `..` is resolved already.
pub proof fn lemma_resolved_fixed(c: Seq<Part>)
    requires
        paths::proper(c),
    ensures
        resolved(c) == c,
    decreases c.len(),
{
    let d = c.drop_last();
    if c.len() == 1 {
        assert(resolved(d) =~= Seq::<Part>::empty());
        assert(resolved(c) =~= c);
    } else {
        assert(paths::proper(d));
        lemma_resolved_fixed(d);
        assert(c[c.len() - 1] is Name);
        assert(resolved(c) =~= c);
    }
}

/// Resolving makes no path longer.
pub proof fn lemma_resolved_len(c: Seq<Part>)
    ensures
        resolved(c).len() <= c.len(),
    decreases c.len(),
{
    if c.len() > 0 {
        lemma_resolved_len(c.drop_last());
    }
}

/// The normal form of a path, read from an absolute directory, is absolute,
/// holds neither `.` nor `..`, and is its own normal form.
pub proof fn law_normalize(path: Seq<char>, cwd: Seq<char>)
    requires
        paths::absolute(cwd),
    ensures
        paths::absolute(normal_form(path, cwd)),
        paths::proper(paths::parts(normal_form(path, cwd))),
        paths::parts(normal_form(path, cwd)) == resolved(paths::parts(absolutized(path, cwd))),
        normal_form(normal_form(path, cwd), cwd) == normal_form(path, cwd),
{
    let a = absolutized(path, cwd);
    assert(paths::absolute(a)) by {
        if !paths::absolute(path) {
            assert(paths::joined(cwd, path)[0] == cwd[0]);
        }
    }
    paths::lemma_parts_proper(a);
    let c = resolved(paths::parts(a));
    lemma_resolved(paths::parts(a));
    paths::law_path_round_trip(c);
    lemma_resolved_fixed(c);
}

/// A destination that a run accepts is neither the source nor above it, and a
/// photo run's destination does not lie inside the source: what was moved is
/// never scanned again. No name of the destination below the card root is
/// `DCIM` or camera-managed, in whatever case the card root is spelled.
pub proof fn law_accepted_dest(source: Seq<char>, dest: Seq<char>, mode: ModeArg)
    requires
        dest_verdict(source, dest, mode) is Ok,
    ensures
        paths::parts(dest) != paths::parts(source),
        !paths::at_or_below(source, dest),
        mode == ModeArg::Photo ==> !paths::at_or_below(dest, source),
        forall|i: int|
            root_depth(paths::parts(source), paths::parts(dest), mode) <= i < paths::parts(
                dest,
            ).len() ==> !forbidden_part(#[trigger] paths::parts(dest)[i]),
{
}

/// Nothing below the source of a photo run lies in a destination that the run
/// accepts: the two trees are apart.
pub proof fn law_photo_dest_apart(source: Seq<char>, dest: Seq<char>, p: Seq<char>)
    requires
        dest_verdict(source, dest, ModeArg::Photo) is Ok,
        paths::at_or_below(p, source),
    ensures
        !paths::at_or_below(p, dest),
{
    let a = paths::parts(source);
    let b = paths::parts(dest);
    let c = paths::parts(p);
    if paths::at_or_below(p, dest) {
        if a.len() <= b.len() {
            assert(b.take(a.len() as int) =~= c.take(a.len() as int));
        } else {
            assert(a.take(b.len() as int) =~= c.take(b.len() as int));
        }
    }
}

/// A target that is allowed does not leave the destination root: with `.` and
/// `..` resolved it begins with the components of the root.
pub proof fn law_allowed_target(dst: Seq<char>, dest_root: Seq<char>)
    requires
        target_verdict(dst, dest_root) is Ok,
        paths::proper(paths::parts(dest_root)),
    ensures
        ({
            let a = resolved(paths::parts(dst));
            let b = paths::parts(dest_root);
            b.len() <= a.len() && a.take(b.len() as int) == b
        }),
{
    lemma_resolved_fixed(paths::parts(dest_root));
}

/// Being at or below is reflexive and transitive: what is allowed under the
/// root stays allowed in every directory below it.
pub proof fn law_at_or_below(a: Seq<char>, b: Seq<char>, c: Seq<char>)
    ensures
        paths::at_or_below(a, a),
        paths::at_or_below(a, b) && paths::at_or_below(b, c) ==> paths::at_or_below(a, c),
{
    assert(paths::parts(a).take(paths::parts(a).len() as int) =~= paths::parts(a));
    if paths::at_or_below(a, b) && paths::at_or_below(b, c) {
        assert(paths::parts(a).take(paths::parts(c).len() as int) =~= paths::parts(b).take(
            paths::parts(c).len() as int,
        ));
    }
}

} // verus!
