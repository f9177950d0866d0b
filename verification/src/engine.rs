//! The move/copy engine — the safety-critical core.
//!
//! Invariant: at any interruption point, every file is wholly present at its
//! source OR its destination, never neither. A move across filesystems copies
//! to a temporary name, compares digests, puts the copy in place, and only then
//! removes the source.
//!
//! A [`Transfer`] says which operation comes next ([`Transfer::ask`]) and takes
//! what came of it ([`Transfer::reply`]).

use vstd::prelude::*;

use crate::cli::VerifyArg;
use crate::guard;
use crate::paths;
use crate::paths::{Component, Part};
use crate::target;
use crate::text;
use crate::types::Action;
use crate::util;

verus! {

/// Result of a successful transfer.
pub struct Outcome {
    pub bytes: u64,
    pub crossed_fs: bool,
}

/// One file operation.
pub enum Op {
    /// Create a directory and all above it.
    MakeDirs { path: String },
    /// Ask for the size of a file.
    Size { path: String },
    /// Rename a file, within one filesystem, in one step.
    Rename { from: String, to: String },
    /// Copy the bytes of a file and bring them durably to disk.
    Copy { from: String, to: String },
    /// Ask for the digest of a file.
    Hash { path: String },
    /// Remove a file.
    Remove { path: String },
    /// Ask whether a path exists.
    Exists { path: String },
    /// Write a symbolic link.
    Link { at: String, target: String },
}

/// The model of an [`Op`].
#[verifier::ext_equal]
pub enum OpModel {
    MakeDirs(Seq<char>),
    Size(Seq<char>),
    Rename(Seq<char>, Seq<char>),
    Copy(Seq<char>, Seq<char>),
    Hash(Seq<char>),
    Remove(Seq<char>),
    Exists(Seq<char>),
    Link(Seq<char>, Seq<char>),
}

impl View for Op {
    type V = OpModel;

    open spec fn view(&self) -> OpModel {
        match self {
            Op::MakeDirs { path } => OpModel::MakeDirs(path@),
            Op::Size { path } => OpModel::Size(path@),
            Op::Rename { from, to } => OpModel::Rename(from@, to@),
            Op::Copy { from, to } => OpModel::Copy(from@, to@),
            Op::Hash { path } => OpModel::Hash(path@),
            Op::Remove { path } => OpModel::Remove(path@),
            Op::Exists { path } => OpModel::Exists(path@),
            Op::Link { at, target } => OpModel::Link(at@, target@),
        }
    }
}

/// What came of an operation.
pub enum Reply {
    /// It was done.
    Done,
    /// It failed.
    Failed,
    /// A rename failed because the two places are on different filesystems.
    CrossDevice,
    /// The size asked for.
    Size(u64),
    /// The digest asked for.
    Digest(Vec<u8>),
    /// Whether the path asked for exists.
    Found(bool),
}

/// The model of a [`Reply`].
#[verifier::ext_equal]
pub enum ReplyModel {
    Done,
    Failed,
    CrossDevice,
    Size(u64),
    Digest(Seq<u8>),
    Found(bool),
}

impl View for Reply {
    type V = ReplyModel;

    open spec fn view(&self) -> ReplyModel {
        match self {
            Reply::Done => ReplyModel::Done,
            Reply::Failed => ReplyModel::Failed,
            Reply::CrossDevice => ReplyModel::CrossDevice,
            Reply::Size(n) => ReplyModel::Size(*n),
            Reply::Digest(d) => ReplyModel::Digest(d@),
            Reply::Found(b) => ReplyModel::Found(*b),
        }
    }
}

/// Why a transfer failed.
#[derive(Debug, Clone, Copy, PartialEq, Eq, Structural)]
pub enum Trouble {
    /// The target directory cannot be created.
    CreateDir,
    /// The source cannot be looked at.
    Stat,
    /// The rename failed.
    Rename,
    /// The target is missing after the rename.
    TargetMissing,
    /// The source is still there after the rename.
    SourcePresent,
    /// The copy failed.
    Copy,
    /// The source cannot be hashed.
    HashSource,
    /// The copy cannot be hashed.
    HashTemp,
    /// The copy differs from the source.
    Mismatch,
    /// The source cannot be removed.
    RemoveSource,
    /// The copy or the link cannot be given its final name.
    Promote,
    /// The link cannot be written.
    Link,
    /// The action transfers nothing.
    Impossible,
}

/// Where a transfer stands: the operation that is due, or the end.
#[derive(Debug, Clone, Copy, PartialEq, Eq, Structural)]
pub enum Step {
    MakeDirs,
    Stat,
    Rename,
    CheckTarget,
    CheckSource,
    Copy,
    HashSource,
    HashTemp,
    Discard,
    RemoveSource,
    Promote,
    Link,
    Ended,
    Failed(Trouble),
}

/// One planned transfer (move/copy/link/overwrite) on its way.
pub struct Transfer {
    src: String,
    dst: String,
    /// The directory of the destination, where it has one.
    dir: Option<String>,
    /// The temporary name beside the destination.
    tmp: String,
    action: Action,
    verify: VerifyArg,
    step: Step,
    /// Whether the two places turned out to be on different filesystems.
    crossed: bool,
    size: u64,
    /// The digest of the source, once known.
    digest: Vec<u8>,
}

/// The model of a [`Transfer`].
#[verifier::ext_equal]
pub struct TransferModel {
    pub src: Seq<char>,
    pub dst: Seq<char>,
    pub dir: Option<Seq<char>>,
    pub tmp: Seq<char>,
    pub action: Action,
    pub verify: VerifyArg,
    pub step: Step,
    pub crossed: bool,
    pub size: u64,
    pub digest: Seq<u8>,
}

impl View for Transfer {
    type V = TransferModel;

    closed spec fn view(&self) -> TransferModel {
        TransferModel {
            src: self.src@,
            dst: self.dst@,
            dir: crate::types::opt_view(self.dir),
            tmp: self.tmp@,
            action: self.action,
            verify: self.verify,
            step: self.step,
            crossed: self.crossed,
            size: self.size,
            digest: self.digest@,
        }
    }
}

// ---------------------------------------------------------------------------
// Names
// ---------------------------------------------------------------------------

/// A unique temporary name beside the destination, so that the promoting
/// rename stays in one directory.
pub open spec fn temp_name(dst: Seq<char>, pid: u32) -> Seq<char> {
    paths::joined(target::dir_of(dst), temp_file(dst, pid))
}

/// The file name of the temporary name.
pub open spec fn temp_file(dst: Seq<char>, pid: u32) -> Seq<char> {
    let name = match paths::name_of(dst) {
        Some(n) => n,
        None => "file"@,
    };
    "."@ + name + ".shotsort-"@ + text::decimal(pid as nat) + ".tmp"@
}

/// A unique temp name beside the destination so the promote rename is in-dir.
pub fn temp_sibling(dst: &str, pid: u32) -> (r: String)
    ensures
        r@ == temp_name(dst@, pid),
{
    let name: String = match paths::file_name(dst) {
        Some(n) => n,
        None => "file".to_owned(),
    };
    let mut s: String = ".".to_owned();
    s.append(name.as_str());
    s.append(".shotsort-");
    s.append(text::unsigned_text(pid as u64, 0).as_str());
    s.append(".tmp");
    let dir: String = match paths::parent(dst) {
        Some(d) => d,
        None => ".".to_owned(),
    };
    paths::join(dir.as_str(), s.as_str())
}

/// How many components two paths share at their start.
pub open spec fn common(a: Seq<Part>, b: Seq<Part>) -> int
    decreases a.len(),
{
    if a.len() == 0 || b.len() == 0 || a[0] != b[0] {
        0
    } else {
        1 + common(a.skip(1), b.skip(1))
    }
}

/// The components of the way from a directory to a file: up to where the two
/// part, then down.
pub open spec fn way(dir: Seq<Part>, file: Seq<Part>) -> Seq<Part> {
    let k = common(dir, file);
    Seq::new((dir.len() - k) as nat, |i: int| Part::Up) + file.skip(k)
}

/// The text of a relative link from a directory to a file.
pub open spec fn link_text(dir: Seq<char>, file: Seq<char>) -> Seq<char> {
    paths::path_of(way(paths::parts(dir), paths::parts(file)))
}

/// A relative path from a directory to a file.
pub fn relative_link(dir: &str, file: &str) -> (r: String)
    ensures
        r@ == link_text(dir@, file@),
{
    let a: Vec<Component> = paths::components(dir);
    let b: Vec<Component> = paths::components(file);
    let ghost x = paths::part_views(a@);
    let ghost y = paths::part_views(b@);
    let mut k: usize = 0;
    proof {
        assert(x.skip(0) =~= x);
        assert(y.skip(0) =~= y);
    }
    while k < a.len() && k < b.len() && paths::same_component(&a[k], &b[k])
        invariant
            x == paths::part_views(a@),
            y == paths::part_views(b@),
            k <= a@.len(),
            k <= b@.len(),
            common(x, y) == k + common(x.skip(k as int), y.skip(k as int)),
        decreases a@.len() - k,
    {
        proof {
            assert(x.skip(k as int)[0] == a@[k as int]@);
            assert(y.skip(k as int)[0] == b@[k as int]@);
            assert(x.skip(k as int).skip(1) =~= x.skip(k + 1));
            assert(y.skip(k as int).skip(1) =~= y.skip(k + 1));
        }
        k = k + 1;
    }
    proof {
        if k < a@.len() && k < b@.len() {
            assert(x.skip(k as int)[0] == a@[k as int]@);
            assert(y.skip(k as int)[0] == b@[k as int]@);
        }
        assert(common(x, y) == k);
    }
    let ghost w = way(x, y);
    let mut c: Vec<Component> = Vec::new();
    let mut i: usize = k;
    while i < a.len()
        invariant
            k <= i <= a@.len(),
            x == paths::part_views(a@),
            w == way(x, y),
            common(x, y) == k,
            k <= y.len(),
            paths::part_views(c@) == w.take(i - k),
        decreases a@.len() - i,
    {
        let ghost held = c@;
        c.push(Component::Up);
        i = i + 1;
        proof {
            assert(paths::part_views(c@) =~= paths::part_views(held).push(Part::Up));
            assert(w.take(i - k) =~= w.take(i - 1 - k).push(w[i - 1 - k]));
        }
    }
    let mut j: usize = k;
    while j < b.len()
        invariant
            k <= j <= b@.len(),
            x == paths::part_views(a@),
            y == paths::part_views(b@),
            w == way(x, y),
            common(x, y) == k,
            k <= a@.len(),
            paths::part_views(c@) == w.take(a@.len() - k + (j - k)),
        decreases b@.len() - j,
    {
        let ghost held = c@;
        let n: Component = paths::copy_component(&b[j]);
        c.push(n);
        j = j + 1;
        proof {
            assert(paths::part_views(c@) =~= paths::part_views(held).push(n@));
            let m = a@.len() - k + (j - k);
            assert(w.take(m) =~= w.take(m - 1).push(w[m - 1]));
        }
    }
    proof {
        assert(w.take(w.len() as int) =~= w);
        assert(paths::part_views(c@).take(c@.len() as int) =~= w);
    }
    paths::path_from(&c, c.len())
}

/// True if source and target directory are on the same filesystem, by the
/// device ids that the system gives for them.
pub fn same_filesystem(src_device: u64, dir_device: u64) -> (r: bool)
    ensures
        r == (src_device == dir_device),
{
    src_device == dir_device
}

// ---------------------------------------------------------------------------
// Steps
// ---------------------------------------------------------------------------

/// Where a transfer begins.
pub open spec fn started(
    src: Seq<char>,
    dst: Seq<char>,
    action: Action,
    verify: VerifyArg,
    pid: u32,
) -> TransferModel {
    let dir = match paths::parent_parts(dst) {
        Some(c) => Some(paths::path_of(c)),
        None => None,
    };
    TransferModel {
        src,
        dst,
        dir,
        tmp: temp_name(dst, pid),
        action,
        verify,
        step: if dir is Some {
            Step::MakeDirs
        } else {
            Step::Stat
        },
        crossed: false,
        size: 0,
        digest: Seq::empty(),
    }
}

/// The operation that is due, if any.
pub open spec fn due(t: TransferModel) -> Option<OpModel> {
    match t.step {
        Step::MakeDirs => Some(OpModel::MakeDirs(crate::types::or_empty(t.dir))),
        Step::Stat => Some(OpModel::Size(t.src)),
        Step::Rename => Some(OpModel::Rename(t.src, t.dst)),
        Step::CheckTarget => Some(OpModel::Exists(t.dst)),
        Step::CheckSource => Some(OpModel::Exists(t.src)),
        Step::Copy => Some(OpModel::Copy(t.src, t.tmp)),
        Step::HashSource => Some(OpModel::Hash(t.src)),
        Step::HashTemp => Some(OpModel::Hash(t.tmp)),
        Step::Discard => Some(OpModel::Remove(t.tmp)),
        Step::RemoveSource => Some(OpModel::Remove(t.src)),
        Step::Promote => Some(OpModel::Rename(t.tmp, t.dst)),
        Step::Link => Some(
            OpModel::Link(
                t.tmp,
                link_text(
                    match t.dir {
                        Some(d) => d,
                        None => "."@,
                    },
                    t.src,
                ),
            ),
        ),
        Step::Ended => None,
        Step::Failed(_) => None,
    }
}

/// The first step of an action, once the source has been looked at.
pub open spec fn opening(action: Action) -> Step {
    match action {
        Action::Copy => Step::Copy,
        Action::Move => Step::Rename,
        Action::Overwrite => Step::Rename,
        Action::Link => Step::Link,
        _ => Step::Failed(Trouble::Impossible),
    }
}

/// Whether a copy is compared with its source. A move across filesystems
/// always is.
pub open spec fn compares(t: TransferModel) -> bool {
    t.crossed || t.verify == VerifyArg::Hash || t.verify == VerifyArg::Auto
}

/// The step after one whose operation came out as said.
pub open spec fn next_step(t: TransferModel, r: ReplyModel) -> Step {
    match t.step {
        Step::MakeDirs => if r == ReplyModel::Done {
            Step::Stat
        } else {
            Step::Failed(Trouble::CreateDir)
        },
        Step::Stat => if r is Size {
            opening(t.action)
        } else {
            Step::Failed(Trouble::Stat)
        },
        Step::Rename => if r == ReplyModel::Done {
            if t.verify == VerifyArg::Off {
                Step::Ended
            } else {
                Step::CheckTarget
            }
        } else if r == ReplyModel::CrossDevice {
            Step::Copy
        } else {
            Step::Failed(Trouble::Rename)
        },
        Step::CheckTarget => if r == ReplyModel::Found(true) {
            Step::CheckSource
        } else {
            Step::Failed(Trouble::TargetMissing)
        },
        Step::CheckSource => if r == ReplyModel::Found(true) {
            Step::Failed(Trouble::SourcePresent)
        } else {
            Step::Ended
        },
        Step::Copy => if r == ReplyModel::Done {
            if compares(t) {
                Step::HashSource
            } else {
                Step::Promote
            }
        } else {
            Step::Failed(Trouble::Copy)
        },
        Step::HashSource => if r is Digest {
            Step::HashTemp
        } else {
            Step::Failed(Trouble::HashSource)
        },
        Step::HashTemp => if r is Digest {
            if r->Digest_0 != t.digest {
                Step::Discard
            } else {
                Step::Promote
            }
        } else {
            Step::Failed(Trouble::HashTemp)
        },
        Step::Discard => Step::Failed(Trouble::Mismatch),
        Step::RemoveSource => if r == ReplyModel::Done {
            Step::Ended
        } else {
            Step::Failed(Trouble::RemoveSource)
        },
        Step::Promote => if r == ReplyModel::Done {
            if t.crossed {
                Step::RemoveSource
            } else {
                Step::Ended
            }
        } else {
            Step::Failed(Trouble::Promote)
        },
        Step::Link => if r == ReplyModel::Done {
            Step::Promote
        } else {
            Step::Failed(Trouble::Link)
        },
        Step::Ended => Step::Ended,
        Step::Failed(e) => Step::Failed(e),
    }
}

/// The transfer after an operation that came out as said.
pub open spec fn advanced(t: TransferModel, r: ReplyModel) -> TransferModel {
    TransferModel {
        step: next_step(t, r),
        crossed: t.crossed || (t.step == Step::Rename && r == ReplyModel::CrossDevice),
        size: if t.step == Step::Stat && r is Size {
            r->Size_0
        } else {
            t.size
        },
        digest: if t.step == Step::HashSource && r is Digest {
            r->Digest_0
        } else {
            t.digest
        },
        ..t
    }
}

/// The name of an action.
pub open spec fn action_name(a: Action) -> Seq<char> {
    match a {
        Action::Move => "Move"@,
        Action::Copy => "Copy"@,
        Action::Link => "Link"@,
        Action::Overwrite => "Overwrite"@,
        Action::SkipDuplicate => "SkipDuplicate"@,
        Action::SkipConflict => "SkipConflict"@,
        Action::SkipNoDate => "SkipNoDate"@,
    }
}

/// What the user is told of a failed transfer; nothing where the reason that
/// the system gave stands alone.
pub open spec fn trouble_text(t: TransferModel, e: Trouble) -> Seq<char> {
    match e {
        Trouble::CreateDir => "creating target dir "@ + crate::types::or_empty(t.dir),
        Trouble::Stat => "stat source "@ + t.src,
        Trouble::Rename => "renaming "@ + t.src + " -> "@ + t.dst,
        Trouble::TargetMissing => "post-move check failed: target missing "@ + t.dst,
        Trouble::SourcePresent => "post-move check failed: source still present "@ + t.src,
        Trouble::Copy => "copying "@ + t.src + " -> "@ + t.tmp,
        Trouble::HashSource => if t.crossed {
            "hashing source "@ + t.src
        } else {
            Seq::empty()
        },
        Trouble::HashTemp => if t.crossed {
            "hashing temp "@ + t.tmp
        } else {
            Seq::empty()
        },
        Trouble::Mismatch => if t.crossed {
            "cross-fs copy verification failed for "@ + t.src + "; source left intact"@
        } else {
            "copy verification failed for "@ + t.src
        },
        Trouble::RemoveSource => "removing source "@ + t.src,
        Trouble::Promote => "promoting temp "@ + t.tmp + " -> "@ + t.dst,
        Trouble::Link => "linking "@ + t.dst + " -> "@ + t.src,
        Trouble::Impossible => "engine cannot perform action "@ + action_name(t.action),
    }
}

impl Transfer {
    /// A transfer that has not begun.
    pub fn new(src: &str, dst: &str, action: Action, verify: VerifyArg, pid: u32) -> (r: Transfer)
        ensures
            r@ == started(src@, dst@, action, verify, pid),
    {
        let dir: Option<String> = paths::parent(dst);
        let step: Step = if dir.is_some() {
            Step::MakeDirs
        } else {
            Step::Stat
        };
        Transfer {
            src: src.to_owned(),
            dst: dst.to_owned(),
            dir,
            tmp: temp_sibling(dst, pid),
            action,
            verify,
            step,
            crossed: false,
            size: 0,
            digest: Vec::new(),
        }
    }

    /// The operation that is due; `None` at the end.
    pub fn ask(&self) -> (r: Option<Op>)
        ensures
            match r {
                Some(op) => due(self@) == Some(op@),
                None => due(self@) is None,
            },
    {
        match self.step {
            Step::MakeDirs => Some(
                Op::MakeDirs {
                    path: match &self.dir {
                        Some(d) => d.clone(),
                        None => String::new(),
                    },
                },
            ),
            Step::Stat => Some(Op::Size { path: self.src.clone() }),
            Step::Rename => Some(Op::Rename { from: self.src.clone(), to: self.dst.clone() }),
            Step::CheckTarget => Some(Op::Exists { path: self.dst.clone() }),
            Step::CheckSource => Some(Op::Exists { path: self.src.clone() }),
            Step::Copy => Some(Op::Copy { from: self.src.clone(), to: self.tmp.clone() }),
            Step::HashSource => Some(Op::Hash { path: self.src.clone() }),
            Step::HashTemp => Some(Op::Hash { path: self.tmp.clone() }),
            Step::Discard => Some(Op::Remove { path: self.tmp.clone() }),
            Step::RemoveSource => Some(Op::Remove { path: self.src.clone() }),
            Step::Promote => Some(Op::Rename { from: self.tmp.clone(), to: self.dst.clone() }),
            Step::Link => {
                let base: String = match &self.dir {
                    Some(d) => d.clone(),
                    None => ".".to_owned(),
                };
                Some(
                    Op::Link {
                        at: self.tmp.clone(),
                        target: relative_link(base.as_str(), self.src.as_str()),
                    },
                )
            },
            Step::Ended => None,
            Step::Failed(_) => None,
        }
    }

    /// Takes what came of the operation that was due.
    pub fn reply(&mut self, r: Reply)
        ensures
            final(self)@ == advanced(old(self)@, r@),
    {
        match self.step {
            Step::MakeDirs => {
                self.step = match r {
                    Reply::Done => Step::Stat,
                    _ => Step::Failed(Trouble::CreateDir),
                };
            },
            Step::Stat => match r {
                Reply::Size(n) => {
                    self.size = n;
                    self.step = match self.action {
                        Action::Copy => Step::Copy,
                        Action::Move => Step::Rename,
                        Action::Overwrite => Step::Rename,
                        Action::Link => Step::Link,
                        _ => Step::Failed(Trouble::Impossible),
                    };
                },
                _ => {
                    self.step = Step::Failed(Trouble::Stat);
                },
            },
            Step::Rename => match r {
                Reply::Done => {
                    self.step = if self.verify == VerifyArg::Off {
                        Step::Ended
                    } else {
                        Step::CheckTarget
                    };
                },
                Reply::CrossDevice => {
                    self.crossed = true;
                    self.step = Step::Copy;
                },
                _ => {
                    self.step = Step::Failed(Trouble::Rename);
                },
            },
            Step::CheckTarget => {
                self.step = match r {
                    Reply::Found(true) => Step::CheckSource,
                    _ => Step::Failed(Trouble::TargetMissing),
                };
            },
            Step::CheckSource => {
                self.step = match r {
                    Reply::Found(true) => Step::Failed(Trouble::SourcePresent),
                    _ => Step::Ended,
                };
            },
            Step::Copy => {
                let check: bool = self.crossed || self.verify == VerifyArg::Hash || self.verify
                    == VerifyArg::Auto;
                self.step = match r {
                    Reply::Done => if check {
                        Step::HashSource
                    } else {
                        Step::Promote
                    },
                    _ => Step::Failed(Trouble::Copy),
                };
            },
            Step::HashSource => match r {
                Reply::Digest(d) => {
                    self.digest = d;
                    self.step = Step::HashTemp;
                },
                _ => {
                    self.step = Step::Failed(Trouble::HashSource);
                },
            },
            Step::HashTemp => {
                self.step = match r {
                    Reply::Digest(d) => if !target::same_bytes(&d, &self.digest) {
                        Step::Discard
                    } else {
                        Step::Promote
                    },
                    _ => Step::Failed(Trouble::HashTemp),
                };
            },
            Step::Discard => {
                self.step = Step::Failed(Trouble::Mismatch);
            },
            Step::RemoveSource => {
                self.step = match r {
                    Reply::Done => Step::Ended,
                    _ => Step::Failed(Trouble::RemoveSource),
                };
            },
            Step::Promote => {
                self.step = match r {
                    Reply::Done => if self.crossed {
                        Step::RemoveSource
                    } else {
                        Step::Ended
                    },
                    _ => Step::Failed(Trouble::Promote),
                };
            },
            Step::Link => {
                self.step = match r {
                    Reply::Done => Step::Promote,
                    _ => Step::Failed(Trouble::Link),
                };
            },
            Step::Ended => {},
            Step::Failed(_) => {},
        }
    }

    /// How the transfer ended; `None` while an operation is due.
    pub fn result(&self) -> (r: Option<Result<Outcome, Trouble>>)
        ensures
            match r {
                None => due(self@) is Some,
                Some(Ok(o)) => self@.step == Step::Ended && o.bytes == self@.size && o.crossed_fs
                    == self@.crossed,
                Some(Err(e)) => self@.step == Step::Failed(e),
            },
    {
        match self.step {
            Step::Ended => Some(Ok(Outcome { bytes: self.size, crossed_fs: self.crossed })),
            Step::Failed(e) => Some(Err(e)),
            _ => None,
        }
    }

    /// What the user is told of a failed transfer. Where an operation failed,
    /// the reason that the system gave follows.
    pub fn message(&self, e: Trouble) -> (r: String)
        ensures
            r@ == trouble_text(self@, e),
    {
        let mut s: String;
        match e {
            Trouble::CreateDir => {
                s = "creating target dir ".to_owned();
                match &self.dir {
                    Some(d) => s.append(d.as_str()),
                    None => {
                        proof {
                            assert(s@ + Seq::<char>::empty() =~= s@);
                        }
                    },
                }
            },
            Trouble::Stat => {
                s = "stat source ".to_owned();
                s.append(self.src.as_str());
            },
            Trouble::Rename => {
                s = "renaming ".to_owned();
                s.append(self.src.as_str());
                s.append(" -> ");
                s.append(self.dst.as_str());
            },
            Trouble::TargetMissing => {
                s = "post-move check failed: target missing ".to_owned();
                s.append(self.dst.as_str());
            },
            Trouble::SourcePresent => {
                s = "post-move check failed: source still present ".to_owned();
                s.append(self.src.as_str());
            },
            Trouble::Copy => {
                s = "copying ".to_owned();
                s.append(self.src.as_str());
                s.append(" -> ");
                s.append(self.tmp.as_str());
            },
            Trouble::HashSource => {
                s = String::new();
                if self.crossed {
                    s = "hashing source ".to_owned();
                    s.append(self.src.as_str());
                }
            },
            Trouble::HashTemp => {
                s = String::new();
                if self.crossed {
                    s = "hashing temp ".to_owned();
                    s.append(self.tmp.as_str());
                }
            },
            Trouble::Mismatch => {
                if self.crossed {
                    s = "cross-fs copy verification failed for ".to_owned();
                    s.append(self.src.as_str());
                    s.append("; source left intact");
                } else {
                    s = "copy verification failed for ".to_owned();
                    s.append(self.src.as_str());
                }
            },
            Trouble::RemoveSource => {
                s = "removing source ".to_owned();
                s.append(self.src.as_str());
            },
            Trouble::Promote => {
                s = "promoting temp ".to_owned();
                s.append(self.tmp.as_str());
                s.append(" -> ");
                s.append(self.dst.as_str());
            },
            Trouble::Link => {
                s = "linking ".to_owned();
                s.append(self.dst.as_str());
                s.append(" -> ");
                s.append(self.src.as_str());
            },
            Trouble::Impossible => {
                s = "engine cannot perform action ".to_owned();
                s.append(
                    match self.action {
                        Action::Move => "Move",
                        Action::Copy => "Copy",
                        Action::Link => "Link",
                        Action::Overwrite => "Overwrite",
                        Action::SkipDuplicate => "SkipDuplicate",
                        Action::SkipConflict => "SkipConflict",
                        Action::SkipNoDate => "SkipNoDate",
                    },
                );
            },
        }
        s
    }
}

// ---------------------------------------------------------------------------
// What the file system holds
// ---------------------------------------------------------------------------

/// The files of a file system: the bytes at each path.
pub type Files = Map<Seq<char>, Seq<u8>>;

/// Whether two file systems hold the same but for one path.
pub open spec fn same_but(a: Files, b: Files, p: Seq<char>) -> bool {
    forall|q: Seq<char>|
        q != p ==> (#[trigger] a.contains_key(q) <==> b.contains_key(q)) && (a.contains_key(q)
            ==> a[q] == b[q])
}

/// Whether an operation that came out as said can turn one file system into
/// another. Nothing is assumed of the bytes that a copy writes.
pub open spec fn can_do(a: Files, op: OpModel, r: ReplyModel, b: Files) -> bool {
    match op {
        OpModel::Rename(from, to) => if r == ReplyModel::Done {
            a.contains_key(from) && b == a.remove(from).insert(to, a[from])
        } else {
            b == a
        },
        OpModel::Copy(from, to) => {
            &&& same_but(a, b, to)
            &&& r == ReplyModel::Done ==> a.contains_key(from) && b.contains_key(to)
        },
        OpModel::Remove(p) => if r == ReplyModel::Done {
            b == a.remove(p)
        } else {
            b == a
        },
        OpModel::Hash(p) => b == a && (r matches ReplyModel::Digest(d) ==> a.contains_key(p) && d
            == util::digest(a[p])),
        OpModel::Exists(p) => b == a && (r == ReplyModel::Found(true) ==> a.contains_key(p)),
        OpModel::Link(at, _) => same_but(a, b, at),
        OpModel::MakeDirs(_) => b == a,
        OpModel::Size(_) => b == a,
    }
}

/// Whether an operation that was cut short can have turned one file system
/// into another: a rename or a removal is done or not, a copy or a link may
/// have left anything at the place that it writes to.
pub open spec fn can_leave(a: Files, op: OpModel, b: Files) -> bool {
    match op {
        OpModel::Rename(from, to) => b == a || (a.contains_key(from) && b == a.remove(from).insert(
            to,
            a[from],
        )),
        OpModel::Copy(_, to) => same_but(a, b, to),
        OpModel::Remove(p) => b == a || b == a.remove(p),
        OpModel::Link(at, _) => same_but(a, b, at),
        _ => b == a,
    }
}

/// Whether a path holds a file with a given digest.
pub open spec fn holds(fs: Files, p: Seq<char>, d: Seq<u8>) -> bool {
    fs.contains_key(p) && util::digest(fs[p]) == d
}

/// Whether the content with a given digest is at the source or at the
/// destination, never at neither.
pub open spec fn survives(t: TransferModel, fs: Files, d: Seq<u8>) -> bool {
    holds(fs, t.src, d) || holds(fs, t.dst, d)
}

/// What is known of a transfer's paths while it is on its way; `d` is the
/// digest of the content to be transferred.
pub open spec fn on_course(t: TransferModel, fs: Files, d: Seq<u8>) -> bool {
    match t.step {
        Step::CheckTarget => holds(fs, t.dst, d),
        Step::CheckSource => holds(fs, t.dst, d),
        Step::HashTemp => holds(fs, t.src, d) && t.digest == d,
        Step::Promote => holds(fs, t.src, d) && (t.crossed || (t.action == Action::Copy && compares(
            t,
        )) ==> holds(fs, t.tmp, d)),
        Step::RemoveSource => holds(fs, t.src, d) && holds(fs, t.dst, d),
        Step::Ended => if t.action == Action::Link {
            holds(fs, t.src, d)
        } else if t.action == Action::Copy {
            holds(fs, t.src, d) && (compares(t) ==> holds(fs, t.dst, d))
        } else {
            holds(fs, t.dst, d)
        },
        Step::Failed(_) => survives(t, fs, d),
        _ => holds(fs, t.src, d),
    }
}

/// Whether a path holds a file with given bytes.
pub open spec fn holds_bytes(fs: Files, p: Seq<char>, c: Seq<u8>) -> bool {
    fs.contains_key(p) && fs[p] == c
}

/// Whether the very bytes are at the source or at the destination.
pub open spec fn whole(t: TransferModel, fs: Files, c: Seq<u8>) -> bool {
    holds_bytes(fs, t.src, c) || holds_bytes(fs, t.dst, c)
}

/// Where the very bytes are while a transfer is on its way. Only at the end of
/// a move across filesystems, where the source has gone, is that known by the
/// digest alone ([`on_course`]).
pub open spec fn intact(t: TransferModel, fs: Files, c: Seq<u8>) -> bool {
    match t.step {
        Step::CheckTarget => holds_bytes(fs, t.dst, c),
        Step::CheckSource => holds_bytes(fs, t.dst, c),
        Step::Ended => if t.action == Action::Link || t.action == Action::Copy {
            holds_bytes(fs, t.src, c)
        } else {
            !t.crossed ==> holds_bytes(fs, t.dst, c)
        },
        Step::Failed(_) => whole(t, fs, c),
        _ => holds_bytes(fs, t.src, c),
    }
}

/// Whether the steps and flags of a transfer fit together.
pub open spec fn consistent(t: TransferModel) -> bool {
    let moves = t.action == Action::Move || t.action == Action::Overwrite;
    &&& t.crossed ==> moves
    &&& match t.step {
        Step::MakeDirs => !t.crossed,
        Step::Stat => !t.crossed,
        Step::Rename => moves && !t.crossed,
        Step::CheckTarget => moves && !t.crossed,
        Step::CheckSource => moves && !t.crossed,
        Step::Copy => t.crossed || t.action == Action::Copy,
        Step::HashSource => compares(t) && (t.crossed || t.action == Action::Copy),
        Step::HashTemp => compares(t) && (t.crossed || t.action == Action::Copy),
        Step::RemoveSource => t.crossed,
        Step::Promote => t.crossed || t.action == Action::Copy || t.action == Action::Link,
        Step::Link => t.action == Action::Link,
        _ => true,
    }
}

/// A transfer starts on course wherever the source is there.
pub proof fn law_transfer_starts(
    src: Seq<char>,
    dst: Seq<char>,
    action: Action,
    verify: VerifyArg,
    pid: u32,
    fs: Files,
)
    requires
        fs.contains_key(src),
    ensures
        consistent(started(src, dst, action, verify, pid)),
        on_course(started(src, dst, action, verify, pid), fs, util::digest(fs[src])),
{
}

/// Every step keeps a transfer on course, whatever comes of its operation. In
/// particular the content is at the source or the destination after every step
/// ([`law_on_course_survives`]), a source is removed only where the destination
/// holds a file with the same digest, and at the end of a move the destination
/// holds the content.
pub proof fn law_transfer_keeps_content(
    t: TransferModel,
    a: Files,
    r: ReplyModel,
    b: Files,
    d: Seq<u8>,
)
    requires
        consistent(t),
        on_course(t, a, d),
        due(t) is Some,
        can_do(a, due(t)->0, r, b),
        t.src != t.dst,
        t.src != t.tmp,
        t.tmp != t.dst,
    ensures
        consistent(advanced(t, r)),
        on_course(advanced(t, r), b, d),
        forall|c: Seq<u8>| #[trigger] intact(t, a, c) ==> intact(advanced(t, r), b, c),
        t.step == Step::RemoveSource ==> holds(a, t.dst, d),
{
    match t.step {
        Step::Copy => {
            assert(a.contains_key(t.src) <==> b.contains_key(t.src));
        },
        Step::Link => {
            assert(a.contains_key(t.src) <==> b.contains_key(t.src));
        },
        _ => {},
    }
}

/// A transfer that is on course has lost nothing: the content is at the source
/// or at the destination.
pub proof fn law_on_course_survives(t: TransferModel, fs: Files, d: Seq<u8>)
    requires
        consistent(t),
        on_course(t, fs, d),
    ensures
        survives(t, fs, d),
{
}

/// At any interruption point nothing is lost: where an operation is cut short,
/// the content is still at the source or at the destination.
pub proof fn law_interruption_loses_nothing(t: TransferModel, a: Files, b: Files, d: Seq<u8>)
    requires
        consistent(t),
        on_course(t, a, d),
        due(t) is Some,
        can_leave(a, due(t)->0, b),
        t.src != t.dst,
        t.src != t.tmp,
        t.tmp != t.dst,
    ensures
        survives(t, b, d),
        t.step != Step::RemoveSource ==> forall|c: Seq<u8>| #[trigger]
            intact(t, a, c) ==> whole(t, b, c),
{
    match t.step {
        Step::Copy => {
            assert(a.contains_key(t.src) <==> b.contains_key(t.src));
        },
        Step::Link => {
            assert(a.contains_key(t.src) <==> b.contains_key(t.src));
        },
        _ => {},
    }
}

/// Whether a transfer can take a file system through these steps: each with
/// what came of the operation that was due, and the file system after it.
pub open spec fn can_run(t: TransferModel, fs: Files, steps: Seq<(ReplyModel, Files)>) -> bool
    decreases steps.len(),
{
    steps.len() == 0 || {
        &&& due(t) is Some
        &&& can_do(fs, due(t)->0, steps[0].0, steps[0].1)
        &&& can_run(advanced(t, steps[0].0), steps[0].1, steps.skip(1))
    }
}

/// The transfer and the file system after these steps.
pub open spec fn run_to(t: TransferModel, fs: Files, steps: Seq<(ReplyModel, Files)>) -> (
    TransferModel,
    Files,
)
    decreases steps.len(),
{
    if steps.len() == 0 {
        (t, fs)
    } else {
        run_to(advanced(t, steps[0].0), steps[0].1, steps.skip(1))
    }
}

proof fn lemma_run(t: TransferModel, fs: Files, steps: Seq<(ReplyModel, Files)>, d: Seq<u8>)
    requires
        consistent(t),
        on_course(t, fs, d),
        can_run(t, fs, steps),
        t.src != t.dst,
        t.src != t.tmp,
        t.tmp != t.dst,
    ensures
        consistent(run_to(t, fs, steps).0),
        on_course(run_to(t, fs, steps).0, run_to(t, fs, steps).1, d),
        forall|c: Seq<u8>| #[trigger]
            intact(t, fs, c) ==> intact(run_to(t, fs, steps).0, run_to(t, fs, steps).1, c),
        run_to(t, fs, steps).0.src == t.src,
        run_to(t, fs, steps).0.dst == t.dst,
        run_to(t, fs, steps).0.tmp == t.tmp,
        run_to(t, fs, steps).0.action == t.action,
        run_to(t, fs, steps).0.verify == t.verify,
    decreases steps.len(),
{
    if steps.len() > 0 {
        law_transfer_keeps_content(t, fs, steps[0].0, steps[0].1, d);
        lemma_run(advanced(t, steps[0].0), steps[0].1, steps.skip(1), d);
    }
}

/// The temporary name ends in a proper name and is never the destination
/// itself.
pub proof fn lemma_temp_apart(dst: Seq<char>, pid: u32)
    ensures
        paths::proper_name(temp_file(dst, pid)),
        temp_name(dst, pid) != dst,
{
    reveal_strlit(".");
    reveal_strlit("..");
    reveal_strlit("file");
    reveal_strlit(".shotsort-");
    reveal_strlit(".tmp");
    let name = match paths::name_of(dst) {
        Some(n) => n,
        None => "file"@,
    };
    paths::lemma_parts_proper(dst);
    assert(!name.contains('/')) by {
        if paths::name_of(dst) is Some {
            assert(paths::parts(dst)[paths::parts(dst).len() - 1] is Name);
        }
    }
    let digits = text::decimal(pid as nat);
    text::lemma_decimal_digits(pid as nat);
    let x = temp_file(dst, pid);
    assert forall|i: int| 0 <= i < x.len() implies x[i] != '/' by {
        let n = name.len() as int;
        let k = digits.len() as int;
        if 1 <= i < 1 + n {
            assert(x[i] == name[i - 1]);
        } else if 1 + n <= i < 11 + n {
            assert(x[i] == ".shotsort-"@[i - 1 - n]);
        } else if 11 + n <= i < 11 + n + k {
            assert(x[i] == digits[i - 11 - n]);
        } else if 11 + n + k <= i {
            assert(x[i] == ".tmp"@[i - 11 - n - k]);
        }
    }
    assert(!x.contains('/'));
    assert(x.len() > 10 + name.len());
    assert(paths::proper_name(x)) by {
        assert("."@.len() == 1);
        assert(".."@.len() == 2);
    }
    paths::lemma_joined_name(target::dir_of(dst), x);
    if temp_name(dst, pid) == dst {
        assert(paths::name_of(dst) == Some(x));
    }
}

/// No transfer loses a file. However far it has come, and whatever came of its
/// operations, the content of the source is at the source or at the
/// destination, never at neither: its very bytes, but for a move across
/// filesystems that has ended, where its digest says so. Once it has ended, a
/// move has left the content at the destination, a rename on one filesystem the
/// very bytes; a copy or a link has left the bytes at the source, and a copy
/// whose digests were compared has left the content at the destination too.
pub proof fn law_no_transfer_loses(
    src: Seq<char>,
    dst: Seq<char>,
    action: Action,
    verify: VerifyArg,
    pid: u32,
    fs: Files,
    steps: Seq<(ReplyModel, Files)>,
)
    requires
        fs.contains_key(src),
        src != dst,
        src != temp_name(dst, pid),
        can_run(started(src, dst, action, verify, pid), fs, steps),
    ensures
        ({
            let (t, after) = run_to(started(src, dst, action, verify, pid), fs, steps);
            let c = fs[src];
            let d = util::digest(c);
            &&& survives(t, after, d)
            &&& !(t.crossed && t.step == Step::Ended) ==> whole(t, after, c)
            &&& t.step == Step::Ended ==> if action == Action::Copy {
                holds_bytes(after, src, c) && (compares(t) ==> holds(after, dst, d))
            } else if action == Action::Link {
                holds_bytes(after, src, c)
            } else {
                holds(after, dst, d) && (!t.crossed ==> holds_bytes(after, dst, c))
            }
        }),
{
    let t = started(src, dst, action, verify, pid);
    let d = util::digest(fs[src]);
    law_transfer_starts(src, dst, action, verify, pid, fs);
    lemma_temp_apart(dst, pid);
    lemma_run(t, fs, steps, d);
    law_on_course_survives(run_to(t, fs, steps).0, run_to(t, fs, steps).1, d);
    assert(intact(t, fs, fs[src]));
}

/// Pulling the plug loses nothing: wherever a transfer is interrupted, in the
/// middle of an operation too, the content of the source is at the source or at
/// the destination, never at neither: its very bytes, unless the cut falls into
/// the removal of a source whose copy has the same digest.
pub proof fn law_no_interruption_loses(
    src: Seq<char>,
    dst: Seq<char>,
    action: Action,
    verify: VerifyArg,
    pid: u32,
    fs: Files,
    steps: Seq<(ReplyModel, Files)>,
    cut: Files,
)
    requires
        fs.contains_key(src),
        src != dst,
        src != temp_name(dst, pid),
        can_run(started(src, dst, action, verify, pid), fs, steps),
        ({
            let (t, after) = run_to(started(src, dst, action, verify, pid), fs, steps);
            due(t) is Some && can_leave(after, due(t)->0, cut)
        }),
    ensures
        ({
            let t = run_to(started(src, dst, action, verify, pid), fs, steps).0;
            &&& survives(t, cut, util::digest(fs[src]))
            &&& t.step != Step::RemoveSource ==> whole(t, cut, fs[src])
        }),
{
    let t = started(src, dst, action, verify, pid);
    let d = util::digest(fs[src]);
    law_transfer_starts(src, dst, action, verify, pid, fs);
    lemma_temp_apart(dst, pid);
    lemma_run(t, fs, steps, d);
    let (now, after) = run_to(t, fs, steps);
    assert(intact(t, fs, fs[src]));
    law_interruption_loses_nothing(now, after, cut, d);
}

/// Copying and linking write to the destination and the temporary name alone:
/// whatever comes of an operation, or wherever it is cut short, every other
/// file stays as it is.
pub proof fn law_copy_touches_target_only(
    t: TransferModel,
    a: Files,
    r: ReplyModel,
    b: Files,
    p: Seq<char>,
)
    requires
        consistent(t),
        t.action == Action::Copy || t.action == Action::Link,
        due(t) is Some,
        can_do(a, due(t)->0, r, b) || can_leave(a, due(t)->0, b),
        p != t.dst,
        p != t.tmp,
        a.contains_key(p),
    ensures
        b.contains_key(p),
        b[p] == a[p],
{
    match t.step {
        Step::Copy => {
            assert(a.contains_key(p) <==> b.contains_key(p));
        },
        Step::Link => {
            assert(a.contains_key(p) <==> b.contains_key(p));
        },
        _ => {},
    }
}

/// Copying and linking never remove the source.
pub proof fn law_copy_keeps_source(t: TransferModel, a: Files, r: ReplyModel, b: Files)
    requires
        consistent(t),
        t.action == Action::Copy || t.action == Action::Link,
        due(t) is Some,
        can_do(a, due(t)->0, r, b) || can_leave(a, due(t)->0, b),
        t.src != t.dst,
        t.src != t.tmp,
        a.contains_key(t.src),
    ensures
        b.contains_key(t.src),
        b[t.src] == a[t.src],
{
    law_copy_touches_target_only(t, a, r, b, t.src);
}

/// However far a copying or linking transfer has come, every file but the
/// destination and the temporary name is as it was.
pub proof fn law_copy_run_touches_target_only(
    t: TransferModel,
    fs: Files,
    steps: Seq<(ReplyModel, Files)>,
    p: Seq<char>,
)
    requires
        consistent(t),
        t.action == Action::Copy || t.action == Action::Link,
        can_run(t, fs, steps),
        p != t.dst,
        p != t.tmp,
        fs.contains_key(p),
    ensures
        run_to(t, fs, steps).1.contains_key(p),
        run_to(t, fs, steps).1[p] == fs[p],
    decreases steps.len(),
{
    if steps.len() > 0 {
        law_copy_touches_target_only(t, fs, steps[0].0, steps[0].1, p);
        law_copy_run_touches_target_only(
            advanced(t, steps[0].0),
            steps[0].1,
            steps.skip(1),
            p,
        );
    }
}

proof fn lemma_common(a: Seq<Part>, b: Seq<Part>)
    ensures
        0 <= common(a, b) <= a.len(),
        common(a, b) <= b.len(),
        a.take(common(a, b)) == b.take(common(a, b)),
    decreases a.len(),
{
    if a.len() == 0 || b.len() == 0 || a[0] != b[0] {
        assert(a.take(0) =~= b.take(0));
    } else {
        let x = a.skip(1);
        let y = b.skip(1);
        lemma_common(x, y);
        let k = common(x, y);
        assert forall|i: int| 0 <= i < k + 1 implies a[i] == b[i] by {
            if i > 0 {
                assert(x.take(k)[i - 1] == y.take(k)[i - 1]);
            }
        }
        assert(a.take(k + 1) =~= b.take(k + 1));
    }
}

/// A link is relative: its text does not begin at the root, and reading it
/// gives the way from the directory to the file.
pub proof fn law_link_is_relative(dir: Seq<char>, file: Seq<char>)
    requires
        paths::proper(paths::parts(dir)),
        paths::proper(paths::parts(file)),
    ensures
        !paths::absolute(link_text(dir, file)),
        paths::parts(link_text(dir, file)) == way(paths::parts(dir), paths::parts(file)),
{
    let a = paths::parts(dir);
    let b = paths::parts(file);
    let w = way(a, b);
    lemma_common(a, b);
    lemma_common(a.skip(1), b.skip(1));
    let k = common(a, b);
    assert(k >= 1);
    assert forall|i: int| 0 <= i < w.len() implies ((#[trigger] w[i]) is Up || (w[i] is Name
        && paths::proper_name(w[i]->Name_0))) by {
        if i >= a.len() - k {
            assert(w[i] == b[k + i - (a.len() - k)]);
        }
    }
    paths::law_relative_round_trip(w);
}

proof fn lemma_common_below(root: Seq<Part>, a: Seq<Part>, b: Seq<Part>)
    ensures
        common(root + a, root + b) == root.len() + common(a, b),
    decreases root.len(),
{
    if root.len() == 0 {
        assert(root + a =~= a);
        assert(root + b =~= b);
    } else {
        lemma_common_below(root.skip(1), a, b);
        assert((root + a).skip(1) =~= root.skip(1) + a);
        assert((root + b).skip(1) =~= root.skip(1) + b);
    }
}

/// A link keeps working when the card is renamed or remounted: its way does
/// not depend on what stands above the card's own directories.
pub proof fn law_link_survives_rename(
    root: Seq<Part>,
    other: Seq<Part>,
    dir: Seq<Part>,
    file: Seq<Part>,
)
    ensures
        way(root + dir, root + file) == way(other + dir, other + file),
{
    lemma_common_below(root, dir, file);
    lemma_common_below(other, dir, file);
    lemma_common(dir, file);
    let k = common(dir, file);
    assert((root + file).skip(root.len() + k) =~= file.skip(k));
    assert((other + file).skip(other.len() + k) =~= file.skip(k));
    assert(way(root + dir, root + file) =~= way(other + dir, other + file));
}

/// A relative link leads to the file: walking up and down its components from
/// the directory arrives at the file.
pub proof fn law_link_leads_to_file(dir: Seq<Part>, file: Seq<Part>)
    requires
        paths::proper(dir),
        paths::proper(file),
    ensures
        guard::resolved(dir + way(dir, file)) == file,
{
    lemma_common(dir, file);
    let k = common(dir, file);
    assert(k >= 1) by {
        assert(dir[0] == file[0]);
        lemma_common(dir.skip(1), file.skip(1));
    }
    let n = dir.len() - k;
    let ups = Seq::new(n as nat, |i: int| Part::Up);
    guard::lemma_resolved_fixed(dir);
    lemma_walk_up(dir, n);
    let here = dir + ups;
    assert(guard::resolved(here) == dir.take(k));
    assert(dir.take(k) == file.take(k));
    lemma_walk_down(here, file, k, file.len() as int);
    assert(file.subrange(k, file.len() as int) =~= file.skip(k));
    assert(here + file.skip(k) =~= dir + way(dir, file));
    assert(file.take(file.len() as int) =~= file);
}

proof fn lemma_walk_up(dir: Seq<Part>, n: int)
    requires
        paths::proper(dir),
        0 <= n < dir.len(),
    ensures
        guard::resolved(dir + Seq::new(n as nat, |i: int| Part::Up)) == dir.take(dir.len() - n),
    decreases n,
{
    let ups = Seq::new(n as nat, |i: int| Part::Up);
    guard::lemma_resolved_fixed(dir);
    if n == 0 {
        assert(dir + ups =~= dir);
        assert(dir.take(dir.len() as int) =~= dir);
    } else {
        let fewer = Seq::new((n - 1) as nat, |i: int| Part::Up);
        lemma_walk_up(dir, n - 1);
        let all = dir + ups;
        assert(all.drop_last() =~= dir + fewer);
        assert(all.last() == Part::Up);
        let here = dir.take(dir.len() - (n - 1));
        assert(here[here.len() - 1] is Name) by {
            assert(dir[dir.len() - n] is Name);
        }
        assert(guard::resolved(all) =~= dir.take(dir.len() - n));
    }
}

proof fn lemma_walk_down(from: Seq<Part>, file: Seq<Part>, k: int, m: int)
    requires
        paths::proper(file),
        1 <= k <= m <= file.len(),
        guard::resolved(from) == file.take(k),
    ensures
        guard::resolved(from + file.subrange(k, m)) == file.take(m),
    decreases m - k,
{
    if m == k {
        assert(from + file.subrange(k, m) =~= from);
    } else {
        lemma_walk_down(from, file, k, m - 1);
        let all = from + file.subrange(k, m);
        assert(all.drop_last() =~= from + file.subrange(k, m - 1));
        assert(file[m - 1] is Name);
        assert(all.last() == file[m - 1]);
        assert(guard::resolved(all) =~= file.take(m));
    }
}

} // verus!
