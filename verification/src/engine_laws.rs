//! The course of a transfer, step by step, and what its end promises.

use vstd::prelude::*;

use crate::cli::VerifyArg;
use crate::engine;
use crate::engine::{Files, OpModel, ReplyModel, Step, TransferModel, Trouble};
use crate::paths;
use crate::paths::Part;
use crate::target;
use crate::text;
use crate::types::Action;
use crate::util;

verus! {

/// A transfer after some replies.
pub open spec fn after(t: TransferModel, replies: Seq<ReplyModel>) -> TransferModel
    decreases replies.len(),
{
    if replies.len() == 0 {
        t
    } else {
        engine::advanced(after(t, replies.drop_last()), replies.last())
    }
}

/// A copy that is checked has arrived: where digests are compared, `--verify
/// hash` or `auto`, and a copy has ended, the destination holds the content.
pub proof fn law_checked_copy_arrives(
    src: Seq<char>,
    dst: Seq<char>,
    verify: VerifyArg,
    pid: u32,
    fs: Files,
    steps: Seq<(ReplyModel, Files)>,
)
    requires
        fs.contains_key(src),
        src != dst,
        src != engine::temp_name(dst, pid),
        verify == VerifyArg::Hash || verify == VerifyArg::Auto,
        engine::can_run(engine::started(src, dst, Action::Copy, verify, pid), fs, steps),
        engine::run_to(engine::started(src, dst, Action::Copy, verify, pid), fs, steps).0.step
            == Step::Ended,
    ensures
        ({
            let end = engine::run_to(
                engine::started(src, dst, Action::Copy, verify, pid),
                fs,
                steps,
            ).1;
            &&& end.contains_key(dst) && util::digest(end[dst]) == util::digest(fs[src])
            &&& end.contains_key(src) && end[src] == fs[src]
        }),
{
    engine::law_no_transfer_loses(src, dst, Action::Copy, verify, pid, fs, steps);
    lemma_verify_kept(engine::started(src, dst, Action::Copy, verify, pid), fs, steps);
}

proof fn lemma_verify_kept(t: TransferModel, fs: Files, steps: Seq<(ReplyModel, Files)>)
    ensures
        engine::run_to(t, fs, steps).0.verify == t.verify,
    decreases steps.len(),
{
    if steps.len() > 0 {
        lemma_verify_kept(engine::advanced(t, steps[0].0), steps[0].1, steps.skip(1));
    }
}

/// How a transfer begins: the directory of the destination is made, where it
/// has one, and the size of the source is asked for.
pub proof fn law_transfer_begins(
    src: Seq<char>,
    dst: Seq<char>,
    action: Action,
    verify: VerifyArg,
    pid: u32,
    n: u64,
)
    ensures
        ({
            let t = engine::started(src, dst, action, verify, pid);
            let looked = if paths::parent_parts(dst) is Some {
                engine::advanced(t, ReplyModel::Done)
            } else {
                t
            };
            let opened = engine::advanced(looked, ReplyModel::Size(n));
            &&& paths::parent_parts(dst) matches Some(c) ==> engine::due(t) == Some(
                OpModel::MakeDirs(paths::path_of(c)),
            )
            &&& engine::due(looked) == Some(OpModel::Size(src))
            &&& opened.size == n
            &&& !opened.crossed
            &&& action == Action::Move || action == Action::Overwrite ==> engine::due(opened)
                == Some(OpModel::Rename(src, dst))
            &&& action == Action::Copy ==> engine::due(opened) == Some(
                OpModel::Copy(src, engine::temp_name(dst, pid)),
            )
            &&& action == Action::Link ==> engine::due(opened) == Some(
                OpModel::Link(
                    engine::temp_name(dst, pid),
                    engine::link_text(
                        match paths::parent_parts(dst) {
                            Some(c) => paths::path_of(c),
                            None => seq!['.'],
                        },
                        src,
                    ),
                ),
            )
            &&& action == Action::SkipDuplicate || action == Action::SkipConflict || action
                == Action::SkipNoDate ==> opened.step == Step::Failed(Trouble::Impossible)
        }),
{
    reveal_strlit(".");
    assert("."@ =~= seq!['.']);
}

/// A move within one filesystem: one rename; unless checks are off, it is then
/// seen that the target is there and the source is not.
pub proof fn law_move_in_place(t: TransferModel)
    requires
        t.step == Step::Rename,
    ensures
        ({
            let moved = engine::advanced(t, ReplyModel::Done);
            let seen = engine::advanced(moved, ReplyModel::Found(true));
            &&& engine::due(t) == Some(OpModel::Rename(t.src, t.dst))
            &&& t.verify == VerifyArg::Off ==> moved.step == Step::Ended
            &&& t.verify != VerifyArg::Off ==> {
                &&& engine::due(moved) == Some(OpModel::Exists(t.dst))
                &&& engine::due(seen) == Some(OpModel::Exists(t.src))
                &&& engine::advanced(seen, ReplyModel::Found(false)).step == Step::Ended
                &&& engine::advanced(seen, ReplyModel::Found(true)).step == Step::Failed(
                    Trouble::SourcePresent,
                )
                &&& engine::advanced(moved, ReplyModel::Found(false)).step == Step::Failed(
                    Trouble::TargetMissing,
                )
            }
            &&& moved.crossed == t.crossed
            &&& moved.size == t.size
        }),
{
}

/// A move to another filesystem is a copy that is always compared: the source
/// is copied to the temporary name, both are hashed, the copy gets its final
/// name, and only then is the source removed. A copy that differs is thrown
/// away and the source stays.
pub proof fn law_move_across(t: TransferModel, x: Seq<u8>, y: Seq<u8>)
    requires
        t.step == Step::Rename,
    ensures
        ({
            let away = engine::advanced(t, ReplyModel::CrossDevice);
            let copied = engine::advanced(away, ReplyModel::Done);
            let hashed = engine::advanced(copied, ReplyModel::Digest(x));
            let compared = engine::advanced(hashed, ReplyModel::Digest(y));
            let named = engine::advanced(compared, ReplyModel::Done);
            &&& away.crossed
            &&& engine::due(away) == Some(OpModel::Copy(t.src, t.tmp))
            &&& engine::due(copied) == Some(OpModel::Hash(t.src))
            &&& engine::due(hashed) == Some(OpModel::Hash(t.tmp))
            &&& x == y ==> {
                &&& engine::due(compared) == Some(OpModel::Rename(t.tmp, t.dst))
                &&& engine::due(named) == Some(OpModel::Remove(t.src))
                &&& engine::advanced(named, ReplyModel::Done).step == Step::Ended
            }
            &&& x != y ==> {
                &&& engine::due(compared) == Some(OpModel::Remove(t.tmp))
                &&& named.step == Step::Failed(Trouble::Mismatch)
            }
        }),
{
}

/// A copy is written under the temporary name and then renamed; it is hashed in
/// between where digests are compared, and its source is never removed.
pub proof fn law_copy_course(t: TransferModel, x: Seq<u8>, y: Seq<u8>)
    requires
        t.step == Step::Copy,
        !t.crossed,
    ensures
        ({
            let copied = engine::advanced(t, ReplyModel::Done);
            let hashed = engine::advanced(copied, ReplyModel::Digest(x));
            let compared = engine::advanced(hashed, ReplyModel::Digest(y));
            &&& engine::due(t) == Some(OpModel::Copy(t.src, t.tmp))
            &&& t.verify == VerifyArg::Off || t.verify == VerifyArg::Size ==> {
                &&& engine::due(copied) == Some(OpModel::Rename(t.tmp, t.dst))
                &&& engine::advanced(copied, ReplyModel::Done).step == Step::Ended
            }
            &&& t.verify == VerifyArg::Hash || t.verify == VerifyArg::Auto ==> {
                &&& engine::due(copied) == Some(OpModel::Hash(t.src))
                &&& engine::due(hashed) == Some(OpModel::Hash(t.tmp))
                &&& x == y ==> {
                    &&& engine::due(compared) == Some(OpModel::Rename(t.tmp, t.dst))
                    &&& engine::advanced(compared, ReplyModel::Done).step == Step::Ended
                }
                &&& x != y ==> engine::due(compared) == Some(OpModel::Remove(t.tmp))
            }
        }),
{
}

/// A link is written under the temporary name and then renamed.
pub proof fn law_link_course(t: TransferModel)
    requires
        t.step == Step::Link,
        !t.crossed,
    ensures
        ({
            let linked = engine::advanced(t, ReplyModel::Done);
            &&& engine::due(linked) == Some(OpModel::Rename(t.tmp, t.dst))
            &&& engine::advanced(linked, ReplyModel::Done).step == Step::Ended
        }),
{
}

/// An operation that fails ends the transfer, and nothing follows it: what is
/// told is the trouble of that very step.
pub proof fn law_failure_ends(t: TransferModel)
    ensures
        ({
            let e = engine::advanced(t, ReplyModel::Failed).step;
            &&& t.step == Step::MakeDirs ==> e == Step::Failed(Trouble::CreateDir)
            &&& t.step == Step::Stat ==> e == Step::Failed(Trouble::Stat)
            &&& t.step == Step::Rename ==> e == Step::Failed(Trouble::Rename)
            &&& t.step == Step::CheckTarget ==> e == Step::Failed(Trouble::TargetMissing)
            &&& t.step == Step::Copy ==> e == Step::Failed(Trouble::Copy)
            &&& t.step == Step::HashSource ==> e == Step::Failed(Trouble::HashSource)
            &&& t.step == Step::HashTemp ==> e == Step::Failed(Trouble::HashTemp)
            &&& t.step == Step::Discard ==> e == Step::Failed(Trouble::Mismatch)
            &&& t.step == Step::RemoveSource ==> e == Step::Failed(Trouble::RemoveSource)
            &&& t.step == Step::Promote ==> e == Step::Failed(Trouble::Promote)
            &&& t.step == Step::Link ==> e == Step::Failed(Trouble::Link)
        }),
        t.step is Failed ==> engine::due(t) is None,
        t.step == Step::Ended ==> engine::due(t) is None,
        engine::due(t) is None ==> t.step is Failed || t.step == Step::Ended,
{
}

/// Every transfer comes to its end, after nine replies at the latest.
pub proof fn law_transfer_ends(
    src: Seq<char>,
    dst: Seq<char>,
    action: Action,
    verify: VerifyArg,
    pid: u32,
    replies: Seq<ReplyModel>,
)
    requires
        replies.len() >= 9,
    ensures
        engine::due(after(engine::started(src, dst, action, verify, pid), replies)) is None,
{
    let t = engine::started(src, dst, action, verify, pid);
    lemma_rank(t, replies);
}

/// How many steps can still follow.
spec fn rank(s: Step) -> int {
    match s {
        Step::MakeDirs => 8,
        Step::Stat => 7,
        Step::Rename => 6,
        Step::Copy => 5,
        Step::HashSource => 4,
        Step::HashTemp => 3,
        Step::Link => 3,
        Step::Promote => 2,
        Step::CheckTarget => 2,
        Step::CheckSource => 1,
        Step::Discard => 1,
        Step::RemoveSource => 1,
        Step::Ended => 0,
        Step::Failed(_) => 0,
    }
}

proof fn lemma_rank(t: TransferModel, replies: Seq<ReplyModel>)
    ensures
        rank(after(t, replies).step) == 0 || rank(after(t, replies).step) + replies.len() <= rank(
            t.step,
        ),
    decreases replies.len(),
{
    if replies.len() > 0 {
        lemma_rank(t, replies.drop_last());
    }
}

/// The temporary name is the name of the destination between `.` and
/// `.shotsort-<process>.tmp`, in the same directory.
pub proof fn law_temp_name(dir: Seq<Part>, name: Seq<char>, pid: u32)
    requires
        paths::proper(dir),
        paths::proper_name(name),
    ensures
        ({
            let dst = paths::path_of(dir.push(Part::Name(name)));
            let t = seq!['.'] + name + ".shotsort-"@ + text::decimal(pid as nat) + ".tmp"@;
            engine::temp_name(dst, pid) == paths::path_of(dir.push(Part::Name(t)))
        }),
{
    reveal_strlit(".");
    let c = dir.push(Part::Name(name));
    let dst = paths::path_of(c);
    assert(paths::rooted(c)) by {
        assert forall|i: int| 1 <= i < c.len() implies ((#[trigger] c[i]) is Up || (c[i] is Name
            && paths::proper_name(c[i]->Name_0))) by {
            if i < dir.len() {
                assert(c[i] == dir[i]);
            }
        }
    }
    paths::law_path_round_trip(c);
    assert(paths::parts(dst) == c);
    assert(c.drop_last() =~= dir);
    assert(paths::name_of(dst) == Some(name));
    let t = seq!['.'] + name + ".shotsort-"@ + text::decimal(pid as nat) + ".tmp"@;
    assert("."@ =~= seq!['.']);
    assert(engine::temp_file(dst, pid) == t);
    assert(dir.push(Part::Name(t)).drop_last() =~= dir);
    assert(target::dir_of(dst) == paths::path_of(dir));
}

/// What is told of a transfer that failed.
pub proof fn law_trouble_told(t: TransferModel)
    ensures
        t.dir matches Some(d) ==> engine::trouble_text(t, Trouble::CreateDir)
            == "creating target dir "@ + d,
        engine::trouble_text(t, Trouble::Stat) == "stat source "@ + t.src,
        engine::trouble_text(t, Trouble::Rename) == "renaming "@ + t.src + " -> "@ + t.dst,
        engine::trouble_text(t, Trouble::TargetMissing)
            == "post-move check failed: target missing "@ + t.dst,
        engine::trouble_text(t, Trouble::SourcePresent)
            == "post-move check failed: source still present "@ + t.src,
        engine::trouble_text(t, Trouble::Copy) == "copying "@ + t.src + " -> "@ + t.tmp,
        t.crossed ==> engine::trouble_text(t, Trouble::HashSource) == "hashing source "@ + t.src
            && engine::trouble_text(t, Trouble::HashTemp) == "hashing temp "@ + t.tmp
            && engine::trouble_text(t, Trouble::Mismatch)
            == "cross-fs copy verification failed for "@ + t.src + "; source left intact"@,
        !t.crossed ==> engine::trouble_text(t, Trouble::Mismatch)
            == "copy verification failed for "@ + t.src,
        engine::trouble_text(t, Trouble::RemoveSource) == "removing source "@ + t.src,
        engine::trouble_text(t, Trouble::Promote) == "promoting temp "@ + t.tmp + " -> "@ + t.dst,
        engine::trouble_text(t, Trouble::Link) == "linking "@ + t.dst + " -> "@ + t.src,
        t.action == Action::SkipDuplicate ==> engine::trouble_text(t, Trouble::Impossible)
            == "engine cannot perform action "@ + "SkipDuplicate"@,
        t.action == Action::SkipConflict ==> engine::trouble_text(t, Trouble::Impossible)
            == "engine cannot perform action "@ + "SkipConflict"@,
        t.action == Action::SkipNoDate ==> engine::trouble_text(t, Trouble::Impossible)
            == "engine cannot perform action "@ + "SkipNoDate"@,
{
}

} // verus!
