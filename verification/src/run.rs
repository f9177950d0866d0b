//! The decisions of a run: what follows the plan, what is done with each item,
//! what is counted, and what is cleaned up.

use vstd::prelude::*;
use vstd::hash_set::StringHashSet;

use crate::config;
use crate::config::{ConfigModel, RunConfig};
use crate::engine;
use crate::engine::{Files, ReplyModel};
use crate::filetype;
use crate::guard;
use crate::guard::GuardError;
use crate::journal;
use crate::journal::{EntryModel, JournalEntry};
use crate::paths;
use crate::paths::{Component, Part};
use crate::report::FinalStats;
use crate::target;
use crate::text;
use crate::types;
use crate::types::{Action, ItemModel, PlanItem};
use crate::undo::UndoSummary;

verus! {

// ---------------------------------------------------------------------------
// After the plan
// ---------------------------------------------------------------------------

/// What follows the preview of a plan.
#[derive(Debug, Clone, Copy, PartialEq, Eq, Structural)]
pub enum Next {
    /// A dry run ends here.
    DryRun,
    /// There is nothing to transfer.
    Nothing,
    /// The user is asked first.
    Ask,
    /// The plan is executed.
    Go,
}

/// What follows the preview of a plan with so many items to transfer.
pub open spec fn follows(dry_run: bool, to_move: int, yes: bool) -> Next {
    if dry_run {
        Next::DryRun
    } else if to_move <= 0 {
        Next::Nothing
    } else if yes {
        Next::Go
    } else {
        Next::Ask
    }
}

/// What follows the preview of a plan. A dry run touches nothing, whatever
/// else holds, and nothing is executed without consent.
pub fn after_preview(dry_run: bool, to_move: usize, yes: bool) -> (r: Next)
    ensures
        r == follows(dry_run, to_move as int, yes),
        r == (if dry_run {
            Next::DryRun
        } else if to_move == 0 {
            Next::Nothing
        } else if !yes {
            Next::Ask
        } else {
            Next::Go
        }),
{
    if dry_run {
        Next::DryRun
    } else if to_move == 0 {
        Next::Nothing
    } else if !yes {
        Next::Ask
    } else {
        Next::Go
    }
}

/// The exit code of a run: 0 on a clean one, 1 if any file errored.
pub fn exit_code(errors: usize) -> (r: i32)
    ensures
        r == (if errors > 0 {
            1i32
        } else {
            0i32
        }),
{
    if errors > 0 {
        1
    } else {
        0
    }
}

// ---------------------------------------------------------------------------
// Items
// ---------------------------------------------------------------------------

/// The sources that a journal records, for resuming a run.
pub struct DoneSources {
    set: StringHashSet,
}

impl View for DoneSources {
    type V = Set<Seq<char>>;

    closed spec fn view(&self) -> Set<Seq<char>> {
        self.set@
    }
}

impl DoneSources {
    /// The sources of the entries.
    pub fn new(entries: &Vec<JournalEntry>) -> (r: DoneSources)
        ensures
            forall|s: Seq<char>|
                #[trigger] r@.contains(s) <==> journal::sources(
                    journal::entry_models(entries@),
                ).contains(s),
    {
        let list: Vec<String> = journal::completed_sources(entries);
        let ghost all = text::views(list@);
        let mut set = StringHashSet::new();
        let mut i: usize = 0;
        while i < list.len()
            invariant
                i <= list@.len(),
                all == text::views(list@),
                forall|s: Seq<char>| #[trigger] set@.contains(s) <==> all.take(i as int).contains(s),
            decreases list@.len() - i,
        {
            let ghost before = set@;
            set.insert(list[i].clone());
            i = i + 1;
            proof {
                let a = all.take(i - 1);
                let b = all.take(i as int);
                assert(b =~= a.push(all[i - 1]));
                assert forall|s: Seq<char>| #[trigger] set@.contains(s) <==> b.contains(s) by {
                    if a.contains(s) {
                        let k = choose|k: int| 0 <= k < a.len() && a[k] == s;
                        assert(b[k] == s);
                    }
                    if s == all[i - 1] {
                        assert(b[i - 1] == s);
                    }
                    if b.contains(s) && s != all[i - 1] {
                        let k = choose|k: int| 0 <= k < b.len() && b[k] == s;
                        assert(a[k] == s);
                    }
                }
            }
        }
        proof {
            assert(all.take(all.len() as int) =~= all);
        }
        DoneSources { set }
    }

    /// Whether a source is recorded.
    pub fn contains(&self, src: &str) -> (r: bool)
        ensures
            r == self@.contains(src@),
    {
        self.set.contains(src)
    }
}

/// What is done with an item.
#[derive(Debug, Clone, Copy, PartialEq, Eq, Structural)]
pub enum Order {
    /// The plan leaves the file alone.
    Skip,
    /// An earlier run has done it, or the source is gone.
    AlreadyDone,
    /// The target is not allowed.
    Refuse(GuardError),
    /// The file is transferred in this way.
    Transfer(Action),
}

/// The way in which an item is transferred: what overwrites a target is
/// moved, copied or linked as the run transfers everything else.
pub open spec fn carried(a: Action, cfg: ConfigModel) -> Action {
    if a == Action::Overwrite && target::transfer_action(cfg) != Action::Move {
        target::transfer_action(cfg)
    } else {
        a
    }
}

fn carry(a: Action, cfg: &RunConfig) -> (r: Action)
    ensures
        r == carried(a, cfg@),
{
    if a == Action::Overwrite {
        if cfg.link {
            return Action::Link;
        }
        if cfg.is_copy() {
            return Action::Copy;
        }
    }
    a
}

/// What is done with an item.
pub open spec fn order_for(
    item: ItemModel,
    done: Set<Seq<char>>,
    src_exists: bool,
    cfg: ConfigModel,
) -> Order {
    if types::skips(item.action) {
        Order::Skip
    } else if done.contains(item.src) || !src_exists {
        Order::AlreadyDone
    } else {
        match guard::target_verdict(item.dst, cfg.dest) {
            Err(e) => Order::Refuse(e),
            Ok(_) => Order::Transfer(carried(item.action, cfg)),
        }
    }
}

/// What is done with an item. A source that the journal records needs no
/// second transfer, and the target is checked once more before anything moves.
pub fn decide_item(item: &PlanItem, done: &DoneSources, src_exists: bool, cfg: &RunConfig) -> (r:
    Order)
    ensures
        r == order_for(item@, done@, src_exists, cfg@),
{
    if item.action.is_skip() {
        return Order::Skip;
    }
    if done.contains(item.src.as_str()) || !src_exists {
        return Order::AlreadyDone;
    }
    match guard::assert_target_allowed(item.dst.as_str(), cfg.dest.as_str()) {
        Err(e) => Order::Refuse(e),
        Ok(_) => Order::Transfer(carry(item.action, cfg)),
    }
}

/// The word of an action in the journal.
pub open spec fn op_name(a: Action) -> Seq<char> {
    match a {
        Action::Copy => "copy"@,
        Action::Link => "link"@,
        Action::Overwrite => "overwrite"@,
        _ => "move"@,
    }
}

/// The journal entry of an item that was transferred in a given way.
pub open spec fn entry_for(item: ItemModel, action: Action, ts: Seq<char>, bytes: u64) -> EntryModel {
    EntryModel { op: op_name(action), src: item.src, dst: item.dst, ts, bytes }
}

/// The journal entry of an item that was transferred in a given way, at a
/// given time.
pub fn journal_entry(item: &PlanItem, action: Action, ts: String, bytes: u64) -> (r: JournalEntry)
    ensures
        r@ == entry_for(item@, action, ts@, bytes),
{
    let op: &str = match action {
        Action::Copy => "copy",
        Action::Link => "link",
        Action::Overwrite => "overwrite",
        _ => "move",
    };
    JournalEntry {
        op: op.to_owned(),
        src: item.src.clone(),
        dst: item.dst.clone(),
        ts,
        bytes,
    }
}

/// The files of a file system once the first `k` items of a plan have been
/// dealt with; `traces` holds what came of the operations of each transfer.
pub open spec fn files_after(
    items: Seq<ItemModel>,
    cfg: ConfigModel,
    done: Set<Seq<char>>,
    pid: u32,
    fs: Files,
    traces: Seq<Seq<(ReplyModel, Files)>>,
    k: int,
) -> Files
    decreases k,
{
    if k <= 0 {
        fs
    } else {
        let before = files_after(items, cfg, done, pid, fs, traces, k - 1);
        let item = items[k - 1];
        match order_for(item, done, before.contains_key(item.src), cfg) {
            Order::Transfer(a) => engine::run_to(
                engine::started(item.src, item.dst, a, cfg.verify, pid),
                before,
                traces[k - 1],
            ).1,
            _ => before,
        }
    }
}

/// Whether a run can deal with the first `k` items of a plan in this way: each
/// transfer goes through the operations that are due, as far as it comes.
pub open spec fn can_execute(
    items: Seq<ItemModel>,
    cfg: ConfigModel,
    done: Set<Seq<char>>,
    pid: u32,
    fs: Files,
    traces: Seq<Seq<(ReplyModel, Files)>>,
    k: int,
) -> bool
    decreases k,
{
    k <= 0 || {
        let before = files_after(items, cfg, done, pid, fs, traces, k - 1);
        let item = items[k - 1];
        &&& can_execute(items, cfg, done, pid, fs, traces, k - 1)
        &&& order_for(item, done, before.contains_key(item.src), cfg) matches Order::Transfer(a)
            ==> engine::can_run(
            engine::started(item.src, item.dst, a, cfg.verify, pid),
            before,
            traces[k - 1],
        )
    }
}

// ---------------------------------------------------------------------------
// Counting
// ---------------------------------------------------------------------------

/// What happened to an item.
#[derive(Debug, Clone, Copy, PartialEq, Eq, Structural)]
pub enum Event {
    /// The plan left it alone.
    Skipped,
    /// It was done before.
    AlreadyDone,
    /// It was transferred, with so many bytes.
    Done { bytes: u64 },
    /// It was refused, or the transfer failed.
    Failed,
}

/// The model of [`FinalStats`], the verb aside.
#[verifier::ext_equal]
pub struct Tally {
    pub moved: int,
    pub moved_bytes: int,
    pub skipped: int,
    pub no_date: int,
    pub errors: int,
}

/// The numbers of final statistics.
pub open spec fn tally_of(s: FinalStats) -> Tally {
    Tally {
        moved: s.moved as int,
        moved_bytes: s.moved_bytes as int,
        skipped: s.skipped as int,
        no_date: s.no_date as int,
        errors: s.errors as int,
    }
}

/// The numbers once an item is done with. A file that goes to `NoDate` is
/// counted apart too.
pub open spec fn tallied(t: Tally, folder: Seq<char>, e: Event) -> Tally {
    match e {
        Event::Skipped => Tally { skipped: t.skipped + 1, ..t },
        Event::AlreadyDone => t,
        Event::Done { bytes } => Tally {
            moved: t.moved + 1,
            moved_bytes: t.moved_bytes + bytes,
            no_date: if folder == "NoDate"@ {
                t.no_date + 1
            } else {
                t.no_date
            },
            ..t
        },
        Event::Failed => Tally { errors: t.errors + 1, ..t },
    }
}

/// The verb of a run that is over.
pub open spec fn past_verb(cfg: ConfigModel) -> Seq<char> {
    if cfg.link {
        "linked"@
    } else if config::copies(cfg) {
        "copied"@
    } else {
        "moved"@
    }
}

/// Statistics of a run that has not begun.
pub fn start_stats(cfg: &RunConfig) -> (r: FinalStats)
    ensures
        r.action_verb@ == past_verb(cfg@),
        tally_of(r) == (Tally { moved: 0, moved_bytes: 0, skipped: 0, no_date: 0, errors: 0 }),
{
    FinalStats {
        action_verb: if cfg.link {
            "linked"
        } else if cfg.is_copy() {
            "copied"
        } else {
            "moved"
        },
        moved: 0,
        moved_bytes: 0,
        skipped: 0,
        no_date: 0,
        errors: 0,
    }
}

/// Counts what happened to an item. No number can outgrow its type.
pub fn count_event(s: &mut FinalStats, item: &PlanItem, e: Event)
    requires
        old(s).moved < usize::MAX,
        old(s).skipped < usize::MAX,
        old(s).no_date < usize::MAX,
        old(s).errors < usize::MAX,
        e matches Event::Done { bytes } ==> old(s).moved_bytes + bytes <= u64::MAX,
    ensures
        final(s).action_verb == old(s).action_verb,
        tally_of(*final(s)) == tallied(tally_of(*old(s)), item@.rel_folder, e),
{
    match e {
        Event::Skipped => {
            s.skipped = s.skipped + 1;
        },
        Event::AlreadyDone => {},
        Event::Done { bytes } => {
            s.moved = s.moved + 1;
            s.moved_bytes = s.moved_bytes + bytes;
            if text::same(item.rel_folder.as_str(), "NoDate") {
                s.no_date = s.no_date + 1;
            }
        },
        Event::Failed => {
            s.errors = s.errors + 1;
        },
    }
}

/// The numbers once a list of items is done with.
pub open spec fn tallied_all(events: Seq<(Seq<char>, Event)>) -> Tally
    decreases events.len(),
{
    if events.len() == 0 {
        Tally { moved: 0, moved_bytes: 0, skipped: 0, no_date: 0, errors: 0 }
    } else {
        tallied(tallied_all(events.drop_last()), events.last().0, events.last().1)
    }
}

/// The number of items that were done before.
pub open spec fn done_before(events: Seq<(Seq<char>, Event)>) -> int
    decreases events.len(),
{
    if events.len() == 0 {
        0
    } else {
        done_before(events.drop_last()) + if events.last().1 == Event::AlreadyDone {
            1int
        } else {
            0
        }
    }
}

/// Every item is accounted for: transferred, skipped, failed, or done before.
pub proof fn law_every_item_counted(events: Seq<(Seq<char>, Event)>)
    ensures
        ({
            let t = tallied_all(events);
            t.moved + t.skipped + t.errors + done_before(events) == events.len()
        }),
    decreases events.len(),
{
    if events.len() > 0 {
        law_every_item_counted(events.drop_last());
    }
}

// ---------------------------------------------------------------------------
// Cleaning up
// ---------------------------------------------------------------------------

/// Whether emptied source folders are removed: asked for, and the run did not
/// copy.
pub fn cleans(cfg: &RunConfig) -> (r: bool)
    ensures
        r == (cfg@.clean_empty_dirs && !config::copies(cfg@)),
{
    cfg.clean_empty_dirs && !cfg.is_copy()
}

/// Whether a component carries the name of a camera-managed directory.
pub open spec fn managed(c: Part) -> bool {
    c matches Part::Name(n) && filetype::admin_name(n)
}

/// Whether a directory may be removed once it is empty: it is below the source,
/// not the source root itself, and neither a camera-managed directory nor
/// inside one.
pub open spec fn may_remove(dir: Seq<char>, source: Seq<char>) -> bool {
    let c = paths::parts(dir);
    let b = paths::parts(source);
    &&& paths::at_or_below(dir, source)
    &&& c != b
    &&& forall|i: int| b.len() <= i < c.len() ==> !managed(#[trigger] c[i])
}

/// Whether a directory may be removed once it is empty. Both paths are
/// normalized.
pub fn cleanable(dir: &str, source: &str) -> (r: bool)
    ensures
        r == may_remove(dir@, source@),
{
    if !guard::is_within(dir, source) || guard::same_path(dir, source) {
        return false;
    }
    let c: Vec<Component> = paths::components(dir);
    let ghost all = paths::parts(dir@);
    let from: usize = paths::components(source).len();
    proof {
        assert(paths::parts(source@).len() == from);
    }
    let mut i: usize = from;
    while i < c.len()
        invariant
            from <= i,
            all == paths::part_views(c@),
            all == paths::parts(dir@),
            from == paths::parts(source@).len(),
            forall|k: int| from <= k < i && k < c@.len() ==> !managed(#[trigger] all[k]),
        decreases c@.len() - i,
    {
        let bad: bool = match guard::normal_name(&c[i]) {
            Some(n) => filetype::is_admin_dir(n.as_str()),
            None => false,
        };
        proof {
            assert(all[i as int] == c@[i as int]@);
            assert(bad == managed(all[i as int]));
        }
        if bad {
            return false;
        }
        i = i + 1;
    }
    true
}

// ---------------------------------------------------------------------------
// Undo
// ---------------------------------------------------------------------------

/// What the user is told at the end of an undo run.
pub open spec fn undo_text(restored: int, skipped: int, errors: int, reverse: Seq<char>) -> Seq<
    char,
> {
    "Undo complete: restored "@ + text::decimal(restored as nat) + ", skipped "@ + text::decimal(
        skipped as nat,
    ) + ", errors "@ + text::decimal(errors as nat) + ".\n  reverse journal: "@ + reverse
}

/// What the user is told at the end of an undo run; nothing where there was
/// nothing to undo.
pub fn undo_line(s: &UndoSummary) -> (r: Option<String>)
    ensures
        r is None <==> s.reverse_journal@.len() == 0,
        r matches Some(t) ==> t@ == undo_text(
            s.restored as int,
            s.skipped as int,
            s.errors as int,
            s.reverse_journal@,
        ),
{
    proof {
        reveal_strlit("");
        assert(s.reverse_journal@.len() == 0 ==> s.reverse_journal@ =~= ""@);
    }
    if text::same(s.reverse_journal.as_str(), "") {
        return None;
    }
    let mut t: String = "Undo complete: restored ".to_owned();
    t.append(text::unsigned_text(s.restored as u64, 0).as_str());
    t.append(", skipped ");
    t.append(text::unsigned_text(s.skipped as u64, 0).as_str());
    t.append(", errors ");
    t.append(text::unsigned_text(s.errors as u64, 0).as_str());
    t.append(".\n  reverse journal: ");
    t.append(s.reverse_journal.as_str());
    Some(t)
}

} // verus!
