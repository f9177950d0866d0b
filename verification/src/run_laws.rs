//! What a run does with each item of its plan, what it writes down, and what
//! its numbers mean.

use vstd::prelude::*;

use crate::cli::ModeArg;
use crate::config::ConfigModel;
use crate::guard;
use crate::guard::GuardError;
use crate::journal;
use crate::journal::EntryModel;
use crate::paths;
use crate::paths::Part;
use crate::report;
use crate::report_laws;
use crate::run;
use crate::run::{Event, Next, Order};
use crate::shot_laws;
use crate::text;
use crate::types;
use crate::types::{Action, ItemModel};

verus! {

/// What is done with an item. A skipped item is left alone; one that an earlier
/// run did, or whose source is gone, is passed over; one whose target would
/// leave the destination is refused. Every other one is transferred: linked
/// where links are asked for, copied where copies are asked for or clips are
/// organized, else moved.
pub proof fn law_order(
    item: ItemModel,
    done: Set<Seq<char>>,
    src_exists: bool,
    cfg: ConfigModel,
)
    ensures
        ({
            let o = run::order_for(item, done, src_exists, cfg);
            let skip = item.action == Action::SkipDuplicate || item.action == Action::SkipConflict
                || item.action == Action::SkipNoDate;
            let stays = guard::contained(item.dst, cfg.dest);
            &&& o == Order::Skip <==> skip
            &&& o == Order::AlreadyDone <==> !skip && (done.contains(item.src) || !src_exists)
            &&& o == Order::Refuse(GuardError::OutsideRoot) <==> !skip && !done.contains(item.src)
                && src_exists && !stays
            &&& o is Transfer <==> !skip && !done.contains(item.src) && src_exists && stays
            &&& o matches Order::Transfer(a) ==> if item.action != Action::Overwrite {
                a == item.action
            } else if cfg.link {
                a == Action::Link
            } else if cfg.copy || cfg.mode == ModeArg::Video {
                a == Action::Copy
            } else {
                a == Action::Overwrite
            }
        }),
{
}

/// A run that is started again does nothing twice: an item that the journal
/// records as done is never transferred.
pub proof fn law_nothing_twice(
    item: ItemModel,
    entries: Seq<EntryModel>,
    src_exists: bool,
    cfg: ConfigModel,
    k: int,
)
    requires
        0 <= k < entries.len(),
        entries[k].src == item.src,
    ensures
        !(run::order_for(item, journal::sources(entries).to_set(), src_exists, cfg) is Transfer),
{
    assert(journal::sources(entries)[k] == item.src);
    assert(journal::sources(entries).contains(item.src));
}

/// What the journal records of a transfer: the word for what was done, the two
/// paths, the time and the size.
pub proof fn law_record(item: ItemModel, action: Action, ts: Seq<char>, bytes: u64)
    ensures
        ({
            let e = run::entry_for(item, action, ts, bytes);
            &&& e.src == item.src && e.dst == item.dst && e.ts == ts && e.bytes == bytes
            &&& action == Action::Move ==> e.op == "move"@
            &&& action == Action::Copy ==> e.op == "copy"@
            &&& action == Action::Link ==> e.op == "link"@
            &&& action == Action::Overwrite ==> e.op == "overwrite"@
        }),
{
}

// ---------------------------------------------------------------------------
// Numbers
// ---------------------------------------------------------------------------

/// How many events answer a description.
pub open spec fn how_many(
    events: Seq<(Seq<char>, Event)>,
    p: spec_fn(Seq<char>, Event) -> bool,
) -> int
    decreases events.len(),
{
    if events.len() == 0 {
        0
    } else {
        how_many(events.skip(1), p) + if p(events[0].0, events[0].1) {
            1int
        } else {
            0
        }
    }
}

/// The bytes of everything that was transferred.
pub open spec fn bytes_in(events: Seq<(Seq<char>, Event)>) -> int
    decreases events.len(),
{
    if events.len() == 0 {
        0
    } else {
        bytes_in(events.skip(1)) + match events[0].1 {
            Event::Done { bytes } => bytes as int,
            _ => 0,
        }
    }
}

proof fn lemma_how_many_last(
    events: Seq<(Seq<char>, Event)>,
    p: spec_fn(Seq<char>, Event) -> bool,
)
    requires
        events.len() > 0,
    ensures
        how_many(events, p) == how_many(events.drop_last(), p) + if p(
            events.last().0,
            events.last().1,
        ) {
            1int
        } else {
            0
        },
    decreases events.len(),
{
    if events.len() == 1 {
        assert(how_many(events.skip(1), p) == 0);
        assert(how_many(events.drop_last(), p) == 0);
    } else {
        assert(events.drop_last()[0] == events[0]);
        lemma_how_many_last(events.skip(1), p);
        assert(events.skip(1).drop_last() =~= events.drop_last().skip(1));
        assert(events.skip(1).last() == events.last());
    }
}

proof fn lemma_bytes_last(events: Seq<(Seq<char>, Event)>)
    requires
        events.len() > 0,
    ensures
        bytes_in(events) == bytes_in(events.drop_last()) + match events.last().1 {
            Event::Done { bytes } => bytes as int,
            _ => 0,
        },
    decreases events.len(),
{
    if events.len() == 1 {
        assert(bytes_in(events.skip(1)) == 0);
        assert(bytes_in(events.drop_last()) == 0);
    } else {
        assert(events.drop_last()[0] == events[0]);
        lemma_bytes_last(events.skip(1));
        assert(events.skip(1).drop_last() =~= events.drop_last().skip(1));
        assert(events.skip(1).last() == events.last());
    }
}

/// The numbers of a run: how many items were transferred, with how many bytes,
/// and how many of those went to the folder of the undated; how many were
/// skipped, and how many failed.
pub proof fn law_tally(events: Seq<(Seq<char>, Event)>)
    ensures
        ({
            let t = run::tallied_all(events);
            &&& t.moved == how_many(events, |f: Seq<char>, e: Event| e is Done)
            &&& t.moved_bytes == bytes_in(events)
            &&& t.no_date == how_many(events, |f: Seq<char>, e: Event| e is Done && f == "NoDate"@)
            &&& t.skipped == how_many(events, |f: Seq<char>, e: Event| e is Skipped)
            &&& t.errors == how_many(events, |f: Seq<char>, e: Event| e is Failed)
        }),
    decreases events.len(),
{
    if events.len() > 0 {
        law_tally(events.drop_last());
        lemma_bytes_last(events);
        lemma_how_many_last(events, |f: Seq<char>, e: Event| e is Done);
        lemma_how_many_last(events, |f: Seq<char>, e: Event| e is Done && f == "NoDate"@);
        lemma_how_many_last(events, |f: Seq<char>, e: Event| e is Skipped);
        lemma_how_many_last(events, |f: Seq<char>, e: Event| e is Failed);
    }
}

/// The words for what a run does, before and after it.
pub proof fn law_verbs(cfg: ConfigModel)
    ensures
        cfg.link ==> run::past_verb(cfg) == "linked"@ && report::verb_of(cfg) == "link"@,
        !cfg.link && (cfg.copy || cfg.mode == ModeArg::Video) ==> run::past_verb(cfg) == "copied"@
            && report::verb_of(cfg) == "copy"@,
        !cfg.link && !cfg.copy && cfg.mode == ModeArg::Photo ==> run::past_verb(cfg) == "moved"@
            && report::verb_of(cfg) == "move"@,
{
}

/// The words of a manifest.
pub proof fn law_labels(a: Action)
    ensures
        types::action_label(Action::Move) == "moved"@,
        types::action_label(Action::Copy) == "copied"@,
        types::action_label(Action::Link) == "linked"@,
        types::action_label(Action::Overwrite) == "overwritten"@,
        types::action_label(Action::SkipDuplicate) == "skipped-duplicate"@,
        types::action_label(Action::SkipConflict) == "skipped-conflict"@,
        types::action_label(Action::SkipNoDate) == "skipped-nodate"@,
        types::skips(a) <==> !(a == Action::Move || a == Action::Copy || a == Action::Link || a
            == Action::Overwrite),
{
}

// ---------------------------------------------------------------------------
// Cleaning up
// ---------------------------------------------------------------------------

/// Whether a name is one of those that a camera manages, whatever its case.
pub open spec fn camera_word(name: Seq<char>) -> bool {
    let n = text::ascii_lower(name);
    n == "private"@ || n == "mp_root"@ || n == "m4root"@ || n == "avf_info"@ || n == "misc"@ || n
        == "sony"@
}

/// Cleaning removes directories below the source only, never the source itself,
/// and none that a camera manages or that lies in one.
pub proof fn law_cleaning(dir: Seq<char>, source: Seq<char>, tail: Seq<Part>)
    ensures
        run::may_remove(dir, source) ==> paths::parts(source).len() < paths::parts(dir).len()
            && paths::parts(dir).take(paths::parts(source).len() as int) == paths::parts(source),
        paths::parts(dir) == paths::parts(source) + tail ==> (run::may_remove(dir, source) <==> {
            &&& tail.len() > 0
            &&& forall|i: int|
                0 <= i < tail.len() ==> !((#[trigger] tail[i]) is Name && camera_word(
                    tail[i]->Name_0,
                ))
        }),
{
    let c = paths::parts(dir);
    let b = paths::parts(source);
    if run::may_remove(dir, source) {
        if c.len() == b.len() {
            assert(c.take(b.len() as int) =~= c);
        }
    }
    if c == b + tail {
        assert(c.take(b.len() as int) =~= b);
        assert(tail.len() > 0 ==> c.len() != b.len());
        assert(tail.len() == 0 ==> c =~= b);
        assert forall|i: int| 0 <= i < tail.len() implies (run::managed(#[trigger] tail[i])
            <==> tail[i] is Name && camera_word(tail[i]->Name_0)) by {
            if tail[i] is Name {
                shot_laws::law_managed_names(tail[i]->Name_0);
            }
        }
        assert(forall|i: int| b.len() <= i < c.len() ==> #[trigger] c[i] == tail[i - b.len()]);
        assert(forall|i: int| 0 <= i < tail.len() ==> #[trigger] tail[i] == c[i + b.len()]);
    }
}

// ---------------------------------------------------------------------------
// Consent
// ---------------------------------------------------------------------------

/// A plan is executed at once only where this is no dry run, there is something
/// to transfer and the user has agreed beforehand; the user is asked where that
/// alone is missing; a dry run never goes further than the preview.
pub proof fn law_consent(dry_run: bool, items: Seq<ItemModel>, yes: bool)
    ensures
        ({
            let n = report::stats_of(items).to_move;
            let next = run::follows(dry_run, n, yes);
            let some = exists|i: int| 0 <= i < items.len() && report_laws::goes(#[trigger] items[i]);
            &&& next == Next::Go <==> !dry_run && some && yes
            &&& next == Next::Ask <==> !dry_run && some && !yes
            &&& next == Next::Nothing <==> !dry_run && !some
            &&& next == Next::DryRun <==> dry_run
        }),
{
    lemma_something_goes(items);
}

proof fn lemma_something_goes(items: Seq<ItemModel>)
    ensures
        report::stats_of(items).to_move >= 0,
        report::stats_of(items).to_move > 0 <==> exists|i: int|
            0 <= i < items.len() && report_laws::goes(#[trigger] items[i]),
    decreases items.len(),
{
    if items.len() > 0 {
        let t = items.drop_last();
        lemma_something_goes(t);
        assert(items[items.len() - 1] == items.last());
        if exists|i: int| 0 <= i < t.len() && report_laws::goes(#[trigger] t[i]) {
            let i = choose|i: int| 0 <= i < t.len() && report_laws::goes(#[trigger] t[i]);
            assert(items[i] == t[i]);
        }
        if exists|i: int| 0 <= i < items.len() && report_laws::goes(#[trigger] items[i]) {
            let i = choose|i: int| 0 <= i < items.len() && report_laws::goes(#[trigger] items[i]);
            if i < t.len() {
                assert(t[i] == items[i]);
            }
        }
    }
}

} // verus!
