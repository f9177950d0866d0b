//! Plan preview, per-file manifest, and final summary.

use vstd::prelude::*;

use crate::clock;
use crate::clock::{Day, Moment};
use crate::config;
use crate::config::{ConfigModel, RunConfig};
use crate::paths;
use crate::text;
use crate::types;
use crate::types::{Action, DateProvenance, ItemModel, PlanItem};
use crate::util;

verus! {

// ---------------------------------------------------------------------------
// Statistics
// ---------------------------------------------------------------------------

/// Aggregate plan statistics for the preview / summary.
pub struct PlanStats {
    pub to_move: usize,
    pub move_bytes: u64,
    pub skip_duplicate: usize,
    pub skip_conflict: usize,
    pub skip_no_date: usize,
    pub conflicts_renamed: usize,
    pub overwrites: usize,
    pub no_date: usize,
    pub min_date: Option<Day>,
    pub max_date: Option<Day>,
    /// Folders with their file counts, by name, for the per-folder breakdown.
    pub by_folder: Vec<(String, usize)>,
}

/// The model of [`PlanStats`].
#[verifier::ext_equal]
pub struct StatsModel {
    pub to_move: int,
    pub move_bytes: int,
    pub skip_duplicate: int,
    pub skip_conflict: int,
    pub skip_no_date: int,
    pub conflicts_renamed: int,
    pub overwrites: int,
    pub no_date: int,
    pub min_date: Option<Day>,
    pub max_date: Option<Day>,
    pub by_folder: Seq<(Seq<char>, int)>,
}

/// The model of a list of folder counts.
pub open spec fn counts(v: Seq<(String, usize)>) -> Seq<(Seq<char>, int)> {
    Seq::new(v.len(), |i: int| (v[i].0@, v[i].1 as int))
}

impl View for PlanStats {
    type V = StatsModel;

    open spec fn view(&self) -> StatsModel {
        StatsModel {
            to_move: self.to_move as int,
            move_bytes: self.move_bytes as int,
            skip_duplicate: self.skip_duplicate as int,
            skip_conflict: self.skip_conflict as int,
            skip_no_date: self.skip_no_date as int,
            conflicts_renamed: self.conflicts_renamed as int,
            overwrites: self.overwrites as int,
            no_date: self.no_date as int,
            min_date: self.min_date,
            max_date: self.max_date,
            by_folder: counts(self.by_folder@),
        }
    }
}

/// Nothing counted.
pub open spec fn no_stats() -> StatsModel {
    StatsModel {
        to_move: 0,
        move_bytes: 0,
        skip_duplicate: 0,
        skip_conflict: 0,
        skip_no_date: 0,
        conflicts_renamed: 0,
        overwrites: 0,
        no_date: 0,
        min_date: None,
        max_date: None,
        by_folder: Seq::empty(),
    }
}

/// Folder counts, ordered by name, with one more file in a folder.
pub open spec fn bumped(list: Seq<(Seq<char>, int)>, folder: Seq<char>) -> Seq<(Seq<char>, int)>
    decreases list.len(),
{
    if list.len() == 0 || text::precedes(folder, list[0].0) {
        seq![(folder, 1int)] + list
    } else if list[0].0 == folder {
        seq![(folder, list[0].1 + 1)] + list.skip(1)
    } else {
        seq![list[0]] + bumped(list.skip(1), folder)
    }
}

/// One if it holds, else nothing.
pub open spec fn one_if(b: bool) -> int {
    if b {
        1
    } else {
        0
    }
}

/// The earlier of two days, where there are two.
pub open spec fn earlier(a: Option<Day>, d: Day) -> Option<Day> {
    match a {
        Some(m) => if d.before(m) {
            Some(d)
        } else {
            Some(m)
        },
        None => Some(d),
    }
}

/// The later of two days, where there are two.
pub open spec fn later(a: Option<Day>, d: Day) -> Option<Day> {
    match a {
        Some(m) => if m.before(d) {
            Some(d)
        } else {
            Some(m)
        },
        None => Some(d),
    }
}

/// The statistics with one more item.
pub open spec fn with_item(s: StatsModel, item: ItemModel) -> StatsModel {
    let goes = !types::skips(item.action);
    StatsModel {
        to_move: s.to_move + one_if(goes),
        move_bytes: s.move_bytes + if goes {
            item.size as int
        } else {
            0
        },
        skip_duplicate: s.skip_duplicate + one_if(item.action == Action::SkipDuplicate),
        skip_conflict: s.skip_conflict + one_if(item.action == Action::SkipConflict),
        skip_no_date: s.skip_no_date + one_if(item.action == Action::SkipNoDate),
        conflicts_renamed: s.conflicts_renamed + one_if(
            goes && item.action != Action::Overwrite && text::contains_text(
                item.note,
                "renamed"@,
            ),
        ),
        overwrites: s.overwrites + one_if(item.action == Action::Overwrite),
        no_date: s.no_date + one_if(goes && item.rel_folder == "NoDate"@),
        min_date: match item.date {
            Some(m) => earlier(s.min_date, m.date()),
            None => s.min_date,
        },
        max_date: match item.date {
            Some(m) => later(s.max_date, m.date()),
            None => s.max_date,
        },
        by_folder: if goes {
            bumped(s.by_folder, item.rel_folder)
        } else {
            s.by_folder
        },
    }
}

/// The statistics of a plan.
pub open spec fn stats_of(items: Seq<ItemModel>) -> StatsModel
    decreases items.len(),
{
    if items.len() == 0 {
        no_stats()
    } else {
        with_item(stats_of(items.drop_last()), items.last())
    }
}

/// The bytes that a plan transfers.
pub open spec fn bytes_of(items: Seq<ItemModel>) -> int {
    stats_of(items).move_bytes
}

proof fn lemma_stats_bounds(items: Seq<ItemModel>)
    ensures
        ({
            let s = stats_of(items);
            &&& 0 <= s.to_move <= items.len()
            &&& 0 <= s.move_bytes
            &&& 0 <= s.skip_duplicate <= items.len()
            &&& 0 <= s.skip_conflict <= items.len()
            &&& 0 <= s.skip_no_date <= items.len()
            &&& 0 <= s.conflicts_renamed <= items.len()
            &&& 0 <= s.overwrites <= items.len()
            &&& 0 <= s.no_date <= items.len()
            &&& forall|i: int|
                0 <= i < s.by_folder.len() ==> 0 < (#[trigger] s.by_folder[i]).1 <= items.len()
        }),
    decreases items.len(),
{
    if items.len() > 0 {
        lemma_stats_bounds(items.drop_last());
        let s = stats_of(items.drop_last());
        lemma_bumped_bounds(s.by_folder, items.last().rel_folder, items.len() - 1);
    }
}

proof fn lemma_bumped_bounds(list: Seq<(Seq<char>, int)>, folder: Seq<char>, n: int)
    requires
        n >= 0,
        forall|i: int| 0 <= i < list.len() ==> 0 < (#[trigger] list[i]).1 <= n,
    ensures
        forall|i: int|
            0 <= i < bumped(list, folder).len() ==> 0 < (#[trigger] bumped(list, folder)[i]).1 <= n
                + 1,
    decreases list.len(),
{
    let b = bumped(list, folder);
    if list.len() == 0 || text::precedes(folder, list[0].0) {
        assert forall|i: int| 0 <= i < b.len() implies 0 < (#[trigger] b[i]).1 <= n + 1 by {
            if i > 0 {
                assert(b[i] == list[i - 1]);
            }
        }
    } else if list[0].0 == folder {
        assert forall|i: int| 0 <= i < b.len() implies 0 < (#[trigger] b[i]).1 <= n + 1 by {
            if i > 0 {
                assert(b[i] == list[i]);
            }
        }
    } else {
        let r = list.skip(1);
        assert forall|i: int| 0 <= i < r.len() implies 0 < (#[trigger] r[i]).1 <= n by {
            assert(r[i] == list[i + 1]);
        }
        lemma_bumped_bounds(r, folder, n);
        assert forall|i: int| 0 <= i < b.len() implies 0 < (#[trigger] b[i]).1 <= n + 1 by {
            if i > 0 {
                assert(b[i] == bumped(r, folder)[i - 1]);
            }
        }
    }
}

/// The bytes only grow as items are added.
proof fn lemma_bytes_grow(items: Seq<ItemModel>, k: int)
    requires
        0 <= k <= items.len(),
    ensures
        bytes_of(items.take(k)) <= bytes_of(items),
    decreases items.len() - k,
{
    if k < items.len() {
        let t = items.take(k + 1);
        assert(t.drop_last() =~= items.take(k));
        lemma_bytes_grow(items, k + 1);
    } else {
        assert(items.take(k) =~= items);
    }
}

/// One more file in a folder.
fn bump(list: &mut Vec<(String, usize)>, folder: &str, Ghost(n): Ghost<int>)
    requires
        0 <= n < usize::MAX,
        forall|i: int|
            0 <= i < old(list)@.len() ==> 0 < (#[trigger] counts(old(list)@)[i]).1 <= n,
    ensures
        counts(final(list)@) == bumped(counts(old(list)@), folder@),
{
    let ghost before = list@;
    let ghost c = counts(before);
    let mut i: usize = 0;
    proof {
        assert(c.skip(0) =~= c);
        assert(c.take(0) + bumped(c, folder@) =~= bumped(c, folder@));
    }
    while i < list.len()
        invariant
            list@ == before,
            c == counts(before),
            0 <= n < usize::MAX,
            i <= before.len(),
            forall|k: int| 0 <= k < before.len() ==> 0 < (#[trigger] counts(before)[k]).1 <= n,
            bumped(c, folder@) == c.take(i as int) + bumped(c.skip(i as int), folder@),
            before == old(list)@,
        decreases before.len() - i,
    {
        let ghost rest = c.skip(i as int);
        proof {
            assert(rest[0] == c[i as int]);
            assert(c[i as int].1 == before[i as int].1);
        }
        if text::text_precedes(folder, list[i].0.as_str()) {
            list.insert(i, (folder.to_owned(), 1));
            proof {
                assert(counts(list@) =~= c.take(i as int) + (seq![(folder@, 1int)] + rest));
            }
            return;
        }
        if text::same(list[i].0.as_str(), folder) {
            let m: usize = list[i].1;
            let x: (String, usize) = (folder.to_owned(), m + 1);
            list.set(i, x);
            proof {
                assert(counts(list@) =~= c.take(i as int) + (seq![(folder@, m + 1)]
                    + rest.skip(1)));
            }
            return;
        }
        proof {
            text::lemma_precedes_total(folder@, rest[0].0);
            assert(rest.skip(1) =~= c.skip(i + 1));
            assert(c.take(i as int) + (seq![rest[0]] + bumped(rest.skip(1), folder@)) =~= c.take(
                i + 1,
            ) + bumped(c.skip(i + 1), folder@));
        }
        i = i + 1;
    }
    list.push((folder.to_owned(), 1));
    proof {
        assert(c.skip(before.len() as int) =~= Seq::<(Seq<char>, int)>::empty());
        assert(counts(list@) =~= c.take(before.len() as int) + (seq![(folder@, 1int)] + c.skip(
            before.len() as int,
        )));
    }
}

/// The bytes that a plan transfers; `None` where they are more than can be
/// counted.
pub fn plan_bytes(items: &Vec<PlanItem>) -> (r: Option<u64>)
    ensures
        r is Some <==> bytes_of(types::item_models(items@)) <= u64::MAX,
        r matches Some(n) ==> n == bytes_of(types::item_models(items@)),
{
    let ghost all = types::item_models(items@);
    let mut sum: u64 = 0;
    let mut i: usize = 0;
    proof {
        assert(all.take(0) =~= Seq::<ItemModel>::empty());
    }
    while i < items.len()
        invariant
            i <= items@.len(),
            all == types::item_models(items@),
            sum == bytes_of(all.take(i as int)),
        decreases items@.len() - i,
    {
        proof {
            assert(all.take(i + 1).drop_last() =~= all.take(i as int));
            assert(all.take(i + 1).last() == items@[i as int]@);
            lemma_bytes_grow(all, i + 1);
        }
        if !items[i].action.is_skip() {
            match sum.checked_add(items[i].size) {
                Some(n) => {
                    sum = n;
                },
                None => return None,
            }
        }
        i = i + 1;
    }
    proof {
        assert(all.take(all.len() as int) =~= all);
    }
    Some(sum)
}

/// Counts a plan.
pub fn summarize(items: &Vec<PlanItem>) -> (r: PlanStats)
    requires
        bytes_of(types::item_models(items@)) <= u64::MAX,
    ensures
        r@ == stats_of(types::item_models(items@)),
{
    let ghost all = types::item_models(items@);
    let total: usize = items.len();
    let mut s = PlanStats {
        to_move: 0,
        move_bytes: 0,
        skip_duplicate: 0,
        skip_conflict: 0,
        skip_no_date: 0,
        conflicts_renamed: 0,
        overwrites: 0,
        no_date: 0,
        min_date: None,
        max_date: None,
        by_folder: Vec::new(),
    };
    let mut i: usize = 0;
    proof {
        assert(all.take(0) =~= Seq::<ItemModel>::empty());
        assert(s@ =~= no_stats());
    }
    while i < total
        invariant
            total == items@.len(),
            i <= total,
            all == types::item_models(items@),
            bytes_of(all) <= u64::MAX,
            s@ == stats_of(all.take(i as int)),
        decreases total - i,
    {
        let ghost before = all.take(i as int);
        let ghost held = s@;
        proof {
            assert(all.take(i + 1).drop_last() =~= before);
            assert(all.take(i + 1).last() == items@[i as int]@);
            lemma_bytes_grow(all, i + 1);
            lemma_stats_bounds(before);
        }
        count_item(&mut s, &items[i], Ghost(i as int));
        i = i + 1;
    }
    proof {
        assert(all.take(all.len() as int) =~= all);
    }
    s
}

/// Counts one item.
fn count_item(s: &mut PlanStats, item: &PlanItem, Ghost(n): Ghost<int>)
    requires
        0 <= n < usize::MAX,
        old(s).to_move <= n,
        old(s).skip_duplicate <= n,
        old(s).skip_conflict <= n,
        old(s).skip_no_date <= n,
        old(s).conflicts_renamed <= n,
        old(s).overwrites <= n,
        old(s).no_date <= n,
        with_item(old(s)@, item@).move_bytes <= u64::MAX,
        forall|i: int|
            0 <= i < old(s)@.by_folder.len() ==> 0 < (#[trigger] old(s)@.by_folder[i]).1 <= n,
    ensures
        final(s)@ == with_item(old(s)@, item@),
{
    let goes: bool = !item.action.is_skip();
    if goes {
        s.to_move = s.to_move + 1;
        s.move_bytes = s.move_bytes + item.size;
        bump(&mut s.by_folder, item.rel_folder.as_str(), Ghost(n));
        if item.action == Action::Overwrite {
            s.overwrites = s.overwrites + 1;
        } else if text::has_text(item.note.as_str(), "renamed") {
            s.conflicts_renamed = s.conflicts_renamed + 1;
        }
        if text::same(item.rel_folder.as_str(), "NoDate") {
            s.no_date = s.no_date + 1;
        }
    } else {
        match item.action {
            Action::SkipDuplicate => {
                s.skip_duplicate = s.skip_duplicate + 1;
            },
            Action::SkipConflict => {
                s.skip_conflict = s.skip_conflict + 1;
            },
            _ => {
                s.skip_no_date = s.skip_no_date + 1;
            },
        }
    }
    match item.date {
        Some(m) => {
            let d: Day = m.day_of();
            let first: Day = match s.min_date {
                Some(x) => if d.is_before(x) {
                    d
                } else {
                    x
                },
                None => d,
            };
            let last: Day = match s.max_date {
                Some(x) => if x.is_before(d) {
                    d
                } else {
                    x
                },
                None => d,
            };
            s.min_date = Some(first);
            s.max_date = Some(last);
        },
        None => {},
    }
}

// ---------------------------------------------------------------------------
// Preview
// ---------------------------------------------------------------------------

/// The verb of a run.
pub open spec fn verb_of(cfg: ConfigModel) -> Seq<char> {
    if cfg.link {
        "link"@
    } else if config::copies(cfg) {
        "copy"@
    } else {
        "move"@
    }
}

fn verb(cfg: &RunConfig) -> (r: &'static str)
    ensures
        r@ == verb_of(cfg@),
{
    if cfg.link {
        "link"
    } else if cfg.is_copy() {
        "copy"
    } else {
        "move"
    }
}

/// A number in decimal notation.
pub open spec fn number(n: int) -> Seq<char> {
    text::decimal(n as nat)
}

/// The line of one folder.
pub open spec fn folder_line(dest: Seq<char>, entry: (Seq<char>, int)) -> Seq<char> {
    let label = if entry.0.len() == 0 {
        "<dest root>"@
    } else {
        entry.0
    };
    "  → "@ + dest + "/"@ + text::pad_right(label, 28) + " "@ + number(entry.1)
}

/// A flag, where there is something to say.
pub open spec fn flag(n: int, label: Seq<char>) -> Seq<Seq<char>> {
    if n > 0 {
        seq![label + number(n)]
    } else {
        Seq::empty()
    }
}

/// What stands out in a plan.
pub open spec fn flags_of(s: StatsModel) -> Seq<Seq<char>> {
    flag(s.skip_duplicate, "skipped(duplicate): "@) + flag(
        s.conflicts_renamed,
        "conflicts(renamed): "@,
    ) + flag(s.overwrites, "overwrites: "@) + flag(s.skip_conflict, "skipped(conflict): "@) + flag(
        s.no_date,
        "no-date → NoDate/: "@,
    ) + flag(s.skip_no_date, "skipped(no-date): "@)
}

/// The lines that begin a preview.
pub open spec fn preview_head(cfg: ConfigModel, s: StatsModel, dry_run: bool) -> Seq<Seq<char>> {
    let header = if dry_run {
        "Plan preview (dry-run, nothing moved)"@
    } else {
        "Plan summary"@
    };
    let span = match (s.min_date, s.max_date) {
        (Some(a), Some(b)) => ", dates "@ + clock::day_text(a) + " ~ "@ + clock::day_text(b),
        _ => Seq::empty(),
    };
    seq![
        Seq::empty(),
        header,
        "  source: "@ + cfg.source + "    dest: "@ + cfg.dest + " (same card → atomic "@ + verb_of(
            cfg,
        ) + ")"@,
        "  to "@ + verb_of(cfg) + ": "@ + number(s.to_move) + " ("@ + util::size_text(s.move_bytes)
            + ")"@ + span,
    ]
}

/// The lines of a plan preview.
pub open spec fn preview_of(cfg: ConfigModel, s: StatsModel, dry_run: bool) -> Seq<Seq<char>> {
    let flags = flags_of(s);
    preview_head(cfg, s, dry_run) + Seq::new(
        s.by_folder.len(),
        |i: int| folder_line(cfg.dest, s.by_folder[i]),
    ) + (if flags.len() > 0 {
        seq!["  "@ + text::join(flags, "   "@)]
    } else {
        Seq::empty()
    }) + (if verb_of(cfg) == "move"@ {
        seq![
            "  ⚠ this is a MOVE; afterwards these files leave DCIM and camera playback won't see them."@,
        ]
    } else {
        Seq::empty()
    })
}

fn append_number(s: &mut String, n: usize)
    ensures
        final(s)@ == old(s)@ + number(n as int),
{
    s.append(text::unsigned_text(n as u64, 0).as_str());
}

fn push_flag(v: &mut Vec<String>, n: usize, label: &str)
    ensures
        text::views(final(v)@) == text::views(old(v)@) + flag(n as int, label@),
{
    if n > 0 {
        let mut s: String = label.to_owned();
        append_number(&mut s, n);
        text::push_line(v, s);
    }
    proof {
        assert(text::views(v@) =~= text::views(old(v)@) + flag(n as int, label@));
    }
}

fn flag_list(s: &PlanStats) -> (r: Vec<String>)
    ensures
        text::views(r@) == flags_of(s@),
{
    let mut v: Vec<String> = Vec::new();
    push_flag(&mut v, s.skip_duplicate, "skipped(duplicate): ");
    push_flag(&mut v, s.conflicts_renamed, "conflicts(renamed): ");
    push_flag(&mut v, s.overwrites, "overwrites: ");
    push_flag(&mut v, s.skip_conflict, "skipped(conflict): ");
    push_flag(&mut v, s.no_date, "no-date → NoDate/: ");
    push_flag(&mut v, s.skip_no_date, "skipped(no-date): ");
    proof {
        assert(text::views(v@) =~= flags_of(s@));
    }
    v
}

fn head_lines(cfg: &RunConfig, stats: &PlanStats, dry_run: bool) -> (r: Vec<String>)
    ensures
        text::views(r@) == preview_head(cfg@, stats@, dry_run),
{
    let word: &str = verb(cfg);
    let mut place: String = "  source: ".to_owned();
    place.append(cfg.source.as_str());
    place.append("    dest: ");
    place.append(cfg.dest.as_str());
    place.append(" (same card → atomic ");
    place.append(word);
    place.append(")");
    let mut span = String::new();
    match (stats.min_date, stats.max_date) {
        (Some(a), Some(b)) => {
            span = ", dates ".to_owned();
            span.append(clock::format_day(a).as_str());
            span.append(" ~ ");
            span.append(clock::format_day(b).as_str());
        },
        _ => {},
    }
    let mut total: String = "  to ".to_owned();
    total.append(word);
    total.append(": ");
    append_number(&mut total, stats.to_move);
    total.append(" (");
    total.append(util::human_size(stats.move_bytes).as_str());
    total.append(")");
    total.append(span.as_str());
    let mut v: Vec<String> = Vec::new();
    v.push(String::new());
    v.push(
        if dry_run {
            "Plan preview (dry-run, nothing moved)".to_owned()
        } else {
            "Plan summary".to_owned()
        },
    );
    v.push(place);
    v.push(total);
    proof {
        assert(text::views(v@) =~= preview_head(cfg@, stats@, dry_run));
    }
    v
}

fn format_folder(dest: &str, folder: &str, n: usize) -> (r: String)
    ensures
        r@ == folder_line(dest@, (folder@, n as int)),
{
    proof {
        reveal_strlit("");
        assert(folder@.len() == 0 ==> folder@ =~= ""@);
    }
    let label: &str = if text::same(folder, "") {
        "<dest root>"
    } else {
        folder
    };
    let mut s: String = "  → ".to_owned();
    s.append(dest);
    s.append("/");
    s.append(text::pad_right_text(label, 28).as_str());
    s.append(" ");
    append_number(&mut s, n);
    s
}

/// The lines of the plan preview / confirmation summary.
pub fn preview_lines(cfg: &RunConfig, stats: &PlanStats, dry_run: bool) -> (r: Vec<String>)
    ensures
        text::views(r@) == preview_of(cfg@, stats@, dry_run),
{
    let ghost s = stats@;
    let ghost head = preview_head(cfg@, s, dry_run);
    let ghost body = Seq::new(s.by_folder.len(), |i: int| folder_line(cfg@.dest, s.by_folder[i]));
    let mut v: Vec<String> = head_lines(cfg, stats, dry_run);
    let mut i: usize = 0;
    proof {
        assert(head + body.take(0) =~= head);
    }
    while i < stats.by_folder.len()
        invariant
            i <= stats.by_folder@.len(),
            s == stats@,
            body == Seq::new(
                s.by_folder.len(),
                |i: int| folder_line(cfg@.dest, s.by_folder[i]),
            ),
            text::views(v@) == head + body.take(i as int),
        decreases stats.by_folder@.len() - i,
    {
        let line: String = format_folder(
            cfg.dest.as_str(),
            stats.by_folder[i].0.as_str(),
            stats.by_folder[i].1,
        );
        proof {
            assert(s.by_folder[i as int] == (
                stats.by_folder@[i as int].0@,
                stats.by_folder@[i as int].1 as int,
            ));
            assert(body[i as int] == line@);
            assert(body.take(i + 1) =~= body.take(i as int).push(line@));
        }
        text::push_line(&mut v, line);
        i = i + 1;
        proof {
            assert(text::views(v@) =~= head + body.take(i as int));
        }
    }
    proof {
        assert(body.take(body.len() as int) =~= body);
    }
    let flags: Vec<String> = flag_list(stats);
    if flags.len() > 0 {
        let mut line: String = "  ".to_owned();
        line.append(text::join_text(&flags, "   ").as_str());
        text::push_line(&mut v, line);
    }
    if text::same(verb(cfg), "move") {
        text::push_line(
            &mut v,
            "  ⚠ this is a MOVE; afterwards these files leave DCIM and camera playback won't see them.".to_owned(),
        );
    }
    proof {
        assert(text::views(flags@).len() == flags@.len());
        assert(text::views(v@) =~= preview_of(cfg@, s, dry_run));
    }
    v
}

// ---------------------------------------------------------------------------
// Final summary
// ---------------------------------------------------------------------------

/// What a run came to.
pub struct FinalStats {
    pub action_verb: &'static str,
    pub moved: usize,
    pub moved_bytes: u64,
    pub skipped: usize,
    pub no_date: usize,
    pub errors: usize,
}

/// The line of a final summary.
pub open spec fn final_text(
    verb: Seq<char>,
    moved: int,
    bytes: int,
    skipped: int,
    no_date: int,
    errors: int,
    seconds: Seq<char>,
) -> Seq<char> {
    "  "@ + verb + " "@ + number(moved) + " ("@ + util::size_text(bytes) + "), skipped "@ + number(
        skipped,
    ) + ", no-date "@ + number(no_date) + ", errors "@ + number(errors) + ", "@ + seconds + "s"@
}

/// The line of the final run summary; `seconds` is the time that the run took.
pub fn final_line(stats: &FinalStats, seconds: &str) -> (r: String)
    ensures
        r@ == final_text(
            stats.action_verb@,
            stats.moved as int,
            stats.moved_bytes as int,
            stats.skipped as int,
            stats.no_date as int,
            stats.errors as int,
            seconds@,
        ),
{
    let mut s: String = "  ".to_owned();
    s.append(stats.action_verb);
    s.append(" ");
    append_number(&mut s, stats.moved);
    s.append(" (");
    s.append(util::human_size(stats.moved_bytes).as_str());
    s.append("), skipped ");
    append_number(&mut s, stats.skipped);
    s.append(", no-date ");
    append_number(&mut s, stats.no_date);
    s.append(", errors ");
    append_number(&mut s, stats.errors);
    s.append(", ");
    s.append(seconds);
    s.append("s");
    s
}

// ---------------------------------------------------------------------------
// Manifest
// ---------------------------------------------------------------------------

/// One row of a manifest.
pub struct ManifestRow {
    pub src: String,
    pub dst: String,
    pub kind: &'static str,
    pub date: Option<String>,
    pub date_source: &'static str,
    pub action: &'static str,
    pub note: String,
}

/// The model of a [`ManifestRow`].
#[verifier::ext_equal]
pub struct RowModel {
    pub src: Seq<char>,
    pub dst: Seq<char>,
    pub kind: Seq<char>,
    pub date: Option<Seq<char>>,
    pub date_source: Seq<char>,
    pub action: Seq<char>,
    pub note: Seq<char>,
}

impl View for ManifestRow {
    type V = RowModel;

    open spec fn view(&self) -> RowModel {
        RowModel {
            src: self.src@,
            dst: self.dst@,
            kind: self.kind@,
            date: types::opt_view(self.date),
            date_source: self.date_source@,
            action: self.action@,
            note: self.note@,
        }
    }
}

/// The word for where a date came from.
pub open spec fn provenance_name(p: DateProvenance) -> Seq<char> {
    match p {
        DateProvenance::Embedded => "embedded"@,
        DateProvenance::Mtime => "mtime"@,
        DateProvenance::Absent => "none"@,
    }
}

/// The word for where a date came from.
pub fn provenance_label(p: DateProvenance) -> (r: &'static str)
    ensures
        r@ == provenance_name(p),
{
    match p {
        DateProvenance::Embedded => "embedded",
        DateProvenance::Mtime => "mtime",
        DateProvenance::Absent => "none",
    }
}

/// The row of an item.
pub open spec fn row_of(item: ItemModel) -> RowModel {
    RowModel {
        src: item.src,
        dst: item.dst,
        kind: types::kind_label(item.kind),
        date: match item.date {
            Some(m) => Some(clock::moment_text(m)),
            None => None,
        },
        date_source: provenance_name(item.provenance),
        action: types::action_label(item.action),
        note: item.note,
    }
}

/// The row of an item.
pub fn to_row(item: &PlanItem) -> (r: ManifestRow)
    ensures
        r@ == row_of(item@),
{
    ManifestRow {
        src: item.src.clone(),
        dst: item.dst.clone(),
        kind: item.kind.label(),
        date: match item.date {
            Some(m) => Some(clock::format_moment(m)),
            None => None,
        },
        date_source: provenance_label(item.provenance),
        action: item.action.manifest_label(),
        note: item.note.clone(),
    }
}

/// Whether a manifest is written as JSON: by its extension.
pub open spec fn wants_json(path: Seq<char>) -> bool {
    match paths::name_of(path) {
        Some(n) => match paths::ext_of(n) {
            Some(e) => text::ascii_lower(e) == text::ascii_lower("json"@),
            None => false,
        },
        None => false,
    }
}

/// Whether a manifest is written as JSON (`.json`) or as CSV (any other
/// extension).
pub fn is_json(path: &str) -> (r: bool)
    ensures
        r == wants_json(path@),
{
    match paths::file_name(path) {
        Some(n) => match paths::extension(n.as_str()) {
            Some(e) => text::eq_ignore_case(e.as_str(), "json"),
            None => false,
        },
        None => false,
    }
}

/// A text with every quote doubled.
pub open spec fn doubled(s: Seq<char>) -> Seq<char>
    decreases s.len(),
{
    if s.len() == 0 {
        s
    } else if s.last() == '"' {
        doubled(s.drop_last()).push('"').push('"')
    } else {
        doubled(s.drop_last()).push(s.last())
    }
}

/// Whether a field has to be quoted.
pub open spec fn needs_quotes(s: Seq<char>) -> bool {
    s.contains(',') || s.contains('"') || s.contains('\n')
}

/// A text as a field of a CSV line.
pub open spec fn csv_field(s: Seq<char>) -> Seq<char> {
    if needs_quotes(s) {
        seq!['"'] + doubled(s) + seq!['"']
    } else {
        s
    }
}

/// A text as a field of a CSV line.
pub fn csv_escape(s: &str) -> (r: String)
    ensures
        r@ == csv_field(s@),
{
    let v: Vec<char> = text::chars_of(s);
    let mut plain: bool = true;
    let mut out: Vec<char> = Vec::new();
    let mut i: usize = 0;
    proof {
        assert(doubled(v@.take(0)) =~= Seq::<char>::empty());
    }
    while i < v.len()
        invariant
            i <= v@.len(),
            plain == !needs_quotes(v@.take(i as int)),
            out@ == doubled(v@.take(i as int)),
        decreases v@.len() - i,
    {
        let c: char = v[i];
        proof {
            let a = v@.take(i as int);
            let b = v@.take(i + 1);
            assert(b.drop_last() =~= a);
            assert(b =~= a.push(c));
            lemma_push_contains(a, c, ',');
            lemma_push_contains(a, c, '"');
            lemma_push_contains(a, c, '\n');
        }
        if c == ',' || c == '"' || c == '\n' {
            plain = false;
        }
        if c == '"' {
            out.push('"');
        }
        out.push(c);
        i = i + 1;
    }
    proof {
        assert(v@.take(v@.len() as int) =~= v@);
    }
    if plain {
        s.to_owned()
    } else {
        let mut r = String::new();
        r.push('"');
        r.append(text::string_of(&out).as_str());
        r.push('"');
        proof {
            assert(r@ =~= seq!['"'] + doubled(s@) + seq!['"']);
        }
        r
    }
}

proof fn lemma_push_contains(a: Seq<char>, c: char, x: char)
    ensures
        a.push(c).contains(x) == (a.contains(x) || c == x),
{
    let b = a.push(c);
    if a.contains(x) {
        let k = choose|k: int| 0 <= k < a.len() && a[k] == x;
        assert(b[k] == x);
    }
    if c == x {
        assert(b[a.len() as int] == x);
    }
    if b.contains(x) && c != x {
        let k = choose|k: int| 0 <= k < b.len() && b[k] == x;
        assert(a[k] == x);
    }
}

/// The line of a row.
pub open spec fn csv_text(r: RowModel) -> Seq<char> {
    csv_field(r.src) + ","@ + csv_field(r.dst) + ","@ + r.kind + ","@ + csv_field(
        types::or_empty(r.date),
    ) + ","@ + r.date_source + ","@ + r.action + ","@ + csv_field(r.note)
}

/// The line of a row.
pub fn csv_line(r: &ManifestRow) -> (s: String)
    ensures
        s@ == csv_text(r@),
{
    let date: String = match &r.date {
        Some(d) => csv_escape(d.as_str()),
        None => {
            proof {
                reveal_strlit("");
                assert(""@ =~= Seq::<char>::empty());
            }
            csv_escape("")
        },
    };
    let mut s: String = csv_escape(r.src.as_str());
    s.append(",");
    s.append(csv_escape(r.dst.as_str()).as_str());
    s.append(",");
    s.append(r.kind);
    s.append(",");
    s.append(date.as_str());
    s.append(",");
    s.append(r.date_source);
    s.append(",");
    s.append(r.action);
    s.append(",");
    s.append(csv_escape(r.note.as_str()).as_str());
    s
}

/// The lines of a CSV manifest: a header, then a row for each item.
pub open spec fn csv_manifest(items: Seq<ItemModel>) -> Seq<Seq<char>> {
    seq!["src,dst,kind,date,date_source,action,note"@] + Seq::new(
        items.len(),
        |i: int| csv_text(row_of(items[i])),
    )
}

/// The lines of a CSV manifest.
pub fn csv_lines(items: &Vec<PlanItem>) -> (r: Vec<String>)
    ensures
        text::views(r@) == csv_manifest(types::item_models(items@)),
{
    let ghost all = types::item_models(items@);
    let ghost goal = csv_manifest(all);
    let mut v: Vec<String> = Vec::new();
    v.push("src,dst,kind,date,date_source,action,note".to_owned());
    let mut i: usize = 0;
    proof {
        assert(text::views(v@) =~= goal.take(1));
    }
    while i < items.len()
        invariant
            i <= items@.len(),
            all == types::item_models(items@),
            goal == csv_manifest(all),
            text::views(v@) == goal.take(i + 1),
        decreases items@.len() - i,
    {
        let line: String = csv_line(&to_row(&items[i]));
        proof {
            assert(goal[i + 1] == line@);
            assert(goal.take(i + 2) =~= goal.take(i + 1).push(line@));
        }
        text::push_line(&mut v, line);
        i = i + 1;
    }
    proof {
        assert(goal.take(goal.len() as int) =~= goal);
    }
    v
}

// ---------------------------------------------------------------------------
// Laws
// ---------------------------------------------------------------------------

/// A text with every pair of quotes taken for one.
pub open spec fn halved(s: Seq<char>) -> Seq<char>
    decreases s.len(),
{
    if s.len() == 0 {
        s
    } else if s.len() >= 2 && s.last() == '"' && s[s.len() - 2] == '"' {
        halved(s.take(s.len() - 2)).push('"')
    } else {
        halved(s.drop_last()).push(s.last())
    }
}

/// What a field of a CSV line stands for.
pub open spec fn csv_value(f: Seq<char>) -> Seq<char> {
    if f.len() >= 2 && f[0] == '"' {
        halved(f.subrange(1, f.len() - 1))
    } else {
        f
    }
}

/// A field of a CSV line stands for the text that it was made from.
pub proof fn law_csv_round_trip(s: Seq<char>)
    ensures
        csv_value(csv_field(s)) == s,
{
    let f = csv_field(s);
    if needs_quotes(s) {
        assert(f.subrange(1, f.len() - 1) =~= doubled(s));
        lemma_halved(s);
    } else if f.len() >= 2 && f[0] == '"' {
        assert(s.contains('"'));
    }
}

proof fn lemma_halved(s: Seq<char>)
    ensures
        halved(doubled(s)) == s,
        s.len() > 0 ==> doubled(s).len() > 0 && doubled(s).last() == s.last(),
    decreases s.len(),
{
    if s.len() > 0 {
        let t = s.drop_last();
        let d = doubled(t);
        lemma_halved(t);
        let e = doubled(s);
        if s.last() == '"' {
            assert(e.take(e.len() - 2) =~= d);
            assert(halved(e) =~= s);
        } else {
            assert(e.drop_last() =~= d);
            assert(halved(e) =~= s);
        }
    }
}

/// The number of items of a plan that go to a folder.
pub open spec fn going_to(items: Seq<ItemModel>, folder: Seq<char>) -> int
    decreases items.len(),
{
    if items.len() == 0 {
        0
    } else {
        going_to(items.drop_last(), folder) + one_if(
            !types::skips(items.last().action) && items.last().rel_folder == folder,
        )
    }
}

/// The count of a folder in a list of counts.
pub open spec fn count_of(list: Seq<(Seq<char>, int)>, folder: Seq<char>) -> int
    decreases list.len(),
{
    if list.len() == 0 {
        0
    } else if list[0].0 == folder {
        list[0].1
    } else {
        count_of(list.skip(1), folder)
    }
}

/// The breakdown counts every folder right.
pub proof fn law_folder_counts(items: Seq<ItemModel>, folder: Seq<char>)
    ensures
        count_of(stats_of(items).by_folder, folder) == going_to(items, folder),
    decreases items.len(),
{
    if items.len() > 0 {
        let t = items.drop_last();
        let x = items.last();
        law_folder_counts(t, folder);
        lemma_sorted_counts(t);
        if !types::skips(x.action) {
            lemma_bumped_count(stats_of(t).by_folder, x.rel_folder, folder);
        }
    }
}

/// Whether a list of counts is in order, each folder once.
pub open spec fn in_order(list: Seq<(Seq<char>, int)>) -> bool {
    forall|i: int, j: int|
        0 <= i < j < list.len() ==> text::precedes((#[trigger] list[i]).0, (#[trigger] list[j]).0)
}

proof fn lemma_bumped_order(list: Seq<(Seq<char>, int)>, folder: Seq<char>)
    requires
        in_order(list),
    ensures
        in_order(bumped(list, folder)),
        forall|k: int|
            0 <= k < bumped(list, folder).len() ==> (#[trigger] bumped(list, folder)[k]).0 == folder
                || exists|m: int| 0 <= m < list.len() && list[m].0 == bumped(list, folder)[k].0,
    decreases list.len(),
{
    let b = bumped(list, folder);
    if list.len() == 0 || text::precedes(folder, list[0].0) {
        assert forall|i: int, j: int| 0 <= i < j < b.len() implies text::precedes(
            (#[trigger] b[i]).0,
            (#[trigger] b[j]).0,
        ) by {
            if i > 0 {
                assert(text::precedes(list[i - 1].0, list[j - 1].0));
            } else if j > 1 {
                assert(text::precedes(list[0].0, list[j - 1].0));
                text::lemma_precedes_transitive(folder, list[0].0, list[j - 1].0);
            }
        }
        assert forall|k: int| 0 <= k < b.len() implies (#[trigger] b[k]).0 == folder || exists|
            m: int,
        |
            0 <= m < list.len() && list[m].0 == b[k].0 by {
            if k > 0 {
                assert(list[k - 1].0 == b[k].0);
            }
        }
    } else if list[0].0 == folder {
        assert forall|i: int, j: int| 0 <= i < j < b.len() implies text::precedes(
            (#[trigger] b[i]).0,
            (#[trigger] b[j]).0,
        ) by {
            assert(b[i].0 == list[i].0);
            assert(b[j].0 == list[j].0);
        }
        assert forall|k: int| 0 <= k < b.len() implies (#[trigger] b[k]).0 == folder || exists|
            m: int,
        |
            0 <= m < list.len() && list[m].0 == b[k].0 by {
            assert(list[k].0 == b[k].0);
        }
    } else {
        let r = list.skip(1);
        assert(in_order(r)) by {
            assert forall|i: int, j: int| 0 <= i < j < r.len() implies text::precedes(
                (#[trigger] r[i]).0,
                (#[trigger] r[j]).0,
            ) by {
                assert(text::precedes(list[i + 1].0, list[j + 1].0));
            }
        }
        lemma_bumped_order(r, folder);
        text::lemma_precedes_total(folder, list[0].0);
        let c = bumped(r, folder);
        assert forall|i: int, j: int| 0 <= i < j < b.len() implies text::precedes(
            (#[trigger] b[i]).0,
            (#[trigger] b[j]).0,
        ) by {
            assert(b[j] == c[j - 1]);
            if i > 0 {
                assert(b[i] == c[i - 1]);
            } else if c[j - 1].0 != folder {
                let m = choose|m: int| 0 <= m < r.len() && r[m].0 == c[j - 1].0;
                assert(text::precedes(list[0].0, list[m + 1].0));
            }
        }
        assert forall|k: int| 0 <= k < b.len() implies (#[trigger] b[k]).0 == folder || exists|
            m: int,
        |
            0 <= m < list.len() && list[m].0 == b[k].0 by {
            if k > 0 {
                assert(b[k] == c[k - 1]);
                if c[k - 1].0 != folder {
                    let m = choose|m: int| 0 <= m < r.len() && r[m].0 == c[k - 1].0;
                    assert(list[m + 1].0 == b[k].0);
                }
            } else {
                assert(list[0].0 == b[0].0);
            }
        }
    }
}

pub proof fn lemma_sorted_counts(items: Seq<ItemModel>)
    ensures
        in_order(stats_of(items).by_folder),
    decreases items.len(),
{
    if items.len() > 0 {
        lemma_sorted_counts(items.drop_last());
        lemma_bumped_order(stats_of(items.drop_last()).by_folder, items.last().rel_folder);
    }
}

proof fn lemma_bumped_count(list: Seq<(Seq<char>, int)>, folder: Seq<char>, other: Seq<char>)
    requires
        in_order(list),
    ensures
        count_of(bumped(list, folder), other) == count_of(list, other) + one_if(folder == other),
    decreases list.len(),
{
    let b = bumped(list, folder);
    if list.len() == 0 || text::precedes(folder, list[0].0) {
        assert(b.skip(1) =~= list);
        if folder == other {
            lemma_absent(list, folder);
        }
    } else if list[0].0 == folder {
        assert(b.skip(1) =~= list.skip(1));
    } else {
        let r = list.skip(1);
        assert(in_order(r)) by {
            assert forall|i: int, j: int| 0 <= i < j < r.len() implies text::precedes(
                (#[trigger] r[i]).0,
                (#[trigger] r[j]).0,
            ) by {
                assert(text::precedes(list[i + 1].0, list[j + 1].0));
            }
        }
        lemma_bumped_count(r, folder, other);
        assert(b.skip(1) =~= bumped(r, folder));
        assert(b[0] == list[0]);
    }
}

proof fn lemma_absent(list: Seq<(Seq<char>, int)>, folder: Seq<char>)
    requires
        in_order(list),
        list.len() > 0 ==> text::precedes(folder, list[0].0),
    ensures
        count_of(list, folder) == 0,
    decreases list.len(),
{
    if list.len() > 0 {
        let r = list.skip(1);
        text::lemma_precedes_total(folder, list[0].0);
        if r.len() > 0 {
            assert(text::precedes(list[0].0, list[1].0));
            text::lemma_precedes_transitive(folder, list[0].0, list[1].0);
        }
        assert forall|i: int, j: int| 0 <= i < j < r.len() implies text::precedes(
            (#[trigger] r[i]).0,
            (#[trigger] r[j]).0,
        ) by {
            assert(text::precedes(list[i + 1].0, list[j + 1].0));
        }
        lemma_absent(r, folder);
    }
}

} // verus!
