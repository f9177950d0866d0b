//! What the numbers and lines of a report mean.

use vstd::prelude::*;

use crate::cli::ModeArg;
use crate::clock;
use crate::clock::Day;
use crate::config::ConfigModel;
use crate::config_laws;
use crate::path_laws;
use crate::paths;
use crate::report;
use crate::report::{RowModel, StatsModel};
use crate::shot_laws;
use crate::text;
use crate::types::{Action, DateProvenance, FileKind, ItemModel};
use crate::util;

verus! {

// ---------------------------------------------------------------------------
// The numbers of a plan
// ---------------------------------------------------------------------------

/// How many items answer a description.
pub open spec fn how_many(items: Seq<ItemModel>, p: spec_fn(ItemModel) -> bool) -> int
    decreases items.len(),
{
    if items.len() == 0 {
        0
    } else {
        how_many(items.skip(1), p) + if p(items[0]) {
            1int
        } else {
            0
        }
    }
}

/// Whether an item is transferred.
pub open spec fn goes(x: ItemModel) -> bool {
    x.action == Action::Move || x.action == Action::Copy || x.action == Action::Link || x.action
        == Action::Overwrite
}

/// The bytes of the items that are transferred.
pub open spec fn bytes_going(items: Seq<ItemModel>) -> int
    decreases items.len(),
{
    if items.len() == 0 {
        0
    } else {
        bytes_going(items.skip(1)) + if goes(items[0]) {
            items[0].size as int
        } else {
            0
        }
    }
}

proof fn lemma_how_many_last(items: Seq<ItemModel>, p: spec_fn(ItemModel) -> bool)
    requires
        items.len() > 0,
    ensures
        how_many(items, p) == how_many(items.drop_last(), p) + if p(items.last()) {
            1int
        } else {
            0
        },
    decreases items.len(),
{
    if items.len() == 1 {
        assert(how_many(items.skip(1), p) == 0);
        assert(how_many(items.drop_last(), p) == 0);
    } else {
        assert(items.drop_last()[0] == items[0]);
        lemma_how_many_last(items.skip(1), p);
        assert(items.skip(1).drop_last() =~= items.drop_last().skip(1));
        assert(items.skip(1).last() == items.last());
    }
}

proof fn lemma_bytes_last(items: Seq<ItemModel>)
    requires
        items.len() > 0,
    ensures
        bytes_going(items) == bytes_going(items.drop_last()) + if goes(items.last()) {
            items.last().size as int
        } else {
            0
        },
    decreases items.len(),
{
    if items.len() == 1 {
        assert(bytes_going(items.skip(1)) == 0);
        assert(bytes_going(items.drop_last()) == 0);
    } else {
        assert(items.drop_last()[0] == items[0]);
        lemma_bytes_last(items.skip(1));
        assert(items.skip(1).drop_last() =~= items.drop_last().skip(1));
        assert(items.skip(1).last() == items.last());
    }
}

/// The numbers of a plan: how many items are transferred and with how many
/// bytes, how many are skipped for each reason, how many get another name, how
/// many overwrite, and how many go to the folder of the undated.
pub proof fn law_plan_numbers(items: Seq<ItemModel>)
    ensures
        ({
            let s = report::stats_of(items);
            &&& s.to_move == how_many(items, |x: ItemModel| goes(x))
            &&& s.move_bytes == bytes_going(items)
            &&& report::bytes_of(items) == bytes_going(items)
            &&& s.skip_duplicate == how_many(
                items,
                |x: ItemModel| x.action == Action::SkipDuplicate,
            )
            &&& s.skip_conflict == how_many(items, |x: ItemModel| x.action == Action::SkipConflict)
            &&& s.skip_no_date == how_many(items, |x: ItemModel| x.action == Action::SkipNoDate)
            &&& s.overwrites == how_many(items, |x: ItemModel| x.action == Action::Overwrite)
            &&& s.conflicts_renamed == how_many(
                items,
                |x: ItemModel|
                    goes(x) && x.action != Action::Overwrite && text::contains_text(
                        x.note,
                        "renamed"@,
                    ),
            )
            &&& s.no_date == how_many(
                items,
                |x: ItemModel| goes(x) && x.rel_folder == "NoDate"@,
            )
        }),
    decreases items.len(),
{
    if items.len() > 0 {
        law_plan_numbers(items.drop_last());
        lemma_bytes_last(items);
        lemma_how_many_last(items, |x: ItemModel| goes(x));
        lemma_how_many_last(items, |x: ItemModel| x.action == Action::SkipDuplicate);
        lemma_how_many_last(items, |x: ItemModel| x.action == Action::SkipConflict);
        lemma_how_many_last(items, |x: ItemModel| x.action == Action::SkipNoDate);
        lemma_how_many_last(items, |x: ItemModel| x.action == Action::Overwrite);
        lemma_how_many_last(
            items,
            |x: ItemModel|
                goes(x) && x.action != Action::Overwrite && text::contains_text(
                    x.note,
                    "renamed"@,
                ),
        );
        lemma_how_many_last(items, |x: ItemModel| goes(x) && x.rel_folder == "NoDate"@);
    }
}

/// The span of a plan: no item was taken before its first day or after its last
/// day, and there is none where no item has a date.
pub proof fn law_plan_span(items: Seq<ItemModel>, i: int)
    requires
        0 <= i < items.len(),
        items[i].date is Some,
    ensures
        ({
            let s = report::stats_of(items);
            let d = items[i].date->0.date();
            &&& s.min_date is Some && !d.before(s.min_date->0)
            &&& s.max_date is Some && !s.max_date->0.before(d)
        }),
    decreases items.len(),
{
    let t = items.drop_last();
    let x = items.last();
    let d = items[i].date->0.date();
    if i < t.len() {
        assert(t[i] == items[i]);
        law_plan_span(t, i);
        let s = report::stats_of(t);
        if x.date is Some {
            lemma_days(d, s.min_date->0, x.date->0.date());
            lemma_days(x.date->0.date(), s.max_date->0, d);
        }
    }
}

proof fn lemma_days(d: Day, m: Day, e: Day)
    ensures
        !d.before(m) && e.before(m) ==> !d.before(e),
        !m.before(e) && m.before(d) ==> !d.before(e),
        !d.before(d),
{
}

/// The first and the last day of a plan are days on which some item was taken.
pub proof fn law_plan_span_is_met(items: Seq<ItemModel>)
    ensures
        report::stats_of(items).min_date matches Some(d) ==> exists|i: int|
            0 <= i < items.len() && (#[trigger] items[i]).date is Some && items[i].date->0.date()
                == d,
        report::stats_of(items).max_date matches Some(d) ==> exists|i: int|
            0 <= i < items.len() && (#[trigger] items[i]).date is Some && items[i].date->0.date()
                == d,
    decreases items.len(),
{
    if items.len() > 0 {
        let t = items.drop_last();
        law_plan_span_is_met(t);
        let s = report::stats_of(t);
        let n = report::stats_of(items);
        assert(items[items.len() - 1] == items.last());
        if n.min_date is Some && n.min_date == s.min_date {
            let i = choose|i: int|
                0 <= i < t.len() && (#[trigger] t[i]).date is Some && t[i].date->0.date()
                    == n.min_date->0;
            assert(items[i] == t[i]);
        }
        if n.max_date is Some && n.max_date == s.max_date {
            let i = choose|i: int|
                0 <= i < t.len() && (#[trigger] t[i]).date is Some && t[i].date->0.date()
                    == n.max_date->0;
            assert(items[i] == t[i]);
        }
    }
}

// ---------------------------------------------------------------------------
// Lines
// ---------------------------------------------------------------------------

/// The first lines of a preview: whether it is a rehearsal, from where to
/// where, how much, and the days it spans.
pub proof fn law_preview_head(cfg: ConfigModel, s: StatsModel, dry_run: bool)
    ensures
        ({
            let l = report::preview_of(cfg, s, dry_run);
            let verb = report::verb_of(cfg);
            let amount = "  to "@ + verb + ": "@ + text::decimal(s.to_move as nat) + " ("@
                + util::size_text(s.move_bytes) + ")"@;
            &&& l.len() >= 4 + s.by_folder.len()
            &&& l[0].len() == 0
            &&& l[1] == if dry_run {
                "Plan preview (dry-run, nothing moved)"@
            } else {
                "Plan summary"@
            }
            &&& l[2] == "  source: "@ + cfg.source + "    dest: "@ + cfg.dest
                + " (same card → atomic "@ + verb + ")"@
            &&& s.min_date is None || s.max_date is None ==> l[3] == amount
            &&& s.min_date is Some && s.max_date is Some ==> l[3] == amount + (", dates "@
                + clock::day_text(s.min_date->0) + " ~ "@ + clock::day_text(s.max_date->0))
        }),
{
    let l = report::preview_of(cfg, s, dry_run);
    let head = report::preview_head(cfg, s, dry_run);
    assert(forall|i: int| 0 <= i < 4 ==> #[trigger] l[i] == head[i]);
    if s.min_date is None || s.max_date is None {
        assert(head[3] =~= "  to "@ + report::verb_of(cfg) + ": "@ + text::decimal(
            s.to_move as nat,
        ) + " ("@ + util::size_text(s.move_bytes) + ")"@);
    }
}

/// One line of a preview for each folder, with its number, in order.
pub proof fn law_preview_folders(cfg: ConfigModel, s: StatsModel, dry_run: bool, i: int)
    requires
        0 <= i < s.by_folder.len(),
    ensures
        ({
            let l = report::preview_of(cfg, s, dry_run)[4 + i];
            let name = s.by_folder[i].0;
            let label = if name.len() == 0 {
                "<dest root>"@
            } else {
                name
            };
            let blanks = if label.len() < 28 {
                Seq::new((28 - label.len()) as nat, |k: int| ' ')
            } else {
                Seq::empty()
            };
            l == "  → "@ + cfg.dest + "/"@ + (label + blanks) + " "@ + text::decimal(
                s.by_folder[i].1 as nat,
            )
        }),
{
    let all = report::preview_of(cfg, s, dry_run);
    let head = report::preview_head(cfg, s, dry_run);
    let folders = Seq::new(
        s.by_folder.len(),
        |k: int| report::folder_line(cfg.dest, s.by_folder[k]),
    );
    assert(all[4 + i] == folders[i]);
    let name = s.by_folder[i].0;
    let label = if name.len() == 0 {
        "<dest root>"@
    } else {
        name
    };
    assert(label + Seq::<char>::empty() =~= label);
}

/// What a preview flags: each number that is not zero, under its name, in a
/// fixed order.
pub proof fn law_preview_flags(s: StatsModel)
    ensures
        ({
            let f = report::flags_of(s);
            let n = |k: int, w: Seq<char>|
                if k > 0 {
                    seq![w + text::decimal(k as nat)]
                } else {
                    Seq::<Seq<char>>::empty()
                };
            f == n(s.skip_duplicate, "skipped(duplicate): "@) + n(
                s.conflicts_renamed,
                "conflicts(renamed): "@,
            ) + n(s.overwrites, "overwrites: "@) + n(s.skip_conflict, "skipped(conflict): "@) + n(
                s.no_date,
                "no-date → NoDate/: "@,
            ) + n(s.skip_no_date, "skipped(no-date): "@)
        }),
{
}

/// A move is announced as one, and nothing else is.
pub proof fn law_move_is_announced(cfg: ConfigModel, s: StatsModel, dry_run: bool)
    ensures
        ({
            let l = report::preview_of(cfg, s, dry_run);
            let warning =
                "  ⚠ this is a MOVE; afterwards these files leave DCIM and camera playback won't see them."@;
            let flags = report::flags_of(s);
            let n = 4 + s.by_folder.len() + if flags.len() > 0 {
                1int
            } else {
                0
            };
            &&& !cfg.link && !cfg.copy && cfg.mode == ModeArg::Photo ==> l.len() == n
                + 1 && l.last() == warning
            &&& cfg.link || cfg.copy || cfg.mode == ModeArg::Video ==> l.len() == n
        }),
{
    reveal_strlit("move");
    reveal_strlit("link");
    reveal_strlit("copy");
    assert("move"@[0] == 'm' && "link"@[0] == 'l' && "copy"@[0] == 'c');
}

/// The closing line of a run.
pub proof fn law_final_line(
    verb: Seq<char>,
    moved: nat,
    bytes: int,
    skipped: nat,
    no_date: nat,
    errors: nat,
    seconds: Seq<char>,
)
    ensures
        report::final_text(
            verb,
            moved as int,
            bytes,
            skipped as int,
            no_date as int,
            errors as int,
            seconds,
        ) == "  "@ + verb + " "@ + text::decimal(moved) + " ("@ + util::size_text(bytes)
            + "), skipped "@ + text::decimal(skipped) + ", no-date "@ + text::decimal(no_date)
            + ", errors "@ + text::decimal(errors) + ", "@ + seconds + "s"@,
{
}

// ---------------------------------------------------------------------------
// Manifests
// ---------------------------------------------------------------------------

/// What a manifest says of an item.
pub proof fn law_manifest_row(x: ItemModel)
    ensures
        ({
            let r = report::row_of(x);
            &&& r.src == x.src && r.dst == x.dst && r.note == x.note
            &&& x.kind == FileKind::Raw ==> r.kind == "raw"@
            &&& x.kind == FileKind::Jpeg ==> r.kind == "jpeg"@
            &&& x.kind == FileKind::Video ==> r.kind == "video"@
            &&& x.kind == FileKind::Sidecar ==> r.kind == "sidecar"@
            &&& x.date is None ==> r.date is None
            &&& x.date is Some ==> r.date == Some(clock::moment_text(x.date->0))
            &&& x.provenance == DateProvenance::Embedded ==> r.date_source == "embedded"@
            &&& x.provenance == DateProvenance::Mtime ==> r.date_source == "mtime"@
            &&& x.provenance == DateProvenance::Absent ==> r.date_source == "none"@
            &&& x.action == Action::Move ==> r.action == "moved"@
            &&& x.action == Action::Copy ==> r.action == "copied"@
            &&& x.action == Action::Link ==> r.action == "linked"@
            &&& x.action == Action::Overwrite ==> r.action == "overwritten"@
            &&& x.action == Action::SkipDuplicate ==> r.action == "skipped-duplicate"@
            &&& x.action == Action::SkipConflict ==> r.action == "skipped-conflict"@
            &&& x.action == Action::SkipNoDate ==> r.action == "skipped-nodate"@
        }),
{
}

/// A field that holds a comma, a quote or a line end is put in quotes; any
/// other one stands as it is.
pub proof fn law_csv_field(s: Seq<char>)
    ensures
        ({
            let f = report::csv_field(s);
            let special = exists|i: int|
                0 <= i < s.len() && ((#[trigger] s[i]) == ',' || s[i] == '"' || s[i] == '\n');
            &&& !special ==> f == s
            &&& special ==> f.len() >= s.len() + 2 && f[0] == '"' && f.last() == '"'
        }),
{
    lemma_doubled_len(s);
    if exists|i: int|
        0 <= i < s.len() && ((#[trigger] s[i]) == ',' || s[i] == '"' || s[i] == '\n') {
        let i = choose|i: int|
            0 <= i < s.len() && ((#[trigger] s[i]) == ',' || s[i] == '"' || s[i] == '\n');
        assert(s.contains(s[i]));
    }
}

proof fn lemma_doubled_len(s: Seq<char>)
    ensures
        report::doubled(s).len() >= s.len(),
    decreases s.len(),
{
    if s.len() > 0 {
        lemma_doubled_len(s.drop_last());
    }
}

/// A line of a CSV manifest: seven fields with commas between them, source and
/// target first, the note last.
pub proof fn law_csv_line(r: RowModel)
    ensures
        ({
            let date = match r.date {
                Some(d) => d,
                None => Seq::empty(),
            };
            report::csv_text(r) == text::join(
                seq![
                    report::csv_field(r.src),
                    report::csv_field(r.dst),
                    r.kind,
                    report::csv_field(date),
                    r.date_source,
                    r.action,
                    report::csv_field(r.note),
                ],
                seq![','],
            )
        }),
{
    reveal_strlit(",");
    assert(","@ =~= seq![',']);
    let date = match r.date {
        Some(d) => d,
        None => Seq::empty(),
    };
    let a = seq![report::csv_field(r.src)];
    let b = a.push(report::csv_field(r.dst));
    let c = b.push(r.kind);
    let d = c.push(report::csv_field(date));
    let e = d.push(r.date_source);
    let f = e.push(r.action);
    let g = f.push(report::csv_field(r.note));
    let s = seq![','];
    assert(b.drop_last() =~= a && c.drop_last() =~= b && d.drop_last() =~= c && e.drop_last() =~= d
        && f.drop_last() =~= e && g.drop_last() =~= f);
    assert(text::join(b, s) == text::join(a, s) + s + b.last());
    assert(text::join(c, s) == text::join(b, s) + s + c.last());
    assert(text::join(d, s) == text::join(c, s) + s + d.last());
    assert(text::join(e, s) == text::join(d, s) + s + e.last());
    assert(text::join(f, s) == text::join(e, s) + s + f.last());
    assert(text::join(g, s) == text::join(f, s) + s + g.last());
    assert(g =~= seq![
        report::csv_field(r.src),
        report::csv_field(r.dst),
        r.kind,
        report::csv_field(date),
        r.date_source,
        r.action,
        report::csv_field(r.note),
    ]);
}

/// A CSV manifest: a heading, then one line for each item, in order.
pub proof fn law_csv_manifest(items: Seq<ItemModel>, i: int)
    requires
        0 <= i < items.len(),
    ensures
        ({
            let l = report::csv_manifest(items);
            &&& l.len() == items.len() + 1
            &&& l[0] == "src,dst,kind,date,date_source,action,note"@
            &&& l[i + 1] == report::csv_text(report::row_of(items[i]))
        }),
{
}

/// A manifest is written as JSON where its name ends in `.json`, whatever its
/// case, and as CSV otherwise.
pub proof fn law_manifest_format(d: Seq<char>, a: Seq<char>, e: Seq<char>)
    requires
        d.len() > 0,
        a.len() > 0,
        a[0] != '.',
        !a.contains('/') && !e.contains('/'),
        !e.contains('.'),
    ensures
        report::wants_json(d.push('/') + (a + seq!['.'] + e)) <==> text::ascii_lower(e) == "json"@,
{
    reveal_strlit("json");
    path_laws::lemma_dotted_name(a, e);
    path_laws::law_name_and_parent(d, a + seq!['.'] + e);
    shot_laws::law_stem_and_extension(a, e);
    assert(text::ascii_lower("json"@) =~= "json"@);
    assert(paths::ext_of(a + seq!['.'] + e) == Some(e));
}

/// An answer means yes where it is `y` or `yes`, whatever its case and the
/// blanks around it.
pub proof fn law_yes(line: Seq<char>)
    ensures
        util::means_yes(line) <==> config_laws::says(line, "y"@) || config_laws::says(
            line,
            "yes"@,
        ),
{
    config_laws::lemma_says(line, "y"@);
    config_laws::lemma_says(line, "yes"@);
}

/// The folders of a plan are listed in order, each once.
pub proof fn law_folders_listed(items: Seq<ItemModel>, i: int, j: int)
    requires
        0 <= i < j < report::stats_of(items).by_folder.len(),
    ensures
        text::precedes(
            report::stats_of(items).by_folder[i].0,
            report::stats_of(items).by_folder[j].0,
        ),
{
    report::lemma_sorted_counts(items);
}

/// The number beside a folder is the number of items that go to it.
pub proof fn law_folder_number(items: Seq<ItemModel>, folder: Seq<char>)
    ensures
        report::count_of(report::stats_of(items).by_folder, folder) == how_many(
            items,
            |x: ItemModel| goes(x) && x.rel_folder == folder,
        ),
{
    report::law_folder_counts(items, folder);
    lemma_going_to(items, folder);
}

proof fn lemma_going_to(items: Seq<ItemModel>, folder: Seq<char>)
    ensures
        report::going_to(items, folder) == how_many(
            items,
            |x: ItemModel| goes(x) && x.rel_folder == folder,
        ),
    decreases items.len(),
{
    if items.len() > 0 {
        lemma_going_to(items.drop_last(), folder);
        lemma_how_many_last(items, |x: ItemModel| goes(x) && x.rel_folder == folder);
    }
}

} // verus!
