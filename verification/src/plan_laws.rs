//! What a plan keeps: no file is lost, no place is used twice, nothing leaves
//! the destination, and the files of one shot stay together.

use vstd::prelude::*;

use crate::clock;
use crate::config;
use crate::config::ConfigModel;
use crate::engine;
use crate::engine::{Files, ReplyModel};
use crate::guard;
use crate::order;
use crate::paths;
use crate::paths::Part;
use crate::plan;
use crate::plan::{GroupModel, KeyModel};
use crate::run;
use crate::run::Order;
use crate::series;
use crate::target;
use crate::target::{Disk, Job};
use crate::template;
use crate::template::CtxModel;
use crate::text;
use crate::types;
use crate::types::{Action, FileKind, FileModel};

verus! {

// ---------------------------------------------------------------------------
// Orders
// ---------------------------------------------------------------------------

proof fn lemma_part_order(a: Part, b: Part, c: Part)
    ensures
        plan::part_ahead(a, b) || plan::part_ahead(b, a) || a == b,
        !(plan::part_ahead(a, b) && plan::part_ahead(b, a)),
        a == b ==> !plan::part_ahead(a, b),
        plan::part_ahead(a, b) && plan::part_ahead(b, c) ==> plan::part_ahead(a, c),
{
    if a is Name && b is Name {
        text::lemma_precedes_total(a->Name_0, b->Name_0);
        if c is Name && plan::part_ahead(a, b) && plan::part_ahead(b, c) {
            text::lemma_precedes_transitive(a->Name_0, b->Name_0, c->Name_0);
        }
    }
}

proof fn lemma_path_total(a: Seq<Part>, b: Seq<Part>)
    ensures
        plan::path_ahead(a, b) || plan::path_ahead(b, a) || a == b,
        !(plan::path_ahead(a, b) && plan::path_ahead(b, a)),
        a == b ==> !plan::path_ahead(a, b),
    decreases a.len(),
{
    if a.len() == 0 || b.len() == 0 {
        if a.len() == 0 && b.len() == 0 {
            assert(a =~= b);
        }
    } else {
        lemma_part_order(a[0], b[0], a[0]);
        if a[0] == b[0] {
            lemma_path_total(a.skip(1), b.skip(1));
            if a.skip(1) == b.skip(1) {
                assert(a =~= seq![a[0]] + a.skip(1));
                assert(b =~= seq![b[0]] + b.skip(1));
            }
        }
    }
}

proof fn lemma_path_transitive(a: Seq<Part>, b: Seq<Part>, c: Seq<Part>)
    requires
        plan::path_ahead(a, b),
        plan::path_ahead(b, c),
    ensures
        plan::path_ahead(a, c),
    decreases a.len(),
{
    if a.len() > 0 && b.len() > 0 && c.len() > 0 {
        lemma_part_order(a[0], b[0], c[0]);
        lemma_part_order(a[0], c[0], a[0]);
        lemma_part_order(b[0], c[0], b[0]);
        if a[0] == b[0] && b[0] == c[0] {
            lemma_path_transitive(a.skip(1), b.skip(1), c.skip(1));
        }
    }
}

proof fn lemma_key_order(a: KeyModel, b: KeyModel, c: KeyModel)
    ensures
        plan::key_ahead(a, b) || plan::key_ahead(b, a) || a == b,
        !(plan::key_ahead(a, b) && plan::key_ahead(b, a)),
        a == b ==> !plan::key_ahead(a, b),
        plan::key_ahead(a, b) && !plan::key_ahead(c, b) ==> plan::key_ahead(a, c),
{
    lemma_path_total(a.parent, b.parent);
    lemma_path_total(b.parent, c.parent);
    lemma_path_total(a.parent, c.parent);
    text::lemma_precedes_total(a.stem, b.stem);
    text::lemma_precedes_total(b.stem, c.stem);
    text::lemma_precedes_total(a.stem, c.stem);
    if plan::key_ahead(a, b) && !plan::key_ahead(c, b) {
        if a.parent == b.parent && b.parent == c.parent {
            if text::precedes(b.stem, c.stem) {
                text::lemma_precedes_transitive(a.stem, b.stem, c.stem);
            }
        } else if a.parent != b.parent && b.parent != c.parent {
            lemma_path_transitive(a.parent, b.parent, c.parent);
        }
    }
}

proof fn lemma_group_order(a: GroupModel, b: GroupModel, c: GroupModel)
    ensures
        !(plan::group_ahead(a, b) && plan::group_ahead(b, a)),
        plan::group_ahead(a, b) && !plan::group_ahead(c, b) ==> plan::group_ahead(a, c),
{
    text::lemma_precedes_total(a.folder, b.folder);
    text::lemma_precedes_total(b.folder, c.folder);
    text::lemma_precedes_total(a.folder, c.folder);
    text::lemma_precedes_total(a.rep_stem, b.rep_stem);
    text::lemma_precedes_total(b.rep_stem, c.rep_stem);
    text::lemma_precedes_total(a.rep_stem, c.rep_stem);
    clock::law_moment_order(a.sort_key, b.sort_key, c.sort_key);
    clock::law_moment_order(a.sort_key, b.sort_key, a.sort_key);
    clock::law_moment_order(b.sort_key, c.sort_key, b.sort_key);
    clock::law_moment_order(a.sort_key, c.sort_key, a.sort_key);
    if plan::group_ahead(a, b) && !plan::group_ahead(c, b) {
        if a.folder != b.folder && b.folder != c.folder {
            text::lemma_precedes_transitive(a.folder, b.folder, c.folder);
        } else if a.folder == b.folder && b.folder == c.folder && a.sort_key == b.sort_key
            && b.sort_key == c.sort_key {
            if text::precedes(b.rep_stem, c.rep_stem) {
                text::lemma_precedes_transitive(a.rep_stem, b.rep_stem, c.rep_stem);
            }
        }
    }
}

proof fn lemma_by_key_orders(files: Seq<FileModel>)
    ensures
        order::orders(files.len(), plan::by_key(files)),
{
    let ahead = plan::by_key(files);
    assert forall|a: int, b: int|
        0 <= a < files.len() && 0 <= b < files.len() && #[trigger] ahead(a, b) implies !ahead(
        b,
        a,
    ) by {
        lemma_key_order(plan::key_of(files[a]), plan::key_of(files[b]), plan::key_of(files[a]));
    }
    assert forall|a: int, b: int, c: int|
        #![trigger ahead(a, b), ahead(c, b)]
        0 <= a < files.len() && 0 <= b < files.len() && 0 <= c < files.len() && ahead(a, b)
            && !ahead(c, b) implies ahead(a, c) by {
        lemma_key_order(plan::key_of(files[a]), plan::key_of(files[b]), plan::key_of(files[c]));
    }
}

pub proof fn lemma_by_capture_orders(gs: Seq<GroupModel>)
    ensures
        order::orders(gs.len(), plan::by_capture(gs)),
{
    let ahead = plan::by_capture(gs);
    assert forall|a: int, b: int|
        0 <= a < gs.len() && 0 <= b < gs.len() && #[trigger] ahead(a, b) implies !ahead(b, a) by {
        lemma_group_order(gs[a], gs[b], gs[a]);
    }
    assert forall|a: int, b: int, c: int|
        #![trigger ahead(a, b), ahead(c, b)]
        0 <= a < gs.len() && 0 <= b < gs.len() && 0 <= c < gs.len() && ahead(a, b) && !ahead(
            c,
            b,
        ) implies ahead(a, c) by {
        lemma_group_order(gs[a], gs[b], gs[c]);
    }
}

/// An arranged list holds what the list holds.
proof fn lemma_arranged_holds<T>(s: Seq<T>, ahead: spec_fn(int, int) -> bool)
    ensures
        order::arranged(s, ahead).len() == s.len(),
        forall|i: int|
            0 <= i < s.len() ==> #[trigger] order::arranged(s, ahead).contains(s[i]),
        forall|i: int|
            0 <= i < s.len() ==> s.contains(#[trigger] order::arranged(s, ahead)[i]),
{
    let r = order::ranking(s.len(), ahead);
    let t = order::arranged(s, ahead);
    order::lemma_ranking(s.len(), ahead);
    assert forall|i: int| 0 <= i < s.len() implies #[trigger] t.contains(s[i]) by {
        assert(r.contains(i));
        let k = choose|k: int| 0 <= k < r.len() && r[k] == i;
        assert(t[k] == s[i]);
    }
    assert forall|i: int| 0 <= i < s.len() implies s.contains(#[trigger] t[i]) by {
        assert(0 <= r[i] < s.len());
        assert(t[i] == s[r[i]]);
    }
}

// ---------------------------------------------------------------------------
// Groups
// ---------------------------------------------------------------------------

/// Facts about the runs of a list whose keys never go back.
proof fn lemma_runs(s: Seq<FileModel>)
    requires
        forall|i: int, j: int|
            0 <= i < j < s.len() ==> !plan::key_ahead(
                plan::key_of(#[trigger] s[j]),
                plan::key_of(#[trigger] s[i]),
            ),
    ensures
        s.len() > 0 ==> plan::runs(s).len() > 0 && plan::runs(s).last().len() > 0
            && plan::runs(s).last().last() == s.last(),
        // A run is a stretch of equal keys.
        forall|a: int, b: int, c: int|
            0 <= a < plan::runs(s).len() && 0 <= b < plan::runs(s)[a].len() && 0 <= c
                < plan::runs(s)[a].len() ==> plan::key_of(#[trigger] plan::runs(s)[a][b])
                == plan::key_of(#[trigger] plan::runs(s)[a][c]),
        // Two runs differ in their keys.
        forall|a: int, b: int, c: int, d: int|
            0 <= a < c < plan::runs(s).len() && 0 <= b < plan::runs(s)[a].len() && 0 <= d
                < plan::runs(s)[c].len() ==> plan::key_of(#[trigger] plan::runs(s)[a][b])
                != plan::key_of(#[trigger] plan::runs(s)[c][d]),
        // Every file is in a run, and a run holds files of the list.
        forall|i: int| 0 <= i < s.len() ==> #[trigger] in_some(plan::runs(s), s[i]),
        forall|a: int, b: int|
            0 <= a < plan::runs(s).len() && 0 <= b < plan::runs(s)[a].len() ==> s.contains(
                #[trigger] plan::runs(s)[a][b],
            ),
    decreases s.len(),
{
    if s.len() > 0 {
        let t = s.drop_last();
        let x = s.last();
        assert forall|i: int, j: int| 0 <= i < j < t.len() implies !plan::key_ahead(
            plan::key_of(#[trigger] t[j]),
            plan::key_of(#[trigger] t[i]),
        ) by {
            assert(t[i] == s[i] && t[j] == s[j]);
        }
        lemma_runs(t);
        let r = plan::runs(t);
        let q = plan::runs(s);
        let joins = s.len() > 1 && plan::key_of(s[s.len() - 2]) == plan::key_of(x);
        if joins {
            let m = r.len() - 1;
            assert(t.last() == s[s.len() - 2]);
            assert(q =~= r.update(m, r[m].push(x)));
            assert(r[m][r[m].len() - 1] == t.last());
            assert forall|a: int, b: int, c: int|
                0 <= a < q.len() && 0 <= b < q[a].len() && 0 <= c < q[a].len() implies plan::key_of(
                #[trigger] q[a][b],
            ) == plan::key_of(#[trigger] q[a][c]) by {
                let bb = if a == m && b == r[m].len() {
                    (r[m].len() - 1) as int
                } else {
                    b
                };
                let cc = if a == m && c == r[m].len() {
                    (r[m].len() - 1) as int
                } else {
                    c
                };
                assert(plan::key_of(r[a][bb]) == plan::key_of(r[a][cc]));
                assert(plan::key_of(q[a][b]) == plan::key_of(r[a][bb]));
                assert(plan::key_of(q[a][c]) == plan::key_of(r[a][cc]));
            }
            assert forall|a: int, b: int, c: int, d: int|
                0 <= a < c < q.len() && 0 <= b < q[a].len() && 0 <= d
                    < q[c].len() implies plan::key_of(#[trigger] q[a][b]) != plan::key_of(
                #[trigger] q[c][d],
            ) by {
                let dd = if c == m && d == r[m].len() {
                    (r[m].len() - 1) as int
                } else {
                    d
                };
                assert(q[a][b] == r[a][b]);
                assert(plan::key_of(q[c][d]) == plan::key_of(r[c][dd]));
                assert(plan::key_of(r[a][b]) != plan::key_of(r[c][dd]));
            }
            assert forall|a: int, b: int|
                0 <= a < q.len() && 0 <= b < q[a].len() implies s.contains(
                #[trigger] q[a][b],
            ) by {
                if a == m && b == r[m].len() {
                    assert(s[s.len() - 1] == x);
                } else {
                    assert(t.contains(r[a][b]));
                    let k = choose|k: int| 0 <= k < t.len() && t[k] == r[a][b];
                    assert(s[k] == r[a][b]);
                }
            }
            assert forall|i: int| 0 <= i < s.len() implies #[trigger] in_some(q, s[i]) by {
                if i == s.len() - 1 {
                    assert(q[m][r[m].len() as int] == x);
                } else {
                    assert(in_some(r, t[i]));
                    let (a, b) = choose|a: int, b: int|
                        0 <= a < r.len() && 0 <= b < r[a].len() && #[trigger] r[a][b] == t[i];
                    assert(q[a][b] == s[i]);
                }
            }
        } else {
            assert(q == r.push(seq![x]));
            let m = r.len() as int;
            assert forall|a: int, b: int, c: int|
                0 <= a < q.len() && 0 <= b < q[a].len() && 0 <= c < q[a].len() implies plan::key_of(
                #[trigger] q[a][b],
            ) == plan::key_of(#[trigger] q[a][c]) by {
                if a < m {
                    assert(plan::key_of(r[a][b]) == plan::key_of(r[a][c]));
                }
            }
            assert forall|a: int, b: int, c: int, d: int|
                0 <= a < c < q.len() && 0 <= b < q[a].len() && 0 <= d
                    < q[c].len() implies plan::key_of(#[trigger] q[a][b]) != plan::key_of(
                #[trigger] q[c][d],
            ) by {
                assert(q[a][b] == r[a][b]);
                if c < m {
                    assert(plan::key_of(r[a][b]) != plan::key_of(r[c][d]));
                } else {
                    // The key before the last one differs from the last one,
                    // and no earlier key can come back.
                    assert(t.contains(r[a][b]));
                    let k = choose|k: int| 0 <= k < t.len() && t[k] == r[a][b];
                    let p = s.len() - 2;
                    assert(s[k] == r[a][b]);
                    assert(s[p] == t.last());
                    lemma_key_order(plan::key_of(s[p]), plan::key_of(x), plan::key_of(s[k]));
                    assert(!plan::key_ahead(plan::key_of(s[s.len() - 1]), plan::key_of(s[p])));
                    if k < p {
                        assert(!plan::key_ahead(plan::key_of(s[p]), plan::key_of(s[k])));
                    }
                    lemma_key_order(plan::key_of(s[p]), plan::key_of(s[k]), plan::key_of(x));
                }
            }
            assert forall|a: int, b: int|
                0 <= a < q.len() && 0 <= b < q[a].len() implies s.contains(
                #[trigger] q[a][b],
            ) by {
                if a == m {
                    assert(s[s.len() - 1] == x);
                } else {
                    assert(t.contains(r[a][b]));
                    let k = choose|k: int| 0 <= k < t.len() && t[k] == r[a][b];
                    assert(s[k] == r[a][b]);
                }
            }
            assert forall|i: int| 0 <= i < s.len() implies #[trigger] in_some(q, s[i]) by {
                if i == s.len() - 1 {
                    assert(q[m][0] == x);
                } else {
                    assert(in_some(r, t[i]));
                    let (a, b) = choose|a: int, b: int|
                        0 <= a < r.len() && 0 <= b < r[a].len() && #[trigger] r[a][b] == t[i];
                    assert(q[a][b] == s[i]);
                }
            }
        }
    }
}

/// Whether a file is in one of the lists.
pub open spec fn in_some(lists: Seq<Seq<FileModel>>, f: FileModel) -> bool {
    exists|a: int, b: int|
        0 <= a < lists.len() && 0 <= b < lists[a].len() && #[trigger] lists[a][b] == f
}

/// Whether a file is in one of the groups.
pub open spec fn in_group(gs: Seq<GroupModel>, f: FileModel) -> bool {
    exists|a: int, b: int|
        0 <= a < gs.len() && 0 <= b < gs[a].files.len() && #[trigger] gs[a].files[b] == f
}

proof fn lemma_kept(run: Seq<FileModel>, cfg: ConfigModel)
    ensures
        forall|i: int|
            0 <= i < plan::kept(run, cfg).len() ==> run.contains(
                #[trigger] plan::kept(run, cfg)[i],
            ),
        forall|i: int|
            0 <= i < run.len() && (!plan::primary(#[trigger] run[i]) || plan::passes(run[i], cfg))
                ==> plan::kept(run, cfg).contains(run[i]),
    decreases run.len(),
{
    if run.len() > 0 {
        let t = run.drop_last();
        lemma_kept(t, cfg);
        let k = plan::kept(run, cfg);
        let j = plan::kept(t, cfg);
        assert forall|i: int| 0 <= i < k.len() implies run.contains(#[trigger] k[i]) by {
            if i < j.len() {
                assert(k[i] == j[i]);
                assert(t.contains(j[i]));
                let m = choose|m: int| 0 <= m < t.len() && t[m] == j[i];
                assert(run[m] == k[i]);
            } else {
                assert(run[run.len() - 1] == k[i]);
            }
        }
        assert forall|i: int|
            0 <= i < run.len() && (!plan::primary(#[trigger] run[i]) || plan::passes(
                run[i],
                cfg,
            )) implies k.contains(run[i]) by {
            if i < t.len() {
                assert(t[i] == run[i]);
                assert(j.contains(t[i]));
                let m = choose|m: int| 0 <= m < j.len() && j[m] == t[i];
                assert(k[m] == run[i]);
            } else {
                assert(k[k.len() - 1] == run[i]);
            }
        }
    }
}

/// What the groups of runs hold.
proof fn lemma_groups_of(r: Seq<Seq<FileModel>>, cfg: ConfigModel)
    ensures
        // Each group comes from a run of its own, in order.
        forall|a: int|
            0 <= a < plan::groups_of(r, cfg).len() ==> exists|c: int|
                0 <= c < r.len() && #[trigger] plan::groups_of(r, cfg)[a] == plan::fresh_group(
                    plan::kept(#[trigger] r[c], cfg),
                ),
        forall|a: int, b: int|
            0 <= a < b < plan::groups_of(r, cfg).len() ==> exists|c: int, d: int|
                0 <= c < d < r.len() && #[trigger] plan::groups_of(r, cfg)[a] == plan::fresh_group(
                    plan::kept(#[trigger] r[c], cfg),
                ) && #[trigger] plan::groups_of(r, cfg)[b] == plan::fresh_group(
                    plan::kept(#[trigger] r[d], cfg),
                ),
        // A run that is worth it has its group.
        forall|c: int|
            0 <= c < r.len() && plan::worth_it(#[trigger] r[c], cfg) ==> plan::groups_of(
                r,
                cfg,
            ).contains(plan::fresh_group(plan::kept(r[c], cfg))),
    decreases r.len(),
{
    if r.len() > 0 {
        let t = r.drop_last();
        lemma_groups_of(t, cfg);
        let g = plan::groups_of(r, cfg);
        let h = plan::groups_of(t, cfg);
        let worth = plan::worth_it(r.last(), cfg);
        assert forall|a: int| 0 <= a < g.len() implies exists|c: int|
            0 <= c < r.len() && #[trigger] g[a] == plan::fresh_group(
                plan::kept(#[trigger] r[c], cfg),
            ) by {
            if a < h.len() {
                assert(g[a] == h[a]);
                let c = choose|c: int|
                    0 <= c < t.len() && h[a] == plan::fresh_group(plan::kept(#[trigger] t[c], cfg));
                assert(r[c] == t[c]);
            } else {
                assert(r[r.len() - 1] == r.last());
            }
        }
        assert forall|a: int, b: int| 0 <= a < b < g.len() implies exists|c: int, d: int|
            0 <= c < d < r.len() && #[trigger] g[a] == plan::fresh_group(
                plan::kept(#[trigger] r[c], cfg),
            ) && #[trigger] g[b] == plan::fresh_group(plan::kept(#[trigger] r[d], cfg)) by {
            if b < h.len() {
                assert(g[a] == h[a] && g[b] == h[b]);
                let (c, d) = choose|c: int, d: int|
                    0 <= c < d < t.len() && h[a] == plan::fresh_group(
                        plan::kept(#[trigger] t[c], cfg),
                    ) && h[b] == plan::fresh_group(plan::kept(#[trigger] t[d], cfg));
                assert(r[c] == t[c] && r[d] == t[d]);
            } else {
                assert(g[a] == h[a]);
                let c = choose|c: int|
                    0 <= c < t.len() && h[a] == plan::fresh_group(plan::kept(#[trigger] t[c], cfg));
                assert(r[c] == t[c]);
                let d = r.len() - 1;
                assert(r[d] == r.last());
                assert(g[b] == plan::fresh_group(plan::kept(r[d], cfg)));
            }
        }
        assert forall|c: int| 0 <= c < r.len() && plan::worth_it(#[trigger] r[c], cfg) implies
            g.contains(plan::fresh_group(plan::kept(r[c], cfg))) by {
            if c < t.len() {
                assert(t[c] == r[c]);
                let x = plan::fresh_group(plan::kept(t[c], cfg));
                assert(h.contains(x));
                let m = choose|m: int| 0 <= m < h.len() && h[m] == x;
                assert(g[m] == x);
            } else {
                assert(g[g.len() - 1] == plan::fresh_group(plan::kept(r[c], cfg)));
            }
        }
    }
}

proof fn lemma_sorted_by_key(files: Seq<FileModel>)
    ensures
        forall|i: int, j: int|
            0 <= i < j < files.len() ==> !plan::key_ahead(
                plan::key_of(#[trigger] order::arranged(files, plan::by_key(files))[j]),
                plan::key_of(#[trigger] order::arranged(files, plan::by_key(files))[i]),
            ),
{
    let ahead = plan::by_key(files);
    let s = order::arranged(files, ahead);
    lemma_by_key_orders(files);
    assert forall|i: int, j: int| 0 <= i < j < files.len() implies !plan::key_ahead(
        plan::key_of(#[trigger] s[j]),
        plan::key_of(#[trigger] s[i]),
    ) by {
        order::law_ranking_ordered(files.len(), ahead, i, j);
    }
}

/// No selected photo is left out: every primary file that passes the filter is
/// in a group, and a group holds files of the scan only.
pub proof fn law_groups_hold_the_selection(files: Seq<FileModel>, cfg: ConfigModel)
    ensures
        forall|i: int|
            0 <= i < files.len() && plan::primary(#[trigger] files[i]) && plan::passes(
                files[i],
                cfg,
            ) ==> in_group(plan::grouped(files, cfg), files[i]),
        forall|a: int, b: int|
            0 <= a < plan::grouped(files, cfg).len() && 0 <= b < plan::grouped(
                files,
                cfg,
            )[a].files.len() ==> files.contains(
                #[trigger] plan::grouped(files, cfg)[a].files[b],
            ),
{
    let ahead = plan::by_key(files);
    let s = order::arranged(files, ahead);
    let r = plan::runs(s);
    let g = plan::grouped(files, cfg);
    lemma_arranged_holds(files, ahead);
    lemma_sorted_by_key(files);
    lemma_runs(s);
    lemma_groups_of(r, cfg);
    assert forall|i: int|
        0 <= i < files.len() && plan::primary(#[trigger] files[i]) && plan::passes(
            files[i],
            cfg,
        ) implies in_group(g, files[i]) by {
        let f = files[i];
        assert(s.contains(f));
        let k = choose|k: int| 0 <= k < s.len() && s[k] == f;
        assert(in_some(r, s[k]));
        let (a, b) = choose|a: int, b: int|
            0 <= a < r.len() && 0 <= b < r[a].len() && #[trigger] r[a][b] == f;
        assert(plan::worth_it(r[a], cfg)) by {
            assert(plan::primary(r[a][b]) && plan::passes(r[a][b], cfg));
        }
        lemma_kept(r[a], cfg);
        let x = plan::fresh_group(plan::kept(r[a], cfg));
        assert(g.contains(x));
        let m = choose|m: int| 0 <= m < g.len() && g[m] == x;
        assert(plan::kept(r[a], cfg).contains(r[a][b]));
        let n = choose|n: int|
            0 <= n < plan::kept(r[a], cfg).len() && plan::kept(r[a], cfg)[n] == f;
        assert(g[m].files[n] == f);
    }
    assert forall|a: int, b: int|
        0 <= a < g.len() && 0 <= b < g[a].files.len() implies files.contains(
        #[trigger] g[a].files[b],
    ) by {
        let c = choose|c: int|
            0 <= c < r.len() && g[a] == plan::fresh_group(plan::kept(#[trigger] r[c], cfg));
        lemma_kept(r[c], cfg);
        let f = g[a].files[b];
        assert(r[c].contains(plan::kept(r[c], cfg)[b]));
        let m = choose|m: int| 0 <= m < r[c].len() && r[c][m] == f;
        assert(s.contains(r[c][m]));
        let k = choose|k: int| 0 <= k < s.len() && s[k] == f;
        assert(files.contains(s[k]));
    }
}

/// The files of one shot are in one group: two files are in the same group only
/// if they have the same parent directory and the same normalized stem, and two
/// groups never share both.
pub proof fn law_groups_are_shots(
    files: Seq<FileModel>,
    cfg: ConfigModel,
    a: int,
    b: int,
    c: int,
    d: int,
)
    requires
        0 <= a < plan::grouped(files, cfg).len(),
        0 <= b < plan::grouped(files, cfg)[a].files.len(),
        0 <= c < plan::grouped(files, cfg).len(),
        0 <= d < plan::grouped(files, cfg)[c].files.len(),
    ensures
        a == c <==> plan::key_of(plan::grouped(files, cfg)[a].files[b]) == plan::key_of(
            plan::grouped(files, cfg)[c].files[d],
        ),
{
    let s = order::arranged(files, plan::by_key(files));
    let r = plan::runs(s);
    let g = plan::grouped(files, cfg);
    lemma_sorted_by_key(files);
    lemma_arranged_holds(files, plan::by_key(files));
    lemma_runs(s);
    lemma_groups_of(r, cfg);
    if a == c {
        let m = choose|m: int|
            0 <= m < r.len() && g[a] == plan::fresh_group(plan::kept(#[trigger] r[m], cfg));
        lemma_in_run(r[m], cfg, b);
        lemma_in_run(r[m], cfg, d);
        let x = choose|x: int| 0 <= x < r[m].len() && r[m][x] == g[a].files[b];
        let y = choose|y: int| 0 <= y < r[m].len() && r[m][y] == g[a].files[d];
        assert(plan::key_of(r[m][x]) == plan::key_of(r[m][y]));
    } else {
        let lo = if a < c {
            a
        } else {
            c
        };
        let hi = if a < c {
            c
        } else {
            a
        };
        let (m, n) = choose|m: int, n: int|
            0 <= m < n < r.len() && g[lo] == plan::fresh_group(plan::kept(#[trigger] r[m], cfg))
                && g[hi] == plan::fresh_group(plan::kept(#[trigger] r[n], cfg));
        let lf = if a < c {
            b
        } else {
            d
        };
        let hf = if a < c {
            d
        } else {
            b
        };
        lemma_in_run(r[m], cfg, lf);
        lemma_in_run(r[n], cfg, hf);
        let x = choose|x: int| 0 <= x < r[m].len() && r[m][x] == g[lo].files[lf];
        let y = choose|y: int| 0 <= y < r[n].len() && r[n][y] == g[hi].files[hf];
        assert(plan::key_of(r[m][x]) != plan::key_of(r[n][y]));
    }
}

/// A sidecar follows its photo, and the files of a shot stay together: next to
/// a selected photo or clip stand, in the same group, every sidecar of its shot
/// and every other selected file of it.
pub proof fn law_shot_stays_together(files: Seq<FileModel>, cfg: ConfigModel, i: int, j: int)
    requires
        0 <= i < files.len(),
        0 <= j < files.len(),
        files[i].kind != FileKind::Sidecar,
        plan::passes(files[i], cfg),
        files[j].kind == FileKind::Sidecar || plan::passes(files[j], cfg),
        paths::parts(files[i].parent) == paths::parts(files[j].parent),
        plan::group_stem(files[i]) == plan::group_stem(files[j]),
    ensures
        exists|a: int|
            0 <= a < plan::grouped(files, cfg).len() && (#[trigger] plan::grouped(
                files,
                cfg,
            )[a]).files.contains(files[i]) && plan::grouped(files, cfg)[a].files.contains(files[j]),
{
    let ahead = plan::by_key(files);
    let s = order::arranged(files, ahead);
    let r = plan::runs(s);
    let g = plan::grouped(files, cfg);
    lemma_arranged_holds(files, ahead);
    lemma_sorted_by_key(files);
    lemma_runs(s);
    lemma_groups_of(r, cfg);
    assert(s.contains(files[i]) && s.contains(files[j]));
    let k = choose|k: int| 0 <= k < s.len() && s[k] == files[i];
    let l = choose|l: int| 0 <= l < s.len() && s[l] == files[j];
    assert(in_some(r, s[k]) && in_some(r, s[l]));
    let (a, b) = choose|a: int, b: int|
        0 <= a < r.len() && 0 <= b < r[a].len() && #[trigger] r[a][b] == files[i];
    let (c, d) = choose|c: int, d: int|
        0 <= c < r.len() && 0 <= d < r[c].len() && #[trigger] r[c][d] == files[j];
    assert(plan::key_of(r[a][b]) == plan::key_of(r[c][d]));
    if a < c {
        assert(plan::key_of(r[a][b]) != plan::key_of(r[c][d]));
    } else if c < a {
        assert(plan::key_of(r[c][d]) != plan::key_of(r[a][b]));
    }
    assert(plan::worth_it(r[a], cfg)) by {
        assert(plan::primary(r[a][b]) && plan::passes(r[a][b], cfg));
    }
    lemma_kept(r[a], cfg);
    let x = plan::fresh_group(plan::kept(r[a], cfg));
    assert(g.contains(x));
    let m = choose|m: int| 0 <= m < g.len() && g[m] == x;
    assert(g[m].files.contains(r[a][b]));
    assert(g[m].files.contains(r[c][d]));
}

/// A group holds nothing that was not selected: each of its files is a sidecar
/// or passes the filter, and at least one is a photo or a clip.
pub proof fn law_groups_hold_nothing_else(
    files: Seq<FileModel>,
    cfg: ConfigModel,
    a: int,
    b: int,
)
    requires
        0 <= a < plan::grouped(files, cfg).len(),
        0 <= b < plan::grouped(files, cfg)[a].files.len(),
    ensures
        ({
            let g = plan::grouped(files, cfg)[a];
            &&& g.files[b].kind == FileKind::Sidecar || plan::passes(g.files[b], cfg)
            &&& exists|c: int|
                0 <= c < g.files.len() && (#[trigger] g.files[c]).kind != FileKind::Sidecar
            &&& g.date is None && g.counter == 0 && !g.skip_no_date
        }),
{
    let r = plan::runs(order::arranged(files, plan::by_key(files)));
    let g = plan::grouped(files, cfg);
    lemma_groups_worth(r, cfg, a);
    let c = choose|c: int|
        0 <= c < r.len() && plan::worth_it(#[trigger] r[c], cfg) && g[a] == plan::fresh_group(
            plan::kept(r[c], cfg),
        );
    lemma_kept_only(r[c], cfg);
    lemma_kept(r[c], cfg);
    let d = choose|d: int|
        0 <= d < r[c].len() && plan::primary(#[trigger] r[c][d]) && plan::passes(r[c][d], cfg);
    assert(plan::kept(r[c], cfg).contains(r[c][d]));
    let e = choose|e: int|
        0 <= e < plan::kept(r[c], cfg).len() && plan::kept(r[c], cfg)[e] == r[c][d];
    assert(g[a].files[e].kind != FileKind::Sidecar);
    assert(g[a].files[b] == plan::kept(r[c], cfg)[b]);
}

proof fn lemma_kept_only(run: Seq<FileModel>, cfg: ConfigModel)
    ensures
        forall|i: int|
            0 <= i < plan::kept(run, cfg).len() ==> !plan::primary(
                #[trigger] plan::kept(run, cfg)[i],
            ) || plan::passes(plan::kept(run, cfg)[i], cfg),
    decreases run.len(),
{
    if run.len() > 0 {
        lemma_kept_only(run.drop_last(), cfg);
        let k = plan::kept(run, cfg);
        let j = plan::kept(run.drop_last(), cfg);
        assert forall|i: int| 0 <= i < k.len() implies !plan::primary(#[trigger] k[i])
            || plan::passes(k[i], cfg) by {
            if i < j.len() {
                assert(k[i] == j[i]);
            }
        }
    }
}

/// Whether a group comes from a run that is worth it.
spec fn from_run(x: GroupModel, r: Seq<Seq<FileModel>>, cfg: ConfigModel) -> bool {
    exists|c: int|
        0 <= c < r.len() && plan::worth_it(#[trigger] r[c], cfg) && x == plan::fresh_group(
            plan::kept(r[c], cfg),
        )
}

proof fn lemma_groups_worth(r: Seq<Seq<FileModel>>, cfg: ConfigModel, a: int)
    requires
        0 <= a < plan::groups_of(r, cfg).len(),
    ensures
        from_run(plan::groups_of(r, cfg)[a], r, cfg),
    decreases r.len(),
{
    let t = r.drop_last();
    let h = plan::groups_of(t, cfg);
    if a < h.len() {
        lemma_groups_worth(t, cfg, a);
        assert(plan::groups_of(r, cfg)[a] == h[a]);
        let c = choose|c: int|
            0 <= c < t.len() && plan::worth_it(#[trigger] t[c], cfg) && h[a] == plan::fresh_group(
                plan::kept(t[c], cfg),
            );
        assert(r[c] == t[c]);
    } else {
        assert(r[r.len() - 1] == r.last());
    }
}

/// A group carries the name of its first photo or clip.
pub proof fn law_group_name(files: Seq<FileModel>, k: int)
    requires
        0 <= k < files.len(),
        files[k].kind != FileKind::Sidecar,
        forall|i: int| 0 <= i < k ==> (#[trigger] files[i]).kind == FileKind::Sidecar,
    ensures
        plan::fresh_group(files).rep_stem == files[k].stem,
        plan::fresh_group(files).files == files,
    decreases k,
{
    if k > 0 {
        assert(files[0].kind == FileKind::Sidecar);
        let t = files.skip(1);
        assert forall|i: int| 0 <= i < k - 1 implies (#[trigger] t[i]).kind
            == FileKind::Sidecar by {
            assert(t[i] == files[i + 1]);
        }
        assert(t[k - 1] == files[k]);
        law_group_name(t, k - 1);
    }
}

proof fn lemma_in_run(run: Seq<FileModel>, cfg: ConfigModel, b: int)
    requires
        0 <= b < plan::kept(run, cfg).len(),
    ensures
        exists|x: int| 0 <= x < run.len() && run[x] == plan::kept(run, cfg)[b],
{
    lemma_kept(run, cfg);
    assert(run.contains(plan::kept(run, cfg)[b]));
}

// ---------------------------------------------------------------------------
// Items
// ---------------------------------------------------------------------------

/// The claims before the `j`-th file is decided, from the `k`-th on.
pub open spec fn claims_at(
    jobs: Seq<Job>,
    k: int,
    j: int,
    cfg: ConfigModel,
    claimed: Set<Seq<char>>,
    disk: Disk,
    pid: u32,
) -> Set<Seq<char>>
    decreases j - k,
{
    if k >= j || k < 0 || k >= jobs.len() {
        claimed
    } else {
        let item = target::decision(jobs[k], cfg, claimed, disk, pid);
        claims_at(jobs, k + 1, j, cfg, target::claims(claimed, item), disk, pid)
    }
}

/// Each file has its item, decided under the claims of the files before it.
pub proof fn lemma_decisions(
    jobs: Seq<Job>,
    k: int,
    cfg: ConfigModel,
    claimed: Set<Seq<char>>,
    disk: Disk,
    pid: u32,
)
    requires
        0 <= k <= jobs.len(),
    ensures
        target::decisions(jobs, k, cfg, claimed, disk, pid).len() == jobs.len() - k,
        forall|j: int|
            k <= j < jobs.len() ==> #[trigger] target::decisions(
                jobs,
                k,
                cfg,
                claimed,
                disk,
                pid,
            )[j - k] == target::decision(
                jobs[j],
                cfg,
                claims_at(jobs, k, j, cfg, claimed, disk, pid),
                disk,
                pid,
            ),
    decreases jobs.len() - k,
{
    if k < jobs.len() {
        let item = target::decision(jobs[k], cfg, claimed, disk, pid);
        let after = target::claims(claimed, item);
        lemma_decisions(jobs, k + 1, cfg, after, disk, pid);
        let all = target::decisions(jobs, k, cfg, claimed, disk, pid);
        let rest = target::decisions(jobs, k + 1, cfg, after, disk, pid);
        assert forall|j: int| k <= j < jobs.len() implies #[trigger] all[j - k] == target::decision(
            jobs[j],
            cfg,
            claims_at(jobs, k, j, cfg, claimed, disk, pid),
            disk,
            pid,
        ) by {
            if j > k {
                assert(all[j - k] == rest[j - (k + 1)]);
            }
        }
    }
}

/// A claim is never given up, and every item that is transferred is claimed.
proof fn lemma_claims_grow(
    jobs: Seq<Job>,
    k: int,
    i: int,
    j: int,
    cfg: ConfigModel,
    claimed: Set<Seq<char>>,
    disk: Disk,
    pid: u32,
)
    requires
        0 <= k <= i < j < jobs.len(),
    ensures
        ({
            let item = target::decision(
                jobs[i],
                cfg,
                claims_at(jobs, k, i, cfg, claimed, disk, pid),
                disk,
                pid,
            );
            let later = claims_at(jobs, k, j, cfg, claimed, disk, pid);
            &&& !types::skips(item.action) ==> later.contains(target::place_key(item.dst))
            &&& forall|x: Seq<char>| #[trigger] claimed.contains(x) ==> later.contains(x)
        }),
    decreases j - k,
{
    let item = target::decision(jobs[k], cfg, claimed, disk, pid);
    let after = target::claims(claimed, item);
    if k == i {
        lemma_claims_kept(jobs, k + 1, j, cfg, after, disk, pid);
        assert(claims_at(jobs, k, i, cfg, claimed, disk, pid) == claimed);
        if !types::skips(item.action) {
            assert(after.contains(target::place_key(item.dst)));
        }
    } else {
        lemma_claims_grow(jobs, k + 1, i, j, cfg, after, disk, pid);
    }
    let later = claims_at(jobs, k, j, cfg, claimed, disk, pid);
    assert forall|x: Seq<char>| #[trigger] claimed.contains(x) implies later.contains(x) by {
        assert(after.contains(x));
    }
}

proof fn lemma_claims_kept(
    jobs: Seq<Job>,
    k: int,
    j: int,
    cfg: ConfigModel,
    claimed: Set<Seq<char>>,
    disk: Disk,
    pid: u32,
)
    requires
        0 <= k <= j < jobs.len(),
    ensures
        forall|x: Seq<char>| #[trigger]
            claimed.contains(x) ==> claims_at(jobs, k, j, cfg, claimed, disk, pid).contains(x),
    decreases j - k,
{
    if k < j {
        let item = target::decision(jobs[k], cfg, claimed, disk, pid);
        let after = target::claims(claimed, item);
        lemma_claims_kept(jobs, k + 1, j, cfg, after, disk, pid);
        assert forall|x: Seq<char>| #[trigger] claimed.contains(x) implies claims_at(
            jobs,
            k,
            j,
            cfg,
            claimed,
            disk,
            pid,
        ).contains(x) by {
            assert(after.contains(x));
        }
    }
}

/// The number of files in the groups.
pub open spec fn file_count(gs: Seq<GroupModel>) -> nat
    decreases gs.len(),
{
    if gs.len() == 0 {
        0
    } else {
        file_count(gs.drop_last()) + gs.last().files.len()
    }
}

proof fn lemma_jobs(gs: Seq<GroupModel>)
    ensures
        target::jobs_of(gs).len() == file_count(gs),
        forall|a: int, b: int|
            0 <= a < gs.len() && 0 <= b < gs[a].files.len() ==> target::jobs_of(gs).contains(
                (gs[a], #[trigger] gs[a].files[b]),
            ),
        forall|j: int|
            0 <= j < target::jobs_of(gs).len() ==> gs.contains(
                (#[trigger] target::jobs_of(gs)[j]).0,
            ) && target::jobs_of(gs)[j].0.files.contains(target::jobs_of(gs)[j].1),
    decreases gs.len(),
{
    if gs.len() > 0 {
        let t = gs.drop_last();
        let g = gs.last();
        lemma_jobs(t);
        lemma_arranged_holds(g.files, target::by_rank(g.files));
        let head = target::jobs_of(t);
        let sorted = target::ordered_files(g.files);
        let tail = target::tagged(g, sorted);
        let all = target::jobs_of(gs);
        assert(all == head + tail);
        assert forall|a: int, b: int|
            0 <= a < gs.len() && 0 <= b < gs[a].files.len() implies all.contains(
            (gs[a], #[trigger] gs[a].files[b]),
        ) by {
            let x = (gs[a], gs[a].files[b]);
            if a < t.len() {
                assert(t[a] == gs[a]);
                assert(head.contains((t[a], t[a].files[b])));
                let m = choose|m: int| 0 <= m < head.len() && head[m] == x;
                assert(all[m] == x);
            } else {
                assert(sorted.contains(g.files[b]));
                let m = choose|m: int| 0 <= m < sorted.len() && sorted[m] == g.files[b];
                assert(tail[m] == x);
                assert(all[head.len() + m] == x);
            }
        }
        assert forall|j: int| 0 <= j < all.len() implies gs.contains((#[trigger] all[j]).0)
            && all[j].0.files.contains(all[j].1) by {
            if j < head.len() {
                assert(all[j] == head[j]);
                assert(t.contains(head[j].0));
                let m = choose|m: int| 0 <= m < t.len() && t[m] == head[j].0;
                assert(gs[m] == all[j].0);
            } else {
                assert(all[j] == tail[j - head.len()]);
                assert(gs[gs.len() - 1] == g);
                assert(g.files.contains(sorted[j - head.len()]));
            }
        }
    }
}

/// Every file of every group has its item, and there are as many items as
/// files: no photo is dropped from a plan without a word.
pub proof fn law_every_file_planned(gs: Seq<GroupModel>, cfg: ConfigModel, disk: Disk, pid: u32)
    ensures
        target::items_of(gs, cfg, disk, pid).len() == file_count(gs),
        forall|a: int, b: int|
            0 <= a < gs.len() && 0 <= b < gs[a].files.len() ==> exists|j: int|
                0 <= j < target::items_of(gs, cfg, disk, pid).len() && (
                #[trigger] target::items_of(gs, cfg, disk, pid)[j]).src == (
                #[trigger] gs[a].files[b]).path,
{
    let jobs = target::jobs_of(gs);
    let items = target::items_of(gs, cfg, disk, pid);
    lemma_jobs(gs);
    lemma_decisions(jobs, 0, cfg, Set::empty(), disk, pid);
    assert forall|a: int, b: int| 0 <= a < gs.len() && 0 <= b < gs[a].files.len() implies exists|
        j: int,
    |
        0 <= j < items.len() && (#[trigger] items[j]).src == (#[trigger] gs[a].files[b]).path by {
        let x = (gs[a], gs[a].files[b]);
        assert(jobs.contains(x));
        let j = choose|j: int| 0 <= j < jobs.len() && jobs[j] == x;
        assert(items[j - 0].src == gs[a].files[b].path);
    }
}

proof fn lemma_free_path(
    p: Seq<char>,
    n: int,
    claimed: Set<Seq<char>>,
    disk: Disk,
    pid: u32,
)
    requires
        1 <= n,
    ensures
        ({
            let q = target::free_path(p, n, claimed, disk, pid);
            ||| q == target::last_resort(p, pid)
            ||| target::is_free(q, claimed, disk) && exists|m: int|
                n <= m < target::NAMES && q == #[trigger] target::numbered_path(p, m)
        }),
    decreases target::NAMES - n,
{
    if n < target::NAMES && !target::is_free(target::numbered_path(p, n), claimed, disk) {
        lemma_free_path(p, n + 1, claimed, disk, pid);
    }
}

/// A transfer that does not overwrite goes to a place where nothing is, and
/// that no other transfer of the plan goes to, not even up to case. (Where all
/// of the numbered names beside a place are taken, the name that is tried last
/// is taken unseen.)
pub proof fn law_targets_are_free(
    gs: Seq<GroupModel>,
    cfg: ConfigModel,
    disk: Disk,
    pid: u32,
    j: int,
)
    requires
        0 <= j < target::items_of(gs, cfg, disk, pid).len(),
        !types::skips(target::items_of(gs, cfg, disk, pid)[j].action),
        target::items_of(gs, cfg, disk, pid)[j].action != Action::Overwrite,
        target::items_of(gs, cfg, disk, pid)[j].dst != target::last_resort(
            target::candidate_of(target::jobs_of(gs)[j].1, target::jobs_of(gs)[j].0, cfg),
            pid,
        ),
    ensures
        !(disk.present)(target::items_of(gs, cfg, disk, pid)[j].dst),
        forall|i: int|
            0 <= i < j && !types::skips(
                (#[trigger] target::items_of(gs, cfg, disk, pid)[i]).action,
            ) ==> target::place_key(target::items_of(gs, cfg, disk, pid)[i].dst)
                != target::place_key(target::items_of(gs, cfg, disk, pid)[j].dst),
{
    let jobs = target::jobs_of(gs);
    let items = target::items_of(gs, cfg, disk, pid);
    let none = Set::<Seq<char>>::empty();
    lemma_decisions(jobs, 0, cfg, none, disk, pid);
    let claimed = claims_at(jobs, 0, j, cfg, none, disk, pid);
    let candidate = target::candidate_of(jobs[j].1, jobs[j].0, cfg);
    assert(items[j - 0] == target::decision(jobs[j], cfg, claimed, disk, pid));
    lemma_free_path(candidate, 1, claimed, disk, pid);
    assert(target::is_free(items[j].dst, claimed, disk));
    assert forall|i: int| 0 <= i < j && !types::skips((#[trigger] items[i]).action) implies
        target::place_key(items[i].dst) != target::place_key(items[j].dst) by {
        lemma_claims_grow(jobs, 0, i, j, cfg, none, disk, pid);
        assert(items[i - 0] == target::decision(
            jobs[i],
            cfg,
            claims_at(jobs, 0, i, cfg, none, disk, pid),
            disk,
            pid,
        ));
    }
}

/// A file is called a duplicate only of what was on disk before the run.
pub proof fn law_duplicates_are_on_disk(
    gs: Seq<GroupModel>,
    cfg: ConfigModel,
    disk: Disk,
    pid: u32,
    j: int,
)
    requires
        0 <= j < target::items_of(gs, cfg, disk, pid).len(),
        target::items_of(gs, cfg, disk, pid)[j].action == Action::SkipDuplicate,
    ensures
        (disk.present)(
            target::candidate_of(target::jobs_of(gs)[j].1, target::jobs_of(gs)[j].0, cfg),
        ),
{
    let jobs = target::jobs_of(gs);
    lemma_decisions(jobs, 0, cfg, Set::empty(), disk, pid);
    let claimed = claims_at(jobs, 0, j, cfg, Set::empty(), disk, pid);
    assert(target::items_of(gs, cfg, disk, pid)[j - 0] == target::decision(
        jobs[j],
        cfg,
        claimed,
        disk,
        pid,
    ));
}

/// A run that copies or links (`--copy`, `--link`, `--mode video`) never moves
/// a file: whatever the plan says of an item, overwriting included, its source
/// is copied or linked. Neither removes it
/// ([`crate::engine::law_copy_keeps_source`]).
pub proof fn law_copying_run_keeps_sources(
    gs: Seq<GroupModel>,
    cfg: ConfigModel,
    disk: Disk,
    pid: u32,
    j: int,
    done: Set<Seq<char>>,
    src_exists: bool,
)
    requires
        0 <= j < target::items_of(gs, cfg, disk, pid).len(),
        cfg.link || config::copies(cfg),
    ensures
        run::order_for(target::items_of(gs, cfg, disk, pid)[j], done, src_exists, cfg)
            matches Order::Transfer(a) ==> a == Action::Copy || a == Action::Link,
{
    let jobs = target::jobs_of(gs);
    lemma_decisions(jobs, 0, cfg, Set::empty(), disk, pid);
    let claimed = claims_at(jobs, 0, j, cfg, Set::empty(), disk, pid);
    assert(target::items_of(gs, cfg, disk, pid)[j - 0] == target::decision(
        jobs[j],
        cfg,
        claimed,
        disk,
        pid,
    ));
}

// ---------------------------------------------------------------------------
// Places
// ---------------------------------------------------------------------------

/// What follows a proper stem, an underscore and digits, and an extension
/// without a separator, is a proper name.
proof fn lemma_beside_proper(stem: Seq<char>, digits: Seq<char>, ext: Option<Seq<char>>)
    requires
        !stem.contains('/'),
        forall|i: int| 0 <= i < digits.len() ==> text::is_digit(#[trigger] digits[i]),
        ext matches Some(e) ==> !e.contains('/'),
    ensures
        ({
            let head = stem + "_"@ + digits;
            let name = match ext {
                Some(e) => head + "."@ + e,
                None => head,
            };
            paths::proper_name(name)
        }),
{
    reveal_strlit("_");
    reveal_strlit(".");
    reveal_strlit("..");
    let head = stem + "_"@ + digits;
    let name = match ext {
        Some(e) => head + "."@ + e,
        None => head,
    };
    assert(name[stem.len() as int] == '_');
    assert(!name.contains('/')) by {
        assert forall|i: int| 0 <= i < name.len() implies name[i] != '/' by {
            if i < stem.len() {
                assert(stem[i] == name[i]);
            } else if i == stem.len() {
            } else if i < head.len() {
                assert(text::is_digit(digits[i - stem.len() - 1]));
            } else if i > head.len() {
                let e = ext->0;
                assert(e[i - head.len() - 1] == name[i]);
            }
        }
    }
    if name == "."@ || name == ".."@ {
        assert(name[stem.len() as int] == '.');
    }
}

/// A path beside a path inside a directory is inside the directory too.
proof fn lemma_beside_inside(p: Seq<char>, name: Seq<char>, dest: Seq<char>)
    requires
        paths::proper(paths::parts(dest)),
        guard::inside(p, dest),
        paths::proper_name(name),
    ensures
        guard::inside(paths::joined(target::dir_of(p), name), dest),
{
    let c = paths::parts(p);
    let b = paths::parts(dest);
    let a = guard::resolved(c);
    guard::lemma_resolved_fixed(b);
    guard::lemma_resolved_len(c);
    assert(c.take(b.len() as int)[0] == c[0]);
    paths::lemma_parts_proper(p);
    paths::lemma_parts_rooted(p);
    assert(a.len() > b.len()) by {
        if a.len() == b.len() {
            assert(a.take(b.len() as int) =~= a);
        }
    }
    let up = c.drop_last();
    assert(c[c.len() - 1] != Part::Root);
    assert(paths::parent_parts(p) == Some(up));
    let all = up.push(Part::Name(name));
    assert(all.drop_last() =~= up);
    assert(paths::path_of(all) == paths::joined(paths::path_of(up), name));
    assert(paths::rooted(all)) by {
        assert forall|i: int| 1 <= i < all.len() implies ((#[trigger] all[i]) is Up || (all[i] is Name
            && paths::proper_name(all[i]->Name_0))) by {
            if i < up.len() {
                assert(all[i] == c[i]);
            }
        }
    }
    paths::law_path_round_trip(all);
    assert(all.take(b.len() as int) =~= c.take(b.len() as int));
    let r = guard::resolved(up);
    assert(guard::resolved(all) == r.push(Part::Name(name)));
    assert(b.len() <= r.len() && r.take(b.len() as int) =~= a.take(b.len() as int)) by {
        assert(c[c.len() - 1] is Up || c[c.len() - 1] is Name);
    }
    assert(guard::resolved(all).take(b.len() as int) =~= r.take(b.len() as int));
}

/// Nothing leaves the destination: every file that is transferred goes to a
/// place inside it, renamed or not, also once `.` and `..` among the components
/// of the place are resolved. The destination is in normal form.
pub proof fn law_targets_stay_inside(
    gs: Seq<GroupModel>,
    cfg: ConfigModel,
    disk: Disk,
    pid: u32,
    j: int,
)
    requires
        0 <= j < target::items_of(gs, cfg, disk, pid).len(),
        !types::skips(target::items_of(gs, cfg, disk, pid)[j].action),
        paths::proper(paths::parts(cfg.dest)),
    ensures
        guard::inside(target::items_of(gs, cfg, disk, pid)[j].dst, cfg.dest),
        guard::target_verdict(target::items_of(gs, cfg, disk, pid)[j].dst, cfg.dest) is Ok,
{
    let jobs = target::jobs_of(gs);
    let items = target::items_of(gs, cfg, disk, pid);
    let none = Set::<Seq<char>>::empty();
    lemma_decisions(jobs, 0, cfg, none, disk, pid);
    let claimed = claims_at(jobs, 0, j, cfg, none, disk, pid);
    let p = target::candidate_of(jobs[j].1, jobs[j].0, cfg);
    assert(items[j - 0] == target::decision(jobs[j], cfg, claimed, disk, pid));
    if items[j].dst != p {
        lemma_free_path(p, 1, claimed, disk, pid);
        let name = match paths::name_of(p) {
            Some(n) => n,
            None => "file"@,
        };
        reveal_strlit("file");
        paths::lemma_parts_proper(p);
        assert(!name.contains('/')) by {
            if paths::name_of(p) is Some {
                assert(paths::parts(p)[paths::parts(p).len() - 1] is Name);
            }
        }
        let stem = target::path_stem(p);
        text::lemma_rfind(name, '.');
        assert(!stem.contains('/')) by {
            assert forall|i: int| 0 <= i < stem.len() implies stem[i] != '/' by {
                assert(stem[i] == name[i]);
            }
        }
        let ext = target::path_ext(p);
        assert(ext matches Some(e) ==> !e.contains('/')) by {
            if ext is Some {
                let e = ext->0;
                let k = text::rfind(name, '.');
                assert forall|i: int| 0 <= i < e.len() implies e[i] != '/' by {
                    assert(e[i] == name[i + k + 1]);
                }
            }
        }
        if items[j].dst == target::last_resort(p, pid) {
            text::lemma_decimal_digits(pid as nat);
            lemma_beside_proper(stem, text::decimal(pid as nat), None);
            lemma_beside_inside(p, stem + "_"@ + text::decimal(pid as nat), cfg.dest);
        } else {
            let m = choose|m: int|
                1 <= m < target::NAMES && items[j].dst == #[trigger] target::numbered_path(p, m);
            let digits = text::pad_left(text::decimal(m as nat), 3, '0');
            text::lemma_decimal_digits(m as nat);
            assert forall|i: int| 0 <= i < digits.len() implies text::is_digit(
                #[trigger] digits[i],
            ) by {
                let d = text::decimal(m as nat);
                if 3 > d.len() && i >= 3 - d.len() {
                    assert(digits[i] == d[i - (3 - d.len())]);
                }
            }
            lemma_beside_proper(stem, digits, ext);
            lemma_beside_inside(p, target::numbered_name(p, m), cfg.dest);
        }
    }
}

/// A whole run that copies or links touches nothing outside the destination,
/// whatever the policy for conflicts is and whatever comes of its operations.
/// The destination is in normal form.
pub proof fn law_copying_run_touches_destination_only(
    gs: Seq<GroupModel>,
    cfg: ConfigModel,
    disk: Disk,
    pid: u32,
    done: Set<Seq<char>>,
    fs: Files,
    traces: Seq<Seq<(ReplyModel, Files)>>,
    k: int,
)
    requires
        cfg.link || config::copies(cfg),
        paths::proper(paths::parts(cfg.dest)),
        0 <= k <= target::items_of(gs, cfg, disk, pid).len(),
        run::can_execute(target::items_of(gs, cfg, disk, pid), cfg, done, pid, fs, traces, k),
    ensures
        ({
            let items = target::items_of(gs, cfg, disk, pid);
            let after = run::files_after(items, cfg, done, pid, fs, traces, k);
            forall|p: Seq<char>|
                #[trigger] fs.contains_key(p) && !paths::at_or_below(p, cfg.dest)
                    ==> after.contains_key(p) && after[p] == fs[p]
        }),
    decreases k,
{
    let items = target::items_of(gs, cfg, disk, pid);
    if k > 0 {
        law_copying_run_touches_destination_only(gs, cfg, disk, pid, done, fs, traces, k - 1);
        let before = run::files_after(items, cfg, done, pid, fs, traces, k - 1);
        let after = run::files_after(items, cfg, done, pid, fs, traces, k);
        let item = items[k - 1];
        let src_exists = before.contains_key(item.src);
        law_copying_run_keeps_sources(gs, cfg, disk, pid, k - 1, done, src_exists);
        match run::order_for(item, done, src_exists, cfg) {
            Order::Transfer(a) => {
                law_targets_stay_inside(gs, cfg, disk, pid, k - 1);
                engine::lemma_temp_apart(item.dst, pid);
                lemma_beside_inside(item.dst, engine::temp_file(item.dst, pid), cfg.dest);
                let t = engine::started(item.src, item.dst, a, cfg.verify, pid);
                assert forall|p: Seq<char>|
                    #[trigger] fs.contains_key(p) && !paths::at_or_below(
                        p,
                        cfg.dest,
                    ) implies after.contains_key(p) && after[p] == fs[p] by {
                    engine::law_copy_run_touches_target_only(t, before, traces[k - 1], p);
                }
            },
            _ => {},
        }
    }
}

/// `--copy` and `--link` keep the sources: after a whole run, and at every item
/// on the way, every source is there with its bytes. The sources lie outside
/// the destination, as the scan leaves them ([`crate::scan::law_scan_leaves_dest_out`]).
pub proof fn law_copying_run_keeps_every_source(
    gs: Seq<GroupModel>,
    cfg: ConfigModel,
    disk: Disk,
    pid: u32,
    done: Set<Seq<char>>,
    fs: Files,
    traces: Seq<Seq<(ReplyModel, Files)>>,
    k: int,
)
    requires
        cfg.link || config::copies(cfg),
        paths::proper(paths::parts(cfg.dest)),
        0 <= k <= target::items_of(gs, cfg, disk, pid).len(),
        run::can_execute(target::items_of(gs, cfg, disk, pid), cfg, done, pid, fs, traces, k),
        forall|i: int|
            0 <= i < target::items_of(gs, cfg, disk, pid).len() ==> {
                let src = (#[trigger] target::items_of(gs, cfg, disk, pid)[i]).src;
                fs.contains_key(src) && !paths::at_or_below(src, cfg.dest)
            },
    ensures
        ({
            let items = target::items_of(gs, cfg, disk, pid);
            let after = run::files_after(items, cfg, done, pid, fs, traces, k);
            forall|i: int|
                0 <= i < items.len() ==> after.contains_key((#[trigger] items[i]).src)
                    && after[items[i].src] == fs[items[i].src]
        }),
{
    law_copying_run_touches_destination_only(gs, cfg, disk, pid, done, fs, traces, k);
}

// ---------------------------------------------------------------------------
// Names and numbers
// ---------------------------------------------------------------------------

/// Whether a template names the extension.
pub open spec fn names_ext(tpl: Seq<char>) -> bool
    decreases tpl.len(),
{
    let open = text::find(tpl, '{');
    if open < 0 || open >= tpl.len() {
        false
    } else {
        let after = tpl.skip(open + 1);
        let close = text::find(after, '}');
        if close < 0 || close >= after.len() {
            false
        } else {
            template::token_name(after.take(close)) == "ext"@ || names_ext(after.skip(close + 1))
        }
    }
}

proof fn lemma_render_without_ext(tpl: Seq<char>, a: CtxModel, b: CtxModel)
    requires
        !names_ext(tpl),
        a == (CtxModel { ext: a.ext, ..b }),
    ensures
        template::rendered(tpl, a) == template::rendered(tpl, b),
    decreases tpl.len(),
{
    let open = text::find(tpl, '{');
    text::lemma_find(tpl, '{');
    if open < tpl.len() {
        let after = tpl.skip(open + 1);
        let close = text::find(after, '}');
        text::lemma_find(after, '}');
        if close < after.len() {
            lemma_render_without_ext(after.skip(close + 1), a, b);
        }
    }
}

/// RAW and JPEG of one shot get the same new name: two files of a group with
/// the same stem have the same base name, unless the name template names the
/// extension, and they go to the same folder.
pub proof fn law_pair_shares_name(a: FileModel, b: FileModel, g: GroupModel, cfg: ConfigModel)
    requires
        a.stem == b.stem,
        g.use_name_template ==> !names_ext(cfg.name_template),
    ensures
        target::base_name(a, g, cfg) == target::base_name(b, g, cfg),
        target::target_name(a, g, cfg) == target::base_name(a, g, cfg) + "."@ + a.ext,
        target::target_name(b, g, cfg) == target::base_name(a, g, cfg) + "."@ + b.ext,
        target::candidate_of(a, g, cfg) == paths::joined(
            plan::folder_path(cfg.dest, g.folder),
            target::target_name(a, g, cfg),
        ),
        target::candidate_of(b, g, cfg) == paths::joined(
            plan::folder_path(cfg.dest, g.folder),
            target::target_name(b, g, cfg),
        ),
{
    if g.use_name_template {
        let x = CtxModel {
            dt: g.date,
            original: a.stem,
            ext: text::ascii_lower(a.ext),
            counter: Some(g.counter),
            make: g.make,
            model: g.model,
        };
        let y = CtxModel { ext: text::ascii_lower(b.ext), ..x };
        lemma_render_without_ext(cfg.name_template, x, y);
    }
}

proof fn lemma_place_run(gs: Seq<GroupModel>, i: int, j: int)
    requires
        0 <= i <= j < gs.len(),
        forall|k: int| i <= k <= j ==> (#[trigger] gs[k]).folder == gs[i].folder,
    ensures
        plan::place(gs, j) == plan::place(gs, i) + (j - i),
    decreases j - i,
{
    if i < j {
        lemma_place_run(gs, i, j - 1);
        assert(gs[j - 1].folder == gs[j].folder);
    }
}

/// Groups of one folder stand together, in capture order.
proof fn lemma_folder_run(gs: Seq<GroupModel>, i: int, j: int)
    requires
        0 <= i < j < gs.len(),
    ensures
        ({
            let s = order::arranged(gs, plan::by_capture(gs));
            &&& s[i].folder == s[j].folder ==> !s[j].sort_key.before(s[i].sort_key)
            &&& s[i].folder == s[j].folder ==> forall|k: int|
                i <= k <= j ==> (#[trigger] s[k]).folder == s[i].folder
        }),
{
    let ahead = plan::by_capture(gs);
    let s = order::arranged(gs, ahead);
    let n = gs.len();
    lemma_by_capture_orders(gs);
    order::lemma_ranking(n, ahead);
    order::law_ranking_ordered(n, ahead, i, j);
    assert(!plan::group_ahead(s[j], s[i]));
    if s[i].folder == s[j].folder {
        assert forall|k: int| i <= k <= j implies (#[trigger] s[k]).folder == s[i].folder by {
            if i < k < j {
                order::law_ranking_ordered(n, ahead, i, k);
                order::law_ranking_ordered(n, ahead, k, j);
                assert(!plan::group_ahead(s[k], s[i]));
                assert(!plan::group_ahead(s[j], s[k]));
                text::lemma_precedes_total(s[i].folder, s[k].folder);
                text::lemma_precedes_total(s[k].folder, s[j].folder);
            }
        }
        clock::law_moment_order(s[i].sort_key, s[j].sort_key, s[i].sort_key);
    }
}

/// In each folder the numbers count up without a gap in capture order.
pub proof fn law_numbers_count_up(
    gs: Seq<GroupModel>,
    tpl: Seq<char>,
    dest: Seq<char>,
    stems: spec_fn(Seq<char>) -> Seq<Seq<char>>,
    i: int,
    j: int,
)
    requires
        0 <= i < j < gs.len() <= plan::MAX_GROUPS,
        ({
            let s = order::arranged(gs, plan::by_capture(gs));
            s[i].folder == s[j].folder
        }),
    ensures
        ({
            let s = order::arranged(gs, plan::by_capture(gs));
            let n = plan::numbered(s, tpl, dest, stems);
            &&& n[j].counter == n[i].counter + (j - i)
            &&& !n[j].sort_key.before(n[i].sort_key)
        }),
{
    let s = order::arranged(gs, plan::by_capture(gs));
    lemma_folder_run(gs, i, j);
    lemma_place_run(s, i, j);
    lemma_place_bound(s, i);
    lemma_place_bound(s, j);
    series::lemma_first_free(tpl, stems(plan::folder_path(dest, s[i].folder)));
}

/// Each number is larger than every number with which the name template could
/// have made the name of a file already there. Where it can have made none of
/// them, and in an empty folder, the numbers begin at 0.
pub proof fn law_numbers_go_on(
    gs: Seq<GroupModel>,
    tpl: Seq<char>,
    dest: Seq<char>,
    stems: spec_fn(Seq<char>) -> Seq<Seq<char>>,
    i: int,
)
    requires
        0 <= i < gs.len() <= plan::MAX_GROUPS,
    ensures
        ({
            let list = stems(plan::folder_path(dest, gs[i].folder));
            let ps = series::pieces(tpl);
            let n = plan::numbered(gs, tpl, dest, stems)[i];
            &&& forall|k: int, m: nat|
                0 <= k < list.len() && m < series::LIMIT && #[trigger] series::made(ps, m, list[k])
                    ==> n.counter > m
            &&& (forall|k: int, m: nat|
                0 <= k < list.len() && m < series::LIMIT ==> !#[trigger] series::made(
                    ps,
                    m,
                    list[k],
                )) ==> n.counter == plan::place(gs, i)
        }),
{
    let list = stems(plan::folder_path(dest, gs[i].folder));
    lemma_place_bound(gs, i);
    series::lemma_first_free(tpl, list);
    if forall|k: int, m: nat|
        0 <= k < list.len() && m < series::LIMIT ==> !#[trigger] series::made(
            series::pieces(tpl),
            m,
            list[k],
        ) {
        series::lemma_first_free_none(tpl, list);
    }
}

/// A later run goes on where an earlier one stopped: a file that got its name
/// from the template and a number of at most nine digits, and is in the folder,
/// has a smaller number than every group of the run. The name template holds
/// the counter.
pub proof fn law_later_run_goes_on(
    gs: Seq<GroupModel>,
    cfg: ConfigModel,
    stems: spec_fn(Seq<char>) -> Seq<Seq<char>>,
    i: int,
    f: FileModel,
    g: GroupModel,
    k: int,
)
    requires
        0 <= i < gs.len() <= plan::MAX_GROUPS,
        series::counts(series::pieces(cfg.name_template)),
        g.use_name_template,
        g.date matches Some(m) ==> m.valid(),
        g.counter < series::LIMIT,
        !f.ext.contains('.'),
        ({
            let list = stems(plan::folder_path(cfg.dest, gs[i].folder));
            0 <= k < list.len() && list[k] == paths::stem_of(target::target_name(f, g, cfg))
        }),
    ensures
        plan::numbered(gs, cfg.name_template, cfg.dest, stems)[i].counter > g.counter,
{
    let ps = series::pieces(cfg.name_template);
    let ctx = CtxModel {
        dt: g.date,
        original: f.stem,
        ext: text::ascii_lower(f.ext),
        counter: Some(g.counter),
        make: g.make,
        model: g.model,
    };
    let x = template::stripped(
        template::cleaned(template::rendered(cfg.name_template, ctx), false),
    );
    series::law_made_is_recognized(cfg.name_template, ctx, g.counter);
    series::lemma_made_digit(ps, g.counter as nat, x);
    reveal_strlit("_");
    reveal_strlit(".");
    reveal_strlit("..");
    let base = target::base_name(f, g, cfg);
    assert(x != "."@ && x != ".."@ && x != "_"@) by {
        let h = choose|h: int| 0 <= h < x.len() && text::is_digit(#[trigger] x[h]);
        if x == "_"@ {
            assert(x[h] == '_');
        }
        if x == "."@ || x == ".."@ {
            assert(x[h] == '.');
        }
    }
    assert(base == x);
    let name = base + "."@ + f.ext;
    let at = base.len() as int;
    text::lemma_rfind(name, '.');
    assert(name[at] == '.');
    assert(text::rfind(name, '.') == at) by {
        let r = text::rfind(name, '.');
        if r > at {
            assert(name[r] == f.ext[r - at - 1]);
            assert(f.ext.contains(f.ext[r - at - 1]));
        }
    }
    assert(paths::stem_of(name) =~= base);
    law_numbers_go_on(gs, cfg.name_template, cfg.dest, stems, i);
    assert(series::made(ps, g.counter as nat, stems(plan::folder_path(cfg.dest, gs[i].folder))[k]));
}

proof fn lemma_place_bound(gs: Seq<GroupModel>, i: int)
    requires
        0 <= i < gs.len(),
    ensures
        0 <= plan::place(gs, i) <= i,
    decreases i,
{
    if i > 0 && gs[i - 1].folder == gs[i].folder {
        lemma_place_bound(gs, i - 1);
    }
}

/// The first group of a folder in which nothing is of the series gets the
/// number 0.
pub proof fn law_first_number(
    gs: Seq<GroupModel>,
    tpl: Seq<char>,
    dest: Seq<char>,
    stems: spec_fn(Seq<char>) -> Seq<Seq<char>>,
    i: int,
)
    requires
        0 <= i < gs.len() <= plan::MAX_GROUPS,
        i > 0 ==> gs[i - 1].folder != gs[i].folder,
        stems(plan::folder_path(dest, gs[i].folder)).len() == 0,
    ensures
        plan::numbered(gs, tpl, dest, stems)[i].counter == 0,
{
}

} // verus!
