//! What a plan says of each file, in terms of the disk and of the files before
//! it.

use vstd::prelude::*;

use crate::cli::{DedupArg, ModeArg, OnConflictArg};
use crate::config::ConfigModel;
use crate::guard;
use crate::order;
use crate::path_laws;
use crate::paths;
use crate::plan;
use crate::plan::GroupModel;
use crate::plan_laws;
use crate::shot_laws;
use crate::target;
use crate::target::{Disk, Job};
use crate::template;
use crate::template::CtxModel;
use crate::template_laws;
use crate::text;
use crate::text_laws;
use crate::types;
use crate::types::{Action, FileKind, FileModel, ItemModel};

verus! {

/// Whether a plan transfers an item.
pub open spec fn transfers(item: ItemModel) -> bool {
    item.action == Action::Move || item.action == Action::Copy || item.action == Action::Link
        || item.action == Action::Overwrite
}

/// Whether an item before the `j`-th one goes to a place, up to ASCII case.
pub open spec fn spoken_for(items: Seq<ItemModel>, j: int, p: Seq<char>) -> bool {
    exists|i: int|
        0 <= i < j && transfers(#[trigger] items[i]) && text::ascii_lower(items[i].dst)
            == text::ascii_lower(p)
}

proof fn lemma_claims_exact(
    jobs: Seq<Job>,
    k: int,
    j: int,
    cfg: ConfigModel,
    claimed: Set<Seq<char>>,
    disk: Disk,
    pid: u32,
    x: Seq<char>,
)
    requires
        0 <= k <= j <= jobs.len(),
    ensures
        plan_laws::claims_at(jobs, k, j, cfg, claimed, disk, pid).contains(x) <==> {
            claimed.contains(x) || exists|i: int|
                #![trigger jobs[i]]
                k <= i < j && ({
                    let item = target::decision(
                        jobs[i],
                        cfg,
                        plan_laws::claims_at(jobs, k, i, cfg, claimed, disk, pid),
                        disk,
                        pid,
                    );
                    transfers(item) && text::ascii_lower(item.dst) == x
                })
        },
    decreases j - k,
{
    if k < j {
        let item = target::decision(jobs[k], cfg, claimed, disk, pid);
        let after = target::claims(claimed, item);
        lemma_claims_exact(jobs, k + 1, j, cfg, after, disk, pid, x);
        assert(transfers(item) == !types::skips(item.action));
        assert(plan_laws::claims_at(jobs, k, k, cfg, claimed, disk, pid) == claimed);
        assert forall|i: int| k < i < j implies #[trigger] plan_laws::claims_at(
            jobs,
            k + 1,
            i,
            cfg,
            after,
            disk,
            pid,
        ) == plan_laws::claims_at(jobs, k, i, cfg, claimed, disk, pid) by {}
        let later = plan_laws::claims_at(jobs, k, j, cfg, claimed, disk, pid);
        if later.contains(x) && !claimed.contains(x) {
            if after.contains(x) {
                assert(transfers(item) && text::ascii_lower(item.dst) == x);
                assert(jobs[k] == jobs[k]);
            } else {
                let i = choose|i: int|
                    #![trigger jobs[i]]
                    k + 1 <= i < j && ({
                        let it = target::decision(
                            jobs[i],
                            cfg,
                            plan_laws::claims_at(jobs, k + 1, i, cfg, after, disk, pid),
                            disk,
                            pid,
                        );
                        transfers(it) && text::ascii_lower(it.dst) == x
                    });
                assert(plan_laws::claims_at(jobs, k + 1, i, cfg, after, disk, pid)
                    == plan_laws::claims_at(jobs, k, i, cfg, claimed, disk, pid));
                assert(jobs[i] == jobs[i]);
            }
        }
        if exists|i: int|
            #![trigger jobs[i]]
            k <= i < j && ({
                let it = target::decision(
                    jobs[i],
                    cfg,
                    plan_laws::claims_at(jobs, k, i, cfg, claimed, disk, pid),
                    disk,
                    pid,
                );
                transfers(it) && text::ascii_lower(it.dst) == x
            }) {
            let i = choose|i: int|
                #![trigger jobs[i]]
                k <= i < j && ({
                    let it = target::decision(
                        jobs[i],
                        cfg,
                        plan_laws::claims_at(jobs, k, i, cfg, claimed, disk, pid),
                        disk,
                        pid,
                    );
                    transfers(it) && text::ascii_lower(it.dst) == x
                });
            if i == k {
                assert(after.contains(x));
            } else {
                assert(plan_laws::claims_at(jobs, k + 1, i, cfg, after, disk, pid)
                    == plan_laws::claims_at(jobs, k, i, cfg, claimed, disk, pid));
                assert(jobs[i] == jobs[i]);
            }
        }
    }
}

proof fn lemma_item(gs: Seq<GroupModel>, cfg: ConfigModel, disk: Disk, pid: u32, j: int)
    requires
        0 <= j < target::jobs_of(gs).len(),
    ensures
        ({
            let jobs = target::jobs_of(gs);
            let items = target::items_of(gs, cfg, disk, pid);
            let claimed = plan_laws::claims_at(jobs, 0, j, cfg, Set::empty(), disk, pid);
            &&& items.len() == jobs.len()
            &&& items[j] == target::decision(jobs[j], cfg, claimed, disk, pid)
            &&& forall|p: Seq<char>|
                claimed.contains(#[trigger] text::ascii_lower(p)) <==> spoken_for(items, j, p)
        }),
{
    let jobs = target::jobs_of(gs);
    let items = target::items_of(gs, cfg, disk, pid);
    let none = Set::<Seq<char>>::empty();
    let claimed = plan_laws::claims_at(jobs, 0, j, cfg, none, disk, pid);
    plan_laws::lemma_decisions(jobs, 0, cfg, none, disk, pid);
    assert(items[j - 0] == target::decision(jobs[j], cfg, claimed, disk, pid));
    assert forall|p: Seq<char>|
        claimed.contains(#[trigger] text::ascii_lower(p)) <==> spoken_for(items, j, p) by {
        let x = text::ascii_lower(p);
        lemma_claims_exact(jobs, 0, j, cfg, none, disk, pid, x);
        if claimed.contains(x) {
            let i = choose|i: int|
                #![trigger jobs[i]]
                0 <= i < j && ({
                    let it = target::decision(
                        jobs[i],
                        cfg,
                        plan_laws::claims_at(jobs, 0, i, cfg, none, disk, pid),
                        disk,
                        pid,
                    );
                    transfers(it) && text::ascii_lower(it.dst) == x
                });
            assert(items[i - 0] == target::decision(
                jobs[i],
                cfg,
                plan_laws::claims_at(jobs, 0, i, cfg, none, disk, pid),
                disk,
                pid,
            ));
            assert(transfers(items[i]));
        }
        if spoken_for(items, j, p) {
            let i = choose|i: int|
                0 <= i < j && transfers(#[trigger] items[i]) && text::ascii_lower(items[i].dst)
                    == x;
            assert(items[i - 0] == target::decision(
                jobs[i],
                cfg,
                plan_laws::claims_at(jobs, 0, i, cfg, none, disk, pid),
                disk,
                pid,
            ));
            assert(jobs[i] == jobs[i]);
        }
    }
}

/// How a run transfers: by links where that is asked for, by copies where that
/// is asked for or clips are organized, else by moves.
pub open spec fn way_of(cfg: ConfigModel) -> Action {
    if cfg.link {
        Action::Link
    } else if cfg.copy || cfg.mode == ModeArg::Video {
        Action::Copy
    } else {
        Action::Move
    }
}

/// What a plan says of a file. `c` is its place under the templates.
///
/// - A shot that is left out for want of a date is left where it is.
/// - A place outside the destination is not used.
/// - A free place is used, and the file goes there in the way of the run.
/// - What is on disk there makes the file a duplicate: by name, or with
///   `--dedup hash` by content alone.
/// - Every other taken place, be it taken by an earlier file of the plan, is a
///   conflict: skipped, overwritten, or renamed to the first number that is
///   free.
pub proof fn law_planned(gs: Seq<GroupModel>, cfg: ConfigModel, disk: Disk, pid: u32, j: int)
    requires
        0 <= j < target::jobs_of(gs).len(),
    ensures
        ({
            let (g, f) = target::jobs_of(gs)[j];
            let items = target::items_of(gs, cfg, disk, pid);
            let item = items[j];
            let c = target::candidate_of(f, g, cfg);
            let there = (disk.present)(c);
            let held = spoken_for(items, j, c);
            let dup = there && (cfg.dedup == DedupArg::Name || (cfg.dedup == DedupArg::Hash && (
            disk.same)(f.path, c)));
            &&& item.src == f.path
            &&& item.size == f.size
            &&& item.kind == f.kind
            &&& item.rel_folder == g.folder
            &&& transfers(item) ==> item.date == g.date && item.provenance == g.provenance
            &&& g.skip_no_date ==> item.action == Action::SkipNoDate
            &&& !g.skip_no_date && !guard::inside(c, cfg.dest) ==> item.action
                == Action::SkipConflict
            &&& !g.skip_no_date && guard::inside(c, cfg.dest) ==> {
                &&& !there && !held ==> item.action == way_of(cfg) && item.dst == c
                &&& dup ==> item.action == Action::SkipDuplicate
                &&& !dup && (there || held) ==> match cfg.on_conflict {
                    OnConflictArg::Skip => item.action == Action::SkipConflict,
                    OnConflictArg::Overwrite => item.action == Action::Overwrite && item.dst == c,
                    OnConflictArg::Rename => {
                        &&& item.action == way_of(cfg)
                        &&& forall|m: int|
                            1 <= m < 100000 && first_open(items, j, disk, c, m) ==> item.dst
                                == #[trigger] target::numbered_path(c, m)
                    },
                }
            }
        }),
{
    let jobs = target::jobs_of(gs);
    let items = target::items_of(gs, cfg, disk, pid);
    let (g, f) = jobs[j];
    let c = target::candidate_of(f, g, cfg);
    lemma_item(gs, cfg, disk, pid, j);
    let claimed = plan_laws::claims_at(jobs, 0, j, cfg, Set::empty(), disk, pid);
    assert(claimed.contains(text::ascii_lower(c)) <==> spoken_for(items, j, c));
    assert forall|m: int| 1 <= m < 100000 && first_open(items, j, disk, c, m) implies
        target::free_path(c, 1, claimed, disk, pid) == #[trigger] target::numbered_path(c, m) by {
        lemma_first_open(items, j, disk, c, m, 1, claimed, pid);
    }
}

/// Whether the `m`-th name beside a path is the first that is neither on disk
/// nor that of an earlier file of the plan.
pub open spec fn first_open(items: Seq<ItemModel>, j: int, disk: Disk, c: Seq<char>, m: int) -> bool {
    &&& !(disk.present)(target::numbered_path(c, m))
    &&& !spoken_for(items, j, target::numbered_path(c, m))
    &&& forall|k: int|
        1 <= k < m ==> (disk.present)(#[trigger] target::numbered_path(c, k)) || spoken_for(
            items,
            j,
            target::numbered_path(c, k),
        )
}

proof fn lemma_first_open(
    items: Seq<ItemModel>,
    j: int,
    disk: Disk,
    c: Seq<char>,
    m: int,
    n: int,
    claimed: Set<Seq<char>>,
    pid: u32,
)
    requires
        1 <= n <= m < 100000,
        first_open(items, j, disk, c, m),
        forall|p: Seq<char>|
            claimed.contains(#[trigger] text::ascii_lower(p)) <==> spoken_for(items, j, p),
    ensures
        target::free_path(c, n, claimed, disk, pid) == target::numbered_path(c, m),
    decreases m - n,
{
    let q = target::numbered_path(c, n);
    assert(claimed.contains(text::ascii_lower(q)) <==> spoken_for(items, j, q));
    if n < m {
        lemma_first_open(items, j, disk, c, m, n + 1, claimed, pid);
    }
}

/// The place of a file: the folder of its shot in the destination, and there its
/// own name and extension, or with a name template what the template renders,
/// made safe, with its own extension.
pub proof fn law_place(f: FileModel, g: GroupModel, cfg: ConfigModel)
    ensures
        ({
            let ctx = CtxModel {
                dt: g.date,
                original: f.stem,
                ext: text::ascii_lower(f.ext),
                counter: Some(g.counter),
                make: g.make,
                model: g.model,
            };
            let made = template::rendered(cfg.name_template, ctx);
            &&& !g.use_name_template ==> target::candidate_of(f, g, cfg) == paths::joined(
                plan::folder_path(cfg.dest, g.folder),
                f.stem + seq!['.'] + f.ext,
            )
            &&& g.use_name_template && template_laws::tidy(made) && made != seq!['_']
                ==> target::candidate_of(f, g, cfg) == paths::joined(
                plan::folder_path(cfg.dest, g.folder),
                made + seq!['.'] + f.ext,
            )
        }),
{
    reveal_strlit(".");
    reveal_strlit("_");
    assert("."@ =~= seq!['.']);
    assert("_"@ =~= seq!['_']);
    let ctx = CtxModel {
        dt: g.date,
        original: f.stem,
        ext: text::ascii_lower(f.ext),
        counter: Some(g.counter),
        make: g.make,
        model: g.model,
    };
    let made = template::rendered(cfg.name_template, ctx);
    if template_laws::tidy(made) {
        template_laws::law_tidy_names_stay(made);
    }
}

/// The folder of a shot is below the destination, component by component.
pub proof fn law_folder_path(dest: Seq<char>, a: Seq<char>, b: Seq<char>)
    requires
        a.len() > 0,
        b.len() > 0,
        !a.contains('/'),
        !b.contains('/'),
    ensures
        plan::folder_path(dest, a) == paths::joined(dest, a),
        plan::folder_path(dest, a + seq!['/'] + b) == paths::joined(paths::joined(dest, a), b),
        plan::folder_path(dest, Seq::empty()) == dest,
{
    let s = a + seq!['/'] + b;
    text::lemma_find(a, '/');
    text::lemma_find(b, '/');
    text::lemma_find(s, '/');
    let k = text::find(s, '/');
    assert(s[a.len() as int] == '/');
    assert(s.contains('/'));
    assert(k == a.len()) by {
        if k < a.len() {
            assert(s[k] == a[k]);
            assert(a.contains(a[k]));
        }
    }
    assert(s.take(k) =~= a);
    assert(s.skip(k + 1) =~= b);
    assert(text::split(a, '/') =~= seq![a]);
    assert(text::split(b, '/') =~= seq![b]);
    assert(text::split(s, '/') =~= seq![a, b]);
    let none = Seq::<Seq<char>>::empty();
    assert(seq![a].drop_last() =~= none);
    assert(seq![a, b].drop_last() =~= seq![a]);
    assert(plan::pushed(dest, none) == dest);
    assert(plan::pushed(dest, seq![a]) == paths::joined(dest, a));
}

/// The numbered names beside a place are its stem, an underscore, the number in
/// at least three digits, and its extension, in the same directory.
pub proof fn law_numbered_path(dir: Seq<char>, stem: Seq<char>, ext: Seq<char>, n: int)
    requires
        dir.len() > 0,
        stem.len() > 0,
        ext.len() > 0,
        !stem.contains('/'),
        !ext.contains('/'),
        !ext.contains('.'),
        1 <= n < 1000,
    ensures
        ({
            let p = paths::joined(dir, stem + seq!['.'] + ext);
            let d = text::pad_left(text::decimal(n as nat), 3, '0');
            &&& target::numbered_path(p, n) == paths::joined(
                target::dir_of(p),
                stem + seq!['_'] + d + seq!['.'] + ext,
            )
            &&& d.len() == 3
            &&& text_laws::read_decimal(d) == n
        }),
{
    reveal_strlit(".");
    reveal_strlit("_");
    reveal_strlit("..");
    assert("."@ =~= seq!['.']);
    assert("_"@ =~= seq!['_']);
    let name = stem + seq!['.'] + ext;
    let d = text::pad_left(text::decimal(n as nat), 3, '0');
    let at = stem.len() as int;
    assert(name[at] == '.');
    assert(!name.contains('/')) by {
        if name.contains('/') {
            let i = choose|i: int| 0 <= i < name.len() && name[i] == '/';
            if i < at {
                assert(stem[i] == '/');
            } else if i > at {
                assert(ext[i - at - 1] == '/');
            }
        }
    }
    assert(name[at + 1] == ext[0]);
    assert(ext[0] != '.') by {
        assert(ext.contains(ext[0]));
    }
    assert(name != "."@ && name != ".."@) by {
        if name == ".."@ {
            assert(name[at + 1] == '.');
        }
    }
    paths::lemma_joined_name(dir, name);
    text::lemma_rfind(name, '.');
    assert(text::rfind(name, '.') == at) by {
        let r = text::rfind(name, '.');
        if r > at {
            assert(name[r] == ext[r - at - 1]);
            assert(ext.contains(ext[r - at - 1]));
        }
    }
    assert(name.take(at) =~= stem);
    assert(name.skip(at + 1) =~= ext);
    text_laws::law_decimal(n as nat);
    text_laws::law_zeros_count_for_nothing(text::decimal(n as nat), 3);
    text_laws::law_pad_left(text::decimal(n as nat), 3, '0');
    assert(vstd::arithmetic::power::pow(10, 3) == 1000) by {
        reveal_with_fuel(vstd::arithmetic::power::pow, 4);
    }
    text_laws::lemma_decimal_len(n as nat, 3, 1000);
}

/// Within a shot the RAW is placed first, then the processed image, then the
/// clip, and sidecars last.
pub proof fn law_files_in_order(files: Seq<FileModel>, i: int, j: int)
    requires
        0 <= i < j < files.len(),
    ensures
        ({
            let s = target::ordered_files(files);
            &&& s[i].kind == FileKind::Sidecar ==> s[j].kind == FileKind::Sidecar
            &&& s[i].kind == FileKind::Video ==> s[j].kind != FileKind::Raw && s[j].kind
                != FileKind::Jpeg
            &&& s[i].kind == FileKind::Jpeg ==> s[j].kind != FileKind::Raw
            &&& s[i].kind == s[j].kind ==> !text::precedes(
                text::ascii_lower(s[j].ext),
                text::ascii_lower(s[i].ext),
            )
            &&& s[i].kind == s[j].kind && text::ascii_lower(s[i].ext) == text::ascii_lower(
                s[j].ext,
            ) ==> !text::precedes(s[j].stem, s[i].stem)
        }),
{
    let ahead = target::by_rank(files);
    let s = target::ordered_files(files);
    assert(order::orders(files.len(), ahead)) by {
        assert forall|a: int, b: int|
            0 <= a < files.len() && 0 <= b < files.len() && #[trigger] ahead(a, b) implies !ahead(
            b,
            a,
        ) by {
            lemma_file_order(files[a], files[b], files[a]);
        }
        assert forall|a: int, b: int, c: int|
            #![trigger ahead(a, b), ahead(c, b)]
            0 <= a < files.len() && 0 <= b < files.len() && 0 <= c < files.len() && ahead(a, b)
                && !ahead(c, b) implies ahead(a, c) by {
            lemma_file_order(files[a], files[b], files[c]);
        }
    }
    order::law_ranking_ordered(files.len(), ahead, i, j);
    assert(!target::file_ahead(s[j], s[i]));
    text::lemma_precedes_total(text::ascii_lower(s[j].ext), text::ascii_lower(s[i].ext));
}

proof fn lemma_file_order(a: FileModel, b: FileModel, c: FileModel)
    ensures
        target::file_ahead(a, b) ==> !target::file_ahead(b, a),
        target::file_ahead(a, b) && !target::file_ahead(c, b) ==> target::file_ahead(a, c),
{
    let x = text::ascii_lower(a.ext);
    let y = text::ascii_lower(b.ext);
    let z = text::ascii_lower(c.ext);
    text::lemma_precedes_total(x, y);
    text::lemma_precedes_total(y, z);
    text::lemma_precedes_total(x, z);
    text::lemma_precedes_total(a.stem, b.stem);
    text::lemma_precedes_total(b.stem, c.stem);
    text::lemma_precedes_total(a.stem, c.stem);
    if text::precedes(x, y) && text::precedes(y, z) {
        text::lemma_precedes_transitive(x, y, z);
    }
    if text::precedes(a.stem, b.stem) && text::precedes(b.stem, c.stem) {
        text::lemma_precedes_transitive(a.stem, b.stem, c.stem);
    }
}

/// The files of a plan come group by group, and in a group in the order of its
/// files.
pub proof fn law_jobs(gs: Seq<GroupModel>, g: GroupModel, i: int)
    ensures
        ({
            let before = target::jobs_of(gs);
            let all = target::jobs_of(gs.push(g));
            let files = target::ordered_files(g.files);
            &&& target::jobs_of(Seq::<GroupModel>::empty()).len() == 0
            &&& all.len() == before.len() + g.files.len()
            &&& 0 <= i < before.len() ==> all[i] == before[i]
            &&& before.len() <= i < all.len() ==> all[i] == (g, files[i - before.len()])
        }),
{
    assert(gs.push(g).drop_last() =~= gs);
}

/// A name that a template makes is cleaned of what a card does not take; where
/// nothing but a placeholder is left, the file keeps its own stem.
pub proof fn law_template_name(f: FileModel, g: GroupModel, cfg: ConfigModel)
    requires
        g.use_name_template,
    ensures
        ({
            let ctx = CtxModel {
                dt: g.date,
                original: f.stem,
                ext: text::ascii_lower(f.ext),
                counter: Some(g.counter),
                make: g.make,
                model: g.model,
            };
            let made = template::safe_component(template::rendered(cfg.name_template, ctx));
            &&& made == seq!['_'] ==> target::target_name(f, g, cfg) == f.stem + seq!['.'] + f.ext
            &&& made != seq!['_'] ==> target::target_name(f, g, cfg) == made + seq!['.'] + f.ext
        }),
{
    reveal_strlit(".");
    reveal_strlit("_");
    assert("."@ =~= seq!['.']);
    assert("_"@ =~= seq!['_']);
    let ctx = CtxModel {
        dt: g.date,
        original: f.stem,
        ext: text::ascii_lower(f.ext),
        counter: Some(g.counter),
        make: g.make,
        model: g.model,
    };
    template_laws::law_safe(template::rendered(cfg.name_template, ctx));
}

/// Where every numbered name is taken, the number of the process takes the
/// place of the number and of the extension.
pub proof fn law_last_resort(
    d: Seq<char>,
    a: Seq<char>,
    e: Seq<char>,
    claimed: Set<Seq<char>>,
    disk: Disk,
    pid: u32,
)
    requires
        d.len() > 0,
        a.len() > 0,
        a[0] != '.',
        !a.contains('/') && !e.contains('/'),
        !e.contains('.'),
        ({
            let p = d.push('/') + (a + seq!['.'] + e);
            forall|n: int|
                1 <= n < target::NAMES ==> (disk.present)(#[trigger] target::numbered_path(p, n))
        }),
    ensures
        ({
            let p = d.push('/') + (a + seq!['.'] + e);
            target::free_path(p, 1, claimed, disk, pid) == paths::joined(
                paths::path_of(paths::parts(d)),
                a + seq!['_'] + text::decimal(pid as nat),
            )
        }),
{
    reveal_strlit("_");
    assert("_"@ =~= seq!['_']);
    let p = d.push('/') + (a + seq!['.'] + e);
    path_laws::lemma_dotted_name(a, e);
    path_laws::law_name_and_parent(d, a + seq!['.'] + e);
    shot_laws::law_stem_and_extension(a, e);
    lemma_all_taken(p, 1, claimed, disk, pid);
}

proof fn lemma_all_taken(p: Seq<char>, n: int, claimed: Set<Seq<char>>, disk: Disk, pid: u32)
    requires
        1 <= n <= target::NAMES,
        forall|m: int|
            n <= m < target::NAMES ==> (disk.present)(#[trigger] target::numbered_path(p, m)),
    ensures
        target::free_path(p, n, claimed, disk, pid) == target::last_resort(p, pid),
    decreases target::NAMES - n,
{
    if n < target::NAMES {
        assert((disk.present)(target::numbered_path(p, n)));
        lemma_all_taken(p, n + 1, claimed, disk, pid);
    }
}

} // verus!
