//! What dating, ordering and numbering shots keep.

use vstd::prelude::*;

use crate::cli::{DateSourceArg, OnMissingDateArg};
use crate::clock;
use crate::clock::Moment;
use crate::clock_laws;
use crate::config::ConfigModel;
use crate::order;
use crate::paths;
use crate::plan;
use crate::plan::{Gathered, GroupModel};
use crate::plan_laws;
use crate::template;
use crate::template::CtxModel;
use crate::template_laws;
use crate::text;
use crate::text_laws;
use crate::types::{DateProvenance, FileKind, FileModel, InfoModel};

verus! {

// ---------------------------------------------------------------------------
// The date of a shot
// ---------------------------------------------------------------------------

/// Whether the `i`-th file is the first primary one whose metadata holds a
/// capture time.
pub open spec fn first_embedded(
    files: Seq<FileModel>,
    infos: spec_fn(Seq<char>) -> InfoModel,
    i: int,
) -> bool {
    &&& 0 <= i < files.len()
    &&& files[i].kind != FileKind::Sidecar
    &&& infos(files[i].path).datetime is Some
    &&& forall|j: int|
        0 <= j < i && (#[trigger] files[j]).kind != FileKind::Sidecar ==> infos(
            files[j].path,
        ).datetime is None
}

/// Whether no primary file holds a capture time.
pub open spec fn none_embedded(files: Seq<FileModel>, infos: spec_fn(Seq<char>) -> InfoModel) -> bool {
    forall|j: int|
        0 <= j < files.len() && (#[trigger] files[j]).kind != FileKind::Sidecar ==> infos(
            files[j].path,
        ).datetime is None
}

/// Whether the `i`-th file is the first primary one with a modification time.
pub open spec fn first_mtime(files: Seq<FileModel>, i: int) -> bool {
    &&& 0 <= i < files.len()
    &&& files[i].kind != FileKind::Sidecar
    &&& files[i].mtime is Some
    &&& forall|j: int|
        0 <= j < i && (#[trigger] files[j]).kind != FileKind::Sidecar ==> files[j].mtime is None
}

/// Whether no primary file has a modification time.
pub open spec fn none_mtime(files: Seq<FileModel>) -> bool {
    forall|j: int|
        0 <= j < files.len() && (#[trigger] files[j]).kind != FileKind::Sidecar ==> files[j].mtime
            is None
}

proof fn lemma_gathered_keeps(
    files: Seq<FileModel>,
    k: int,
    acc: Gathered,
    infos: spec_fn(Seq<char>) -> InfoModel,
)
    requires
        0 <= k <= files.len(),
    ensures
        acc.embedded is Some ==> {
            let r = plan::gathered(files, k, acc, infos);
            r.embedded == acc.embedded && r.make == acc.make && r.model == acc.model
        },
        acc.mtime is Some ==> plan::gathered(files, k, acc, infos).mtime == acc.mtime,
    decreases files.len() - k,
{
    if k < files.len() {
        if !plan::primary(files[k]) {
            lemma_gathered_keeps(files, k + 1, acc, infos);
        } else {
            let seen = plan::with_mtime(acc, files[k]);
            if seen.embedded is Some {
                lemma_gathered_keeps(files, k + 1, seen, infos);
            } else {
                lemma_gathered_keeps(
                    files,
                    k + 1,
                    plan::with_info(seen, infos(files[k].path)),
                    infos,
                );
            }
        }
    }
}

proof fn lemma_gathered(
    files: Seq<FileModel>,
    k: int,
    acc: Gathered,
    infos: spec_fn(Seq<char>) -> InfoModel,
)
    requires
        0 <= k <= files.len(),
        acc.embedded is None,
        forall|j: int|
            0 <= j < k && (#[trigger] files[j]).kind != FileKind::Sidecar ==> infos(
                files[j].path,
            ).datetime is None,
    ensures
        forall|i: int|
            k <= i && #[trigger] first_embedded(files, infos, i) ==> plan::gathered(
                files,
                k,
                acc,
                infos,
            ).embedded == infos(files[i].path).datetime,
        none_embedded(files, infos) ==> plan::gathered(files, k, acc, infos).embedded is None,
    decreases files.len() - k,
{
    if k < files.len() {
        let seen = plan::with_mtime(acc, files[k]);
        if !plan::primary(files[k]) {
            lemma_gathered(files, k + 1, acc, infos);
        } else {
            let next = plan::with_info(seen, infos(files[k].path));
            lemma_gathered_keeps(files, k + 1, next, infos);
            if infos(files[k].path).datetime is None {
                lemma_gathered(files, k + 1, next, infos);
            } else {
                assert forall|i: int| k <= i && #[trigger] first_embedded(files, infos, i) implies i
                    == k by {
                    if i > k {
                        assert(files[k].kind != FileKind::Sidecar);
                    }
                }
            }
        }
        assert forall|i: int| k <= i && #[trigger] first_embedded(files, infos, i) implies i > k
            || plan::primary(files[k]) by {}
    }
}

proof fn lemma_mtime(
    files: Seq<FileModel>,
    k: int,
    acc: Gathered,
    infos: spec_fn(Seq<char>) -> InfoModel,
)
    requires
        0 <= k <= files.len(),
        acc.mtime is None,
        forall|j: int|
            0 <= j < k && (#[trigger] files[j]).kind != FileKind::Sidecar ==> files[j].mtime
                is None,
    ensures
        forall|i: int|
            k <= i && #[trigger] first_mtime(files, i) ==> plan::gathered(
                files,
                k,
                acc,
                infos,
            ).mtime == files[i].mtime,
        none_mtime(files) ==> plan::gathered(files, k, acc, infos).mtime is None,
    decreases files.len() - k,
{
    if k < files.len() {
        if !plan::primary(files[k]) {
            lemma_mtime(files, k + 1, acc, infos);
        } else {
            let seen = plan::with_mtime(acc, files[k]);
            let next = if seen.embedded is Some {
                seen
            } else {
                plan::with_info(seen, infos(files[k].path))
            };
            lemma_gathered_keeps(files, k + 1, next, infos);
            if files[k].mtime is None {
                lemma_mtime(files, k + 1, next, infos);
            } else {
                assert forall|i: int| k <= i && #[trigger] first_mtime(files, i) implies i == k by {
                    if i > k {
                        assert(files[k].kind != FileKind::Sidecar);
                    }
                }
            }
        }
    }
}

/// The date of a shot by its policy. With `exif` it is the capture time of the
/// first primary file that has one; with `mtime` the modification time of the
/// first primary file that has one; with `exif-then-mtime` the latter where no
/// file has a capture time. The sort key is the date itself, to the last
/// fraction of a second.
pub proof fn law_date_policy(
    g: GroupModel,
    cfg: ConfigModel,
    infos: spec_fn(Seq<char>) -> InfoModel,
    e: int,
    m: int,
)
    requires
        g.date is None,
    ensures
        ({
            let d = plan::dated(g, cfg, infos);
            let embedded = infos(g.files[e].path).datetime;
            let mtime = g.files[m].mtime;
            &&& d.date matches Some(t) ==> d.sort_key == t
            &&& d.files == g.files
            &&& d.rep_stem == g.rep_stem
            &&& first_embedded(g.files, infos, e) && cfg.date_source != DateSourceArg::Mtime ==> {
                d.date == embedded && d.provenance == DateProvenance::Embedded
            }
            &&& first_mtime(g.files, m) && (cfg.date_source == DateSourceArg::Mtime || (
            cfg.date_source == DateSourceArg::ExifThenMtime && none_embedded(g.files, infos))) ==> {
                d.date == mtime && d.provenance == DateProvenance::Mtime
            }
        }),
{
    lemma_gathered(g.files, 0, plan::nothing(), infos);
    lemma_mtime(g.files, 0, plan::nothing(), infos);
}

/// What becomes of a shot without a date, by its policy: it is left where it
/// is, goes by its modification time, or goes to the folder `NoDate` under its
/// own name.
pub proof fn law_missing_date_policy(
    g: GroupModel,
    cfg: ConfigModel,
    infos: spec_fn(Seq<char>) -> InfoModel,
    m: int,
)
    requires
        g.date is None,
        cfg.date_source == DateSourceArg::Exif,
        none_embedded(g.files, infos),
    ensures
        ({
            let d = plan::dated(g, cfg, infos);
            &&& cfg.on_missing_date == OnMissingDateArg::Skip ==> d.date is None && d.skip_no_date
            &&& cfg.on_missing_date == OnMissingDateArg::UnknownFolder ==> d.date is None
                && !d.skip_no_date && d.folder == seq!['N', 'o', 'D', 'a', 't', 'e']
                && !d.use_name_template
            &&& cfg.on_missing_date == OnMissingDateArg::Mtime && first_mtime(g.files, m) ==> d.date
                == g.files[m].mtime && d.provenance == DateProvenance::Mtime && d.skip_no_date
                == g.skip_no_date
            &&& cfg.on_missing_date == OnMissingDateArg::Mtime && none_mtime(g.files) ==> d.date
                is None && !d.skip_no_date && d.folder == seq!['N', 'o', 'D', 'a', 't', 'e']
        }),
{
    lemma_gathered(g.files, 0, plan::nothing(), infos);
    lemma_mtime(g.files, 0, plan::nothing(), infos);
    reveal_strlit("NoDate");
    assert("NoDate"@ =~= seq!['N', 'o', 'D', 'a', 't', 'e']);
}

/// The camera of a shot is that of its first primary file where that names one
/// or holds the capture time.
pub proof fn law_camera_of_shot(
    g: GroupModel,
    cfg: ConfigModel,
    infos: spec_fn(Seq<char>) -> InfoModel,
)
    requires
        g.files.len() > 0,
        g.files[0].kind != FileKind::Sidecar,
        infos(g.files[0].path).datetime is Some,
    ensures
        ({
            let i = infos(g.files[0].path);
            let d = plan::dated(g, cfg, infos);
            &&& d.make == match i.make {
                Some(s) => s,
                None => Seq::empty(),
            }
            &&& d.model == match i.model {
                Some(s) => s,
                None => Seq::empty(),
            }
        }),
{
    let acc = plan::with_info(
        plan::with_mtime(plan::nothing(), g.files[0]),
        infos(g.files[0].path),
    );
    lemma_gathered_keeps(g.files, 1, acc, infos);
    assert(plan::gathered(g.files, 0, plan::nothing(), infos) == plan::gathered(
        g.files,
        1,
        acc,
        infos,
    ));
}

// ---------------------------------------------------------------------------
// Folders
// ---------------------------------------------------------------------------

proof fn lemma_two_parts(a: Seq<char>, b: Seq<char>)
    requires
        template_laws::tidy(a),
        template_laws::tidy(b),
        !a.contains('/'),
        !b.contains('/'),
    ensures
        text::join(plan::folder_parts(text::split(a + seq!['/'] + b, '/')), "/"@) == a + seq!['/'] + b,
{
    let s = a + seq!['/'] + b;
    reveal_strlit("/");
    assert("/"@ =~= seq!['/']);
    text::lemma_find(s, '/');
    let k = text::find(s, '/');
    assert(s[a.len() as int] == '/');
    assert(s.contains('/'));
    assert(k == a.len()) by {
        if k < a.len() {
            assert(s[k] == a[k]);
            assert(a.contains(a[k]));
        }
    }
    assert(s.take(k) =~= a);
    assert(s.skip(k + 1) =~= b);
    text::lemma_find(b, '/');
    let p = text::split(s, '/');
    assert(text::split(b, '/') =~= seq![b]);
    assert(p =~= seq![a, b]);
    template_laws::law_tidy_names_stay(a);
    template_laws::law_tidy_names_stay(b);
    assert(p.drop_last() =~= seq![a]);
    assert(seq![a].drop_last() =~= Seq::<Seq<char>>::empty());
    assert(plan::folder_parts(Seq::<Seq<char>>::empty()) =~= Seq::<Seq<char>>::empty());
    assert(seq![a].last() == a);
    assert(plan::folder_parts(seq![a]) == plan::folder_parts(seq![a].drop_last()).push(
        template::safe_component(a),
    ));
    assert(plan::folder_parts(seq![a]) =~= seq![a]);
    let q = plan::folder_parts(p);
    assert(q =~= seq![a, b]);
    assert(q.drop_last() =~= seq![a]);
    assert(text::join(seq![a], "/"@) == a);
}

/// Under the default folder template a dated shot goes to the folder of its
/// year, and there to the folder that is named by its day as `2026-06-20`.
pub proof fn law_day_folder(
    cfg: ConfigModel,
    m: Moment,
    make: Seq<char>,
    model: Seq<char>,
    stem: Seq<char>,
)
    requires
        cfg.folder_template == "{YYYY}/{YYYY}-{MM}-{DD}"@,
        m.valid(),
        0 <= m.year <= 9999,
    ensures
        ({
            let f = plan::folder_name(cfg, Some(m), make, model, stem);
            &&& f.len() == 15
            &&& f[0] as int == 48 + m.year as int / 1000
            &&& f[1] as int == 48 + m.year as int / 100 % 10
            &&& f[2] as int == 48 + m.year as int / 10 % 10
            &&& f[3] as int == 48 + m.year as int % 10
            &&& f[4] == '/'
            &&& f.subrange(5, 9) == f.subrange(0, 4)
            &&& f[9] == '-'
            &&& text_laws::two_digits_of(f.subrange(10, 12), m.month as int)
            &&& f[12] == '-'
            &&& text_laws::two_digits_of(f.subrange(13, 15), m.day as int)
        }),
{
    let ctx = CtxModel {
        dt: Some(m),
        original: stem,
        ext: Seq::empty(),
        counter: None,
        make,
        model,
    };
    template_laws::law_default_folder(ctx);
    template_laws::law_date_tokens(ctx, m);
    let y = template::token_text("YYYY"@, ctx);
    let mm = template::token_text("MM"@, ctx);
    let dd = template::token_text("DD"@, ctx);
    let b = y + seq!['-'] + mm + seq!['-'] + dd;
    assert(y + seq!['/'] + y + seq!['-'] + mm + seq!['-'] + dd =~= y + seq!['/'] + b);
    assert forall|i: int| 0 <= i < y.len() implies 48 <= #[trigger] y[i] as int <= 57 by {
        if i == 0 {
        } else if i == 1 {
        } else if i == 2 {
        } else {
            assert(i == 3);
        }
    }
    assert forall|i: int| 0 <= i < b.len() implies 48 <= #[trigger] b[i] as int <= 57 || b[i]
        == '-' by {
        if i < 4 {
            assert(b[i] == y[i]);
        } else if 5 <= i < 7 {
            assert(b[i] == mm[i - 5]);
        } else if i >= 8 {
            assert(b[i] == dd[i - 8]);
        }
    }
    assert(b.last() == dd[1]);
    assert(b[0] == y[0]);
    assert(template_laws::tidy(y)) by {
        assert(y.last() == y[3]);
    }
    assert(template_laws::tidy(b));
    lemma_two_parts(y, b);
    let f = y + seq!['/'] + b;
    assert(plan::folder_name(cfg, Some(m), make, model, stem) == f);
    assert(f.subrange(5, 9) =~= y);
    assert(f.subrange(0, 4) =~= y);
    assert(f.subrange(10, 12) =~= mm);
    assert(f.subrange(13, 15) =~= dd);
}

/// A dated shot goes to the folder that the folder template names for its date.
pub proof fn law_dated_folder(g: GroupModel, cfg: ConfigModel, infos: spec_fn(Seq<char>) -> InfoModel)
    requires
        g.date is None,
    ensures
        ({
            let d = plan::dated(g, cfg, infos);
            d.date is Some ==> {
                &&& d.folder == plan::folder_name(cfg, d.date, d.make, d.model, g.rep_stem)
                &&& d.use_name_template <==> cfg.name_template != "{original}"@
            }
        }),
{
}

// ---------------------------------------------------------------------------
// Numbers
// ---------------------------------------------------------------------------

/// The shots of a run with their dates.
pub open spec fn all_dated(
    gs: Seq<GroupModel>,
    cfg: ConfigModel,
    infos: spec_fn(Seq<char>) -> InfoModel,
) -> Seq<GroupModel> {
    Seq::new(gs.len(), |i: int| plan::dated(gs[i], cfg, infos))
}

/// Shots are numbered in the order in which they were taken: of two dated shots
/// of one folder, the one that was taken earlier, be it by a fraction of a
/// second, has the smaller number.
pub proof fn law_numbered_as_taken(
    gs: Seq<GroupModel>,
    cfg: ConfigModel,
    infos: spec_fn(Seq<char>) -> InfoModel,
    stems: spec_fn(Seq<char>) -> Seq<Seq<char>>,
    i: int,
    j: int,
    a: Moment,
    b: Moment,
)
    requires
        gs.len() <= plan::MAX_GROUPS,
        forall|k: int| 0 <= k < gs.len() ==> (#[trigger] gs[k]).date is None,
        0 <= i < gs.len(),
        0 <= j < gs.len(),
        a.valid(),
        b.valid(),
        a.unix() < b.unix() || (a.unix() == b.unix() && a.nano < b.nano),
        ({
            let d = all_dated(gs, cfg, infos);
            let n = plan::numbered(
                order::arranged(d, plan::by_capture(d)),
                cfg.name_template,
                cfg.dest,
                stems,
            );
            n[i].folder == n[j].folder && n[i].date == Some(a) && n[j].date == Some(b)
        }),
    ensures
        ({
            let d = all_dated(gs, cfg, infos);
            let n = plan::numbered(
                order::arranged(d, plan::by_capture(d)),
                cfg.name_template,
                cfg.dest,
                stems,
            );
            n[i].counter < n[j].counter
        }),
{
    let d = all_dated(gs, cfg, infos);
    let ahead = plan::by_capture(d);
    let s = order::arranged(d, ahead);
    let n = plan::numbered(s, cfg.name_template, cfg.dest, stems);
    clock_laws::law_moments_in_order(a, b);
    order::lemma_ranking(d.len(), ahead);
    let r = order::ranking(d.len(), ahead);
    assert(0 <= r[i] < d.len() && 0 <= r[j] < d.len());
    law_date_policy(gs[r[i]], cfg, infos, 0, 0);
    law_date_policy(gs[r[j]], cfg, infos, 0, 0);
    assert(s[i] == d[r[i]] && s[j] == d[r[j]]);
    assert(n[i].sort_key == a && n[j].sort_key == b);
    if j < i {
        plan_laws::lemma_by_capture_orders(d);
        order::law_ranking_ordered(d.len(), ahead, j, i);
        assert(!plan::group_ahead(s[i], s[j]));
        clock::law_moment_order(a, b, a);
    } else if i == j {
        clock::law_moment_order(a, b, a);
    } else {
        plan_laws::law_numbers_count_up(d, cfg.name_template, cfg.dest, stems, i, j);
    }
}

// ---------------------------------------------------------------------------
// The camera and the folder of a shot
// ---------------------------------------------------------------------------

/// Whether the metadata of the first files up to the `i`-th are looked at:
/// none of the primary files before it has a capture time.
pub open spec fn looked_at(
    files: Seq<FileModel>,
    infos: spec_fn(Seq<char>) -> InfoModel,
    i: int,
) -> bool {
    &&& 0 <= i < files.len()
    &&& files[i].kind != FileKind::Sidecar
    &&& forall|j: int|
        0 <= j < i && (#[trigger] files[j]).kind != FileKind::Sidecar ==> infos(
            files[j].path,
        ).datetime is None
}

/// Whether a name is told and not empty.
pub open spec fn told(s: Option<Seq<char>>) -> bool {
    s is Some && s->0.len() > 0
}

proof fn lemma_camera(
    files: Seq<FileModel>,
    k: int,
    acc: Gathered,
    infos: spec_fn(Seq<char>) -> InfoModel,
    i: int,
)
    requires
        0 <= k <= i,
        acc.embedded is None,
        looked_at(files, infos, i),
    ensures
        acc.make.len() == 0 && told(infos(files[i].path).make) && (forall|j: int|
            k <= j < i && (#[trigger] files[j]).kind != FileKind::Sidecar ==> !told(
                infos(files[j].path).make,
            )) ==> plan::gathered(files, k, acc, infos).make == infos(files[i].path).make->0,
        acc.model.len() == 0 && told(infos(files[i].path).model) && (forall|j: int|
            k <= j < i && (#[trigger] files[j]).kind != FileKind::Sidecar ==> !told(
                infos(files[j].path).model,
            )) ==> plan::gathered(files, k, acc, infos).model == infos(files[i].path).model->0,
    decreases i - k,
{
    if !plan::primary(files[k]) {
        lemma_camera(files, k + 1, acc, infos, i);
    } else {
        let seen = plan::with_mtime(acc, files[k]);
        let next = plan::with_info(seen, infos(files[k].path));
        if k < i {
            assert(files[k].kind != FileKind::Sidecar);
            lemma_camera(files, k + 1, next, infos, i);
        } else {
            lemma_camera_kept(files, k + 1, next, infos);
        }
    }
}

/// A name that is known is not replaced.
proof fn lemma_camera_kept(
    files: Seq<FileModel>,
    k: int,
    acc: Gathered,
    infos: spec_fn(Seq<char>) -> InfoModel,
)
    requires
        0 <= k,
    ensures
        acc.make.len() > 0 ==> plan::gathered(files, k, acc, infos).make == acc.make,
        acc.model.len() > 0 ==> plan::gathered(files, k, acc, infos).model == acc.model,
    decreases files.len() - k,
{
    if k < files.len() {
        if !plan::primary(files[k]) {
            lemma_camera_kept(files, k + 1, acc, infos);
        } else {
            let seen = plan::with_mtime(acc, files[k]);
            if seen.embedded is Some {
                lemma_camera_kept(files, k + 1, seen, infos);
            } else {
                lemma_camera_kept(
                    files,
                    k + 1,
                    plan::with_info(seen, infos(files[k].path)),
                    infos,
                );
            }
        }
    }
}

/// The camera of a shot is the first one that the metadata tell of, make and
/// model each for itself, in the files up to the first that has a capture time.
pub proof fn law_camera_is_the_first_told(
    g: GroupModel,
    cfg: ConfigModel,
    infos: spec_fn(Seq<char>) -> InfoModel,
    i: int,
)
    requires
        looked_at(g.files, infos, i),
    ensures
        told(infos(g.files[i].path).make) && (forall|j: int|
            0 <= j < i && (#[trigger] g.files[j]).kind != FileKind::Sidecar ==> !told(
                infos(g.files[j].path).make,
            )) ==> plan::dated(g, cfg, infos).make == infos(g.files[i].path).make->0,
        told(infos(g.files[i].path).model) && (forall|j: int|
            0 <= j < i && (#[trigger] g.files[j]).kind != FileKind::Sidecar ==> !told(
                infos(g.files[j].path).model,
            )) ==> plan::dated(g, cfg, infos).model == infos(g.files[i].path).model->0,
{
    lemma_camera(g.files, 0, plan::nothing(), infos, i);
}

/// A folder template without tokens: what stands between slashes is made a
/// name that is safe on a card, and empty pieces are left out.
pub proof fn law_plain_folder(
    cfg: ConfigModel,
    a: Seq<char>,
    b: Seq<char>,
    date: Option<Moment>,
    make: Seq<char>,
    model: Seq<char>,
    stem: Seq<char>,
)
    requires
        !a.contains('/') && !a.contains('{'),
        !b.contains('/') && !b.contains('{'),
        a.len() > 0,
        b.len() > 0,
    ensures
        cfg.folder_template == a ==> plan::folder_name(cfg, date, make, model, stem)
            == template::safe_component(a),
        cfg.folder_template == a + seq!['/'] + b ==> plan::folder_name(
            cfg,
            date,
            make,
            model,
            stem,
        ) == template::safe_component(a) + seq!['/'] + template::safe_component(b),
        cfg.folder_template == seq!['/'] + b ==> plan::folder_name(cfg, date, make, model, stem)
            == template::safe_component(b),
{
    reveal_strlit("/");
    assert("/"@ =~= seq!['/']);
    let ctx = CtxModel {
        dt: date,
        original: stem,
        ext: Seq::empty(),
        counter: None,
        make,
        model,
    };
    let none = Seq::<Seq<char>>::empty();
    let two = a + seq!['/'] + b;
    let one = seq!['/'] + b;
    assert(!two.contains('{')) by {
        assert forall|i: int| 0 <= i < two.len() implies two[i] != '{' by {
            if i < a.len() {
                assert(a.contains(two[i]));
            } else if i > a.len() {
                assert(two[i] == b[i - a.len() - 1]);
                assert(b.contains(two[i]));
            }
        }
    }
    assert(!one.contains('{')) by {
        assert forall|i: int| 0 <= i < one.len() implies one[i] != '{' by {
            if i > 0 {
                assert(one[i] == b[i - 1]);
                assert(b.contains(one[i]));
            }
        }
    }
    template::law_plain_template(a, ctx);
    template::law_plain_template(two, ctx);
    template::law_plain_template(one, ctx);
    text::lemma_find(a, '/');
    assert(text::split(a, '/') =~= seq![a]);
    paths::lemma_split_push(a, b);
    assert(a.push('/') + b =~= two);
    let empty = Seq::<char>::empty();
    text::lemma_find(empty, '/');
    assert(text::split(empty, '/') =~= seq![empty]);
    paths::lemma_split_push(empty, b);
    assert(empty.push('/') + b =~= one);
    let x = template::safe_component(a);
    let y = template::safe_component(b);
    assert(seq![a].drop_last() =~= none);
    assert(seq![empty].drop_last() =~= none);
    assert(seq![a].push(b).drop_last() =~= seq![a]);
    assert(seq![empty].push(b).drop_last() =~= seq![empty]);
    assert(plan::folder_parts(none) =~= none);
    assert(plan::folder_parts(seq![a]) =~= seq![x]);
    assert(plan::folder_parts(seq![empty]) =~= none);
    assert(plan::folder_parts(seq![a].push(b)) =~= seq![x].push(y));
    assert(plan::folder_parts(seq![empty].push(b)) =~= seq![y]);
    text_laws::law_joined_texts(seq![x], y, "/"@);
    text_laws::law_joined_texts(none, x, "/"@);
    text_laws::law_joined_texts(none, y, "/"@);
}

} // verus!
