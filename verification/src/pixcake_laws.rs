//! What is read out of a PixCake catalogue: which pictures were kept and when
//! they were taken, and which project a name means.

use vstd::prelude::*;

use crate::order;
use crate::path_laws;
use crate::paths;
use crate::paths::Part;
use crate::pixcake;
use crate::pixcake::{LogRow, ScanHit, Sightings, ThumbRow};
use crate::text;
use crate::types;

verus! {

// ---------------------------------------------------------------------------
// Lists with one entry for each key
// ---------------------------------------------------------------------------

/// Whether a relation is a strict total order.
spec fn total<K>(ahead: spec_fn(K, K) -> bool) -> bool {
    &&& forall|a: K, b: K| #[trigger] ahead(a, b) ==> !ahead(b, a)
    &&& forall|a: K, b: K, c: K| #[trigger] ahead(a, b) && #[trigger] ahead(b, c) ==> ahead(a, c)
    &&& forall|a: K, b: K| #![trigger ahead(a, b)] ahead(a, b) || ahead(b, a) || a == b
}

/// Whether the keys of a list rise.
pub open spec fn rises<K>(list: Seq<(K, Option<i64>)>, ahead: spec_fn(K, K) -> bool) -> bool {
    forall|i: int, j: int|
        0 <= i < j < list.len() ==> ahead((#[trigger] list[i]).0, (#[trigger] list[j]).0)
}

/// Whether an entry stands for what was seen of its key: the time that was just
/// seen, or the newer of that and the one that stood there.
spec fn updated<K>(
    x: (K, Option<i64>),
    list: Seq<(K, Option<i64>)>,
    k: K,
    t: Option<i64>,
) -> bool {
    if x.0 == k {
        ||| x.1 == t && forall|j: int| 0 <= j < list.len() ==> (#[trigger] list[j]).0 != k
        ||| exists|j: int|
            0 <= j < list.len() && (#[trigger] list[j]).0 == k && x.1 == pixcake::newest(
                list[j].1,
                t,
            )
    } else {
        list.contains(x)
    }
}

proof fn lemma_seen<K>(
    list: Seq<(K, Option<i64>)>,
    k: K,
    t: Option<i64>,
    ahead: spec_fn(K, K) -> bool,
)
    requires
        total(ahead),
        rises(list, ahead),
    ensures
        rises(pixcake::seen(list, k, t, ahead), ahead),
        forall|i: int|
            0 <= i < pixcake::seen(list, k, t, ahead).len() ==> updated(
                #[trigger] pixcake::seen(list, k, t, ahead)[i],
                list,
                k,
                t,
            ),
    decreases list.len(),
{
    let out = pixcake::seen(list, k, t, ahead);
    if list.len() == 0 {
        assert(out =~= seq![(k, t)]);
    } else if ahead(k, list[0].0) {
        assert(out =~= seq![(k, t)] + list);
        assert forall|j: int| 0 <= j < list.len() implies (#[trigger] list[j]).0 != k && ahead(
            k,
            list[j].0,
        ) by {
            if j > 0 {
                assert(ahead(list[0].0, list[j].0));
            }
        }
        assert forall|i: int| 0 <= i < out.len() implies updated(
            #[trigger] out[i],
            list,
            k,
            t,
        ) by {
            if i > 0 {
                assert(out[i] == list[i - 1]);
            }
        }
        assert forall|i: int, j: int| 0 <= i < j < out.len() implies ahead(
            (#[trigger] out[i]).0,
            (#[trigger] out[j]).0,
        ) by {
            assert(out[j] == list[j - 1]);
            if i > 0 {
                assert(out[i] == list[i - 1]);
            }
        }
    } else if list[0].0 == k {
        assert(out =~= seq![(k, pixcake::newest(list[0].1, t))] + list.skip(1));
        assert forall|i: int| 0 <= i < out.len() implies updated(
            #[trigger] out[i],
            list,
            k,
            t,
        ) by {
            if i > 0 {
                assert(out[i] == list[i]);
                assert(ahead(list[0].0, list[i].0));
            } else {
                assert(list[0].0 == k);
            }
        }
        assert forall|i: int, j: int| 0 <= i < j < out.len() implies ahead(
            (#[trigger] out[i]).0,
            (#[trigger] out[j]).0,
        ) by {
            assert(out[j] == list[j]);
            assert(ahead(list[i].0, list[j].0));
        }
    } else {
        let rest = list.skip(1);
        let more = pixcake::seen(rest, k, t, ahead);
        assert forall|i: int, j: int| 0 <= i < j < rest.len() implies ahead(
            (#[trigger] rest[i]).0,
            (#[trigger] rest[j]).0,
        ) by {
            assert(rest[i] == list[i + 1] && rest[j] == list[j + 1]);
        }
        lemma_seen(rest, k, t, ahead);
        assert(out =~= seq![list[0]] + more);
        assert(ahead(list[0].0, k));
        assert forall|i: int| 0 <= i < more.len() implies ahead(
            list[0].0,
            (#[trigger] more[i]).0,
        ) && updated(more[i], list, k, t) by {
            assert(updated(more[i], rest, k, t));
            if more[i].0 == k {
                if exists|j: int|
                    0 <= j < rest.len() && (#[trigger] rest[j]).0 == k && more[i].1
                        == pixcake::newest(rest[j].1, t) {
                    let j = choose|j: int|
                        0 <= j < rest.len() && (#[trigger] rest[j]).0 == k && more[i].1
                            == pixcake::newest(rest[j].1, t);
                    assert(list[j + 1].0 == k);
                } else {
                    assert forall|j: int| 0 <= j < list.len() implies (#[trigger] list[j]).0
                        != k by {
                        if j > 0 {
                            assert(rest[j - 1].0 != k);
                        }
                    }
                }
            } else {
                let j = choose|j: int| 0 <= j < rest.len() && rest[j] == more[i];
                assert(list[j + 1] == more[i]);
                assert(ahead(list[0].0, list[j + 1].0));
            }
        }
        assert forall|i: int| 0 <= i < out.len() implies updated(
            #[trigger] out[i],
            list,
            k,
            t,
        ) by {
            if i > 0 {
                assert(out[i] == more[i - 1]);
            } else {
                assert(list[0] == out[0]);
            }
        }
        assert forall|i: int, j: int| 0 <= i < j < out.len() implies ahead(
            (#[trigger] out[i]).0,
            (#[trigger] out[j]).0,
        ) by {
            assert(out[j] == more[j - 1]);
            if i > 0 {
                assert(out[i] == more[i - 1]);
            }
        }
    }
}

proof fn lemma_by_text()
    ensures
        total(pixcake::by_text()),
{
    let f = pixcake::by_text();
    assert forall|a: Seq<char>, b: Seq<char>| #[trigger] f(a, b) implies !f(b, a) by {
        text::lemma_precedes_total(a, b);
    }
    assert forall|a: Seq<char>, b: Seq<char>, c: Seq<char>| #[trigger]
        f(a, b) && #[trigger] f(b, c) implies f(a, c) by {
        text::lemma_precedes_transitive(a, b, c);
    }
    assert forall|a: Seq<char>, b: Seq<char>| #![trigger f(a, b)] f(a, b) || f(b, a) || a == b by {
        text::lemma_precedes_total(a, b);
    }
}

// ---------------------------------------------------------------------------
// Kept pictures
// ---------------------------------------------------------------------------

/// A picture is kept where its row is not in the recycle bin, is valid and
/// names a path.
pub proof fn law_kept_row(r: ThumbRow)
    ensures
        pixcake::is_kept(r) <==> {
            &&& r.in_recycle_bin == Some(0i64)
            &&& r.is_valid == Some(1i64)
            &&& r.path is Some
            &&& r.path->0@.len() > 0
        },
{
}

/// Whether a time is the newest that the kept rows give for a path.
pub open spec fn newest_time(rows: Seq<ThumbRow>, p: Seq<char>, t: Option<i64>) -> bool {
    &&& t matches Some(x) ==> exists|j: int|
        0 <= j < rows.len() && pixcake::is_kept(#[trigger] rows[j]) && rows[j].path->0@ == p
            && rows[j].capture_time == Some(x)
    &&& forall|j: int|
        0 <= j < rows.len() && pixcake::is_kept(#[trigger] rows[j]) && rows[j].path->0@ == p
            && rows[j].capture_time is Some ==> t is Some && rows[j].capture_time->0 <= t->0
}

/// The kept pictures come one for each path, in the order of the paths, each
/// with the newest capture time that its rows give.
pub proof fn law_kept_pictures(rows: Seq<ThumbRow>)
    ensures
        forall|i: int, j: int|
            0 <= i < j < pixcake::kept_paths(rows).len() ==> text::precedes(
                (#[trigger] pixcake::kept_paths(rows)[i]).0,
                (#[trigger] pixcake::kept_paths(rows)[j]).0,
            ),
        forall|i: int|
            0 <= i < pixcake::kept_paths(rows).len() ==> newest_time(
                rows,
                (#[trigger] pixcake::kept_paths(rows)[i]).0,
                pixcake::kept_paths(rows)[i].1,
            ),
    decreases rows.len(),
{
    if rows.len() > 0 {
        let t = rows.drop_last();
        let r = rows.last();
        law_kept_pictures(t);
        let before = pixcake::kept_paths(t);
        let now = pixcake::kept_paths(rows);
        lemma_by_text();
        if pixcake::is_kept(r) {
            let k = r.path->0@;
            lemma_seen(before, k, r.capture_time, pixcake::by_text());
            assert forall|i: int| 0 <= i < now.len() implies newest_time(
                rows,
                (#[trigger] now[i]).0,
                now[i].1,
            ) by {
                assert(updated(now[i], before, k, r.capture_time));
                if now[i].0 == k {
                    if exists|j: int|
                        0 <= j < before.len() && (#[trigger] before[j]).0 == k && now[i].1
                            == pixcake::newest(before[j].1, r.capture_time) {
                        let j = choose|j: int|
                            0 <= j < before.len() && (#[trigger] before[j]).0 == k && now[i].1
                                == pixcake::newest(before[j].1, r.capture_time);
                        lemma_newest_kept(rows, k, before[j].1);
                    } else {
                        pixcake::law_kept_by_flag(t, k);
                        assert forall|j: int|
                            0 <= j < rows.len() && pixcake::is_kept(#[trigger] rows[j])
                                && rows[j].path->0@ == k implies j == rows.len() - 1 by {
                            if j < t.len() {
                                assert(t[j] == rows[j]);
                            }
                        }
                        assert(rows[rows.len() - 1] == r);
                    }
                } else {
                    let j = choose|j: int| 0 <= j < before.len() && before[j] == now[i];
                    assert(newest_time(t, before[j].0, before[j].1));
                    lemma_newest_same(rows, now[i].0, now[i].1);
                }
            }
        } else {
            assert forall|i: int| 0 <= i < now.len() implies newest_time(
                rows,
                (#[trigger] now[i]).0,
                now[i].1,
            ) by {
                assert(newest_time(t, before[i].0, before[i].1));
                lemma_newest_same(rows, now[i].0, now[i].1);
            }
        }
    }
}

proof fn lemma_newest_kept(rows: Seq<ThumbRow>, p: Seq<char>, t: Option<i64>)
    requires
        rows.len() > 0,
        newest_time(rows.drop_last(), p, t),
        pixcake::is_kept(rows.last()),
        rows.last().path->0@ == p,
    ensures
        newest_time(rows, p, pixcake::newest(t, rows.last().capture_time)),
{
    let d = rows.drop_last();
    let n = pixcake::newest(t, rows.last().capture_time);
    assert forall|j: int|
        0 <= j < rows.len() && pixcake::is_kept(#[trigger] rows[j]) && rows[j].path->0@ == p
            && rows[j].capture_time is Some implies n is Some && rows[j].capture_time->0
        <= n->0 by {
        if j < d.len() {
            assert(d[j] == rows[j]);
        }
    }
    if n is Some {
        if t == n {
            let j = choose|j: int|
                0 <= j < d.len() && pixcake::is_kept(#[trigger] d[j]) && d[j].path->0@ == p
                    && d[j].capture_time == Some(t->0);
            assert(rows[j] == d[j]);
        } else {
            assert(rows[rows.len() - 1].capture_time == n);
        }
    }
}

proof fn lemma_newest_same(rows: Seq<ThumbRow>, p: Seq<char>, t: Option<i64>)
    requires
        rows.len() > 0,
        newest_time(rows.drop_last(), p, t),
        !pixcake::is_kept(rows.last()) || rows.last().path->0@ != p,
    ensures
        newest_time(rows, p, t),
{
    let d = rows.drop_last();
    assert forall|j: int|
        0 <= j < rows.len() && pixcake::is_kept(#[trigger] rows[j]) && rows[j].path->0@ == p
            && rows[j].capture_time is Some implies t is Some && rows[j].capture_time->0
        <= t->0 by {
        if j < d.len() {
            assert(d[j] == rows[j]);
        }
    }
    if t is Some {
        let j = choose|j: int|
            0 <= j < d.len() && pixcake::is_kept(#[trigger] d[j]) && d[j].path->0@ == p
                && d[j].capture_time == Some(t->0);
        assert(rows[j] == d[j]);
    }
}

/// A capture time counts only where it lies after the epoch.
pub proof fn law_real_time(ms: i64)
    ensures
        ms > 0 ==> pixcake::real_time(Some(ms)) == Some(ms),
        ms <= 0 ==> pixcake::real_time(Some(ms)) is None,
        pixcake::real_time(None) is None,
{
}

// ---------------------------------------------------------------------------
// Projects
// ---------------------------------------------------------------------------

/// Entries are listed newest first: none has a time that is later than one
/// listed before it, one without a time comes after all that have one, and all
/// are listed.
pub proof fn law_newest_first<K>(list: Seq<(K, Option<i64>)>, i: int, j: int)
    requires
        0 <= i < j < list.len(),
    ensures
        pixcake::keys_by_time(list).len() == list.len(),
        exists|a: int, b: int|
            0 <= a < list.len() && 0 <= b < list.len() && a != b && pixcake::keys_by_time(list)[i]
                == (#[trigger] list[a]).0 && pixcake::keys_by_time(list)[j] == (
            #[trigger] list[b]).0 && (list[b].1 matches Some(y) ==> (list[a].1 matches Some(x) && x
                >= y)),
{
    let f = pixcake::newest_first(pixcake::times_of(list));
    let r = order::ranking(list.len(), f);
    order::lemma_ranking(list.len(), f);
    assert(order::orders(list.len(), f));
    order::law_ranking_ordered(list.len(), f, i, j);
    let a = r[i];
    let b = r[j];
    assert(pixcake::keys_by_time(list)[i] == list[a].0);
    assert(pixcake::keys_by_time(list)[j] == list[b].0);
    assert(!f(b, a));
}

/// Every entry of a list is listed.
pub proof fn law_newest_first_all<K>(list: Seq<(K, Option<i64>)>, a: int)
    requires
        0 <= a < list.len(),
    ensures
        pixcake::keys_by_time(list).contains(list[a].0),
{
    let f = pixcake::newest_first(pixcake::times_of(list));
    let r = order::ranking(list.len(), f);
    order::lemma_ranking(list.len(), f);
    assert(r.contains(a));
    let i = choose|i: int| 0 <= i < r.len() && r[i] == a;
    assert(pixcake::keys_by_time(list)[i] == list[a].0);
}

/// The ids of a project name are those, and only those, of the rows that bear
/// the name.
pub proof fn law_ids_of_name(rows: Seq<LogRow>, name: Seq<char>, id: (i64, i64))
    ensures
        (exists|i: int|
            0 <= i < pixcake::ids_of(rows, name).len() && (#[trigger] pixcake::ids_of(
                rows,
                name,
            )[i]).0 == id) <==> exists|j: int|
            0 <= j < rows.len() && (#[trigger] rows[j]).name is Some && rows[j].name->0@ == name && (
            rows[j].user,
            rows[j].project,
        ) == id,
    decreases rows.len(),
{
    if rows.len() > 0 {
        let t = rows.drop_last();
        let r = rows.last();
        law_ids_of_name(t, name, id);
        let before = pixcake::ids_of(t, name);
        let now = pixcake::ids_of(rows, name);
        if types::opt_view(r.name) == Some(name) {
            pixcake::lemma_seen_keys(before, (r.user, r.project), r.time, pixcake::by_id(), id);
            assert(rows[rows.len() - 1] == r);
        }
        if exists|j: int|
            0 <= j < rows.len() && (#[trigger] rows[j]).name is Some && rows[j].name->0@ == name && (
            rows[j].user,
            rows[j].project,
        ) == id {
            let j = choose|j: int|
                0 <= j < rows.len() && (#[trigger] rows[j]).name is Some && rows[j].name->0@ == name
                    && (rows[j].user, rows[j].project) == id;
            if j < t.len() {
                assert(t[j] == rows[j]);
            }
        }
        if exists|j: int|
            0 <= j < t.len() && (#[trigger] t[j]).name is Some && t[j].name->0@ == name && (
            t[j].user,
            t[j].project,
        ) == id {
            let j = choose|j: int|
                0 <= j < t.len() && (#[trigger] t[j]).name is Some && t[j].name->0@ == name && (
                t[j].user,
                t[j].project,
            ) == id;
            assert(rows[j] == t[j]);
        }
    }
}

/// The names that are suggested are those, and only those, that some row bears,
/// the empty one left out; thirty at most, from the newest on.
pub proof fn law_known_names(rows: Seq<LogRow>, name: Seq<char>)
    ensures
        (exists|i: int|
            0 <= i < pixcake::names_of(rows).len() && (#[trigger] pixcake::names_of(rows)[i]).0
                == name) <==> name.len() > 0 && exists|j: int|
            0 <= j < rows.len() && (#[trigger] rows[j]).name is Some && rows[j].name->0@ == name,
    decreases rows.len(),
{
    if rows.len() > 0 {
        let t = rows.drop_last();
        let r = rows.last();
        law_known_names(t, name);
        let before = pixcake::names_of(t);
        let now = pixcake::names_of(rows);
        if r.name is Some && r.name->0@.len() > 0 {
            pixcake::lemma_seen_keys(before, r.name->0@, r.time, pixcake::by_text(), name);
            assert(now == pixcake::seen(before, r.name->0@, r.time, pixcake::by_text()));
        } else {
            assert(now == before);
        }
        assert(rows[rows.len() - 1] == r);
        if exists|j: int|
            0 <= j < rows.len() && (#[trigger] rows[j]).name is Some && rows[j].name->0@ == name {
            let j = choose|j: int|
                0 <= j < rows.len() && (#[trigger] rows[j]).name is Some && rows[j].name->0@
                    == name;
            if j < t.len() {
                assert(t[j] == rows[j]);
            }
        }
        if exists|j: int|
            0 <= j < t.len() && (#[trigger] t[j]).name is Some && t[j].name->0@ == name {
            let j = choose|j: int|
                0 <= j < t.len() && (#[trigger] t[j]).name is Some && t[j].name->0@ == name;
            assert(rows[j] == t[j]);
        }
    }
}

/// Of many names the first thirty are suggested.
pub proof fn law_first_thirty<T>(s: Seq<T>, i: int)
    ensures
        s.len() <= 30 ==> pixcake::first_thirty(s).len() == s.len(),
        s.len() > 30 ==> pixcake::first_thirty(s).len() == 30,
        0 <= i < pixcake::first_thirty(s).len() ==> pixcake::first_thirty(s)[i] == s[i],
{
}

/// The database of a project, below the data directory.
pub proof fn law_project_db(d: Seq<char>, user: i64, project: i64)
    requires
        d.len() > 0,
        d.last() != '/',
        user >= 0,
        project >= 0,
    ensures
        pixcake::db_path(d, (user, project)) == d + "/db/user_"@ + text::decimal(user as nat)
            + "/project_"@ + text::decimal(project as nat) + "/project.db"@,
{
    reveal_strlit("db");
    reveal_strlit("user_");
    reveal_strlit("project_");
    reveal_strlit("project.db");
    reveal_strlit("/db/user_");
    reveal_strlit("/project_");
    reveal_strlit("/project.db");
    let u = text::decimal(user as nat);
    let p = text::decimal(project as nat);
    text::lemma_decimal_digits(user as nat);
    text::lemma_decimal_digits(project as nat);
    assert(text::signed_decimal(user as int, 0) == u);
    assert(text::signed_decimal(project as int, 0) == p);
    let a = d.push('/') + "db"@;
    assert(paths::joined(d, "db"@) == a);
    assert(a.last() == 'b');
    let x = "user_"@ + u;
    assert(x[0] == 'u');
    let b = a.push('/') + x;
    assert(paths::joined(a, x) == b);
    assert(b.last() == u.last());
    let y = "project_"@ + p;
    assert(y[0] == 'p');
    let c = b.push('/') + y;
    assert(paths::joined(b, y) == c);
    assert(c.last() == p.last());
    assert(paths::joined(c, "project.db"@) == c.push('/') + "project.db"@);
    assert(c.push('/') + "project.db"@ =~= d + "/db/user_"@ + u + "/project_"@ + p
        + "/project.db"@);
}

/// A file beside a database bears its name and a suffix, in the same directory.
pub proof fn law_beside_db(d: Seq<char>, n: Seq<char>, suffix: Seq<char>)
    requires
        d.len() > 0,
        paths::proper_name(n),
    ensures
        pixcake::sidecar_path(d.push('/') + n, suffix) == paths::joined(
            paths::path_of(paths::parts(d)),
            n + suffix,
        ),
{
    path_laws::law_name_and_parent(d, n);
    let c: Seq<Part> = paths::parts(d.push('/') + n);
    assert(Some(c.drop_last()) == Some(paths::parts(d)));
}

/// Of the ids of a name the first that has a database is taken.
pub proof fn law_first_with_database(live: Seq<bool>)
    ensures
        match pixcake::first_there(live) {
            Some(i) => 0 <= i < live.len() && live[i] && forall|j: int|
                0 <= j < i ==> !#[trigger] live[j],
            None => forall|j: int| 0 <= j < live.len() ==> !#[trigger] live[j],
        },
    decreases live.len(),
{
    if live.len() > 0 && !live[0] {
        let t = live.skip(1);
        law_first_with_database(t);
        assert forall|j: int| 1 <= j < live.len() implies #[trigger] live[j] == t[j - 1] by {}
    }
}

/// Of the databases found by looking, the one changed last is taken, and the
/// first of those changed last.
pub proof fn law_changed_last(hits: Seq<ScanHit>)
    requires
        hits.len() > 0,
    ensures
        ({
            let k = pixcake::last_changed(hits);
            &&& 0 <= k < hits.len()
            &&& forall|j: int|
                0 <= j < hits.len() ==> (#[trigger] hits[j]).secs < hits[k].secs || (hits[j].secs
                    == hits[k].secs && hits[j].nanos <= hits[k].nanos)
            &&& forall|j: int|
                0 <= j < k ==> (#[trigger] hits[j]).secs < hits[k].secs || (hits[j].secs
                    == hits[k].secs && hits[j].nanos < hits[k].nanos)
        }),
    decreases hits.len(),
{
    if hits.len() > 1 {
        let t = hits.drop_last();
        law_changed_last(t);
        assert forall|j: int| 0 <= j < t.len() implies #[trigger] hits[j] == t[j] by {}
    }
}

/// Where a project is looked for: the catalogue first, then the directories;
/// it is an error where the data directory is missing or nothing was found.
pub proof fn law_project_found(data_dir: Seq<char>, name: Seq<char>, s: Sightings)
    ensures
        ({
            let r = pixcake::located(data_dir, name, s);
            &&& r is Ok <==> s.data_dir_exists && (s.via_base is Some || s.via_scan is Some)
            &&& r matches Ok(db) ==> db == if s.via_base is Some {
                s.via_base->0@
            } else {
                s.via_scan->0@
            }
        }),
{
}

/// Whether a row bears a name.
pub open spec fn has_name(r: LogRow, name: Seq<char>) -> bool {
    r.name is Some && r.name->0@ == name
}

/// Whether a row gives an id to a name.
pub open spec fn has_id(r: LogRow, name: Seq<char>, id: (i64, i64)) -> bool {
    has_name(r, name) && (r.user, r.project) == id
}

/// Whether a time is the newest that the rows of an id give.
pub open spec fn newest_of_id(rows: Seq<LogRow>, name: Seq<char>, id: (i64, i64), t: Option<i64>) -> bool {
    &&& t matches Some(x) ==> exists|j: int|
        0 <= j < rows.len() && has_id(#[trigger] rows[j], name, id) && rows[j].time == Some(x)
    &&& forall|j: int|
        0 <= j < rows.len() && has_id(#[trigger] rows[j], name, id) && rows[j].time is Some ==> t
            is Some && rows[j].time->0 <= t->0
}

proof fn lemma_newest_of_id_more(rows: Seq<LogRow>, name: Seq<char>, id: (i64, i64), t: Option<i64>)
    requires
        rows.len() > 0,
        newest_of_id(rows.drop_last(), name, id, t),
    ensures
        has_id(rows.last(), name, id) ==> newest_of_id(
            rows,
            name, id,
            pixcake::newest(t, rows.last().time),
        ),
        !has_id(rows.last(), name, id) ==> newest_of_id(rows, name, id, t),
{
    let d = rows.drop_last();
    let hit = has_id(rows.last(), name, id);
    let n = if hit {
        pixcake::newest(t, rows.last().time)
    } else {
        t
    };
    assert forall|j: int|
        0 <= j < rows.len() && has_id(#[trigger] rows[j], name, id) && rows[j].time is Some implies n
        is Some && rows[j].time->0 <= n->0 by {
        if j < d.len() {
            assert(d[j] == rows[j]);
        }
    }
    if n is Some {
        if t == n {
            let j = choose|j: int|
                0 <= j < d.len() && has_id(#[trigger] d[j], name, id) && d[j].time == Some(t->0);
            assert(rows[j] == d[j]);
        } else {
            assert(rows[rows.len() - 1].time == n);
        }
    }
}

/// Whether a time is the newest that the rows of a name give.
pub open spec fn newest_of_name(rows: Seq<LogRow>, name: Seq<char>, t: Option<i64>) -> bool {
    &&& t matches Some(x) ==> exists|j: int|
        0 <= j < rows.len() && has_name(#[trigger] rows[j], name) && rows[j].time == Some(x)
    &&& forall|j: int|
        0 <= j < rows.len() && has_name(#[trigger] rows[j], name) && rows[j].time is Some ==> t
            is Some && rows[j].time->0 <= t->0
}

proof fn lemma_newest_of_name_more(rows: Seq<LogRow>, name: Seq<char>, t: Option<i64>)
    requires
        rows.len() > 0,
        newest_of_name(rows.drop_last(), name, t),
    ensures
        has_name(rows.last(), name) ==> newest_of_name(
            rows,
            name,
            pixcake::newest(t, rows.last().time),
        ),
        !has_name(rows.last(), name) ==> newest_of_name(rows, name, t),
{
    let d = rows.drop_last();
    let hit = has_name(rows.last(), name);
    let n = if hit {
        pixcake::newest(t, rows.last().time)
    } else {
        t
    };
    assert forall|j: int|
        0 <= j < rows.len() && has_name(#[trigger] rows[j], name) && rows[j].time is Some implies n
        is Some && rows[j].time->0 <= n->0 by {
        if j < d.len() {
            assert(d[j] == rows[j]);
        }
    }
    if n is Some {
        if t == n {
            let j = choose|j: int|
                0 <= j < d.len() && has_name(#[trigger] d[j], name) && d[j].time == Some(t->0);
            assert(rows[j] == d[j]);
        } else {
            assert(rows[rows.len() - 1].time == n);
        }
    }
}

proof fn lemma_by_id()
    ensures
        total(pixcake::by_id()),
{
}

/// The ids of a name come one by one, in order, each with the newest time that
/// its rows give.
pub proof fn law_id_times(rows: Seq<LogRow>, name: Seq<char>)
    ensures
        rises(pixcake::ids_of(rows, name), pixcake::by_id()),
        forall|i: int|
            0 <= i < pixcake::ids_of(rows, name).len() ==> newest_of_id(
                rows,
                name,
                (#[trigger] pixcake::ids_of(rows, name)[i]).0,
                pixcake::ids_of(rows, name)[i].1,
            ),
    decreases rows.len(),
{
    if rows.len() > 0 {
        let t = rows.drop_last();
        let r = rows.last();
        law_id_times(t, name);
        let before = pixcake::ids_of(t, name);
        let now = pixcake::ids_of(rows, name);
        let k = (r.user, r.project);
        lemma_by_id();
        if has_name(r, name) {
            lemma_seen(before, k, r.time, pixcake::by_id());
            assert forall|i: int| 0 <= i < now.len() implies newest_of_id(
                rows,
                name,
                (#[trigger] now[i]).0,
                now[i].1,
            ) by {
                assert(updated(now[i], before, k, r.time));
                if now[i].0 == k {
                    if exists|j: int|
                        0 <= j < before.len() && (#[trigger] before[j]).0 == k && now[i].1
                            == pixcake::newest(before[j].1, r.time) {
                        let j = choose|j: int|
                            0 <= j < before.len() && (#[trigger] before[j]).0 == k && now[i].1
                                == pixcake::newest(before[j].1, r.time);
                        lemma_newest_of_id_more(rows, name, k, before[j].1);
                    } else {
                        law_ids_of_name(t, name, k);
                        assert forall|j: int|
                            0 <= j < rows.len() && has_id(#[trigger] rows[j], name, k) implies j
                            == rows.len() - 1 by {
                            if j < t.len() {
                                assert(t[j] == rows[j]);
                                assert(t[j].name is Some && t[j].name->0@ == name);
                            }
                        }
                        assert(rows[rows.len() - 1] == r);
                    }
                } else {
                    let j = choose|j: int| 0 <= j < before.len() && before[j] == now[i];
                    assert(newest_of_id(t, name, before[j].0, before[j].1));
                    lemma_newest_of_id_more(rows, name, now[i].0, now[i].1);
                }
            }
        } else {
            assert(now == before);
            assert forall|i: int| 0 <= i < now.len() implies newest_of_id(
                rows,
                name,
                (#[trigger] now[i]).0,
                now[i].1,
            ) by {
                assert(newest_of_id(t, name, before[i].0, before[i].1));
                lemma_newest_of_id_more(rows, name, now[i].0, now[i].1);
            }
        }
    }
}

/// The names of a catalogue come one by one, in order, each with the newest
/// time that its rows give.
pub proof fn law_name_times(rows: Seq<LogRow>)
    ensures
        rises(pixcake::names_of(rows), pixcake::by_text()),
        forall|i: int|
            0 <= i < pixcake::names_of(rows).len() ==> newest_of_name(
                rows,
                (#[trigger] pixcake::names_of(rows)[i]).0,
                pixcake::names_of(rows)[i].1,
            ),
    decreases rows.len(),
{
    if rows.len() > 0 {
        let t = rows.drop_last();
        let r = rows.last();
        law_name_times(t);
        let before = pixcake::names_of(t);
        let now = pixcake::names_of(rows);
        lemma_by_text();
        if r.name is Some && r.name->0@.len() > 0 {
            let k = r.name->0@;
            assert(now == pixcake::seen(before, k, r.time, pixcake::by_text()));
            lemma_seen(before, k, r.time, pixcake::by_text());
            assert forall|i: int| 0 <= i < now.len() implies newest_of_name(
                rows,
                (#[trigger] now[i]).0,
                now[i].1,
            ) by {
                assert(updated(now[i], before, k, r.time));
                if now[i].0 == k {
                    if exists|j: int|
                        0 <= j < before.len() && (#[trigger] before[j]).0 == k && now[i].1
                            == pixcake::newest(before[j].1, r.time) {
                        let j = choose|j: int|
                            0 <= j < before.len() && (#[trigger] before[j]).0 == k && now[i].1
                                == pixcake::newest(before[j].1, r.time);
                        lemma_newest_of_name_more(rows, k, before[j].1);
                    } else {
                        law_known_names(t, k);
                        assert forall|j: int|
                            0 <= j < rows.len() && has_name(#[trigger] rows[j], k) implies j
                            == rows.len() - 1 by {
                            if j < t.len() {
                                assert(t[j] == rows[j]);
                                assert(t[j].name is Some && t[j].name->0@ == k);
                            }
                        }
                        assert(rows[rows.len() - 1] == r);
                    }
                } else {
                    let j = choose|j: int| 0 <= j < before.len() && before[j] == now[i];
                    assert(newest_of_name(t, before[j].0, before[j].1));
                    lemma_newest_of_name_more(rows, now[i].0, now[i].1);
                }
            }
        } else {
            assert(now == before);
            assert forall|i: int| 0 <= i < now.len() implies newest_of_name(
                rows,
                (#[trigger] now[i]).0,
                now[i].1,
            ) by {
                assert(newest_of_name(t, before[i].0, before[i].1));
                law_known_names(t, now[i].0);
                lemma_newest_of_name_more(rows, now[i].0, now[i].1);
            }
        }
    }
}

} // verus!
