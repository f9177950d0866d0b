//! What PixCake's on-disk project databases say.
//!
//! PixCake (像素蛋糕) stores each project as its own SQLite database under
//! `<data>/db/user_<uid>/project_<pid>/project.db`, with a `thumbnail` row per
//! image. The columns that matter here:
//!
//! - `originalImagePath` — the image file on disk (a tethered preview JPEG in the
//!   common case, sometimes an already-imported RAW).
//! - `inRecycleBin` — 0 while the image is part of the project; set to 1 when the
//!   photographer/model "removes" it. Crucially, removal only drops the row from
//!   the project — the file on disk is left untouched. So the kept set is defined
//!   by this flag, **not** by which files still exist in the folder.
//! - `isValid` — 1 for a normal image row.
//!
//! The project *name* shown in the app lives separately, in
//! `<data>/db/base.db`'s `project_operation_log` (name → projectId; the same name
//! can map to several ids over time, so the newest whose project still exists on
//! disk is taken).

use vstd::prelude::*;

use crate::order;
use crate::order::Ranks;
use crate::paths;
use crate::text;
use crate::types;

verus! {

/// One kept image from a PixCake project.
#[derive(Debug, Clone)]
pub struct KeptItem {
    /// Path recorded by PixCake (usually a preview JPEG; sometimes a RAW).
    pub original: String,
    /// PixCake's stored capture time in Unix milliseconds, if any. Only
    /// second-precision in practice, so it is a coarse fallback when the file
    /// itself can no longer be read for its sub-second EXIF.
    pub capture_time_ms: Option<i64>,
}

/// One row of a project's `thumbnail` table.
#[derive(Debug, Clone)]
pub struct ThumbRow {
    pub path: Option<String>,
    pub in_recycle_bin: Option<i64>,
    pub is_valid: Option<i64>,
    pub capture_time: Option<i64>,
}

/// One row of `project_operation_log`.
#[derive(Debug, Clone)]
pub struct LogRow {
    pub name: Option<String>,
    pub user: i64,
    pub project: i64,
    pub time: Option<i64>,
}

// ---------------------------------------------------------------------------
// Newest times by key
// ---------------------------------------------------------------------------

/// The later of two times, where there are two.
pub open spec fn newest(a: Option<i64>, b: Option<i64>) -> Option<i64> {
    match (a, b) {
        (Some(x), Some(y)) => if x < y {
            b
        } else {
            a
        },
        (Some(_), None) => a,
        (None, _) => b,
    }
}

fn newer(a: Option<i64>, b: Option<i64>) -> (r: Option<i64>)
    ensures
        r == newest(a, b),
{
    match (a, b) {
        (Some(x), Some(y)) => if x < y {
            b
        } else {
            a
        },
        (Some(_), None) => a,
        (None, _) => b,
    }
}

/// A list of keys in order, each with its newest time, once a key has been seen
/// at a time.
pub open spec fn seen<K>(
    list: Seq<(K, Option<i64>)>,
    k: K,
    t: Option<i64>,
    ahead: spec_fn(K, K) -> bool,
) -> Seq<(K, Option<i64>)>
    decreases list.len(),
{
    if list.len() == 0 || ahead(k, list[0].0) {
        seq![(k, t)] + list
    } else if list[0].0 == k {
        seq![(k, newest(list[0].1, t))] + list.skip(1)
    } else {
        seq![list[0]] + seen(list.skip(1), k, t, ahead)
    }
}

/// The order of texts.
pub open spec fn by_text() -> spec_fn(Seq<char>, Seq<char>) -> bool {
    |a: Seq<char>, b: Seq<char>| text::precedes(a, b)
}

/// The order of project ids.
pub open spec fn by_id() -> spec_fn((i64, i64), (i64, i64)) -> bool {
    |a: (i64, i64), b: (i64, i64)| a.0 < b.0 || (a.0 == b.0 && a.1 < b.1)
}

/// The model of a list of texts with times.
pub open spec fn text_times(v: Seq<(String, Option<i64>)>) -> Seq<(Seq<char>, Option<i64>)> {
    Seq::new(v.len(), |i: int| (v[i].0@, v[i].1))
}

fn see_text(list: &mut Vec<(String, Option<i64>)>, k: &str, t: Option<i64>)
    ensures
        text_times(final(list)@) == seen(text_times(old(list)@), k@, t, by_text()),
{
    let ghost before = list@;
    let ghost c = text_times(before);
    let mut i: usize = 0;
    proof {
        assert(c.skip(0) =~= c);
        assert(c.take(0) + seen(c, k@, t, by_text()) =~= seen(c, k@, t, by_text()));
    }
    while i < list.len()
        invariant
            list@ == before,
            before == old(list)@,
            c == text_times(before),
            i <= before.len(),
            seen(c, k@, t, by_text()) == c.take(i as int) + seen(
                c.skip(i as int),
                k@,
                t,
                by_text(),
            ),
        decreases before.len() - i,
    {
        let ghost rest = c.skip(i as int);
        proof {
            assert(rest[0] == c[i as int]);
        }
        if text::text_precedes(k, list[i].0.as_str()) {
            list.insert(i, (k.to_owned(), t));
            proof {
                assert(text_times(list@) =~= c.take(i as int) + (seq![(k@, t)] + rest));
            }
            return;
        }
        if text::same(list[i].0.as_str(), k) {
            let x: (String, Option<i64>) = (k.to_owned(), newer(list[i].1, t));
            list.set(i, x);
            proof {
                assert(text_times(list@) =~= c.take(i as int) + (seq![
                    (k@, newest(rest[0].1, t)),
                ] + rest.skip(1)));
            }
            return;
        }
        proof {
            assert(rest.skip(1) =~= c.skip(i + 1));
            assert(c.take(i as int) + (seq![rest[0]] + seen(rest.skip(1), k@, t, by_text()))
                =~= c.take(i + 1) + seen(c.skip(i + 1), k@, t, by_text()));
        }
        i = i + 1;
    }
    list.push((k.to_owned(), t));
    proof {
        let n = before.len() as int;
        assert(text_times(list@) =~= c.take(n) + (seq![(k@, t)] + c.skip(n)));
    }
}

fn see_id(list: &mut Vec<((i64, i64), Option<i64>)>, k: (i64, i64), t: Option<i64>)
    ensures
        final(list)@ == seen(old(list)@, k, t, by_id()),
{
    let ghost c = list@;
    let mut i: usize = 0;
    proof {
        assert(c.skip(0) =~= c);
        assert(c.take(0) + seen(c, k, t, by_id()) =~= seen(c, k, t, by_id()));
    }
    while i < list.len()
        invariant
            list@ == c,
            c == old(list)@,
            i <= c.len(),
            seen(c, k, t, by_id()) == c.take(i as int) + seen(c.skip(i as int), k, t, by_id()),
        decreases c.len() - i,
    {
        let ghost rest = c.skip(i as int);
        let here: (i64, i64) = list[i].0;
        proof {
            assert(rest[0] == c[i as int]);
        }
        if k.0 < here.0 || (k.0 == here.0 && k.1 < here.1) {
            list.insert(i, (k, t));
            proof {
                assert(list@ =~= c.take(i as int) + (seq![(k, t)] + rest));
            }
            return;
        }
        if here.0 == k.0 && here.1 == k.1 {
            let x: ((i64, i64), Option<i64>) = (k, newer(list[i].1, t));
            list.set(i, x);
            proof {
                assert(list@ =~= c.take(i as int) + (seq![(k, newest(rest[0].1, t))] + rest.skip(
                    1,
                )));
            }
            return;
        }
        proof {
            assert(rest.skip(1) =~= c.skip(i + 1));
            assert(c.take(i as int) + (seq![rest[0]] + seen(rest.skip(1), k, t, by_id()))
                =~= c.take(i + 1) + seen(c.skip(i + 1), k, t, by_id()));
        }
        i = i + 1;
    }
    list.push((k, t));
    proof {
        let n = c.len() as int;
        assert(list@ =~= c.take(n) + (seq![(k, t)] + c.skip(n)));
    }
}

/// Whether one time is later than another; none comes last.
pub open spec fn is_later(a: Option<i64>, b: Option<i64>) -> bool {
    match (a, b) {
        (Some(x), Some(y)) => x > y,
        (Some(_), None) => true,
        (None, _) => false,
    }
}

/// The order of positions by time, newest first.
pub open spec fn newest_first(times: Seq<Option<i64>>) -> spec_fn(int, int) -> bool {
    |i: int, j: int| is_later(times[i], times[j])
}

/// The times of a list.
pub open spec fn times_of<K>(list: Seq<(K, Option<i64>)>) -> Seq<Option<i64>> {
    Seq::new(list.len(), |i: int| list[i].1)
}

/// The keys of a list, newest first.
pub open spec fn keys_by_time<K>(list: Seq<(K, Option<i64>)>) -> Seq<K> {
    let sorted = order::arranged(list, newest_first(times_of(list)));
    Seq::new(list.len(), |i: int| sorted[i].0)
}

struct Times {
    times: Vec<Option<i64>>,
}

impl Ranks for Times {
    closed spec fn count(&self) -> nat {
        self.times@.len()
    }

    closed spec fn ahead(&self) -> spec_fn(int, int) -> bool {
        newest_first(self.times@)
    }

    fn is_ahead(&self, i: usize, j: usize) -> (r: bool) {
        match (self.times[i], self.times[j]) {
            (Some(x), Some(y)) => x > y,
            (Some(_), None) => true,
            (None, _) => false,
        }
    }
}

// ---------------------------------------------------------------------------
// Kept images
// ---------------------------------------------------------------------------

/// Whether a row stands for an image of the project: not in its recycle bin,
/// valid, and with a path.
pub open spec fn is_kept(r: ThumbRow) -> bool {
    &&& r.in_recycle_bin == Some(0i64)
    &&& r.is_valid == Some(1i64)
    &&& r.path matches Some(p) && p@.len() > 0
}

/// The paths of the kept images in order, each with its newest capture time.
pub open spec fn kept_paths(rows: Seq<ThumbRow>) -> Seq<(Seq<char>, Option<i64>)>
    decreases rows.len(),
{
    if rows.len() == 0 {
        Seq::empty()
    } else {
        let r = rows.last();
        let rest = kept_paths(rows.drop_last());
        if is_kept(r) {
            seen(rest, r.path->0@, r.capture_time, by_text())
        } else {
            rest
        }
    }
}

/// A stored time that means something.
pub open spec fn real_time(t: Option<i64>) -> Option<i64> {
    match t {
        Some(ms) => if ms > 0 {
            Some(ms)
        } else {
            None
        },
        None => None,
    }
}

/// The model of a list of kept items.
pub open spec fn kept_models(v: Seq<KeptItem>) -> Seq<(Seq<char>, Option<i64>)> {
    Seq::new(v.len(), |i: int| (v[i].original@, v[i].capture_time_ms))
}

/// Kept images of a project: rows still in the project (not in its recycle
/// bin), one for each path, in the order of the paths. A capture time of zero
/// or less counts as none.
pub fn kept_items(rows: &Vec<ThumbRow>) -> (r: Vec<KeptItem>)
    ensures
        kept_models(r@) == Seq::new(
            kept_paths(rows@).len(),
            |i: int| (kept_paths(rows@)[i].0, real_time(kept_paths(rows@)[i].1)),
        ),
{
    let mut list: Vec<(String, Option<i64>)> = Vec::new();
    let mut i: usize = 0;
    proof {
        assert(rows@.take(0) =~= Seq::<ThumbRow>::empty());
        assert(text_times(list@) =~= Seq::<(Seq<char>, Option<i64>)>::empty());
    }
    while i < rows.len()
        invariant
            i <= rows@.len(),
            text_times(list@) == kept_paths(rows@.take(i as int)),
        decreases rows@.len() - i,
    {
        proof {
            assert(rows@.take(i + 1).drop_last() =~= rows@.take(i as int));
            reveal_strlit("");
        }
        let bin: bool = match rows[i].in_recycle_bin {
            Some(n) => n == 0,
            None => false,
        };
        let valid: bool = match rows[i].is_valid {
            Some(n) => n == 1,
            None => false,
        };
        match &rows[i].path {
            Some(p) => {
                proof {
                    assert(p@.len() == 0 ==> p@ =~= ""@);
                }
                if bin && valid && !text::same(p.as_str(), "") {
                    see_text(&mut list, p.as_str(), rows[i].capture_time);
                }
            },
            None => {},
        }
        i = i + 1;
    }
    proof {
        assert(rows@.take(rows@.len() as int) =~= rows@);
    }
    let mut out: Vec<KeptItem> = Vec::new();
    let mut k: usize = 0;
    while k < list.len()
        invariant
            k <= list@.len(),
            text_times(list@) == kept_paths(rows@),
            out@.len() == k,
            forall|m: int|
                0 <= m < k ==> (#[trigger] out@[m]).original@ == list@[m].0@
                    && out@[m].capture_time_ms == real_time(list@[m].1),
        decreases list@.len() - k,
    {
        let t: Option<i64> = match list[k].1 {
            Some(ms) => if ms > 0 {
                Some(ms)
            } else {
                None
            },
            None => None,
        };
        out.push(KeptItem { original: list[k].0.clone(), capture_time_ms: t });
        k = k + 1;
    }
    proof {
        let goal = kept_paths(rows@);
        assert forall|m: int| 0 <= m < out@.len() implies #[trigger] kept_models(out@)[m] == (
            goal[m].0,
            real_time(goal[m].1),
        ) by {
            assert(text_times(list@)[m] == (list@[m].0@, list@[m].1));
        }
        assert(kept_models(out@) =~= Seq::new(
            goal.len(),
            |i: int| (goal[i].0, real_time(goal[i].1)),
        ));
    }
    out
}

/// The kept set is defined by the flags of the rows: a path is kept where, and
/// only where, some row that is not in the recycle bin and is valid names it.
pub proof fn law_kept_by_flag(rows: Seq<ThumbRow>, p: Seq<char>)
    ensures
        (exists|i: int| 0 <= i < kept_paths(rows).len() && (#[trigger] kept_paths(rows)[i]).0 == p)
            <==> (exists|j: int|
            0 <= j < rows.len() && is_kept(#[trigger] rows[j]) && rows[j].path->0@ == p),
    decreases rows.len(),
{
    if rows.len() > 0 {
        let t = rows.drop_last();
        let r = rows.last();
        law_kept_by_flag(t, p);
        let old_list = kept_paths(t);
        let list = kept_paths(rows);
        if is_kept(r) {
            lemma_seen_keys(old_list, r.path->0@, r.capture_time, by_text(), p);
        }
        if exists|i: int| 0 <= i < list.len() && (#[trigger] list[i]).0 == p {
            if exists|i: int| 0 <= i < old_list.len() && (#[trigger] old_list[i]).0 == p {
                let j = choose|j: int|
                    0 <= j < t.len() && is_kept(#[trigger] t[j]) && t[j].path->0@ == p;
                assert(rows[j] == t[j]);
            } else {
                assert(rows[rows.len() - 1] == r);
            }
        }
        if exists|j: int|
            0 <= j < rows.len() && is_kept(#[trigger] rows[j]) && rows[j].path->0@ == p {
            let j = choose|j: int|
                0 <= j < rows.len() && is_kept(#[trigger] rows[j]) && rows[j].path->0@ == p;
            if j < t.len() {
                assert(t[j] == rows[j]);
            }
        }
    }
}

pub proof fn lemma_seen_keys<K>(
    list: Seq<(K, Option<i64>)>,
    k: K,
    t: Option<i64>,
    ahead: spec_fn(K, K) -> bool,
    p: K,
)
    ensures
        (exists|i: int|
            0 <= i < seen(list, k, t, ahead).len() && (#[trigger] seen(list, k, t, ahead)[i]).0
                == p) <==> (p == k || exists|i: int|
            0 <= i < list.len() && (#[trigger] list[i]).0 == p),
    decreases list.len(),
{
    let s = seen(list, k, t, ahead);
    if list.len() == 0 || ahead(k, list[0].0) {
        assert(s[0].0 == k);
        assert forall|i: int| 0 <= i < list.len() implies (#[trigger] list[i]) == s[i + 1] by {}
        if exists|i: int| 0 <= i < s.len() && (#[trigger] s[i]).0 == p {
            let i = choose|i: int| 0 <= i < s.len() && (#[trigger] s[i]).0 == p;
            if i > 0 {
                assert(list[i - 1].0 == p);
            }
        }
        if exists|i: int| 0 <= i < list.len() && (#[trigger] list[i]).0 == p {
            let i = choose|i: int| 0 <= i < list.len() && (#[trigger] list[i]).0 == p;
            assert(s[i + 1].0 == p);
        }
    } else if list[0].0 == k {
        assert(s[0].0 == k);
        if exists|i: int| 0 <= i < s.len() && (#[trigger] s[i]).0 == p {
            let i = choose|i: int| 0 <= i < s.len() && (#[trigger] s[i]).0 == p;
            assert(list[i].0 == p);
        }
        if exists|i: int| 0 <= i < list.len() && (#[trigger] list[i]).0 == p {
            let i = choose|i: int| 0 <= i < list.len() && (#[trigger] list[i]).0 == p;
            assert(s[i].0 == p);
        }
    } else {
        let r = list.skip(1);
        let q = seen(r, k, t, ahead);
        lemma_seen_keys(r, k, t, ahead, p);
        assert(s == seq![list[0]] + q);
        if exists|i: int| 0 <= i < s.len() && (#[trigger] s[i]).0 == p {
            let i = choose|i: int| 0 <= i < s.len() && (#[trigger] s[i]).0 == p;
            if i > 0 {
                assert(q[i - 1].0 == p);
                if p != k {
                    let m = choose|m: int| 0 <= m < r.len() && (#[trigger] r[m]).0 == p;
                    assert(list[m + 1].0 == p);
                }
            } else {
                assert(list[0].0 == p);
            }
        }
        if p == k || exists|i: int| 0 <= i < list.len() && (#[trigger] list[i]).0 == p {
            if p != k {
                let i = choose|i: int| 0 <= i < list.len() && (#[trigger] list[i]).0 == p;
                if i == 0 {
                    assert(s[0].0 == p);
                } else {
                    assert(r[i - 1].0 == p);
                }
            }
            if s[0].0 != p {
                let m = choose|m: int| 0 <= m < q.len() && (#[trigger] q[m]).0 == p;
                assert(s[m + 1].0 == p);
            }
        }
    }
}

// ---------------------------------------------------------------------------
// Projects
// ---------------------------------------------------------------------------

/// The ids that a name had, in order, each with its newest time.
pub open spec fn ids_of(rows: Seq<LogRow>, name: Seq<char>) -> Seq<((i64, i64), Option<i64>)>
    decreases rows.len(),
{
    if rows.len() == 0 {
        Seq::empty()
    } else {
        let r = rows.last();
        let rest = ids_of(rows.drop_last(), name);
        if types::opt_view(r.name) == Some(name) {
            seen(rest, (r.user, r.project), r.time, by_id())
        } else {
            rest
        }
    }
}

/// The ids (user and project) that a project name had, newest first.
pub fn project_ids(rows: &Vec<LogRow>, name: &str) -> (r: Vec<(i64, i64)>)
    ensures
        r@ == keys_by_time(ids_of(rows@, name@)),
{
    let mut list: Vec<((i64, i64), Option<i64>)> = Vec::new();
    let mut i: usize = 0;
    proof {
        assert(rows@.take(0) =~= Seq::<LogRow>::empty());
    }
    while i < rows.len()
        invariant
            i <= rows@.len(),
            list@ == ids_of(rows@.take(i as int), name@),
        decreases rows@.len() - i,
    {
        proof {
            assert(rows@.take(i + 1).drop_last() =~= rows@.take(i as int));
        }
        match &rows[i].name {
            Some(n) => if text::same(n.as_str(), name) {
                see_id(&mut list, (rows[i].user, rows[i].project), rows[i].time);
            },
            None => {},
        }
        i = i + 1;
    }
    proof {
        assert(rows@.take(rows@.len() as int) =~= rows@);
    }
    let n: usize = list.len();
    let mut times: Vec<Option<i64>> = Vec::new();
    let mut k: usize = 0;
    while k < n
        invariant
            n == list@.len(),
            k <= n,
            times@ == times_of(list@).take(k as int),
        decreases n - k,
    {
        times.push(list[k].1);
        k = k + 1;
        proof {
            assert(times@ =~= times_of(list@).take(k as int));
        }
    }
    proof {
        assert(times@ =~= times_of(list@));
    }
    let ghost ahead = newest_first(times_of(list@));
    let ranks: Vec<usize> = order::rank(&Times { times }, n);
    let mut r: Vec<(i64, i64)> = Vec::new();
    let mut m: usize = 0;
    while m < n
        invariant
            n == list@.len(),
            m <= n,
            ahead == newest_first(times_of(list@)),
            order::positions(ranks@) == order::ranking(n as nat, ahead),
            order::is_permutation(order::positions(ranks@), n as nat),
            r@ == keys_by_time(list@).take(m as int),
        decreases n - m,
    {
        proof {
            assert(0 <= order::positions(ranks@)[m as int] < n);
            assert(order::positions(ranks@)[m as int] == ranks@[m as int]);
        }
        r.push(list[ranks[m]].0);
        m = m + 1;
        proof {
            assert(r@ =~= keys_by_time(list@).take(m as int));
        }
    }
    proof {
        assert(keys_by_time(list@).take(n as int) =~= keys_by_time(list@));
    }
    r
}

/// The project names in order, each with its newest time.
pub open spec fn names_of(rows: Seq<LogRow>) -> Seq<(Seq<char>, Option<i64>)>
    decreases rows.len(),
{
    if rows.len() == 0 {
        Seq::empty()
    } else {
        let r = rows.last();
        let rest = names_of(rows.drop_last());
        match types::opt_view(r.name) {
            Some(n) => if n.len() > 0 {
                seen(rest, n, r.time, by_text())
            } else {
                rest
            },
            None => rest,
        }
    }
}

/// At most the first thirty of a list.
pub open spec fn first_thirty<T>(s: Seq<T>) -> Seq<T> {
    if s.len() <= 30 {
        s
    } else {
        s.take(30)
    }
}

/// Distinct project names, newest first, at most thirty (for error messages).
pub fn known_project_names(rows: &Vec<LogRow>) -> (r: Vec<String>)
    ensures
        text::views(r@) == first_thirty(keys_by_time(names_of(rows@))),
{
    let mut list: Vec<(String, Option<i64>)> = Vec::new();
    let mut i: usize = 0;
    proof {
        assert(rows@.take(0) =~= Seq::<LogRow>::empty());
        assert(text_times(list@) =~= Seq::<(Seq<char>, Option<i64>)>::empty());
    }
    while i < rows.len()
        invariant
            i <= rows@.len(),
            text_times(list@) == names_of(rows@.take(i as int)),
        decreases rows@.len() - i,
    {
        proof {
            assert(rows@.take(i + 1).drop_last() =~= rows@.take(i as int));
            reveal_strlit("");
        }
        match &rows[i].name {
            Some(n) => {
                proof {
                    assert(n@.len() == 0 ==> n@ =~= ""@);
                }
                if !text::same(n.as_str(), "") {
                    see_text(&mut list, n.as_str(), rows[i].time);
                }
            },
            None => {},
        }
        i = i + 1;
    }
    proof {
        assert(rows@.take(rows@.len() as int) =~= rows@);
    }
    let n: usize = list.len();
    let ghost model = text_times(list@);
    let mut times: Vec<Option<i64>> = Vec::new();
    let mut k: usize = 0;
    while k < n
        invariant
            n == list@.len(),
            k <= n,
            model == text_times(list@),
            times@ == times_of(model).take(k as int),
        decreases n - k,
    {
        times.push(list[k].1);
        k = k + 1;
        proof {
            assert(times@ =~= times_of(model).take(k as int));
        }
    }
    proof {
        assert(times@ =~= times_of(model));
    }
    let ghost ahead = newest_first(times_of(model));
    let ranks: Vec<usize> = order::rank(&Times { times }, n);
    let ghost goal = keys_by_time(model);
    let mut r: Vec<String> = Vec::new();
    let mut m: usize = 0;
    while m < n && m < 30
        invariant
            n == list@.len(),
            m <= n,
            m <= 30,
            model == text_times(list@),
            goal == keys_by_time(model),
            ahead == newest_first(times_of(model)),
            order::positions(ranks@) == order::ranking(n as nat, ahead),
            order::is_permutation(order::positions(ranks@), n as nat),
            text::views(r@) == goal.take(m as int),
        decreases n - m,
    {
        proof {
            assert(0 <= order::positions(ranks@)[m as int] < n);
            assert(order::positions(ranks@)[m as int] == ranks@[m as int]);
        }
        let s: String = list[ranks[m]].0.clone();
        proof {
            text::lemma_views_push(r@, s);
            assert(goal[m as int] == s@);
            assert(goal.take(m + 1) =~= goal.take(m as int).push(s@));
        }
        r.push(s);
        m = m + 1;
    }
    proof {
        assert(goal.len() == n);
        assert(n <= 30 ==> goal.take(n as int) =~= goal);
    }
    r
}

/// An integer in decimal notation.
fn integer_text(n: i64) -> (r: String)
    ensures
        r@ == text::signed_decimal(n as int, 0),
{
    if n < 0 {
        let mut s = String::new();
        s.push('-');
        let m: u64 = (-(n + 1)) as u64 + 1;
        s.append(text::unsigned_text(m, 0).as_str());
        proof {
            assert(Seq::<char>::empty().push('-') =~= seq!['-']);
        }
        s
    } else {
        text::unsigned_text(n as u64, 0)
    }
}

/// The path of a project's database.
pub open spec fn db_path(data_dir: Seq<char>, id: (i64, i64)) -> Seq<char> {
    paths::joined(
        paths::joined(
            paths::joined(
                paths::joined(data_dir, "db"@),
                "user_"@ + text::signed_decimal(id.0 as int, 0),
            ),
            "project_"@ + text::signed_decimal(id.1 as int, 0),
        ),
        "project.db"@,
    )
}

/// The path of a project's database.
pub fn project_db(data_dir: &str, id: (i64, i64)) -> (r: String)
    ensures
        r@ == db_path(data_dir@, id),
{
    let mut user: String = "user_".to_owned();
    user.append(integer_text(id.0).as_str());
    let mut project: String = "project_".to_owned();
    project.append(integer_text(id.1).as_str());
    let p: String = paths::join(data_dir, "db");
    let q: String = paths::join(p.as_str(), user.as_str());
    let s: String = paths::join(q.as_str(), project.as_str());
    paths::join(s.as_str(), "project.db")
}

/// The default macOS PixCake data directory, in a home directory.
pub fn default_data_dir(home: &str) -> (r: String)
    ensures
        r@ == paths::joined(
            paths::joined(home@, "Library/Application Support"@),
            "PixCake-qt_pro"@,
        ),
{
    let p: String = paths::join(home, "Library/Application Support");
    paths::join(p.as_str(), "PixCake-qt_pro")
}

/// The path of the database that knows the project names.
pub fn base_db(data_dir: &str) -> (r: String)
    ensures
        r@ == paths::joined(data_dir@, "db/base.db"@),
{
    paths::join(data_dir, "db/base.db")
}

/// `foo.db` + `-wal` → `foo.db-wal` (SQLite's sidecar naming).
pub open spec fn sidecar_path(db: Seq<char>, suffix: Seq<char>) -> Seq<char> {
    match paths::name_of(db) {
        Some(n) => paths::joined(paths::path_of(paths::parts(db).drop_last()), n + suffix),
        None => paths::joined(db, suffix),
    }
}

/// `foo.db` + `-wal` → `foo.db-wal` (SQLite's sidecar naming).
pub fn sidecar(db: &str, suffix: &str) -> (r: String)
    ensures
        r@ == sidecar_path(db@, suffix@),
{
    match paths::file_name(db) {
        Some(n) => {
            let mut name: String = n;
            name.append(suffix);
            let dir: String = match paths::parent(db) {
                Some(d) => d,
                None => String::new(),
            };
            paths::join(dir.as_str(), name.as_str())
        },
        None => paths::join(db, suffix),
    }
}

/// The `LIKE` pattern of images that carry the project's name as their
/// filename prefix (`<name>_0001.JPG`).
pub fn like_pattern(name: &str) -> (r: String)
    ensures
        r@ == "%/"@ + name@ + "\\_%"@,
{
    let mut s: String = "%/".to_owned();
    s.append(name);
    s.append("\\_%");
    s
}

/// Whether a directory holds the projects of a user.
pub fn is_user_dir(name: &str) -> (r: bool)
    ensures
        r == text::has_prefix(name@, "user_"@),
{
    text::starts_with(name, "user_")
}

/// Whether a directory holds a project.
pub fn is_project_dir(name: &str) -> (r: bool)
    ensures
        r == text::has_prefix(name@, "project_"@),
{
    text::starts_with(name, "project_")
}

/// The position of the first database that is there.
pub open spec fn first_there(live: Seq<bool>) -> Option<int>
    decreases live.len(),
{
    if live.len() == 0 {
        None
    } else if live[0] {
        Some(0)
    } else {
        match first_there(live.skip(1)) {
            Some(i) => Some(i + 1),
            None => None,
        }
    }
}

/// Resolve a project through the log: of the databases of its ids, newest
/// first, the first one that is there.
pub fn resolve_via_base_db(data_dir: &str, ids: &Vec<(i64, i64)>, live: &Vec<bool>) -> (r: Option<
    String,
>)
    requires
        live@.len() == ids@.len(),
    ensures
        match first_there(live@) {
            Some(i) => 0 <= i < ids@.len() && live@[i] && types::opt_view(r) == Some(
                db_path(data_dir@, ids@[i]),
            ),
            None => r is None,
        },
{
    let mut i: usize = 0;
    proof {
        assert(live@.skip(0) =~= live@);
    }
    while i < live.len()
        invariant
            i <= live@.len() == ids@.len(),
            first_there(live@) == (match first_there(live@.skip(i as int)) {
                Some(k) => Some(k + i),
                None => None,
            }),
        decreases live@.len() - i,
    {
        proof {
            assert(live@.skip(i as int)[0] == live@[i as int]);
            assert(live@.skip(i as int).skip(1) =~= live@.skip(i + 1));
        }
        if live[i] {
            return Some(project_db(data_dir, ids[i]));
        }
        i = i + 1;
    }
    None
}

/// A database with images of the project, and when it was changed last.
pub struct ScanHit {
    pub secs: i64,
    pub nanos: u32,
    pub db: String,
}

/// Whether one hit was changed later than another.
pub open spec fn changed_later(a: ScanHit, b: ScanHit) -> bool {
    a.secs > b.secs || (a.secs == b.secs && a.nanos > b.nanos)
}

/// The position of the hit that was changed last; the first of several.
pub open spec fn last_changed(hits: Seq<ScanHit>) -> int
    decreases hits.len(),
{
    if hits.len() <= 1 {
        0
    } else {
        let best = last_changed(hits.drop_last());
        if changed_later(hits.last(), hits[best]) {
            hits.len() - 1
        } else {
            best
        }
    }
}

proof fn lemma_last_changed(hits: Seq<ScanHit>)
    requires
        hits.len() > 0,
    ensures
        0 <= last_changed(hits) < hits.len(),
    decreases hits.len(),
{
    if hits.len() > 1 {
        lemma_last_changed(hits.drop_last());
    }
}

/// Resolve a project through the databases with images of its name: the one
/// that was changed last.
pub fn resolve_via_scan(hits: &Vec<ScanHit>) -> (r: Option<String>)
    ensures
        hits@.len() == 0 ==> r is None,
        hits@.len() > 0 ==> types::opt_view(r) == Some(hits@[last_changed(hits@)].db@),
{
    if hits.len() == 0 {
        return None;
    }
    let mut best: usize = 0;
    let mut i: usize = 1;
    proof {
        assert(hits@.take(1).len() == 1);
    }
    while i < hits.len()
        invariant
            1 <= i <= hits@.len(),
            best < i,
            best == last_changed(hits@.take(i as int)),
        decreases hits@.len() - i,
    {
        proof {
            assert(hits@.take(i + 1).drop_last() =~= hits@.take(i as int));
        }
        if hits[i].secs > hits[best].secs || (hits[i].secs == hits[best].secs && hits[i].nanos
            > hits[best].nanos) {
            best = i;
        }
        i = i + 1;
    }
    proof {
        assert(hits@.take(hits@.len() as int) =~= hits@);
    }
    Some(hits[best].db.clone())
}

/// What was seen of a project: whether the data directory exists, the
/// databases found through the log and through a scan, and the known names.
pub struct Sightings {
    pub data_dir_exists: bool,
    pub via_base: Option<String>,
    pub via_scan: Option<String>,
    pub known: Vec<String>,
}

/// The database of a project, or what the user is told where there is none.
pub open spec fn located(data_dir: Seq<char>, name: Seq<char>, s: Sightings) -> Result<
    Seq<char>,
    Seq<char>,
> {
    if !s.data_dir_exists {
        Err(
            "PixCake data directory not found: "@ + data_dir
                + "\n  (pass --pixcake-dir to point at it)"@,
        )
    } else if s.via_base is Some {
        Ok(s.via_base->0@)
    } else if s.via_scan is Some {
        Ok(s.via_scan->0@)
    } else if s.known@.len() == 0 {
        Err("no PixCake project named "@ + text::quoted(name) + " found under "@ + data_dir)
    } else {
        Err(
            "no PixCake project named "@ + text::quoted(name)
                + ". Known projects (newest first):\n  "@ + text::join(
                text::views(s.known@),
                "\n  "@,
            ),
        )
    }
}

/// Locate the live `project.db` for a project by its display name: through the
/// log first, then through a scan.
pub fn find_project(data_dir: &str, name: &str, s: &Sightings) -> (r: Result<String, String>)
    ensures
        match r {
            Ok(db) => located(data_dir@, name@, *s) == Ok::<Seq<char>, Seq<char>>(db@),
            Err(e) => located(data_dir@, name@, *s) == Err::<Seq<char>, Seq<char>>(e@),
        },
{
    if !s.data_dir_exists {
        let mut m: String = "PixCake data directory not found: ".to_owned();
        m.append(data_dir);
        m.append("\n  (pass --pixcake-dir to point at it)");
        return Err(m);
    }
    match &s.via_base {
        Some(db) => return Ok(db.clone()),
        None => {},
    }
    match &s.via_scan {
        Some(db) => return Ok(db.clone()),
        None => {},
    }
    let mut m: String = "no PixCake project named ".to_owned();
    m.append(text::quote(name).as_str());
    if s.known.len() == 0 {
        m.append(" found under ");
        m.append(data_dir);
    } else {
        m.append(". Known projects (newest first):\n  ");
        m.append(text::join_text(&s.known, "\n  ").as_str());
    }
    Err(m)
}

} // verus!
