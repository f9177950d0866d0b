//! What pairing kept photos with RAWs keeps, said in terms of the index.

use vstd::prelude::*;

use crate::cli::MatchAction;
use crate::clock;
use crate::clock::{Day, Moment};
use crate::clock_laws;
use crate::matchcmd;
use crate::matchcmd::{Found, KeeperKey, RawSeen, Shelf, Tally};
use crate::path_laws;
use crate::paths;
use crate::shot_laws;
use crate::text;
use crate::types::CaptureKey;

verus! {

/// The RAWs of an archive with their capture times.
pub type Index = Seq<(CaptureKey, Seq<char>)>;

/// The places in an index with a kind of key whose RAW is not claimed.
spec fn places(index: Index, p: spec_fn(CaptureKey) -> bool, claimed: Seq<Seq<char>>) -> Seq<int>
    decreases index.len(),
{
    if index.len() == 0 {
        Seq::empty()
    } else {
        let t = places(index.drop_last(), p, claimed);
        if p(index.last().0) && !claimed.contains(index.last().1) {
            t.push(index.len() - 1)
        } else {
            t
        }
    }
}

proof fn lemma_places(index: Index, p: spec_fn(CaptureKey) -> bool, claimed: Seq<Seq<char>>)
    ensures
        ({
            let r = places(index, p, claimed);
            &&& forall|i: int|
                0 <= i < r.len() ==> 0 <= #[trigger] r[i] < index.len() && p(index[r[i]].0)
                    && !claimed.contains(index[r[i]].1)
            &&& forall|i: int, j: int| 0 <= i < j < r.len() ==> #[trigger] r[i] < #[trigger] r[j]
            &&& forall|k: int|
                0 <= k < index.len() && p((#[trigger] index[k]).0) && !claimed.contains(index[k].1)
                    ==> r.contains(k)
        }),
    decreases index.len(),
{
    if index.len() > 0 {
        let t = index.drop_last();
        lemma_places(t, p, claimed);
        let a = places(t, p, claimed);
        let r = places(index, p, claimed);
        assert forall|i: int| 0 <= i < r.len() implies 0 <= #[trigger] r[i] < index.len() && p(
            index[r[i]].0,
        ) && !claimed.contains(index[r[i]].1) by {
            if i < a.len() {
                assert(r[i] == a[i]);
                assert(index[r[i]] == t[a[i]]);
            }
        }
        assert forall|i: int, j: int| 0 <= i < j < r.len() implies #[trigger] r[i]
            < #[trigger] r[j] by {
            assert(r[i] == a[i]);
            if j < a.len() {
                assert(r[j] == a[j]);
            }
        }
        assert forall|k: int|
            0 <= k < index.len() && p((#[trigger] index[k]).0) && !claimed.contains(
                index[k].1,
            ) implies r.contains(k) by {
            if k < t.len() {
                assert(t[k] == index[k]);
                assert(a.contains(k));
                let i = choose|i: int| 0 <= i < a.len() && a[i] == k;
                assert(r[i] == k);
            } else {
                assert(r[r.len() - 1] == k);
            }
        }
    }
}

/// The RAWs at places of an index.
spec fn raws_at(index: Index, at: Seq<int>) -> Seq<Seq<char>> {
    Seq::new(at.len(), |i: int| index[at[i]].1)
}

proof fn lemma_raws_at(index: Index, p: spec_fn(CaptureKey) -> bool, claimed: Seq<Seq<char>>)
    requires
        index.len() > 0,
    ensures
        ({
            let t = index.drop_last();
            let r = raws_at(index, places(index, p, claimed));
            let s = raws_at(t, places(t, p, claimed));
            r == if p(index.last().0) && !claimed.contains(index.last().1) {
                s.push(index.last().1)
            } else {
                s
            }
        }),
{
    let t = index.drop_last();
    lemma_places(t, p, claimed);
    let a = places(t, p, claimed);
    let r = raws_at(index, places(index, p, claimed));
    let s = raws_at(t, a);
    assert forall|i: int| 0 <= i < a.len() implies index[a[i]].1 == t[#[trigger] a[i]].1 by {}
    if p(index.last().0) && !claimed.contains(index.last().1) {
        assert(r =~= s.push(index.last().1));
    } else {
        assert(r =~= s);
    }
}

proof fn lemma_with_key(index: Index, key: CaptureKey)
    ensures
        matchcmd::with_key(index, key) == raws_at(
            index,
            places(index, |k: CaptureKey| k == key, Seq::empty()),
        ),
    decreases index.len(),
{
    let p = |k: CaptureKey| k == key;
    if index.len() > 0 {
        lemma_with_key(index.drop_last(), key);
        lemma_raws_at(index, p, Seq::empty());
    } else {
        assert(matchcmd::with_key(index, key) =~= raws_at(index, places(index, p, Seq::empty())));
    }
}

proof fn lemma_with_second(index: Index, dt: Moment)
    ensures
        matchcmd::with_second(index, dt) == raws_at(
            index,
            places(index, |k: CaptureKey| k.dt == dt, Seq::empty()),
        ),
    decreases index.len(),
{
    let p = |k: CaptureKey| k.dt == dt;
    if index.len() > 0 {
        lemma_with_second(index.drop_last(), dt);
        lemma_raws_at(index, p, Seq::empty());
    } else {
        assert(matchcmd::with_second(index, dt) =~= raws_at(index, places(index, p, Seq::empty())));
    }
}

proof fn lemma_unclaimed(index: Index, p: spec_fn(CaptureKey) -> bool, claimed: Seq<Seq<char>>)
    ensures
        matchcmd::unclaimed(raws_at(index, places(index, p, Seq::empty())), claimed) == raws_at(
            index,
            places(index, p, claimed),
        ),
    decreases index.len(),
{
    let a = raws_at(index, places(index, p, Seq::empty()));
    if index.len() > 0 {
        let t = index.drop_last();
        let b = raws_at(t, places(t, p, Seq::empty()));
        lemma_unclaimed(t, p, claimed);
        lemma_raws_at(index, p, Seq::empty());
        lemma_raws_at(index, p, claimed);
        if p(index.last().0) {
            assert(a.drop_last() =~= b);
        }
    } else {
        assert(a =~= Seq::<Seq<char>>::empty());
        assert(matchcmd::unclaimed(a, claimed) =~= raws_at(index, places(index, p, claimed)));
    }
}

/// Whether a capture time of the archive is that of a keeper: the very key of
/// the shot, or where the archive has none with it, or only the second is known,
/// the very second: year, month, day, hour, minute, second and fraction.
pub open spec fn fitting(k: KeeperKey, index: Index, c: CaptureKey) -> bool {
    match k {
        KeeperKey::Precise(key) => if exists|i: int|
            0 <= i < index.len() && (#[trigger] index[i]).0.dt == key.dt && index[i].0.subsec_ms
                == key.subsec_ms {
            c.dt == key.dt && c.subsec_ms == key.subsec_ms
        } else {
            c.dt.year == key.dt.year && c.dt.month == key.dt.month && c.dt.day == key.dt.day
                && c.dt.hour == key.dt.hour && c.dt.minute == key.dt.minute && c.dt.second
                == key.dt.second && c.dt.nano == key.dt.nano
        },
        KeeperKey::Coarse(dt) => c.dt.year == dt.year && c.dt.month == dt.month && c.dt.day
            == dt.day && c.dt.hour == dt.hour && c.dt.minute == dt.minute && c.dt.second
            == dt.second && c.dt.nano == dt.nano,
        KeeperKey::Unknown => false,
    }
}

/// Whether only the second of a keeper fits, not its fraction.
pub open spec fn by_second_only(k: KeeperKey, index: Index) -> bool {
    match k {
        KeeperKey::Precise(key) => !(exists|i: int|
            0 <= i < index.len() && (#[trigger] index[i]).0.dt == key.dt && index[i].0.subsec_ms
                == key.subsec_ms),
        _ => true,
    }
}

/// A keeper is matched, never guessed: it gets the only RAW of its capture time
/// that no other keeper has claimed. With several of them it is ambiguous, with
/// none left a duplicate, and where no RAW has its capture time it is
/// unmatched.
pub proof fn law_resolved(k: KeeperKey, index: Index, claimed: Seq<Seq<char>>)
    ensures
        match matchcmd::resolved(k, index, claimed) {
            Found::Unmatched => forall|i: int|
                0 <= i < index.len() ==> !fitting(k, index, (#[trigger] index[i]).0),
            Found::Matched(raw, coarse) => {
                &&& coarse == by_second_only(k, index)
                &&& !claimed.contains(raw)
                &&& exists|i: int|
                    0 <= i < index.len() && fitting(k, index, (#[trigger] index[i]).0)
                        && index[i].1 == raw && forall|j: int|
                        0 <= j < index.len() && fitting(k, index, (#[trigger] index[j]).0)
                            && !claimed.contains(index[j].1) ==> j == i
            },
            Found::Duplicate(raw) => {
                &&& exists|i: int|
                    0 <= i < index.len() && fitting(k, index, (#[trigger] index[i]).0)
                        && index[i].1 == raw
                &&& forall|j: int|
                    0 <= j < index.len() && fitting(k, index, (#[trigger] index[j]).0)
                        ==> claimed.contains(index[j].1)
            },
            Found::Ambiguous(list) => {
                &&& exists|i: int, j: int|
                    0 <= i < j < index.len() && fitting(k, index, (#[trigger] index[i]).0)
                        && fitting(k, index, (#[trigger] index[j]).0) && !claimed.contains(
                        index[i].1,
                    ) && !claimed.contains(index[j].1)
                &&& forall|raw: Seq<char>| #[trigger]
                    list.contains(raw) <==> exists|i: int|
                        0 <= i < index.len() && fitting(k, index, (#[trigger] index[i]).0)
                            && index[i].1 == raw
            },
        },
{
    match k {
        KeeperKey::Precise(key) => {
            lemma_with_key(index, key);
            lemma_with_second(index, key.dt);
            let e = |c: CaptureKey| c == key;
            lemma_places(index, e, Seq::empty());
            let at = places(index, e, Seq::empty());
            if at.len() > 0 {
                assert(index[at[0]].0.dt == key.dt && index[at[0]].0.subsec_ms == key.subsec_ms);
                assert(!by_second_only(k, index));
                lemma_committed(k, index, claimed, e, false);
            } else {
                assert(by_second_only(k, index)) by {
                    if !by_second_only(k, index) {
                        let i = choose|i: int|
                            0 <= i < index.len() && (#[trigger] index[i]).0.dt == key.dt
                                && index[i].0.subsec_ms == key.subsec_ms;
                        assert(e(index[i].0));
                        assert(at.contains(i));
                    }
                }
                lemma_committed(k, index, claimed, |c: CaptureKey| c.dt == key.dt, true);
            }
        },
        KeeperKey::Coarse(dt) => {
            lemma_with_second(index, dt);
            lemma_committed(k, index, claimed, |c: CaptureKey| c.dt == dt, true);
        },
        KeeperKey::Unknown => {},
    }
}

proof fn lemma_committed(
    k: KeeperKey,
    index: Index,
    claimed: Seq<Seq<char>>,
    p: spec_fn(CaptureKey) -> bool,
    coarse: bool,
)
    requires
        forall|c: CaptureKey| #[trigger] p(c) == fitting(k, index, c),
    ensures
        ({
            let cand = raws_at(index, places(index, p, Seq::empty()));
            &&& cand.len() == 0 ==> forall|i: int|
                0 <= i < index.len() ==> !fitting(k, index, (#[trigger] index[i]).0)
            &&& cand.len() > 0 ==> match matchcmd::committed(cand, coarse, claimed) {
                Found::Unmatched => false,
                Found::Matched(raw, c) => {
                    &&& c == coarse
                    &&& !claimed.contains(raw)
                    &&& exists|i: int|
                        0 <= i < index.len() && fitting(k, index, (#[trigger] index[i]).0)
                            && index[i].1 == raw && forall|j: int|
                            0 <= j < index.len() && fitting(k, index, (#[trigger] index[j]).0)
                                && !claimed.contains(index[j].1) ==> j == i
                },
                Found::Duplicate(raw) => {
                    &&& exists|i: int|
                        0 <= i < index.len() && fitting(k, index, (#[trigger] index[i]).0)
                            && index[i].1 == raw
                    &&& forall|j: int|
                        0 <= j < index.len() && fitting(k, index, (#[trigger] index[j]).0)
                            ==> claimed.contains(index[j].1)
                },
                Found::Ambiguous(list) => {
                    &&& exists|i: int, j: int|
                        0 <= i < j < index.len() && fitting(k, index, (#[trigger] index[i]).0)
                            && fitting(k, index, (#[trigger] index[j]).0) && !claimed.contains(
                            index[i].1,
                        ) && !claimed.contains(index[j].1)
                    &&& forall|raw: Seq<char>| #[trigger]
                        list.contains(raw) <==> exists|i: int|
                            0 <= i < index.len() && fitting(k, index, (#[trigger] index[i]).0)
                                && index[i].1 == raw
                },
            }
        }),
{
    let none = Seq::<Seq<char>>::empty();
    let all = places(index, p, none);
    let free = places(index, p, claimed);
    let cand = raws_at(index, all);
    lemma_places(index, p, none);
    lemma_places(index, p, claimed);
    lemma_unclaimed(index, p, claimed);
    let open = matchcmd::unclaimed(cand, claimed);
    assert(open == raws_at(index, free));
    assert forall|i: int| 0 <= i < index.len() && fitting(k, index, (#[trigger] index[i]).0) implies all.contains(
        i,
    ) && (!claimed.contains(index[i].1) ==> free.contains(i)) by {
        assert(p(index[i].0));
        assert(!none.contains(index[i].1));
    }
    if cand.len() == 0 {
        assert forall|i: int| 0 <= i < index.len() implies !fitting(
            k,
            index,
            (#[trigger] index[i]).0,
        ) by {
            if fitting(k, index, index[i].0) {
                assert(all.contains(i));
            }
        }
    } else if open.len() == 0 {
        assert(p(index[all[0]].0));
        assert(index[all[0]].1 == cand[0]);
        assert forall|j: int| 0 <= j < index.len() && fitting(
            k,
            index,
            (#[trigger] index[j]).0,
        ) implies claimed.contains(index[j].1) by {
            if !claimed.contains(index[j].1) {
                assert(free.contains(j));
            }
        }
    } else if open.len() == 1 {
        let i = free[0];
        assert(p(index[i].0));
        assert(index[i].1 == open[0]);
        assert forall|j: int|
            0 <= j < index.len() && fitting(k, index, (#[trigger] index[j]).0)
                && !claimed.contains(index[j].1) implies j == i by {
            assert(free.contains(j));
        }
    } else {
        let i = free[0];
        let j = free[1];
        assert(i < j);
        assert(p(index[i].0) && p(index[j].0));
        assert forall|raw: Seq<char>| #[trigger] cand.contains(raw) <==> exists|i: int|
            0 <= i < index.len() && fitting(k, index, (#[trigger] index[i]).0) && index[i].1
                == raw by {
            if cand.contains(raw) {
                let n = choose|n: int| 0 <= n < cand.len() && cand[n] == raw;
                assert(p(index[all[n]].0));
                assert(index[all[n]].1 == raw);
            }
            if exists|i: int|
                0 <= i < index.len() && fitting(k, index, (#[trigger] index[i]).0) && index[i].1
                    == raw {
                let m = choose|i: int|
                    0 <= i < index.len() && fitting(k, index, (#[trigger] index[i]).0)
                        && index[i].1 == raw;
                assert(all.contains(m));
                let n = choose|n: int| 0 <= n < all.len() && all[n] == m;
                assert(cand[n] == raw);
            }
        }
    }
}

/// The burst rule: a keeper whose very key, fraction included, one free RAW
/// carries gets that RAW, whatever others were taken within the same second.
pub proof fn law_burst(key: CaptureKey, index: Index, claimed: Seq<Seq<char>>, i: int)
    requires
        0 <= i < index.len(),
        index[i].0 == key,
        !claimed.contains(index[i].1),
        forall|j: int| 0 <= j < index.len() && j != i ==> (#[trigger] index[j]).0 != key,
    ensures
        matchcmd::resolved(KeeperKey::Precise(key), index, claimed) == Found::Matched(
            index[i].1,
            false,
        ),
{
    let k = KeeperKey::Precise(key);
    law_resolved(k, index, claimed);
    assert(index[i].0.dt == key.dt && index[i].0.subsec_ms == key.subsec_ms);
    assert(!by_second_only(k, index));
    assert(fitting(k, index, index[i].0));
    match matchcmd::resolved(k, index, claimed) {
        Found::Matched(raw, coarse) => {},
        Found::Ambiguous(list) => {
            let (a, b) = choose|a: int, b: int|
                0 <= a < b < index.len() && fitting(k, index, (#[trigger] index[a]).0) && fitting(
                    k,
                    index,
                    (#[trigger] index[b]).0,
                ) && !claimed.contains(index[a].1) && !claimed.contains(index[b].1);
            assert(index[a].0 == key && index[b].0 == key);
        },
        _ => {},
    }
}

/// What is claimed is what was matched before: the claims at a keeper are the
/// RAWs of the matched keepers before it.
pub proof fn law_claims(items: Seq<(Seq<char>, KeeperKey)>, index: Index, raw: Seq<char>)
    ensures
        matchcmd::all_resolved(items, index).0.len() == items.len(),
        forall|i: int|
            0 <= i < items.len() ==> (#[trigger] matchcmd::all_resolved(items, index).0[i]).0
                == items[i].0,
        matchcmd::all_resolved(items, index).1.contains(raw) <==> exists|i: int|
            0 <= i < items.len() && ((#[trigger] matchcmd::all_resolved(items, index).0[i]).1
                matches Found::Matched(r, _) && r == raw),
    decreases items.len(),
{
    let all = matchcmd::all_resolved(items, index);
    if items.len() > 0 {
        let t = items.drop_last();
        law_claims(t, index, raw);
        let before = matchcmd::all_resolved(t, index);
        let n = t.len() as int;
        assert forall|i: int| 0 <= i < items.len() implies (#[trigger] all.0[i]).0 == items[i].0 by {
            if i < n {
                assert(all.0[i] == before.0[i]);
            }
        }
        if all.1.contains(raw) {
            if before.1.contains(raw) {
                let i = choose|i: int|
                    0 <= i < t.len() && ((#[trigger] before.0[i]).1 matches Found::Matched(r, _) && r
                        == raw);
                assert(all.0[i] == before.0[i]);
            } else {
                let x = choose|x: int| 0 <= x < all.1.len() && all.1[x] == raw;
                if x < before.1.len() {
                    assert(before.1[x] == raw);
                }
                assert(all.0[n].1 matches Found::Matched(r, _) && r == raw);
            }
        }
        if exists|i: int|
            0 <= i < items.len() && ((#[trigger] all.0[i]).1 matches Found::Matched(r, _) && r
                == raw) {
            let i = choose|i: int|
                0 <= i < items.len() && ((#[trigger] all.0[i]).1 matches Found::Matched(r, _) && r
                    == raw);
            if i < n {
                assert(all.0[i] == before.0[i]);
                assert(before.1.contains(raw));
                let x = choose|x: int| 0 <= x < before.1.len() && before.1[x] == raw;
                assert(all.1[x] == raw);
            } else {
                assert(all.1[all.1.len() - 1] == raw);
            }
        }
    }
}

/// Each keeper is resolved against what the keepers before it have left.
pub proof fn law_each_resolved(items: Seq<(Seq<char>, KeeperKey)>, index: Index, i: int)
    requires
        0 <= i < items.len(),
    ensures
        matchcmd::all_resolved(items, index).0[i].1 == matchcmd::resolved(
            items[i].1,
            index,
            matchcmd::all_resolved(items.take(i), index).1,
        ),
    decreases items.len(),
{
    let t = items.drop_last();
    law_claims(t, index, Seq::empty());
    if i < t.len() {
        law_each_resolved(t, index, i);
        assert(t.take(i) =~= items.take(i));
        assert(matchcmd::all_resolved(items, index).0[i] == matchcmd::all_resolved(t, index).0[i]);
    } else {
        assert(items.take(i) =~= t);
    }
}

/// A RAW is looked at where its folder's day is at most one day from a keeper's
/// day, before or after; and no other filed one is.
pub proof fn law_needed_days(keys: Seq<KeeperKey>, d: Day)
    requires
        matchcmd::real_days(keys),
        d.valid(),
    ensures
        matchcmd::needed(keys, d) <==> exists|i: int|
            0 <= i < keys.len() && within_a_day(#[trigger] keys[i], d),
{
    assert forall|i: int| 0 <= i < keys.len() implies matchcmd::near(#[trigger] keys[i], d)
        == within_a_day(keys[i], d) by {
        match keys[i] {
            KeeperKey::Precise(key) => {
                assert(matchcmd::key_day(keys[i]) == Some(key.dt.date()));
                clock_laws::law_neighbours(key.dt.date(), d);
            },
            KeeperKey::Coarse(m) => {
                assert(matchcmd::key_day(keys[i]) == Some(m.date()));
                clock_laws::law_neighbours(m.date(), d);
            },
            KeeperKey::Unknown => {},
        }
    }
}

/// Whether a day is at most one day away from a keeper's.
pub open spec fn within_a_day(k: KeeperKey, d: Day) -> bool {
    match k {
        KeeperKey::Precise(key) => -1 <= clock_laws::number_of(d) - clock_laws::number_of(
            Day { year: key.dt.year, month: key.dt.month, day: key.dt.day },
        ) <= 1,
        KeeperKey::Coarse(m) => -1 <= clock_laws::number_of(d) - clock_laws::number_of(
            Day { year: m.year, month: m.month, day: m.day },
        ) <= 1,
        KeeperKey::Unknown => false,
    }
}

/// The RAWs to be gathered are those of the matched keepers, in order, and no
/// others.
pub proof fn law_matched_raws(keepers: Seq<(Seq<char>, Found)>, raw: Seq<char>)
    ensures
        matchcmd::matched_raws(keepers).contains(raw) <==> exists|i: int|
            0 <= i < keepers.len() && ((#[trigger] keepers[i]).1 matches Found::Matched(r, _) && r
                == raw),
        matchcmd::matched_raws(keepers).len() == matchcmd::tally(keepers, Tally::Matched),
    decreases keepers.len(),
{
    let all = matchcmd::matched_raws(keepers);
    if keepers.len() > 0 {
        let t = keepers.drop_last();
        law_matched_raws(t, raw);
        let before = matchcmd::matched_raws(t);
        if all.contains(raw) {
            let x = choose|x: int| 0 <= x < all.len() && all[x] == raw;
            if x < before.len() {
                assert(before[x] == raw);
                let i = choose|i: int|
                    0 <= i < t.len() && ((#[trigger] t[i]).1 matches Found::Matched(r, _) && r
                        == raw);
                assert(keepers[i] == t[i]);
            } else {
                assert(keepers[keepers.len() - 1].1 matches Found::Matched(r, _) && r == raw);
            }
        }
        if exists|i: int|
            0 <= i < keepers.len() && ((#[trigger] keepers[i]).1 matches Found::Matched(r, _) && r
                == raw) {
            let i = choose|i: int|
                0 <= i < keepers.len() && ((#[trigger] keepers[i]).1 matches Found::Matched(r, _)
                    && r == raw);
            if i < t.len() {
                assert(t[i] == keepers[i]);
                assert(before.contains(raw));
                let x = choose|x: int| 0 <= x < before.len() && before[x] == raw;
                assert(all[x] == raw);
            } else {
                assert(all[all.len() - 1] == raw);
            }
        }
    }
}

/// Every keeper is counted once: matched, unmatched, ambiguous or duplicate.
/// What is not settled is what is unmatched or ambiguous, and a match at second
/// precision is a match.
pub proof fn law_tallies_add_up(keepers: Seq<(Seq<char>, Found)>)
    ensures
        matchcmd::tally(keepers, Tally::Matched) + matchcmd::tally(keepers, Tally::Unmatched)
            + matchcmd::tally(keepers, Tally::Ambiguous) + matchcmd::tally(
            keepers,
            Tally::Duplicate,
        ) == keepers.len(),
        matchcmd::tally(keepers, Tally::Unsettled) == matchcmd::tally(keepers, Tally::Unmatched)
            + matchcmd::tally(keepers, Tally::Ambiguous),
        matchcmd::tally(keepers, Tally::Unsettled) == 0 <==> forall|i: int|
            0 <= i < keepers.len() ==> (#[trigger] keepers[i]).1 is Matched || keepers[i].1
                is Duplicate,
        0 <= matchcmd::tally(keepers, Tally::Coarse) <= matchcmd::tally(keepers, Tally::Matched),
        forall|t: Tally| #[trigger] matchcmd::tally(keepers, t) >= 0,
    decreases keepers.len(),
{
    if keepers.len() > 0 {
        let t = keepers.drop_last();
        law_tallies_add_up(t);
        let last = keepers.last().1;
        assert(keepers[keepers.len() - 1].1 == last);
        if forall|i: int|
            0 <= i < t.len() ==> (#[trigger] t[i]).1 is Matched || t[i].1 is Duplicate {
            assert forall|i: int| 0 <= i < keepers.len() - 1 implies (#[trigger] keepers[i]).1
                is Matched || keepers[i].1 is Duplicate by {
                assert(t[i] == keepers[i]);
            }
        } else {
            let i = choose|i: int|
                0 <= i < t.len() && !((#[trigger] t[i]).1 is Matched || t[i].1 is Duplicate);
            assert(keepers[i] == t[i]);
        }
        assert forall|x: Tally| #[trigger] matchcmd::tally(keepers, x) >= 0 by {
            assert(matchcmd::tally(t, x) >= 0);
        }
    }
}

/// Gathering leaves out only what is there already: every RAW is in the list,
/// under a place in the output directory, unless a file of its name and size is
/// there that is not of this list.
pub proof fn law_gathered_once(raws: Seq<Seq<char>>, out: Seq<char>, shelf: Shelf, raw: Seq<char>)
    requires
        raws.contains(raw),
        paths::name_of(raw) is Some,
        !(shelf.same_size)(paths::joined(out, paths::name_of(raw)->0), raw),
    ensures
        exists|j: int|
            0 <= j < matchcmd::gather_list(raws, 0, out, Seq::empty(), shelf).len() && (
            #[trigger] matchcmd::gather_list(raws, 0, out, Seq::empty(), shelf)[j]).0 == raw,
{
    let i = choose|i: int| 0 <= i < raws.len() && raws[i] == raw;
    lemma_gathered(raws, 0, out, Seq::empty(), shelf, i);
}

proof fn lemma_gathered(
    raws: Seq<Seq<char>>,
    k: int,
    out: Seq<char>,
    taken: Seq<Seq<char>>,
    shelf: Shelf,
    i: int,
)
    requires
        0 <= k <= i < raws.len(),
        paths::name_of(raws[i]) is Some,
        !(shelf.same_size)(paths::joined(out, paths::name_of(raws[i])->0), raws[i]),
    ensures
        exists|j: int|
            0 <= j < matchcmd::gather_list(raws, k, out, taken, shelf).len() && (
            #[trigger] matchcmd::gather_list(raws, k, out, taken, shelf)[j]).0 == raws[i],
    decreases i - k,
{
    let all = matchcmd::gather_list(raws, k, out, taken, shelf);
    match matchcmd::place_for(out, raws[k], taken, shelf) {
        None => {
            if i == k {
                assert(!matchcmd::gathered_before(out, raws[k], taken, shelf));
            } else {
                lemma_gathered(raws, k + 1, out, taken, shelf, i);
                assert(all == matchcmd::gather_list(raws, k + 1, out, taken, shelf));
                let rest = matchcmd::gather_list(raws, k + 1, out, taken, shelf);
                let j = choose|j: int| 0 <= j < rest.len() && (#[trigger] rest[j]).0 == raws[i];
                assert(all[j].0 == raws[i]);
            }
        },
        Some(p) => {
            let rest = matchcmd::gather_list(raws, k + 1, out, taken.push(p), shelf);
            assert(all == seq![(raws[k], p)] + rest);
            if i == k {
                assert(all[0].0 == raws[i]);
            } else {
                lemma_gathered(raws, k + 1, out, taken.push(p), shelf, i);
                let j = choose|j: int| 0 <= j < rest.len() && (#[trigger] rest[j]).0 == raws[i];
                assert(all[j + 1] == rest[j]);
                assert(all[j + 1].0 == raws[i]);
            }
        },
    }
}

/// The first RAW keeps its name where nothing is in its place.
pub proof fn law_gathered_under_its_name(
    raw: Seq<char>,
    out: Seq<char>,
    taken: Seq<Seq<char>>,
    shelf: Shelf,
)
    requires
        paths::name_of(raw) is Some,
        !(shelf.present)(paths::joined(out, paths::name_of(raw)->0)),
        !(shelf.same_size)(paths::joined(out, paths::name_of(raw)->0), raw),
        !taken.contains(paths::joined(out, paths::name_of(raw)->0)),
    ensures
        matchcmd::place_for(out, raw, taken, shelf) == Some(
            paths::joined(out, paths::name_of(raw)->0),
        ),
{
    let first = paths::joined(out, paths::name_of(raw)->0);
    assert(matchcmd::nth_place(out, raw, 1) == first);
    assert(matchcmd::first_open(out, raw, taken, shelf, 1));
    let n = choose|n: int| matchcmd::first_open(out, raw, taken, shelf, n);
    if n > 1 {
        assert(!matchcmd::open_place(matchcmd::nth_place(out, raw, 1), taken, shelf));
    }
}

// ---------------------------------------------------------------------------
// The archive
// ---------------------------------------------------------------------------

/// The day under which a RAW is filed is the one that the name of its directory
/// says, written as year, month and day with hyphens; no other part of its path
/// matters.
pub proof fn law_filed_under(d: Seq<char>, folder: Seq<char>, file: Seq<char>)
    requires
        paths::absolute(d),
        paths::proper_name(folder),
        paths::proper_name(file),
    ensures
        ({
            let p = (d.push('/') + folder).push('/') + file;
            let read = clock::parsed_date(folder, "%Y-%m-%d"@);
            &&& read is None ==> matchcmd::filed_under(p) is None
            &&& read matches Some((y, m, day)) ==> matchcmd::filed_under(p) == Some(
                Day { year: y as i32, month: m as u32, day: day as u32 },
            )
        }),
{
    let a = d.push('/') + folder;
    let p = a.push('/') + file;
    path_laws::law_name_and_parent(a, file);
    path_laws::law_name_and_parent(d, folder);
    assert(a[0] == d[0]);
    paths::lemma_parts_rooted(a);
    paths::law_path_round_trip(paths::parts(a));
    assert(paths::name_of(paths::path_of(paths::parts(a))) == Some(folder));
}

/// A file is a RAW where its extension says so, whatever its case.
pub proof fn law_is_raw(d: Seq<char>, a: Seq<char>, e: Seq<char>)
    requires
        d.len() > 0,
        a.len() > 0,
        a[0] != '.',
        !a.contains('/') && !e.contains('/'),
        !e.contains('.'),
    ensures
        matchcmd::is_raw(d.push('/') + (a + seq!['.'] + e)) <==> shot_laws::raw_word(
            text::ascii_lower(e),
        ),
{
    path_laws::lemma_dotted_name(a, e);
    path_laws::law_name_and_parent(d, a + seq!['.'] + e);
    shot_laws::law_stem_and_extension(a, e);
    shot_laws::law_kinds(text::ascii_lower(e));
}

/// The n-th place for a RAW: its own name first, then its stem with an
/// underscore and the number, in the output directory.
pub proof fn law_places(d: Seq<char>, a: Seq<char>, e: Seq<char>, out: Seq<char>, n: int)
    requires
        d.len() > 0,
        a.len() > 0,
        a[0] != '.',
        !a.contains('/') && !e.contains('/'),
        !e.contains('.'),
        n >= 2,
    ensures
        ({
            let raw = d.push('/') + (a + seq!['.'] + e);
            &&& matchcmd::nth_place(out, raw, 1) == paths::joined(out, a + seq!['.'] + e)
            &&& matchcmd::nth_place(out, raw, n) == paths::joined(
                out,
                a + seq!['_'] + text::decimal(n as nat) + seq!['.'] + e,
            )
        }),
{
    reveal_strlit("_");
    reveal_strlit(".");
    path_laws::lemma_dotted_name(a, e);
    path_laws::law_name_and_parent(d, a + seq!['.'] + e);
    shot_laws::law_stem_and_extension(a, e);
    assert("_"@ =~= seq!['_']);
    assert("."@ =~= seq!['.']);
}

// ---------------------------------------------------------------------------
// Numbers and lines
// ---------------------------------------------------------------------------

/// How many keepers answer a description.
pub open spec fn how_many(
    keepers: Seq<(Seq<char>, Found)>,
    p: spec_fn(Found) -> bool,
) -> int
    decreases keepers.len(),
{
    if keepers.len() == 0 {
        0
    } else {
        how_many(keepers.drop_last(), p) + if p(keepers.last().1) {
            1int
        } else {
            0
        }
    }
}

/// The numbers of a match: each counts what its name says.
pub proof fn law_match_numbers(keepers: Seq<(Seq<char>, Found)>)
    ensures
        matchcmd::tally(keepers, Tally::Matched) == how_many(keepers, |f: Found| f is Matched),
        matchcmd::tally(keepers, Tally::Coarse) == how_many(
            keepers,
            |f: Found| f is Matched && f->Matched_1,
        ),
        matchcmd::tally(keepers, Tally::Unmatched) == how_many(
            keepers,
            |f: Found| f is Unmatched,
        ),
        matchcmd::tally(keepers, Tally::Ambiguous) == how_many(
            keepers,
            |f: Found| f is Ambiguous,
        ),
        matchcmd::tally(keepers, Tally::Duplicate) == how_many(
            keepers,
            |f: Found| f is Duplicate,
        ),
        matchcmd::tally(keepers, Tally::Unsettled) == how_many(
            keepers,
            |f: Found| f is Unmatched || f is Ambiguous,
        ),
    decreases keepers.len(),
{
    if keepers.len() > 0 {
        law_match_numbers(keepers.drop_last());
    }
}

/// What is told of a keeper that has no RAW of its own: its name, and the names
/// of the RAWs it could mean, or of the one that is taken.
pub proof fn law_keeper_told(name: Seq<char>, raws: Seq<Seq<char>>, raw: Seq<char>)
    ensures
        matchcmd::keeper_line((name, Found::Unmatched)) == "      "@ + matchcmd::short_of(name),
        matchcmd::keeper_line((name, Found::Duplicate(raw))) == "      "@ + matchcmd::short_of(name)
            + "  ->  "@ + matchcmd::short_of(raw),
        matchcmd::keeper_line((name, Found::Ambiguous(raws))) == "      "@ + matchcmd::short_of(
            name,
        ) + "  ->  "@ + text::join(
            Seq::new(raws.len(), |i: int| matchcmd::short_of(raws[i])),
            ", "@,
        ),
        match paths::name_of(name) {
            Some(n) => matchcmd::short_of(name) == n,
            None => matchcmd::short_of(name) == name,
        },
{
}

/// The lines on a kind of keeper: one for each keeper of that kind, in order.
pub proof fn law_keeper_lines(
    keepers: Seq<(Seq<char>, Found)>,
    k: (Seq<char>, Found),
)
    ensures
        ({
            let all = keepers.push(k);
            let line = matchcmd::keeper_line(k);
            &&& matchcmd::keeper_lines(all, Tally::Unmatched) == if k.1 is Unmatched {
                matchcmd::keeper_lines(keepers, Tally::Unmatched).push(line)
            } else {
                matchcmd::keeper_lines(keepers, Tally::Unmatched)
            }
            &&& matchcmd::keeper_lines(all, Tally::Ambiguous) == if k.1 is Ambiguous {
                matchcmd::keeper_lines(keepers, Tally::Ambiguous).push(line)
            } else {
                matchcmd::keeper_lines(keepers, Tally::Ambiguous)
            }
            &&& matchcmd::keeper_lines(all, Tally::Duplicate) == if k.1 is Duplicate {
                matchcmd::keeper_lines(keepers, Tally::Duplicate).push(line)
            } else {
                matchcmd::keeper_lines(keepers, Tally::Duplicate)
            }
        }),
{
    assert(keepers.push(k).drop_last() =~= keepers);
}

/// The head of a preview: how many photos were kept, how many have a RAW, and
/// how many are gathered, where and how.
pub proof fn law_match_preview(
    keepers: Seq<(Seq<char>, Found)>,
    to_gather: int,
    action: MatchAction,
    out: Seq<char>,
)
    ensures
        ({
            let l = matchcmd::preview_of(keepers, to_gather, action, out);
            let coarse = matchcmd::tally(keepers, Tally::Coarse);
            let word = match action {
                MatchAction::Copy => "copy     "@,
                MatchAction::Move => "move     "@,
                MatchAction::Link => "link     "@,
            };
            let gathered = "  to "@ + word + ": "@ + text::decimal(to_gather as nat) + "  ->  "@
                + out;
            &&& l.len() >= 5
            &&& l[0].len() == 0
            &&& l[1] == "Match summary"@
            &&& l[2] == "  kept photos : "@ + text::decimal(keepers.len())
            &&& l[3] == "  matched RAW : "@ + text::decimal(
                matchcmd::tally(keepers, Tally::Matched) as nat,
            )
            &&& coarse > 0 ==> l.len() >= 6 && l[4] == "    (of these, "@ + text::decimal(
                coarse as nat,
            ) + " matched at second precision only)"@ && l[5] == gathered
            &&& coarse <= 0 ==> l[4] == gathered
        }),
{
    reveal_strlit("copy");
    reveal_strlit("move");
    reveal_strlit("link");
    reveal_strlit("copy     ");
    reveal_strlit("move     ");
    reveal_strlit("link     ");
    assert(text::pad_right("copy"@, 9) =~= "copy     "@);
    assert(text::pad_right("move"@, 9) =~= "move     "@);
    assert(text::pad_right("link"@, 9) =~= "link     "@);
}

/// A section of a preview: left out where there is nothing to tell, else its
/// heading with the number, and a line for each keeper; where there are more
/// than fit, the first of them and how many more there are.
pub proof fn law_section(
    keepers: Seq<(Seq<char>, Found)>,
    t: Tally,
    head: Seq<char>,
    tail: Seq<char>,
    most: int,
)
    requires
        0 <= most,
    ensures
        ({
            let s = matchcmd::section(keepers, t, head, tail, most);
            let lines = matchcmd::keeper_lines(keepers, t);
            let n = matchcmd::tally(keepers, t);
            &&& n == lines.len()
            &&& n == 0 <==> s.len() == 0
            &&& n > 0 ==> s[0] == head + text::decimal(n as nat) + tail
            &&& 0 < n <= most ==> s.skip(1) == lines
            &&& n > most && n > 0 ==> s.len() == most + 2 && s.subrange(1, most + 1) == lines.take(
                most,
            ) && s.last() == "      ... and "@ + text::decimal((n - most) as nat) + " more"@
        }),
{
    lemma_line_count(keepers, t);
    let s = matchcmd::section(keepers, t, head, tail, most);
    let lines = matchcmd::keeper_lines(keepers, t);
    let n = matchcmd::tally(keepers, t);
    if 0 < n <= most {
        assert(s.skip(1) =~= lines);
    } else if n > 0 {
        assert(s.subrange(1, most + 1) =~= lines.take(most));
    }
}

proof fn lemma_line_count(keepers: Seq<(Seq<char>, Found)>, t: Tally)
    ensures
        matchcmd::tally(keepers, t) == matchcmd::keeper_lines(keepers, t).len(),
    decreases keepers.len(),
{
    if keepers.len() > 0 {
        lemma_line_count(keepers.drop_last(), t);
    }
}

/// A RAW is taken for gathered before only where a file of its name and size
/// was there before this run: where the place was given to another RAW of the
/// run, it gets a place of its own.
pub proof fn law_not_mistaken_for_another(
    raw: Seq<char>,
    out: Seq<char>,
    taken: Seq<Seq<char>>,
    shelf: Shelf,
)
    requires
        paths::name_of(raw) is Some,
    ensures
        ({
            let first = paths::joined(out, paths::name_of(raw)->0);
            matchcmd::place_for(out, raw, taken, shelf) is None <==> !taken.contains(first) && (
            shelf.same_size)(first, raw)
        }),
{
    let first = paths::joined(out, paths::name_of(raw)->0);
    assert(matchcmd::nth_place(out, raw, 1) == first);
}

/// No RAW that a keeper could match is passed over: one that is filed under the
/// day of a keeper, the day before or the day after, is read, and so is one
/// that is not filed under a day at all. A RAW of any other day is skipped, and
/// what is no RAW is never read.
pub proof fn law_archive_scan(
    keys: Seq<KeeperKey>,
    days: Seq<Day>,
    file: Seq<char>,
)
    requires
        forall|d: Day| #[trigger] days.contains(d) <==> matchcmd::needed(keys, d),
    ensures
        ({
            let seen = matchcmd::seen_as(file, days);
            &&& !matchcmd::is_raw(file) <==> seen == RawSeen::Other
            &&& matchcmd::is_raw(file) && matchcmd::filed_under(file) is None ==> seen
                == RawSeen::Wanted
            &&& matchcmd::filed_under(file) matches Some(d) ==> {
                &&& matchcmd::is_raw(file) && (exists|i: int|
                    0 <= i < keys.len() && matchcmd::near(#[trigger] keys[i], d)) ==> seen
                    == RawSeen::Wanted
                &&& matchcmd::is_raw(file) && !(exists|i: int|
                    0 <= i < keys.len() && matchcmd::near(#[trigger] keys[i], d)) ==> seen
                    == RawSeen::Skipped
            }
        }),
{
    if matchcmd::filed_under(file) is Some {
        let d = matchcmd::filed_under(file)->0;
        assert(days.contains(d) <==> matchcmd::needed(keys, d));
    }
}

} // verus!
