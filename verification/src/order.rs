//! Stable ordering of positions.
//!
//! A list is put into order by ranking its positions `0, 1, ..`: a position
//! comes before another where its element is ahead, and elements neither of
//! which is ahead of the other keep their order.

use vstd::prelude::*;

verus! {

/// Where `x` goes in an ordered list: behind the last element that `x` is not
/// ahead of.
pub open spec fn slot(s: Seq<int>, x: int, ahead: spec_fn(int, int) -> bool) -> int
    decreases s.len(),
{
    if s.len() == 0 {
        0
    } else if ahead(x, s.last()) {
        slot(s.drop_last(), x, ahead)
    } else {
        s.len() as int
    }
}

/// The positions `0` to `n - 1` in order.
pub open spec fn ranking(n: nat, ahead: spec_fn(int, int) -> bool) -> Seq<int>
    decreases n,
{
    if n == 0 {
        Seq::empty()
    } else {
        let s = ranking((n - 1) as nat, ahead);
        s.insert(slot(s, n - 1, ahead), n - 1)
    }
}

/// The elements of a list in order.
pub open spec fn arranged<T>(s: Seq<T>, ahead: spec_fn(int, int) -> bool) -> Seq<T> {
    let r = ranking(s.len(), ahead);
    Seq::new(s.len(), |i: int| s[r[i]])
}

/// Whether every position from `0` to `n - 1` occurs exactly once.
pub open spec fn is_permutation(s: Seq<int>, n: nat) -> bool {
    &&& s.len() == n
    &&& forall|i: int| 0 <= i < n ==> 0 <= #[trigger] s[i] < n
    &&& forall|i: int, j: int| 0 <= i < j < n ==> #[trigger] s[i] != #[trigger] s[j]
    &&& forall|x: int| 0 <= x < n ==> #[trigger] s.contains(x)
}

pub proof fn lemma_slot(s: Seq<int>, x: int, ahead: spec_fn(int, int) -> bool)
    ensures
        0 <= slot(s, x, ahead) <= s.len(),
        forall|k: int| slot(s, x, ahead) <= k < s.len() ==> ahead(x, #[trigger] s[k]),
        slot(s, x, ahead) > 0 ==> !ahead(x, s[slot(s, x, ahead) - 1]),
    decreases s.len(),
{
    if s.len() > 0 && ahead(x, s.last()) {
        let t = s.drop_last();
        lemma_slot(t, x, ahead);
        assert forall|k: int| slot(s, x, ahead) <= k < s.len() implies ahead(x, #[trigger] s[k]) by {
            if k < t.len() {
                assert(ahead(x, t[k]));
            }
        }
    }
}

/// A ranking holds every position exactly once.
pub proof fn lemma_ranking(n: nat, ahead: spec_fn(int, int) -> bool)
    ensures
        is_permutation(ranking(n, ahead), n),
    decreases n,
{
    if n > 0 {
        let m = (n - 1) as nat;
        let s = ranking(m, ahead);
        let k = slot(s, n - 1, ahead);
        let t = ranking(n, ahead);
        lemma_ranking(m, ahead);
        lemma_slot(s, n - 1, ahead);
        assert(t == s.insert(k, n - 1));
        assert forall|i: int| 0 <= i < n implies 0 <= #[trigger] t[i] < n by {
            if i < k {
                assert(t[i] == s[i]);
            } else if i > k {
                assert(t[i] == s[i - 1]);
            }
        }
        assert forall|i: int, j: int| 0 <= i < j < n implies #[trigger] t[i] != #[trigger] t[j] by {
            let a = if i < k {
                s[i]
            } else if i > k {
                s[i - 1]
            } else {
                n - 1
            };
            let b = if j < k {
                s[j]
            } else if j > k {
                s[j - 1]
            } else {
                n - 1
            };
            assert(t[i] == a && t[j] == b);
        }
        assert forall|x: int| 0 <= x < n implies #[trigger] t.contains(x) by {
            if x == n - 1 {
                assert(t[k] == x);
            } else {
                assert(s.contains(x));
                let i = choose|i: int| 0 <= i < s.len() && s[i] == x;
                if i < k {
                    assert(t[i] == x);
                } else {
                    assert(t[i + 1] == x);
                }
            }
        }
    }
}

/// Whether `ahead` orders the positions below `n`: of two at most one is ahead
/// of the other, and what is ahead of something is ahead of all that is not.
pub open spec fn orders(n: nat, ahead: spec_fn(int, int) -> bool) -> bool {
    &&& forall|a: int, b: int|
        0 <= a < n && 0 <= b < n && #[trigger] ahead(a, b) ==> !ahead(b, a)
    &&& forall|a: int, b: int, c: int|
        #![trigger ahead(a, b), ahead(c, b)]
        0 <= a < n && 0 <= b < n && 0 <= c < n && ahead(a, b) && !ahead(c, b) ==> ahead(a, c)
}

/// In a ranking nothing stands behind what it is ahead of, and what is neither
/// ahead nor behind stays in its first order.
pub proof fn law_ranking_ordered(n: nat, ahead: spec_fn(int, int) -> bool, p: int, q: int)
    requires
        orders(n, ahead),
        0 <= p < q < n,
    ensures
        !ahead(ranking(n, ahead)[q], ranking(n, ahead)[p]),
        ranking(n, ahead)[p] > ranking(n, ahead)[q] ==> ahead(
            ranking(n, ahead)[p],
            ranking(n, ahead)[q],
        ),
    decreases n,
{
    let m = (n - 1) as nat;
    let s = ranking(m, ahead);
    let x = n - 1;
    let k = slot(s, x, ahead);
    let t = ranking(n, ahead);
    lemma_ranking(m, ahead);
    lemma_slot(s, x, ahead);
    assert(t == s.insert(k, x));
    assert(orders(m, ahead));
    if p != k && q != k {
        let i = if p < k {
            p
        } else {
            p - 1
        };
        let j = if q < k {
            q
        } else {
            q - 1
        };
        law_ranking_ordered(m, ahead, i, j);
        assert(t[p] == s[i] && t[q] == s[j]);
    } else if p == k {
        assert(t[q] == s[q - 1]);
        assert(0 <= s[q - 1] < m);
        assert(ahead(x, s[q - 1]));
    } else {
        // q == k: the last element that x is not ahead of is s[k - 1], and
        // everything before it is not behind it.
        assert(t[p] == s[p]);
        assert(!ahead(x, s[k - 1]));
        assert(0 <= s[p] < m && 0 <= s[k - 1] < m);
        if ahead(x, s[p]) {
            if p < k - 1 {
                law_ranking_ordered(m, ahead, p, k - 1);
                assert(!ahead(s[k - 1], s[p]));
                assert(ahead(x, s[k - 1]));
            }
        }
    }
}

/// The positions that a vector holds.
pub open spec fn positions(v: Seq<usize>) -> Seq<int> {
    Seq::new(v.len(), |i: int| v[i] as int)
}

/// Something whose positions can be compared.
pub trait Ranks {
    /// How many positions there are.
    spec fn count(&self) -> nat;

    /// Whether the first position is ahead of the second.
    spec fn ahead(&self) -> spec_fn(int, int) -> bool;

    /// Whether position `i` is ahead of position `j`.
    fn is_ahead(&self, i: usize, j: usize) -> (r: bool)
        requires
            i < self.count(),
            j < self.count(),
        ensures
            r == (self.ahead())(i as int, j as int),
    ;
}

/// The positions `0` to `n - 1` in order.
pub fn rank<R: Ranks>(r: &R, n: usize) -> (v: Vec<usize>)
    requires
        n == r.count(),
    ensures
        positions(v@) == ranking(n as nat, r.ahead()),
        is_permutation(positions(v@), n as nat),
{
    let mut v: Vec<usize> = Vec::new();
    let mut x: usize = 0;
    proof {
        assert(positions(v@) =~= Seq::<int>::empty());
    }
    while x < n
        invariant
            x <= n,
            n == r.count(),
            positions(v@) == ranking(x as nat, r.ahead()),
        decreases n - x,
    {
        let ghost s = positions(v@);
        proof {
            lemma_ranking(x as nat, r.ahead());
        }
        proof {
            assert(s.take(s.len() as int) =~= s);
        }
        let mut k: usize = v.len();
        let mut going: bool = k > 0;
        while going
            invariant
                n == r.count(),
                x < n,
                s == positions(v@),
                is_permutation(s, x as nat),
                k <= v@.len(),
                going ==> k > 0,
                !going ==> k == 0 || !(r.ahead())(x as int, s[k - 1]),
                slot(s, x as int, r.ahead()) == slot(s.take(k as int), x as int, r.ahead()),
            decreases (if going {
                k as int + 1
            } else {
                0
            }),
        {
            proof {
                assert(s.take(k as int).drop_last() =~= s.take(k - 1));
                assert(s.take(k as int).last() == s[k - 1]);
                assert(0 <= s[k - 1] < x);
            }
            if r.is_ahead(x, v[k - 1]) {
                k = k - 1;
                going = k > 0;
            } else {
                going = false;
            }
        }
        proof {
            assert(s.take(s.len() as int) =~= s);
            if k > 0 {
                assert(s.take(k as int).last() == s[k - 1]);
            }
            assert(slot(s, x as int, r.ahead()) == k);
        }
        v.insert(k, x);
        proof {
            assert(positions(v@) =~= s.insert(k as int, x as int));
        }
        x = x + 1;
    }
    proof {
        lemma_ranking(n as nat, r.ahead());
    }
    v
}

} // verus!
