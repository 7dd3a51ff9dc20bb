//! Mathematical model of the breadth-first exploration of the word graph:
//! the frontier sets (words at each exact distance from the start word),
//! paths through the adjacency relation, and the proof that frontier
//! membership coincides with the true shortest-path distance.

use vstd::prelude::*;
use vstd::set_lib::{lemma_int_range, lemma_len_subset, set_int_range};
use crate::adjacency::adjacent;

verus! {

/// Indices `i` and `j` are both in range and the words there are adjacent.
pub open spec fn adj_idx(d: Seq<Seq<char>>, i: int, j: int) -> bool {
    0 <= i < d.len() && 0 <= j < d.len() && adjacent(d[i], d[j])
}

/// The breadth-first distance of `j` from `s` is at most `k`.
pub open spec fn in_settled(d: Seq<Seq<char>>, s: int, k: int, j: int) -> bool
    decreases k, 1int,
{
    if k <= 0 {
        j == s
    } else {
        in_settled(d, s, k - 1, j) || in_frontier(d, s, k, j)
    }
}

/// The breadth-first distance of `j` from `s` is exactly `k`: `j` is not
/// settled earlier and is adjacent to a word of the previous frontier.
pub open spec fn in_frontier(d: Seq<Seq<char>>, s: int, k: int, j: int) -> bool
    decreases k, 0int,
{
    if k <= 0 {
        j == s
    } else {
        0 <= j < d.len() && !in_settled(d, s, k - 1, j) && exists|i: int|
            in_frontier(d, s, k - 1, i) && #[trigger] adj_idx(d, i, j)
    }
}

/// Words whose breadth-first distance from `s` is at most `k`.
pub open spec fn settled(d: Seq<Seq<char>>, s: int, k: int) -> Set<int> {
    Set::new(|j: int| in_settled(d, s, k, j))
}

/// Words whose breadth-first distance from `s` is exactly `k`.
pub open spec fn frontier(d: Seq<Seq<char>>, s: int, k: int) -> Set<int> {
    Set::new(|j: int| in_frontier(d, s, k, j))
}

/// `p` is a walk through the dictionary: nonempty, every entry in range,
/// consecutive entries adjacent.
pub open spec fn is_path(d: Seq<Seq<char>>, p: Seq<int>) -> bool {
    p.len() >= 1 && (forall|m: int| 0 <= m < p.len() ==> 0 <= #[trigger] p[m] < d.len())
        && (forall|m: int| 0 <= m < p.len() - 1 ==> adj_idx(d, #[trigger] p[m], p[m + 1]))
}

/// `p` is a walk from `s` to `t`.
pub open spec fn connects(d: Seq<Seq<char>>, p: Seq<int>, s: int, t: int) -> bool {
    is_path(d, p) && p[0] == s && p[p.len() - 1] == t
}

/// Some walk of exactly `k` steps leads from `s` to `t`.
pub open spec fn has_path(d: Seq<Seq<char>>, s: int, t: int, k: int) -> bool {
    exists|p: Seq<int>| #[trigger] connects(d, p, s, t) && p.len() == k + 1
}

/// The shortest walk from `s` to `t` has exactly `k` steps.
pub open spec fn dist_is(d: Seq<Seq<char>>, s: int, t: int, k: int) -> bool {
    has_path(d, s, t, k) && (forall|j: int| 0 <= j < k ==> !has_path(d, s, t, j))
}

/// Basic shape of the frontier sets: both stay inside the dictionary's index
/// range, the start stays settled, every frontier is settled at its own
/// level, a positive-level frontier avoids everything settled before it, and
/// both sets are finite with at most `d.len()` settled words.
pub proof fn lemma_frontier_basic(d: Seq<Seq<char>>, s: int, k: int)
    requires
        0 <= s < d.len(),
        0 <= k,
    ensures
        frontier(d, s, k).subset_of(set_int_range(0, d.len() as int)),
        settled(d, s, k).subset_of(set_int_range(0, d.len() as int)),
        settled(d, s, k).contains(s),
        frontier(d, s, k).subset_of(settled(d, s, k)),
        k >= 1 ==> frontier(d, s, k).disjoint(settled(d, s, k - 1)),
        settled(d, s, k).finite(),
        frontier(d, s, k).finite(),
        settled(d, s, k).len() <= d.len(),
    decreases k,
{
    lemma_int_range(0, d.len() as int);
    if k == 0 {
        assert(settled(d, s, 0).subset_of(set_int_range(0, d.len() as int)));
        assert(frontier(d, s, 0).subset_of(set_int_range(0, d.len() as int)));
        lemma_len_subset(settled(d, s, 0), set_int_range(0, d.len() as int));
        lemma_len_subset(frontier(d, s, 0), set_int_range(0, d.len() as int));
    } else {
        lemma_frontier_basic(d, s, k - 1);
        assert forall|j: int| frontier(d, s, k).contains(j) implies settled(d, s, k).contains(
            j,
        ) by {
            assert(in_frontier(d, s, k, j));
            assert(in_settled(d, s, k, j));
        }
        assert forall|j: int| settled(d, s, k).contains(j) implies set_int_range(
            0,
            d.len() as int,
        ).contains(j) by {
            assert(in_settled(d, s, k, j));
            if in_settled(d, s, k - 1, j) {
                assert(settled(d, s, k - 1).contains(j));
            } else {
                assert(in_frontier(d, s, k, j));
            }
        }
        lemma_len_subset(frontier(d, s, k), set_int_range(0, d.len() as int));
        lemma_len_subset(settled(d, s, k), set_int_range(0, d.len() as int));
        assert(in_settled(d, s, k - 1, s));
        assert(in_settled(d, s, k, s));
    }
}

/// Settled sets grow with the level.
pub proof fn lemma_settled_monotone(d: Seq<Seq<char>>, s: int, j: int, k: int)
    requires
        0 <= j <= k,
    ensures
        settled(d, s, j).subset_of(settled(d, s, k)),
    decreases k - j,
{
    if j < k {
        lemma_settled_monotone(d, s, j, k - 1);
        assert forall|t: int| settled(d, s, j).contains(t) implies settled(d, s, k).contains(
            t,
        ) by {
            assert(in_settled(d, s, k - 1, t));
            assert(in_settled(d, s, k, t));
        }
    }
}

/// A word is settled at level `k` exactly when it lies on some frontier of
/// level at most `k`.
pub proof fn lemma_settled_is_frontier_union(d: Seq<Seq<char>>, s: int, t: int, k: int)
    requires
        0 <= k,
    ensures
        settled(d, s, k).contains(t) <==> exists|j: int|
            0 <= j <= k && #[trigger] frontier(d, s, j).contains(t),
    decreases k,
{
    if k == 0 {
        if settled(d, s, 0).contains(t) {
            assert(frontier(d, s, 0).contains(t));
        }
        if exists|j: int| 0 <= j <= 0 && #[trigger] frontier(d, s, j).contains(t) {
            assert(in_settled(d, s, 0, t));
        }
    } else {
        lemma_settled_is_frontier_union(d, s, t, k - 1);
        if settled(d, s, k).contains(t) {
            if in_settled(d, s, k - 1, t) {
                assert(settled(d, s, k - 1).contains(t));
                let j = choose|j: int| 0 <= j <= k - 1 && #[trigger] frontier(d, s, j).contains(t);
                assert(0 <= j <= k && frontier(d, s, j).contains(t));
            } else {
                assert(in_frontier(d, s, k, t));
                assert(frontier(d, s, k).contains(t));
            }
        }
        if exists|j: int| 0 <= j <= k && #[trigger] frontier(d, s, j).contains(t) {
            let j = choose|j: int| 0 <= j <= k && #[trigger] frontier(d, s, j).contains(t);
            if j <= k - 1 {
                assert(settled(d, s, k - 1).contains(t));
                assert(in_settled(d, s, k, t));
            } else {
                assert(in_frontier(d, s, k, t));
                assert(in_settled(d, s, k, t));
            }
            assert(settled(d, s, k).contains(t));
        }
    }
}

/// A word on a positive-level frontier has a neighbor on the frontier
/// below.
pub proof fn lemma_frontier_unfold(d: Seq<Seq<char>>, s: int, k: int, j: int)
    requires
        k >= 1,
        frontier(d, s, k).contains(j),
    ensures
        0 <= j < d.len(),
        !settled(d, s, k - 1).contains(j),
        exists|i: int| #[trigger] frontier(d, s, k - 1).contains(i) && adj_idx(d, i, j),
{
    assert(in_frontier(d, s, k, j));
    let i = choose|i: int| in_frontier(d, s, k - 1, i) && #[trigger] adj_idx(d, i, j);
    assert(frontier(d, s, k - 1).contains(i) && adj_idx(d, i, j));
}

/// A word of the frontier below with an adjacent unsettled neighbor puts
/// that neighbor on the next frontier.
pub proof fn lemma_frontier_fold(d: Seq<Seq<char>>, s: int, k: int, i: int, j: int)
    requires
        k >= 1,
        0 <= j < d.len(),
        frontier(d, s, k - 1).contains(i),
        adj_idx(d, i, j),
        !settled(d, s, k - 1).contains(j),
    ensures
        frontier(d, s, k).contains(j),
{
    assert(in_frontier(d, s, k - 1, i));
    assert(exists|w: int| in_frontier(d, s, k - 1, w) && #[trigger] adj_idx(d, w, j));
    assert(in_frontier(d, s, k, j));
}

/// Every frontier word is reachable by a walk of exactly its level's length.
pub proof fn lemma_frontier_sound(d: Seq<Seq<char>>, s: int, t: int, k: int)
    requires
        0 <= s < d.len(),
        0 <= k,
        frontier(d, s, k).contains(t),
    ensures
        has_path(d, s, t, k),
    decreases k,
{
    if k == 0 {
        let p = seq![s];
        assert(is_path(d, p));
        assert(in_frontier(d, s, 0, t));
        assert(connects(d, p, s, t) && p.len() == 0 + 1);
    } else {
        lemma_frontier_unfold(d, s, k, t);
        let i = choose|i: int| #[trigger] frontier(d, s, k - 1).contains(i) && adj_idx(d, i, t);
        lemma_frontier_sound(d, s, i, k - 1);
        let p = choose|p: Seq<int>| #[trigger] connects(d, p, s, i) && p.len() == (k - 1) + 1;
        let q = p.push(t);
        assert(q[q.len() - 1] == t);
        assert forall|m: int| 0 <= m < q.len() - 1 implies adj_idx(d, #[trigger] q[m], q[m + 1]) by {
            if m < p.len() - 1 {
                assert(q[m] == p[m] && q[m + 1] == p[m + 1]);
            } else {
                assert(q[m] == p[p.len() - 1] && q[m + 1] == t);
            }
        }
        assert(is_path(d, q));
        assert(connects(d, q, s, t) && q.len() == k + 1);
    }
}

/// A word settled at level `j` with an adjacent neighbor `t` settles that
/// neighbor no later than level `j + 1`.
pub proof fn lemma_neighbor_settled(d: Seq<Seq<char>>, s: int, i: int, t: int, j: int)
    requires
        0 <= s < d.len(),
        0 <= j,
        0 <= t < d.len(),
        settled(d, s, j).contains(i),
        adj_idx(d, i, t),
    ensures
        settled(d, s, j + 1).contains(t),
{
    if settled(d, s, j).contains(t) {
        lemma_settled_monotone(d, s, j, j + 1);
    } else {
        lemma_settled_is_frontier_union(d, s, i, j);
        let m = choose|m: int| 0 <= m <= j && #[trigger] frontier(d, s, m).contains(i);
        if settled(d, s, m).contains(t) {
            lemma_settled_monotone(d, s, m, j + 1);
        } else {
            lemma_frontier_fold(d, s, m + 1, i, t);
            lemma_frontier_basic(d, s, m + 1);
            lemma_settled_monotone(d, s, m + 1, j + 1);
            assert(settled(d, s, m + 1).contains(t));
        }
    }
}

/// Every word reachable by a walk of `k` steps is settled at level `k`.
pub proof fn lemma_frontier_complete(d: Seq<Seq<char>>, s: int, t: int, k: int)
    requires
        0 <= s < d.len(),
        0 <= k,
        has_path(d, s, t, k),
    ensures
        settled(d, s, k).contains(t),
    decreases k,
{
    let p = choose|p: Seq<int>| #[trigger] connects(d, p, s, t) && p.len() == k + 1;
    if k == 0 {
        assert(t == s);
        assert(in_settled(d, s, 0, t));
    } else {
        let q = p.subrange(0, k);
        let i = p[k - 1];
        assert(q[0] == s && q[q.len() - 1] == i);
        assert(is_path(d, q)) by {
            assert(forall|m: int| 0 <= m < q.len() ==> q[m] == p[m]);
        }
        assert(connects(d, q, s, i) && q.len() == (k - 1) + 1);
        lemma_frontier_complete(d, s, i, k - 1);
        assert(adj_idx(d, p[k - 1], p[k]));
        assert(p[k] == t);
        lemma_neighbor_settled(d, s, i, t, (k - 1) as int);
    }
}

/// Once a frontier is empty, every later frontier is empty and the settled
/// set no longer changes.
pub proof fn lemma_frontier_empty_stays(d: Seq<Seq<char>>, s: int, k: int, k2: int)
    requires
        0 <= k <= k2,
        frontier(d, s, k) =~= Set::<int>::empty(),
    ensures
        frontier(d, s, k2) =~= Set::<int>::empty(),
        settled(d, s, k2) =~= settled(d, s, k),
    decreases k2 - k,
{
    if k2 > k {
        lemma_frontier_empty_stays(d, s, k, k2 - 1);
        assert(frontier(d, s, k2) =~= Set::<int>::empty()) by {
            assert forall|j: int| !frontier(d, s, k2).contains(j) by {
                if frontier(d, s, k2).contains(j) {
                    lemma_frontier_unfold(d, s, k2, j);
                    let i = choose|i: int|
                        #[trigger] frontier(d, s, k2 - 1).contains(i) && adj_idx(d, i, j);
                    assert(frontier(d, s, k2 - 1).contains(i));
                }
            }
        }
        assert(settled(d, s, k2) =~= settled(d, s, k)) by {
            assert forall|j: int| settled(d, s, k2).contains(j) implies settled(
                d,
                s,
                k,
            ).contains(j) by {
                assert(in_settled(d, s, k2, j));
                if in_frontier(d, s, k2, j) {
                    assert(frontier(d, s, k2).contains(j));
                } else {
                    assert(in_settled(d, s, k2 - 1, j));
                    assert(settled(d, s, k2 - 1).contains(j));
                }
            }
            assert forall|j: int| settled(d, s, k).contains(j) implies settled(
                d,
                s,
                k2,
            ).contains(j) by {
                assert(settled(d, s, k2 - 1).contains(j));
                assert(in_settled(d, s, k2 - 1, j));
                assert(in_settled(d, s, k2, j));
            }
        }
    }
}

/// Frontier membership names the true shortest-path distance: a word lies on
/// the frontier of level `k` exactly when the shortest walk from the start
/// to it has exactly `k` steps.  A found ladder of `k + 1` words is
/// therefore exactly one longer than the shortest-path distance `k`.
pub proof fn lemma_frontier_is_distance(d: Seq<Seq<char>>, s: int, t: int, k: int)
    requires
        0 <= s < d.len(),
        0 <= t < d.len(),
        0 <= k,
    ensures
        frontier(d, s, k).contains(t) <==> dist_is(d, s, t, k),
{
    if frontier(d, s, k).contains(t) {
        lemma_frontier_sound(d, s, t, k);
        assert forall|j: int| 0 <= j < k implies !has_path(d, s, t, j) by {
            if has_path(d, s, t, j) {
                lemma_frontier_complete(d, s, t, j);
                lemma_settled_monotone(d, s, j, k - 1);
                lemma_frontier_basic(d, s, k);
            }
        }
    }
    if dist_is(d, s, t, k) {
        lemma_frontier_complete(d, s, t, k);
        lemma_settled_is_frontier_union(d, s, t, k);
        let j = choose|j: int| 0 <= j <= k && #[trigger] frontier(d, s, j).contains(t);
        lemma_frontier_sound(d, s, t, j);
        assert(j == k);
    }
}

/// The search reports a ladder exactly when the end word lies on a frontier
/// of positive level: reachable from the start in at least one step.
pub open spec fn ladder_found(d: Seq<Seq<char>>, s: int, e: int) -> bool {
    exists|k: int| 1 <= k && #[trigger] frontier(d, s, k).contains(e)
}

} // verus!

