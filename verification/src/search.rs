//! The level-synchronized frontier search in its dynamic (graph-free) form:
//! every word is assigned its breadth-first level straight from the
//! adjacency predicate, level by level, first assignment wins; the ladder is
//! then reconstructed backwards from the level assignments.  The contracts
//! pin the outcome to the frontier model of [`crate::bfs`], so the dynamic
//! search, the graph-based search, and any other implementation of the same
//! contract must agree.

use vstd::prelude::*;
use crate::adjacency::{
    adjacent, dict_view, first_index, get_word_position, is_one_letter_different, word_in_dict,
};
use crate::bfs::{
    adj_idx, dist_is, frontier, ladder_found, lemma_frontier_basic, lemma_frontier_empty_stays,
    lemma_frontier_is_distance, lemma_settled_monotone, settled,
};

verus! {

/// `l` is a ladder from `s` to `e` that follows the breadth-first
/// frontiers: it starts at the start word, ends at the end word, each entry
/// lies on the frontier of its own position, and consecutive entries are
/// adjacent (Hamming distance exactly 1).
pub open spec fn frontier_ladder(d: Seq<Seq<char>>, l: Seq<usize>, s: int, e: int) -> bool {
    &&& l.len() >= 2
    &&& l[0] == s
    &&& l[l.len() - 1] == e
    &&& forall|m: int| 0 <= m < l.len() ==> frontier(d, s, m).contains(#[trigger] l[m] as int)
    &&& forall|m: int| 0 <= m < l.len() - 1 ==> adj_idx(d, #[trigger] l[m] as int, l[m + 1] as int)
}

/// The one contract both searches implement: the found flag reports whether
/// the end word lies on a positive-level frontier, a found ladder follows
/// the frontiers from start to end, and a failed search returns no ladder.
pub open spec fn search_contract(d: Seq<Seq<char>>, s: int, e: int, r: (bool, Seq<usize>)) -> bool {
    &&& r.0 == ladder_found(d, s, e)
    &&& r.0 ==> frontier_ladder(d, r.1, s, e)
    &&& !r.0 ==> r.1.len() == 0
}

/// Distinct frontiers never share a word.
pub proof fn lemma_frontiers_disjoint(d: Seq<Seq<char>>, s: int, a: int, b: int)
    requires
        0 <= s < d.len(),
        0 <= a < b,
    ensures
        frontier(d, s, a).disjoint(frontier(d, s, b)),
{
    lemma_frontier_basic(d, s, a);
    lemma_settled_monotone(d, s, a, b - 1);
    lemma_frontier_basic(d, s, b);
}

/// Adjacency of indexed words is symmetric.
pub proof fn lemma_adj_idx_symmetric(d: Seq<Seq<char>>, i: int, j: int)
    ensures
        adj_idx(d, i, j) == adj_idx(d, j, i),
{
    crate::adjacency::lemma_adjacent_symmetric(d[i], d[j]);
}

/// Any two results that satisfy the search contract for the same
/// dictionary, start and end agree on the found flag and, when found, on
/// the ladder length.  The dynamic level-synchronized search and the
/// graph-based sequential search therefore report the same outcome and
/// equally short ladders.
pub proof fn lemma_searches_agree(
    d: Seq<Seq<char>>,
    s: int,
    e: int,
    r1: (bool, Seq<usize>),
    r2: (bool, Seq<usize>),
)
    requires
        0 <= s < d.len(),
        search_contract(d, s, e, r1),
        search_contract(d, s, e, r2),
    ensures
        r1.0 == r2.0,
        r1.0 ==> r1.1.len() == r2.1.len(),
{
    if r1.0 {
        let a = r1.1.len() - 1;
        let b = r2.1.len() - 1;
        assert(frontier(d, s, a).contains(e));
        assert(frontier(d, s, b).contains(e));
        if a < b {
            lemma_frontiers_disjoint(d, s, a, b);
        }
        if b < a {
            lemma_frontiers_disjoint(d, s, b, a);
        }
    }
}

/// A ladder that follows the frontiers is exactly one word longer than the
/// true shortest-path distance from start to end: no shorter walk between
/// the two words exists in the dictionary.
pub proof fn lemma_ladder_is_shortest(d: Seq<Seq<char>>, s: int, e: int, l: Seq<usize>)
    requires
        0 <= s < d.len(),
        0 <= e < d.len(),
        frontier_ladder(d, l, s, e),
    ensures
        dist_is(d, s, e, l.len() - 1),
{
    assert(frontier(d, s, l.len() - 1).contains(e));
    lemma_frontier_is_distance(d, s, e, l.len() - 1);
}

/// The level assignments encode breadth-first exploration up to level
/// `cur`, except that the words of `x` (a part of the next frontier) have
/// already been assigned level `cur + 1`: every word settled at `cur`
/// carries its own frontier level, every word of `x` carries `cur + 1`, and
/// every other word still carries the unvisited sentinel `usize::MAX`.
pub open spec fn levels_partial(
    levels: Seq<usize>,
    d: Seq<Seq<char>>,
    s: int,
    cur: int,
    x: Set<int>,
) -> bool {
    &&& levels.len() == d.len()
    &&& forall|i: int|
        0 <= i < levels.len() && settled(d, s, cur).contains(i) ==> (#[trigger] levels[i])
            < usize::MAX && levels[i] <= cur && frontier(d, s, levels[i] as int).contains(i)
    &&& forall|i: int|
        0 <= i < levels.len() && x.contains(i) ==> (#[trigger] levels[i]) as int == cur + 1
    &&& forall|i: int|
        0 <= i < levels.len() && !settled(d, s, cur).contains(i) && !x.contains(i) ==> (
        #[trigger] levels[i]) == usize::MAX
}

/// The level assignments encode breadth-first exploration up to level
/// `cur`, with nothing of the next frontier assigned yet.
pub open spec fn levels_match(levels: Seq<usize>, d: Seq<Seq<char>>, s: int, cur: int) -> bool {
    levels_partial(levels, d, s, cur, Set::empty())
}

/// A word on a frontier no later than `cur` carries exactly its frontier
/// level.
pub proof fn lemma_level_encodes(
    levels: Seq<usize>,
    d: Seq<Seq<char>>,
    s: int,
    cur: int,
    x: Set<int>,
    i: int,
    lv: int,
)
    requires
        0 <= s < d.len(),
        0 <= cur,
        levels_partial(levels, d, s, cur, x),
        x.disjoint(settled(d, s, cur)),
        0 <= i < levels.len(),
        0 <= lv <= cur,
        frontier(d, s, lv).contains(i),
    ensures
        levels[i] == lv,
{
    lemma_frontier_basic(d, s, lv);
    lemma_settled_monotone(d, s, lv, cur);
    assert(settled(d, s, cur).contains(i));
    let stored = levels[i] as int;
    assert(frontier(d, s, stored).contains(i));
    if stored < lv {
        lemma_frontiers_disjoint(d, s, stored, lv);
    }
    if lv < stored {
        lemma_frontiers_disjoint(d, s, lv, stored);
    }
}

/// Once the whole next frontier has been assigned, the levels encode
/// exploration up to `cur + 1`.
pub proof fn lemma_levels_advance(levels: Seq<usize>, d: Seq<Seq<char>>, s: int, cur: int)
    requires
        0 <= s < d.len(),
        0 <= cur,
        cur + 1 < usize::MAX,
        levels_partial(levels, d, s, cur, frontier(d, s, cur + 1)),
    ensures
        levels_match(levels, d, s, cur + 1),
{
    lemma_frontier_basic(d, s, cur + 1);
    assert forall|i: int|
        0 <= i < levels.len() && settled(d, s, cur + 1).contains(i) implies (#[trigger] levels[i])
        < usize::MAX && levels[i] <= cur + 1 && frontier(d, s, levels[i] as int).contains(i) by {
        if !settled(d, s, cur).contains(i) {
            assert(frontier(d, s, cur + 1).contains(i));
            assert(levels[i] as int == cur + 1);
        }
    }
}

/// The words assigned level `cur + 1` after the rows `0 .. b` of the level
/// `cur` pass: not settled before, adjacent to a frontier word among those
/// rows.
pub open spec fn expanded_upto(d: Seq<Seq<char>>, s: int, cur: int, b: int) -> Set<int> {
    Set::new(
        |j: int|
            0 <= j < d.len() && !settled(d, s, cur).contains(j) && exists|i: int|
                0 <= i < b && #[trigger] frontier(d, s, cur).contains(i) && adj_idx(d, i, j),
    )
}

/// As [`expanded_upto`], with the row `i0` additionally scanned up to
/// column `c`.
pub open spec fn expanded_row(
    d: Seq<Seq<char>>,
    s: int,
    cur: int,
    b: int,
    i0: int,
    c: int,
) -> Set<int> {
    expanded_upto(d, s, cur, b).union(
        Set::new(
            |j: int| 0 <= j < c && !settled(d, s, cur).contains(j) && adj_idx(d, i0, j),
        ),
    )
}

proof fn lemma_expanded_full(d: Seq<Seq<char>>, s: int, cur: int)
    requires
        0 <= s < d.len(),
        0 <= cur,
    ensures
        expanded_upto(d, s, cur, d.len() as int) =~= frontier(d, s, cur + 1),
{
    lemma_frontier_basic(d, s, cur);
    assert forall|j: int| frontier(d, s, cur + 1).contains(j) implies expanded_upto(
        d,
        s,
        cur,
        d.len() as int,
    ).contains(j) by {
        crate::bfs::lemma_frontier_unfold(d, s, cur + 1, j);
        let i = choose|i: int| #[trigger] frontier(d, s, cur).contains(i) && adj_idx(d, i, j);
        assert(0 <= i < d.len());
    }
}

/// Reconstructs a ladder from completed level assignments: starting at the
/// end word at level `end_level`, each lower level is scanned in dictionary
/// order for the first word adjacent to the previously chosen one.  Returns
/// `None` only if some level holds no adjacent predecessor — which cannot
/// happen when the levels encode a breadth-first exploration that reached
/// the end word, as the quantified clause states.
pub fn ladder_from_levels(
    dictionary: &Vec<String>,
    word_levels: &Vec<usize>,
    end_index: usize,
    end_level: usize,
) -> (r: Option<Vec<usize>>)
    requires
        word_levels@.len() == dictionary@.len(),
        end_index < dictionary@.len(),
        end_level < dictionary@.len(),
        word_levels@[end_index as int] == end_level,
    ensures
        r matches Some(l) ==> {
            &&& l@.len() == end_level + 1
            &&& l@[end_level as int] == end_index
            &&& forall|m: int|
                0 <= m <= end_level ==> (#[trigger] l@[m]) < dictionary@.len()
                    && word_levels@[l@[m] as int] as int == m
            &&& forall|m: int|
                0 <= m < end_level ==> adj_idx(
                    dict_view(dictionary),
                    #[trigger] l@[m] as int,
                    l@[m + 1] as int,
                )
            &&& forall|m: int, t: int|
                0 <= m < end_level && 0 <= t < l@[m] ==> !((#[trigger] word_levels@[t]) as int == m
                    && adj_idx(dict_view(dictionary), t, #[trigger] l@[m + 1] as int))
        },
        forall|s: int|
            #[trigger] levels_match(word_levels@, dict_view(dictionary), s, end_level as int)
                && 0 <= s < dictionary@.len() && frontier(dict_view(dictionary), s, end_level as int).contains(
                end_index as int,
            ) ==> r is Some,
{
    let ghost d = dict_view(dictionary);
    let n = dictionary.len();
    let mut ladder: Vec<usize> = Vec::new();
    while ladder.len() < end_level + 1
        invariant
            end_level < n <= usize::MAX,
            n == dictionary@.len(),
            ladder@.len() <= end_level + 1,
            forall|m: int| 0 <= m < ladder@.len() ==> #[trigger] ladder@[m] == 0usize,
        decreases end_level + 1 - ladder@.len(),
    {
        ladder.push(0);
    }
    ladder.set(end_level, end_index);
    let mut lvl: usize = end_level;
    let mut prev: usize = end_index;
    while lvl > 0
        invariant
            n == dictionary@.len(),
            n == word_levels@.len(),
            d == dict_view(dictionary),
            end_index < n,
            end_level < n,
            lvl <= end_level,
            prev < n,
            ladder@.len() == end_level + 1,
            ladder@[lvl as int] == prev,
            ladder@[end_level as int] == end_index,
            word_levels@[prev as int] == lvl,
            forall|m: int|
                lvl <= m <= end_level ==> (#[trigger] ladder@[m]) < n
                    && word_levels@[ladder@[m] as int] as int == m,
            forall|m: int|
                lvl <= m < end_level ==> adj_idx(d, #[trigger] ladder@[m] as int, ladder@[m + 1] as int),
            forall|m: int, t: int|
                lvl <= m < end_level && 0 <= t < ladder@[m] ==> !((#[trigger] word_levels@[t]) as int
                    == m && adj_idx(d, t, #[trigger] ladder@[m + 1] as int)),
        decreases lvl,
    {
        let want = lvl - 1;
        let mut j: usize = 0;
        let mut picked: Option<usize> = None;
        while j < n
            invariant_except_break
                picked is None,
            invariant
                n == dictionary@.len(),
                n == word_levels@.len(),
                d == dict_view(dictionary),
                prev < n,
                j <= n,
                forall|t: int|
                    0 <= t < j ==> !(word_levels@[t] == want && adj_idx(d, t, prev as int)),
            ensures
                picked matches Some(w) ==> w < n && word_levels@[w as int] == want && adj_idx(
                    d,
                    w as int,
                    prev as int,
                ) && forall|t: int|
                    0 <= t < w ==> !(word_levels@[t] == want && adj_idx(d, t, prev as int)),
                picked is None ==> forall|t: int|
                    0 <= t < n ==> !(word_levels@[t] == want && adj_idx(d, t, prev as int)),
            decreases n - j,
        {
            if word_levels[j] == want && is_one_letter_different(&dictionary[j], &dictionary[prev])
            {
                picked = Some(j);
                break ;
            }
            j = j + 1;
        }
        match picked {
            Some(w) => {
                ladder.set(want, w);
                prev = w;
                lvl = want;
            },
            None => {
                proof {
                    assert forall|s: int|
                        #[trigger] levels_match(word_levels@, d, s, end_level as int) && 0 <= s < n
                            && frontier(d, s, end_level as int).contains(end_index as int) implies false by {
                        lemma_frontier_basic(d, s, end_level as int);
                        // prev lies on the frontier of its own level
                        assert(0 <= prev < word_levels@.len());
                        assert(word_levels@[prev as int] == lvl);
                        assert(lvl <= end_level < n <= usize::MAX);
                        assert(settled(d, s, end_level as int).contains(prev as int)) by {
                            if !settled(d, s, end_level as int).contains(prev as int) {
                                assert(!Set::<int>::empty().contains(prev as int));
                                assert(word_levels@[prev as int] == usize::MAX);
                            }
                        }
                        assert(frontier(d, s, word_levels@[prev as int] as int).contains(
                            prev as int,
                        ));
                        assert(frontier(d, s, lvl as int).contains(prev as int));
                        // so some word of the previous frontier is adjacent to it
                        crate::bfs::lemma_frontier_unfold(d, s, lvl as int, prev as int);
                        let i = choose|i: int|
                            #[trigger] frontier(d, s, lvl as int - 1).contains(i) && adj_idx(
                                d,
                                i,
                                prev as int,
                            );
                        lemma_frontier_basic(d, s, lvl as int - 1);
                        assert(vstd::set_lib::set_int_range(0, d.len() as int).contains(i));
                        lemma_level_encodes(
                            word_levels@,
                            d,
                            s,
                            end_level as int,
                            Set::empty(),
                            i,
                            lvl as int - 1,
                        );
                        assert(word_levels@[i] == want && adj_idx(d, i, prev as int));
                    }
                }
                return None;
            },
        }
    }
    Some(ladder)
}

/// The dynamic level-synchronized search: assigns every word reachable from
/// the start its breadth-first level straight from the adjacency predicate
/// (no explicit graph), first assignment wins, stops as soon as the level
/// pass that reaches the end word completes or a frontier comes up empty,
/// then walks the levels backwards for a shortest ladder.  Returns the
/// found flag and the ladder as dictionary indices, start first, end last;
/// `nthreads` is the worker count the partitioned variant would clamp to
/// `min(nthreads, N)` and never changes the result.
pub fn build_ladder_parallel(
    dictionary: &Vec<String>,
    start: &String,
    end: &String,
    nthreads: usize,
) -> (r: (bool, Vec<usize>))
    requires
        nthreads >= 1,
        dictionary@.len() < usize::MAX,
        word_in_dict(dict_view(dictionary), start@),
        word_in_dict(dict_view(dictionary), end@),
    ensures
        search_contract(
            dict_view(dictionary),
            first_index(dict_view(dictionary), start@),
            first_index(dict_view(dictionary), end@),
            (r.0, r.1@),
        ),
{
    let ghost d = dict_view(dictionary);
    let n = dictionary.len();
    let s = get_word_position(dictionary, start);
    let e = get_word_position(dictionary, end);
    let ghost si = s as int;
    let ghost ei = e as int;

    let mut word_levels: Vec<usize> = Vec::new();
    while word_levels.len() < n
        invariant
            word_levels@.len() <= n,
            forall|i: int| 0 <= i < word_levels@.len() ==> #[trigger] word_levels@[i] == usize::MAX,
        decreases n - word_levels@.len(),
    {
        word_levels.push(usize::MAX);
    }
    word_levels.set(s, 0);

    let mut cur: usize = 0;
    let mut found = false;
    let mut end_level: usize = 0;

    proof {
        lemma_frontier_basic(d, si, 0);
        assert(settled(d, si, 0) =~= Set::empty().insert(si));
        assert(frontier(d, si, 0) =~= Set::empty().insert(si));
        assert(levels_match(word_levels@, d, si, 0));
        assert(settled(d, si, 0).len() >= 1);
    }

    loop
        invariant_except_break
            n == dictionary@.len(),
            n == word_levels@.len(),
            n < usize::MAX,
            d == dict_view(dictionary),
            s < n,
            e < n,
            si == s as int,
            ei == e as int,
            cur < n,
            !found,
            levels_match(word_levels@, d, si, cur as int),
            forall|m: int| 1 <= m <= cur ==> !frontier(d, si, m).contains(ei),
            settled(d, si, cur as int).len() >= cur + 1,
            settled(d, si, cur as int).len() <= n,
        ensures
            n == word_levels@.len(),
            found ==> 1 <= end_level && (end_level as int) < n && frontier(
                d,
                si,
                end_level as int,
            ).contains(ei) && levels_match(word_levels@, d, si, end_level as int)
                && word_levels@[ei] == end_level,
            !found ==> !ladder_found(d, si, ei),
        decreases n - settled(d, si, cur as int).len(),
    {
        let ghost ci = cur as int;
        let mut idbase: usize = 0;
        let mut fnd = false;
        let mut nextne = false;
        proof {
            assert(expanded_upto(d, si, ci, 0) =~= Set::<int>::empty());
            lemma_frontier_basic(d, si, ci);
        }
        while idbase < n
            invariant
                n == dictionary@.len(),
                n == word_levels@.len(),
                n < usize::MAX,
                d == dict_view(dictionary),
                s < n,
                e < n,
                si == s as int,
                ei == e as int,
                cur < n,
                ci == cur as int,
                idbase <= n,
                levels_partial(word_levels@, d, si, ci, expanded_upto(d, si, ci, idbase as int)),
                fnd == expanded_upto(d, si, ci, idbase as int).contains(ei),
                nextne == exists|j: int|
                    #[trigger] expanded_upto(d, si, ci, idbase as int).contains(j),
            decreases n - idbase,
        {
            let ghost bx = expanded_upto(d, si, ci, idbase as int);
            if word_levels[idbase] == cur {
                proof {
                    assert(!bx.contains(idbase as int));
                    assert(settled(d, si, ci).contains(idbase as int));
                    assert(frontier(d, si, ci).contains(idbase as int));
                    assert(expanded_row(d, si, ci, idbase as int, idbase as int, 0) =~= bx);
                }
                let mut c: usize = 0;
                while c < n
                    invariant
                        n == dictionary@.len(),
                        n == word_levels@.len(),
                        n < usize::MAX,
                        d == dict_view(dictionary),
                        e < n,
                        si == s as int,
                        ei == e as int,
                        cur < n,
                        ci == cur as int,
                        idbase < n,
                        c <= n,
                        frontier(d, si, ci).contains(idbase as int),
                        bx == expanded_upto(d, si, ci, idbase as int),
                        levels_partial(
                            word_levels@,
                            d,
                            si,
                            ci,
                            expanded_row(d, si, ci, idbase as int, idbase as int, c as int),
                        ),
                        fnd == expanded_row(d, si, ci, idbase as int, idbase as int, c as int)
                            .contains(ei),
                        nextne == exists|j: int|
                            #[trigger] expanded_row(
                                d,
                                si,
                                ci,
                                idbase as int,
                                idbase as int,
                                c as int,
                            ).contains(j),
                    decreases n - c,
                {
                    let ghost rx = expanded_row(d, si, ci, idbase as int, idbase as int, c as int);
                    let ghost rx1 = expanded_row(
                        d,
                        si,
                        ci,
                        idbase as int,
                        idbase as int,
                        c as int + 1,
                    );
                    if word_levels[c] == usize::MAX {
                        if is_one_letter_different(&dictionary[idbase], &dictionary[c]) {
                            proof {
                                assert(!settled(d, si, ci).contains(c as int));
                                assert(adj_idx(d, idbase as int, c as int));
                                assert(rx1 =~= rx.insert(c as int));
                            }
                            word_levels.set(c, cur + 1);
                            if c == e {
                                fnd = true;
                            }
                            nextne = true;
                            proof {
                                assert(rx1.contains(c as int));
                                assert(levels_partial(word_levels@, d, si, ci, rx1));
                            }
                        } else {
                            proof {
                                assert(rx1 =~= rx);
                            }
                        }
                    } else {
                        proof {
                            assert(rx1 =~= rx) by {
                                assert forall|j: int| rx1.contains(j) implies rx.contains(j) by {
                                    if j == c as int && !rx.contains(j) {
                                        assert(!settled(d, si, ci).contains(j));
                                        assert(word_levels@[j] == usize::MAX);
                                    }
                                }
                            }
                        }
                    }
                    c = c + 1;
                }
                proof {
                    assert(expanded_row(d, si, ci, idbase as int, idbase as int, n as int)
                        =~= expanded_upto(d, si, ci, idbase as int + 1)) by {
                        lemma_frontier_basic(d, si, ci);
                    }
                }
            } else {
                proof {
                    assert(expanded_upto(d, si, ci, idbase as int + 1) =~= bx) by {
                        assert forall|j: int|
                            expanded_upto(d, si, ci, idbase as int + 1).contains(j) implies bx
                            .contains(j) by {
                            let i = choose|i: int|
                                0 <= i < idbase as int + 1 && #[trigger] frontier(
                                    d,
                                    si,
                                    ci,
                                ).contains(i) && adj_idx(d, i, j);
                            if i == idbase as int {
                                lemma_level_encodes(
                                    word_levels@,
                                    d,
                                    si,
                                    ci,
                                    bx,
                                    i,
                                    ci,
                                );
                            }
                        }
                    }
                }
            }
            idbase = idbase + 1;
        }
        proof {
            lemma_expanded_full(d, si, ci);
            assert(levels_partial(word_levels@, d, si, ci, frontier(d, si, ci + 1)));
            lemma_levels_advance(word_levels@, d, si, ci);
        }
        if fnd {
            found = true;
            end_level = cur + 1;
            proof {
                // the end word joins the next frontier, so the settled set
                // grows past the current level count and stays within range
                lemma_frontier_basic(d, si, ci + 1);
                assert(settled(d, si, ci + 1).contains(ei));
                assert(!settled(d, si, ci).contains(ei));
                lemma_settled_grow(d, si, ci, ei);
                assert(settled(d, si, ci + 1).len() >= cur + 2);
                assert((end_level as int) < n);
                lemma_level_encodes(
                    word_levels@,
                    d,
                    si,
                    ci + 1,
                    Set::empty(),
                    ei,
                    ci + 1,
                );
            }
            break ;
        }
        if !nextne {
            proof {
                assert(frontier(d, si, ci + 1) =~= Set::<int>::empty());
                assert forall|k: int| 1 <= k implies !frontier(d, si, k).contains(ei) by {
                    if k <= cur {
                    } else {
                        lemma_frontier_empty_stays(d, si, ci + 1, k);
                    }
                }
                assert(!ladder_found(d, si, ei));
            }
            break ;
        }
        proof {
            let j = choose|j: int| #[trigger] frontier(d, si, ci + 1).contains(j);
            lemma_frontier_basic(d, si, ci + 1);
            assert(!settled(d, si, ci).contains(j));
            lemma_settled_grow(d, si, ci, j);
        }
        cur = cur + 1;
    }

    if found {
        proof {
            assert(settled(d, si, end_level as int).contains(ei));
        }
        match ladder_from_levels(dictionary, &word_levels, e, end_level) {
            Some(l) => {
                proof {
                    lemma_ladder_follows_frontiers(
                        word_levels@,
                        l@,
                        d,
                        si,
                        ei,
                        end_level as int,
                    );
                    assert(ladder_found(d, si, ei)) by {
                        assert(frontier(d, si, end_level as int).contains(ei));
                    }
                }
                (true, l)
            },
            None => {
                proof {
                    assert(false);
                }
                (false, Vec::new())
            },
        }
    } else {
        (false, Vec::new())
    }
}

/// Settling one more word grows the settled set strictly: the new level's
/// count exceeds the old one by at least one.
pub proof fn lemma_settled_grow(d: Seq<Seq<char>>, s: int, cur: int, j: int)
    requires
        0 <= s < d.len(),
        0 <= cur,
        settled(d, s, cur + 1).contains(j),
        !settled(d, s, cur).contains(j),
    ensures
        settled(d, s, cur + 1).len() >= settled(d, s, cur).len() + 1,
        settled(d, s, cur + 1).len() <= d.len(),
{
    lemma_frontier_basic(d, s, cur);
    lemma_frontier_basic(d, s, cur + 1);
    let big = settled(d, s, cur + 1);
    let small = settled(d, s, cur);
    lemma_settled_monotone(d, s, cur, cur + 1);
    assert(small.subset_of(big.remove(j)));
    assert(big.remove(j).len() == big.len() - 1);
    vstd::set_lib::lemma_len_subset(small, big.remove(j));
}

/// A ladder whose entries carry the level of their own position, taken from
/// level assignments that encode the breadth-first exploration, follows the
/// frontiers from the start word to the end word.
proof fn lemma_ladder_follows_frontiers(
    levels: Seq<usize>,
    l: Seq<usize>,
    d: Seq<Seq<char>>,
    s: int,
    e: int,
    end_level: int,
)
    requires
        0 <= s < d.len(),
        0 <= e < d.len(),
        1 <= end_level < d.len(),
        d.len() < usize::MAX,
        levels_match(levels, d, s, end_level),
        l.len() == end_level + 1,
        l[end_level] == e,
        forall|m: int|
            0 <= m <= end_level ==> (#[trigger] l[m]) < d.len() && levels[l[m] as int] as int == m,
        forall|m: int| 0 <= m < end_level ==> adj_idx(d, #[trigger] l[m] as int, l[m + 1] as int),
    ensures
        frontier_ladder(d, l, s, e),
{
    assert forall|m: int| 0 <= m < l.len() implies frontier(d, s, m).contains(
        #[trigger] l[m] as int,
    ) by {
        let i = l[m] as int;
        assert(levels[i] as int == m);
        assert(m < usize::MAX);
        assert(settled(d, s, end_level).contains(i) || levels[i] == usize::MAX);
        assert(settled(d, s, end_level).contains(i));
        assert(frontier(d, s, levels[i] as int).contains(i));
    }
    assert(frontier(d, s, 0).contains(l[0] as int));
    assert(frontier(d, s, 0) =~= Set::empty().insert(s));
    assert(l[0] == s);
}

} // verus!
