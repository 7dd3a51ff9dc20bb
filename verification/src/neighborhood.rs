//! The graph-based sequential search: a classical breadth-first expansion
//! over the prebuilt adjacency matrix that keeps an explicit word list per
//! level, plus the driver that builds the graph, runs the expansion and
//! reconstructs a shortest ladder from the level lists.  It implements the
//! same search contract as the dynamic level-synchronized search.

use vstd::prelude::*;
use crate::adjacency::{dict_view, first_index, get_word_position, word_in_dict};
use crate::bfs::{
    adj_idx, frontier, in_frontier, in_settled, ladder_found, lemma_frontier_basic,
    lemma_frontier_empty_stays, lemma_frontier_fold, lemma_frontier_unfold, settled,
};
use crate::graph::{build_graph, matrix_ok};
use crate::search::{frontier_ladder, lemma_adj_idx_symmetric, search_contract};

verus! {

/// The word list `q` holds exactly the members of the set `f`.
pub open spec fn level_seq_matches(q: Seq<usize>, f: Set<int>) -> bool {
    (forall|a: int| 0 <= a < q.len() ==> f.contains(#[trigger] q[a] as int)) && (forall|x: int|
        #[trigger] f.contains(x) ==> exists|a: int| 0 <= a < q.len() && q[a] == x)
}

/// The word list is strictly increasing: dictionary order.
pub open spec fn ascending(q: Seq<usize>) -> bool {
    forall|a: int, b: int| 0 <= a < b < q.len() ==> q[a] < q[b]
}

/// Whether any word of the list `flist` is adjacent to the word `col`,
/// looked up in the adjacency matrix.
fn frontier_scan(
    graph: &Vec<Vec<usize>>,
    flist: &Vec<usize>,
    col: usize,
    Ghost(d): Ghost<Seq<Seq<char>>>,
) -> (r: bool)
    requires
        matrix_ok(graph.deep_view(), d),
        col < d.len(),
        forall|a: int| 0 <= a < flist@.len() ==> (#[trigger] flist@[a]) < d.len(),
    ensures
        r == exists|a: int|
            0 <= a < flist@.len() && adj_idx(d, #[trigger] flist@[a] as int, col as int),
{
    let m = flist.len();
    let mut a: usize = 0;
    while a < m
        invariant
            m == flist@.len(),
            a <= m,
            col < d.len(),
            matrix_ok(graph.deep_view(), d),
            forall|b: int| 0 <= b < flist@.len() ==> (#[trigger] flist@[b]) < d.len(),
            forall|b: int| 0 <= b < a ==> !adj_idx(d, #[trigger] flist@[b] as int, col as int),
        decreases m - a,
    {
        let w = flist[a];
        proof {
            assert(graph@.len() == d.len());
            assert(graph.deep_view()[w as int] == graph@[w as int].deep_view());
            assert(graph@[w as int].deep_view() =~= graph@[w as int]@);
        }
        if graph[w][col] == 1 {
            proof {
                assert(graph.deep_view()[w as int][col as int] == 1);
                assert(adj_idx(d, w as int, col as int));
            }
            return true;
        }
        proof {
            assert(graph.deep_view()[w as int][col as int] != 1);
            assert(!adj_idx(d, flist@[a as int] as int, col as int));
        }
        a = a + 1;
    }
    false
}

/// The graph-based sequential search.  Starting from the start word's
/// singleton level, each pass scans the whole dictionary for still-available
/// words adjacent to the current level (in dictionary order) and collects
/// them as the next level, until the end word is collected or a level comes
/// up empty.  Returns the per-level word lists — list `L` holds exactly the
/// words at breadth-first distance `L` — and whether the end word was
/// reached.
pub fn build_neighborhood(
    graph: &Vec<Vec<usize>>,
    dictionary: &Vec<String>,
    start: &String,
    end: &String,
) -> (r: (Vec<Vec<usize>>, bool))
    requires
        matrix_ok(graph.deep_view(), dict_view(dictionary)),
        word_in_dict(dict_view(dictionary), start@),
        word_in_dict(dict_view(dictionary), end@),
    ensures
        ({
            let d = dict_view(dictionary);
            let s = first_index(d, start@);
            let e = first_index(d, end@);
            &&& r.1 == ladder_found(d, s, e)
            &&& r.0@.len() >= 1
            &&& forall|lv: int|
                0 <= lv < r.0@.len() ==> level_seq_matches(
                    (#[trigger] r.0@[lv])@,
                    frontier(d, s, lv),
                ) && ascending((#[trigger] r.0@[lv])@)
            &&& r.1 ==> 2 <= r.0@.len() <= d.len() && frontier(d, s, r.0@.len() - 1).contains(e)
        }),
{
    let ghost d = dict_view(dictionary);
    let n = dictionary.len();
    let s = get_word_position(dictionary, start);
    let e = get_word_position(dictionary, end);
    let ghost si = s as int;
    let ghost ei = e as int;

    let mut available: Vec<bool> = Vec::new();
    while available.len() < n
        invariant
            available@.len() <= n,
            forall|j: int| 0 <= j < available@.len() ==> #[trigger] available@[j],
        decreases n - available@.len(),
    {
        available.push(true);
    }
    available.set(s, false);

    let mut neighborhood: Vec<Vec<usize>> = Vec::new();
    let mut first: Vec<usize> = Vec::new();
    first.push(s);
    neighborhood.push(first);
    let mut k: usize = 0;
    let mut found = false;

    proof {
        lemma_frontier_basic(d, si, 0);
        assert(in_settled(d, si, 0, si));
        assert(level_seq_matches(neighborhood@[0]@, frontier(d, si, 0))) by {
            assert(neighborhood@[0]@[0] == s);
            assert(in_frontier(d, si, 0, si));
            assert forall|x: int| frontier(d, si, 0).contains(x) implies exists|a: int|
                0 <= a < neighborhood@[0]@.len() && neighborhood@[0]@[a] == x by {
                assert(in_frontier(d, si, 0, x));
                assert(neighborhood@[0]@[0] == x);
            }
        }
        assert(ascending(neighborhood@[0]@));
        assert(settled(d, si, 0).len() >= 1) by {
            assert(settled(d, si, 0).contains(si));
            assert(settled(d, si, 0).remove(si).len() == settled(d, si, 0).len() - 1);
        }
    }

    loop
        invariant_except_break
            n == dictionary@.len(),
            d == dict_view(dictionary),
            matrix_ok(graph.deep_view(), d),
            s < n,
            e < n,
            si == s as int,
            ei == e as int,
            k as int == neighborhood@.len() - 1,
            k < n,
            available@.len() == n,
            forall|j: int|
                0 <= j < n ==> (#[trigger] available@[j]) == !settled(d, si, k as int).contains(j),
            forall|lv: int|
                0 <= lv < neighborhood@.len() ==> level_seq_matches(
                    (#[trigger] neighborhood@[lv])@,
                    frontier(d, si, lv),
                ) && ascending((#[trigger] neighborhood@[lv])@),
            neighborhood@[k as int]@.len() >= 1,
            !found,
            forall|m: int| 1 <= m <= k ==> !frontier(d, si, m).contains(ei),
            k + 1 <= settled(d, si, k as int).len() <= n,
        ensures
            n == dictionary@.len(),
            d == dict_view(dictionary),
            si == s as int,
            ei == e as int,
            neighborhood@.len() >= 1,
            forall|lv: int|
                0 <= lv < neighborhood@.len() ==> level_seq_matches(
                    (#[trigger] neighborhood@[lv])@,
                    frontier(d, si, lv),
                ) && ascending((#[trigger] neighborhood@[lv])@),
            found ==> 2 <= neighborhood@.len() <= n && frontier(
                d,
                si,
                neighborhood@.len() - 1,
            ).contains(ei),
            !found ==> !ladder_found(d, si, ei),
        decreases n - settled(d, si, k as int).len(),
    {
        let ghost ki = k as int;
        let mut next: Vec<usize> = Vec::new();
        let mut fnd = false;
        let mut col: usize = 0;
        proof {
            lemma_frontier_basic(d, si, ki);
            lemma_frontier_basic(d, si, ki + 1);
        }
        while col < n
            invariant
                n == dictionary@.len(),
                d == dict_view(dictionary),
                matrix_ok(graph.deep_view(), d),
                s < n,
                e < n,
                si == s as int,
                ei == e as int,
                k < n,
                ki == k as int,
                k as int == neighborhood@.len() - 1,
                col <= n,
                available@.len() == n,
                forall|j: int|
                    0 <= j < n ==> (#[trigger] available@[j]) == !(settled(d, si, ki).contains(j)
                        || (j < col && frontier(d, si, ki + 1).contains(j))),
                forall|lv: int|
                    0 <= lv < neighborhood@.len() ==> level_seq_matches(
                        (#[trigger] neighborhood@[lv])@,
                        frontier(d, si, lv),
                    ) && ascending((#[trigger] neighborhood@[lv])@),
                forall|a: int|
                    0 <= a < next@.len() ==> frontier(d, si, ki + 1).contains(
                        #[trigger] next@[a] as int,
                    ) && next@[a] < col,
                ascending(next@),
                forall|x: int|
                    #[trigger] frontier(d, si, ki + 1).contains(x) && x < col ==> exists|a: int|
                        0 <= a < next@.len() && next@[a] == x,
                fnd == (ei < col && frontier(d, si, ki + 1).contains(ei)),
            decreases n - col,
        {
            let avail_col = available[col];
            proof {
                assert forall|a: int|
                    0 <= a < neighborhood@[ki]@.len() implies (#[trigger] neighborhood@[ki]@[a])
                    < n by {
                    assert(frontier(d, si, ki).contains(neighborhood@[ki]@[a] as int));
                    assert(in_frontier(d, si, ki, neighborhood@[ki]@[a] as int));
                    if ki == 0 {
                        assert(neighborhood@[ki]@[a] as int == si);
                    }
                }
            }
            let adjacent_to_frontier = frontier_scan(graph, &neighborhood[k], col, Ghost(d));
            if avail_col && adjacent_to_frontier {
                proof {
                    let a = choose|a: int|
                        0 <= a < neighborhood@[ki]@.len() && adj_idx(
                            d,
                            #[trigger] neighborhood@[ki]@[a] as int,
                            col as int,
                        );
                    let i = neighborhood@[ki]@[a] as int;
                    assert(frontier(d, si, ki).contains(i));
                    lemma_frontier_fold(d, si, ki + 1, i, col as int);
                    assert(frontier(d, si, ki + 1).contains(col as int));
                }
                let ghost old_next = next@;
                next.push(col);
                available.set(col, false);
                if col == e {
                    fnd = true;
                }
                proof {
                    assert forall|x: int|
                        #[trigger] frontier(d, si, ki + 1).contains(x) && x < col + 1 implies exists|
                            a: int,
                        | 0 <= a < next@.len() && next@[a] == x by {
                        if x < col {
                            let a = choose|a: int| 0 <= a < old_next.len() && old_next[a] == x;
                            assert(next@[a] == old_next[a]);
                            assert(next@[a] == x);
                        } else {
                            assert(next@[next@.len() - 1] == col);
                        }
                    }
                }
            } else {
                proof {
                    if frontier(d, si, ki + 1).contains(col as int) {
                        assert(!settled(d, si, ki).contains(col as int));
                        if !avail_col {
                            assert(false);
                        }
                        lemma_frontier_unfold(d, si, ki + 1, col as int);
                        let i = choose|i: int|
                            #[trigger] frontier(d, si, ki).contains(i) && adj_idx(
                                d,
                                i,
                                col as int,
                            );
                        let a = choose|a: int|
                            0 <= a < neighborhood@[ki]@.len() && (neighborhood@[ki]@[a] as int)
                                == i;
                        assert(adj_idx(d, neighborhood@[ki]@[a] as int, col as int));
                        assert(false);
                    }
                }
            }
            col = col + 1;
        }
        let next_len = next.len();
        let ghost prev_hood = neighborhood@;
        neighborhood.push(next);
        k = k + 1;
        proof {
            assert forall|j: int|
                0 <= j < n implies (#[trigger] available@[j]) == !settled(d, si, ki + 1).contains(
                j,
            ) by {
                assert(in_settled(d, si, ki + 1, j) == (in_settled(d, si, ki, j) || in_frontier(
                    d,
                    si,
                    ki + 1,
                    j,
                )));
            }
            assert forall|lv: int|
                0 <= lv < neighborhood@.len() implies level_seq_matches(
                    (#[trigger] neighborhood@[lv])@,
                    frontier(d, si, lv),
                ) && ascending((#[trigger] neighborhood@[lv])@) by {
                if lv < prev_hood.len() {
                    assert(neighborhood@[lv] == prev_hood[lv]);
                } else {
                    assert(neighborhood@[lv]@ == next@);
                    assert forall|x: int| #[trigger] frontier(d, si, ki + 1).contains(x) implies x
                        < n by {
                        assert(in_frontier(d, si, ki + 1, x));
                    }
                }
            }
        }
        if fnd {
            found = true;
            proof {
                assert(settled(d, si, ki + 1).contains(ei)) by {
                    assert(in_frontier(d, si, ki + 1, ei));
                    assert(in_settled(d, si, ki + 1, ei));
                }
                assert(!settled(d, si, ki).contains(ei));
                crate::search::lemma_settled_grow(d, si, ki, ei);
                assert(2 <= neighborhood@.len());
                assert(neighborhood@.len() <= n);
            }
            break ;
        }
        if next_len == 0 {
            proof {
                assert(frontier(d, si, ki + 1) =~= Set::<int>::empty()) by {
                    assert forall|x: int| !(#[trigger] frontier(d, si, ki + 1).contains(x)) by {
                        if frontier(d, si, ki + 1).contains(x) {
                            assert(in_frontier(d, si, ki + 1, x));
                            assert(0 <= x < n);
                        }
                    }
                }
                assert forall|m: int| 1 <= m implies !frontier(d, si, m).contains(ei) by {
                    if m <= ki {
                    } else {
                        lemma_frontier_empty_stays(d, si, ki + 1, m);
                    }
                }
                assert(!ladder_found(d, si, ei));
            }
            break ;
        }
        proof {
            let x = next@[0] as int;
            assert(frontier(d, si, ki + 1).contains(x));
            assert(settled(d, si, ki + 1).contains(x)) by {
                assert(in_frontier(d, si, ki + 1, x));
                assert(in_settled(d, si, ki + 1, x));
            }
            assert(!settled(d, si, ki).contains(x));
            crate::search::lemma_settled_grow(d, si, ki, x);
        }
    }

    (neighborhood, found)
}

/// The graph-based search driver: builds the adjacency matrix, runs the
/// sequential breadth-first expansion over it, and — when the end word was
/// reached — walks the level lists backwards, picking at each level the
/// first listed word adjacent to the previously chosen one.  Same contract
/// as the dynamic search: the found flag reports reachability and a found
/// ladder follows the breadth-first frontiers, so it is exactly one word
/// longer than the shortest-path distance.
pub fn build_neighborhood_parallel(
    dictionary: &Vec<String>,
    start: &String,
    end: &String,
    nthreads: usize,
) -> (r: (bool, Vec<usize>))
    requires
        nthreads >= 1,
        word_in_dict(dict_view(dictionary), start@),
        word_in_dict(dict_view(dictionary), end@),
    ensures
        search_contract(
            dict_view(dictionary),
            first_index(dict_view(dictionary), start@),
            first_index(dict_view(dictionary), end@),
            (r.0, r.1@),
        ),
{
    let ghost d = dict_view(dictionary);
    let graph = build_graph(dictionary, nthreads);
    let (neighborhood, found) = build_neighborhood(&graph, dictionary, start, end);
    let ghost si = first_index(d, start@);
    let ghost ei = first_index(d, end@);
    if !found {
        return (false, Vec::new());
    }
    let n = dictionary.len();
    let e = get_word_position(dictionary, end);
    proof {
        crate::adjacency::lemma_first_index(d, start@);
    }
    let end_level = neighborhood.len() - 1;

    let mut ladder: Vec<usize> = Vec::new();
    while ladder.len() < end_level + 1
        invariant
            end_level < n <= usize::MAX,
            n == dictionary@.len(),
            ladder@.len() <= end_level + 1,
            forall|m: int| 0 <= m < ladder@.len() ==> #[trigger] ladder@[m] == 0usize,
        decreases end_level + 1 - ladder@.len(),
    {
        ladder.push(0);
    }
    ladder.set(end_level, e);
    let mut lvl: usize = end_level;
    let mut prev: usize = e;
    proof {
        assert(frontier(d, si, end_level as int).contains(prev as int));
    }
    while lvl > 0
        invariant
            n == dictionary@.len(),
            d == dict_view(dictionary),
            matrix_ok(graph.deep_view(), d),
            si == first_index(d, start@),
            0 <= si < n,
            e < n,
            ei == e as int,
            end_level < n,
            k_levels_ok(neighborhood@, d, si),
            neighborhood@.len() == end_level + 1,
            lvl <= end_level,
            prev < n,
            ladder@.len() == end_level + 1,
            ladder@[lvl as int] == prev,
            ladder@[end_level as int] == e,
            frontier(d, si, lvl as int).contains(prev as int),
            forall|m: int|
                lvl <= m <= end_level ==> frontier(d, si, m).contains(
                    #[trigger] ladder@[m] as int,
                ),
            forall|m: int|
                lvl <= m < end_level ==> adj_idx(d, #[trigger] ladder@[m] as int, ladder@[m + 1] as int),
        decreases lvl,
    {
        let want = lvl - 1;
        let flist = &neighborhood[want];
        proof {
            assert(level_seq_matches(neighborhood@[want as int]@, frontier(d, si, want as int)));
            assert forall|a: int| 0 <= a < flist@.len() implies (#[trigger] flist@[a]) < n by {
                assert(frontier(d, si, want as int).contains(flist@[a] as int));
                assert(in_frontier(d, si, want as int, flist@[a] as int));
                if want == 0 {
                    assert(flist@[a] as int == si);
                }
            }
        }
        let m = flist.len();
        let mut a: usize = 0;
        let mut picked: Option<usize> = None;
        while a < m
            invariant_except_break
                picked is None,
            invariant
                m == flist@.len(),
                a <= m,
                prev < n,
                matrix_ok(graph.deep_view(), d),
                n == d.len(),
                forall|b: int| 0 <= b < flist@.len() ==> (#[trigger] flist@[b]) < n,
                forall|b: int| 0 <= b < a ==> !adj_idx(d, prev as int, #[trigger] flist@[b] as int),
            ensures
                picked matches Some(w) ==> (exists|b: int|
                    0 <= b < flist@.len() && (#[trigger] flist@[b]) == w) && adj_idx(
                    d,
                    prev as int,
                    w as int,
                ),
                picked is None ==> forall|b: int|
                    0 <= b < flist@.len() ==> !adj_idx(d, prev as int, #[trigger] flist@[b] as int),
            decreases m - a,
        {
            let w = flist[a];
            proof {
                assert(graph.deep_view()[prev as int] == graph@[prev as int].deep_view());
                assert(graph@[prev as int].deep_view() =~= graph@[prev as int]@);
            }
            if graph[prev][w] == 1 {
                proof {
                    assert(graph.deep_view()[prev as int][w as int] == 1);
                    assert(adj_idx(d, prev as int, w as int));
                    assert(flist@[a as int] == w);
                }
                picked = Some(w);
                break ;
            }
            proof {
                assert(graph.deep_view()[prev as int][w as int] != 1);
                assert(!adj_idx(d, prev as int, flist@[a as int] as int));
            }
            a = a + 1;
        }
        match picked {
            Some(w) => {
                proof {
                    let b = choose|b: int|
                        0 <= b < flist@.len() && (#[trigger] flist@[b]) == w;
                    assert(frontier(d, si, want as int).contains(w as int));
                    lemma_adj_idx_symmetric(d, w as int, prev as int);
                }
                ladder.set(want, w);
                prev = w;
                lvl = want;
            },
            None => {
                proof {
                    lemma_frontier_unfold(d, si, lvl as int, prev as int);
                    let i = choose|i: int|
                        #[trigger] frontier(d, si, lvl as int - 1).contains(i) && adj_idx(
                            d,
                            i,
                            prev as int,
                        );
                    let b = choose|b: int|
                        0 <= b < flist@.len() && (flist@[b] as int) == i;
                    lemma_adj_idx_symmetric(d, i, prev as int);
                    assert(adj_idx(d, prev as int, flist@[b] as int));
                    assert(false);
                }
                return (false, Vec::new());
            },
        }
    }
    proof {
        assert(frontier(d, si, 0).contains(ladder@[0] as int));
        assert(in_frontier(d, si, 0, ladder@[0] as int));
        assert(ladder@[0] as int == si);
        assert(frontier_ladder(d, ladder@, si, ei));
        assert(ladder_found(d, si, ei)) by {
            assert(frontier(d, si, end_level as int).contains(ei));
        }
    }
    (true, ladder)
}

/// Every stored level list holds exactly its frontier.
pub open spec fn k_levels_ok(hood: Seq<Vec<usize>>, d: Seq<Seq<char>>, s: int) -> bool {
    forall|lv: int|
        0 <= lv < hood.len() ==> level_seq_matches((#[trigger] hood[lv])@, frontier(d, s, lv))
}

} // verus!
