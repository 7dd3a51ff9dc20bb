//! The graph builder: the N x N word-adjacency matrix, built row range by
//! row range.  Row ranges are disjoint, so a caller may compute them in any
//! order or hand them to parallel workers; the contract pins every cell, so
//! the assembled matrix never depends on the partitioning.

use vstd::prelude::*;
use crate::adjacency::{adjacent, dict_view, is_one_letter_different};

verus! {

/// `m` is the adjacency matrix of `d`: square, with cell `(i, j)` equal to 1
/// when words `i` and `j` are adjacent and 0 otherwise.
pub open spec fn matrix_ok(m: Seq<Seq<usize>>, d: Seq<Seq<char>>) -> bool {
    m.len() == d.len() && (forall|i: int| 0 <= i < m.len() ==> (#[trigger] m[i]).len() == d.len())
        && (forall|i: int, j: int|
        0 <= i < m.len() && 0 <= j < d.len() ==> #[trigger] m[i][j] == (if adjacent(d[i], d[j]) {
            1usize
        } else {
            0usize
        }))
}

/// The rows `row_start .. row_end` of the adjacency matrix of `d`, each of
/// full width.
pub open spec fn rows_ok(r: Seq<Seq<usize>>, d: Seq<Seq<char>>, row_start: int, row_end: int) -> bool {
    r.len() == row_end - row_start && (forall|i: int|
        0 <= i < r.len() ==> (#[trigger] r[i]).len() == d.len()) && (forall|i: int, j: int|
        0 <= i < r.len() && 0 <= j < d.len() ==> #[trigger] r[i][j] == (if adjacent(
            d[row_start + i],
            d[j],
        ) {
            1usize
        } else {
            0usize
        }))
}

/// Computes the adjacency-matrix rows for the words `row_start .. row_end`,
/// each row spanning the whole dictionary.  This is the unit of work one
/// graph-builder worker owns; disjoint row ranges touch disjoint cells.
pub fn build_graph_rows(dictionary: &Vec<String>, row_start: usize, row_end: usize) -> (r: Vec<
    Vec<usize>,
>)
    requires
        row_start <= row_end <= dictionary@.len(),
    ensures
        rows_ok(r.deep_view(), dict_view(dictionary), row_start as int, row_end as int),
{
    let ghost d = dict_view(dictionary);
    let n = dictionary.len();
    let mut r: Vec<Vec<usize>> = Vec::new();
    let mut row: usize = row_start;
    while row < row_end
        invariant
            row_start <= row <= row_end <= n,
            n == dictionary@.len(),
            d == dict_view(dictionary),
            r.deep_view().len() == row - row_start,
            forall|i: int| 0 <= i < r@.len() ==> (#[trigger] r.deep_view()[i]).len() == n,
            forall|i: int, j: int|
                0 <= i < r@.len() && 0 <= j < n ==> #[trigger] r.deep_view()[i][j] == (
                if adjacent(d[row_start + i], d[j]) {
                    1usize
                } else {
                    0usize
                }),
        decreases row_end - row,
    {
        let mut cells: Vec<usize> = Vec::new();
        let mut col: usize = 0;
        while col < n
            invariant
                col <= n,
                row < n,
                n == dictionary@.len(),
                d == dict_view(dictionary),
                cells@.len() == col,
                forall|j: int|
                    0 <= j < col ==> #[trigger] cells@[j] == (if adjacent(d[row as int], d[j]) {
                        1usize
                    } else {
                        0usize
                    }),
            decreases n - col,
        {
            if is_one_letter_different(&dictionary[row], &dictionary[col]) {
                cells.push(1);
            } else {
                cells.push(0);
            }
            col = col + 1;
        }
        let ghost prev = r@;
        let ghost prev_dv = r.deep_view();
        let ghost cells_seq = cells@;
        r.push(cells);
        proof {
            assert forall|i: int| 0 <= i < r@.len() implies #[trigger] r.deep_view()[i] == (
            if i < prev.len() {
                prev_dv[i]
            } else {
                cells_seq
            }) by {
                assert(r.deep_view()[i] == r@[i].deep_view());
                if i < prev.len() {
                    assert(r@[i] == prev[i]);
                } else {
                    assert(r@[i]@ == cells_seq);
                    assert(r@[i].deep_view() =~= cells_seq);
                }
            }
        }
        row = row + 1;
    }
    r
}

/// Builds the full word-adjacency matrix.  The rows are split into
/// `min(nthreads, N)` contiguous chunks of `ceil(N / min(nthreads, N))` rows
/// (the last chunk truncated), computed chunk by chunk; the contract pins
/// every cell, so the chunking never shows in the result.
pub fn build_graph(dictionary: &Vec<String>, nthreads: usize) -> (r: Vec<Vec<usize>>)
    requires
        nthreads >= 1,
    ensures
        matrix_ok(r.deep_view(), dict_view(dictionary)),
{
    let ghost d = dict_view(dictionary);
    let n = dictionary.len();
    let num_workers = if nthreads > n {
        n
    } else {
        nthreads
    };
    let mut r: Vec<Vec<usize>> = Vec::new();
    if n == 0 {
        return r;
    }
    assert((n - 1) as int / num_workers as int <= n - 1) by (nonlinear_arith)
        requires
            n >= 1,
            num_workers >= 1,
    ;
    let chunk = (n - 1) / num_workers + 1;
    let mut lo: usize = 0;
    while lo < n
        invariant
            lo <= n,
            n == dictionary@.len(),
            d == dict_view(dictionary),
            chunk >= 1,
            rows_ok(r.deep_view(), d, 0, lo as int),
        decreases n - lo,
    {
        let hi = if chunk > n - lo {
            n
        } else {
            lo + chunk
        };
        let mut part = build_graph_rows(dictionary, lo, hi);
        let ghost prev = r@;
        let ghost prev_dv = r.deep_view();
        let ghost part_seq = part@;
        let ghost part_dv = part.deep_view();
        r.append(&mut part);
        proof {
            assert(r@ == prev + part_seq);
            assert forall|i: int| 0 <= i < r@.len() implies #[trigger] r.deep_view()[i] == (
            if i < prev.len() {
                prev_dv[i]
            } else {
                part_dv[i - prev.len()]
            }) by {
                assert(r.deep_view()[i] == r@[i].deep_view());
                if i < prev.len() {
                    assert(r@[i] == prev[i]);
                } else {
                    assert(r@[i] == part_seq[i - prev.len()]);
                    assert(part_dv[i - prev.len()] == part_seq[i - prev.len()].deep_view());
                }
            }
            assert(rows_ok(r.deep_view(), d, 0, hi as int));
        }
        lo = hi;
    }
    r
}

/// The graph builder's output is a function of the dictionary alone: any two
/// matrices that satisfy the matrix contract — for instance ones assembled
/// with different worker counts — are identical.
pub proof fn lemma_graph_is_unique(m1: Seq<Seq<usize>>, m2: Seq<Seq<usize>>, d: Seq<Seq<char>>)
    requires
        matrix_ok(m1, d),
        matrix_ok(m2, d),
    ensures
        m1 == m2,
{
    assert forall|i: int| 0 <= i < m1.len() implies m1[i] =~= m2[i] by {
        assert(forall|j: int| 0 <= j < d.len() ==> m1[i][j] == m2[i][j]);
    }
    assert(m1 =~~= m2);
}

} // verus!
