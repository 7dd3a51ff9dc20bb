//! The query entry point: validates the start word, end word and worker
//! count, dispatches to the dynamic level-synchronized search or the
//! graph-based search, and returns the ladder as words.  A missing path is
//! a normal outcome, not an error; invalid inputs are rejected before any
//! search work begins.

use vstd::prelude::*;
use vstd::string::StrSliceExecFns;
use crate::adjacency::{adjacent, dict_view, first_index, position_of_word, word_in_dict};
use crate::bfs::{dist_is, ladder_found};
use crate::neighborhood::build_neighborhood_parallel;
use crate::search::{build_ladder_parallel, frontier_ladder, lemma_ladder_is_shortest};

verus! {

/// Rejected queries: a worker count of zero, start and end words of
/// different lengths, or a start or end word absent from the dictionary.
#[derive(Debug, PartialEq, Eq, Structural)]
pub enum LadderError {
    ConfigurationError,
    LengthMismatch,
    WordNotFound,
}

/// The outcome of a valid query: a shortest ladder from start to end, or
/// the normal report that no ladder connects them.
#[derive(Debug)]
pub enum LadderOutcome {
    Found(Vec<String>),
    NotFound,
}

/// Character-by-character string equality, proved against the views.
fn str_eq_str(a: &str, b: &str) -> (r: bool)
    ensures
        r == (a@ == b@),
{
    let n = a.unicode_len();
    if n != b.unicode_len() {
        return false;
    }
    let mut i: usize = 0;
    while i < n
        invariant
            n == a@.len(),
            n == b@.len(),
            i <= n,
            forall|j: int| 0 <= j < i ==> a@[j] == b@[j],
        decreases n - i,
    {
        if a.get_char(i) != b.get_char(i) {
            return false;
        }
        i = i + 1;
    }
    proof {
        assert(a@ =~= b@);
    }
    true
}

/// A found ladder at the word level: at least two words, starting with the
/// start word and ending with the end word, every word drawn from the
/// dictionary, consecutive words at Hamming distance exactly 1, and the
/// whole exactly one word longer than the shortest-path distance between
/// the first occurrences of start and end.
pub open spec fn word_ladder_ok(
    d: Seq<Seq<char>>,
    ws: Seq<Seq<char>>,
    start: Seq<char>,
    end: Seq<char>,
) -> bool {
    &&& ws.len() >= 2
    &&& ws[0] == start
    &&& ws[ws.len() - 1] == end
    &&& forall|m: int| 0 <= m < ws.len() ==> word_in_dict(d, #[trigger] ws[m])
    &&& forall|m: int| 0 <= m < ws.len() - 1 ==> adjacent(#[trigger] ws[m], ws[m + 1])
    &&& dist_is(d, first_index(d, start), first_index(d, end), ws.len() - 1)
}

/// Finds a shortest word ladder from `start` to `end` in the dictionary.
/// `mode` selects the search: `"-d"` runs the dynamic level-synchronized
/// search, `"-g"` builds the adjacency graph and runs the sequential
/// search; both are held to the same contract, so they report the same
/// outcome and equally short ladders.  Invalid queries are rejected, in
/// this order, before any search work: mismatched word lengths, words
/// absent from the dictionary, a worker count of zero.
pub fn build_ladder(
    start: &String,
    end: &String,
    dictionary: &Vec<String>,
    mode: String,
    nthread: usize,
) -> (r: Result<LadderOutcome, LadderError>)
    requires
        mode@ == "-d"@ || mode@ == "-g"@,
        dictionary@.len() < usize::MAX,
    ensures
        ({
            let d = dict_view(dictionary);
            let valid = start@.len() == end@.len() && word_in_dict(d, start@) && word_in_dict(
                d,
                end@,
            ) && nthread >= 1;
            &&& (r == Err::<LadderOutcome, LadderError>(LadderError::LengthMismatch) <==> start@.len()
                != end@.len())
            &&& (r == Err::<LadderOutcome, LadderError>(LadderError::WordNotFound) <==> (
            start@.len() == end@.len() && !(word_in_dict(d, start@) && word_in_dict(d, end@))))
            &&& (r == Err::<LadderOutcome, LadderError>(LadderError::ConfigurationError) <==> (
            start@.len() == end@.len() && word_in_dict(d, start@) && word_in_dict(d, end@)
                && nthread == 0))
            &&& valid ==> r is Ok
            &&& (r matches Ok(o) ==> valid && ((o matches LadderOutcome::NotFound) <==> !ladder_found(
                d,
                first_index(d, start@),
                first_index(d, end@),
            )))
            &&& (r matches Ok(o) ==> (o matches LadderOutcome::Found(ws) ==> word_ladder_ok(
                d,
                ws.deep_view(),
                start@,
                end@,
            )))
        }),
{
    let ghost d = dict_view(dictionary);
    if start.as_str().unicode_len() != end.as_str().unicode_len() {
        return Err(LadderError::LengthMismatch);
    }
    let s_found = position_of_word(dictionary, start).is_some();
    let e_found = position_of_word(dictionary, end).is_some();
    if !s_found || !e_found {
        return Err(LadderError::WordNotFound);
    }
    if nthread == 0 {
        return Err(LadderError::ConfigurationError);
    }
    let dynamic_mode = str_eq_str(mode.as_str(), "-d");
    let (found, ladder) = if dynamic_mode {
        build_ladder_parallel(dictionary, start, end, nthread)
    } else {
        build_neighborhood_parallel(dictionary, start, end, nthread)
    };
    let ghost si = first_index(d, start@);
    let ghost ei = first_index(d, end@);
    if found {
        proof {
            crate::adjacency::lemma_first_index(d, start@);
            crate::adjacency::lemma_first_index(d, end@);
            lemma_ladder_is_shortest(d, si, ei, ladder@);
            assert forall|m: int|
                0 <= m < ladder@.len() implies (#[trigger] ladder@[m]) < dictionary@.len() by {
                assert(crate::bfs::frontier(d, si, m).contains(ladder@[m] as int));
                assert(crate::bfs::in_frontier(d, si, m, ladder@[m] as int));
                if m == 0 {
                    assert(ladder@[m] as int == si);
                }
            }
        }
        let n_words = ladder.len();
        let mut ws: Vec<String> = Vec::new();
        let mut i: usize = 0;
        while i < n_words
            invariant
                n_words == ladder@.len(),
                i <= n_words,
                d == dict_view(dictionary),
                frontier_ladder(d, ladder@, si, ei),
                forall|m: int| 0 <= m < ladder@.len() ==> (#[trigger] ladder@[m]) < dictionary@.len(),
                ws@.len() == i,
                forall|m: int| 0 <= m < i ==> (#[trigger] ws@[m])@ == d[ladder@[m] as int],
            decreases n_words - i,
        {
            let idx = ladder[i];
            ws.push(dictionary[idx].clone());
            i = i + 1;
        }
        proof {
            assert forall|m: int| 0 <= m < ws.deep_view().len() implies word_in_dict(
                d,
                #[trigger] ws.deep_view()[m],
            ) by {
                assert(ws.deep_view()[m] == ws@[m]@);
                assert(d[ladder@[m] as int] == ws.deep_view()[m]);
            }
            assert(ws.deep_view()[0] == ws@[0]@);
            assert(ws.deep_view()[0] == start@);
            assert(ws.deep_view()[ws@.len() - 1] == ws@[ws@.len() - 1]@);
            assert(ws.deep_view()[ws@.len() - 1] == end@);
            assert forall|m: int| 0 <= m < ws.deep_view().len() - 1 implies adjacent(
                #[trigger] ws.deep_view()[m],
                ws.deep_view()[m + 1],
            ) by {
                assert(crate::bfs::adj_idx(d, ladder@[m] as int, ladder@[m + 1] as int));
                assert(ws.deep_view()[m] == ws@[m]@);
                assert(ws.deep_view()[m + 1] == ws@[m + 1]@);
            }
            assert(word_ladder_ok(d, ws.deep_view(), start@, end@));
        }
        Ok(LadderOutcome::Found(ws))
    } else {
        Ok(LadderOutcome::NotFound)
    }
}

} // verus!
