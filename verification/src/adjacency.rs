//! The adjacency predicate: two equal-length words are adjacent when they
//! differ in exactly one character position, and word lookup by value in the
//! dictionary, ties broken by the first matching index.

use vstd::prelude::*;
use vstd::string::StrSliceExecFns;

verus! {

/// Number of positions in `0 .. n` where `a` and `b` differ.
pub open spec fn diff_count(a: Seq<char>, b: Seq<char>, n: int) -> int
    decreases n,
{
    if n <= 0 {
        0
    } else {
        diff_count(a, b, n - 1) + if a[n - 1] == b[n - 1] {
            0int
        } else {
            1int
        }
    }
}

/// Two words are adjacent when they have equal length and differ in exactly
/// one character position.
pub open spec fn adjacent(a: Seq<char>, b: Seq<char>) -> bool {
    a.len() == b.len() && diff_count(a, b, a.len() as int) == 1
}

proof fn lemma_diff_count_symmetric(a: Seq<char>, b: Seq<char>, n: int)
    ensures
        diff_count(a, b, n) == diff_count(b, a, n),
    decreases n,
{
    if n > 0 {
        lemma_diff_count_symmetric(a, b, n - 1);
    }
}

/// The adjacency predicate is symmetric.
pub proof fn lemma_adjacent_symmetric(a: Seq<char>, b: Seq<char>)
    ensures
        adjacent(a, b) == adjacent(b, a),
{
    lemma_diff_count_symmetric(a, b, a.len() as int);
    lemma_diff_count_symmetric(a, b, b.len() as int);
}

/// Returns whether `baseword` and `word` are at Hamming distance exactly 1:
/// equal length and exactly one differing character.  Words of unequal
/// length are never adjacent.
pub fn is_one_letter_different(baseword: &String, word: &String) -> (r: bool)
    ensures
        r == adjacent(baseword@, word@),
{
    let a = baseword.as_str();
    let b = word.as_str();
    let n = a.unicode_len();
    if n != b.unicode_len() {
        return false;
    }
    let mut diff_counter: usize = 0;
    let mut i: usize = 0;
    while i < n
        invariant
            n == a@.len(),
            n == b@.len(),
            a@ == baseword@,
            b@ == word@,
            i <= n,
            diff_counter == diff_count(a@, b@, i as int),
            diff_counter <= i,
        decreases n - i,
    {
        if a.get_char(i) != b.get_char(i) {
            diff_counter = diff_counter + 1;
        }
        i = i + 1;
    }
    diff_counter == 1
}

/// The word occurs somewhere in the dictionary.
pub open spec fn word_in_dict(d: Seq<Seq<char>>, w: Seq<char>) -> bool {
    exists|i: int| 0 <= i < d.len() && d[i] == w
}

/// Index of the first occurrence of `w` in `d` (meaningful when
/// `word_in_dict(d, w)` holds).
pub open spec fn first_index(d: Seq<Seq<char>>, w: Seq<char>) -> int
    decreases d.len(),
{
    if d.len() == 0 {
        0
    } else if d[0] == w {
        0
    } else {
        1 + first_index(d.drop_first(), w)
    }
}

/// When the word occurs in the dictionary, `first_index` names its first
/// occurrence: the entry there equals the word and no earlier entry does.
pub proof fn lemma_first_index(d: Seq<Seq<char>>, w: Seq<char>)
    requires
        word_in_dict(d, w),
    ensures
        0 <= first_index(d, w) < d.len(),
        d[first_index(d, w)] == w,
        forall|j: int| 0 <= j < first_index(d, w) ==> d[j] != w,
    decreases d.len(),
{
    if d.len() > 0 && d[0] != w {
        let dd = d.drop_first();
        assert(word_in_dict(dd, w)) by {
            let i = choose|i: int| 0 <= i < d.len() && d[i] == w;
            assert(dd[i - 1] == w);
        }
        lemma_first_index(dd, w);
        assert forall|j: int| 0 <= j < first_index(d, w) implies d[j] != w by {
            if j > 0 {
                assert(dd[j - 1] == d[j]);
            }
        }
    }
}

/// View of the dictionary as a sequence of character sequences.
pub open spec fn dict_view(dictionary: &Vec<String>) -> Seq<Seq<char>> {
    dictionary.deep_view()
}

/// Position of the first dictionary entry equal to `base_word`.  The word
/// must be present: absence is reported by [`position_of_word`], which
/// callers use to reject unknown words before any search work begins.
pub fn get_word_position(dictionary: &Vec<String>, base_word: &String) -> (r: usize)
    requires
        word_in_dict(dict_view(dictionary), base_word@),
    ensures
        r == first_index(dict_view(dictionary), base_word@),
        r < dictionary@.len(),
        dict_view(dictionary)[r as int] == base_word@,
        forall|j: int| 0 <= j < r ==> dict_view(dictionary)[j] != base_word@,
{
    proof {
        lemma_first_index(dict_view(dictionary), base_word@);
    }
    match position_of_word(dictionary, base_word) {
        Some(r) => r,
        // unreachable: the word is required to be in the dictionary
        None => 0,
    }
}

/// Position of the first dictionary entry equal to `word`, or `None` when
/// the word does not occur in the dictionary.
pub fn position_of_word(dictionary: &Vec<String>, word: &String) -> (r: Option<usize>)
    ensures
        r is Some <==> word_in_dict(dict_view(dictionary), word@),
        r matches Some(i) ==> i == first_index(dict_view(dictionary), word@)
            && i < dictionary@.len() && dict_view(dictionary)[i as int] == word@,
{
    let ghost dv = dict_view(dictionary);
    let n = dictionary.len();
    let mut i: usize = 0;
    while i < n
        invariant
            n == dictionary@.len(),
            dv == dict_view(dictionary),
            i <= n,
            forall|j: int| 0 <= j < i ==> dv[j] != word@,
        decreases n - i,
    {
        if dictionary[i] == *word {
            proof {
                assert(dv[i as int] == word@);
                lemma_first_index(dv, word@);
                assert(first_index(dv, word@) >= i) by {
                    assert(dv[first_index(dv, word@)] == word@);
                }
            }
            return Some(i);
        }
        assert(dv[i as int] != word@);
        i = i + 1;
    }
    proof {
        if word_in_dict(dv, word@) {
            let k = choose|k: int| 0 <= k < dv.len() && dv[k] == word@;
            assert(dv[k] != word@);
        }
    }
    None
}

} // verus!
