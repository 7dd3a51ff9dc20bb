use word_ladder::graph::build_graph;
use word_ladder::ladder::{build_ladder, LadderError, LadderOutcome};
use word_ladder::neighborhood::{build_neighborhood, build_neighborhood_parallel};
use word_ladder::search::{build_ladder_parallel, ladder_from_levels};

fn dict(words: &[&str]) -> Vec<String> {
    words.iter().map(|w| w.to_string()).collect()
}

fn hamming_one(a: &str, b: &str) -> bool {
    a.len() == b.len() && a.chars().zip(b.chars()).filter(|(x, y)| x != y).count() == 1
}

/// A returned ladder must start at the start word, end at the end word, and
/// move by exactly one letter per step, through dictionary words only.
fn assert_valid_ladder(d: &[String], ladder: &[String], start: &str, end: &str) {
    assert!(ladder.len() >= 2);
    assert_eq!(ladder[0], start);
    assert_eq!(ladder[ladder.len() - 1], end);
    for w in ladder {
        assert!(d.iter().any(|x| x == w), "{} not in dictionary", w);
    }
    for pair in ladder.windows(2) {
        assert!(hamming_one(&pair[0], &pair[1]), "{} -> {} is not one step", pair[0], pair[1]);
    }
}

/// Single-threaded reference breadth-first search, written independently of
/// the library, as an oracle for shortest distances.
fn oracle_distance(d: &[String], s: usize, e: usize) -> Option<usize> {
    let n = d.len();
    let mut dist = vec![usize::MAX; n];
    dist[s] = 0;
    let mut queue = std::collections::VecDeque::new();
    queue.push_back(s);
    while let Some(i) = queue.pop_front() {
        for j in 0..n {
            if dist[j] == usize::MAX && hamming_one(&d[i], &d[j]) {
                dist[j] = dist[i] + 1;
                queue.push_back(j);
            }
        }
    }
    if dist[e] == usize::MAX {
        None
    } else {
        Some(dist[e])
    }
}

fn found_words(r: Result<LadderOutcome, LadderError>) -> Option<Vec<String>> {
    match r {
        Ok(LadderOutcome::Found(ws)) => Some(ws),
        Ok(LadderOutcome::NotFound) => None,
        Err(e) => panic!("unexpected error: {:?}", e),
    }
}

#[test]
fn monk_to_perl_ladder() {
    let d = dict(&["monk", "mock", "pock", "pork", "perk", "perl"]);
    let expected = vec!["monk", "mock", "pock", "pork", "perk", "perl"];
    for mode in ["-d", "-g"] {
        let ws = found_words(build_ladder(
            &"monk".to_string(),
            &"perl".to_string(),
            &d,
            mode.to_string(),
            4,
        ))
        .expect("ladder expected");
        assert_eq!(ws, expected);
        assert_eq!(ws.len(), 6);
        assert_valid_ladder(&d, &ws, "monk", "perl");
    }
}

#[test]
fn cat_to_dog_ladder() {
    let d = dict(&["cat", "cot", "cog", "dog"]);
    let expected = vec!["cat", "cot", "cog", "dog"];
    for mode in ["-d", "-g"] {
        for nthread in 1..=5 {
            let ws = found_words(build_ladder(
                &"cat".to_string(),
                &"dog".to_string(),
                &d,
                mode.to_string(),
                nthread,
            ))
            .expect("ladder expected");
            assert_eq!(ws, expected);
            assert_valid_ladder(&d, &ws, "cat", "dog");
        }
    }
}

#[test]
fn disconnected_words_report_not_found() {
    let d = dict(&["abc", "xyz", "abd"]);
    for mode in ["-d", "-g"] {
        for nthread in 1..=d.len() {
            let r = build_ladder(&"abc".to_string(), &"xyz".to_string(), &d, mode.to_string(), nthread);
            assert!(matches!(r, Ok(LadderOutcome::NotFound)));
        }
    }
}

#[test]
fn length_mismatch_is_rejected() {
    let d = dict(&["cat", "monk"]);
    let r = build_ladder(&"cat".to_string(), &"monk".to_string(), &d, "-d".to_string(), 2);
    assert_eq!(r.unwrap_err(), LadderError::LengthMismatch);
    // checked before the dictionary lookup: words need not be present
    let r = build_ladder(&"ab".to_string(), &"abcd".to_string(), &d, "-g".to_string(), 2);
    assert_eq!(r.unwrap_err(), LadderError::LengthMismatch);
}

#[test]
fn missing_word_is_rejected() {
    let d = dict(&["cat", "cot"]);
    let r = build_ladder(&"cat".to_string(), &"dog".to_string(), &d, "-d".to_string(), 2);
    assert_eq!(r.unwrap_err(), LadderError::WordNotFound);
    let r = build_ladder(&"dot".to_string(), &"cot".to_string(), &d, "-g".to_string(), 2);
    assert_eq!(r.unwrap_err(), LadderError::WordNotFound);
}

#[test]
fn zero_workers_is_rejected() {
    let d = dict(&["cat", "cot"]);
    let r = build_ladder(&"cat".to_string(), &"cot".to_string(), &d, "-d".to_string(), 0);
    assert_eq!(r.unwrap_err(), LadderError::ConfigurationError);
}

#[test]
fn same_start_and_end_reports_not_found() {
    // the searches look for the end word among newly leveled neighbors, so
    // a word is never reported as its own ladder
    let d = dict(&["cat", "cot"]);
    for mode in ["-d", "-g"] {
        let r = build_ladder(&"cat".to_string(), &"cat".to_string(), &d, mode.to_string(), 1);
        assert!(matches!(r, Ok(LadderOutcome::NotFound)));
    }
}

#[test]
fn dynamic_search_returns_indices() {
    let d = dict(&["cat", "cot", "cog", "dog"]);
    let (found, ladder) = build_ladder_parallel(&d, &"cat".to_string(), &"dog".to_string(), 2);
    assert!(found);
    assert_eq!(ladder, vec![0, 1, 2, 3]);
    let (found, ladder) = build_ladder_parallel(&d, &"dog".to_string(), &"cat".to_string(), 2);
    assert!(found);
    assert_eq!(ladder, vec![3, 2, 1, 0]);
}

#[test]
fn graph_search_returns_indices() {
    let d = dict(&["cat", "cot", "cog", "dog"]);
    let (found, ladder) = build_neighborhood_parallel(&d, &"cat".to_string(), &"dog".to_string(), 2);
    assert!(found);
    assert_eq!(ladder, vec![0, 1, 2, 3]);
    let (found, ladder) = build_neighborhood_parallel(&d, &"abc".to_string(), &"abc".to_string(), 1);
    assert!(!found);
    assert!(ladder.is_empty());
}

#[test]
fn neighborhood_levels_hold_bfs_frontiers() {
    let d = dict(&["cat", "cot", "cog", "dog", "dot"]);
    let g = build_graph(&d, 1);
    let (levels, found) = build_neighborhood(&g, &d, &"cat".to_string(), &"dog".to_string());
    assert!(found);
    // cat; then cot; then cog and dot; then dog
    assert_eq!(levels[0], vec![0]);
    assert_eq!(levels[1], vec![1]);
    assert_eq!(levels[2], vec![2, 4]);
    assert_eq!(levels[3], vec![3]);
}

#[test]
fn ladder_from_levels_walks_back() {
    let d = dict(&["cat", "cot", "cog", "dog"]);
    let levels = vec![0, 1, 2, 3];
    let ladder = ladder_from_levels(&d, &levels, 3, 3).expect("complete levels");
    assert_eq!(ladder, vec![0, 1, 2, 3]);
}

#[test]
fn both_modes_agree_on_every_pair() {
    let d = dict(&[
        "bake", "cake", "lake", "late", "gate", "gaze", "maze", "mace", "race", "rack", "rock",
        "lock", "lick", "lice", "mice", "mile", "mole", "hole", "hold", "cold",
    ]);
    let n = d.len();
    for s in 0..n {
        for e in 0..n {
            if s == e {
                continue;
            }
            let (f1, l1) = build_ladder_parallel(&d, &d[s], &d[e], 3);
            let (f2, l2) = build_neighborhood_parallel(&d, &d[s], &d[e], 3);
            assert_eq!(f1, f2, "modes disagree for {} -> {}", d[s], d[e]);
            if f1 {
                assert_eq!(l1.len(), l2.len(), "lengths differ for {} -> {}", d[s], d[e]);
            }
        }
    }
}

#[test]
fn ladder_length_matches_brute_force_distance() {
    let d = dict(&[
        "bake", "cake", "lake", "late", "gate", "gaze", "maze", "mace", "race", "rack", "rock",
        "lock", "lick", "lice", "mice", "mile", "mole", "hole", "hold", "cold", "bold", "bolt",
        "boat", "coat", "cost", "cast", "case", "base",
    ]);
    let n = d.len();
    for s in 0..n {
        for e in 0..n {
            if s == e {
                continue;
            }
            let oracle = oracle_distance(&d, s, e);
            let (found, ladder) = build_ladder_parallel(&d, &d[s], &d[e], 2);
            match oracle {
                Some(dist) => {
                    assert!(found, "path exists for {} -> {} but not found", d[s], d[e]);
                    assert_eq!(ladder.len(), dist + 1, "not shortest for {} -> {}", d[s], d[e]);
                    let words: Vec<String> = ladder.iter().map(|&i| d[i].clone()).collect();
                    assert_valid_ladder(&d, &words, &d[s], &d[e]);
                }
                None => assert!(!found, "no path exists for {} -> {} but found", d[s], d[e]),
            }
        }
    }
}
