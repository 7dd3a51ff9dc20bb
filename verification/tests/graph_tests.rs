use word_ladder::graph::{build_graph, build_graph_rows};

fn dict(words: &[&str]) -> Vec<String> {
    words.iter().map(|w| w.to_string()).collect()
}

#[test]
fn graph_of_chain_dictionary() {
    let d = dict(&["cat", "cot", "cog", "dog"]);
    let g = build_graph(&d, 1);
    let expected = vec![
        vec![0, 1, 0, 0],
        vec![1, 0, 1, 0],
        vec![0, 1, 0, 0],
        vec![0, 0, 0, 0],
    ];
    // dog is adjacent to cog only
    let mut expected = expected;
    expected[2][3] = 1;
    expected[3][2] = 1;
    assert_eq!(g, expected);
}

#[test]
fn graph_diagonal_is_zero() {
    let d = dict(&["monk", "mock", "pock", "pork", "perk", "perl"]);
    let g = build_graph(&d, 2);
    for i in 0..d.len() {
        assert_eq!(g[i][i], 0);
    }
}

#[test]
fn graph_is_symmetric() {
    let d = dict(&["monk", "mock", "pock", "pork", "perk", "perl"]);
    let g = build_graph(&d, 3);
    for i in 0..d.len() {
        for j in 0..d.len() {
            assert_eq!(g[i][j], g[j][i]);
        }
    }
}

#[test]
fn worker_count_does_not_change_graph() {
    let d = dict(&["monk", "mock", "pock", "pork", "perk", "perl"]);
    let n = d.len();
    let g1 = build_graph(&d, 1);
    let g2 = build_graph(&d, 2);
    let gn = build_graph(&d, n);
    let gbig = build_graph(&d, n + 17);
    assert_eq!(g1, g2);
    assert_eq!(g1, gn);
    assert_eq!(g1, gbig);
}

#[test]
fn graph_rows_match_full_graph() {
    let d = dict(&["cat", "cot", "cog", "dog", "dot"]);
    let full = build_graph(&d, 1);
    let rows = build_graph_rows(&d, 1, 4);
    assert_eq!(rows.len(), 3);
    for (offset, row) in rows.iter().enumerate() {
        assert_eq!(row, &full[1 + offset]);
    }
    let empty = build_graph_rows(&d, 2, 2);
    assert!(empty.is_empty());
}

#[test]
fn graph_of_empty_dictionary() {
    let d: Vec<String> = Vec::new();
    let g = build_graph(&d, 4);
    assert!(g.is_empty());
}
