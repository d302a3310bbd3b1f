use seq2graph::{
    collapse_encoding, compress, count_accepted, encode_with_iterative_run_compression,
    encode_with_run_compression, encoding_graph, find_max_compressable_seq, next_match,
    null_encoding, prune_chains, Encoding, TokenIter,
};

fn strs(v: &[&str]) -> Vec<String> {
    v.iter().map(|s| s.to_string()).collect()
}

fn expand(e: &Encoding<String>) -> String {
    e.encoding.iter().map(|i| e.tokens[*i].as_str()).collect()
}

#[test]
fn null_encoding_of_repeated_symbol() {
    let e = null_encoding("aaaa");
    assert_eq!(e.tokens, strs(&["a"]));
    assert_eq!(e.encoding, vec![0, 0, 0, 0]);
}

#[test]
fn null_encoding_first_seen_order() {
    let e = null_encoding("banana");
    assert_eq!(e.tokens, strs(&["b", "a", "n"]));
    assert_eq!(e.encoding, vec![0, 1, 2, 1, 2, 1]);
}

#[test]
fn null_encoding_multibyte_symbols() {
    let e = null_encoding("é€é");
    assert_eq!(e.tokens, strs(&["é", "€"]));
    assert_eq!(e.encoding, vec![0, 1, 0]);
}

#[test]
fn null_encoding_empty() {
    let e = null_encoding("");
    assert!(e.tokens.is_empty());
    assert!(e.encoding.is_empty());
}

#[test]
fn aaaa_example_step_by_step() {
    let mut e = null_encoding("aaaa");
    assert_eq!(find_max_compressable_seq(&e.encoding), Some(vec![0, 0]));
    assert!(encode_with_run_compression(&mut e));
    assert_eq!(e.tokens, strs(&["a", "aa"]));
    assert_eq!(e.encoding, vec![1, 1]);
    assert_eq!(find_max_compressable_seq(&e.encoding), None);
    assert!(!encode_with_run_compression(&mut e));
    assert_eq!(e.tokens, strs(&["a", "aa"]));
    assert_eq!(e.encoding, vec![1, 1]);
}

#[test]
fn abab_example() {
    let mut e = null_encoding("abab");
    assert_eq!(e.tokens, strs(&["a", "b"]));
    assert_eq!(e.encoding, vec![0, 1, 0, 1]);
    assert_eq!(find_max_compressable_seq(&e.encoding), Some(vec![0, 1]));
    let e2 = encode_with_iterative_run_compression("abab");
    assert_eq!(e2.tokens, strs(&["a", "b", "ab"]));
    assert_eq!(e2.encoding, vec![2, 2]);
    assert!(encode_with_run_compression(&mut e));
    assert_eq!(e.encoding, vec![2, 2]);
}

#[test]
fn selector_none_on_short_or_distinct() {
    assert_eq!(find_max_compressable_seq(&[]), None);
    assert_eq!(find_max_compressable_seq(&[0, 1, 2, 3, 4, 5]), None);
    assert_eq!(find_max_compressable_seq(&[0, 0, 0]), None);
}

#[test]
fn selector_prefers_highest_score() {
    // [0,1,2] occurs twice (score 6); [0,1] occurs twice (score 4).
    assert_eq!(
        find_max_compressable_seq(&[0, 1, 2, 9, 0, 1, 2, 8]),
        Some(vec![0, 1, 2])
    );
    // [5,5] occurs three times without overlap (score 6) against [1,2,3] twice (score 6):
    // the shorter one wins the tie.
    assert_eq!(
        find_max_compressable_seq(&[5, 5, 5, 5, 5, 5, 1, 2, 3, 1, 2, 3]),
        Some(vec![5, 5])
    );
}

#[test]
fn selector_counts_only_non_overlapping() {
    // [0,0] overlaps itself in [0,0,0]; the occurrence count is 2 in [0,0,0,0,0].
    assert_eq!(count_accepted(&[0, 0, 0], &[0, 0]), 1);
    assert_eq!(count_accepted(&[0, 0, 0, 0, 0], &[0, 0]), 2);
    assert_eq!(count_accepted(&[1, 2, 1, 2, 1], &[1, 2, 1]), 1);
}

#[test]
fn next_match_positions() {
    assert_eq!(next_match(&[3, 1, 2, 1, 2], &[1, 2], 0), Some(1));
    assert_eq!(next_match(&[3, 1, 2, 1, 2], &[1, 2], 2), Some(3));
    assert_eq!(next_match(&[3, 1, 2, 1, 2], &[1, 2], 4), None);
    assert_eq!(next_match(&[1], &[1, 2], 0), None);
}

#[test]
fn collapse_skips_overlapping_matches() {
    let mut e = null_encoding("aaa");
    collapse_encoding(&mut e, &[0, 0]);
    assert_eq!(e.tokens, strs(&["a", "aa"]));
    assert_eq!(e.encoding, vec![1, 0]);
}

#[test]
fn collapse_accepted_matches_are_apart() {
    let mut e = null_encoding("aaaaa");
    collapse_encoding(&mut e, &[0, 0]);
    assert_eq!(e.encoding, vec![1, 1, 0]);
    // the new sequence length is the old minus matches × (length - 1)
    assert_eq!(e.encoding.len(), 5 - 2 * (2 - 1));
}

#[test]
fn collapse_concatenates_expansions() {
    let mut e = Encoding {
        encoding: vec![0, 1, 2, 0, 1],
        tokens: strs(&["ab", "c", "d"]),
    };
    collapse_encoding(&mut e, &[0, 1]);
    assert_eq!(e.tokens, strs(&["ab", "c", "d", "abc"]));
    assert_eq!(e.encoding, vec![3, 2, 3]);
    collapse_encoding(&mut e, &[2]);
    assert_eq!(e.tokens[4], "d");
    assert_eq!(e.encoding, vec![3, 4, 3]);
}

#[test]
fn round_trip_reproduces_input() {
    for text in [
        "",
        "a",
        "abcabcabcabc",
        "the cat sat on the mat, the cat sat on the hat",
        "mississippi mississippi",
        "xyzzy",
    ] {
        let e = encode_with_iterative_run_compression(text);
        assert_eq!(expand(&e), text);
        assert!(e.encoding.iter().all(|i| *i < e.tokens.len()));
    }
}

#[test]
fn each_step_shrinks_and_appends() {
    let mut e = null_encoding("abcabcabcabcxyxy");
    loop {
        let old_len = e.encoding.len();
        let old_tokens = e.tokens.clone();
        let changed = encode_with_run_compression(&mut e);
        if !changed {
            assert_eq!(e.encoding.len(), old_len);
            assert_eq!(e.tokens, old_tokens);
            break;
        }
        assert!(e.encoding.len() + 2 <= old_len);
        assert_eq!(e.tokens.len(), old_tokens.len() + 1);
        assert_eq!(&e.tokens[..old_tokens.len()], &old_tokens[..]);
        assert_eq!(expand(&e), "abcabcabcabcxyxy");
    }
}

#[test]
fn compress_rounds_bounded_by_length() {
    let text = "aaaaaaaaaaaaaaaa";
    let mut e = null_encoding(text);
    let rounds = compress(&mut e);
    assert!(2 * rounds <= text.len());
    assert_eq!(e.tokens, strs(&["a", "aa", "aaaa", "aaaaaaaa"]));
    assert_eq!(e.encoding, vec![3, 3]);
    assert_eq!(rounds, 3);
}

#[test]
fn compress_again_is_fixed_point() {
    let mut e = encode_with_iterative_run_compression("abracadabra abracadabra");
    let enc = e.encoding.clone();
    let toks = e.tokens.clone();
    assert_eq!(find_max_compressable_seq(&e.encoding), None);
    assert_eq!(compress(&mut e), 0);
    assert_eq!(e.encoding, enc);
    assert_eq!(e.tokens, toks);
}

#[test]
fn graph_of_collapsed_abab() {
    let e = Encoding {
        encoding: vec![2, 2],
        tokens: strs(&["a", "b", "ab"]),
    };
    let g = encoding_graph(&e);
    assert_eq!(g.nodes, vec![2]);
    assert_eq!(g.edges, vec![(2, 2)]);
}

#[test]
fn graph_nodes_sorted_and_edges_in_order() {
    let e = Encoding {
        encoding: vec![3, 0, 3, 1],
        tokens: strs(&["a", "b", "c", "d"]),
    };
    let g = encoding_graph(&e);
    assert_eq!(g.nodes, vec![0, 1, 3]);
    assert_eq!(g.edges, vec![(3, 0), (0, 3), (3, 1)]);
    let empty = encoding_graph(&Encoding::<String> { encoding: vec![], tokens: vec![] });
    assert!(empty.nodes.is_empty());
    assert!(empty.edges.is_empty());
}

#[test]
fn string_tokens_round_trip_symbols() {
    let s = String::from("héllo");
    let atoms = s.token_iter();
    assert_eq!(atoms, vec!['h', 'é', 'l', 'l', 'o']);
    assert_eq!(String::from_atoms(atoms), "héllo");
    assert_eq!(String::from_atoms(vec![]), "");
}

#[test]
fn prune_pass_merges_chain_links() {
    let mut e = null_encoding("abc");
    assert_eq!(seq2graph::prune_pass(&mut e), 1);
    assert_eq!(e.tokens, strs(&["a", "b", "c", "ab"]));
    assert_eq!(e.encoding, vec![3, 2]);
}

#[test]
fn prune_chains_to_fixed_point() {
    let mut e = null_encoding("abc");
    prune_chains(&mut e);
    assert_eq!(e.tokens, strs(&["a", "b", "c", "ab", "abc"]));
    assert_eq!(e.encoding, vec![4]);
    assert_eq!(expand(&e), "abc");
}

#[test]
fn prune_reuses_equal_token() {
    let mut e = Encoding {
        encoding: vec![0, 1, 2],
        tokens: strs(&["a", "b", "ab"]),
    };
    assert_eq!(seq2graph::prune_pass(&mut e), 1);
    assert_eq!(e.tokens, strs(&["a", "b", "ab"]));
    assert_eq!(e.encoding, vec![2, 2]);
}

#[test]
fn prune_leaves_branching_sequence() {
    let mut e = null_encoding("ababa");
    assert_eq!(seq2graph::prune_pass(&mut e), 0);
    prune_chains(&mut e);
    assert_eq!(e.tokens, strs(&["a", "b"]));
    assert_eq!(e.encoding, vec![0, 1, 0, 1, 0]);
}

#[test]
fn prune_pass_skips_after_merge() {
    // (1,0) is a link; the pair after it is not examined in the same pass.
    let mut e = null_encoding("abab");
    assert_eq!(seq2graph::prune_pass(&mut e), 1);
    assert_eq!(e.tokens, strs(&["a", "b", "ba"]));
    assert_eq!(e.encoding, vec![0, 2, 1]);
}

#[test]
fn selector_tie_goes_to_earliest_first_occurrence() {
    // [3,4] and [1,2] both occur twice with length 2; [3,4] is seen first.
    assert_eq!(
        find_max_compressable_seq(&[3, 4, 9, 1, 2, 8, 3, 4, 7, 1, 2]),
        Some(vec![3, 4])
    );
}

#[test]
fn collapse_tokens_concatenates() {
    let e = Encoding {
        encoding: vec![0, 1],
        tokens: strs(&["ab", "c", "de"]),
    };
    assert_eq!(e.collapse_tokens(&[2, 0, 2]), "deabde");
    assert_eq!(e.collapse_tokens(&[]), "");
}

#[test]
fn iterative_equals_repeated_steps_from_null() {
    for text in ["aaaa", "abab", "abcabcabcabcxyxy", "to be or not to be, to be or not"] {
        let mut stepped = null_encoding(text);
        while encode_with_run_compression(&mut stepped) {}
        let direct = encode_with_iterative_run_compression(text);
        assert_eq!(direct.tokens, stepped.tokens);
        assert_eq!(direct.encoding, stepped.encoding);
        let n = text.chars().count();
        let distinct = null_encoding(text).tokens.len();
        assert!(direct.tokens.len() <= distinct + n / 2);
        assert!(direct.encoding.len() <= n);
        if direct.tokens.len() > distinct {
            assert!(direct.encoding.len() + 2 <= n);
        }
    }
}

#[test]
fn prune_appended_entries_are_joined_pairs() {
    let mut e = null_encoding("abcd");
    assert_eq!(seq2graph::prune_pass(&mut e), 2);
    assert_eq!(e.tokens, strs(&["a", "b", "c", "d", "ab", "cd"]));
    assert_eq!(e.encoding, vec![4, 5]);
}
