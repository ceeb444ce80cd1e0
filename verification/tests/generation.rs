use ezmempass::codec::DeltaEncoder;
use ezmempass::dict::Dictionary;
use ezmempass::error::GraphError;
use ezmempass::generate::{
    generate_passphrase, generate_with_prefix_ids, GeneratePassphraseInput,
};
use ezmempass::graph::EphemeralPassphraseGraph;
use ezmempass::search::{cheapest_path, shortest_path_multiple};

fn encode_successors(values: &[u32]) -> Vec<u8> {
    let input: Vec<u32> = values.to_vec();
    DeltaEncoder::new(&input).encode().unwrap()
}

fn triple_dict() -> Dictionary {
    // words aaa, aab, aac at ranks 1, 2, 3; aaa's bigram successor is aab
    let word_list: Vec<String> = ["aaa", "aab", "aac"].iter().map(|w| w.to_string()).collect();
    let successor_lists: Vec<Vec<u8>> = vec![encode_successors(&[2]), Vec::new(), Vec::new()];
    Dictionary::from_parts(word_list, successor_lists).unwrap()
}

#[test]
fn test_digit_present_if_asking_for_digit() {
    // === given ==
    let d = Dictionary::from_parts(
        ["apple", "banana", "cherry", "damson", "elder", "figgy", "grape"]
            .iter()
            .map(|w| w.to_string())
            .collect(),
        vec![Vec::new(); 7],
    )
    .unwrap();
    let input = GeneratePassphraseInput {
        passphrase_length: 7,
        add_digit: true,
        add_capital_letter: false,
        add_symbol: false,
    };

    // == when ==
    let result = generate_passphrase(&d, &input).unwrap();

    // == then ==
    assert!(result.password.chars().any(char::is_numeric));
}

#[test]
fn test_digit_not_present_if_not_asking_for_digit() {
    // === given ==
    let d = Dictionary::from_parts(
        ["apple", "banana", "cherry", "damson", "elder", "figgy", "grape"]
            .iter()
            .map(|w| w.to_string())
            .collect(),
        vec![Vec::new(); 7],
    )
    .unwrap();
    let input = GeneratePassphraseInput {
        passphrase_length: 7,
        add_digit: false,
        add_capital_letter: false,
        add_symbol: false,
    };

    // == when ==
    let result = generate_passphrase(&d, &input).unwrap();

    // == then ==
    assert!(!result.password.chars().any(char::is_numeric));
}

#[test]
fn symbol_present_if_asking_for_symbol() {
    let d = triple_dict();
    let input = GeneratePassphraseInput {
        passphrase_length: 2,
        add_digit: false,
        add_capital_letter: false,
        add_symbol: true,
    };
    let result = generate_passphrase(&d, &input).unwrap();
    let symbols = ['@', '#', '$', '&', '%', '!'];
    assert!(result.password.chars().any(|c| symbols.contains(&c)));
}

#[test]
fn symbol_not_present_if_not_asking_for_symbol() {
    let d = triple_dict();
    let input = GeneratePassphraseInput {
        passphrase_length: 2,
        add_digit: false,
        add_capital_letter: false,
        add_symbol: false,
    };
    let result = generate_passphrase(&d, &input).unwrap();
    let symbols = ['@', '#', '$', '&', '%', '!'];
    assert!(!result.password.chars().any(|c| symbols.contains(&c)));
}

#[test]
fn generated_words_carry_their_prefixes() {
    let d = triple_dict();
    let input = GeneratePassphraseInput {
        passphrase_length: 4,
        add_digit: true,
        add_capital_letter: true,
        add_symbol: true,
    };
    let result = generate_passphrase(&d, &input).unwrap();
    assert_eq!(result.prefixes.len(), 4);
    assert_eq!(result.words.len(), 4);
    for (prefix, word) in result.prefixes.iter().zip(result.words.iter()) {
        assert_eq!(&word[0..3], prefix.as_str());
    }
    assert!(result.cost >= 0);
}

#[test]
fn generation_fails_without_prefixes() {
    // words shorter than three characters leave the dictionary without
    // any prefix bucket, which counts as "no path"
    let d = Dictionary::from_parts(vec!["ab".to_string()], vec![Vec::new()]).unwrap();
    let input = GeneratePassphraseInput {
        passphrase_length: 2,
        add_digit: false,
        add_capital_letter: false,
        add_symbol: false,
    };
    let r = generate_passphrase(&d, &input);
    assert!(matches!(r, Err(GraphError::SearchError(_))));
}

#[test]
fn bigram_edges_are_preferred_over_fallback_edges() {
    // aaa -> aab is a real bigram; with prefixes fixed to [aaa, aab] the
    // only path uses it, and its cost is the rank sum 1 + 2
    let d = triple_dict();
    let prefix_ids: Vec<usize> = vec![0, 1];
    let result = generate_with_prefix_ids(&d, &prefix_ids, false, false, false).unwrap();
    assert_eq!(result.words, vec!["aaa".to_string(), "aab".to_string()]);
    assert_eq!(result.prefixes, vec!["aaa".to_string(), "aab".to_string()]);
    assert_eq!(result.cost, 3);
    assert_eq!(result.password, "aaaaab");
    assert_eq!(result.passphrase, "aaa aab");
}

#[test]
fn fallback_edges_pay_the_penalty() {
    // aaa has no bigram successor with prefix aac, so the fallback edge
    // must carry the rank sum plus the penalty
    let d = triple_dict();
    let prefix_ids: Vec<usize> = vec![0, 2];
    let result = generate_with_prefix_ids(&d, &prefix_ids, false, false, false).unwrap();
    assert_eq!(result.words, vec!["aaa".to_string(), "aac".to_string()]);
    assert_eq!(result.cost, 1 + 3 + 1_000_000);
}

#[test]
fn single_edge_graph_returns_its_only_path() {
    // level 0 holds word 1, level 1 holds word 2, one edge of cost 5
    let mut g = EphemeralPassphraseGraph::new();
    let a = g.add_node(0, 1);
    let b = g.add_node(1, 2);
    g.add_edge(a, b, 5);
    let (path, cost) = cheapest_path(&g, a, b).unwrap();
    assert_eq!(path, vec![a, b]);
    assert_eq!(cost, 5);
    // the search over source/sink sets finds the same path
    let sources = vec![a];
    let sinks = vec![b];
    let (path2, cost2) = shortest_path_multiple(&g, &sources, &sinks).unwrap();
    assert_eq!(path2, vec![a, b]);
    assert_eq!(cost2, 5);
    // and the words along it come from the dictionary
    let d = triple_dict();
    let words: Vec<String> = path2.iter().map(|n| d.word_at(g.word_of(*n)).clone()).collect();
    assert_eq!(words, vec!["aaa".to_string(), "aab".to_string()]);
}

#[test]
fn edgeless_graph_has_no_path() {
    // two levels with no edge between them: every trial fails and the
    // search reports no path
    let mut g = EphemeralPassphraseGraph::new();
    let a = g.add_node(0, 1);
    let b = g.add_node(1, 2);
    assert!(cheapest_path(&g, a, b).is_none());
    let sources = vec![a];
    let sinks = vec![b];
    assert!(shortest_path_multiple(&g, &sources, &sinks).is_none());
}

#[test]
fn single_position_passphrase_still_formats() {
    // with one position the source set equals the sink set and the
    // passphrase is a single word, still receiving its formatting
    let d = triple_dict();
    let input = GeneratePassphraseInput {
        passphrase_length: 1,
        add_digit: true,
        add_capital_letter: true,
        add_symbol: true,
    };
    let result = generate_passphrase(&d, &input).unwrap();
    assert_eq!(result.words.len(), 1);
    assert_eq!(result.prefixes.len(), 1);
    assert!(result.password.chars().any(char::is_numeric));
    let symbols = ['@', '#', '$', '&', '%', '!'];
    assert!(result.password.chars().any(|c| symbols.contains(&c)));
    assert!(result.password.chars().any(|c| c.is_ascii_uppercase()));
}

#[test]
fn capital_letter_upper_cases_the_word() {
    let d = Dictionary::from_parts(vec!["abc".to_string()], vec![Vec::new()]).unwrap();
    let input = GeneratePassphraseInput {
        passphrase_length: 1,
        add_digit: false,
        add_capital_letter: true,
        add_symbol: false,
    };
    let result = generate_passphrase(&d, &input).unwrap();
    assert_eq!(result.password, "ABC");
    assert_eq!(result.passphrase, "ABC");
}

#[test]
fn graph_edges_climb_one_level_at_a_time() {
    // nodes of a built graph only ever point at the next level
    let mut g = EphemeralPassphraseGraph::new();
    let a = g.add_node(0, 1);
    let b = g.add_node(1, 2);
    let c = g.add_node(2, 3);
    g.add_edge(a, b, 1);
    g.add_edge(b, c, 1);
    assert!(g.has_edge(a, b));
    assert!(g.has_edge(b, c));
    assert!(!g.has_edge(a, c));
    let (path, cost) = cheapest_path(&g, a, c).unwrap();
    assert_eq!(path, vec![a, b, c]);
    assert_eq!(cost, 2);
    for (i, n) in path.iter().enumerate() {
        assert_eq!(g.level_of(*n) as usize, i);
    }
}
