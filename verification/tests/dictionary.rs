use ezmempass::codec::DeltaEncoder;
use ezmempass::dict::Dictionary;
use ezmempass::error::GraphError;

fn dict_from_words(words: &[&str]) -> Dictionary {
    let word_list: Vec<String> = words.iter().map(|w| w.to_string()).collect();
    let successor_lists: Vec<Vec<u8>> = words.iter().map(|_| Vec::new()).collect();
    Dictionary::from_parts(word_list, successor_lists).unwrap()
}

fn encode_successors(values: &[u32]) -> Vec<u8> {
    let input: Vec<u32> = values.to_vec();
    DeltaEncoder::new(&input).encode().unwrap()
}

#[test]
fn word_lookups_invert_each_other() {
    let d = dict_from_words(&["apple", "apply", "banana", "cherry"]);
    assert_eq!(d.word_count(), 4);
    for i in 1..=4u32 {
        let w = d.word_at(i).clone();
        assert_eq!(d.index_of(&w), Some(i));
    }
    assert_eq!(d.index_of("missing"), None);
}

#[test]
fn words_with_prefix_returns_the_bucket_in_rank_order() {
    let d = dict_from_words(&["apple", "banana", "apply", "ap", "apricot"]);
    let app = d.words_with_prefix("app");
    assert_eq!(app, vec!["apple".to_string(), "apply".to_string()]);
    let ban = d.words_with_prefix("ban");
    assert_eq!(ban, vec!["banana".to_string()]);
    let apr = d.words_with_prefix("apr");
    assert_eq!(apr, vec!["apricot".to_string()]);
    // a word of fewer than three characters joins no bucket
    let apx = d.words_with_prefix("ap");
    assert_eq!(apx, Vec::<String>::new());
    let none = d.words_with_prefix("xyz");
    assert_eq!(none, Vec::<String>::new());
}

#[test]
fn prefix_buckets_hold_every_long_word_once() {
    let words = ["apple", "apply", "appal", "banana", "bandit"];
    let d = dict_from_words(&words);
    let mut seen = 0;
    for p in ["app", "ban"] {
        for w in d.words_with_prefix(p) {
            assert_eq!(&w[0..3], p);
            seen += 1;
        }
    }
    assert_eq!(seen, words.len());
}

#[test]
fn successors_decode_and_filter_by_prefix() {
    // "apple" saw "banana" and "bandit" and "cherry" as successors
    let word_list: Vec<String> = ["apple", "banana", "bandit", "cherry"]
        .iter()
        .map(|w| w.to_string())
        .collect();
    let successor_lists: Vec<Vec<u8>> = vec![
        encode_successors(&[2, 3, 4]),
        Vec::new(),
        Vec::new(),
        Vec::new(),
    ];
    let d = Dictionary::from_parts(word_list, successor_lists).unwrap();
    let ban = d.successors_of(1, "ban");
    assert_eq!(ban, vec!["banana".to_string(), "bandit".to_string()]);
    let che = d.successors_of(1, "che");
    assert_eq!(che, vec!["cherry".to_string()]);
    let nothing = d.successors_of(2, "ban");
    assert_eq!(nothing, Vec::<String>::new());
}

#[test]
fn from_parts_rejects_repeated_words() {
    let word_list: Vec<String> = vec!["apple".to_string(), "apple".to_string()];
    let successor_lists: Vec<Vec<u8>> = vec![Vec::new(), Vec::new()];
    let r = Dictionary::from_parts(word_list, successor_lists);
    assert!(matches!(r, Err(GraphError::LoadError(_))));
}

#[test]
fn from_parts_rejects_non_ascii_words() {
    let word_list: Vec<String> = vec!["caf\u{e9}".to_string()];
    let successor_lists: Vec<Vec<u8>> = vec![Vec::new()];
    let r = Dictionary::from_parts(word_list, successor_lists);
    assert!(matches!(r, Err(GraphError::LoadError(_))));
}

fn asset_from(count: &str, words: &[&str], successors: &[&[u8]]) -> Vec<u8> {
    let mut bytes: Vec<u8> = Vec::new();
    bytes.extend_from_slice(count.as_bytes());
    bytes.push(b'\n');
    for w in words {
        bytes.extend_from_slice(w.as_bytes());
        bytes.push(b'\n');
    }
    for s in successors {
        bytes.extend_from_slice(s);
        bytes.push(b'\n');
    }
    bytes
}

#[test]
fn load_parses_a_small_asset() {
    let succ1 = encode_successors(&[2]);
    let asset = asset_from("3", &["apple", "banana", "cherry"], &[&succ1, &[], &[]]);
    let d = Dictionary::load(&asset).unwrap();
    assert_eq!(d.word_count(), 3);
    assert_eq!(d.word_at(1).as_str(), "apple");
    assert_eq!(d.word_at(2).as_str(), "banana");
    assert_eq!(d.word_at(3).as_str(), "cherry");
    assert_eq!(d.index_of("banana"), Some(2));
    assert_eq!(d.successors_of(1, "ban"), vec!["banana".to_string()]);
}

#[test]
fn load_rejects_an_empty_asset() {
    let bytes: Vec<u8> = Vec::new();
    assert!(matches!(
        Dictionary::load(&bytes),
        Err(GraphError::LoadError(_))
    ));
}

#[test]
fn load_rejects_a_bad_count_line() {
    let asset = asset_from("abc", &["apple"], &[&[]]);
    assert!(matches!(
        Dictionary::load(&asset),
        Err(GraphError::LoadError(_))
    ));
}

#[test]
fn load_rejects_a_line_count_mismatch() {
    // the header promises two words but only one word line follows
    let asset = asset_from("2", &["apple"], &[&[]]);
    assert!(matches!(
        Dictionary::load(&asset),
        Err(GraphError::LoadError(_))
    ));
}

#[test]
fn load_rejects_repeated_words() {
    let asset = asset_from("2", &["apple", "apple"], &[&[], &[]]);
    assert!(matches!(
        Dictionary::load(&asset),
        Err(GraphError::LoadError(_))
    ));
}
