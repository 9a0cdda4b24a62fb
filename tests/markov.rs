use markov_text::generate::{generate_text, generate_words, get_text_starter, is_capital, is_preferred, start_candidates};
use markov_text::{build_chain, generate_markov_chain, join_range, tokenize, MarkovError, Model};
use rand::rngs::StdRng;
use rand::SeedableRng;

fn words(v: &[&str]) -> Vec<String> {
    v.iter().map(|s| s.to_string()).collect()
}

fn sorted(v: &Vec<String>) -> Vec<String> {
    let mut v = v.clone();
    v.sort();
    v
}

const CORPUS: &str = "The cat sat. The dog ran. A cat ran.";

#[test]
fn tokenize_splits_on_any_whitespace() {
    assert_eq!(tokenize("  a\tb\n c  "), words(&["a", "b", "c"]));
    assert_eq!(tokenize(""), Vec::<String>::new());
    assert_eq!(tokenize(" \n\t "), Vec::<String>::new());
    assert_eq!(tokenize("x\u{3000}y\r\nz"), words(&["x", "y", "z"]));
    assert_eq!(tokenize("Well, done."), words(&["Well,", "done."]));
}

#[test]
fn join_range_uses_single_spaces() {
    let t = words(&["a", "b", "c", "d"]);
    assert_eq!(join_range(&t, 1, 3), "b c");
    assert_eq!(join_range(&t, 2, 2), "");
    assert_eq!(join_range(&t, 0, 4), "a b c d");
}

#[test]
fn corpus_scenario_state_size_one() {
    let m = generate_markov_chain(CORPUS, 1).unwrap();
    let the = m.get(&"The".to_string()).unwrap();
    assert_eq!(sorted(the), words(&["cat", "dog"]));
    let cat = m.get(&"cat".to_string()).unwrap();
    assert_eq!(sorted(cat), words(&["ran.", "sat."]));
    assert_eq!(m.len(), 6);
    assert!(m.get(&"ran.".to_string()).is_some());
    assert!(m.get(&"A cat".to_string()).is_none());
}

#[test]
fn duplicates_are_kept() {
    let m = generate_markov_chain("a b a b a b", 1).unwrap();
    assert_eq!(m.get(&"a".to_string()).unwrap(), &words(&["b", "b", "b"]));
    assert_eq!(m.get(&"b".to_string()).unwrap(), &words(&["a", "a"]));
}

#[test]
fn states_have_state_size_words_and_successors() {
    let m = generate_markov_chain(CORPUS, 2).unwrap();
    assert_eq!(m.len(), 7);
    for k in m.keys() {
        assert_eq!(tokenize(&k).len(), 2);
        assert!(!m.get(&k).unwrap().is_empty());
    }
    assert_eq!(m.get(&"The cat".to_string()).unwrap(), &words(&["sat."]));
}

#[test]
fn zero_state_size_is_invalid() {
    assert_eq!(build_chain(&words(&["a", "b", "c"]), 0).err(), Some(MarkovError::InvalidConfiguration));
    assert_eq!(build_chain(&Vec::new(), 0).err(), Some(MarkovError::InvalidConfiguration));
    assert_eq!(generate_markov_chain(CORPUS, 0).err(), Some(MarkovError::InvalidConfiguration));
}

#[test]
fn short_corpus_is_insufficient() {
    assert_eq!(build_chain(&words(&["a", "b"]), 2).err(), Some(MarkovError::InsufficientData));
    assert_eq!(build_chain(&Vec::new(), 1).err(), Some(MarkovError::InsufficientData));
    assert_eq!(generate_markov_chain("   \n ", 1).err(), Some(MarkovError::InsufficientData));
    assert_eq!(generate_markov_chain("one two three", 3).err(), Some(MarkovError::InsufficientData));
    assert!(generate_markov_chain("one two three", 2).is_ok());
}

#[test]
fn serialize_writes_a_json_object() {
    let mut m = Model::new();
    m.insert("A B".to_string(), words(&["c"]));
    assert_eq!(m.serialize(), "{\"A B\":[\"c\"]}");
}

#[test]
fn round_trip_keeps_states_and_successors() {
    let m = generate_markov_chain("Hi \"there\" said\tthe \\ cat. Hi again said the dog", 2).unwrap();
    let text = m.serialize();
    let back = Model::deserialize(&text).unwrap();
    assert_eq!(back.len(), m.len());
    for k in m.keys() {
        assert_eq!(back.get(&k), m.get(&k));
    }
    let empty = Model::deserialize(&Model::new().serialize()).unwrap();
    assert!(empty.is_empty());
}

#[test]
fn malformed_model_text_is_rejected() {
    assert_eq!(Model::deserialize("not json").err(), Some(MarkovError::DeserializationError));
    assert_eq!(Model::deserialize("{\"a\": 3}").err(), Some(MarkovError::DeserializationError));
    assert_eq!(Model::deserialize("[\"a\"]").err(), Some(MarkovError::DeserializationError));
}

#[test]
fn empty_successor_list_is_accepted_and_ends_generation() {
    let m = Model::deserialize("{\"A B\": [\"c\"], \"B c\": []}").unwrap();
    assert_eq!(m.len(), 2);
    assert_eq!(m.get(&"B c".to_string()).unwrap().len(), 0);
    let mut rng = StdRng::seed_from_u64(1);
    assert_eq!(generate_text(&m, 2, 10, &mut rng).unwrap(), "B c");
}

#[test]
fn empty_model_cannot_generate() {
    let m = Model::new();
    let mut rng = StdRng::seed_from_u64(3);
    assert_eq!(generate_text(&m, 1, 10, &mut rng).err(), Some(MarkovError::EmptyModel));
    assert_eq!(get_text_starter(&m, 1, &mut rng).err(), Some(MarkovError::EmptyModel));
}

#[test]
fn zero_max_words_is_invalid() {
    let m = generate_markov_chain(CORPUS, 1).unwrap();
    let mut rng = StdRng::seed_from_u64(3);
    assert_eq!(generate_text(&m, 1, 0, &mut rng).err(), Some(MarkovError::InvalidConfiguration));
    assert_eq!(generate_words(&m, 0, 5, &mut rng).err(), Some(MarkovError::InvalidConfiguration));
    assert_eq!(generate_words(&Model::new(), 1, 0, &mut rng).err(), Some(MarkovError::InvalidConfiguration));
}

#[test]
fn generated_length_is_within_bounds() {
    let m = generate_markov_chain(CORPUS, 2).unwrap();
    for seed in 0..20u64 {
        let mut rng = StdRng::seed_from_u64(seed);
        for max in 2..9usize {
            let w = generate_words(&m, 2, max, &mut rng).unwrap();
            assert!(w.len() >= 2 && w.len() <= max);
            for i in 2..w.len() {
                let key = join_range(&w, i - 2, i);
                assert!(m.get(&key).unwrap().contains(&w[i]));
            }
        }
    }
}

#[test]
fn generation_runs_to_max_words_on_a_cycle() {
    let m = generate_markov_chain("Go on go on go on", 1).unwrap();
    let mut rng = StdRng::seed_from_u64(9);
    let w = generate_words(&m, 1, 6, &mut rng).unwrap();
    assert_eq!(w, words(&["Go", "on", "go", "on", "go", "on"]));
    assert_eq!(generate_text(&m, 1, 4, &mut rng).unwrap(), "Go on go on");
}

#[test]
fn seeded_generation_is_reproducible() {
    let m = generate_markov_chain(CORPUS, 1).unwrap();
    let mut a = StdRng::seed_from_u64(42);
    let mut b = StdRng::seed_from_u64(42);
    for _ in 0..10 {
        assert_eq!(generate_text(&m, 1, 12, &mut a).unwrap(), generate_text(&m, 1, 12, &mut b).unwrap());
    }
}

#[test]
fn capital_detection() {
    assert!(is_capital("Hello"));
    assert!(is_capital("Élan"));
    assert!(!is_capital("hello"));
    assert!(!is_capital("1st"));
    assert!(!is_capital("\"Quote"));
    assert!(!is_capital(""));
}

#[test]
fn preferred_states() {
    assert!(is_preferred(&"The cat".to_string(), 2));
    assert!(!is_preferred(&"The Cat".to_string(), 2));
    assert!(!is_preferred(&"the cat".to_string(), 2));
    assert!(!is_preferred(&"The".to_string(), 2));
    assert!(is_preferred(&"The".to_string(), 0) == false);
    assert!(is_preferred(&"Well, 3".to_string(), 2));
}

#[test]
fn start_candidates_follow_the_fallbacks() {
    let mut m = Model::new();
    m.insert("The cat".to_string(), words(&["x"]));
    m.insert("The Cat".to_string(), words(&["x"]));
    m.insert("a dog".to_string(), words(&["x"]));
    assert_eq!(start_candidates(&m, 2), words(&["The cat"]));

    let mut m = Model::new();
    m.insert("The Cat".to_string(), words(&["x"]));
    m.insert("a dog".to_string(), words(&["x"]));
    assert_eq!(start_candidates(&m, 2), words(&["The Cat"]));

    let mut m = Model::new();
    m.insert("a dog".to_string(), words(&["x"]));
    m.insert("b cat".to_string(), words(&["x"]));
    assert_eq!(sorted(&start_candidates(&m, 2)), words(&["a dog", "b cat"]));
    let mut rng = StdRng::seed_from_u64(5);
    let s = get_text_starter(&m, 2, &mut rng).unwrap();
    assert!(s == "a dog" || s == "b cat");
}

#[test]
fn insert_and_push_successor() {
    let mut m = Model::new();
    m.push_successor("a".to_string(), "b".to_string());
    m.push_successor("a".to_string(), "c".to_string());
    m.push_successor("d".to_string(), "e".to_string());
    assert_eq!(m.len(), 2);
    assert_eq!(m.get(&"a".to_string()).unwrap(), &words(&["b", "c"]));
    m.insert("a".to_string(), words(&["z"]));
    assert_eq!(m.get(&"a".to_string()).unwrap(), &words(&["z"]));
    assert_eq!(m.len(), 2);
}

#[test]
fn error_messages() {
    assert!(MarkovError::EmptyModel.message().contains("empty"));
    assert!(MarkovError::InsufficientData.message().contains("insufficient"));
    assert_ne!(MarkovError::IoError.message(), MarkovError::DeserializationError.message());
}
