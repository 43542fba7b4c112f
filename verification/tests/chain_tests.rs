use markov::chain::MarkovAllNodes;
use markov::text::tokenize;
use markov::token::MarkovToken;

fn root() -> MarkovToken {
    MarkovToken::Root
}

fn end() -> MarkovToken {
    MarkovToken::End
}

fn word(w: &str) -> MarkovToken {
    MarkovToken::Value(String::from(w))
}

#[test]
fn token_predicates() {
    assert!(root().is_root());
    assert!(!root().is_end());
    assert!(end().is_end());
    assert!(!end().is_root());
    assert!(!word("a").is_root());
    assert!(!word("a").is_end());
}

#[test]
fn tokenize_keeps_alphanumeric_words() {
    let ws = tokenize("a! b c#1");
    assert_eq!(ws.len(), 1);
    assert_eq!(ws[0], "b");
}

#[test]
fn tokenize_empty_and_whitespace() {
    assert_eq!(tokenize("").len(), 0);
    assert_eq!(tokenize(" \t  ").len(), 0);
    let ws = tokenize("  hello   world ");
    assert_eq!(ws.len(), 2);
    assert_eq!(ws[0], "hello");
    assert_eq!(ws[1], "world");
}

#[test]
fn sentinel_placement() {
    let mut chain = MarkovAllNodes::new();
    assert!(chain.ingest("a b"));
    assert_eq!(chain.transition_weight(&root(), &word("a")), 1);
    assert_eq!(chain.transition_weight(&word("a"), &word("b")), 1);
    assert_eq!(chain.transition_weight(&word("b"), &end()), 1);
    assert_eq!(chain.transition_weight(&root(), &word("b")), 0);
    assert_eq!(chain.transition_weight(&word("a"), &end()), 0);
}

#[test]
fn repetition_accumulates_weight() {
    let mut chain = MarkovAllNodes::new();
    assert!(chain.ingest("a b"));
    assert!(chain.ingest("a b"));
    assert_eq!(chain.transition_weight(&root(), &word("a")), 2);
    assert_eq!(chain.transition_weight(&word("a"), &word("b")), 2);
    assert_eq!(chain.transition_weight(&word("b"), &end()), 2);
}

#[test]
fn empty_line_elision() {
    let mut chain = MarkovAllNodes::new();
    assert!(chain.ingest(""));
    assert!(chain.ingest("  !! ?? "));
    assert_eq!(chain.transition_weight(&root(), &end()), 0);
    assert!(chain.try_node("").is_none());
}

#[test]
fn token_filtering_in_ingest() {
    let mut chain = MarkovAllNodes::new();
    assert!(chain.ingest("a! b c#1"));
    assert_eq!(chain.transition_weight(&root(), &word("b")), 1);
    assert_eq!(chain.transition_weight(&word("b"), &end()), 1);
    assert!(chain.try_node("a!").is_none());
    assert!(chain.try_node("c#1").is_none());
    assert!(chain.try_node("b").is_some());
}

#[test]
fn structure_is_order_independent() {
    let lines = ["the cat sat", "the dog ran", "a cat ran", "the cat ran"];
    let mut fwd = MarkovAllNodes::new();
    for l in lines.iter() {
        assert!(fwd.ingest(l));
    }
    let mut rev = MarkovAllNodes::new();
    for l in lines.iter().rev() {
        assert!(rev.ingest(l));
    }
    let vocab = ["the", "cat", "sat", "dog", "ran", "a"];
    let mut toks: Vec<MarkovToken> = vec![root(), end()];
    for w in vocab.iter() {
        toks.push(word(w));
    }
    for s in toks.iter() {
        for t in toks.iter() {
            assert_eq!(fwd.transition_weight(s, t), rev.transition_weight(s, t));
        }
    }
}

#[test]
fn interning_is_stable() {
    let mut chain = MarkovAllNodes::new();
    let a1 = chain.node("alpha");
    let a2 = chain.node("alpha");
    let b = chain.node("beta");
    assert_eq!(a1, a2);
    assert_ne!(a1, b);
    assert_eq!(chain.try_node("alpha"), Some(a1));
    assert_eq!(chain.try_node("beta"), Some(b));
    assert_eq!(chain.try_node("gamma"), None);
}

#[test]
fn generation_follows_forced_path() {
    let mut chain = MarkovAllNodes::new();
    assert!(chain.ingest("a b"));
    chain.cache_index_maps();
    let mut rng = rand::rng();
    let out = chain.generate(None, &mut rng, 1000);
    assert_eq!(out, Some(String::from("a b ")));
}

#[test]
fn generation_from_seed() {
    let mut chain = MarkovAllNodes::new();
    assert!(chain.ingest("a b"));
    chain.cache_index_maps();
    let mut rng = rand::rng();
    let out = chain.generate(Some("b"), &mut rng, 1000);
    assert_eq!(out, Some(String::from("b ")));
}

#[test]
fn unknown_seed_falls_back_to_start() {
    let mut chain = MarkovAllNodes::new();
    assert!(chain.ingest("a b"));
    chain.cache_index_maps();
    let mut rng = rand::rng();
    let seeded = chain.generate(Some("zzz"), &mut rng, 1000);
    let unseeded = chain.generate(None, &mut rng, 1000);
    assert_eq!(seeded, Some(String::from("a b ")));
    assert_eq!(seeded, unseeded);
}

#[test]
fn generation_on_empty_chain_yields_nothing() {
    let mut chain = MarkovAllNodes::new();
    chain.cache_index_maps();
    let mut rng = rand::rng();
    assert_eq!(chain.generate(None, &mut rng, 1000), None);
}

#[test]
fn generation_terminates_on_cyclic_corpus() {
    let mut chain = MarkovAllNodes::new();
    assert!(chain.ingest("a a a"));
    chain.cache_index_maps();
    let mut rng = rand::rng();
    for _ in 0..50 {
        let out = chain.generate(None, &mut rng, 100_000);
        let text = out.expect("the walk reaches the end sentinel");
        assert!(text.starts_with("a "));
        for piece in text.split_whitespace() {
            assert_eq!(piece, "a");
        }
    }
}
