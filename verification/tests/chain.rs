use markov_text::chain::Chain;
use markov_text::chain::Edge;
use markov_text::chain::MAX_COUNT;
use markov_text::error::Error;

fn rows(chain: &Chain) -> Vec<(&str, &str, i32)> {
    chain.edges().iter().map(|e| (e.from.as_str(), e.to.as_str(), e.count)).collect()
}

fn edge(from: &str, to: &str, count: i32) -> Edge {
    Edge { from: from.to_string(), to: to.to_string(), count }
}

#[test]
fn a_new_chain_is_empty() {
    let chain = Chain::new();
    assert!(chain.edges().is_empty());
    assert_eq!(chain.text_count(), 0);
    assert!(chain.edges_from("").is_empty());
}

#[test]
fn the_same_single_token_counts_up_one_start_edge() {
    let mut chain = Chain::new();
    for n in 1..=25 {
        assert_eq!(chain.process_input("hello".to_string()), Ok(()));
        assert_eq!(rows(&chain), vec![("", "hello", n)]);
    }
    assert_eq!(chain.text_count(), 25);
}

#[test]
fn a_padded_single_token_counts_for_the_same_edge() {
    let mut chain = Chain::new();
    chain.process_input(" hello".to_string()).unwrap();
    chain.process_input("hello\n".to_string()).unwrap();
    chain.process_input("hello".to_string()).unwrap();
    assert_eq!(rows(&chain), vec![("", "hello", 3)]);
}

#[test]
fn three_tokens_leave_exactly_two_edges() {
    let mut chain = Chain::new();
    chain.process_input("a b c".to_string()).unwrap();
    assert_eq!(rows(&chain), vec![("", "a", 1), ("a", "b", 1)]);
    assert!(chain.edges_from("b").is_empty());
    assert!(chain.edges_from("c").is_empty());
}

#[test]
fn every_occurrence_is_counted_in_any_order() {
    let texts = ["the cat sat", "the cat ran", "the dog sat", "a cat sat", "the cat"];
    let mut forward = Chain::new();
    for text in texts {
        forward.process_input(text.to_string()).unwrap();
    }
    let mut backward = Chain::new();
    for text in texts.iter().rev() {
        backward.process_input(text.to_string()).unwrap();
    }
    for chain in [&forward, &backward] {
        let mut found = rows(chain);
        found.sort();
        assert_eq!(
            found,
            vec![
                ("", "a", 1),
                ("", "the", 4),
                ("a", "cat", 1),
                ("the", "cat", 2),
                ("the", "dog", 1),
            ]
        );
    }
}

#[test]
fn interleaved_entries_add_up() {
    let first = [("", "the"), ("the", "cat"), ("the", "cat")];
    let second = [("the", "cat"), ("", "the"), ("the", "cat")];
    let mut chain = Chain::new();
    for i in 0..3 {
        chain.increment_or_create_entry(second[i].0, second[i].1).unwrap();
        chain.increment_or_create_entry(first[i].0, first[i].1).unwrap();
    }
    assert_eq!(rows(&chain), vec![("the", "cat", 4), ("", "the", 2)]);
}

#[test]
fn an_entry_is_trimmed_and_an_empty_one_ignored() {
    let mut chain = Chain::new();
    assert_eq!(chain.increment_or_create_entry(" the ", "\tcat"), Ok(()));
    assert_eq!(chain.increment_or_create_entry("the", "cat"), Ok(()));
    assert_eq!(chain.increment_or_create_entry("the", "   "), Ok(()));
    assert_eq!(chain.increment_or_create_entry("the", ""), Ok(()));
    assert_eq!(rows(&chain), vec![("the", "cat", 2)]);
}

#[test]
fn empty_tokens_of_a_text_are_filtered() {
    let mut chain = Chain::new();
    chain.process_input("a  b c".to_string()).unwrap();
    assert_eq!(rows(&chain), vec![("", "a", 1), ("", "b", 1)]);
}

#[test]
fn an_empty_text_changes_nothing() {
    let mut chain = Chain::new();
    assert_eq!(chain.process_input("   ".to_string()), Ok(()));
    assert_eq!(chain.process_input(String::new()), Ok(()));
    assert_eq!(chain.text_count(), 0);
    assert!(chain.edges().is_empty());
}

#[test]
fn texts_are_recorded_trimmed() {
    let mut chain = Chain::new();
    chain.process_input("  the cat sat ".to_string()).unwrap();
    chain.process_input("é".to_string()).unwrap();
    chain.record_text("as it is ");
    assert_eq!(chain.text_count(), 3);
    assert_eq!(chain.text_lengths(), vec![11, 1, 9]);
}

#[test]
fn edges_from_lists_the_candidates_in_order() {
    let mut chain = Chain::new();
    for text in ["the cat x", "the dog x", "the cat x", "a cat x"] {
        chain.process_input(text.to_string()).unwrap();
    }
    assert_eq!(chain.edges_from("the"), vec![("cat".to_string(), 2), ("dog".to_string(), 1)]);
    assert_eq!(chain.edges_from(""), vec![("the".to_string(), 3), ("a".to_string(), 1)]);
    assert!(chain.edges_from("cat").is_empty());
    assert!(chain.edges_from(" the").is_empty());
}

#[test]
fn well_formed_edges_make_a_chain() {
    let chain = Chain::from_edges(vec![edge("", "the", 2), edge("the", "cat", 1)]).unwrap();
    assert_eq!(rows(&chain), vec![("", "the", 2), ("the", "cat", 1)]);
    assert_eq!(chain.text_count(), 0);
    assert!(Chain::from_edges(vec![]).is_some());
}

#[test]
fn ill_formed_edges_make_no_chain() {
    assert!(Chain::from_edges(vec![edge("a", "b", 1), edge("a", "b", 2)]).is_none());
    assert!(Chain::from_edges(vec![edge("a", "b", 0)]).is_none());
    assert!(Chain::from_edges(vec![edge("a", "b", -3)]).is_none());
    assert!(Chain::from_edges(vec![edge("a", "", 1)]).is_none());
    assert!(Chain::from_edges(vec![edge("a", " b", 1)]).is_none());
    assert!(Chain::from_edges(vec![edge("a ", "b", 1)]).is_none());
    let twice = vec![edge("a", "c", 1), edge("a", "b", 1), edge("a", "c", 1)];
    assert!(Chain::from_edges(twice).is_none());
}

#[test]
fn a_full_count_is_refused_and_kept() {
    let edges = vec![edge("", "the", MAX_COUNT), edge("the", "cat", 5)];
    let mut chain = Chain::from_edges(edges).unwrap();
    assert_eq!(chain.increment_or_create_entry("", "the"), Err(Error::Storage));
    assert_eq!(chain.increment_or_create_entry("the", "cat"), Ok(()));
    assert_eq!(rows(&chain), vec![("", "the", MAX_COUNT), ("the", "cat", 6)]);
}

#[test]
fn a_refusal_does_not_stop_the_other_entries() {
    let mut chain = Chain::from_edges(vec![edge("", "the", MAX_COUNT)]).unwrap();
    assert_eq!(chain.process_input("the cat sat".to_string()), Err(Error::Storage));
    assert_eq!(rows(&chain), vec![("", "the", MAX_COUNT), ("the", "cat", 1)]);
    assert_eq!(chain.text_count(), 1);
}

#[test]
fn a_walk_from_a_dead_end_returns_the_seed() {
    let mut chain = Chain::new();
    chain.process_input("the cat sat".to_string()).unwrap();
    assert_eq!(chain.generate_text(100, Some("sat".to_string())), Ok("sat".to_string()));
    assert_eq!(chain.generate_text(100, Some(" the cat ".to_string())), Ok("the cat".to_string()));
    assert_eq!(chain.generate_text(100, Some("unknown".to_string())), Ok("unknown".to_string()));
    assert_eq!(Chain::new().generate_text(100, None), Ok(String::new()));
}

#[test]
fn one_token_follows_the_seed_after_the_cat_sat() {
    let mut chain = Chain::new();
    assert_eq!(chain.process_input("the cat sat".to_string()), Ok(()));
    for _ in 0..20 {
        assert_eq!(chain.generate_text(1, Some("the".to_string())), Ok("the cat".to_string()));
    }
}

#[test]
fn the_only_edge_is_followed() {
    let mut chain = Chain::new();
    chain.process_input("the cat sat".to_string()).unwrap();
    for _ in 0..20 {
        assert_eq!(chain.generate_text(3, Some("the".to_string())), Ok("the cat".to_string()));
        assert_eq!(chain.generate_text(100, Some("the".to_string())), Ok("the cat".to_string()));
        assert_eq!(chain.generate_text(100, None), Ok("the cat".to_string()));
        assert_eq!(chain.generate_text(4, None), Ok("the cat".to_string()));
        assert_eq!(chain.generate_text(3, None), Ok("the".to_string()));
        assert_eq!(chain.generate_text(1, None), Ok("the".to_string()));
    }
}

#[test]
fn a_seed_does_not_end_the_walk() {
    let mut chain = Chain::new();
    chain.process_input("the cat sat".to_string()).unwrap();
    chain.process_input("a seed longer than its length ends x".to_string()).unwrap();
    assert_eq!(
        chain.generate_text(1, Some("a seed longer than its length".to_string())),
        Ok("a seed longer than its length ends".to_string())
    );
    assert_eq!(chain.generate_text(3, Some(" the ".to_string())), Ok("the cat".to_string()));
}

#[test]
fn a_length_of_zero_returns_the_seed_alone() {
    let mut chain = Chain::new();
    chain.process_input("the cat sat".to_string()).unwrap();
    assert_eq!(chain.generate_text(0, Some("the".to_string())), Ok("the".to_string()));
    assert_eq!(chain.generate_text(0, None), Ok(String::new()));
}

#[test]
fn a_walk_reaches_the_length_or_a_dead_end() {
    let mut chain = Chain::new();
    for text in ["a b a b a b a x", "a c a c a x", "b a b x"] {
        chain.process_input(text.to_string()).unwrap();
    }
    for target in [0usize, 1, 5, 12, 40] {
        for _ in 0..50 {
            let text = chain.generate_text(target, None).unwrap();
            let tokens: Vec<&str> = text.split(' ').collect();
            let last = *tokens.last().unwrap();
            assert!(text.len() >= target || chain.edges_from(last).is_empty());
            let mut from = "";
            for token in &tokens {
                if !token.is_empty() {
                    assert!(chain.edges_from(from).iter().any(|(to, _)| to == token));
                }
                from = token;
            }
            let without_last = &text[..text.len() - last.len()];
            assert!(without_last.trim_end().len() < target || text.is_empty());
        }
    }
}

#[test]
fn the_entries_of_one_text_add_up_in_any_order() {
    let ingest = markov_text::input::process_input("a b a b a b x".to_string()).unwrap();
    let mut forward = Chain::new();
    for (from, to) in ingest.entries.iter() {
        forward.increment_or_create_entry(from, to).unwrap();
    }
    let mut backward = Chain::new();
    for (from, to) in ingest.entries.iter().rev() {
        backward.increment_or_create_entry(from, to).unwrap();
    }
    for chain in [&forward, &backward] {
        let mut found = rows(chain);
        found.sort();
        assert_eq!(found, vec![("", "a", 1), ("a", "b", 3), ("b", "a", 2)]);
    }
}
