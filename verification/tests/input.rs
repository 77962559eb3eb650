use markov_text::error::first_error;
use markov_text::error::Error;
use markov_text::input::increment_or_create_entry;
use markov_text::input::process_input;

fn pairs(entries: &[(String, String)]) -> Vec<(&str, &str)> {
    entries.iter().map(|(from, to)| (from.as_str(), to.as_str())).collect()
}

#[test]
fn three_tokens_teach_the_start_and_the_first_transition() {
    let ingest = process_input("a b c".to_string()).unwrap();
    assert_eq!(ingest.content, "a b c");
    assert_eq!(pairs(&ingest.entries), vec![("", "a"), ("a", "b")]);
}

#[test]
fn the_cat_sat_teaches_two_transitions() {
    let ingest = process_input("the cat sat".to_string()).unwrap();
    assert_eq!(pairs(&ingest.entries), vec![("", "the"), ("the", "cat")]);
}

#[test]
fn a_single_token_teaches_the_start_only() {
    let ingest = process_input("hello".to_string()).unwrap();
    assert_eq!(ingest.content, "hello");
    assert_eq!(pairs(&ingest.entries), vec![("", "hello")]);
}

#[test]
fn two_tokens_teach_the_start_only() {
    let ingest = process_input("a b".to_string()).unwrap();
    assert_eq!(pairs(&ingest.entries), vec![("", "a")]);
}

#[test]
fn four_tokens_leave_out_the_last() {
    let ingest = process_input("a b c d".to_string()).unwrap();
    assert_eq!(pairs(&ingest.entries), vec![("", "a"), ("a", "b"), ("b", "c")]);
}

#[test]
fn the_text_is_trimmed_before_it_is_split() {
    let ingest = process_input("  a b c \n".to_string()).unwrap();
    assert_eq!(ingest.content, "a b c");
    assert_eq!(pairs(&ingest.entries), vec![("", "a"), ("a", "b")]);
}

#[test]
fn an_empty_text_asks_nothing() {
    assert!(process_input(String::new()).is_none());
    assert!(process_input("  \t\n ".to_string()).is_none());
}

#[test]
fn consecutive_spaces_give_empty_tokens() {
    let ingest = process_input("a  b c".to_string()).unwrap();
    assert_eq!(pairs(&ingest.entries), vec![("", "a"), ("a", ""), ("", "b")]);
}

#[test]
fn a_key_has_both_tokens_trimmed() {
    assert_eq!(
        increment_or_create_entry(" the\t", "\tcat "),
        Some(("the".to_string(), "cat".to_string()))
    );
    assert_eq!(increment_or_create_entry("", "the"), Some((String::new(), "the".to_string())));
}

#[test]
fn a_pair_with_an_empty_second_token_has_no_key() {
    assert_eq!(increment_or_create_entry("the", ""), None);
    assert_eq!(increment_or_create_entry("the", " \t"), None);
    assert_eq!(increment_or_create_entry("", ""), None);
}

#[test]
fn first_error_of_no_failure_is_success() {
    assert_eq!(first_error::<Error>(vec![]), Ok(()));
    assert_eq!(first_error::<Error>(vec![Ok(()), Ok(())]), Ok(()));
}

#[test]
fn first_error_is_the_first_in_order() {
    assert_eq!(first_error(vec![Ok(()), Err(2), Ok(()), Err(4)]), Err(2));
    assert_eq!(first_error(vec![Err("x"), Err("y")]), Err("x"));
    assert_eq!(first_error(vec![Ok(()), Ok(()), Err(Error::Storage)]), Err(Error::Storage));
}

#[test]
fn errors_describe_themselves() {
    assert_eq!(Error::Sampling.message(), "Failed to get a random entry");
    assert_eq!(Error::Storage.message(), "Failed to update a chain entry");
}
