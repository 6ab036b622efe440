use impersonate::text::{split, starts_with, trim};
use impersonate::{
    ChainError, ChainParameters, LearningParameters, MarkovChainGenerator, State, Transition,
    Wording,
};

fn wording(words: &[&str]) -> Wording {
    Wording::new(words.iter().map(|w| w.to_string()).collect())
}

fn trained(line: &str, size: usize) -> MarkovChainGenerator {
    let mut generator = MarkovChainGenerator::new();
    let learn_param = LearningParameters::new(size).unwrap();
    generator.train(&learn_param, line);
    generator
}

fn count(generator: &MarkovChainGenerator, from: &[&str], to: &[&str]) -> usize {
    match generator.state_of(&wording(from)) {
        Some(state) => state.count_of(&wording(to)),
        None => 0,
    }
}

#[test]
fn test_simple() {
    let mut generator = MarkovChainGenerator::new();
    let learn_param = LearningParameters::new(3).unwrap();
    let chain_param = ChainParameters::new(None);

    generator.train(&learn_param, "foo bar zoo quux hello, world!");
    let result = generator.generate_chain(&chain_param);

    println!("result: {:?}", result);
}

#[test]
fn simple_line_gives_its_one_walk() {
    let generator = trained("foo bar zoo quux hello, world!", 3);
    let result = generator.generate_chain(&ChainParameters::new(None));
    assert_eq!(result, Ok("foo bar zoo quux hello, world!".to_string()));
}

#[test]
fn split_cuts_at_every_single_space() {
    assert_eq!(split("a b c", ' '), vec!["a", "b", "c"]);
    assert_eq!(split("a  b", ' '), vec!["a", "", "b"]);
    assert_eq!(split(" a ", ' '), vec!["", "a", ""]);
    assert_eq!(split("", ' '), vec![""]);
    assert_eq!(split("a\tb", ' '), vec!["a\tb"]);
}

#[test]
fn starts_with_tests_the_prefix() {
    assert!(starts_with("alice hi", "alice"));
    assert!(starts_with("alice", ""));
    assert!(!starts_with("ali", "alice"));
    assert!(!starts_with("Alice hi", "alice"));
}

#[test]
fn trim_drops_white_space_at_both_ends() {
    assert_eq!(trim("  hi there \t"), "hi there");
    assert_eq!(trim("hi"), "hi");
    assert_eq!(trim(" \n "), "");
    assert_eq!(trim(""), "");
    assert_eq!(trim("\u{2003}wide\u{2003}"), "wide");
}

#[test]
fn wording_is_written_with_single_spaces() {
    assert_eq!(wording(&["foo", "bar", "zoo"]).to_string(), "foo bar zoo");
    assert_eq!(wording(&["foo"]).to_string(), "foo");
    assert_eq!(wording(&[]).to_string(), "");
    assert_eq!(wording(&["foo", "bar"]).len(), 2);
}

#[test]
fn wordings_are_equal_by_content() {
    assert!(wording(&["a", "b"]).same(&wording(&["a", "b"])));
    assert!(!wording(&["a", "b"]).same(&wording(&["a"])));
    assert!(!wording(&["a", "b"]).same(&wording(&["a", "c"])));
    assert_eq!(wording(&["a", "b"]), wording(&["a", "b"]).duplicate());
}

#[test]
fn chunking_groups_words_and_leaves_a_shorter_tail() {
    let learn_param = LearningParameters::new(2).unwrap();
    let chunks = MarkovChainGenerator::chunk_line(&learn_param, "a b c d e");
    assert_eq!(chunks, vec![wording(&["a", "b"]), wording(&["c", "d"]), wording(&["e"])]);
}

#[test]
fn chunking_gives_the_ceiling_of_the_quotient() {
    for size in 1..6usize {
        let learn_param = LearningParameters::new(size).unwrap();
        let chunks = MarkovChainGenerator::chunk_line(&learn_param, "a b c d e f g");
        assert_eq!(chunks.len(), (7 + size - 1) / size);
        for chunk in &chunks[..chunks.len() - 1] {
            assert_eq!(chunk.len(), size);
        }
        let last = chunks[chunks.len() - 1].len();
        assert!(1 <= last && last <= size);
    }
}

#[test]
fn chunking_an_exact_multiple_has_no_short_tail() {
    let learn_param = LearningParameters::new(3).unwrap();
    let chunks = MarkovChainGenerator::chunk_line(&learn_param, "foo bar zoo quux hello, world!");
    assert_eq!(
        chunks,
        vec![wording(&["foo", "bar", "zoo"]), wording(&["quux", "hello,", "world!"])]
    );
}

#[test]
fn a_wording_size_of_zero_is_refused() {
    assert_eq!(LearningParameters::new(0), None);
    assert_eq!(LearningParameters::new(1).unwrap().wording_size(), 1);
    assert_eq!(ChainParameters::new(Some(4)).max_state_traversal(), Some(4));
    assert_eq!(ChainParameters::new(None).max_state_traversal(), None);
}

#[test]
fn training_counts_each_adjacent_pair() {
    let generator = trained("a b c a b c a b d", 1);
    assert_eq!(count(&generator, &["a"], &["b"]), 3);
    assert_eq!(count(&generator, &["b"], &["c"]), 2);
    assert_eq!(count(&generator, &["b"], &["d"]), 1);
    assert_eq!(count(&generator, &["c"], &["a"]), 2);
    assert_eq!(count(&generator, &["b"], &["a"]), 0);
    assert_eq!(generator.state_count(), 3);
    assert_eq!(generator.transition_count(), 8);
    assert!(generator.state_of(&wording(&["d"])).is_none());
    let after_b = generator.state_of(&wording(&["b"])).unwrap();
    assert_eq!(after_b.len(), 2);
    assert_eq!(after_b.successor_at(0), Some(&wording(&["c"])));
    assert_eq!(after_b.successor_at(1), Some(&wording(&["d"])));
    assert_eq!(after_b.successor_at(2), None);
    assert_eq!(after_b.position(&wording(&["d"])), Some(1));
}

#[test]
fn training_again_adds_one_and_no_second_entry() {
    let mut generator = trained("a b", 1);
    assert_eq!(count(&generator, &["a"], &["b"]), 1);
    let learn_param = LearningParameters::new(1).unwrap();
    generator.train(&learn_param, "a b");
    assert_eq!(count(&generator, &["a"], &["b"]), 2);
    assert_eq!(generator.state_count(), 1);
    assert_eq!(generator.state_of(&wording(&["a"])).unwrap().len(), 1);
    generator.record(wording(&["a"]), wording(&["b"]));
    assert_eq!(count(&generator, &["a"], &["b"]), 3);
    assert_eq!(generator.transition_count(), 3);
}

#[test]
fn keys_come_in_the_order_of_their_first_successor() {
    let generator = trained("x y z", 1);
    assert_eq!(generator.key_at(0), Some(&wording(&["x"])));
    assert_eq!(generator.key_at(1), Some(&wording(&["y"])));
    assert_eq!(generator.key_at(2), None);
}

#[test]
fn a_short_line_teaches_nothing() {
    let mut generator = MarkovChainGenerator::new();
    let learn_param = LearningParameters::new(2).unwrap();
    generator.train(&learn_param, "");
    generator.train(&learn_param, "alone");
    generator.train(&learn_param, "two words");
    assert_eq!(generator.state_count(), 0);
    assert_eq!(generator.transition_count(), 0);
    assert!(generator.state_of(&wording(&["two", "words"])).is_none());
}

#[test]
fn an_empty_chain_cannot_generate() {
    let generator = MarkovChainGenerator::new();
    assert_eq!(
        generator.generate_chain(&ChainParameters::new(None)),
        Err(ChainError::TooFewInitialStates(0))
    );
    assert_eq!(
        generator.generate_chain(&ChainParameters::new(Some(3))),
        Err(ChainError::TooFewInitialStates(0))
    );
    let short = trained("alone", 1);
    assert_eq!(
        short.generate_chain(&ChainParameters::new(Some(0))),
        Err(ChainError::TooFewInitialStates(0))
    );
}

#[test]
fn no_hops_gives_the_starting_wording_alone() {
    let generator = trained("a b c a b c a b d", 1);
    for _ in 0..50 {
        let output = generator.generate_chain(&ChainParameters::new(Some(0))).unwrap();
        assert!(output == "a" || output == "b" || output == "c");
    }
    let pairs = trained("one two three four", 2);
    assert_eq!(pairs.generate_chain(&ChainParameters::new(Some(0))), Ok("one two".to_string()));
}

#[test]
fn a_walk_follows_recorded_transitions_and_keeps_its_bound() {
    let generator = trained("a b c a b c a b d", 1);
    for _ in 0..100 {
        let output = generator.generate_chain(&ChainParameters::new(Some(5))).unwrap();
        let words: Vec<&str> = output.split(' ').collect();
        assert!(words.len() >= 1 && words.len() <= 6);
        assert!(generator.state_of(&wording(&[words[0]])).is_some());
        for pair in words.windows(2) {
            assert!(count(&generator, &[pair[0]], &[pair[1]]) >= 1);
            if pair[0] == "b" {
                assert!(pair[1] == "c" || pair[1] == "d");
            }
        }
        let last = words[words.len() - 1];
        assert!(words.len() == 6 || generator.state_of(&wording(&[last])).is_none());
    }
}

#[test]
fn a_walk_stops_at_a_dead_end_before_its_bound() {
    let generator = trained("a b", 1);
    assert_eq!(generator.generate_chain(&ChainParameters::new(Some(10))), Ok("a b".to_string()));
    assert_eq!(generator.generate_chain(&ChainParameters::new(None)), Ok("a b".to_string()));
}

#[test]
fn try_train_trains_where_the_count_has_room() {
    let mut generator = MarkovChainGenerator::new();
    let learn_param = LearningParameters::new(1).unwrap();
    assert!(generator.try_train(&learn_param, "a b c"));
    assert_eq!(generator.transition_count(), 2);
    let lines = vec!["c d".to_string(), "d".to_string(), "d e f".to_string()];
    assert_eq!(generator.train_all(&learn_param, &lines), 3);
    assert_eq!(generator.transition_count(), 5);
    assert_eq!(count(&generator, &["c"], &["d"]), 1);
    assert_eq!(count(&generator, &["e"], &["f"]), 1);
}

#[test]
fn train_wordings_learns_pairs_of_given_wordings() {
    let mut generator = MarkovChainGenerator::new();
    let chunks = vec![wording(&["a", "b"]), wording(&["c"]), wording(&["a", "b"])];
    generator.train_wordings(&chunks);
    assert_eq!(count(&generator, &["a", "b"], &["c"]), 1);
    assert_eq!(count(&generator, &["c"], &["a", "b"]), 1);
    assert_eq!(generator.transition_count(), 2);
}

#[test]
fn a_fresh_state_and_transition_are_empty() {
    let state = State::default();
    assert_eq!(state.len(), 0);
    assert_eq!(state.count_of(&wording(&["a"])), 0);
    assert_eq!(state.successor_at(0), None);
    assert_eq!(Transition::default().count(), 0);
    let mut grown = State::default();
    grown.bump(wording(&["a"]));
    grown.bump(wording(&["a"]));
    grown.bump(wording(&["b"]));
    assert_eq!(grown.count_of(&wording(&["a"])), 2);
    assert_eq!(grown.count_of(&wording(&["b"])), 1);
    assert_eq!(grown.len(), 2);
}

#[test]
fn white_space_is_what_unicode_says() {
    let blank = [
        '\u{9}', '\u{A}', '\u{B}', '\u{C}', '\u{D}', ' ', '\u{85}', '\u{A0}', '\u{1680}',
        '\u{2000}', '\u{2001}', '\u{2002}', '\u{2003}', '\u{2004}', '\u{2005}', '\u{2006}',
        '\u{2007}', '\u{2008}', '\u{2009}', '\u{200A}', '\u{2028}', '\u{2029}', '\u{202F}',
        '\u{205F}', '\u{3000}',
    ];
    for c in blank {
        assert_eq!(trim(&format!("{}x{}", c, c)), "x");
    }
    let solid = [
        '\u{8}', '\u{E}', '\u{1F}', '!', '\u{84}', '\u{86}', '\u{9F}', '\u{A1}', '\u{180E}',
        '\u{1FFF}', '\u{200B}', '\u{2027}', '\u{202A}', '\u{2060}', '\u{3001}', '\u{FEFF}',
    ];
    for c in solid {
        let text = format!("{}x{}", c, c);
        assert_eq!(trim(&text), text);
    }
}

#[test]
fn a_walk_starts_where_the_draw_says() {
    let generator = trained("a b c a b c a b d", 1);
    assert_eq!(generator.start(0), Ok(&wording(&["a"])));
    assert_eq!(generator.start(1), Ok(&wording(&["b"])));
    assert_eq!(generator.start(2), Ok(&wording(&["c"])));
    assert_eq!(generator.start(4), Ok(&wording(&["b"])));
    let empty = MarkovChainGenerator::new();
    assert_eq!(empty.start(0), Err(ChainError::TooFewInitialStates(0)));
    assert_eq!(empty.start(7), Err(ChainError::TooFewInitialStates(0)));
}

#[test]
fn a_hop_goes_to_the_successor_that_the_draw_says() {
    let generator = trained("a b c a b c a b d", 1);
    let b = wording(&["b"]);
    assert_eq!(generator.successor_count(&b), 2);
    assert_eq!(generator.hop(&b, 0), Some(&wording(&["c"])));
    assert_eq!(generator.hop(&b, 1), Some(&wording(&["d"])));
    assert_eq!(generator.hop(&b, 2), Some(&wording(&["c"])));
    assert_eq!(generator.hop(&b, 5), Some(&wording(&["d"])));
    assert_eq!(generator.hop(&wording(&["a"]), 9), Some(&wording(&["b"])));
    assert_eq!(generator.hop(&wording(&["c"]), 3), Some(&wording(&["a"])));
    let d = wording(&["d"]);
    assert_eq!(generator.successor_count(&d), 0);
    assert_eq!(generator.hop(&d, 0), None);
    assert_eq!(generator.hop(&wording(&["never", "seen"]), 0), None);
}

#[test]
fn train_all_says_how_many_transitions_it_learnt() {
    let mut generator = trained("x y", 1);
    let learn_param = LearningParameters::new(1).unwrap();
    let lines = vec!["hi there".to_string(), "".to_string(), "a b c".to_string()];
    assert_eq!(generator.train_all(&learn_param, &lines), 3);
    assert_eq!(generator.transition_count(), 1 + 1 + 0 + 2);
    assert_eq!(generator.state_count(), 4);
}
