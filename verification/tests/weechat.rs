use impersonate::trainers::weechat::{clean_line, noise, strip_author, WeechatLogTrainer};
use impersonate::{ChainParameters, LearningParameters, MarkovChainGenerator, Trainer, Wording};

#[test]
fn lines_are_cut_at_line_feeds() {
    let trainer = WeechatLogTrainer::new("alice", "one\ntwo\n");
    assert_eq!(trainer.kept_lines(), vec!["one", "two"]);
    let open = WeechatLogTrainer::new("alice", "one\n\ntwo");
    assert_eq!(open.kept_lines(), vec!["one", "", "two"]);
    let empty = WeechatLogTrainer::new("alice", "");
    assert_eq!(empty.kept_lines(), Vec::<String>::new());
}

#[test]
fn notices_are_noise() {
    assert!(noise("-- topic is now"));
    assert!(noise("<-- bob has quit"));
    assert!(noise("--> bob has joined"));
    assert!(!noise("alice -- hi"));
    assert!(!noise("<- almost"));
}

#[test]
fn noise_and_lines_without_a_time_are_dropped() {
    let log = "10:00:00 alice hi there\n10:00:01 --> bob has joined\n10:00:02 <-- bob has quit\n\
               10:00:03 -- topic changed\nno time here\n2020-05-01 10:00:04 bob hello";
    let mut trainer = WeechatLogTrainer::new("alice", log);
    trainer.filter_noise();
    assert_eq!(
        trainer.kept_lines(),
        vec!["10:00:00 alice hi there", "2020-05-01 10:00:04 bob hello"]
    );
}

#[test]
fn only_the_author_is_kept() {
    let mut trainer =
        WeechatLogTrainer::new("alice", "10:00:00 alice hi there\n10:00:01 bob ignore me");
    trainer.filter_noise();
    trainer.cleanup();
    assert_eq!(trainer.kept_lines(), vec!["hi there"]);
}

#[test]
fn a_line_is_cleaned_of_time_and_nickname() {
    assert_eq!(clean_line("10:00:00 alice hi there", "alice"), "hi there");
    assert_eq!(clean_line("2020-05-01 10:00:00 @alice   hi  ", "alice"), "hi");
    assert_eq!(clean_line("10:00:00 bob hi there", "alice"), "");
    assert_eq!(clean_line("10:00:00 Alice hi there", "alice"), "");
    assert_eq!(clean_line("10:00:00 alice", "alice"), "");
    assert_eq!(clean_line("no time here", "alice"), "no time here");
    assert_eq!(clean_line("10:00:00 anyone speaks", ""), "anyone speaks");
}

#[test]
fn the_trainer_feeds_the_cleaned_lines() {
    let log = "10:00:00 alice a b c\n10:00:01 bob x y z\n10:00:02 --> carol has joined\n\
               10:00:03 alice a b d\n";
    let mut trainer = WeechatLogTrainer::new("alice", log);
    let mut generator = MarkovChainGenerator::new();
    let result = trainer.source_train(&mut generator, LearningParameters::new(1).unwrap());
    assert_eq!(result, Ok(()));
    assert_eq!(trainer.kept_lines(), vec!["a b c", "a b d"]);
    assert_eq!(generator.transition_count(), 4);
    let a = Wording::new(vec!["a".to_string()]);
    let b = Wording::new(vec!["b".to_string()]);
    let x = Wording::new(vec!["x".to_string()]);
    assert_eq!(generator.state_of(&a).unwrap().count_of(&b), 2);
    assert_eq!(generator.state_of(&b).unwrap().len(), 2);
    assert!(generator.state_of(&x).is_none());
    assert!(generator.generate_chain(&ChainParameters::new(Some(2))).is_ok());
}

#[test]
fn an_empty_log_trains_nothing_and_succeeds() {
    let mut trainer = WeechatLogTrainer::new("alice", "");
    let mut generator = MarkovChainGenerator::new();
    let result = trainer.source_train(&mut generator, LearningParameters::new(2).unwrap());
    assert_eq!(result, Ok(()));
    assert_eq!(generator.state_count(), 0);
}

#[test]
fn the_nickname_is_stripped_from_what_was_said() {
    assert_eq!(strip_author("alice hi there", "alice"), "hi there");
    assert_eq!(strip_author("@alice\thi there  ", "alice"), "hi there");
    assert_eq!(strip_author("alicex", "alice"), "x");
    assert_eq!(strip_author("bob hi", "alice"), "");
    assert_eq!(strip_author("@", "alice"), "");
    assert_eq!(strip_author("", "alice"), "");
    assert_eq!(strip_author("@@alice hi", "alice"), "");
}

#[test]
fn a_log_of_two_authors_teaches_the_one_pair_of_the_author() {
    let mut trainer =
        WeechatLogTrainer::new("alice", "10:00:00 alice hi there\n10:00:01 bob ignore me");
    let mut generator = MarkovChainGenerator::new();
    let result = trainer.source_train(&mut generator, LearningParameters::new(1).unwrap());
    assert_eq!(result, Ok(()));
    assert_eq!(generator.state_count(), 1);
    assert_eq!(generator.transition_count(), 1);
    let hi = Wording::new(vec!["hi".to_string()]);
    let there = Wording::new(vec!["there".to_string()]);
    assert_eq!(generator.key_at(0), Some(&hi));
    let state = generator.state_of(&hi).unwrap();
    assert_eq!(state.len(), 1);
    assert_eq!(state.count_of(&there), 1);
}

#[test]
fn a_notice_and_another_author_teach_nothing_though_they_name_the_author() {
    let log = "10:00:00 --> alice has joined\n10:00:01 alice hello world\n10:00:02 bob hello alice";
    let mut trainer = WeechatLogTrainer::new("alice", log);
    let mut generator = MarkovChainGenerator::new();
    let result = trainer.source_train(&mut generator, LearningParameters::new(1).unwrap());
    assert_eq!(result, Ok(()));
    assert_eq!(generator.state_count(), 1);
    assert_eq!(generator.transition_count(), 1);
    let hello = Wording::new(vec!["hello".to_string()]);
    let world = Wording::new(vec!["world".to_string()]);
    let state = generator.state_of(&hello).unwrap();
    assert_eq!(state.len(), 1);
    assert_eq!(state.count_of(&world), 1);
}
