use robco::hacker::{FilterError, Hacker};
use robco::user::{parse_command, split, Command, ParseError};
use robco::{step, Action};

fn hacker_of(words: &[&str]) -> Hacker {
    Hacker::new(words.iter().map(|w| w.to_string()).collect()).expect("a pool needs a candidate")
}

fn left(hacker: &Hacker) -> Vec<&str> {
    hacker.candidates().iter().map(|s| s.as_str()).collect()
}

#[test]
fn split_parts_the_words_at_white_space() {
    assert_eq!(split("guess  tires\t3\n"), vec!["guess", "tires", "3"]);
    assert_eq!(split("  exit"), vec!["exit"]);
    assert_eq!(split("a"), vec!["a"]);
    assert_eq!(split("a b"), vec!["a", "b"]);
}

#[test]
fn split_of_a_line_without_words() {
    assert!(split("").is_empty());
    assert!(split(" \t \r\n").is_empty());
}

#[test]
fn split_knows_white_space_beyond_ascii() {
    // A no-break space and an ideographic space part words too.
    assert_eq!(split("add\u{a0}pä\u{3000}ß"), vec!["add", "pä", "ß"]);
    // A zero width space is not white space.
    assert_eq!(split("a\u{200b}b"), vec!["a\u{200b}b"]);
}

#[test]
fn parse_commands_without_arguments() {
    assert_eq!(parse_command("exit\n"), Ok(Command::Exit));
    assert_eq!(parse_command("view\n"), Ok(Command::SeePasswords));
    assert_eq!(parse_command("recommend\n"), Ok(Command::SeeRecommended));
    assert_eq!(parse_command("answer\n"), Ok(Command::SeeAnswer));
    assert_eq!(parse_command("  help  "), Ok(Command::Help));
}

#[test]
fn parse_rejects_a_word_after_a_command_that_takes_none() {
    assert_eq!(parse_command("exit now"), Err(ParseError::UnexpectedToken("now".to_string())));
    assert_eq!(parse_command("view all x"), Err(ParseError::UnexpectedToken("all".to_string())));
    assert_eq!(parse_command("recommend 1"), Err(ParseError::UnexpectedToken("1".to_string())));
    assert_eq!(parse_command("answer ?"), Err(ParseError::UnexpectedToken("?".to_string())));
    assert_eq!(parse_command("help me"), Err(ParseError::UnexpectedToken("me".to_string())));
}

#[test]
fn parse_rejects_a_blank_line() {
    assert_eq!(parse_command(""), Err(ParseError::Blank));
    assert_eq!(parse_command("   \n"), Err(ParseError::Blank));
}

#[test]
fn parse_rejects_an_unknown_command() {
    assert_eq!(
        parse_command("quit\n"),
        Err(ParseError::UnrecognisedCommand("quit".to_string()))
    );
    assert_eq!(
        parse_command("Exit\n"),
        Err(ParseError::UnrecognisedCommand("Exit".to_string()))
    );
    assert_eq!(
        parse_command("exits\n"),
        Err(ParseError::UnrecognisedCommand("exits".to_string()))
    );
}

#[test]
fn parse_guess_with_its_correctness() {
    assert_eq!(
        parse_command("guess tires 3\n"),
        Ok(Command::FilterPasswords { guess: "tires".to_string(), correctness: 3 })
    );
    assert_eq!(
        parse_command("guess tires +12 and more"),
        Ok(Command::FilterPasswords { guess: "tires".to_string(), correctness: 12 })
    );
    assert_eq!(
        parse_command("guess 7 007"),
        Ok(Command::FilterPasswords { guess: "7".to_string(), correctness: 7 })
    );
    assert_eq!(
        parse_command("guess x 0"),
        Ok(Command::FilterPasswords { guess: "x".to_string(), correctness: 0 })
    );
}

#[test]
fn parse_guess_names_the_missing_word() {
    assert_eq!(parse_command("guess"), Err(ParseError::MissingToken("guess")));
    assert_eq!(parse_command("guess tires"), Err(ParseError::MissingToken("correctness")));
}

#[test]
fn parse_guess_rejects_a_correctness_that_is_no_number() {
    for word in ["three", "-1", "3.0", "1_0", "+", "0x10", "٣", "99999999999999999999999999"] {
        let line = format!("guess tires {}", word);
        match parse_command(&line) {
            Err(ParseError::MalformedCorrectness(found, _)) => assert_eq!(found, word),
            other => panic!("{:?} for {:?}", other, line),
        }
    }
}

#[test]
fn parse_guess_keeps_the_reason_of_the_refusal() {
    let reason = "x".parse::<usize>().unwrap_err();
    assert_eq!(
        parse_command("guess tires x"),
        Err(ParseError::MalformedCorrectness("x".to_string(), reason))
    );
}

#[test]
fn parse_add_and_remove() {
    assert_eq!(parse_command("add tires\n"), Ok(Command::AddPassword("tires".to_string())));
    assert_eq!(parse_command("add a b"), Ok(Command::AddPassword("a".to_string())));
    assert_eq!(parse_command("remove tires\n"), Ok(Command::RemovePassword("tires".to_string())));
    assert_eq!(parse_command("add"), Err(ParseError::MissingToken("password to add")));
    assert_eq!(parse_command("remove "), Err(ParseError::MissingToken("password to remove")));
}

#[test]
fn step_ends_the_session_on_exit() {
    let mut hacker = hacker_of(&["ab", "ba"]);
    assert_eq!(step(&mut hacker, Command::Exit), Action::Terminate);
    assert_eq!(left(&hacker), vec!["ab", "ba"]);
}

#[test]
fn step_leaves_the_pool_alone_on_questions() {
    let mut hacker = hacker_of(&["ab", "ba"]);
    assert_eq!(step(&mut hacker, Command::SeePasswords), Action::ShowPasswords);
    assert_eq!(step(&mut hacker, Command::SeeRecommended), Action::Continue);
    assert_eq!(step(&mut hacker, Command::SeeAnswer), Action::Continue);
    assert_eq!(step(&mut hacker, Command::Help), Action::ShowHelp);
    assert_eq!(left(&hacker), vec!["ab", "ba"]);
}

#[test]
fn step_narrows_the_pool_on_a_guess() {
    let mut hacker = hacker_of(&["aaaa", "aabb", "abbb"]);
    let guess = Command::FilterPasswords { guess: "aaaa".to_string(), correctness: 1 };
    assert_eq!(step(&mut hacker, guess), Action::Continue);
    assert_eq!(left(&hacker), vec!["abbb"]);
}

#[test]
fn step_reports_a_refused_guess() {
    let mut hacker = hacker_of(&["ab", "ba"]);
    let unknown = Command::FilterPasswords { guess: "zz".to_string(), correctness: 0 };
    assert_eq!(
        step(&mut hacker, unknown),
        Action::ShowError(FilterError::UnknownCandidate("zz".to_string()))
    );
    let invalid = Command::FilterPasswords { guess: "ab".to_string(), correctness: 3 };
    assert_eq!(
        step(&mut hacker, invalid),
        Action::ShowError(FilterError::InvalidCorrectness("ab".to_string(), 3))
    );
    let impossible = Command::FilterPasswords { guess: "ab".to_string(), correctness: 1 };
    assert_eq!(step(&mut hacker, impossible), Action::ShowError(FilterError::Impossible));
    assert_eq!(left(&hacker), vec!["ab", "ba"]);
}

#[test]
fn step_adds_and_removes() {
    let mut hacker = hacker_of(&["ab"]);
    assert_eq!(step(&mut hacker, Command::AddPassword("cd".to_string())), Action::Continue);
    assert_eq!(left(&hacker), vec!["ab", "cd"]);
    assert_eq!(
        step(&mut hacker, Command::AddPassword("cd".to_string())),
        Action::ShowError(FilterError::AlreadyPresent("cd".to_string()))
    );
    assert_eq!(
        step(&mut hacker, Command::RemovePassword("xy".to_string())),
        Action::ShowError(FilterError::UnknownCandidate("xy".to_string()))
    );
    assert_eq!(step(&mut hacker, Command::RemovePassword("ab".to_string())), Action::Continue);
    assert_eq!(left(&hacker), vec!["cd"]);
}

#[test]
fn step_reports_that_nothing_can_be_recommended() {
    let mut hacker = hacker_of(&["ab"]);
    assert_eq!(step(&mut hacker, Command::RemovePassword("ab".to_string())), Action::Continue);
    assert_eq!(
        step(&mut hacker, Command::SeeRecommended),
        Action::ShowError(FilterError::EmptyPool)
    );
}

#[test]
fn a_session_from_lines_to_the_answer() {
    let mut hacker = hacker_of(&["fire", "five", "fine", "mine", "pack"]);
    for line in ["view\n", "guess fine 3\n", "remove five\n", "add mind\n", "guess mind 3\n"] {
        let command = parse_command(line).expect("a request");
        assert_ne!(step(&mut hacker, command), Action::Terminate);
    }
    assert_eq!(hacker.answer(), Ok(Some("mine")));
    let command = parse_command("exit").expect("a request");
    assert_eq!(step(&mut hacker, command), Action::Terminate);
}
