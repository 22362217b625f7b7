//! What the user can ask for, and how a line of text is read as a request.

use vstd::prelude::*;
use vstd::std_specs::iter::IteratorSpec;
use vstd::slice::slice_subrange;
use vstd::string::StrSliceExecFns;
use crate::text::{byte_len, same_text, texts};

verus! {

/// Whether `c` has the Unicode property White_Space, as
/// `char::is_whitespace` tells it.
pub uninterp spec fn white_space(c: char) -> bool;

/// Calls `char::is_whitespace`, which tells whether a character has the
/// Unicode property White_Space. The contract names that answer and says no
/// more of it than that it is the same for the same character.
#[verifier::external_body]
fn is_whitespace(c: char) -> (white: bool)
    ensures
        white == white_space(c),
{
    c.is_whitespace()
}

/// How many characters stand at the start of `line` before its first white
/// space.
pub open spec fn word_len(line: Seq<char>) -> nat
    decreases line.len(),
{
    if line.len() == 0 || white_space(line[0]) {
        0
    } else {
        1 + word_len(line.drop_first())
    }
}

/// The words of `line`: its longest runs of characters that are not white
/// space, in order.
pub open spec fn tokens(line: Seq<char>) -> Seq<Seq<char>>
    decreases line.len(),
{
    if line.len() == 0 {
        seq![]
    } else if white_space(line[0]) {
        tokens(line.drop_first())
    } else {
        proof {
            lemma_word_within(line);
        }
        seq![line.take(word_len(line) as int)] + tokens(line.skip(word_len(line) as int))
    }
}

/// A word at the start of a line is no longer than the line.
pub proof fn lemma_word_within(line: Seq<char>)
    ensures
        word_len(line) <= line.len(),
    decreases line.len(),
{
    if line.len() > 0 && !white_space(line[0]) {
        lemma_word_within(line.drop_first());
    }
}

/// A word is as long as the run of characters before the first white space.
proof fn lemma_word_len(line: Seq<char>, n: int)
    requires
        0 <= n <= line.len(),
        forall|j: int| 0 <= j < n ==> !white_space(#[trigger] line[j]),
        n == line.len() || white_space(line[n]),
    ensures
        word_len(line) == n,
    decreases n,
{
    if n > 0 {
        let rest = line.drop_first();
        assert forall|j: int| 0 <= j < n - 1 implies !white_space(#[trigger] rest[j]) by {
            assert(rest[j] == line[j + 1]);
        }
        lemma_word_len(rest, n - 1);
    }
}

/// Splits `line` into its words.
pub fn split(line: &str) -> (words: Vec<String>)
    ensures
        texts(words@) == tokens(line@),
{
    let bound = byte_len(line);
    let mut words: Vec<String> = Vec::new();
    let mut rest = line.chars();
    // Where the word began that the walk is in, if it is in one.
    let mut start: Option<usize> = None;
    let mut at: usize = 0;
    loop
        invariant
            at <= line@.len() <= bound,
            rest.remaining() == line@.skip(at as int),
            match start {
                Some(from) => {
                    &&& from < at
                    &&& forall|j: int| from <= j < at ==> !white_space(#[trigger] line@[j])
                    &&& tokens(line@) == texts(words@) + tokens(line@.skip(from as int))
                },
                None => tokens(line@) == texts(words@) + tokens(line@.skip(at as int)),
            },
        decreases line@.len() - at,
    {
        let ghost here = line@.skip(at as int);
        match rest.next() {
            None => {
                if let Some(from) = start {
                    proof {
                        lemma_word_ends(line@, from as int, at as int);
                        assert(line@.skip(at as int) =~= Seq::<char>::empty());
                    }
                    let word = line.substring_char(from, at).to_owned();
                    proof {
                        assert(texts(words@.push(word)) =~= texts(words@).push(word@));
                    }
                    words.push(word);
                }
                proof {
                    assert(texts(words@) + Seq::<Seq<char>>::empty() =~= texts(words@));
                }
                return words;
            },
            Some(c) => {
                assert(c == line@[at as int]);
                if is_whitespace(c) {
                    proof {
                        assert(here.drop_first() =~= line@.skip(at + 1));
                    }
                    if let Some(from) = start {
                        proof {
                            lemma_word_ends(line@, from as int, at as int);
                        }
                        let word = line.substring_char(from, at).to_owned();
                        proof {
                            assert(texts(words@.push(word)) =~= texts(words@).push(word@));
                            assert(texts(words@).push(word@) + tokens(line@.skip(at + 1)) =~= texts(
                                words@,
                            ) + (seq![word@] + tokens(line@.skip(at + 1))));
                        }
                        words.push(word);
                        start = None;
                    }
                } else if start.is_none() {
                    start = Some(at);
                }
                at = at + 1;
            },
        }
    }
}

/// Where a word runs from `from` up to `to`, the words of the line from
/// `from` on are that word and the words from `to` on.
proof fn lemma_word_ends(line: Seq<char>, from: int, to: int)
    requires
        0 <= from < to <= line.len(),
        forall|j: int| from <= j < to ==> !white_space(#[trigger] line[j]),
        to == line.len() || white_space(line[to]),
    ensures
        tokens(line.skip(from)) == seq![line.subrange(from, to)] + tokens(line.skip(to)),
{
    let tail = line.skip(from);
    assert forall|j: int| 0 <= j < to - from implies !white_space(#[trigger] tail[j]) by {
        assert(tail[j] == line[from + j]);
    }
    lemma_word_len(tail, to - from);
    assert(tail.take(to - from) =~= line.subrange(from, to));
    assert(tail.skip(to - from) =~= line.skip(to));
}

/// What the user can ask for.
#[derive(Debug, PartialEq, Eq)]
pub enum Command {
    Exit,
    SeePasswords,
    SeeRecommended,
    SeeAnswer,
    FilterPasswords { guess: String, correctness: usize },
    AddPassword(String),
    RemovePassword(String),
    Help,
}

/// A request with its strings as character sequences.
pub enum Request {
    Exit,
    SeePasswords,
    SeeRecommended,
    SeeAnswer,
    FilterPasswords { guess: Seq<char>, correctness: usize },
    AddPassword(Seq<char>),
    RemovePassword(Seq<char>),
    Help,
}

impl View for Command {
    type V = Request;

    open spec fn view(&self) -> Request {
        match *self {
            Command::Exit => Request::Exit,
            Command::SeePasswords => Request::SeePasswords,
            Command::SeeRecommended => Request::SeeRecommended,
            Command::SeeAnswer => Request::SeeAnswer,
            Command::FilterPasswords { guess, correctness } => Request::FilterPasswords {
                guess: guess@,
                correctness,
            },
            Command::AddPassword(s) => Request::AddPassword(s@),
            Command::RemovePassword(s) => Request::RemovePassword(s@),
            Command::Help => Request::Help,
        }
    }
}

/// `std::num::ParseIntError`, carried along as it comes: nothing is said of
/// what it holds.
#[verifier::external_type_specification]
#[verifier::external_body]
pub struct ExParseIntError(std::num::ParseIntError);

/// Why a line is no request.
#[derive(Debug, PartialEq, Eq)]
pub enum ParseError {
    /// The line holds no word.
    Blank,
    /// The first word names no command.
    UnrecognisedCommand(String),
    /// A word follows a command that takes none.
    UnexpectedToken(String),
    /// The line ends where the named word should stand.
    MissingToken(&'static str),
    /// The word is no number that a correctness can be.
    MalformedCorrectness(String, std::num::ParseIntError),
}

/// What is wrong with a line, with strings as character sequences.
pub enum Complaint {
    Blank,
    UnrecognisedCommand(Seq<char>),
    UnexpectedToken(Seq<char>),
    MissingToken(Seq<char>),
    MalformedCorrectness(Seq<char>),
}

impl View for ParseError {
    type V = Complaint;

    open spec fn view(&self) -> Complaint {
        match *self {
            ParseError::Blank => Complaint::Blank,
            ParseError::UnrecognisedCommand(s) => Complaint::UnrecognisedCommand(s@),
            ParseError::UnexpectedToken(s) => Complaint::UnexpectedToken(s@),
            ParseError::MissingToken(s) => Complaint::MissingToken(s@),
            ParseError::MalformedCorrectness(s, _) => Complaint::MalformedCorrectness(s@),
        }
    }
}

/// The number that a run of decimal digits stands for.
pub open spec fn digits_value(digits: Seq<char>) -> nat
    decreases digits.len(),
{
    if digits.len() == 0 {
        0
    } else {
        digits_value(digits.drop_last()) * 10 + (digits.last() as u32 - '0' as u32) as nat
    }
}

/// `word` without the plus sign that may stand before a number.
pub open spec fn unsigned(word: Seq<char>) -> Seq<char> {
    if word.len() > 0 && word[0] == '+' {
        word.drop_first()
    } else {
        word
    }
}

/// The number that `word` is in decimal notation: an optional plus sign,
/// then one or more of the digits `0` to `9` and nothing else, for a value
/// that a `usize` can hold. `None` for any other word.
pub open spec fn number_of(word: Seq<char>) -> Option<usize> {
    let digits = unsigned(word);
    if digits.len() > 0 && (forall|i: int|
        0 <= i < digits.len() ==> '0' <= #[trigger] digits[i] <= '9') && digits_value(digits)
        <= usize::MAX {
        Some(digits_value(digits) as usize)
    } else {
        None
    }
}

/// Calls `str::parse` for a `usize`. That accepts an optional plus sign
/// followed by decimal digits and nothing else, and fails on the empty
/// string, on any other character and on a value too large for the type:
/// the contract says so through `number_of`. Of the error it says only that
/// it comes exactly then.
#[verifier::external_body]
fn parse_number(word: &str) -> (parsed: Result<usize, std::num::ParseIntError>)
    ensures
        match parsed {
            Ok(n) => number_of(word@) == Some(n),
            Err(_) => number_of(word@) is None,
        },
{
    word.parse::<usize>()
}

/// The request that is the command alone: any word after it is one too
/// many.
pub open spec fn alone(args: Seq<Seq<char>>, request: Request) -> Result<Request, Complaint> {
    if args.len() == 0 {
        Ok(request)
    } else {
        Err(Complaint::UnexpectedToken(args[0]))
    }
}

/// The request to narrow the pool: the guess, then its correctness. Words
/// after these two are not looked at.
pub open spec fn guess_request(args: Seq<Seq<char>>) -> Result<Request, Complaint> {
    if args.len() == 0 {
        Err(Complaint::MissingToken("guess"@))
    } else if args.len() == 1 {
        Err(Complaint::MissingToken("correctness"@))
    } else {
        match number_of(args[1]) {
            Some(correctness) => Ok(Request::FilterPasswords { guess: args[0], correctness }),
            None => Err(Complaint::MalformedCorrectness(args[1])),
        }
    }
}

/// The request to add the password that follows the command. Words after it
/// are not looked at.
pub open spec fn add_request(args: Seq<Seq<char>>) -> Result<Request, Complaint> {
    if args.len() == 0 {
        Err(Complaint::MissingToken("password to add"@))
    } else {
        Ok(Request::AddPassword(args[0]))
    }
}

/// The request to remove the password that follows the command. Words after
/// it are not looked at.
pub open spec fn remove_request(args: Seq<Seq<char>>) -> Result<Request, Complaint> {
    if args.len() == 0 {
        Err(Complaint::MissingToken("password to remove"@))
    } else {
        Ok(Request::RemovePassword(args[0]))
    }
}

/// The request that a line of these words makes: the first word names the
/// command, the others are its arguments.
pub open spec fn request_of(words: Seq<Seq<char>>) -> Result<Request, Complaint> {
    if words.len() == 0 {
        Err(Complaint::Blank)
    } else {
        let command = words[0];
        let args = words.skip(1);
        if command == "exit"@ {
            alone(args, Request::Exit)
        } else if command == "view"@ {
            alone(args, Request::SeePasswords)
        } else if command == "recommend"@ {
            alone(args, Request::SeeRecommended)
        } else if command == "answer"@ {
            alone(args, Request::SeeAnswer)
        } else if command == "guess"@ {
            guess_request(args)
        } else if command == "add"@ {
            add_request(args)
        } else if command == "remove"@ {
            remove_request(args)
        } else if command == "help"@ {
            alone(args, Request::Help)
        } else {
            Err(Complaint::UnrecognisedCommand(command))
        }
    }
}

/// Whether `result` is what the specification `expected`.
pub open spec fn parsed_as(
    result: Result<Command, ParseError>,
    expected: Result<Request, Complaint>,
) -> bool {
    match result {
        Ok(command) => expected == Ok::<Request, Complaint>(command@),
        Err(e) => expected == Err::<Request, Complaint>(e@),
    }
}

/// Reads a line as a request: the first word is the command, the words
/// after it are its arguments, and white space only parts the words.
pub fn parse_command(line: &str) -> (result: Result<Command, ParseError>)
    ensures
        parsed_as(result, request_of(tokens(line@))),
{
    let words = split(line);
    let n = words.len();
    if n == 0 {
        return Err(ParseError::Blank);
    }
    let command = words[0].as_str();
    let args = slice_subrange(words.as_slice(), 1, n);
    proof {
        assert(texts(args@) =~= texts(words@).skip(1));
        assert(command@ == texts(words@)[0]);
    }
    if same_text(command, "exit") {
        parse_exit(args)
    } else if same_text(command, "view") {
        parse_view(args)
    } else if same_text(command, "recommend") {
        parse_recommend(args)
    } else if same_text(command, "answer") {
        parse_answer(args)
    } else if same_text(command, "guess") {
        parse_guess(args)
    } else if same_text(command, "add") {
        parse_add(args)
    } else if same_text(command, "remove") {
        parse_remove(args)
    } else if same_text(command, "help") {
        parse_help(args)
    } else {
        Err(ParseError::UnrecognisedCommand(command.to_owned()))
    }
}

/// `exit`: end the session.
fn parse_exit(args: &[String]) -> (result: Result<Command, ParseError>)
    ensures
        parsed_as(result, alone(texts(args@), Request::Exit)),
{
    if args.len() == 0 {
        Ok(Command::Exit)
    } else {
        Err(ParseError::UnexpectedToken(args[0].clone()))
    }
}

/// `help`: show the help text.
fn parse_help(args: &[String]) -> (result: Result<Command, ParseError>)
    ensures
        parsed_as(result, alone(texts(args@), Request::Help)),
{
    if args.len() == 0 {
        Ok(Command::Help)
    } else {
        Err(ParseError::UnexpectedToken(args[0].clone()))
    }
}

/// `view`: show the candidates that are left.
fn parse_view(args: &[String]) -> (result: Result<Command, ParseError>)
    ensures
        parsed_as(result, alone(texts(args@), Request::SeePasswords)),
{
    if args.len() == 0 {
        Ok(Command::SeePasswords)
    } else {
        Err(ParseError::UnexpectedToken(args[0].clone()))
    }
}

/// `answer`: show the password, if it is known.
fn parse_answer(args: &[String]) -> (result: Result<Command, ParseError>)
    ensures
        parsed_as(result, alone(texts(args@), Request::SeeAnswer)),
{
    if args.len() == 0 {
        Ok(Command::SeeAnswer)
    } else {
        Err(ParseError::UnexpectedToken(args[0].clone()))
    }
}

/// `guess <guess> <correctness>`: narrow the pool by the feedback on a guess.
fn parse_guess(args: &[String]) -> (result: Result<Command, ParseError>)
    ensures
        parsed_as(result, guess_request(texts(args@))),
{
    if args.len() == 0 {
        return Err(ParseError::MissingToken("guess"));
    }
    if args.len() == 1 {
        return Err(ParseError::MissingToken("correctness"));
    }
    let guess = &args[0];
    let correctness = &args[1];
    match parse_number(correctness.as_str()) {
        Ok(correctness) => Ok(Command::FilterPasswords { guess: guess.clone(), correctness }),
        Err(e) => Err(ParseError::MalformedCorrectness(correctness.clone(), e)),
    }
}

/// `recommend`: show the candidate to guess next.
fn parse_recommend(args: &[String]) -> (result: Result<Command, ParseError>)
    ensures
        parsed_as(result, alone(texts(args@), Request::SeeRecommended)),
{
    if args.len() == 0 {
        Ok(Command::SeeRecommended)
    } else {
        Err(ParseError::UnexpectedToken(args[0].clone()))
    }
}

/// `add <password>`: make a string a candidate.
fn parse_add(args: &[String]) -> (result: Result<Command, ParseError>)
    ensures
        parsed_as(result, add_request(texts(args@))),
{
    if args.len() == 0 {
        Err(ParseError::MissingToken("password to add"))
    } else {
        Ok(Command::AddPassword(args[0].clone()))
    }
}

/// `remove <password>`: take a candidate out.
fn parse_remove(args: &[String]) -> (result: Result<Command, ParseError>)
    ensures
        parsed_as(result, remove_request(texts(args@))),
{
    if args.len() == 0 {
        Err(ParseError::MissingToken("password to remove"))
    } else {
        Ok(Command::RemovePassword(args[0].clone()))
    }
}

} // verus!
