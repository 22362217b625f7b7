//! A solver for the terminal hacking puzzle: a pool of candidate passwords
//! that is narrowed by the feedback on each guess, and that recommends the
//! next guess.

use vstd::prelude::*;

pub mod hacker;
pub mod pool;
pub mod text;
pub mod user;

pub use hacker::Hacker;

use hacker::FilterError;
use pool::{add_outcome, filter_outcome, remove_outcome, Reason};
use user::{Command, Request};

verus! {

/// What is left to do, once a request has been put to the pool, for whoever
/// talks to the user.
#[derive(Debug, PartialEq, Eq)]
pub enum Action {
    /// End the session.
    Terminate,
    /// Show the candidates that are left.
    ShowPasswords,
    /// Tell the user why the request was refused.
    ShowError(FilterError),
    /// Show the help text.
    ShowHelp,
    /// Nothing: go on with the next request.
    Continue,
}

/// An action with its strings as character sequences.
pub enum Reply {
    Terminate,
    ShowPasswords,
    ShowError(Reason),
    ShowHelp,
    Continue,
}

impl View for Action {
    type V = Reply;

    open spec fn view(&self) -> Reply {
        match *self {
            Action::Terminate => Reply::Terminate,
            Action::ShowPasswords => Reply::ShowPasswords,
            Action::ShowError(e) => Reply::ShowError(e@),
            Action::ShowHelp => Reply::ShowHelp,
            Action::Continue => Reply::Continue,
        }
    }
}

/// The pool and the reply after an operation on `pool` that came to
/// `outcome`: a refusal is shown and leaves the pool as it was.
pub open spec fn settled(pool: Seq<Seq<char>>, outcome: Result<Seq<Seq<char>>, Reason>) -> (
    Seq<Seq<char>>,
    Reply,
) {
    match outcome {
        Ok(after) => (after, Reply::Continue),
        Err(reason) => (pool, Reply::ShowError(reason)),
    }
}

/// The pool and the reply after `request` was put to `pool`.
pub open spec fn handled(pool: Seq<Seq<char>>, request: Request) -> (Seq<Seq<char>>, Reply) {
    match request {
        Request::Exit => (pool, Reply::Terminate),
        Request::SeePasswords => (pool, Reply::ShowPasswords),
        Request::SeeRecommended => if pool.len() == 0 {
            (pool, Reply::ShowError(Reason::EmptyPool))
        } else {
            (pool, Reply::Continue)
        },
        Request::SeeAnswer => (pool, Reply::Continue),
        Request::FilterPasswords { guess, correctness } => settled(
            pool,
            filter_outcome(pool, guess, correctness),
        ),
        Request::AddPassword(s) => settled(pool, add_outcome(pool, s)),
        Request::RemovePassword(s) => settled(pool, remove_outcome(pool, s)),
        Request::Help => (pool, Reply::ShowHelp),
    }
}

/// Puts one request to the pool and says what is to be done next. Only
/// narrowing, adding and removing change the pool, and only where they are
/// accepted. A recommendation or an answer that is asked for is no part of
/// the action: of these two requests only a refusal is passed on.
pub fn step(hacker: &mut Hacker, command: Command) -> (action: Action)
    ensures
        (final(hacker)@, action@) == handled(old(hacker)@, command@),
{
    match command {
        Command::Exit => Action::Terminate,
        Command::SeePasswords => Action::ShowPasswords,
        Command::SeeRecommended => {
            match hacker.recommend() {
                Ok(_) => Action::Continue,
                Err(e) => Action::ShowError(e),
            }
        },
        Command::SeeAnswer => Action::Continue,
        Command::FilterPasswords { guess, correctness } => {
            match hacker.filter(guess.as_str(), correctness) {
                Ok(()) => Action::Continue,
                Err(e) => Action::ShowError(e),
            }
        },
        Command::AddPassword(pw) => {
            match hacker.add(pw) {
                Ok(()) => Action::Continue,
                Err(e) => Action::ShowError(e),
            }
        },
        Command::RemovePassword(pw) => {
            match hacker.remove(pw.as_str()) {
                Ok(()) => Action::Continue,
                Err(e) => Action::ShowError(e),
            }
        },
        Command::Help => Action::ShowHelp,
    }
}

} // verus!
