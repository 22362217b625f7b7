//! The pool of candidate passwords, and the two operations that matter on it:
//! narrowing the pool by the feedback on a guess, and recommending the next
//! guess.

use vstd::prelude::*;
use vstd::std_specs::iter::IteratorSpec;
use crate::pool::{
    add_outcome, ascending, commonality_of, filter_outcome, filtration_power, is_recommended,
    lemma_ascending_distinct, lemma_commonality_bounded, lemma_filter_shrinks, lemma_outcome_ascending, lemma_rank_is,
    lemma_recommendation, lemma_survivors_ascending, matches_below, power_below, rank,
    recommended, remove_outcome, survivors, Operation, Reason,
};
use crate::text::{
    byte_len, comes_before, lemma_precedes_irreflexive, lemma_precedes_total,
    lemma_precedes_transitive, precedes, same_text, texts,
};

verus! {

/// Returns the number of characters one string has in common with another.
/// For a character to be common to both strings, it must appear in the same
/// place. Positions past the end of the shorter string count for nothing.
pub fn commonality(s: &str, t: &str) -> (count: usize)
    ensures
        count == commonality_of(s@, t@),
        count <= s@.len(),
        count <= t@.len(),
{
    proof {
        lemma_commonality_bounded(s@, t@);
    }
    let bound = byte_len(s);
    let mut left = s.chars();
    let mut right = t.chars();
    let mut count: usize = 0;
    let ghost mut seen: nat = 0;
    loop
        invariant
            left.remaining() == s@.skip(seen as int),
            right.remaining() == t@.skip(seen as int),
            seen <= s@.len() <= bound,
            seen <= t@.len(),
            count == matches_below(s@, t@, seen),
            count <= seen,
        decreases s@.len() - seen,
    {
        let a = left.next();
        let b = right.next();
        match (a, b) {
            (Some(a), Some(b)) => {
                if a == b {
                    count = count + 1;
                }
                proof {
                    seen = seen + 1;
                }
            },
            _ => {
                return count;
            },
        }
    }
}

/// Why an operation on the pool was refused. The pool is unchanged whenever
/// one of these is returned.
#[derive(Debug, PartialEq, Eq)]
pub enum FilterError {
    /// The string is not one of the candidates.
    UnknownCandidate(String),
    /// No candidate would remain.
    Impossible,
    /// The string cannot have that many characters correct.
    InvalidCorrectness(String, usize),
    /// The string is a candidate already.
    AlreadyPresent(String),
    /// There is no candidate at all.
    EmptyPool,
}

impl View for FilterError {
    type V = Reason;

    open spec fn view(&self) -> Reason {
        match *self {
            FilterError::UnknownCandidate(s) => Reason::UnknownCandidate(s@),
            FilterError::Impossible => Reason::Impossible,
            FilterError::InvalidCorrectness(s, k) => Reason::InvalidCorrectness(s@, k),
            FilterError::AlreadyPresent(s) => Reason::AlreadyPresent(s@),
            FilterError::EmptyPool => Reason::EmptyPool,
        }
    }
}

/// The pool of strings that could still be the password. It holds each
/// candidate once and walks them in ascending order: character by character,
/// by scalar value, a string before those that it begins.
#[derive(Debug)]
pub struct Hacker {
    /// All the strings that could conceivably be passwords to the terminal,
    /// in ascending order.
    passwords: Vec<String>,
}

impl View for Hacker {
    type V = Seq<Seq<char>>;

    /// The candidates, in the order in which the pool is walked.
    closed spec fn view(&self) -> Seq<Seq<char>> {
        texts(self.passwords@)
    }
}

impl Clone for Hacker {
    /// A pool of its own with the same candidates.
    fn clone(&self) -> (copy: Self)
        ensures
            copy@ == self@,
    {
        proof {
            use_type_invariant(self);
        }
        let passwords = self.passwords.clone();
        proof {
            assert(texts(passwords@) =~= texts(self.passwords@));
        }
        Hacker { passwords }
    }
}

impl Hacker {
    #[verifier::type_invariant]
    spec fn well_formed(&self) -> bool {
        ascending(texts(self.passwords@))
    }

    /// Creates a new hacker given a list of candidate passwords: the pool
    /// holds each of them once, in ascending order.
    /// The list must be nonempty - returns `None` if the list is empty.
    pub fn new(passwords: Vec<String>) -> (made: Option<Self>)
        ensures
            match made {
                Some(hacker) => {
                    &&& passwords@.len() > 0
                    &&& hacker@.len() > 0
                    &&& ascending(hacker@)
                    &&& forall|s: Seq<char>| hacker@.contains(s) <==> texts(passwords@).contains(s)
                },
                None => passwords@.len() == 0,
            },
    {
        if passwords.is_empty() {
            None
        } else {
            let ghost given = texts(passwords@);
            let mut sorted: Vec<String> = Vec::new();
            for password in it: passwords
                invariant
                    given == texts(it.seq()),
                    given.len() > 0,
                    ascending(texts(sorted@)),
                    forall|s: Seq<char>|
                        texts(sorted@).contains(s) <==> given.take(it.index() as int).contains(s),
            {
                let ghost before = texts(sorted@);
                let ghost at = it.index() as int;
                let _ = place(&mut sorted, password);
                proof {
                    given.lemma_take_succ_push(at);
                    assert forall|s: Seq<char>|
                        texts(sorted@).contains(s) <==> given.take(at + 1).contains(s) by {
                        lemma_push_contains(given.take(at), given[at], s);
                    }
                }
            }
            proof {
                given.lemma_take_len();
                assert(given.take(given.len() as int).contains(given[0]));
                assert(texts(sorted@).contains(given[0]));
            }
            Some(Self { passwords: sorted })
        }
    }

    /// Whether `guess` is one of the candidates.
    fn holds(&self, guess: &str) -> (found: bool)
        ensures
            found == self@.contains(guess@),
    {
        let n = self.passwords.len();
        let mut i: usize = 0;
        while i < n
            invariant
                i <= n == self.passwords@.len(),
                forall|j: int| 0 <= j < i ==> self@[j] != guess@,
            decreases n - i,
        {
            if same_text(self.passwords[i].as_str(), guess) {
                assert(self@[i as int] == guess@);
                return true;
            }
            i = i + 1;
        }
        false
    }

    /// Filters out all passwords that don't share `correctness` characters
    /// with `guess`. In case of error, does nothing and returns that error.
    pub fn filter(&mut self, guess: &str, correctness: usize) -> (result: Result<(), FilterError>)
        ensures
            ascending(final(self)@),
            final(self)@.len() <= old(self)@.len(),
            result is Ok ==> final(self)@.len() > 0,
            match result {
                Ok(()) => filter_outcome(old(self)@, guess@, correctness) == Ok::<
                    Seq<Seq<char>>,
                    Reason,
                >(final(self)@),
                Err(e) => filter_outcome(old(self)@, guess@, correctness) == Err::<
                    Seq<Seq<char>>,
                    Reason,
                >(e@) && *final(self) == *old(self),
            },
    {
        proof {
            use_type_invariant(&*self);
            lemma_filter_shrinks(self@, guess@, correctness);
        }
        if !self.holds(guess) {
            // The guess must be from the list.
            return Err(FilterError::UnknownCandidate(guess.to_owned()));
        }
        if correctness > guess.unicode_len() {
            // A guess cannot have a higher correctness count than its length.
            return Err(FilterError::InvalidCorrectness(guess.to_owned(), correctness));
        }
        if self.count_agreeing(guess, correctness) == 0 {
            // A guess shouldn't filter out *all* remaining passwords.
            return Err(FilterError::Impossible);
        }
        self.retain_agreeing(guess, correctness);
        Ok(())
    }

    /// If the hacker knows the correct password (ie if there is only one
    /// candidate left), returns it. Otherwise, returns `None`; of a pool
    /// with no candidate at all there is nothing to say.
    pub fn answer(&self) -> (result: Result<Option<&str>, FilterError>)
        ensures
            match result {
                Ok(Some(s)) => self@.len() == 1 && s@ == self@[0],
                Ok(None) => self@.len() > 1,
                Err(e) => e@ == Reason::EmptyPool && self@.len() == 0,
            },
    {
        let n = self.passwords.len();
        if n == 0 {
            Err(FilterError::EmptyPool)
        } else if n == 1 {
            Ok(Some(self.passwords[0].as_str()))
        } else {
            Ok(None)
        }
    }

    /// Get a list of all strings that could be the password, in ascending
    /// order and each once. It borrows the pool, so it always shows the pool
    /// as it is.
    pub fn candidates(&self) -> (all: &[String])
        ensures
            texts(all@) == self@,
            ascending(self@),
    {
        proof {
            use_type_invariant(self);
        }
        self.passwords.as_slice()
    }

    /// Makes `password` a candidate, at its place in the pool's order, unless
    /// it is one already.
    pub fn add(&mut self, password: String) -> (result: Result<(), FilterError>)
        ensures
            ascending(final(self)@),
            result is Ok ==> final(self)@.len() == old(self)@.len() + 1,
            match result {
                Ok(()) => add_outcome(old(self)@, password@) == Ok::<Seq<Seq<char>>, Reason>(
                    final(self)@,
                ),
                Err(e) => add_outcome(old(self)@, password@) == Err::<Seq<Seq<char>>, Reason>(e@)
                    && *final(self) == *old(self),
            },
    {
        proof {
            use_type_invariant(&*self);
        }
        let mut all: Vec<String> = Vec::new();
        std::mem::swap(&mut self.passwords, &mut all);
        let refused = place(&mut all, password);
        self.passwords = all;
        match refused {
            None => Ok(()),
            Some(back) => Err(FilterError::AlreadyPresent(back)),
        }
    }

    /// Takes `password` out of the pool, if it is a candidate. The others
    /// keep their order. The last candidate can be taken out too, which
    /// leaves a pool with none.
    pub fn remove(&mut self, password: &str) -> (result: Result<(), FilterError>)
        ensures
            ascending(final(self)@),
            result is Ok ==> final(self)@.len() + 1 == old(self)@.len(),
            match result {
                Ok(()) => remove_outcome(old(self)@, password@) == Ok::<Seq<Seq<char>>, Reason>(
                    final(self)@,
                ),
                Err(e) => remove_outcome(old(self)@, password@) == Err::<Seq<Seq<char>>, Reason>(
                    e@,
                ) && *final(self) == *old(self),
            },
    {
        proof {
            use_type_invariant(&*self);
        }
        let ghost pool = self@;
        let n = self.passwords.len();
        let mut i: usize = 0;
        while i < n
            invariant
                i <= n == self.passwords@.len(),
                pool == self@,
                ascending(pool),
                *self == *old(self),
                forall|j: int| 0 <= j < i ==> pool[j] != password@,
            decreases n - i,
        {
            if same_text(self.passwords[i].as_str(), password) {
                proof {
                    assert(pool[i as int] == password@);
                    lemma_ascending_distinct(pool);
                    assert(pool.index_of(password@) == i);
                    assert(texts(self.passwords@.remove(i as int)) =~= pool.remove(i as int));
                    lemma_outcome_ascending(pool, Operation::Remove(password@));
                }
                let mut all: Vec<String> = Vec::new();
                std::mem::swap(&mut self.passwords, &mut all);
                let _ = all.remove(i);
                self.passwords = all;
                return Ok(());
            }
            i = i + 1;
        }
        Err(FilterError::UnknownCandidate(password.to_owned()))
    }

    /// Recommend the next password to guess: the candidate with the lowest
    /// filtration power, and of several such the first in the pool's order.
    pub fn recommend(&self) -> (result: Result<&str, FilterError>)
        ensures
            match result {
                Ok(s) => {
                    &&& self@.len() > 0
                    &&& is_recommended(self@, recommended(self@))
                    &&& s@ == self@[recommended(self@)]
                },
                Err(e) => e@ == Reason::EmptyPool && self@.len() == 0,
            },
    {
        let n = self.passwords.len();
        if n == 0 {
            return Err(FilterError::EmptyPool);
        }
        let mut best: usize = 0;
        let mut lowest = self.filtration_power(self.passwords[0].as_str());
        let mut i: usize = 1;
        while i < n
            invariant
                best < i <= n == self.passwords@.len(),
                lowest == filtration_power(self@, self@[best as int]),
                forall|j: int| 0 <= j < i ==> lowest <= filtration_power(self@, #[trigger] self@[j]),
                forall|j: int| 0 <= j < best ==> lowest < filtration_power(self@, #[trigger] self@[j]),
            decreases n - i,
        {
            let power = self.filtration_power(self.passwords[i].as_str());
            if power < lowest {
                best = i;
                lowest = power;
            }
            i = i + 1;
        }
        proof {
            assert(is_recommended(self@, best as int));
            lemma_recommendation(self@);
        }
        Ok(self.passwords[best].as_str())
    }

    /// The filtration power of `guess` over the whole pool.
    fn filtration_power(&self, guess: &str) -> (power: u128)
        ensures
            power == filtration_power(self@, guess@),
    {
        let n = self.passwords.len();
        let mut power: u128 = 0;
        let mut i: usize = 0;
        while i < n
            invariant
                i <= n == self.passwords@.len(),
                power == power_below(self@, guess@, i as nat),
                power <= i * n,
            decreases n - i,
        {
            // What the feedback would be if this candidate were the password.
            let correctness = commonality(self.passwords[i].as_str(), guess);
            let left = self.count_agreeing(guess, correctness);
            proof {
                self@.lemma_filter_len(|c: Seq<char>| commonality_of(c, guess@) == correctness as nat);
                assert((i + 1) * n == i * n + n) by (nonlinear_arith);
                assert((i + 1) * n <= n * n) by (nonlinear_arith)
                    requires
                        i + 1 <= n,
                ;
                assert(n * n <= 0xffff_ffff_ffff_ffff * 0xffff_ffff_ffff_ffff) by (nonlinear_arith)
                    requires
                        n <= 0xffff_ffff_ffff_ffff,
                ;
            }
            power = power + left as u128;
            i = i + 1;
        }
        power
    }

    /// How many candidates share exactly `correctness` characters with
    /// `guess`.
    fn count_agreeing(&self, guess: &str, correctness: usize) -> (count: usize)
        ensures
            count == survivors(self@, guess@, correctness as nat).len(),
    {
        let ghost agrees = |c: Seq<char>| commonality_of(c, guess@) == correctness as nat;
        let n = self.passwords.len();
        let mut count: usize = 0;
        let mut i: usize = 0;
        while i < n
            invariant
                i <= n == self.passwords@.len(),
                agrees == |c: Seq<char>| commonality_of(c, guess@) == correctness as nat,
                count == self@.take(i as int).filter(agrees).len(),
                count <= i,
            decreases n - i,
        {
            proof {
                self@.lemma_take_succ_push(i as int);
                self@.take(i as int).lemma_filter_push(self@[i as int], agrees);
            }
            if commonality(self.passwords[i].as_str(), guess) == correctness {
                count = count + 1;
            }
            i = i + 1;
        }
        proof {
            self@.lemma_take_len();
        }
        count
    }

    /// Drops every candidate that does not share exactly `correctness`
    /// characters with `guess`.
    fn retain_agreeing(&mut self, guess: &str, correctness: usize)
        ensures
            final(self)@ == survivors(old(self)@, guess@, correctness as nat),
            ascending(final(self)@),
    {
        proof {
            use_type_invariant(&*self);
        }
        let ghost agrees = |c: Seq<char>| commonality_of(c, guess@) == correctness as nat;
        let ghost before = self@;
        let mut all: Vec<String> = Vec::new();
        std::mem::swap(&mut self.passwords, &mut all);
        let mut kept: Vec<String> = Vec::new();
        for password in it: all
            invariant
                agrees == |c: Seq<char>| commonality_of(c, guess@) == correctness as nat,
                before == texts(it.seq()),
                texts(kept@) == before.take(it.index() as int).filter(agrees),
        {
            proof {
                before.lemma_take_succ_push(it.index() as int);
                before.take(it.index() as int).lemma_filter_push(before[it.index() as int], agrees);
            }
            if commonality(password.as_str(), guess) == correctness {
                proof {
                    assert(texts(kept@.push(password)) =~= texts(kept@).push(password@));
                }
                kept.push(password);
            }
        }
        proof {
            before.lemma_take_len();
            lemma_survivors_ascending(before, guess@, correctness as nat);
        }
        self.passwords = kept;
    }
}

/// Puts `password` at its place in `sorted`, unless it is there already: then
/// `sorted` stays as it is and the string is handed back.
fn place(sorted: &mut Vec<String>, password: String) -> (refused: Option<String>)
    requires
        ascending(texts(old(sorted)@)),
    ensures
        ascending(texts(final(sorted)@)),
        forall|s: Seq<char>|
            texts(final(sorted)@).contains(s) <==> texts(old(sorted)@).contains(s) || s
                == password@,
        match refused {
            None => {
                &&& !texts(old(sorted)@).contains(password@)
                &&& texts(final(sorted)@) == texts(old(sorted)@).insert(
                    rank(texts(old(sorted)@), password@) as int,
                    password@,
                )
            },
            Some(back) => {
                &&& back == password
                &&& texts(old(sorted)@).contains(password@)
                &&& *final(sorted) == *old(sorted)
            },
        },
{
    let ghost pool = texts(sorted@);
    let n = sorted.len();
    let mut i: usize = 0;
    while i < n
        invariant
            i <= n == sorted@.len(),
            pool == texts(sorted@),
            forall|j: int| 0 <= j < i ==> precedes(#[trigger] pool[j], password@),
        ensures
            i == n || !precedes(pool[i as int], password@),
        decreases n - i,
    {
        if !comes_before(sorted[i].as_str(), password.as_str()) {
            break;
        }
        i = i + 1;
    }
    if i < n && same_text(sorted[i].as_str(), password.as_str()) {
        assert(pool[i as int] == password@);
        return Some(password);
    }
    proof {
        assert forall|j: int| i <= j < n implies precedes(password@, #[trigger] pool[j]) by {
            lemma_precedes_total(pool[i as int], password@);
            if i < j {
                lemma_precedes_transitive(password@, pool[i as int], pool[j]);
            }
        }
        assert forall|j: int| i <= j < n implies !precedes(#[trigger] pool[j], password@) by {
            lemma_precedes_total(pool[j], password@);
        }
        lemma_rank_is(pool, password@, i as int);
        assert forall|j: int| 0 <= j < n implies pool[j] != password@ by {
            lemma_precedes_irreflexive(password@);
        }
        let after = pool.insert(i as int, password@);
        assert(texts(sorted@.insert(i as int, password)) =~= after);
        lemma_outcome_ascending(pool, Operation::Add(password@));
        assert forall|s: Seq<char>| after.contains(s) <==> pool.contains(s) || s == password@ by {
            if pool.contains(s) {
                let k = choose|k: int| 0 <= k < pool.len() && pool[k] == s;
                assert(after[if k < i { k } else { k + 1 }] == s);
            }
            if s == password@ {
                assert(after[i as int] == s);
            }
            if after.contains(s) {
                let k = choose|k: int| 0 <= k < after.len() && after[k] == s;
                if k < i {
                    assert(pool[k] == s);
                } else if k > i {
                    assert(pool[k - 1] == s);
                }
            }
        }
    }
    sorted.insert(i, password);
    None
}

/// A sequence with one more element at its end holds what it held before,
/// and that element.
proof fn lemma_push_contains(front: Seq<Seq<char>>, last: Seq<char>, s: Seq<char>)
    ensures
        front.push(last).contains(s) <==> front.contains(s) || s == last,
{
    let whole = front.push(last);
    if front.contains(s) {
        let k = choose|k: int| 0 <= k < front.len() && front[k] == s;
        assert(whole[k] == s);
    }
    if s == last {
        assert(whole[front.len() as int] == s);
    }
}

} // verus!
