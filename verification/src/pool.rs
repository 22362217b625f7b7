//! The pool as a mathematical object: a sequence of candidates, each a
//! sequence of characters, and what the operations on it are defined to do.
//! The lemmas state what holds of every pool.

use vstd::prelude::*;
use crate::text::{
    lemma_precedes_irreflexive, lemma_precedes_total, lemma_precedes_transitive, precedes,
};

verus! {

/// Number of positions below `n` at which `a` and `b` hold the same character.
pub open spec fn matches_below(a: Seq<char>, b: Seq<char>, n: nat) -> nat
    decreases n,
{
    if n == 0 {
        0
    } else {
        matches_below(a, b, (n - 1) as nat) + if a[n - 1] == b[n - 1] {
            1nat
        } else {
            0nat
        }
    }
}

/// Number of positions, within the shorter of the two, at which `a` and `b`
/// hold the same character.
pub open spec fn commonality_of(a: Seq<char>, b: Seq<char>) -> nat {
    matches_below(
        a,
        b,
        if a.len() <= b.len() {
            a.len()
        } else {
            b.len()
        },
    )
}

/// A pool in its canonical order: each candidate comes before all later ones,
/// so no candidate occurs twice.
pub open spec fn ascending(pool: Seq<Seq<char>>) -> bool {
    forall|i: int, j: int|
        0 <= i < j < pool.len() ==> precedes(#[trigger] pool[i], #[trigger] pool[j])
}

/// The candidates of `pool` that share exactly `correctness` characters with
/// `guess`, in the order of `pool`.
pub open spec fn survivors(pool: Seq<Seq<char>>, guess: Seq<char>, correctness: nat) -> Seq<
    Seq<char>,
> {
    pool.filter(|c: Seq<char>| commonality_of(c, guess) == correctness)
}

/// How many candidates of `pool` come before `s`: the place at which `s`
/// stands in an ascending pool, or would stand.
pub open spec fn rank(pool: Seq<Seq<char>>, s: Seq<char>) -> nat {
    pool.filter(|c: Seq<char>| precedes(c, s)).len()
}

/// Why an operation on the pool was refused, with strings as character
/// sequences.
pub enum Reason {
    UnknownCandidate(Seq<char>),
    Impossible,
    InvalidCorrectness(Seq<char>, usize),
    AlreadyPresent(Seq<char>),
    EmptyPool,
}

/// What narrowing does to `pool` on the feedback that `guess` has
/// `correctness` characters right: the narrowed pool, or the first of the
/// three objections that applies.
pub open spec fn filter_outcome(
    pool: Seq<Seq<char>>,
    guess: Seq<char>,
    correctness: usize,
) -> Result<Seq<Seq<char>>, Reason> {
    if !pool.contains(guess) {
        Err(Reason::UnknownCandidate(guess))
    } else if correctness > guess.len() {
        Err(Reason::InvalidCorrectness(guess, correctness))
    } else if survivors(pool, guess, correctness as nat).len() == 0 {
        Err(Reason::Impossible)
    } else {
        Ok(survivors(pool, guess, correctness as nat))
    }
}

/// What adding `s` does to `pool`: `s` goes to its place in the order, unless
/// it is a candidate already.
pub open spec fn add_outcome(pool: Seq<Seq<char>>, s: Seq<char>) -> Result<Seq<Seq<char>>, Reason> {
    if pool.contains(s) {
        Err(Reason::AlreadyPresent(s))
    } else {
        Ok(pool.insert(rank(pool, s) as int, s))
    }
}

/// What removing `s` does to `pool`: `s` leaves and the others keep their
/// order, unless `s` is no candidate.
pub open spec fn remove_outcome(pool: Seq<Seq<char>>, s: Seq<char>) -> Result<
    Seq<Seq<char>>,
    Reason,
> {
    if !pool.contains(s) {
        Err(Reason::UnknownCandidate(s))
    } else {
        Ok(pool.remove(pool.index_of(s)))
    }
}

/// The filtration power of `guess` over the first `n` candidates of `pool`:
/// for each of them taken as the true password, the number of candidates that
/// would survive the feedback it gives on `guess`, all added up.
pub open spec fn power_below(pool: Seq<Seq<char>>, guess: Seq<char>, n: nat) -> nat
    decreases n,
{
    if n == 0 {
        0
    } else {
        power_below(pool, guess, (n - 1) as nat) + survivors(
            pool,
            guess,
            commonality_of(pool[n - 1], guess),
        ).len()
    }
}

/// How many candidates are left after guessing `guess`, summed over every
/// candidate as the true password. Lower means more powerful.
pub open spec fn filtration_power(pool: Seq<Seq<char>>, guess: Seq<char>) -> nat {
    power_below(pool, guess, pool.len())
}

/// Whether the candidate at `i` is the one to guess next: none has a lower
/// filtration power, and all before it have a higher one.
pub open spec fn is_recommended(pool: Seq<Seq<char>>, i: int) -> bool {
    &&& 0 <= i < pool.len()
    &&& forall|j: int|
        0 <= j < pool.len() ==> filtration_power(pool, pool[i]) <= filtration_power(
            pool,
            #[trigger] pool[j],
        )
    &&& forall|j: int|
        0 <= j < i ==> filtration_power(pool, pool[i]) < filtration_power(pool, #[trigger] pool[j])
}

/// The place of the candidate to guess next, in a pool that has one.
pub open spec fn recommended(pool: Seq<Seq<char>>) -> int {
    choose|i: int| is_recommended(pool, i)
}

/// One change that can be asked of a pool.
pub enum Operation {
    /// Narrow the pool by the feedback on a guess.
    Filter(Seq<char>, usize),
    /// Make a string a candidate.
    Add(Seq<char>),
    /// Take a candidate out.
    Remove(Seq<char>),
}

/// What `operation` does to `pool`, or why it is refused.
pub open spec fn outcome(pool: Seq<Seq<char>>, operation: Operation) -> Result<
    Seq<Seq<char>>,
    Reason,
> {
    match operation {
        Operation::Filter(guess, correctness) => filter_outcome(pool, guess, correctness),
        Operation::Add(s) => add_outcome(pool, s),
        Operation::Remove(s) => remove_outcome(pool, s),
    }
}

/// The pool after `operations` were asked of it one after the other. A
/// refused operation leaves the pool as it was.
pub open spec fn after_all(pool: Seq<Seq<char>>, operations: Seq<Operation>) -> Seq<Seq<char>>
    decreases operations.len(),
{
    if operations.len() == 0 {
        pool
    } else {
        let before = after_all(pool, operations.drop_last());
        match outcome(before, operations.last()) {
            Ok(after) => after,
            Err(_) => before,
        }
    }
}

/// The positions at which `a` and `b` both have a character, and the same
/// one.
pub open spec fn matching_positions(a: Seq<char>, b: Seq<char>) -> Set<int> {
    Set::new(|i: int| 0 <= i < a.len() && i < b.len() && a[i] == b[i])
}

/// Commonality is the number of positions at which both strings have the
/// same character.
pub proof fn lemma_commonality_counts(a: Seq<char>, b: Seq<char>)
    ensures
        matching_positions(a, b).finite(),
        commonality_of(a, b) == matching_positions(a, b).len(),
{
    let n: nat = if a.len() <= b.len() {
        a.len()
    } else {
        b.len()
    };
    lemma_matches_count(a, b, n);
    assert(matching_positions(a, b) =~= Set::new(|i: int| 0 <= i < n && a[i] == b[i]));
}

proof fn lemma_matches_count(a: Seq<char>, b: Seq<char>, n: nat)
    ensures
        Set::new(|i: int| 0 <= i < n && a[i] == b[i]).finite(),
        matches_below(a, b, n) == Set::new(|i: int| 0 <= i < n && a[i] == b[i]).len(),
    decreases n,
{
    let here = Set::new(|i: int| 0 <= i < n && a[i] == b[i]);
    if n == 0 {
        assert(here =~= Set::<int>::empty());
    } else {
        let m = (n - 1) as nat;
        let before = Set::new(|i: int| 0 <= i < m && a[i] == b[i]);
        lemma_matches_count(a, b, m);
        if a[n - 1] == b[n - 1] {
            assert(here =~= before.insert(n - 1));
        } else {
            assert(here =~= before);
        }
    }
}

/// No more positions match than the shorter string has.
pub proof fn lemma_matches_bounded(a: Seq<char>, b: Seq<char>, n: nat)
    ensures
        matches_below(a, b, n) <= n,
    decreases n,
{
    if n > 0 {
        lemma_matches_bounded(a, b, (n - 1) as nat);
    }
}

/// Commonality does not depend on which string is named first.
pub proof fn lemma_commonality_symmetric(a: Seq<char>, b: Seq<char>)
    ensures
        commonality_of(a, b) == commonality_of(b, a),
{
    let n: nat = if a.len() <= b.len() {
        a.len()
    } else {
        b.len()
    };
    lemma_matches_symmetric(a, b, n);
}

proof fn lemma_matches_symmetric(a: Seq<char>, b: Seq<char>, n: nat)
    ensures
        matches_below(a, b, n) == matches_below(b, a, n),
    decreases n,
{
    if n > 0 {
        lemma_matches_symmetric(a, b, (n - 1) as nat);
    }
}

/// Commonality is at most the length of either string.
pub proof fn lemma_commonality_bounded(a: Seq<char>, b: Seq<char>)
    ensures
        commonality_of(a, b) <= a.len(),
        commonality_of(a, b) <= b.len(),
{
    lemma_matches_bounded(
        a,
        b,
        if a.len() <= b.len() {
            a.len()
        } else {
            b.len()
        },
    );
}

/// A string has all its characters in common with itself.
pub proof fn lemma_commonality_with_itself(a: Seq<char>)
    ensures
        commonality_of(a, a) == a.len(),
{
    lemma_matches_itself(a, a.len());
}

proof fn lemma_matches_itself(a: Seq<char>, n: nat)
    ensures
        matches_below(a, a, n) == n,
    decreases n,
{
    if n > 0 {
        lemma_matches_itself(a, (n - 1) as nat);
    }
}

/// An ascending pool holds no candidate twice.
pub proof fn lemma_ascending_distinct(pool: Seq<Seq<char>>)
    requires
        ascending(pool),
    ensures
        pool.no_duplicates(),
{
    assert forall|i: int, j: int| 0 <= i < pool.len() && 0 <= j < pool.len() && i != j implies pool[i]
        != pool[j] by {
        lemma_precedes_irreflexive(pool[i]);
        if i < j {
            assert(precedes(pool[i], pool[j]));
        } else {
            assert(precedes(pool[j], pool[i]));
        }
    }
}

/// Two ascending pools that hold the same candidates are the same pool: the
/// order says nothing that the set of candidates does not.
pub proof fn lemma_ascending_canonical(p: Seq<Seq<char>>, q: Seq<Seq<char>>)
    requires
        ascending(p),
        ascending(q),
        forall|s: Seq<char>| p.contains(s) <==> q.contains(s),
    ensures
        p == q,
    decreases p.len(),
{
    if p.len() == 0 {
        if q.len() > 0 {
            assert(q.contains(q[0]));
        }
        assert(p =~= q);
    } else if q.len() == 0 {
        assert(p.contains(p[0]));
    } else {
        // Each pool ends in its greatest candidate, which is in the other too.
        let a = p.last();
        let b = q.last();
        assert(p.contains(a));
        assert(q.contains(b));
        let i = choose|i: int| 0 <= i < q.len() && q[i] == a;
        let j = choose|j: int| 0 <= j < p.len() && p[j] == b;
        if a != b {
            assert(precedes(q[i], q[q.len() - 1]));
            assert(precedes(p[j], p[p.len() - 1]));
            lemma_precedes_transitive(a, b, a);
            lemma_precedes_irreflexive(a);
        }
        let pf = p.drop_last();
        let qf = q.drop_last();
        lemma_ascending_distinct(p);
        lemma_ascending_distinct(q);
        assert forall|s: Seq<char>| pf.contains(s) <==> qf.contains(s) by {
            if pf.contains(s) {
                let k = choose|k: int| 0 <= k < pf.len() && pf[k] == s;
                assert(p[k] == s);
                assert(p.contains(s));
                let m = choose|m: int| 0 <= m < q.len() && q[m] == s;
                assert(m != q.len() - 1);
                assert(qf[m] == s);
            }
            if qf.contains(s) {
                let k = choose|k: int| 0 <= k < qf.len() && qf[k] == s;
                assert(q[k] == s);
                assert(q.contains(s));
                let m = choose|m: int| 0 <= m < p.len() && p[m] == s;
                assert(m != p.len() - 1);
                assert(pf[m] == s);
            }
        }
        lemma_ascending_canonical(pf, qf);
        assert(p =~= pf.push(a));
        assert(q =~= qf.push(b));
    }
}

/// Narrowing a pool keeps it in its canonical order.
pub proof fn lemma_survivors_ascending(pool: Seq<Seq<char>>, guess: Seq<char>, correctness: nat)
    requires
        ascending(pool),
    ensures
        ascending(survivors(pool, guess, correctness)),
    decreases pool.len(),
{
    let agrees = |c: Seq<char>| commonality_of(c, guess) == correctness;
    reveal(Seq::filter);
    if pool.len() > 0 {
        let front = pool.drop_last();
        lemma_survivors_ascending(front, guess, correctness);
        let kept = front.filter(agrees);
        assert forall|i: int| 0 <= i < kept.len() implies precedes(
            #[trigger] kept[i],
            pool.last(),
        ) by {
            front.lemma_filter_contains_rev(agrees, kept[i]);
            let k = choose|k: int| 0 <= k < front.len() && front[k] == kept[i];
            assert(precedes(pool[k], pool[pool.len() - 1]));
        }
    }
}

/// A candidate survives exactly if it shares `correctness` characters with
/// the guess.
pub proof fn lemma_survivors_are(
    pool: Seq<Seq<char>>,
    guess: Seq<char>,
    correctness: nat,
    s: Seq<char>,
)
    ensures
        survivors(pool, guess, correctness).contains(s) <==> pool.contains(s) && commonality_of(
            s,
            guess,
        ) == correctness,
{
    let agrees = |c: Seq<char>| commonality_of(c, guess) == correctness;
    let kept = pool.filter(agrees);
    if kept.contains(s) {
        pool.lemma_filter_contains_rev(agrees, s);
        let k = choose|k: int| 0 <= k < kept.len() && kept[k] == s;
        pool.lemma_filter_pred(agrees, k);
    }
    if pool.contains(s) && agrees(s) {
        let k = choose|k: int| 0 <= k < pool.len() && pool[k] == s;
        pool.lemma_filter_contains(agrees, k);
    }
}

/// Where all candidates up to `i` come before `s` and none from `i` on does,
/// `i` is the rank of `s`.
pub proof fn lemma_rank_is(pool: Seq<Seq<char>>, s: Seq<char>, i: int)
    requires
        0 <= i <= pool.len(),
        forall|j: int| 0 <= j < i ==> precedes(#[trigger] pool[j], s),
        forall|j: int| i <= j < pool.len() ==> !precedes(#[trigger] pool[j], s),
    ensures
        rank(pool, s) == i,
    decreases pool.len(),
{
    reveal(Seq::filter);
    if pool.len() > 0 {
        let front = pool.drop_last();
        if i == pool.len() {
            lemma_rank_is(front, s, i - 1);
        } else {
            lemma_rank_is(front, s, i);
        }
    }
}

/// In an ascending pool the candidates that come before `s` are the first
/// `rank(pool, s)` of them.
pub proof fn lemma_rank_splits(pool: Seq<Seq<char>>, s: Seq<char>)
    requires
        ascending(pool),
    ensures
        rank(pool, s) <= pool.len(),
        forall|j: int| 0 <= j < rank(pool, s) ==> precedes(#[trigger] pool[j], s),
        forall|j: int| rank(pool, s) <= j < pool.len() ==> !precedes(#[trigger] pool[j], s),
    decreases pool.len(),
{
    reveal(Seq::filter);
    if pool.len() > 0 {
        let front = pool.drop_last();
        let last = pool.last();
        assert forall|a: int, b: int| 0 <= a < b < front.len() implies precedes(
            #[trigger] front[a],
            #[trigger] front[b],
        ) by {
            assert(precedes(pool[a], pool[b]));
        }
        lemma_rank_splits(front, s);
        if precedes(last, s) {
            assert forall|j: int| 0 <= j < front.len() implies precedes(#[trigger] front[j], s) by {
                assert(precedes(pool[j], pool[pool.len() - 1]));
                lemma_precedes_transitive(front[j], last, s);
            }
            lemma_rank_is(front, s, front.len() as int);
            assert(rank(pool, s) == pool.len());
            assert forall|j: int| 0 <= j < rank(pool, s) implies precedes(#[trigger] pool[j], s) by {
                if j < front.len() {
                    assert(front[j] == pool[j]);
                }
            }
        } else {
            assert(rank(pool, s) == rank(front, s));
            assert forall|j: int| 0 <= j < rank(pool, s) implies precedes(#[trigger] pool[j], s) by {
                assert(front[j] == pool[j]);
            }
            assert forall|j: int| rank(pool, s) <= j < pool.len() implies !precedes(
                #[trigger] pool[j],
                s,
            ) by {
                if j < front.len() {
                    assert(front[j] == pool[j]);
                }
            }
        }
    }
}

/// A filter that every element passes keeps the sequence as it is.
proof fn lemma_filter_keeps_all(pool: Seq<Seq<char>>, passes: spec_fn(Seq<char>) -> bool)
    requires
        forall|i: int| 0 <= i < pool.len() ==> passes(#[trigger] pool[i]),
    ensures
        pool.filter(passes) == pool,
    decreases pool.len(),
{
    reveal(Seq::filter);
    if pool.len() > 0 {
        let front = pool.drop_last();
        assert forall|i: int| 0 <= i < front.len() implies passes(#[trigger] front[i]) by {
            assert(front[i] == pool[i]);
        }
        lemma_filter_keeps_all(front, passes);
        assert(pool =~= front.push(pool.last()));
    } else {
        assert(pool.filter(passes) =~= pool);
    }
}

/// A successful operation on an ascending pool leaves an ascending pool: at
/// no time does a candidate occur twice.
pub proof fn lemma_outcome_ascending(pool: Seq<Seq<char>>, operation: Operation)
    requires
        ascending(pool),
    ensures
        outcome(pool, operation) matches Ok(after) ==> ascending(after),
{
    match operation {
        Operation::Filter(guess, correctness) => {
            lemma_survivors_ascending(pool, guess, correctness as nat);
        },
        Operation::Add(s) => {
            if !pool.contains(s) {
                lemma_rank_splits(pool, s);
                let at = rank(pool, s) as int;
                let after = pool.insert(at, s);
                assert forall|a: int, b: int| 0 <= a < b < after.len() implies precedes(
                    #[trigger] after[a],
                    #[trigger] after[b],
                ) by {
                    if b == at {
                        assert(precedes(pool[a], s));
                    } else if a == at {
                        assert(pool.contains(pool[b - 1]));
                        lemma_precedes_total(pool[b - 1], s);
                    } else {
                        let x = if a < at { a } else { a - 1 };
                        let y = if b < at { b } else { b - 1 };
                        assert(precedes(pool[x], pool[y]));
                    }
                }
            }
        },
        Operation::Remove(s) => {
            if pool.contains(s) {
                let at = pool.index_of(s);
                let after = pool.remove(at);
                assert forall|a: int, b: int| 0 <= a < b < after.len() implies precedes(
                    #[trigger] after[a],
                    #[trigger] after[b],
                ) by {
                    let x = if a < at { a } else { a + 1 };
                    let y = if b < at { b } else { b + 1 };
                    assert(precedes(pool[x], pool[y]));
                }
            }
        },
    }
}

/// Feedback that is true of `secret` never costs a pool its `secret`: the
/// narrowing either keeps it or is refused because the guess is no candidate,
/// and is never refused for another reason.
pub proof fn lemma_truth_survives(
    pool: Seq<Seq<char>>,
    secret: Seq<char>,
    guess: Seq<char>,
    correctness: usize,
)
    requires
        pool.contains(secret),
        correctness == commonality_of(secret, guess),
    ensures
        match filter_outcome(pool, guess, correctness) {
            Ok(after) => after.contains(secret),
            Err(reason) => reason == Reason::UnknownCandidate(guess) && !pool.contains(guess),
        },
{
    lemma_commonality_bounded(secret, guess);
    lemma_survivors_are(pool, guess, correctness as nat, secret);
}

/// If the feedback given to every narrowing is the true correctness against
/// one `secret` that started in the pool, no sequence of narrowings removes
/// that `secret`.
pub proof fn lemma_secret_never_lost(
    pool: Seq<Seq<char>>,
    secret: Seq<char>,
    operations: Seq<Operation>,
)
    requires
        pool.contains(secret),
        forall|i: int|
            0 <= i < operations.len() ==> (#[trigger] operations[i] matches Operation::Filter(
                guess,
                correctness,
            ) && correctness == commonality_of(secret, guess)),
    ensures
        after_all(pool, operations).contains(secret),
    decreases operations.len(),
{
    if operations.len() > 0 {
        let earlier = operations.drop_last();
        assert forall|i: int| 0 <= i < earlier.len() implies (
        #[trigger] earlier[i] matches Operation::Filter(guess, correctness) && correctness
            == commonality_of(secret, guess)) by {
            assert(earlier[i] == operations[i]);
        }
        lemma_secret_never_lost(pool, secret, earlier);
        let before = after_all(pool, earlier);
        match operations.last() {
            Operation::Filter(guess, correctness) => {
                lemma_truth_survives(before, secret, guess, correctness);
            },
            _ => {},
        }
    }
}

/// Narrowing never makes a pool larger.
pub proof fn lemma_filter_shrinks(pool: Seq<Seq<char>>, guess: Seq<char>, correctness: usize)
    ensures
        filter_outcome(pool, guess, correctness) matches Ok(after) ==> after.len() <= pool.len(),
{
    pool.lemma_filter_len(|c: Seq<char>| commonality_of(c, guess) == correctness as nat);
}

/// If every candidate has the same commonality with `guess`, narrowing by
/// that commonality is accepted whenever `guess` is a candidate, and leaves
/// the pool as it was.
pub proof fn lemma_filter_without_effect(
    pool: Seq<Seq<char>>,
    guess: Seq<char>,
    correctness: usize,
)
    requires
        forall|i: int|
            0 <= i < pool.len() ==> #[trigger] commonality_of(pool[i], guess) == correctness,
    ensures
        filter_outcome(pool, guess, correctness) is Ok <==> pool.contains(guess),
        filter_outcome(pool, guess, correctness) is Ok ==> filter_outcome(
            pool,
            guess,
            correctness,
        ) == Ok::<Seq<Seq<char>>, Reason>(pool),
{
    if pool.contains(guess) {
        let at = choose|at: int| 0 <= at < pool.len() && pool[at] == guess;
        assert(commonality_of(pool[at], guess) == correctness);
        lemma_commonality_with_itself(guess);
        let agrees = |c: Seq<char>| commonality_of(c, guess) == correctness as nat;
        assert forall|i: int| 0 <= i < pool.len() implies agrees(#[trigger] pool[i]) by {
            assert(commonality_of(pool[i], guess) == correctness);
        }
        lemma_filter_keeps_all(pool, agrees);
    }
}

/// No sequence of operations empties a pool, but for one case: taking out
/// the only candidate that is left.
pub proof fn lemma_never_emptied(pool: Seq<Seq<char>>, operations: Seq<Operation>)
    requires
        pool.len() > 0,
        forall|i: int|
            0 <= i < operations.len() ==> !(#[trigger] operations[i] matches Operation::Remove(s)
                && after_all(pool, operations.take(i)) == seq![s]),
    ensures
        after_all(pool, operations).len() > 0,
    decreases operations.len(),
{
    if operations.len() > 0 {
        let earlier = operations.drop_last();
        let last = operations.len() - 1;
        assert forall|i: int| 0 <= i < earlier.len() implies !(
        #[trigger] earlier[i] matches Operation::Remove(s) && after_all(pool, earlier.take(i))
            == seq![s]) by {
            assert(earlier[i] == operations[i]);
            assert(earlier.take(i) =~= operations.take(i));
        }
        lemma_never_emptied(pool, earlier);
        let before = after_all(pool, earlier);
        assert(operations.take(last) =~= earlier);
        match operations[last] {
            Operation::Filter(guess, correctness) => {},
            Operation::Add(s) => {},
            Operation::Remove(s) => {
                if before.contains(s) && before.len() == 1 {
                    assert(before =~= seq![before[0]]);
                    assert(before == seq![s]);
                }
            },
        }
    }
}

/// Among the first `n` candidates, the first of those with the lowest
/// filtration power.
proof fn lemma_first_lowest(pool: Seq<Seq<char>>, n: int) -> (best: int)
    requires
        0 < n <= pool.len(),
    ensures
        0 <= best < n,
        forall|j: int|
            0 <= j < n ==> filtration_power(pool, pool[best]) <= filtration_power(
                pool,
                #[trigger] pool[j],
            ),
        forall|j: int|
            0 <= j < best ==> filtration_power(pool, pool[best]) < filtration_power(
                pool,
                #[trigger] pool[j],
            ),
    decreases n,
{
    if n == 1 {
        0
    } else {
        let earlier = lemma_first_lowest(pool, n - 1);
        if filtration_power(pool, pool[n - 1]) < filtration_power(pool, pool[earlier]) {
            n - 1
        } else {
            earlier
        }
    }
}

/// A pool that is not empty has exactly one recommended candidate, which is
/// one of its members. The recommendation is thus a function of the pool:
/// asking again without a change gives the same answer.
pub proof fn lemma_recommendation(pool: Seq<Seq<char>>)
    requires
        pool.len() > 0,
    ensures
        is_recommended(pool, recommended(pool)),
        pool.contains(pool[recommended(pool)]),
        forall|i: int| is_recommended(pool, i) ==> i == recommended(pool),
{
    let best = lemma_first_lowest(pool, pool.len() as int);
    assert(is_recommended(pool, best));
    let chosen = recommended(pool);
    assert forall|i: int| is_recommended(pool, i) implies i == chosen by {
        if i < chosen {
            assert(filtration_power(pool, pool[chosen]) < filtration_power(pool, pool[i]));
        } else if chosen < i {
            assert(filtration_power(pool, pool[i]) < filtration_power(pool, pool[chosen]));
        }
    }
}

} // verus!
