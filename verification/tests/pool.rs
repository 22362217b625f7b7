use robco::hacker::{commonality, FilterError, Hacker};

fn pool(words: &[&str]) -> Hacker {
    Hacker::new(words.iter().map(|w| w.to_string()).collect()).expect("a pool needs a candidate")
}

fn names(hacker: &Hacker) -> Vec<&str> {
    hacker.candidates().iter().map(|s| s.as_str()).collect()
}

#[test]
fn commonality_counts_matching_positions() {
    assert_eq!(commonality("aabb", "aaaa"), 2);
    assert_eq!(commonality("aaaa", "aaaa"), 4);
    assert_eq!(commonality("abab", "aaaa"), 2);
    assert_eq!(commonality("abbb", "aaaa"), 1);
    assert_eq!(commonality("abcd", "wxyz"), 0);
}

#[test]
fn commonality_is_symmetric() {
    assert_eq!(commonality("spies", "tires"), commonality("tires", "spies"));
    assert_eq!(commonality("spies", "tires"), 2);
}

#[test]
fn commonality_stops_at_the_shorter_string() {
    assert_eq!(commonality("abc", "abcdef"), 3);
    assert_eq!(commonality("abcdef", "abc"), 3);
    assert_eq!(commonality("", "abc"), 0);
    assert_eq!(commonality("abc", ""), 0);
    assert_eq!(commonality("", ""), 0);
}

#[test]
fn commonality_compares_whole_characters() {
    // Each of these letters takes two bytes, which share their first byte.
    assert_eq!(commonality("éa", "èa"), 1);
    assert_eq!(commonality("日本語", "日本人"), 2);
    assert_eq!(commonality("aé", "éa"), 0);
}

#[test]
fn new_refuses_an_empty_list() {
    assert!(Hacker::new(Vec::new()).is_none());
}

#[test]
fn new_holds_each_candidate_once_in_ascending_order() {
    let hacker = pool(&["tires", "abab", "tires", "aabb", "abab", "Zeta"]);
    assert_eq!(names(&hacker), vec!["Zeta", "aabb", "abab", "tires"]);
}

#[test]
fn new_orders_a_prefix_before_its_extensions() {
    let hacker = pool(&["abc", "ab", "abd", "a"]);
    assert_eq!(names(&hacker), vec!["a", "ab", "abc", "abd"]);
}

#[test]
fn filter_keeps_the_candidates_that_agree_with_the_feedback() {
    let mut hacker = pool(&["aaaa", "aabb", "abab"]);
    assert_eq!(hacker.filter("aaaa", 2), Ok(()));
    // Both share two characters with the guess; the guess shares four with itself.
    assert_eq!(names(&hacker), vec!["aabb", "abab"]);
    assert_eq!(hacker.answer(), Ok(None));
}

#[test]
fn filter_down_to_the_answer() {
    let mut hacker = pool(&["aaaa", "aabb", "abbb"]);
    assert_eq!(hacker.filter("aaaa", commonality("aabb", "aaaa")), Ok(()));
    assert_eq!(names(&hacker), vec!["aabb"]);
    assert_eq!(hacker.answer(), Ok(Some("aabb")));
}

#[test]
fn filter_rejects_a_guess_that_is_no_candidate() {
    let mut hacker = pool(&["ab", "ba"]);
    assert_eq!(hacker.filter("zz", 0), Err(FilterError::UnknownCandidate("zz".to_string())));
    assert_eq!(hacker.filter("zz", 1), Err(FilterError::UnknownCandidate("zz".to_string())));
    assert_eq!(hacker.filter("zz", 7), Err(FilterError::UnknownCandidate("zz".to_string())));
    assert_eq!(names(&hacker), vec!["ab", "ba"]);
}

#[test]
fn filter_rejects_a_correctness_beyond_the_guess() {
    let mut hacker = pool(&["ab"]);
    assert_eq!(hacker.filter("ab", 3), Err(FilterError::InvalidCorrectness("ab".to_string(), 3)));
    assert_eq!(names(&hacker), vec!["ab"]);
}

#[test]
fn filter_measures_the_guess_in_characters() {
    let mut hacker = pool(&["éé", "ée"]);
    assert_eq!(hacker.filter("éé", 3), Err(FilterError::InvalidCorrectness("éé".to_string(), 3)));
    assert_eq!(hacker.filter("éé", 2), Ok(()));
    assert_eq!(names(&hacker), vec!["éé"]);
}

#[test]
fn filter_rejects_feedback_that_no_candidate_meets() {
    let mut hacker = pool(&["ab", "ba"]);
    assert_eq!(hacker.filter("ab", 1), Err(FilterError::Impossible));
    assert_eq!(names(&hacker), vec!["ab", "ba"]);
}

#[test]
fn filter_checks_the_guess_before_the_correctness() {
    let mut hacker = pool(&["ab", "ba"]);
    // Both objections apply; the first in order is given.
    assert_eq!(hacker.filter("z", 5), Err(FilterError::UnknownCandidate("z".to_string())));
    // Too large a correctness is reported as such, not as impossible.
    assert_eq!(hacker.filter("ab", 9), Err(FilterError::InvalidCorrectness("ab".to_string(), 9)));
}

#[test]
fn filter_never_loses_the_secret_under_true_feedback() {
    let words = [
        "spies", "joins", "tires", "trick", "tried", "skies", "terms", "third", "fries", "price",
        "tries", "trite", "tanks", "thick", "tribe", "texas",
    ];
    for secret in words {
        let mut hacker = pool(&words);
        for guess in words {
            let before = names(&hacker).len();
            let result = hacker.filter(guess, commonality(secret, guess));
            if result.is_err() {
                // Only a guess that has left the pool is refused.
                assert_eq!(result, Err(FilterError::UnknownCandidate(guess.to_string())));
                assert_eq!(names(&hacker).len(), before);
            }
            assert!(names(&hacker).len() <= before);
            assert!(names(&hacker).contains(&secret));
        }
        assert_eq!(hacker.answer(), Ok(Some(secret)));
    }
}

#[test]
fn filter_never_grows_the_pool() {
    let mut hacker = pool(&["fire", "five", "fine", "mine", "pack"]);
    assert_eq!(hacker.filter("fine", 3), Ok(()));
    assert_eq!(names(&hacker), vec!["fire", "five", "mine"]);
    assert_eq!(hacker.filter("fire", 3), Ok(()));
    assert_eq!(names(&hacker), vec!["five"]);
    assert_eq!(hacker.filter("five", 4), Ok(()));
    assert_eq!(names(&hacker), vec!["five"]);
}

#[test]
fn filter_that_all_candidates_pass_changes_nothing() {
    // One candidate shares all its characters with itself.
    let mut single = pool(&["abcd"]);
    assert_eq!(single.filter("abcd", 4), Ok(()));
    assert_eq!(names(&single), vec!["abcd"]);
    // So does every candidate that begins with the guess.
    let mut hacker = pool(&["ab", "abc", "abcd"]);
    assert_eq!(hacker.filter("ab", 2), Ok(()));
    assert_eq!(names(&hacker), vec!["ab", "abc", "abcd"]);
    // The same guess with other feedback is refused, and changes nothing either.
    assert_eq!(hacker.filter("ab", 1), Err(FilterError::Impossible));
    assert_eq!(names(&hacker), vec!["ab", "abc", "abcd"]);
}

#[test]
fn filter_drops_the_guess_that_was_not_fully_right() {
    let mut hacker = pool(&["ab", "ac"]);
    assert_eq!(hacker.filter("ab", 1), Ok(()));
    assert_eq!(names(&hacker), vec!["ac"]);
}

#[test]
fn clone_is_a_pool_of_its_own() {
    let mut hacker = pool(&["ab", "ac"]);
    let copy = hacker.clone();
    assert_eq!(hacker.filter("ab", 2), Ok(()));
    assert_eq!(names(&hacker), vec!["ab"]);
    assert_eq!(names(&copy), vec!["ab", "ac"]);
}

#[test]
fn filter_never_empties_the_pool() {
    let mut hacker = pool(&["ab", "ba", "cc"]);
    for correctness in 0..4 {
        for guess in ["ab", "ba", "cc", "zz"] {
            let _ = hacker.filter(guess, correctness);
            assert!(!names(&hacker).is_empty());
        }
    }
}

#[test]
fn answer_waits_for_a_single_candidate() {
    let mut hacker = pool(&["ab", "cd"]);
    assert_eq!(hacker.answer(), Ok(None));
    assert_eq!(hacker.remove("ab"), Ok(()));
    assert_eq!(hacker.answer(), Ok(Some("cd")));
}

#[test]
fn answer_of_an_emptied_pool() {
    let mut hacker = pool(&["ab"]);
    assert_eq!(hacker.remove("ab"), Ok(()));
    assert!(names(&hacker).is_empty());
    assert_eq!(hacker.answer(), Err(FilterError::EmptyPool));
    assert_eq!(hacker.recommend(), Err(FilterError::EmptyPool));
    assert_eq!(hacker.filter("ab", 2), Err(FilterError::UnknownCandidate("ab".to_string())));
}

#[test]
fn candidates_follow_every_change() {
    let mut hacker = pool(&["cd", "ab"]);
    assert_eq!(names(&hacker), vec!["ab", "cd"]);
    assert_eq!(hacker.add("bc".to_string()), Ok(()));
    assert_eq!(names(&hacker), vec!["ab", "bc", "cd"]);
    assert_eq!(names(&hacker), vec!["ab", "bc", "cd"]);
    assert_eq!(hacker.remove("ab"), Ok(()));
    assert_eq!(names(&hacker), vec!["bc", "cd"]);
}

#[test]
fn add_takes_a_new_candidate_once() {
    let mut hacker = pool(&["ab"]);
    assert_eq!(hacker.add("cd".to_string()), Ok(()));
    assert_eq!(names(&hacker), vec!["ab", "cd"]);
    assert_eq!(hacker.add("cd".to_string()), Err(FilterError::AlreadyPresent("cd".to_string())));
    assert_eq!(names(&hacker), vec!["ab", "cd"]);
}

#[test]
fn add_puts_the_candidate_at_its_place() {
    let mut hacker = pool(&["bb", "dd"]);
    assert_eq!(hacker.add("cc".to_string()), Ok(()));
    assert_eq!(hacker.add("aa".to_string()), Ok(()));
    assert_eq!(hacker.add("ee".to_string()), Ok(()));
    assert_eq!(hacker.add("b".to_string()), Ok(()));
    assert_eq!(names(&hacker), vec!["aa", "b", "bb", "cc", "dd", "ee"]);
}

#[test]
fn remove_rejects_a_string_that_is_no_candidate() {
    let mut hacker = pool(&["ab", "cd"]);
    assert_eq!(hacker.remove("xy"), Err(FilterError::UnknownCandidate("xy".to_string())));
    assert_eq!(names(&hacker), vec!["ab", "cd"]);
}

#[test]
fn remove_takes_out_one_candidate() {
    let mut hacker = pool(&["ab", "cd", "ef"]);
    assert_eq!(hacker.remove("cd"), Ok(()));
    assert_eq!(names(&hacker), vec!["ab", "ef"]);
    assert_eq!(hacker.remove("cd"), Err(FilterError::UnknownCandidate("cd".to_string())));
}

#[test]
fn recommend_picks_the_lowest_filtration_power() {
    // The powers are 11, 7, 7, 7 and 17 in this order.
    let hacker = pool(&["fine", "fire", "five", "mine", "pack"]);
    assert_eq!(hacker.recommend(), Ok("fire"));
    // Here they are 4, 4, 6 and 10.
    let other = pool(&["xyzw", "abff", "abce", "abcd"]);
    assert_eq!(other.recommend(), Ok("abcd"));
}

#[test]
fn recommend_on_a_larger_pool() {
    let hacker = pool(&[
        "spies", "joins", "tires", "trick", "tried", "skies", "terms", "third", "fries", "price",
        "tries", "trite", "tanks", "thick", "tribe", "texas",
    ]);
    // "price" has power 58, the next best, "tried", has 68.
    assert_eq!(hacker.recommend(), Ok("price"));
}

#[test]
fn recommend_breaks_ties_by_the_order_of_the_pool() {
    let hacker = pool(&["abab", "aabb", "aaaa"]);
    assert_eq!(hacker.recommend(), Ok("aaaa"));
    let two = pool(&["ba", "ab"]);
    assert_eq!(two.recommend(), Ok("ab"));
}

#[test]
fn recommend_is_a_candidate_and_stays_the_same() {
    let mut hacker = pool(&["fire", "five", "fine", "mine", "pack"]);
    loop {
        let first = hacker.recommend().map(|s| s.to_string());
        let second = hacker.recommend().map(|s| s.to_string());
        assert_eq!(first, second);
        let guess = first.expect("the pool is not empty");
        assert!(names(&hacker).contains(&guess.as_str()));
        if hacker.answer() != Ok(None) {
            break;
        }
        assert_eq!(hacker.filter(&guess, commonality("mine", &guess)), Ok(()));
    }
    assert_eq!(hacker.answer(), Ok(Some("mine")));
}

#[test]
fn recommend_of_a_single_candidate() {
    let hacker = pool(&["only"]);
    assert_eq!(hacker.recommend(), Ok("only"));
}
