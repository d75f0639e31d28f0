use scylla::corpus::{best, count_vowels, factorial, fib, gcd, is_palindrome, parse_repeat, reverse, sum_to, word_histogram, LenScorer, Scorer, VowelScorer};

#[test]
fn arithmetic_leaves() {
    assert_eq!(gcd(10, 48), 2);
    assert_eq!(gcd(48, 0), 48);
    assert_eq!(gcd(0, 7), 7);
    assert_eq!(fib(0), 0);
    assert_eq!(fib(10), 55);
    assert_eq!(fib(20), 6765);
    assert_eq!(factorial(0), 1);
    assert_eq!(factorial(10), 3628800);
    assert_eq!(factorial(25), (1..=25u64).fold(1u64, |a, b| a.wrapping_mul(b)));
    assert_eq!(sum_to(0), 0);
    assert_eq!(sum_to(10), 55);
    assert_eq!(sum_to(u32::MAX), 9223372034707292160);
}

#[test]
fn text_helpers() {
    assert_eq!(reverse("héllo"), "olléh");
    assert_eq!(count_vowels("Reverse Engineering"), 8);
    assert!(is_palindrome("never odd or even"));
    assert!(is_palindrome("A man a plan a canal Panama"));
    assert!(!is_palindrome("reverse engineering"));
    assert!(is_palindrome(""));
}

#[test]
fn repeat_counts_are_one_to_eight() {
    assert_eq!(parse_repeat(None), Ok(1));
    assert_eq!(parse_repeat(Some("3")), Ok(3));
    assert_eq!(parse_repeat(Some("0")), Err("repeat out of range".to_string()));
    assert_eq!(parse_repeat(Some("9")), Err("repeat out of range".to_string()));
    assert_eq!(parse_repeat(Some("x")), Err("bad repeat \"x\": invalid digit found in string".to_string()));
    assert_eq!(parse_repeat(Some("")), Err("bad repeat \"\": cannot parse integer from empty string".to_string()));
}

#[test]
fn the_best_scorer_wins() {
    let scorers: Vec<Box<dyn Scorer>> = vec![Box::new(LenScorer), Box::new(VowelScorer(3))];
    assert_eq!(best(&scorers, "aeiou"), 15);
    assert_eq!(best(&scorers, "xyz"), 3);
    assert_eq!(best(&[], "aeiou"), 0);
    assert_eq!(LenScorer.score("é"), 2);
}

#[test]
fn word_histogram_counts_lowercased_words_in_order() {
    let h = word_histogram("The the\tTHE  cat\n");
    assert_eq!(h, vec![("cat".to_string(), 1), ("the".to_string(), 3)]);
    let d = word_histogram("reverse engineering never odd or even");
    let keys: Vec<&str> = d.iter().map(|(k, _)| k.as_str()).collect();
    assert_eq!(keys, vec!["engineering", "even", "never", "odd", "or", "reverse"]);
    assert!(d.iter().all(|(_, n)| *n == 1));
    assert!(word_histogram("   ").is_empty());
}
