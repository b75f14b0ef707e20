use std::collections::BTreeSet;
use xoracle::all::{build_trie_importance, RankedSearch, Step};
use xoracle::{build_trie, crack, crack_non_rec, xor, xor_strings, Queries};

fn solve(cipher: &[u8], words: &[&str]) -> Option<(Vec<u8>, Vec<u8>)> {
    let trie = build_trie(words);
    crack(
        cipher,
        &trie,
        Queries::new(trie.inc_search()),
        Queries::new(trie.inc_search()),
    )
}

fn all_pairs(cipher: &[u8], words: &[&str]) -> BTreeSet<(String, String)> {
    let trie = build_trie(words);
    crack_non_rec(cipher, &trie).into_iter().collect()
}

#[test]
fn xor_of_plaintexts() {
    assert_eq!(xor(b"yes".to_vec(), b"the".to_vec()), vec![0x0d, 0x0d, 0x16]);
    assert_eq!(xor(b"ab".to_vec(), b"a".to_vec()), vec![0]);
    assert_eq!(xor_strings("yes", "the"), Some(vec![0x0d, 0x0d, 0x16]));
}

#[test]
fn xor_strings_rejects_unequal_lengths() {
    assert_eq!(xor_strings("yes", "them"), None);
    assert_eq!(xor_strings("", ""), Some(vec![]));
}

#[test]
fn empty_ciphertext_is_rejected() {
    assert_eq!(solve(&[], &["yes", "the"]), None);
    assert!(all_pairs(&[], &["yes", "the"]).is_empty());
}

#[test]
fn end_to_end_without_the_true_word() {
    let cipher = xor_strings("yes", "the").unwrap();
    let words = ["yes", "you", "cyan", "year", "bee", "ohs", "bis", "ode"];
    let (a, b) = solve(&cipher, &words).expect("a dictionary-consistent pair");
    assert_eq!(xor(a.clone(), b.clone()), cipher);
    assert!(words.contains(&std::str::from_utf8(&a).unwrap()));
    assert!(words.contains(&std::str::from_utf8(&b).unwrap()));
    assert_eq!((a, b), (b"bee".to_vec(), b"ohs".to_vec()));
}

#[test]
fn ranked_enumeration_is_exhaustive() {
    let cipher = xor_strings("yes", "the").unwrap();
    let words = ["yes", "you", "cyan", "year", "bee", "ohs", "bis", "ode"];
    let got = all_pairs(&cipher, &words);
    let want: BTreeSet<(String, String)> = [("bee", "ohs"), ("ohs", "bee"), ("bis", "ode"), ("ode", "bis")]
        .iter()
        .map(|(a, b)| (a.to_string(), b.to_string()))
        .collect();
    assert_eq!(got, want);
}

#[test]
fn round_trip_finds_a_pair() {
    let cipher = xor_strings("yes", "the").unwrap();
    let (a, b) = solve(&cipher, &["the", "yes"]).unwrap();
    assert_eq!(xor(a, b), cipher);
    let pairs = all_pairs(&cipher, &["the", "yes"]);
    assert!(pairs.contains(&("yes".to_string(), "the".to_string())));
    assert_eq!(pairs.len(), 2);
}

#[test]
fn backtracking_is_deterministic() {
    let cipher = xor_strings("a i", "i a").unwrap();
    let first = solve(&cipher, &["a", "i"]);
    for _ in 0..3 {
        assert_eq!(solve(&cipher, &["a", "i"]), first);
    }
    assert_eq!(first, Some((b"a'a".to_vec(), b"i'i".to_vec())));
}

#[test]
fn separators_join_tokens() {
    let cipher = xor_strings("a i", "i a").unwrap();
    let pairs = all_pairs(&cipher, &["a", "i"]);
    assert_eq!(pairs.len(), 20);
    for sep in ["'", "\"", " ", ",", "."] {
        assert!(pairs.contains(&(format!("a{sep}i"), format!("i{sep}a"))));
        assert!(pairs.contains(&(format!("i{sep}a"), format!("a{sep}i"))));
        assert!(pairs.contains(&(format!("a{sep}a"), format!("i{sep}i"))));
        assert!(pairs.contains(&(format!("i{sep}i"), format!("a{sep}a"))));
    }
}

#[test]
fn unfinished_word_at_the_end_is_no_solution() {
    let cipher = xor_strings("ye", "th").unwrap();
    assert_eq!(solve(&cipher, &["yes", "the"]), None);
    assert!(all_pairs(&cipher, &["yes", "the"]).is_empty());
}

#[test]
fn no_solution_is_none() {
    let cipher = xor_strings("yes", "the").unwrap();
    assert_eq!(solve(&cipher, &["you", "cyan"]), None);
    assert!(all_pairs(&cipher, &["you", "cyan"]).is_empty());
}

#[test]
fn ranked_enumeration_over_weighted_dictionary() {
    let cipher = xor_strings("yes", "the").unwrap();
    let trie = build_trie_importance(&[("bee", 2), ("ohs", 2), ("bis", 1000), ("ode", 1000)]);
    let all = crack_non_rec(&cipher, &trie);
    assert_eq!(all.len(), 4);
    for (a, b) in &all {
        assert_eq!(xor(a.as_bytes().to_vec(), b.as_bytes().to_vec()), cipher);
    }
    let set: BTreeSet<(String, String)> = all.into_iter().collect();
    assert!(set.contains(&("bis".to_string(), "ode".to_string())));
    assert!(set.contains(&("ohs".to_string(), "bee".to_string())));
}

#[test]
fn ranked_search_steps_until_exhausted() {
    let cipher = xor_strings("a", "i").unwrap();
    let trie = build_trie(&["a", "i"]);
    let mut search = RankedSearch::new(&cipher, &trie);
    let mut found = Vec::new();
    let mut steps = 0;
    loop {
        match search.step() {
            Step::Exhausted => break,
            Step::Found(a, b, _) => found.push((a, b)),
            _ => {}
        }
        steps += 1;
        assert!(steps < 100);
    }
    found.sort();
    assert_eq!(found, vec![(b"a".to_vec(), b"i".to_vec()), (b"i".to_vec(), b"a".to_vec())]);
    assert!(matches!(search.step(), Step::Exhausted));
}
