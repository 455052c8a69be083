use anagram::chars::{
    add_chars, chars_empty, chars_eq, contains_chars, count_chars, subtract_chars,
};
use anagram::dict::{build_index, sorted_key_chars};
use anagram::metrics::sat_add64;
use anagram::permute::permutate_anagram_sorted;
use anagram::search::{run_branch, search_anagram_phrases};

fn digest_of(text: &str) -> Vec<u8> {
    md5::compute(text.as_bytes()).0.to_vec()
}

#[test]
fn count_chars_ignores_spaces() {
    let a = count_chars("a b c");
    let b = count_chars("abc");
    assert!(chars_eq(&a, &b));
    assert!(chars_empty(&count_chars("")));
    assert!(chars_empty(&count_chars("   ")));
    assert!(!chars_empty(&count_chars("x")));
}

#[test]
fn subtract_then_add_restores() {
    let original = count_chars("banana");
    let delta = count_chars("ban");
    let mut working = original.duplicate();
    assert!(contains_chars(&working, &delta));
    assert!(subtract_chars(&mut working, &delta));
    assert!(!chars_eq(&working, &original));
    add_chars(&mut working, &delta);
    assert!(chars_eq(&working, &original));
}

#[test]
fn failed_subtract_changes_nothing() {
    let original = count_chars("banana");
    let delta = count_chars("zz");
    let mut working = original.duplicate();
    assert!(!contains_chars(&working, &delta));
    assert!(!subtract_chars(&mut working, &delta));
    assert!(chars_eq(&working, &original));
}

#[test]
fn contains_is_reflexive_and_transitive() {
    let a = count_chars("aabbcc");
    let b = count_chars("abbc");
    let c = count_chars("ab");
    assert!(contains_chars(&a, &a));
    assert!(contains_chars(&b, &b));
    assert!(contains_chars(&a, &b));
    assert!(contains_chars(&b, &c));
    assert!(contains_chars(&a, &c));
}

#[test]
fn permutations_of_three_positions() {
    let mut chosen: Vec<usize> = vec![10, 20, 30];
    let mut out: Vec<Vec<usize>> = Vec::new();
    permutate_anagram_sorted(&mut chosen, 0, &mut out);
    assert_eq!(chosen, vec![10, 20, 30]);
    assert_eq!(out.len(), 6);
    for ordering in &out {
        let mut sorted = ordering.clone();
        sorted.sort();
        assert_eq!(sorted, vec![10, 20, 30]);
    }
    for i in 0..out.len() {
        for j in (i + 1)..out.len() {
            assert_ne!(out[i], out[j]);
        }
    }
}

#[test]
fn permutations_of_one_position() {
    let mut chosen: Vec<usize> = vec![7];
    let mut out: Vec<Vec<usize>> = Vec::new();
    permutate_anagram_sorted(&mut chosen, 0, &mut out);
    assert_eq!(chosen, vec![7]);
    assert_eq!(out.len(), 1);
    assert_eq!(out[0], vec![7]);
}

#[test]
fn sorted_keys_group_anagrams() {
    let listen = sorted_key_chars(&"listen".chars().collect::<Vec<char>>());
    let silent = sorted_key_chars(&"silent".chars().collect::<Vec<char>>());
    assert_eq!(listen, silent);
    let words: Vec<String> = vec![
        "listen".to_string(),
        "silent".to_string(),
        "enlist".to_string(),
        "banana".to_string(),
    ];
    let index = build_index(&words);
    assert_eq!(index.len(), 2);
}

#[test]
fn checksum_matching_is_deterministic() {
    let words: Vec<String> = vec!["a".to_string()];
    let index = build_index(&words);
    let target = count_chars("aa");
    let checksums = vec![digest_of("a a")];
    let first = search_anagram_phrases(&target, &index, &checksums);
    let second = search_anagram_phrases(&target, &index, &checksums);
    assert_eq!(first.anagram_phrase_solution.len(), 1);
    assert_eq!(second.anagram_phrase_solution.len(), 1);
    assert_eq!(
        first.anagram_phrase_solution[0].anagram_phrase_checksum,
        second.anagram_phrase_solution[0].anagram_phrase_checksum
    );
    assert_eq!(
        first.anagram_phrase_solution[0].anagram_phrase,
        second.anagram_phrase_solution[0].anagram_phrase
    );
}

#[test]
fn end_to_end_abc() {
    let words: Vec<String> = vec!["a".to_string(), "bc".to_string(), "cb".to_string()];
    let index = build_index(&words);
    let target = count_chars("abc");
    let checksums = vec![digest_of("a bc")];
    let metrics = search_anagram_phrases(&target, &index, &checksums);
    assert_eq!(metrics.anagram_phrase_solution.len(), 1);
    assert_eq!(metrics.anagram_phrase_solution[0].anagram_phrase, "a bc");
    assert_eq!(
        metrics.anagram_phrase_solution[0].anagram_phrase_checksum,
        digest_of("a bc")
    );
    assert_eq!(metrics.anagram_phrase_max_depth, 2);
    assert_eq!(metrics.anagram_phrases_found, 4);
    assert_eq!(metrics.anagram_phrases_incomplete, 1);
    assert_eq!(metrics.anagram_roots_exhausted, 1);
    assert!(metrics.is_done);
}

#[test]
fn end_to_end_repeated_key() {
    let words: Vec<String> = vec!["a".to_string()];
    let index = build_index(&words);
    let target = count_chars("aa");
    let checksums = vec![digest_of("a a")];
    let metrics = search_anagram_phrases(&target, &index, &checksums);
    assert_eq!(metrics.anagram_phrase_solution.len(), 1);
    assert_eq!(metrics.anagram_phrase_solution[0].anagram_phrase, "a a");
    assert_eq!(metrics.anagram_phrases_found, 2);
    assert_eq!(metrics.anagram_phrases_incomplete, 0);
    assert_eq!(metrics.anagram_phrase_max_depth, 2);
    assert!(metrics.is_done);
}

#[test]
fn end_to_end_empty_target_set() {
    let words: Vec<String> = vec!["a".to_string(), "bc".to_string(), "cb".to_string()];
    let index = build_index(&words);
    let target = count_chars("abc");
    let checksums: Vec<Vec<u8>> = Vec::new();
    let metrics = search_anagram_phrases(&target, &index, &checksums);
    assert_eq!(metrics.anagram_phrase_solution.len(), 0);
    assert_eq!(metrics.anagram_roots_exhausted, 2);
    assert_eq!(metrics.anagram_phrases_found, 4);
    assert_eq!(metrics.anagram_phrases_incomplete, 2);
    assert!(!metrics.is_done);
}

#[test]
fn branch_skips_oversized_root() {
    let words: Vec<String> = vec!["xyz".to_string(), "ab".to_string()];
    let index = build_index(&words);
    let target = count_chars("ab");
    let checksums = vec![digest_of("ab")];
    // keys stand in length-descending order: "xyz" first, then "ab"
    assert!(run_branch(&target, &index, &checksums, 0).is_none());
    let branch = run_branch(&target, &index, &checksums, 1);
    assert!(branch.is_some());
    let metrics = branch.unwrap();
    assert!(metrics.is_done);
    assert_eq!(metrics.anagram_phrase_solution.len(), 1);
    assert_eq!(metrics.anagram_phrase_solution[0].anagram_phrase, "ab");
}

#[test]
fn duplicate_words_kept_once_and_both_targets_found() {
    let words: Vec<String> = vec!["ab".to_string(), "ab".to_string(), "ba".to_string()];
    let index = build_index(&words);
    assert_eq!(index.len(), 1);
    let target = count_chars("ab");
    let checksums = vec![digest_of("ab"), digest_of("ba")];
    let metrics = search_anagram_phrases(&target, &index, &checksums);
    assert_eq!(metrics.anagram_phrase_solution.len(), 2);
    let mut phrases: Vec<String> = metrics
        .anagram_phrase_solution
        .iter()
        .map(|s| s.anagram_phrase.clone())
        .collect();
    phrases.sort();
    assert_eq!(phrases, vec!["ab".to_string(), "ba".to_string()]);
    assert!(metrics.is_done);
}

#[test]
fn empty_dictionary_finds_nothing() {
    let words: Vec<String> = Vec::new();
    let index = build_index(&words);
    assert_eq!(index.len(), 0);
    let target = count_chars("abc");
    let checksums = vec![digest_of("abc")];
    let metrics = search_anagram_phrases(&target, &index, &checksums);
    assert_eq!(metrics.anagram_phrase_solution.len(), 0);
    assert_eq!(metrics.anagram_roots_exhausted, 0);
    assert!(!metrics.is_done);
}

#[test]
fn words_without_letters_are_ignored() {
    let words: Vec<String> = vec!["".to_string(), "   ".to_string(), "a".to_string()];
    let index = build_index(&words);
    assert_eq!(index.len(), 1);
}

#[test]
fn counters_saturate() {
    assert_eq!(sat_add64(u64::MAX, 5), u64::MAX);
    assert_eq!(sat_add64(3, 4), 7);
    assert_eq!(sat_add64(u64::MAX - 1, 1), u64::MAX);
}

#[test]
fn count_chars_ignores_all_whitespace() {
    let a = count_chars("a\tb\nc\r d");
    let b = count_chars("abcd");
    assert!(chars_eq(&a, &b));
    assert!(chars_empty(&count_chars(" \t\r\n")));
}

#[test]
fn keys_are_canonical_across_whitespace() {
    let words: Vec<String> = vec!["ab".to_string(), "b a".to_string()];
    let index = build_index(&words);
    assert_eq!(index.len(), 1);
    let target = count_chars("ab");
    let checksums = vec![digest_of("ab"), digest_of("b a")];
    let metrics = search_anagram_phrases(&target, &index, &checksums);
    let mut phrases: Vec<String> = metrics
        .anagram_phrase_solution
        .iter()
        .map(|s| s.anagram_phrase.clone())
        .collect();
    phrases.sort();
    assert_eq!(phrases, vec!["ab".to_string(), "b a".to_string()]);
}
