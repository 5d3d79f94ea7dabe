use rand::rngs::StdRng;
use rand::SeedableRng;

use word_gen::generator::generate_words;
use word_gen::reader::extract_rules;
use word_gen::rules::assoc_get;
use word_gen::verification::verify_rules;

// Corpus round-trip scenario: extracting from "aa aa aa" with depth 1 yields
// the single-letter alphabet, a (2, 2, 2) word-length envelope, and the
// continuation counts of the manual tally.
#[test]
fn extract_rules_round_trip_counts() {
    let rules = extract_rules("aa aa aa", 1).expect("extraction refused the text");

    let alphabet = assoc_get(&rules, "alphabet").expect("alphabet missing");
    assert_eq!(alphabet.len(), 1);
    assert_eq!(alphabet[0].0, "a");

    let word_length = assoc_get(&rules, "word_length").expect("word_length missing");
    assert_eq!(assoc_get(word_length, "min"), Some(&2));
    assert_eq!(assoc_get(word_length, "avg"), Some(&2));
    assert_eq!(assoc_get(word_length, "max"), Some(&2));

    // normalized text " aa aa aa ": after " " always "a"; after "a": "a"
    // three times and " " three times, with the termination slot
    // pre-registered at weight 0 for the start pattern.
    let start = assoc_get(&rules, " ").expect("start pattern missing");
    assert_eq!(assoc_get(start, " "), Some(&0));
    assert_eq!(assoc_get(start, "a"), Some(&3));
    assert_eq!(start.len(), 2);

    let a = assoc_get(&rules, "a").expect("letter pattern missing");
    assert_eq!(assoc_get(a, " "), Some(&3));
    assert_eq!(assoc_get(a, "a"), Some(&3));
    assert_eq!(a.len(), 2);

    assert_eq!(rules.len(), 4);

    // the extracted mapping passes verification and feeds generation
    assert_eq!(verify_rules(&rules), Ok(()));
    let mut rng = StdRng::seed_from_u64(1);
    let words = generate_words(&mut rng, 3, &rules).expect("Failed to generate words.");
    assert_eq!(words.split(' ').count(), 3);
}

#[test]
fn extract_rules_deeper_windows() {
    let rules = extract_rules("abab", 2).expect("extraction refused the text");
    // normalized " abab ": depth-2 patterns never span a word boundary
    let ab = assoc_get(&rules, "ab").expect("pattern missing");
    assert_eq!(assoc_get(ab, "a"), Some(&1));
    assert_eq!(assoc_get(ab, " "), Some(&1));
    let sa = assoc_get(&rules, " a").expect("pattern missing");
    assert_eq!(assoc_get(sa, "b"), Some(&1));
}

#[test]
fn extract_rules_refuses_wordless_text() {
    assert_eq!(extract_rules("123 456!", 1), None);
    assert_eq!(extract_rules("", 1), None);
}

#[test]
fn extract_rules_refuses_depth_beyond_text() {
    assert_eq!(extract_rules("ab", 20), None);
}
