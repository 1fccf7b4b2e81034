use wordd::curation::{filter_by_min_letter_frequency, load_filtered_words, load_words};
use wordd::words::{make_word, Word};

fn chars(s: &str) -> Vec<char> {
    s.chars().collect()
}

fn lines(ls: &[&str]) -> Vec<Vec<char>> {
    ls.iter().map(|l| chars(l)).collect()
}

fn texts(ws: &[Word]) -> Vec<String> {
    ws.iter().map(|w| w.text.iter().collect()).collect()
}

#[test]
fn load_words_normalizes_and_sorts() {
    let raw = lines(&["  cat ", "DOG", "", "# a comment", "dog", "bird", "toolongword"]);
    let ws = load_words(&raw, 4);
    let got: Vec<String> = ws.iter().map(|w| w.iter().collect()).collect();
    assert_eq!(got, vec!["BIRD".to_string(), "CAT".to_string(), "DOG".to_string()]);
}

#[test]
fn deletions_always_win() {
    // "BAD" appears in the base list and the insertions, and is deleted.
    let base = lines(&["cat", "bad", "dog"]);
    let ins = lines(&["bad", "act"]);
    let del = lines(&["bad"]);
    let ws = load_filtered_words(&base, &ins, &del, 10);
    let got = texts(&ws);
    assert_eq!(got, vec!["ACT".to_string(), "CAT".to_string(), "DOG".to_string()]);
}

#[test]
fn deletions_ignore_the_length_cap() {
    // The deletion entry is longer than the cap, yet still applies; the base
    // entry of the same length was never admitted in the first place.
    let base = lines(&["cat", "dragon"]);
    let ins = lines(&["dragons"]);
    let del = lines(&["dragons"]);
    let ws = load_filtered_words(&base, &ins, &del, 3);
    assert_eq!(texts(&ws), vec!["CAT".to_string()]);
}

#[test]
fn insertions_bypass_the_noise_filter() {
    // With 100 base words, the 1% threshold is 1 distinct word, and a letter
    // appearing only in one word still passes; push the threshold to 2 by
    // checking a letter that appears nowhere else among 150 words.
    let mut base: Vec<&str> = Vec::new();
    let storage: Vec<String> = (0..150).map(|i| format!("aa{:03}", i)).collect();
    for s in &storage {
        base.push(s);
    }
    base.push("qzx");
    let base_lines = lines(&base);
    // 151 words, threshold = ceil(151/100) = 2: Q, Z and X occur in one
    // distinct word each, so "QZX" is statistical noise.
    let ws = load_filtered_words(&base_lines, &lines(&[]), &lines(&[]), 10);
    assert!(!texts(&ws).contains(&"QZX".to_string()));
    // The same word as a hand-curated insertion survives.
    let ws2 = load_filtered_words(&base_lines, &lines(&["qzx"]), &lines(&[]), 10);
    assert!(texts(&ws2).contains(&"QZX".to_string()));
}

#[test]
fn frequency_filter_keeps_supported_words() {
    let words: Vec<Word> = ["CAT", "CAR", "TAR", "QI"]
        .iter()
        .map(|s| make_word(chars(s)))
        .collect();
    // 4 words, threshold at 25 percent = ceil(4*25/100) = 1 word: everything
    // stays.
    let kept = filter_by_min_letter_frequency(
        words.iter().map(|w| make_word(w.text.clone())).collect(),
        25,
    );
    assert_eq!(kept.len(), 4);
    // Threshold at 50 percent = 2 distinct words per letter: Q and I appear
    // in one word only, so "QI" goes; every letter of the others appears in
    // two words.
    let kept = filter_by_min_letter_frequency(words, 50);
    assert_eq!(texts(&kept), vec!["CAT".to_string(), "CAR".to_string(), "TAR".to_string()]);
}

#[test]
fn missing_sources_degrade_gracefully() {
    // No base lexicon at all: the insertions still build a lexicon, and a
    // fully empty language yields an empty lexicon rather than an error.
    let ws = load_filtered_words(&lines(&[]), &lines(&["ok"]), &lines(&[]), 10);
    assert_eq!(texts(&ws), vec!["OK".to_string()]);
    let empty = load_filtered_words(&lines(&[]), &lines(&[]), &lines(&[]), 10);
    assert!(empty.is_empty());
}
