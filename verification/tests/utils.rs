use wordd::letters::compute_signature;
use wordd::matching::{contains_only_letters, count_vowels_consonants};

fn chars(s: &str) -> Vec<char> {
    s.chars().collect()
}

#[test]
fn test_count_vowels_consonants_english() {
    let english_vowels = vec!['A', 'E', 'I', 'O', 'U'];

    let (v, c) = count_vowels_consonants(&chars("hello"), &english_vowels);
    assert_eq!(v, 2); // e, o
    assert_eq!(c, 3); // h, l, l

    let (v, c) = count_vowels_consonants(&chars("AEIOU"), &english_vowels);
    assert_eq!(v, 5);
    assert_eq!(c, 0);

    let (v, c) = count_vowels_consonants(&chars("bcdfg"), &english_vowels);
    assert_eq!(v, 0);
    assert_eq!(c, 5);
}

#[test]
fn test_count_vowels_consonants_spanish() {
    let spanish_vowels = vec!['A', 'E', 'I', 'O', 'U'];

    let (v, c) = count_vowels_consonants(&chars("hola"), &spanish_vowels);
    assert_eq!(v, 2); // o, a
    assert_eq!(c, 2); // h, l
}

#[test]
fn test_count_vowels_consonants_with_accents() {
    let french_vowels = vec!['A', 'E', 'I', 'O', 'U', 'Y'];

    // Test basic vowel counting
    let (v, c) = count_vowels_consonants(&chars("bonjour"), &french_vowels);
    assert_eq!(v, 3); // o, o, u
    assert_eq!(c, 4); // b, n, j, r
}

#[test]
fn test_contains_only_letters() {
    // Word can be formed from available letters
    assert!(contains_only_letters(&chars("hello"), &chars("helloworld"))); // has all letters needed
    assert!(contains_only_letters(&chars("HELLO"), &chars("helloworld"))); // case insensitive
    assert!(contains_only_letters(&chars("hello"), &chars("HELLOWORLD"))); // case insensitive

    // Word cannot be formed - missing letters
    assert!(!contains_only_letters(&chars("hello"), &chars("hel"))); // missing 'o' and extra 'l'
    assert!(!contains_only_letters(&chars("hello"), &chars("xyz"))); // completely wrong letters

    // Word can be formed - exact match
    assert!(contains_only_letters(&chars("hello"), &chars("hello"))); // exact letters
    assert!(contains_only_letters(&chars("hello"), &chars("ollhe"))); // same letters, different order
}

#[test]
fn test_contains_only_letters_duplicates() {
    // Word requires 2 l's, available letters have 2 l's
    assert!(contains_only_letters(&chars("hello"), &chars("hheelllloo"))); // more than enough

    // Word requires 2 a's, available letters have 2 a's
    assert!(contains_only_letters(&chars("aardvark"), &chars("aardvarkxyz"))); // has enough

    // Word requires 2 l's, but only 1 'l' available
    assert!(!contains_only_letters(&chars("hello"), &chars("hewoxrld"))); // only 1 'l', needs 2

    // Word requires 3 l's, but only 2 available
    assert!(!contains_only_letters(&chars("llll"), &chars("ll"))); // needs 4, only has 2
}

#[test]
fn test_wildcards_cover_deficits() {
    // One L short without a wildcard; one blank makes up the difference.
    assert!(!contains_only_letters(&chars("HELLO"), &chars("HEWOXRLD")));
    assert!(contains_only_letters(&chars("HELLO"), &chars("HEWOXRLD_")));
    // Two blanks can stand for two different missing letters.
    assert!(contains_only_letters(&chars("CAB"), &chars("C__")));
    assert!(!contains_only_letters(&chars("CAB"), &chars("C_")));
}

#[test]
fn test_compute_signature_bits() {
    // A -> bit 0, B -> bit 1; case folded.
    assert_eq!(compute_signature(&chars("AB")), 0b11);
    assert_eq!(compute_signature(&chars("ab")), 0b11);
    // Repeats set the same bit once.
    assert_eq!(compute_signature(&chars("AAA")), 0b1);
    // Accented vowels fold to the base letter's bit.
    assert_eq!(compute_signature(&chars("É")), compute_signature(&chars("E")));
    // Ñ has a bit of its own, beyond Z.
    assert_eq!(compute_signature(&chars("ñ")), 1 << 26);
    // Unmapped characters are ignored.
    assert_eq!(compute_signature(&chars("A9-_")), 0b1);
}
