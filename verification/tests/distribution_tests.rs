use wordd::classifier::classify_letters;
use wordd::distribution::{calculate_distribution_from_set, compute_tile_bag};
use wordd::language::Language;
use wordd::words::make_word;

fn chars(s: &str) -> Vec<char> {
    s.chars().collect()
}

fn get(t: &[(char, usize)], c: char) -> usize {
    t.iter().find(|p| p.0 == c).map(|p| p.1).unwrap_or(0)
}

#[test]
fn frequency_counts_folded_letters() {
    let words = vec![make_word(chars("CAFÉ")), make_word(chars("face"))];
    let freq = calculate_distribution_from_set(&words);
    assert_eq!(get(&freq, 'C'), 2);
    assert_eq!(get(&freq, 'A'), 2);
    assert_eq!(get(&freq, 'F'), 2);
    assert_eq!(get(&freq, 'É'), 1);
    assert_eq!(get(&freq, 'E'), 1);
    assert_eq!(get(&freq, 'Z'), 0);
    // Keys come out sorted and positive.
    for w in freq.windows(2) {
        assert!((w[0].0 as u32) < (w[1].0 as u32));
    }
}

#[test]
fn tile_bag_example_allocates_exactly() {
    // Frequencies A:10, B:1 with 12 tiles: the pool is 10; A gets
    // round(10/11*10) = 9, B gets max(round(10/11), 1) = 1, plus two
    // wildcards: 9 + 1 + 2 = 12 with no remainder pass needed.
    let freq = vec![('A', 10usize), ('B', 1usize)];
    let bag = compute_tile_bag(&freq, 12);
    assert_eq!(get(&bag, 'A'), 9);
    assert_eq!(get(&bag, 'B'), 1);
    assert_eq!(get(&bag, '_'), 2);
    let total: usize = bag.iter().map(|p| p.1).sum();
    assert_eq!(total, 12);
}

#[test]
fn tile_bag_total_is_exact() {
    // A leftover is distributed and an overshoot is taken back; both land on
    // the configured total exactly.
    let freq = vec![('A', 7usize), ('B', 2usize), ('C', 1usize)];
    for total_tiles in [10usize, 25, 100] {
        let bag = compute_tile_bag(&freq, total_tiles);
        let total: usize = bag.iter().map(|p| p.1).sum();
        assert_eq!(total, total_tiles);
        // Every observed letter keeps at least one tile.
        assert!(get(&bag, 'A') >= 1);
        assert!(get(&bag, 'B') >= 1);
        assert!(get(&bag, 'C') >= 1);
        assert_eq!(get(&bag, '_'), 2);
    }
}

#[test]
fn tile_bag_leftover_goes_to_frequent_letters_first() {
    // Equal rounding leaves one tile over (3+3+3 of a pool of 10); the
    // leftover cycles from the most frequent letter on, ties broken by the
    // table's ascending order, so A gets it.
    let freq = vec![('A', 1usize), ('B', 1usize), ('C', 1usize)];
    let bag = compute_tile_bag(&freq, 12);
    assert_eq!(get(&bag, 'A'), 4);
    assert_eq!(get(&bag, 'B'), 3);
    assert_eq!(get(&bag, 'C'), 3);
    assert_eq!(get(&bag, '_'), 2);
    let total: usize = bag.iter().map(|p| p.1).sum();
    assert_eq!(total, 12);
}

#[test]
fn tile_bag_never_drops_a_letter_below_one() {
    // A huge skew: the rare letters keep one tile each even when the pool is
    // too small for a proportional share.
    let freq = vec![('A', 1000usize), ('B', 1usize), ('C', 1usize)];
    let bag = compute_tile_bag(&freq, 10);
    assert!(get(&bag, 'B') >= 1);
    assert!(get(&bag, 'C') >= 1);
    let total: usize = bag.iter().map(|p| p.1).sum();
    assert_eq!(total, 10);
}

#[test]
fn tile_bag_of_empty_frequency_is_empty() {
    let bag = compute_tile_bag(&Vec::new(), 100);
    assert!(bag.is_empty());
}

#[test]
fn classify_letters_splits_and_ranks() {
    // E:5 A:3 Z:1 X:1 — the two rarest are X then Z (tie broken by letter).
    let freq = vec![('A', 3usize), ('E', 5usize), ('X', 1usize), ('Z', 1usize)];
    let (vowels, consonants, unicorns) = classify_letters(&freq, Language::English);
    assert_eq!(vowels, vec!['A', 'E', 'I', 'O', 'U']);
    assert_eq!(consonants, vec!['X', 'Z']);
    assert_eq!(unicorns, vec!['X', 'Z']);
}

#[test]
fn classify_letters_accented_vowels() {
    let freq = vec![('N', 4usize), ('Á', 2usize)];
    let (vowels, consonants, unicorns) = classify_letters(&freq, Language::Spanish);
    assert!(vowels.contains(&'Á'));
    assert_eq!(consonants, vec!['N']);
    assert_eq!(unicorns, vec!['Á', 'N']);
}
