use wordd::language::{language_of, Language};
use wordd::sampler::{find_matching_words, select_random_words_with_constraints, WordConstraints};
use wordd::service::{add_language, app_state_new, build_language, build_profile, check_word,
    get_config, get_langs, rand_consonant, rand_letter, rand_unicorn, rand_vowel, rand_word,
    RandQuery};
use wordd::words::make_word;

fn chars(s: &str) -> Vec<char> {
    s.chars().collect()
}

fn lines(ls: &[&str]) -> Vec<Vec<char>> {
    ls.iter().map(|l| chars(l)).collect()
}

fn text(cs: &[char]) -> String {
    cs.iter().collect()
}

fn english_state() -> wordd::service::AppState {
    let profile = build_language(
        &lines(&["cat", "dog", "act", "hello"]),
        &lines(&[]),
        &lines(&[]),
        Language::English,
        15,
        100,
    );
    let mut state = app_state_new();
    add_language(&mut state, Language::English, profile);
    state
}

#[test]
fn exact_filter_yields_exactly_the_formable_words() {
    // Lexicon {"CAT","DOG","ACT"}, rack "CTA", no minima: exactly CAT and
    // ACT match, and sampling two words only ever returns members.
    let words = vec![make_word(chars("CAT")), make_word(chars("DOG")), make_word(chars("ACT"))];
    let constraints = WordConstraints {
        letters: Some(chars("CTA")),
        min_vowels: None,
        min_consonants: None,
        vowels: vec!['A', 'E', 'I', 'O', 'U'],
    };
    let matches = find_matching_words(&words, &constraints);
    let got: Vec<String> = matches.iter().map(|w| text(w)).collect();
    assert_eq!(got, vec!["CAT".to_string(), "ACT".to_string()]);

    for _ in 0..20 {
        let picked = select_random_words_with_constraints(&words, 2, &constraints);
        assert_eq!(picked.len(), 2);
        for w in &picked {
            let t = text(w);
            assert!(t == "CAT" || t == "ACT");
        }
    }
}

#[test]
fn sampling_empty_candidates_returns_nothing() {
    let words = vec![make_word(chars("CAT")), make_word(chars("DOG"))];
    let constraints = WordConstraints {
        letters: Some(chars("ZZZ")),
        min_vowels: None,
        min_consonants: None,
        vowels: vec!['A', 'E', 'I', 'O', 'U'],
    };
    let picked = select_random_words_with_constraints(&words, 5, &constraints);
    assert!(picked.is_empty());
}

#[test]
fn structural_minima_filter_words() {
    let words = vec![make_word(chars("AREA")), make_word(chars("STRenGTH"))];
    let constraints = WordConstraints {
        letters: None,
        min_vowels: Some(3),
        min_consonants: None,
        vowels: vec!['A', 'E', 'I', 'O', 'U'],
    };
    let matches = find_matching_words(&words, &constraints);
    assert_eq!(matches.len(), 1);
    assert_eq!(text(&matches[0]), "AREA");
    let constraints = WordConstraints {
        letters: None,
        min_vowels: None,
        min_consonants: Some(6),
        vowels: vec!['A', 'E', 'I', 'O', 'U'],
    };
    let matches = find_matching_words(&words, &constraints);
    assert_eq!(matches.len(), 1);
    assert_eq!(text(&matches[0]), "STRenGTH");
}

#[test]
fn language_codes_resolve_case_insensitively() {
    assert_eq!(language_of(&chars("en")), Some(Language::English));
    assert_eq!(language_of(&chars("ES")), Some(Language::Spanish));
    assert_eq!(language_of(&chars("Fr")), Some(Language::French));
    assert_eq!(language_of(&chars("de")), Some(Language::German));
    assert_eq!(language_of(&chars("it")), None);
    assert_eq!(language_of(&chars("eng")), None);
}

#[test]
fn unsupported_language_is_distinguishable() {
    let state = english_state();
    assert!(rand_letter(&state, Language::French, 3).is_none());
    assert!(check_word(&state, Language::French, &chars("cat")).is_none());
    assert!(get_config(&state, Language::French).is_none());
    let q = RandQuery { count: None, letters: None, min_vowels: None, min_consonants: None };
    assert!(rand_word(&state, Language::French, &q).is_none());
}

#[test]
fn membership_checks_fold_case() {
    let state = english_state();
    assert_eq!(check_word(&state, Language::English, &chars("cat")), Some(true));
    assert_eq!(check_word(&state, Language::English, &chars("CAT")), Some(true));
    assert_eq!(check_word(&state, Language::English, &chars("zebra")), Some(false));
}

#[test]
fn random_draws_come_from_the_profile() {
    let state = english_state();
    let letters = rand_letter(&state, Language::English, 8).unwrap();
    assert_eq!(letters.len(), 8);
    for c in &letters {
        assert!(c.is_ascii_uppercase());
        assert_ne!(*c, '_');
    }
    let vowels = rand_vowel(&state, Language::English, 5).unwrap();
    assert_eq!(vowels.len(), 5);
    for c in &vowels {
        assert!("AEIOU".contains(*c));
    }
    let consonants = rand_consonant(&state, Language::English, 5).unwrap();
    for c in &consonants {
        assert!(!"AEIOU".contains(*c));
    }
    let unicorns = rand_unicorn(&state, Language::English, 4).unwrap();
    assert_eq!(unicorns.len(), 4);
}

#[test]
fn rand_word_respects_rack_constraints() {
    let state = english_state();
    let q = RandQuery {
        count: Some(3),
        letters: Some(chars("CTA")),
        min_vowels: None,
        min_consonants: None,
    };
    let words = rand_word(&state, Language::English, &q).unwrap();
    assert_eq!(words.len(), 3);
    for w in &words {
        let t = text(w);
        assert!(t == "CAT" || t == "ACT");
    }
}

#[test]
fn config_reports_the_whole_profile() {
    let state = english_state();
    let cfg = get_config(&state, Language::English).unwrap();
    assert_eq!(cfg.word_count, 4);
    let total: usize = cfg.bag.iter().map(|p| p.1).sum();
    assert_eq!(total, 100);
    assert_eq!(cfg.vowels, vec!['A', 'E', 'I', 'O', 'U']);
    assert_eq!(cfg.unicorns.len(), 2);
    for u in &cfg.unicorns {
        assert_eq!(u.1, 10);
    }
    assert_eq!(cfg.tiles, cfg.bag);
}

#[test]
fn get_langs_lists_registered_languages() {
    let mut state = app_state_new();
    let empty = build_profile(Vec::new(), Language::Spanish, 100);
    add_language(&mut state, Language::Spanish, empty);
    let infos = get_langs(&state);
    assert_eq!(infos.len(), 1);
    assert_eq!(text(&infos[0].code), "es");
    assert_eq!(text(&infos[0].name), "Español");
}
