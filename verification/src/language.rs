//! The closed set of supported languages: their codes, display names, and
//! per-language vowel tables (the base five vowels plus each language's
//! accented variants, as the original tables have them).

use vstd::prelude::*;

use crate::letters::{folded, upper};
use crate::letters::fold_chars;

verus! {

/// A supported language.
#[derive(Clone, Copy, Debug, PartialEq, Eq, Structural)]
pub enum Language {
    English,
    Spanish,
    French,
    German,
}

/// The vowel table of a language.
pub open spec fn spec_vowels(lang: Language) -> Seq<char> {
    match lang {
        Language::English => seq!['A', 'E', 'I', 'O', 'U'],
        Language::Spanish => seq!['A', 'E', 'I', 'O', 'U', 'Á', 'É', 'Í', 'Ó', 'Ú'],
        Language::French => seq![
            'A', 'E', 'I', 'O', 'U', 'Y', 'À', 'Â', 'Æ', 'Ç', 'É', 'È', 'Ê', 'Ë', 'Î', 'Ï', 'Ô',
            'Œ', 'Ù', 'Û', 'Ü', 'Ÿ',
        ],
        Language::German => seq!['A', 'E', 'I', 'O', 'U', 'Ä', 'Ö', 'Ü'],
    }
}

/// The language a request's language code names, matched case-insensitively;
/// an unknown code is unsupported.
pub open spec fn spec_language_of(code: Seq<char>) -> Option<Language> {
    if folded(code) == seq!['E', 'N'] {
        Some(Language::English)
    } else if folded(code) == seq!['E', 'S'] {
        Some(Language::Spanish)
    } else if folded(code) == seq!['F', 'R'] {
        Some(Language::French)
    } else if folded(code) == seq!['D', 'E'] {
        Some(Language::German)
    } else {
        None
    }
}

/// The two-letter code of a language.
pub open spec fn spec_code(lang: Language) -> Seq<char> {
    match lang {
        Language::English => seq!['e', 'n'],
        Language::Spanish => seq!['e', 's'],
        Language::French => seq!['f', 'r'],
        Language::German => seq!['d', 'e'],
    }
}

/// The display name of a language.
pub open spec fn spec_name(lang: Language) -> Seq<char> {
    match lang {
        Language::English => seq!['E', 'n', 'g', 'l', 'i', 's', 'h'],
        Language::Spanish => seq!['E', 's', 'p', 'a', 'ñ', 'o', 'l'],
        Language::French => seq!['F', 'r', 'a', 'n', 'ç', 'a', 'i', 's'],
        Language::German => seq!['D', 'e', 'u', 't', 's', 'c', 'h'],
    }
}

/// The vowel table of a language.
pub fn language_vowels(lang: Language) -> (r: Vec<char>)
    ensures
        r@ == spec_vowels(lang),
{
    let r: Vec<char> = match lang {
        Language::English => vec!['A', 'E', 'I', 'O', 'U'],
        Language::Spanish => vec!['A', 'E', 'I', 'O', 'U', 'Á', 'É', 'Í', 'Ó', 'Ú'],
        Language::French => vec![
            'A', 'E', 'I', 'O', 'U', 'Y', 'À', 'Â', 'Æ', 'Ç', 'É', 'È', 'Ê', 'Ë', 'Î', 'Ï', 'Ô',
            'Œ', 'Ù', 'Û', 'Ü', 'Ÿ',
        ],
        Language::German => vec!['A', 'E', 'I', 'O', 'U', 'Ä', 'Ö', 'Ü'],
    };
    proof {
        assert(r@ =~= spec_vowels(lang));
    }
    r
}

/// Resolve a request's language code, case-insensitively.
pub fn language_of(code: &Vec<char>) -> (r: Option<Language>)
    ensures
        r == spec_language_of(code@),
{
    let f = fold_chars(code);
    if f.len() != 2 {
        proof {
            assert(folded(code@).len() == code@.len());
            assert(folded(code@) != seq!['E', 'N']);
            assert(folded(code@) != seq!['E', 'S']);
            assert(folded(code@) != seq!['F', 'R']);
            assert(folded(code@) != seq!['D', 'E']);
        }
        return None;
    }
    let a = f[0];
    let b = f[1];
    proof {
        assert(folded(code@) =~= seq![a, b]);
        assert(seq![a, b] == seq!['E', 'N'] <==> (a == 'E' && b == 'N')) by {
            if a == 'E' && b == 'N' {
                assert(seq![a, b] =~= seq!['E', 'N']);
            } else {
                assert(seq![a, b][0] == a && seq![a, b][1] == b);
            }
        }
        assert(seq![a, b] == seq!['E', 'S'] <==> (a == 'E' && b == 'S')) by {
            if a == 'E' && b == 'S' {
                assert(seq![a, b] =~= seq!['E', 'S']);
            } else {
                assert(seq![a, b][0] == a && seq![a, b][1] == b);
            }
        }
        assert(seq![a, b] == seq!['F', 'R'] <==> (a == 'F' && b == 'R')) by {
            if a == 'F' && b == 'R' {
                assert(seq![a, b] =~= seq!['F', 'R']);
            } else {
                assert(seq![a, b][0] == a && seq![a, b][1] == b);
            }
        }
        assert(seq![a, b] == seq!['D', 'E'] <==> (a == 'D' && b == 'E')) by {
            if a == 'D' && b == 'E' {
                assert(seq![a, b] =~= seq!['D', 'E']);
            } else {
                assert(seq![a, b][0] == a && seq![a, b][1] == b);
            }
        }
    }
    if a == 'E' && b == 'N' {
        Some(Language::English)
    } else if a == 'E' && b == 'S' {
        Some(Language::Spanish)
    } else if a == 'F' && b == 'R' {
        Some(Language::French)
    } else if a == 'D' && b == 'E' {
        Some(Language::German)
    } else {
        None
    }
}

/// The two-letter code of a language.
pub fn language_code(lang: Language) -> (r: Vec<char>)
    ensures
        r@ == spec_code(lang),
{
    let r: Vec<char> = match lang {
        Language::English => vec!['e', 'n'],
        Language::Spanish => vec!['e', 's'],
        Language::French => vec!['f', 'r'],
        Language::German => vec!['d', 'e'],
    };
    proof {
        assert(r@ =~= spec_code(lang));
    }
    r
}

/// The display name of a language.
pub fn language_name(lang: Language) -> (r: Vec<char>)
    ensures
        r@ == spec_name(lang),
{
    let r: Vec<char> = match lang {
        Language::English => vec!['E', 'n', 'g', 'l', 'i', 's', 'h'],
        Language::Spanish => vec!['E', 's', 'p', 'a', 'ñ', 'o', 'l'],
        Language::French => vec!['F', 'r', 'a', 'n', 'ç', 'a', 'i', 's'],
        Language::German => vec!['D', 'e', 'u', 't', 's', 'c', 'h'],
    };
    proof {
        assert(r@ =~= spec_name(lang));
    }
    r
}

} // verus!
