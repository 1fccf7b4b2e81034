//! Character-level model: the alphabet the service understands, uppercase
//! folding, letter-presence signatures, and occurrence counting.
//!
//! The service covers the Latin alphabets of its supported languages: the
//! ASCII letters plus the accented letters that appear in the per-language
//! vowel tables and in the signature folding rules. Characters outside this
//! closed alphabet pass through unchanged and are not counted as letters.

use vstd::prelude::*;

verus! {

/// Uppercase fold for the supported alphabet; identity on everything else.
pub open spec fn upper(c: char) -> char {
    match c {
        'a' => 'A', 'b' => 'B', 'c' => 'C', 'd' => 'D', 'e' => 'E',
        'f' => 'F', 'g' => 'G', 'h' => 'H', 'i' => 'I', 'j' => 'J',
        'k' => 'K', 'l' => 'L', 'm' => 'M', 'n' => 'N', 'o' => 'O',
        'p' => 'P', 'q' => 'Q', 'r' => 'R', 's' => 'S', 't' => 'T',
        'u' => 'U', 'v' => 'V', 'w' => 'W', 'x' => 'X', 'y' => 'Y',
        'z' => 'Z',
        'á' => 'Á', 'à' => 'À', 'â' => 'Â', 'ä' => 'Ä', 'æ' => 'Æ',
        'é' => 'É', 'è' => 'È', 'ê' => 'Ê', 'ë' => 'Ë',
        'í' => 'Í', 'ì' => 'Ì', 'î' => 'Î', 'ï' => 'Ï',
        'ó' => 'Ó', 'ò' => 'Ò', 'ô' => 'Ô', 'ö' => 'Ö', 'œ' => 'Œ',
        'ú' => 'Ú', 'ù' => 'Ù', 'û' => 'Û', 'ü' => 'Ü',
        'ñ' => 'Ñ', 'ç' => 'Ç', 'ÿ' => 'Ÿ',
        _ => c,
    }
}

/// The uppercase letters of the supported alphabet.
pub open spec fn is_upper_letter(c: char) -> bool {
    ('A' <= c && c <= 'Z') || match c {
        'Á' | 'À' | 'Â' | 'Ä' | 'Æ' | 'É' | 'È' | 'Ê' | 'Ë' | 'Í' | 'Ì' | 'Î'
            | 'Ï' | 'Ó' | 'Ò' | 'Ô' | 'Ö' | 'Œ' | 'Ú' | 'Ù' | 'Û' | 'Ü' | 'Ñ'
            | 'Ç' | 'Ÿ' | 'ß' => true,
        _ => false,
    }
}

/// A character that counts as a letter, in either case.
pub open spec fn is_letter(c: char) -> bool {
    is_upper_letter(upper(c))
}

/// Uppercase fold of a whole text.
pub open spec fn folded(s: Seq<char>) -> Seq<char> {
    s.map_values(|c: char| upper(c))
}

/// Signature bit of an uppercase character: `A`..`Z` map to bits 0..25,
/// accented vowels and `Ç`/`ß` fold to their base letter's bit, and `Ñ` gets
/// bit 26 of its own. Characters without a bit are ignored by signatures.
pub open spec fn sig_bit(c: char) -> Option<u32> {
    if 'A' <= c && c <= 'Z' {
        Some((c as u32 - 'A' as u32) as u32)
    } else {
        match c {
            'Á' | 'À' | 'Â' | 'Ä' | 'Æ' => Some(0u32),
            'É' | 'È' | 'Ê' | 'Ë' => Some(4u32),
            'Í' | 'Ì' | 'Î' | 'Ï' => Some(8u32),
            'Ó' | 'Ò' | 'Ô' | 'Ö' | 'Œ' => Some(14u32),
            'Ú' | 'Ù' | 'Û' | 'Ü' => Some(20u32),
            'Ñ' => Some(26u32),
            'Ç' => Some(2u32),
            'ß' => Some(18u32),
            _ => None,
        }
    }
}

/// Letter-presence bitmask of a text: the union of the signature bits of its
/// uppercase-folded characters.
pub open spec fn sig_of(s: Seq<char>) -> u32
    decreases s.len(),
{
    if s.len() == 0 {
        0u32
    } else {
        sig_of(s.drop_last()) | match sig_bit(upper(s.last())) {
            Some(b) => 1u32 << b,
            None => 0u32,
        }
    }
}

/// Occurrences of `c` in `s`.
pub open spec fn count_of(s: Seq<char>, c: char) -> nat
    decreases s.len(),
{
    if s.len() == 0 {
        0
    } else {
        count_of(s.drop_last(), c) + if s.last() == c { 1nat } else { 0nat }
    }
}

/// Two characters are equal exactly when their Unicode scalar values are.
pub proof fn char_code_inj(x: char, y: char)
    ensures
        (x as u32 == y as u32) <==> x == y,
{
}

/// Uppercase fold for the supported alphabet; identity on everything else.
pub fn upper_char(c: char) -> (r: char)
    ensures
        r == upper(c),
{
    match c {
        'a' => 'A', 'b' => 'B', 'c' => 'C', 'd' => 'D', 'e' => 'E',
        'f' => 'F', 'g' => 'G', 'h' => 'H', 'i' => 'I', 'j' => 'J',
        'k' => 'K', 'l' => 'L', 'm' => 'M', 'n' => 'N', 'o' => 'O',
        'p' => 'P', 'q' => 'Q', 'r' => 'R', 's' => 'S', 't' => 'T',
        'u' => 'U', 'v' => 'V', 'w' => 'W', 'x' => 'X', 'y' => 'Y',
        'z' => 'Z',
        'á' => 'Á', 'à' => 'À', 'â' => 'Â', 'ä' => 'Ä', 'æ' => 'Æ',
        'é' => 'É', 'è' => 'È', 'ê' => 'Ê', 'ë' => 'Ë',
        'í' => 'Í', 'ì' => 'Ì', 'î' => 'Î', 'ï' => 'Ï',
        'ó' => 'Ó', 'ò' => 'Ò', 'ô' => 'Ô', 'ö' => 'Ö', 'œ' => 'Œ',
        'ú' => 'Ú', 'ù' => 'Ù', 'û' => 'Û', 'ü' => 'Ü',
        'ñ' => 'Ñ', 'ç' => 'Ç', 'ÿ' => 'Ÿ',
        _ => c,
    }
}

/// Whether `c` counts as a letter of the supported alphabet, in either case.
pub fn is_letter_char(c: char) -> (r: bool)
    ensures
        r == is_letter(c),
{
    let u = upper_char(c);
    ('A' <= u && u <= 'Z') || match u {
        'Á' | 'À' | 'Â' | 'Ä' | 'Æ' | 'É' | 'È' | 'Ê' | 'Ë' | 'Í' | 'Ì' | 'Î'
            | 'Ï' | 'Ó' | 'Ò' | 'Ô' | 'Ö' | 'Œ' | 'Ú' | 'Ù' | 'Û' | 'Ü' | 'Ñ'
            | 'Ç' | 'Ÿ' | 'ß' => true,
        _ => false,
    }
}

/// Uppercase fold of a whole text.
pub fn fold_chars(s: &Vec<char>) -> (r: Vec<char>)
    ensures
        r@ == folded(s@),
{
    let mut r: Vec<char> = Vec::new();
    let mut i: usize = 0;
    while i < s.len()
        invariant
            i <= s@.len(),
            r@ == folded(s@).take(i as int),
        decreases s@.len() - i,
    {
        r.push(upper_char(s[i]));
        i = i + 1;
        proof {
            assert(r@ =~= folded(s@).take(i as int));
        }
    }
    proof {
        assert(r@ =~= folded(s@));
    }
    r
}

/// Signature bit of an uppercase character, if it has one.
fn sig_bit_char(c: char) -> (r: Option<u32>)
    ensures
        r == sig_bit(c),
        r is Some ==> r->0 < 27,
{
    if 'A' <= c && c <= 'Z' {
        Some(c as u32 - 'A' as u32)
    } else {
        match c {
            'Á' | 'À' | 'Â' | 'Ä' | 'Æ' => Some(0u32),
            'É' | 'È' | 'Ê' | 'Ë' => Some(4u32),
            'Í' | 'Ì' | 'Î' | 'Ï' => Some(8u32),
            'Ó' | 'Ò' | 'Ô' | 'Ö' | 'Œ' => Some(14u32),
            'Ú' | 'Ù' | 'Û' | 'Ü' => Some(20u32),
            'Ñ' => Some(26u32),
            'Ç' => Some(2u32),
            'ß' => Some(18u32),
            _ => None,
        }
    }
}

/// Compute the letter-presence bitmask of a text (word or rack), folding each
/// character to uppercase first.
pub fn compute_signature(text: &Vec<char>) -> (r: u32)
    ensures
        r == sig_of(text@),
{
    let mut sig: u32 = 0;
    let mut i: usize = 0;
    while i < text.len()
        invariant
            i <= text@.len(),
            sig == sig_of(text@.take(i as int)),
        decreases text@.len() - i,
    {
        let u = upper_char(text[i]);
        let ghost prev = sig;
        let ob = sig_bit_char(u);
        if let Some(b) = ob {
            sig = sig | (1u32 << b);
        }
        proof {
            assert(text@.take(i as int + 1).drop_last() =~= text@.take(i as int));
            assert(text@.take(i as int + 1).last() == text@[i as int]);
            if ob is None {
                assert(prev | 0u32 == prev) by (bit_vector);
            }
        }
        i = i + 1;
    }
    proof {
        assert(text@.take(text@.len() as int) =~= text@);
    }
    sig
}

/// Whether `s` holds the character `c`.
pub fn contains_char(s: &Vec<char>, c: char) -> (r: bool)
    ensures
        r == s@.contains(c),
{
    let mut i: usize = 0;
    while i < s.len()
        invariant
            i <= s@.len(),
            forall|j: int| 0 <= j < i ==> s@[j] != c,
        decreases s@.len() - i,
    {
        if s[i] == c {
            return true;
        }
        i = i + 1;
    }
    proof {
        if s@.contains(c) {
            let k = choose|k: int| 0 <= k < s@.len() && s@[k] == c;
            assert(false);
        }
    }
    false
}

/// Copy a text.
pub fn clone_chars(s: &Vec<char>) -> (r: Vec<char>)
    ensures
        r@ == s@,
{
    let mut r: Vec<char> = Vec::new();
    let mut i: usize = 0;
    while i < s.len()
        invariant
            i <= s@.len(),
            r@ == s@.take(i as int),
        decreases s@.len() - i,
    {
        r.push(s[i]);
        i = i + 1;
        proof {
            assert(r@ =~= s@.take(i as int));
        }
    }
    proof {
        assert(s@.take(s@.len() as int) =~= s@);
    }
    r
}

/// A character is absent exactly when it is never counted.
pub proof fn lemma_count_zero(s: Seq<char>, c: char)
    ensures
        count_of(s, c) == 0 <==> !s.contains(c),
    decreases s.len(),
{
    if s.len() > 0 {
        lemma_count_zero(s.drop_last(), c);
        if s.contains(c) {
            let k = choose|k: int| 0 <= k < s.len() && s[k] == c;
            if k < s.len() - 1 {
                assert(s.drop_last()[k] == c);
            }
        } else {
            assert(!s.drop_last().contains(c)) by {
                if s.drop_last().contains(c) {
                    let k = choose|k: int| 0 <= k < s.drop_last().len() && s.drop_last()[k] == c;
                    assert(s[k] == c);
                }
            }
        }
    }
}

/// Occurrences of `c` in `s`.
pub fn count_char(s: &Vec<char>, c: char) -> (r: usize)
    ensures
        r == count_of(s@, c),
{
    let mut n: usize = 0;
    let mut i: usize = 0;
    while i < s.len()
        invariant
            i <= s@.len(),
            n == count_of(s@.take(i as int), c),
            n <= i,
        decreases s@.len() - i,
    {
        if s[i] == c {
            n = n + 1;
        }
        i = i + 1;
        proof {
            assert(s@.take(i as int).drop_last() =~= s@.take(i - 1));
            assert(s@.take(i as int).last() == s@[i - 1]);
        }
    }
    proof {
        assert(s@.take(s@.len() as int) =~= s@);
    }
    n
}

} // verus!
