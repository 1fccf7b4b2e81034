//! Rack matching: whether a word can be formed from a rack of available
//! letters (with `_` wildcards), and vowel/consonant counting against a
//! language's vowel table.

use vstd::prelude::*;

use crate::distribution::letter_count_text;
use crate::letters::{count_of, folded, is_letter, sig_bit, sig_of, upper};
use crate::letters::{contains_char, count_char, fold_chars, is_letter_char, upper_char};

verus! {

/// How many wildcards the word needs beyond the rack's letters: the number
/// of letter positions in the word whose occurrence index (counting equal
/// letters from the front, case-folded) exceeds the rack's supply of that
/// letter. Wildcards are fungible, so this single count decides formability.
pub open spec fn deficit(word: Seq<char>, rack: Seq<char>) -> nat
    decreases word.len(),
{
    if word.len() == 0 {
        0
    } else {
        deficit(word.drop_last(), rack) + if is_letter(word.last()) && letter_count_text(
            word,
            upper(word.last()),
        ) > letter_count_text(rack, upper(word.last())) {
            1nat
        } else {
            0nat
        }
    }
}

/// Whether the word can be formed from the rack: every letter deficit is
/// covered by the rack's wildcards. Characters outside the alphabet demand
/// nothing and supply nothing.
pub open spec fn can_form(word: Seq<char>, rack: Seq<char>) -> bool {
    deficit(word, rack) <= count_of(rack, '_')
}

/// Letters of the word (case-folded) that belong to the vowel table.
pub open spec fn vowel_count(s: Seq<char>, vowels: Seq<char>) -> nat
    decreases s.len(),
{
    if s.len() == 0 {
        0
    } else {
        vowel_count(s.drop_last(), vowels) + if is_letter(s.last()) && folded(vowels).contains(
            upper(s.last()),
        ) {
            1nat
        } else {
            0nat
        }
    }
}

/// Letters of the word (case-folded) outside the vowel table.
pub open spec fn consonant_count(s: Seq<char>, vowels: Seq<char>) -> nat
    decreases s.len(),
{
    if s.len() == 0 {
        0
    } else {
        consonant_count(s.drop_last(), vowels) + if is_letter(s.last()) && !folded(
            vowels,
        ).contains(upper(s.last())) {
            1nat
        } else {
            0nat
        }
    }
}

/// Occurrences of the folded letter `c` among the first `end` characters.
fn count_letter_prefix(s: &Vec<char>, end: usize, c: char) -> (r: usize)
    requires
        end <= s@.len(),
    ensures
        r == letter_count_text(s@.take(end as int), c),
{
    let mut n: usize = 0;
    let mut j: usize = 0;
    while j < end
        invariant
            end <= s@.len(),
            j <= end,
            n <= j,
            n == letter_count_text(s@.take(j as int), c),
        decreases end - j,
    {
        let ch = s[j];
        if is_letter_char(ch) {
            let u = upper_char(ch);
            if u == c {
                n = n + 1;
            }
        }
        j = j + 1;
        proof {
            assert(s@.take(j as int).drop_last() =~= s@.take(j as int - 1));
            assert(s@.take(j as int).last() == s@[j as int - 1]);
        }
    }
    n
}

/// Occurrences of the folded letter `c` among the characters of `s`.
fn count_letter(s: &Vec<char>, c: char) -> (r: usize)
    ensures
        r == letter_count_text(s@, c),
{
    let n = count_letter_prefix(s, s.len(), c);
    proof {
        assert(s@.take(s@.len() as int) =~= s@);
    }
    n
}

/// Whether the word can be formed from the available letters, where `_` in
/// the rack is a wildcard standing for any letter. Comparison is
/// case-insensitive; characters outside the alphabet demand nothing.
pub fn contains_only_letters(word: &Vec<char>, letters: &Vec<char>) -> (r: bool)
    ensures
        r == can_form(word@, letters@),
{
    let wildcards = count_char(letters, '_');
    let mut used: usize = 0;
    let mut i: usize = 0;
    while i < word.len()
        invariant
            i <= word@.len(),
            used <= i,
            used == deficit(word@.take(i as int), letters@),
        decreases word@.len() - i,
    {
        let ch = word[i];
        if is_letter_char(ch) {
            let u = upper_char(ch);
            let in_word = count_letter_prefix(word, i + 1, u);
            let in_rack = count_letter(letters, u);
            if in_word > in_rack {
                used = used + 1;
            }
        }
        i = i + 1;
        proof {
            assert(word@.take(i as int).drop_last() =~= word@.take(i as int - 1));
            assert(word@.take(i as int).last() == word@[i as int - 1]);
        }
    }
    proof {
        assert(word@.take(word@.len() as int) =~= word@);
    }
    used <= wildcards
}

/// Count the word's vowels and consonants against a vowel table, both sides
/// case-folded; characters outside the alphabet count as neither.
pub fn count_vowels_consonants(word: &Vec<char>, vowels: &Vec<char>) -> (r: (usize, usize))
    ensures
        r.0 == vowel_count(word@, vowels@),
        r.1 == consonant_count(word@, vowels@),
{
    let vset = fold_chars(vowels);
    let mut nv: usize = 0;
    let mut nc: usize = 0;
    let mut i: usize = 0;
    while i < word.len()
        invariant
            i <= word@.len(),
            nv <= i,
            nc <= i,
            vset@ == folded(vowels@),
            nv == vowel_count(word@.take(i as int), vowels@),
            nc == consonant_count(word@.take(i as int), vowels@),
        decreases word@.len() - i,
    {
        let ch = word[i];
        if is_letter_char(ch) {
            let u = upper_char(ch);
            if contains_char(&vset, u) {
                nv = nv + 1;
            } else {
                nc = nc + 1;
            }
        }
        i = i + 1;
        proof {
            assert(word@.take(i as int).drop_last() =~= word@.take(i as int - 1));
            assert(word@.take(i as int).last() == word@[i as int - 1]);
        }
    }
    proof {
        assert(word@.take(word@.len() as int) =~= word@);
    }
    (nv, nc)
}

/// A rack with at least one (folded) occurrence of a letter carries that
/// letter's signature bit.
proof fn lemma_sig_covers(rack: Seq<char>, u: char, b: u32)
    requires
        letter_count_text(rack, u) >= 1,
        sig_bit(u) == Some(b),
        b < 32,
    ensures
        sig_of(rack) & (1u32 << b) != 0,
    decreases rack.len(),
{
    let m = sig_of(rack.drop_last());
    if is_letter(rack.last()) && upper(rack.last()) == u {
        assert((m | (1u32 << b)) & (1u32 << b) != 0) by (bit_vector)
            requires
                b < 32,
        ;
    } else {
        lemma_sig_covers(rack.drop_last(), u, b);
        let w = match sig_bit(upper(rack.last())) {
            Some(b2) => 1u32 << b2,
            None => 0u32,
        };
        assert(m & (1u32 << b) != 0 ==> (m | w) & (1u32 << b) != 0) by (bit_vector);
    }
}

/// Every signature bit belongs to a letter of the alphabet.
proof fn lemma_sig_bit_is_letter(u: char)
    ensures
        sig_bit(u) is Some ==> crate::letters::is_upper_letter(u),
        sig_bit(u) is Some ==> sig_bit(u)->0 < 32,
{
}

/// The bitmask pre-filter is complete: when the rack has no wildcards, a word
/// it can form never carries a signature bit the rack lacks, so rejecting on
/// such a bit loses no match.
pub proof fn lemma_signature_filter_complete(word: Seq<char>, rack: Seq<char>)
    requires
        count_of(rack, '_') == 0,
        can_form(word, rack),
    ensures
        sig_of(word) & !sig_of(rack) == 0,
    decreases word.len(),
{
    let rs = sig_of(rack);
    if word.len() == 0 {
        assert(0u32 & !rs == 0) by (bit_vector);
    } else {
        let pre = word.drop_last();
        let c = word.last();
        assert(deficit(pre, rack) <= deficit(word, rack));
        lemma_signature_filter_complete(pre, rack);
        let m = sig_of(pre);
        match sig_bit(upper(c)) {
            Some(b) => {
                lemma_sig_bit_is_letter(upper(c));
                assert(is_letter(c));
                // The word's own last letter occurs in it at least once.
                assert(letter_count_text(word, upper(c)) >= 1);
                // No wildcards cover anything, so the rack supplies it.
                assert(letter_count_text(rack, upper(c)) >= 1);
                lemma_sig_covers(rack, upper(c), b);
                assert(m & !rs == 0 && rs & (1u32 << b) != 0 ==> (m | (1u32 << b)) & !rs == 0)
                    by (bit_vector);
            },
            None => {
                assert(m & !rs == 0 ==> (m | 0u32) & !rs == 0) by (bit_vector);
            },
        }
    }
}

} // verus!
