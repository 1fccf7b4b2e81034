//! Letter classification: a language's vowels, the consonants observed in
//! its lexicon, and the two rarest letters.

use vstd::prelude::*;

use crate::language::{spec_vowels, Language};
use crate::language::language_vowels;
use crate::letters::contains_char;
use crate::tables::{has_key, spec_get, table_sorted};
use crate::tables::{lemma_get_at, lemma_sorted_keys_unique};

verus! {

/// The frequency table's keys that are not vowels, in table order.
pub open spec fn consonants_of(t: Seq<(char, usize)>, vowels: Seq<char>) -> Seq<char>
    decreases t.len(),
{
    if t.len() == 0 {
        Seq::empty()
    } else if vowels.contains(t.last().0) {
        consonants_of(t.drop_last(), vowels)
    } else {
        consonants_of(t.drop_last(), vowels).push(t.last().0)
    }
}

/// Letter `a` is strictly rarer than `b` under the table: it occurs less
/// often, or as often with `a` the earlier letter. This is a total order on
/// distinct letters, so the rarest letters are unique.
pub open spec fn rarer(t: Seq<(char, usize)>, a: char, b: char) -> bool {
    spec_get(t, a) < spec_get(t, b) || (spec_get(t, a) == spec_get(t, b) && (a as u32) < (b
        as u32))
}

/// The position of the rarest letter of the table, ignoring the position
/// `skip` (pass the table's length to ignore none). Returns the length when
/// every position is skipped.
fn rarest_position(freq: &Vec<(char, usize)>, skip: usize) -> (r: usize)
    requires
        table_sorted(freq@),
    ensures
        r <= freq@.len(),
        r < freq@.len() ==> r != skip,
        r < freq@.len() ==> (forall|k: int|
            0 <= k < freq@.len() && k != r && k != skip ==> rarer(
                freq@,
                freq@[r as int].0,
                (#[trigger] freq@[k]).0,
            )),
        r == freq@.len() ==> (freq@.len() == 0 || (freq@.len() == 1 && skip == 0)),
{
    let n = freq.len();
    let mut best: usize = n;
    let mut i: usize = 0;
    while i < n
        invariant
            n == freq@.len(),
            table_sorted(freq@),
            i <= n,
            best <= n,
            best < n ==> best < i && best != skip,
            best < n ==> (forall|k: int|
                0 <= k < i && k != best && k != skip ==> rarer(
                    freq@,
                    freq@[best as int].0,
                    (#[trigger] freq@[k]).0,
                )),
            best == n ==> (i == 0 || (i == 1 && skip == 0)),
        decreases n - i,
    {
        if i != skip {
            let take_it = if best == n {
                true
            } else {
                let (bc, bv) = freq[best];
                let (ic, iv) = freq[i];
                iv < bv || (iv == bv && (ic as u32) < (bc as u32))
            };
            proof {
                if best < n {
                    lemma_sorted_keys_unique(freq@, best as int);
                    lemma_get_at(freq@, best as int);
                    lemma_sorted_keys_unique(freq@, i as int);
                    lemma_get_at(freq@, i as int);
                }
            }
            if take_it {
                proof {
                    if best < n {
                        assert forall|k: int|
                            0 <= k < i + 1 && k != i && k != skip implies rarer(
                            freq@,
                            freq@[i as int].0,
                            (#[trigger] freq@[k]).0,
                        ) by {
                            if k != best {
                                lemma_sorted_keys_unique(freq@, k);
                                lemma_get_at(freq@, k);
                            }
                        }
                    }
                }
                best = i;
            } else {
                proof {
                    lemma_sorted_keys_unique(freq@, i as int);
                    lemma_get_at(freq@, i as int);
                }
            }
        }
        i = i + 1;
    }
    best
}

/// Classify a language's letters: its fixed vowel table, the consonants its
/// lexicon actually uses (every frequency-table key that is not a vowel, in
/// ascending letter order), and the two rarest letters, ties broken by
/// ascending letter so the choice is deterministic.
pub fn classify_letters(freq: &Vec<(char, usize)>, lang: Language) -> (r: (
    Vec<char>,
    Vec<char>,
    Vec<char>,
))
    requires
        table_sorted(freq@),
    ensures
        r.0@ == spec_vowels(lang),
        r.1@ == consonants_of(freq@, spec_vowels(lang)),
        r.2@.len() == if freq@.len() >= 2 {
            2int
        } else {
            freq@.len() as int
        },
        freq@.len() >= 1 ==> has_key(freq@, r.2@[0]) && (forall|x: char|
            #[trigger] has_key(freq@, x) && x != r.2@[0] ==> rarer(freq@, r.2@[0], x)),
        freq@.len() >= 2 ==> has_key(freq@, r.2@[1]) && r.2@[1] != r.2@[0] && (forall|x: char|
            #[trigger] has_key(freq@, x) && x != r.2@[0] && x != r.2@[1] ==> rarer(
                freq@,
                r.2@[1],
                x,
            )),
{
    let vowels = language_vowels(lang);
    // Consonants: every observed letter that is not a vowel, in table order.
    let mut consonants: Vec<char> = Vec::new();
    let mut i: usize = 0;
    while i < freq.len()
        invariant
            i <= freq@.len(),
            vowels@ == spec_vowels(lang),
            consonants@ == consonants_of(freq@.take(i as int), spec_vowels(lang)),
        decreases freq@.len() - i,
    {
        let c = freq[i].0;
        if !contains_char(&vowels, c) {
            consonants.push(c);
        }
        i = i + 1;
        proof {
            assert(freq@.take(i as int).drop_last() =~= freq@.take(i as int - 1));
            assert(freq@.take(i as int).last() == freq@[i as int - 1]);
        }
    }
    proof {
        assert(freq@.take(freq@.len() as int) =~= freq@);
    }
    // The two rarest letters ("unicorns").
    let mut unicorns: Vec<char> = Vec::new();
    let n = freq.len();
    let first = rarest_position(freq, n);
    if first < n {
        unicorns.push(freq[first].0);
        proof {
            lemma_sorted_keys_unique(freq@, first as int);
            lemma_get_at(freq@, first as int);
            assert forall|x: char|
                #[trigger] has_key(freq@, x) && x != freq@[first as int].0 implies rarer(
                freq@,
                freq@[first as int].0,
                x,
            ) by {
                let k = choose|k: int| 0 <= k < freq@.len() && (#[trigger] freq@[k]).0 == x;
                lemma_sorted_keys_unique(freq@, k);
                lemma_get_at(freq@, k);
            }
        }
        let second = rarest_position(freq, first);
        if second < n {
            unicorns.push(freq[second].0);
            proof {
                lemma_sorted_keys_unique(freq@, second as int);
                lemma_get_at(freq@, second as int);
                lemma_sorted_keys_unique(freq@, first as int);
                assert(freq@[second as int].0 != freq@[first as int].0);
                assert forall|x: char|
                    #[trigger] has_key(freq@, x) && x != freq@[first as int].0 && x != freq@[
                    second as int].0 implies rarer(freq@, freq@[second as int].0, x) by {
                    let k = choose|k: int| 0 <= k < freq@.len() && (#[trigger] freq@[k]).0 == x;
                    lemma_sorted_keys_unique(freq@, k);
                    lemma_get_at(freq@, k);
                }
            }
        } else {
            proof {
                assert(freq@.len() == 1);
            }
        }
    }
    (vowels, consonants, unicorns)
}

} // verus!
