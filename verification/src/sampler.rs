//! Constrained sampling: the exhaustive two-stage filter over the lexicon,
//! and uniform random draws (with replacement) of words and letters.
//!
//! Word sampling under constraints collects every matching word first and
//! then draws from that candidate list, so it returns empty exactly when no
//! word matches, and never under-fills otherwise.

use vstd::prelude::*;

use crate::curation::word_texts;
use crate::letters::sig_of;
use crate::letters::{clone_chars, compute_signature, contains_char, lemma_count_zero};
use crate::matching::{can_form, consonant_count, vowel_count};
use crate::matching::{contains_only_letters, count_vowels_consonants,
    lemma_signature_filter_complete};
use crate::rng::random_below;
use crate::words::{has_text, wf_words, Word};

verus! {

/// A word query's constraints: an optional rack of available letters (`_`
/// wildcards included), and optional minimum vowel and consonant counts
/// judged against the language's vowel table.
pub struct WordConstraints {
    pub letters: Option<Vec<char>>,
    pub min_vowels: Option<usize>,
    pub min_consonants: Option<usize>,
    pub vowels: Vec<char>,
}

/// The rack text a constraints value carries, if any.
pub open spec fn rack_view(c: WordConstraints) -> Option<Seq<char>> {
    match c.letters {
        Some(l) => Some(l@),
        None => None,
    }
}

/// Whether a lexicon word satisfies the constraints: it fits the rack's
/// length, can be formed from the rack, and carries the requested minimum
/// vowels and consonants.
pub open spec fn word_matches(
    text: Seq<char>,
    rack: Option<Seq<char>>,
    min_vowels: Option<usize>,
    min_consonants: Option<usize>,
    vowels: Seq<char>,
) -> bool {
    &&& (match rack {
        Some(r) => text.len() <= r.len() && can_form(text, r),
        None => true,
    })
    &&& (match min_vowels {
        Some(mv) => vowel_count(text, vowels) >= mv,
        None => true,
    })
    &&& (match min_consonants {
        Some(mc) => consonant_count(text, vowels) >= mc,
        None => true,
    })
}

/// The texts of the words that satisfy the constraints, in lexicon order.
pub open spec fn matching_texts(
    ws: Seq<Word>,
    rack: Option<Seq<char>>,
    min_vowels: Option<usize>,
    min_consonants: Option<usize>,
    vowels: Seq<char>,
) -> Seq<Seq<char>>
    decreases ws.len(),
{
    if ws.len() == 0 {
        Seq::empty()
    } else if word_matches(ws.last().text@, rack, min_vowels, min_consonants, vowels) {
        matching_texts(ws.drop_last(), rack, min_vowels, min_consonants, vowels).push(
            ws.last().text@,
        )
    } else {
        matching_texts(ws.drop_last(), rack, min_vowels, min_consonants, vowels)
    }
}

/// A query with no constraints at all.
pub open spec fn no_constraints(
    rack: Option<Seq<char>>,
    min_vowels: Option<usize>,
    min_consonants: Option<usize>,
) -> bool {
    rack is None && min_vowels is None && min_consonants is None
}

/// The placeholder returned when an unconstrained draw hits an empty lexicon.
pub open spec fn placeholder_word() -> Seq<char> {
    seq!['W', 'O', 'R', 'D']
}

/// Collect every lexicon word that satisfies the constraints, in order. A
/// word is screened by cost: the cheap length test, then the signature
/// bitmask test (sound because a formable word never carries a bit the rack
/// lacks), then the exact multiset check, then the vowel/consonant minima.
pub fn find_matching_words(words: &Vec<Word>, constraints: &WordConstraints) -> (r: Vec<
    Vec<char>,
>)
    requires
        wf_words(words@),
    ensures
        word_texts(r@) == matching_texts(
            words@,
            rack_view(*constraints),
            constraints.min_vowels,
            constraints.min_consonants,
            constraints.vowels@,
        ),
{
    let rack_sig: u32 = match &constraints.letters {
        Some(l) => compute_signature(l),
        None => 0,
    };
    let has_wildcard: bool = match &constraints.letters {
        Some(l) => contains_char(l, '_'),
        None => false,
    };
    let mut r: Vec<Vec<char>> = Vec::new();
    let mut i: usize = 0;
    while i < words.len()
        invariant
            i <= words@.len(),
            wf_words(words@),
            rack_sig == (match constraints.letters {
                Some(l) => sig_of(l@),
                None => 0u32,
            }),
            has_wildcard == (match constraints.letters {
                Some(l) => l@.contains('_'),
                None => false,
            }),
            word_texts(r@) == matching_texts(
                words@.take(i as int),
                rack_view(*constraints),
                constraints.min_vowels,
                constraints.min_consonants,
                constraints.vowels@,
            ),
        decreases words@.len() - i,
    {
        let ghost text = words@[i as int].text@;
        let mut keep: bool;
        match &constraints.letters {
            Some(l) => {
                if words[i].len > l.len() {
                    keep = false;
                } else if !has_wildcard && (words[i].signature & !rack_sig) != 0 {
                    keep = false;
                    proof {
                        lemma_count_zero(l@, '_');
                        if can_form(text, l@) {
                            lemma_signature_filter_complete(text, l@);
                        }
                    }
                } else {
                    keep = contains_only_letters(&words[i].text, l);
                }
            },
            None => {
                keep = true;
            },
        }
        if keep {
            match constraints.min_vowels {
                Some(mv) => {
                    let (nv, _nc) = count_vowels_consonants(&words[i].text, &constraints.vowels);
                    if nv < mv {
                        keep = false;
                    }
                },
                None => {},
            }
        }
        if keep {
            match constraints.min_consonants {
                Some(mc) => {
                    let (_nv, nc) = count_vowels_consonants(&words[i].text, &constraints.vowels);
                    if nc < mc {
                        keep = false;
                    }
                },
                None => {},
            }
        }
        proof {
            assert(keep == word_matches(
                text,
                rack_view(*constraints),
                constraints.min_vowels,
                constraints.min_consonants,
                constraints.vowels@,
            ));
        }
        let ghost prev = r@;
        if keep {
            r.push(clone_chars(&words[i].text));
        }
        i = i + 1;
        proof {
            assert(words@.take(i as int).drop_last() =~= words@.take(i as int - 1));
            assert(words@.take(i as int).last() == words@[i as int - 1]);
            if keep {
                assert(word_texts(r@) =~= word_texts(prev).push(text));
            }
        }
    }
    proof {
        assert(words@.take(words@.len() as int) =~= words@);
    }
    r
}

/// Draw `count` random words with replacement, honoring the constraints.
/// Without constraints the draw comes straight from the whole lexicon (a
/// placeholder stands in when the lexicon is empty). With constraints, every
/// matching word is collected first and the draw comes from that list, so
/// the result is empty exactly when no word matches at all, and otherwise
/// holds exactly `count` matching words.
pub fn select_random_words_with_constraints(
    words: &Vec<Word>,
    count: usize,
    constraints: &WordConstraints,
) -> (r: Vec<Vec<char>>)
    requires
        wf_words(words@),
    ensures
        no_constraints(rack_view(*constraints), constraints.min_vowels, constraints.min_consonants)
            ==> r@.len() == count,
        no_constraints(rack_view(*constraints), constraints.min_vowels, constraints.min_consonants)
            && words@.len() > 0 ==> (forall|i: int|
            0 <= i < r@.len() ==> has_text(words@, (#[trigger] r@[i])@)),
        no_constraints(rack_view(*constraints), constraints.min_vowels, constraints.min_consonants)
            && words@.len() == 0 ==> (forall|i: int|
            0 <= i < r@.len() ==> (#[trigger] r@[i])@ == placeholder_word()),
        !no_constraints(
            rack_view(*constraints),
            constraints.min_vowels,
            constraints.min_consonants,
        ) ==> r@.len() == (if matching_texts(
            words@,
            rack_view(*constraints),
            constraints.min_vowels,
            constraints.min_consonants,
            constraints.vowels@,
        ).len() == 0 {
            0int
        } else {
            count as int
        }),
        !no_constraints(
            rack_view(*constraints),
            constraints.min_vowels,
            constraints.min_consonants,
        ) ==> (forall|i: int|
            0 <= i < r@.len() ==> matching_texts(
                words@,
                rack_view(*constraints),
                constraints.min_vowels,
                constraints.min_consonants,
                constraints.vowels@,
            ).contains((#[trigger] r@[i])@)),
{
    if constraints.letters.is_none() && constraints.min_vowels.is_none()
        && constraints.min_consonants.is_none() {
        let mut r: Vec<Vec<char>> = Vec::new();
        let mut m: usize = 0;
        while m < count
            invariant
                r@.len() == m,
                m <= count,
                words@.len() > 0 ==> (forall|i: int|
                    0 <= i < r@.len() ==> has_text(words@, (#[trigger] r@[i])@)),
                words@.len() == 0 ==> (forall|i: int|
                    0 <= i < r@.len() ==> (#[trigger] r@[i])@ == placeholder_word()),
            decreases count - m,
        {
            if words.len() == 0 {
                let w: Vec<char> = vec!['W', 'O', 'R', 'D'];
                proof {
                    assert(w@ =~= placeholder_word());
                }
                r.push(w);
            } else {
                let idx = random_below(words.len());
                let w = clone_chars(&words[idx].text);
                proof {
                    assert(words@[idx as int].text@ == w@);
                }
                r.push(w);
            }
            m = m + 1;
        }
        return r;
    }
    let candidates = find_matching_words(words, constraints);
    let ghost cands = matching_texts(
        words@,
        rack_view(*constraints),
        constraints.min_vowels,
        constraints.min_consonants,
        constraints.vowels@,
    );
    proof {
        assert(word_texts(candidates@).len() == candidates@.len());
    }
    if candidates.len() == 0 {
        let r: Vec<Vec<char>> = Vec::new();
        return r;
    }
    let mut r: Vec<Vec<char>> = Vec::new();
    let mut m: usize = 0;
    while m < count
        invariant
            r@.len() == m,
            m <= count,
            candidates@.len() > 0,
            cands == word_texts(candidates@),
            forall|i: int| 0 <= i < r@.len() ==> cands.contains((#[trigger] r@[i])@),
        decreases count - m,
    {
        let idx = random_below(candidates.len());
        let w = clone_chars(&candidates[idx]);
        proof {
            assert(cands[idx as int] == candidates@[idx as int]@);
            assert(cands.contains(w@));
        }
        r.push(w);
        m = m + 1;
    }
    r
}

/// A bag entry that random letter draws may yield: a non-wildcard letter
/// with at least one tile.
pub open spec fn letter_in_bag(t: Seq<(char, usize)>, c: char) -> bool {
    exists|k: int|
        0 <= k < t.len() && (#[trigger] t[k]).0 == c && t[k].1 >= 1 && c != '_'
}

/// Whether the bag holds any drawable letter at all.
pub open spec fn bag_has_letters(t: Seq<(char, usize)>) -> bool {
    exists|k: int| 0 <= k < t.len() && (#[trigger] t[k]).0 != '_' && t[k].1 >= 1
}

/// Draw `count` letters from the weighted bag, with replacement: each draw
/// is a non-wildcard letter of the bag, weighted by its tile count. A bag
/// with no drawable letter yields `A`s.
pub fn select_random_from_bag(bag: &Vec<(char, usize)>, count: usize) -> (r: Vec<char>)
    ensures
        r@.len() == count,
        bag_has_letters(bag@) ==> (forall|i: int|
            0 <= i < r@.len() ==> letter_in_bag(bag@, #[trigger] r@[i])),
        !bag_has_letters(bag@) ==> (forall|i: int| 0 <= i < r@.len() ==> r@[i] == 'A'),
{
    // Expand the bag into a pool with one slot per tile.
    let mut pool: Vec<char> = Vec::new();
    let mut i: usize = 0;
    while i < bag.len()
        invariant
            i <= bag@.len(),
            forall|p: int| 0 <= p < pool@.len() ==> letter_in_bag(bag@, #[trigger] pool@[p]),
            forall|k: int|
                0 <= k < i && (#[trigger] bag@[k]).0 != '_' && bag@[k].1 >= 1 ==> pool@.len() > 0,
        decreases bag@.len() - i,
    {
        let (c, v) = bag[i];
        if c != '_' {
            let mut j: usize = 0;
            while j < v
                invariant
                    i < bag@.len(),
                    j <= v,
                    (c, v) == bag@[i as int],
                    c != '_',
                    forall|p: int|
                        0 <= p < pool@.len() ==> letter_in_bag(bag@, #[trigger] pool@[p]),
                    j >= 1 ==> pool@.len() > 0,
                    forall|k: int|
                        0 <= k < i && (#[trigger] bag@[k]).0 != '_' && bag@[k].1 >= 1
                            ==> pool@.len() > 0,
                decreases v - j,
            {
                pool.push(c);
                proof {
                    assert(letter_in_bag(bag@, c));
                }
                j = j + 1;
            }
        }
        i = i + 1;
    }
    proof {
        if bag_has_letters(bag@) {
            let k = choose|k: int|
                0 <= k < bag@.len() && (#[trigger] bag@[k]).0 != '_' && bag@[k].1 >= 1;
            assert(pool@.len() > 0);
        }
        if pool@.len() > 0 {
            assert(letter_in_bag(bag@, pool@[0]));
            let k = choose|k: int|
                0 <= k < bag@.len() && (#[trigger] bag@[k]).0 == pool@[0] && bag@[k].1 >= 1
                    && pool@[0] != '_';
            assert(bag_has_letters(bag@));
        }
    }
    // Uniform draws with replacement from the pool.
    let mut r: Vec<char> = Vec::new();
    let mut m: usize = 0;
    while m < count
        invariant
            r@.len() == m,
            m <= count,
            forall|p: int| 0 <= p < pool@.len() ==> letter_in_bag(bag@, #[trigger] pool@[p]),
            (pool@.len() > 0) <==> bag_has_letters(bag@),
            forall|i2: int|
                0 <= i2 < r@.len() ==> (if bag_has_letters(bag@) {
                    letter_in_bag(bag@, #[trigger] r@[i2])
                } else {
                    r@[i2] == 'A'
                }),
        decreases count - m,
    {
        if pool.len() == 0 {
            r.push('A');
        } else {
            let idx = random_below(pool.len());
            r.push(pool[idx]);
        }
        m = m + 1;
    }
    r
}

/// Draw `count` letters uniformly from the list, with replacement; an empty
/// list yields `A`s.
pub fn select_random_from_list(list: &Vec<char>, count: usize) -> (r: Vec<char>)
    ensures
        r@.len() == count,
        list@.len() > 0 ==> (forall|i: int|
            0 <= i < r@.len() ==> list@.contains(#[trigger] r@[i])),
        list@.len() == 0 ==> (forall|i: int| 0 <= i < r@.len() ==> r@[i] == 'A'),
{
    let mut r: Vec<char> = Vec::new();
    let mut m: usize = 0;
    while m < count
        invariant
            r@.len() == m,
            m <= count,
            list@.len() > 0 ==> (forall|i: int|
                0 <= i < r@.len() ==> list@.contains(#[trigger] r@[i])),
            list@.len() == 0 ==> (forall|i: int| 0 <= i < r@.len() ==> r@[i] == 'A'),
        decreases count - m,
    {
        if list.len() == 0 {
            r.push('A');
        } else {
            let idx = random_below(list.len());
            r.push(list[idx]);
            proof {
                assert(list@.contains(list@[idx as int]));
            }
        }
        m = m + 1;
    }
    r
}

} // verus!
