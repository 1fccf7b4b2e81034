//! Words and sorted word sets.
//!
//! A curated lexicon is kept as a vector of words sorted strictly ascending in
//! lexicographic order, so it is duplicate-free, membership is decidable by
//! binary search, and iteration order is deterministic.

use vstd::prelude::*;

use crate::letters::{char_code_inj, sig_of};
use crate::letters::compute_signature;

verus! {

/// Strict lexicographic order on texts, by Unicode scalar value.
pub open spec fn lex_lt(a: Seq<char>, b: Seq<char>) -> bool
    decreases a.len(),
{
    if b.len() == 0 {
        false
    } else if a.len() == 0 {
        true
    } else if a[0] != b[0] {
        (a[0] as u32) < (b[0] as u32)
    } else {
        lex_lt(a.drop_first(), b.drop_first())
    }
}

/// `lex_lt` is connex: two texts are ordered one way or the other, or equal.
pub proof fn lemma_lex_total(a: Seq<char>, b: Seq<char>)
    ensures
        lex_lt(a, b) || lex_lt(b, a) || a == b,
    decreases a.len(),
{
    if b.len() == 0 {
        if a.len() == 0 {
            assert(a =~= b);
        } else {
            assert(lex_lt(b, a));
        }
    } else if a.len() == 0 {
        assert(lex_lt(a, b));
    } else if a[0] != b[0] {
        char_code_inj(a[0], b[0]);
        if (a[0] as u32) < (b[0] as u32) {
            assert(lex_lt(a, b));
        } else {
            assert(lex_lt(b, a));
        }
    } else {
        lemma_lex_total(a.drop_first(), b.drop_first());
        if a.drop_first() == b.drop_first() {
            assert(a.drop_first().len() == a.len() - 1);
            assert(b.drop_first().len() == b.len() - 1);
            assert forall|k: int| 0 <= k < a.len() implies a[k] == b[k] by {
                if k > 0 {
                    assert(a.drop_first()[k - 1] == a[k]);
                    assert(b.drop_first()[k - 1] == b[k]);
                }
            }
            assert(a =~= b);
        }
    }
}

/// `lex_lt` is asymmetric; in particular it is irreflexive.
pub proof fn lemma_lex_asym(a: Seq<char>, b: Seq<char>)
    ensures
        lex_lt(a, b) ==> !lex_lt(b, a),
        a == b ==> !lex_lt(a, b),
    decreases a.len(),
{
    if a.len() > 0 && b.len() > 0 && a[0] == b[0] {
        lemma_lex_asym(a.drop_first(), b.drop_first());
        if a == b {
            assert(a.drop_first() =~= b.drop_first());
        }
    }
}

/// `lex_lt` is transitive.
pub proof fn lemma_lex_trans(a: Seq<char>, b: Seq<char>, c: Seq<char>)
    ensures
        lex_lt(a, b) && lex_lt(b, c) ==> lex_lt(a, c),
    decreases a.len(),
{
    if lex_lt(a, b) && lex_lt(b, c) && a.len() > 0 && b.len() > 0 && c.len() > 0 {
        if a[0] == b[0] && b[0] == c[0] {
            lemma_lex_trans(a.drop_first(), b.drop_first(), c.drop_first());
        }
    }
}

/// Whether `ws` holds the text `w`.
pub open spec fn has_word(ws: Seq<Vec<char>>, w: Seq<char>) -> bool {
    exists|i: int| 0 <= i < ws.len() && (#[trigger] ws[i]@) == w
}

/// A strictly ascending (hence duplicate-free) list of texts.
pub open spec fn sorted_unique(ws: Seq<Vec<char>>) -> bool {
    forall|i: int, j: int|
        0 <= i < j < ws.len() ==> lex_lt(#[trigger] ws[i]@, #[trigger] ws[j]@)
}

/// Compare two texts; strict lexicographic "less than".
pub fn word_lt(a: &Vec<char>, b: &Vec<char>) -> (r: bool)
    ensures
        r == lex_lt(a@, b@),
{
    let mut i: usize = 0;
    proof {
        assert(a@.skip(0) =~= a@);
        assert(b@.skip(0) =~= b@);
    }
    loop
        invariant
            i <= a@.len(),
            i <= b@.len(),
            lex_lt(a@, b@) == lex_lt(a@.skip(i as int), b@.skip(i as int)),
        decreases a@.len() - i,
    {
        if i == b.len() {
            return false;
        }
        if i == a.len() {
            return true;
        }
        let x = a[i];
        let y = b[i];
        if x != y {
            return (x as u32) < (y as u32);
        }
        proof {
            assert(a@.skip(i as int).drop_first() =~= a@.skip(i as int + 1));
            assert(b@.skip(i as int).drop_first() =~= b@.skip(i as int + 1));
        }
        i = i + 1;
    }
}

/// Compare two texts for equality.
pub fn word_eq(a: &Vec<char>, b: &Vec<char>) -> (r: bool)
    ensures
        r == (a@ == b@),
{
    if a.len() != b.len() {
        return false;
    }
    let mut i: usize = 0;
    while i < a.len()
        invariant
            a@.len() == b@.len(),
            i <= a@.len(),
            forall|j: int| 0 <= j < i ==> a@[j] == b@[j],
        decreases a@.len() - i,
    {
        if a[i] != b[i] {
            return false;
        }
        i = i + 1;
    }
    proof {
        assert(a@ =~= b@);
    }
    true
}

/// A lexicon entry: its text (uppercase-folded at curation time), the number
/// of characters, and its letter-presence signature.
pub struct Word {
    pub text: Vec<char>,
    pub len: usize,
    pub signature: u32,
}

impl Word {
    /// The cached length and signature agree with the text.
    pub open spec fn wf(self) -> bool {
        self.len == self.text@.len() && self.signature == sig_of(self.text@)
    }
}

/// Build a lexicon entry from its text.
pub fn make_word(text: Vec<char>) -> (r: Word)
    ensures
        r.wf(),
        r.text@ == text@,
{
    let signature = compute_signature(&text);
    let len = text.len();
    Word { text, len, signature }
}

/// Whether the word list `ws` holds an entry with text `w`.
pub open spec fn has_text(ws: Seq<Word>, w: Seq<char>) -> bool {
    exists|i: int| 0 <= i < ws.len() && (#[trigger] ws[i].text@) == w
}

/// A word list sorted strictly ascending by text.
pub open spec fn sorted_words(ws: Seq<Word>) -> bool {
    forall|i: int, j: int|
        0 <= i < j < ws.len() ==> lex_lt(#[trigger] ws[i].text@, #[trigger] ws[j].text@)
}

/// All entries of a word list agree with their cached fields.
pub open spec fn wf_words(ws: Seq<Word>) -> bool {
    forall|i: int| 0 <= i < ws.len() ==> (#[trigger] ws[i]).wf()
}

/// Insert `w` into the sorted text set `ws`, keeping it sorted and
/// duplicate-free; a text already present is left alone.
pub fn insert_word(ws: &mut Vec<Vec<char>>, w: Vec<char>)
    requires
        sorted_unique(old(ws)@),
    ensures
        sorted_unique(final(ws)@),
        forall|x: Seq<char>|
            #[trigger] has_word(final(ws)@, x) <==> (has_word(old(ws)@, x) || x == w@),
{
    let ghost orig = ws@;
    let mut i: usize = 0;
    loop
        invariant
            ws@ == orig,
            i <= ws@.len(),
            forall|j: int| 0 <= j < i ==> lex_lt(#[trigger] ws@[j]@, w@),
        ensures
            ws@ == orig,
            i <= ws@.len(),
            forall|j: int| 0 <= j < i ==> lex_lt(#[trigger] ws@[j]@, w@),
            i < ws@.len() ==> !lex_lt(ws@[i as int]@, w@),
        decreases ws@.len() - i,
    {
        if i == ws.len() {
            break;
        }
        if !word_lt(&ws[i], &w) {
            break;
        }
        i = i + 1;
    }
    // Here every entry before `i` is strictly below `w`, and if `i` is in
    // range, entry `i` is not below `w`.
    if i < ws.len() && word_eq(&ws[i], &w) {
        proof {
            assert(ws@[i as int]@ == w@);
            assert(has_word(ws@, w@));
        }
        return;
    }
    let ghost wv = w@;
    ws.insert(i, w);
    proof {
        let s = ws@;
        assert(s.len() == orig.len() + 1);
        assert forall|p: int, q: int| 0 <= p < q < s.len() implies lex_lt(s[p]@, s[q]@) by {
            if q < i {
                assert(s[p] == orig[p]);
                assert(s[q] == orig[q]);
            } else if p > i {
                assert(s[p] == orig[p - 1]);
                assert(s[q] == orig[q - 1]);
            } else if p == i {
                // Entry `q` comes from the old entry `q - 1`, at or after `i`,
                // and the old entry `i` lies strictly above `w`.
                assert(s[p]@ == wv);
                assert(s[q] == orig[q - 1]);
                lemma_lex_total(wv, orig[i as int]@);
                if q - 1 > i {
                    lemma_lex_trans(wv, orig[i as int]@, orig[q - 1]@);
                }
            } else if q == i {
                assert(s[p] == orig[p]);
                assert(s[q]@ == wv);
            } else {
                assert(s[p] == orig[p]);
                assert(s[q] == orig[q - 1]);
            }
        }
        assert forall|x: Seq<char>| has_word(s, x) implies (has_word(orig, x) || x == wv) by {
            let k = choose|k: int| 0 <= k < s.len() && (#[trigger] s[k]@) == x;
            if k < i {
                assert(orig[k]@ == x);
            } else if k > i {
                assert(orig[k - 1]@ == x);
            } else {
                assert(s[k]@ == wv);
            }
        }
        assert forall|x: Seq<char>| has_word(orig, x) || x == wv implies has_word(s, x) by {
            if has_word(orig, x) {
                let k = choose|k: int| 0 <= k < orig.len() && (#[trigger] orig[k]@) == x;
                if k < i {
                    assert(s[k]@ == x);
                } else {
                    assert(s[k + 1]@ == x);
                }
            } else {
                assert(s[i as int]@ == wv);
            }
        }
    }
}

/// Remove the entry with text `w` from the sorted text set `ws`, if present.
pub fn remove_word(ws: &mut Vec<Vec<char>>, w: &Vec<char>)
    requires
        sorted_unique(old(ws)@),
    ensures
        sorted_unique(final(ws)@),
        forall|x: Seq<char>|
            #[trigger] has_word(final(ws)@, x) <==> (has_word(old(ws)@, x) && x != w@),
{
    let ghost orig = ws@;
    let mut i: usize = 0;
    while i < ws.len()
        invariant
            ws@ == orig,
            orig == old(ws)@,
            sorted_unique(orig),
            i <= ws@.len(),
            forall|j: int| 0 <= j < i ==> ws@[j]@ != w@,
        decreases ws@.len() - i,
    {
        if word_eq(&ws[i], w) {
            proof {
                assert(ws@[i as int]@ == w@);
            }
            ws.remove(i);
            proof {
                let s = ws@;
                assert(s.len() == orig.len() - 1);
                assert forall|p: int, q: int| 0 <= p < q < s.len() implies lex_lt(s[p]@, s[q]@) by {
                    let po: int = if p < i { p } else { p + 1 };
                    let qo: int = if q < i { q } else { q + 1 };
                    assert(s[p] == orig[po]);
                    assert(s[q] == orig[qo]);
                }
                assert forall|x: Seq<char>| has_word(s, x) implies (has_word(orig, x) && x != w@) by {
                    let k = choose|k: int| 0 <= k < s.len() && (#[trigger] s[k]@) == x;
                    let ko: int = if k < i { k } else { k + 1 };
                    assert(orig[ko]@ == x);
                    if x == w@ {
                        // Two distinct positions would hold the same text.
                        if ko < i {
                            lemma_lex_asym(orig[ko]@, orig[i as int]@);
                        } else {
                            lemma_lex_asym(orig[i as int]@, orig[ko]@);
                        }
                        assert(false);
                    }
                }
                assert forall|x: Seq<char>| has_word(orig, x) && x != w@ implies has_word(s, x) by {
                    let k = choose|k: int| 0 <= k < orig.len() && (#[trigger] orig[k]@) == x;
                    if k < i {
                        assert(s[k]@ == x);
                    } else {
                        assert(s[k - 1]@ == x);
                    }
                }
            }
            return;
        }
        i = i + 1;
    }
}

/// Binary search: whether the sorted word list `ws` holds an entry with text
/// exactly `w`.
pub fn contains_word(ws: &Vec<Word>, w: &Vec<char>) -> (r: bool)
    requires
        sorted_words(ws@),
    ensures
        r == has_text(ws@, w@),
{
    let mut lo: usize = 0;
    let mut hi: usize = ws.len();
    while lo < hi
        invariant
            sorted_words(ws@),
            lo <= hi <= ws@.len(),
            forall|j: int| 0 <= j < lo ==> lex_lt(#[trigger] ws@[j].text@, w@),
            forall|j: int| hi <= j < ws@.len() ==> lex_lt(w@, #[trigger] ws@[j].text@),
        decreases hi - lo,
    {
        let mid = lo + (hi - lo) / 2;
        if word_lt(&ws[mid].text, w) {
            proof {
                assert forall|j: int| 0 <= j < mid + 1 implies lex_lt(#[trigger] ws@[j].text@, w@) by {
                    if j < mid {
                        lemma_lex_trans(ws@[j].text@, ws@[mid as int].text@, w@);
                    }
                }
            }
            lo = mid + 1;
        } else {
            let eq = word_eq(&ws[mid].text, w);
            if eq {
                return true;
            }
            proof {
                lemma_lex_total(ws@[mid as int].text@, w@);
                assert forall|j: int| mid <= j < ws@.len() implies lex_lt(w@, #[trigger] ws@[j].text@) by {
                    if j > mid {
                        lemma_lex_trans(w@, ws@[mid as int].text@, ws@[j].text@);
                    }
                }
            }
            hi = mid;
        }
    }
    proof {
        if has_text(ws@, w@) {
            let k = choose|k: int| 0 <= k < ws@.len() && ws@[k].text@ == w@;
            lemma_lex_asym(ws@[k].text@, w@);
            lemma_lex_asym(w@, ws@[k].text@);
            assert(false);
        }
    }
    false
}

} // verus!
