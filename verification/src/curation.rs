//! Lexicon curation: turning raw word-list lines into a canonical, sorted,
//! duplicate-free word list.
//!
//! The pipeline, in order: normalize the base word-list lines (trim, drop
//! blanks and `#` comments, uppercase-fold, cap the length, deduplicate);
//! drop every word containing a letter whose distinct-word support falls
//! below a percentage threshold; merge the hand-curated insertions, which
//! bypass that statistical filter; apply the deletions under a deliberately
//! relaxed length cap; and emit sorted `Word` records.

use vstd::prelude::*;

use crate::letters::folded;
use crate::letters::{clone_chars, contains_char, fold_chars};
use crate::words::{has_text, has_word, lex_lt, sorted_unique, sorted_words, wf_words, Word, lemma_lex_asym};
use crate::words::{insert_word, make_word, remove_word};

verus! {

/// Whitespace stripped from both ends of a raw line.
pub open spec fn is_space(c: char) -> bool {
    c == ' ' || c == '\t' || c == '\r' || c == '\n'
}

/// Drop leading whitespace.
pub open spec fn trim_front(s: Seq<char>) -> Seq<char>
    decreases s.len(),
{
    if s.len() > 0 && is_space(s[0]) {
        trim_front(s.drop_first())
    } else {
        s
    }
}

/// Drop trailing whitespace.
pub open spec fn trim_back(s: Seq<char>) -> Seq<char>
    decreases s.len(),
{
    if s.len() > 0 && is_space(s.last()) {
        trim_back(s.drop_last())
    } else {
        s
    }
}

/// A raw line with whitespace stripped from both ends.
pub open spec fn trimmed(s: Seq<char>) -> Seq<char> {
    trim_back(trim_front(s))
}

/// Whether a raw line contributes a word under the length cap `max_len`:
/// it is not blank, not a `#` comment, and not too long.
pub open spec fn line_kept(line: Seq<char>, max_len: nat) -> bool {
    &&& trimmed(line).len() > 0
    &&& trimmed(line)[0] != '#'
    &&& trimmed(line).len() <= max_len
}

/// The word a kept line contributes: its trimmed text, uppercase-folded.
pub open spec fn line_word(line: Seq<char>) -> Seq<char> {
    folded(trimmed(line))
}

/// Whether the raw lines admit the word `w` under the length cap `max_len`.
pub open spec fn admitted(lines: Seq<Vec<char>>, max_len: nat, w: Seq<char>) -> bool {
    exists|i: int|
        0 <= i < lines.len() && line_kept((#[trigger] lines[i])@, max_len) && line_word(
            lines[i]@,
        ) == w
}

proof fn lemma_trim_front_skip(s: Seq<char>, a: int)
    requires
        0 <= a <= s.len(),
        forall|j: int| 0 <= j < a ==> is_space(#[trigger] s[j]),
        a < s.len() ==> !is_space(s[a]),
    ensures
        trim_front(s) == s.skip(a),
    decreases a,
{
    if a == 0 {
        assert(trim_front(s) =~= s.skip(0));
    } else {
        let t = s.drop_first();
        assert forall|j: int| 0 <= j < a - 1 implies is_space(#[trigger] t[j]) by {
            assert(t[j] == s[j + 1]);
        }
        assert(a - 1 < t.len() ==> !is_space(t[a - 1]));
        lemma_trim_front_skip(t, a - 1);
        assert(t.skip(a - 1) =~= s.skip(a));
    }
}

proof fn lemma_trim_back_take(s: Seq<char>, b: int)
    requires
        0 <= b <= s.len(),
        forall|j: int| b <= j < s.len() ==> is_space(#[trigger] s[j]),
        b > 0 ==> !is_space(s[b - 1]),
    ensures
        trim_back(s) == s.take(b),
    decreases s.len() - b,
{
    if b == s.len() {
        assert(trim_back(s) =~= s.take(b));
    } else {
        let t = s.drop_last();
        assert(is_space(s.last()));
        assert forall|j: int| b <= j < t.len() implies is_space(#[trigger] t[j]) by {
            assert(t[j] == s[j]);
        }
        lemma_trim_back_take(t, b);
        assert(t.take(b) =~= s.take(b));
    }
}

/// Strip whitespace from both ends of a raw line.
pub fn trim_chars(s: &Vec<char>) -> (r: Vec<char>)
    ensures
        r@ == trimmed(s@),
{
    let mut a: usize = 0;
    while a < s.len() && (s[a] == ' ' || s[a] == '\t' || s[a] == '\r' || s[a] == '\n')
        invariant
            a <= s@.len(),
            forall|j: int| 0 <= j < a ==> is_space(#[trigger] s@[j]),
        decreases s@.len() - a,
    {
        a = a + 1;
    }
    proof {
        lemma_trim_front_skip(s@, a as int);
    }
    let mut b: usize = s.len();
    while b > a && (s[b - 1] == ' ' || s[b - 1] == '\t' || s[b - 1] == '\r' || s[b - 1] == '\n')
        invariant
            a <= b <= s@.len(),
            forall|j: int| b <= j < s@.len() ==> is_space(#[trigger] s@[j]),
        decreases b,
    {
        b = b - 1;
    }
    proof {
        let u = s@.skip(a as int);
        assert forall|j: int| b - a <= j < u.len() implies is_space(#[trigger] u[j]) by {
            assert(u[j] == s@[j + a]);
        }
        if b > a {
            assert(u[b - a - 1] == s@[b - 1]);
        }
        lemma_trim_back_take(u, b - a);
    }
    let mut r: Vec<char> = Vec::new();
    let mut j: usize = a;
    while j < b
        invariant
            a <= j <= b <= s@.len(),
            r@ == s@.subrange(a as int, j as int),
        decreases b - j,
    {
        r.push(s[j]);
        proof {
            assert(r@ =~= s@.subrange(a as int, j as int + 1));
        }
        j = j + 1;
    }
    proof {
        assert(s@.skip(a as int).take(b - a) =~= s@.subrange(a as int, b as int));
    }
    r
}

/// Lines `0..i+1` admit exactly what lines `0..i` admit, plus line `i`'s word
/// if that line is kept.
proof fn lemma_admitted_step(lines: Seq<Vec<char>>, max_len: nat, i: int)
    requires
        0 <= i < lines.len(),
    ensures
        forall|w: Seq<char>|
            admitted(lines.take(i + 1), max_len, w) <==> (admitted(lines.take(i), max_len, w) || (
            line_kept(lines[i]@, max_len) && w == line_word(lines[i]@))),
{
    let pre = lines.take(i);
    let cur = lines.take(i + 1);
    assert forall|w: Seq<char>|
        admitted(cur, max_len, w) implies (admitted(pre, max_len, w) || (line_kept(
        lines[i]@,
        max_len,
    ) && w == line_word(lines[i]@))) by {
        let j = choose|j: int|
            0 <= j < cur.len() && line_kept((#[trigger] cur[j])@, max_len) && line_word(cur[j]@)
                == w;
        if j < i {
            assert(pre[j] == cur[j]);
        } else {
            assert(cur[j] == lines[i]);
        }
    }
    assert forall|w: Seq<char>|
        (admitted(pre, max_len, w) || (line_kept(lines[i]@, max_len) && w == line_word(
            lines[i]@,
        ))) implies admitted(cur, max_len, w) by {
        if admitted(pre, max_len, w) {
            let j = choose|j: int|
                0 <= j < pre.len() && line_kept((#[trigger] pre[j])@, max_len) && line_word(pre[j]@)
                    == w;
            assert(cur[j] == pre[j]);
        } else {
            assert(cur[i] == lines[i]);
        }
    }
}

/// The texts of a word list.
pub open spec fn texts_of(ws: Seq<Word>) -> Seq<Seq<char>> {
    ws.map_values(|w: Word| w.text@)
}

/// The texts of a list of character vectors.
pub open spec fn word_texts(vs: Seq<Vec<char>>) -> Seq<Seq<char>> {
    vs.map_values(|v: Vec<char>| v@)
}

/// Distinct-word support of the letter `c`: how many of the given texts
/// contain it.
pub open spec fn support(ts: Seq<Seq<char>>, c: char) -> nat
    decreases ts.len(),
{
    if ts.len() == 0 {
        0
    } else {
        support(ts.drop_last(), c) + if ts.last().contains(c) {
            1nat
        } else {
            0nat
        }
    }
}

/// The minimum support a letter must reach over a base set of `word_count`
/// words: `min_pct` percent of the word count, rounded up.
pub open spec fn support_threshold(word_count: nat, min_pct: nat) -> nat {
    (word_count * min_pct + 99) / 100
}

/// Every character of `w` reaches the support threshold over the base texts.
pub open spec fn all_supported(base: Seq<Seq<char>>, w: Seq<char>, min_pct: nat) -> bool {
    forall|j: int|
        0 <= j < w.len() ==> support(base, #[trigger] w[j]) >= support_threshold(
            base.len(),
            min_pct,
        )
}

/// Count how many of the words' texts contain `c`.
fn support_count(words: &Vec<Word>, c: char) -> (r: usize)
    ensures
        r == support(texts_of(words@), c),
{
    let ghost ts = texts_of(words@);
    let mut n: usize = 0;
    let mut i: usize = 0;
    while i < words.len()
        invariant
            ts == texts_of(words@),
            i <= words@.len(),
            n <= i,
            n == support(ts.take(i as int), c),
        decreases words@.len() - i,
    {
        if contains_char(&words[i].text, c) {
            n = n + 1;
        }
        proof {
            assert(ts[i as int] == words@[i as int].text@);
            assert(ts.take(i as int + 1).drop_last() =~= ts.take(i as int));
            assert(ts.take(i as int + 1).last() == ts[i as int]);
        }
        i = i + 1;
    }
    proof {
        assert(ts.take(words@.len() as int) =~= ts);
    }
    n
}

/// Whether every character of `text` reaches the support threshold over the
/// given words.
fn text_supported(words: &Vec<Word>, text: &Vec<char>, min_pct: usize) -> (r: bool)
    ensures
        r == all_supported(texts_of(words@), text@, min_pct as nat),
{
    let n128: u128 = words.len() as u128;
    let p128: u128 = min_pct as u128;
    proof {
        assert(n128 * p128 + 99 <= u128::MAX) by (nonlinear_arith)
            requires
                n128 <= 0xffff_ffff_ffff_ffffu128,
                p128 <= 0xffff_ffff_ffff_ffffu128,
        ;
    }
    let th: u128 = (n128 * p128 + 99) / 100;
    proof {
        assert(th == support_threshold(words@.len(), min_pct as nat));
    }
    let mut j: usize = 0;
    while j < text.len()
        invariant
            j <= text@.len(),
            th == support_threshold(texts_of(words@).len(), min_pct as nat),
            forall|k: int|
                0 <= k < j ==> support(texts_of(words@), #[trigger] text@[k]) >= th,
        decreases text@.len() - j,
    {
        let sc = support_count(words, text[j]);
        if (sc as u128) < th {
            proof {
                assert(support(texts_of(words@), text@[j as int]) < support_threshold(
                    texts_of(words@).len(),
                    min_pct as nat,
                ));
            }
            return false;
        }
        j = j + 1;
    }
    true
}

/// Remove every word containing a letter whose distinct-word support lies
/// below `min_pct` percent of the word count (rounded up). Support is counted
/// over the input list itself. Order is preserved; the surviving entries are
/// rebuilt, so the output is well formed even if the input was not.
pub fn filter_by_min_letter_frequency(words: Vec<Word>, min_pct: usize) -> (r: Vec<Word>)
    ensures
        wf_words(r@),
        forall|x: Seq<char>|
            #[trigger] has_text(r@, x) <==> (has_text(words@, x) && all_supported(
                texts_of(words@),
                x,
                min_pct as nat,
            )),
        sorted_words(words@) ==> sorted_words(r@),
{
    let mut r: Vec<Word> = Vec::new();
    let ghost mut idxs: Seq<int> = Seq::empty();
    let mut i: usize = 0;
    while i < words.len()
        invariant
            i <= words@.len(),
            wf_words(r@),
            idxs.len() == r@.len(),
            forall|p: int|
                0 <= p < idxs.len() ==> 0 <= #[trigger] idxs[p] < i && r@[p].text@
                    == words@[idxs[p]].text@,
            forall|p: int, q: int| 0 <= p < q < idxs.len() ==> idxs[p] < idxs[q],
            forall|x: Seq<char>|
                has_text(r@, x) <==> (has_text(words@.take(i as int), x) && all_supported(
                    texts_of(words@),
                    x,
                    min_pct as nat,
                )),
        decreases words@.len() - i,
    {
        let ghost prev = r@;
        if text_supported(&words, &words[i].text, min_pct) {
            let t = clone_chars(&words[i].text);
            let w = make_word(t);
            r.push(w);
            proof {
                idxs = idxs.push(i as int);
            }
        }
        proof {
            let cur = words@.take(i as int + 1);
            let pre = words@.take(i as int);
            assert(cur.drop_last() =~= pre);
            assert(cur.last() == words@[i as int]);
            assert forall|x: Seq<char>| has_text(cur, x) implies (has_text(pre, x) || x
                == words@[i as int].text@) by {
                let k = choose|k: int| 0 <= k < cur.len() && (#[trigger] cur[k].text@) == x;
                if k < i {
                    assert(pre[k].text@ == x);
                }
            }
            assert forall|x: Seq<char>| has_text(pre, x) implies has_text(cur, x) by {
                let k = choose|k: int| 0 <= k < pre.len() && (#[trigger] pre[k].text@) == x;
                assert(cur[k].text@ == x);
            }
            assert(has_text(cur, words@[i as int].text@));
            assert forall|x: Seq<char>| has_text(r@, x) implies (has_text(cur, x) && all_supported(
                texts_of(words@),
                x,
                min_pct as nat,
            )) by {
                let k = choose|k: int| 0 <= k < r@.len() && (#[trigger] r@[k].text@) == x;
                if k < prev.len() {
                    assert(prev[k].text@ == x);
                    assert(has_text(prev, x));
                }
            }
            assert forall|x: Seq<char>|
                has_text(cur, x) && all_supported(texts_of(words@), x, min_pct as nat)
                implies has_text(r@, x) by {
                if has_text(pre, x) {
                    assert(has_text(prev, x));
                    let k = choose|k: int| 0 <= k < prev.len() && (#[trigger] prev[k].text@) == x;
                    assert(r@[k].text@ == x);
                } else {
                    assert(x == words@[i as int].text@);
                    assert(r@[r@.len() - 1].text@ == x);
                }
            }
        }
        i = i + 1;
    }
    proof {
        assert(words@.take(words@.len() as int) =~= words@);
        if sorted_words(words@) {
            assert forall|p: int, q: int| 0 <= p < q < r@.len() implies lex_lt(
                r@[p].text@,
                r@[q].text@,
            ) by {
                assert(r@[p].text@ == words@[idxs[p]].text@);
                assert(r@[q].text@ == words@[idxs[q]].text@);
            }
        }
    }
    r
}

/// Normalize raw word-list lines into a sorted, duplicate-free word set:
/// trim each line, skip blank lines and `#` comments, uppercase-fold, and
/// keep only words of at most `max_len` characters.
pub fn load_words(lines: &Vec<Vec<char>>, max_len: usize) -> (r: Vec<Vec<char>>)
    ensures
        sorted_unique(r@),
        forall|w: Seq<char>|
            #[trigger] has_word(r@, w) <==> admitted(lines@, max_len as nat, w),
{
    let mut r: Vec<Vec<char>> = Vec::new();
    let mut i: usize = 0;
    while i < lines.len()
        invariant
            i <= lines@.len(),
            sorted_unique(r@),
            forall|w: Seq<char>|
                has_word(r@, w) <==> admitted(lines@.take(i as int), max_len as nat, w),
        decreases lines@.len() - i,
    {
        let t = trim_chars(&lines[i]);
        let keep = t.len() > 0 && t[0] != '#' && t.len() <= max_len;
        proof {
            lemma_admitted_step(lines@, max_len as nat, i as int);
            assert(keep == line_kept(lines@[i as int]@, max_len as nat));
        }
        if keep {
            let w = fold_chars(&t);
            proof {
                assert(w@ == line_word(lines@[i as int]@));
            }
            insert_word(&mut r, w);
        }
        i = i + 1;
    }
    proof {
        assert(lines@.take(lines@.len() as int) =~= lines@);
    }
    r
}

/// A strictly ascending (hence duplicate-free) sequence of texts.
pub open spec fn sorted_texts(ts: Seq<Seq<char>>) -> bool {
    forall|i: int, j: int| 0 <= i < j < ts.len() ==> lex_lt(#[trigger] ts[i], #[trigger] ts[j])
}

/// `ts` is the canonical (sorted, duplicate-free) word set admitted by the
/// raw lines under the length cap `max_len`.
pub open spec fn is_base_texts(ts: Seq<Seq<char>>, lines: Seq<Vec<char>>, max_len: nat) -> bool {
    &&& sorted_texts(ts)
    &&& forall|w: Seq<char>| #[trigger] ts.contains(w) <==> admitted(lines, max_len, w)
}

/// In a strictly sorted text sequence, the tail holds exactly the members
/// other than the head.
proof fn lemma_tail_membership(t: Seq<Seq<char>>)
    requires
        sorted_texts(t),
        t.len() > 0,
    ensures
        forall|w: Seq<char>|
            #[trigger] t.drop_first().contains(w) <==> (t.contains(w) && w != t[0]),
{
    let u = t.drop_first();
    assert forall|w: Seq<char>| #[trigger] u.contains(w) implies (t.contains(w) && w != t[0]) by {
        let j = choose|j: int| 0 <= j < u.len() && u[j] == w;
        assert(u[j] == t[j + 1]);
        assert(lex_lt(t[0], t[j + 1]));
        lemma_lex_asym(t[0], t[j + 1]);
    }
    assert forall|w: Seq<char>| t.contains(w) && w != t[0] implies u.contains(w) by {
        let j = choose|j: int| 0 <= j < t.len() && t[j] == w;
        assert(u[j - 1] == t[j]);
    }
}

/// Two sorted duplicate-free text sequences with the same members are equal:
/// a word set has exactly one canonical form.
pub proof fn lemma_sorted_texts_unique(t1: Seq<Seq<char>>, t2: Seq<Seq<char>>)
    requires
        sorted_texts(t1),
        sorted_texts(t2),
        forall|w: Seq<char>|
            #![trigger t1.contains(w)]
            #![trigger t2.contains(w)]
            t1.contains(w) <==> t2.contains(w),
    ensures
        t1 == t2,
    decreases t1.len(),
{
    if t1.len() == 0 {
        if t2.len() > 0 {
            assert(t2.contains(t2[0]));
            assert(t1.contains(t2[0]));
            assert(false);
        }
        assert(t1 =~= t2);
    } else {
        assert(t1.contains(t1[0]));
        assert(t2.contains(t1[0]));
        assert(t2.len() > 0);
        assert(t2.contains(t2[0]));
        assert(t1.contains(t2[0]));
        if t1[0] != t2[0] {
            let k = choose|k: int| 0 <= k < t2.len() && t2[k] == t1[0];
            let m = choose|m: int| 0 <= m < t1.len() && t1[m] == t2[0];
            assert(lex_lt(t2[0], t2[k]));
            assert(lex_lt(t1[0], t1[m]));
            lemma_lex_asym(t1[0], t2[0]);
            assert(false);
        }
        let u1 = t1.drop_first();
        let u2 = t2.drop_first();
        assert forall|i: int, j: int| 0 <= i < j < u1.len() implies lex_lt(u1[i], u1[j]) by {
            assert(u1[i] == t1[i + 1]);
            assert(u1[j] == t1[j + 1]);
        }
        assert forall|i: int, j: int| 0 <= i < j < u2.len() implies lex_lt(u2[i], u2[j]) by {
            assert(u2[i] == t2[i + 1]);
            assert(u2[j] == t2[j + 1]);
        }
        lemma_tail_membership(t1);
        lemma_tail_membership(t2);
        assert forall|w: Seq<char>|
            #![trigger u1.contains(w)]
            #![trigger u2.contains(w)]
            u1.contains(w) <==> u2.contains(w) by {
            assert(u1.contains(w) <==> (t1.contains(w) && w != t1[0]));
            assert(u2.contains(w) <==> (t2.contains(w) && w != t2[0]));
        }
        lemma_sorted_texts_unique(u1, u2);
        assert forall|k: int| 0 <= k < t1.len() implies t1[k] == t2[k] by {
            if k > 0 {
                assert(u1[k - 1] == t1[k]);
                assert(u2[k - 1] == t2[k]);
            }
        }
        assert(t1 =~= t2);
    }
}

/// Membership of the final curated lexicon: a word of the filtered base set
/// or of the insertions, except the deletions. The statistical filter applies
/// to the base set only; insertions bypass it; a deletion always wins, under
/// its relaxed length cap.
pub open spec fn curated_member(
    base: Seq<Seq<char>>,
    ins_lines: Seq<Vec<char>>,
    del_lines: Seq<Vec<char>>,
    max_len: nat,
    w: Seq<char>,
) -> bool {
    &&& (base.contains(w) && all_supported(base, w, 1)) || admitted(ins_lines, max_len, w)
    &&& !admitted(del_lines, max_len + 100, w)
}

/// `ws` is the curated lexicon of the given raw sources: a well-formed,
/// sorted word list holding exactly the curated members relative to the
/// canonical base word set.
pub open spec fn curated_lexicon_of(
    ws: Seq<Word>,
    base_lines: Seq<Vec<char>>,
    ins_lines: Seq<Vec<char>>,
    del_lines: Seq<Vec<char>>,
    max_len: nat,
) -> bool {
    &&& wf_words(ws)
    &&& sorted_words(ws)
    &&& exists|base: Seq<Seq<char>>|
        #[trigger] is_base_texts(base, base_lines, max_len) && forall|w: Seq<char>|
            #[trigger] has_text(ws, w) <==> curated_member(base, ins_lines, del_lines, max_len, w)
}

/// Texts that are pointwise equal hold the same words.
proof fn lemma_text_membership(ws: Seq<Word>, vs: Seq<Vec<char>>, x: Seq<char>)
    requires
        ws.len() == vs.len(),
        forall|i: int| 0 <= i < ws.len() ==> (#[trigger] ws[i].text@) == vs[i]@,
    ensures
        has_text(ws, x) <==> has_word(vs, x),
{
    if has_text(ws, x) {
        let k = choose|k: int| 0 <= k < ws.len() && (#[trigger] ws[k].text@) == x;
        assert(vs[k]@ == x);
    }
    if has_word(vs, x) {
        let k = choose|k: int| 0 <= k < vs.len() && (#[trigger] vs[k]@) == x;
        assert(ws[k].text@ == x);
    }
}

/// A list of texts holds a word exactly when its view-sequence contains it.
proof fn lemma_word_texts_membership(vs: Seq<Vec<char>>, x: Seq<char>)
    ensures
        word_texts(vs).contains(x) <==> has_word(vs, x),
{
    let ts = word_texts(vs);
    if ts.contains(x) {
        let k = choose|k: int| 0 <= k < ts.len() && (#[trigger] ts[k]) == x;
        assert(vs[k]@ == x);
    }
    if has_word(vs, x) {
        let k = choose|k: int| 0 <= k < vs.len() && (#[trigger] vs[k]@) == x;
        assert(ts[k] == x);
    }
}

/// Build well-formed `Word` records over copies of the given texts.
fn words_from_texts(ts: &Vec<Vec<char>>) -> (r: Vec<Word>)
    ensures
        r@.len() == ts@.len(),
        forall|i: int|
            0 <= i < r@.len() ==> (#[trigger] r@[i]).wf() && r@[i].text@ == ts@[i]@,
{
    let mut r: Vec<Word> = Vec::new();
    let mut i: usize = 0;
    while i < ts.len()
        invariant
            i <= ts@.len(),
            r@.len() == i,
            forall|k: int| 0 <= k < i ==> (#[trigger] r@[k]).wf() && r@[k].text@ == ts@[k]@,
        decreases ts@.len() - i,
    {
        let t = clone_chars(&ts[i]);
        r.push(make_word(t));
        i = i + 1;
    }
    r
}

/// Copy the texts out of a word list.
fn texts_vec(ws: &Vec<Word>) -> (r: Vec<Vec<char>>)
    ensures
        r@.len() == ws@.len(),
        forall|i: int| 0 <= i < r@.len() ==> (#[trigger] r@[i]@) == ws@[i].text@,
{
    let mut r: Vec<Vec<char>> = Vec::new();
    let mut i: usize = 0;
    while i < ws.len()
        invariant
            i <= ws@.len(),
            r@.len() == i,
            forall|k: int| 0 <= k < i ==> (#[trigger] r@[k]@) == ws@[k].text@,
        decreases ws@.len() - i,
    {
        r.push(clone_chars(&ws[i].text));
        i = i + 1;
    }
    r
}

/// Curate one language's lexicon from its three raw sources, already split
/// into lines: the base word list, the hand-curated insertions, and the
/// deletions. A missing or unreadable source is passed as no lines at all and
/// contributes nothing.
pub fn load_filtered_words(
    base_lines: &Vec<Vec<char>>,
    insertion_lines: &Vec<Vec<char>>,
    deletion_lines: &Vec<Vec<char>>,
    max_len: usize,
) -> (r: Vec<Word>)
    requires
        max_len + 100 <= usize::MAX,
    ensures
        curated_lexicon_of(
            r@,
            base_lines@,
            insertion_lines@,
            deletion_lines@,
            max_len as nat,
        ),
{
    // Base word set, then the statistical noise filter over it alone.
    let base_texts = load_words(base_lines, max_len);
    let ghost base: Seq<Seq<char>> = word_texts(base_texts@);
    proof {
        assert forall|i: int, j: int| 0 <= i < j < base.len() implies lex_lt(base[i], base[j]) by {
            assert(base[i] == base_texts@[i]@);
            assert(base[j] == base_texts@[j]@);
        }
        assert forall|x: Seq<char>| #[trigger] base.contains(x) <==> admitted(
            base_lines@,
            max_len as nat,
            x,
        ) by {
            lemma_word_texts_membership(base_texts@, x);
        }
        assert(is_base_texts(base, base_lines@, max_len as nat));
    }
    let base_words = words_from_texts(&base_texts);
    proof {
        assert(texts_of(base_words@) =~= base);
        assert forall|i: int, j: int| 0 <= i < j < base_words@.len() implies lex_lt(
            base_words@[i].text@,
            base_words@[j].text@,
        ) by {
            assert(base_texts@[i]@ == base_words@[i].text@);
            assert(base_texts@[j]@ == base_words@[j].text@);
        }
    }
    let filtered = filter_by_min_letter_frequency(base_words, 1);
    // Working set: filtered base, merged with the insertions.
    let mut working = texts_vec(&filtered);
    proof {
        assert forall|i: int, j: int| 0 <= i < j < working@.len() implies lex_lt(
            working@[i]@,
            working@[j]@,
        ) by {
            assert(working@[i]@ == filtered@[i].text@);
            assert(working@[j]@ == filtered@[j].text@);
        }
    }
    let ghost after_filter = working@;
    proof {
        assert forall|x: Seq<char>| #[trigger] has_word(after_filter, x) <==> (base.contains(x)
            && all_supported(base, x, 1)) by {
            lemma_text_membership(filtered@, working@, x);
            assert(has_text(filtered@, x) <==> (has_text(base_words@, x) && all_supported(
                texts_of(base_words@),
                x,
                1nat,
            )));
            lemma_text_membership(base_words@, base_texts@, x);
            lemma_word_texts_membership(base_texts@, x);
        }
    }
    let ins_texts = load_words(insertion_lines, max_len);
    let mut j: usize = 0;
    while j < ins_texts.len()
        invariant
            j <= ins_texts@.len(),
            sorted_unique(working@),
            // Everything merged so far is in; nothing else crept in; nothing
            // of the filtered base fell out.
            forall|k: int| 0 <= k < j ==> has_word(working@, (#[trigger] ins_texts@[k])@),
            forall|x: Seq<char>|
                #[trigger] has_word(working@, x) ==> (has_word(after_filter, x) || has_word(
                    ins_texts@,
                    x,
                )),
            forall|x: Seq<char>| #[trigger] has_word(after_filter, x) ==> has_word(working@, x),
        decreases ins_texts@.len() - j,
    {
        let w = clone_chars(&ins_texts[j]);
        let ghost prev = working@;
        insert_word(&mut working, w);
        proof {
            let jj = j as int;
            assert forall|k: int| 0 <= k < jj + 1 implies has_word(
                working@,
                (#[trigger] ins_texts@[k])@,
            ) by {
                if k < jj {
                    assert(has_word(prev, ins_texts@[k]@));
                }
                assert(has_word(working@, ins_texts@[k]@) <==> (has_word(prev, ins_texts@[k]@)
                    || ins_texts@[k]@ == ins_texts@[jj]@));
            }
            assert forall|x: Seq<char>| #[trigger] has_word(working@, x) implies (has_word(
                after_filter,
                x,
            ) || has_word(ins_texts@, x)) by {
                if !has_word(prev, x) {
                    assert(x == ins_texts@[jj]@);
                }
            }
            assert forall|x: Seq<char>| #[trigger] has_word(after_filter, x) implies has_word(
                working@,
                x,
            ) by {
                assert(has_word(prev, x));
            }
        }
        j = j + 1;
    }
    let ghost after_merge = working@;
    proof {
        assert forall|x: Seq<char>| #[trigger] has_word(after_merge, x) <==> (has_word(
            after_filter,
            x,
        ) || has_word(ins_texts@, x)) by {
            if has_word(ins_texts@, x) {
                let k = choose|k: int| 0 <= k < ins_texts@.len() && (#[trigger] ins_texts@[k]@)
                    == x;
                assert(has_word(after_merge, ins_texts@[k]@));
            }
        }
    }
    // Deletions override everything, under a deliberately relaxed length cap.
    let del_texts = load_words(deletion_lines, max_len + 100);
    let mut j: usize = 0;
    while j < del_texts.len()
        invariant
            j <= del_texts@.len(),
            sorted_unique(working@),
            // Everything deleted so far is out; nothing else fell out; only
            // listed words were removed.
            forall|k: int| 0 <= k < j ==> !has_word(working@, (#[trigger] del_texts@[k])@),
            forall|x: Seq<char>| #[trigger] has_word(working@, x) ==> has_word(after_merge, x),
            forall|x: Seq<char>|
                #[trigger] has_word(after_merge, x) && !has_word(del_texts@, x) ==> has_word(
                    working@,
                    x,
                ),
        decreases del_texts@.len() - j,
    {
        let ghost prev = working@;
        remove_word(&mut working, &del_texts[j]);
        proof {
            let jj = j as int;
            assert forall|k: int| 0 <= k < jj + 1 implies !has_word(
                working@,
                (#[trigger] del_texts@[k])@,
            ) by {
                assert(has_word(working@, del_texts@[k]@) <==> (has_word(prev, del_texts@[k]@)
                    && del_texts@[k]@ != del_texts@[jj]@));
                if k < jj {
                    assert(!has_word(prev, del_texts@[k]@));
                }
            }
            assert forall|x: Seq<char>| #[trigger] has_word(working@, x) implies has_word(
                after_merge,
                x,
            ) by {
                assert(has_word(prev, x));
            }
            assert forall|x: Seq<char>|
                #[trigger] has_word(after_merge, x) && !has_word(del_texts@, x) implies has_word(
                working@,
                x,
            ) by {
                assert(has_word(prev, x));
                if x == del_texts@[jj]@ {
                    assert(has_word(del_texts@, x));
                }
            }
        }
        j = j + 1;
    }
    let r = words_from_texts(&working);
    proof {
        assert forall|i: int, j2: int| 0 <= i < j2 < r@.len() implies lex_lt(
            r@[i].text@,
            r@[j2].text@,
        ) by {
            assert(working@[i]@ == r@[i].text@);
            assert(working@[j2]@ == r@[j2].text@);
        }
        assert forall|w: Seq<char>| #[trigger] has_text(r@, w) <==> curated_member(
            base,
            insertion_lines@,
            deletion_lines@,
            max_len as nat,
            w,
        ) by {
            lemma_text_membership(r@, working@, w);
            if has_word(del_texts@, w) {
                let k = choose|k: int| 0 <= k < del_texts@.len() && (#[trigger] del_texts@[k]@)
                    == w;
                assert(!has_word(working@, del_texts@[k]@));
            }
            assert(has_word(working@, w) ==> has_word(after_merge, w));
            assert(has_word(after_merge, w) && !has_word(del_texts@, w) ==> has_word(working@, w));
            assert(has_word(after_merge, w) <==> (has_word(after_filter, w) || has_word(
                ins_texts@,
                w,
            )));
            assert(has_word(after_filter, w) <==> (base.contains(w) && all_supported(
                base,
                w,
                1nat,
            )));
            assert(has_word(ins_texts@, w) <==> admitted(insertion_lines@, max_len as nat, w));
            assert(has_word(del_texts@, w) <==> admitted(
                deletion_lines@,
                (max_len + 100) as nat,
                w,
            ));
        }
        assert(is_base_texts(base, base_lines@, max_len as nat) && forall|w: Seq<char>|
            #[trigger] has_text(r@, w) <==> curated_member(
                base,
                insertion_lines@,
                deletion_lines@,
                max_len as nat,
                w,
            ));
    }
    r
}

/// Law: a word the deletions file lists is absent from the curated lexicon,
/// whether or not the base lexicon or the insertions carry it.
pub proof fn lemma_deletions_absent(
    ws: Seq<Word>,
    base_lines: Seq<Vec<char>>,
    ins_lines: Seq<Vec<char>>,
    del_lines: Seq<Vec<char>>,
    max_len: nat,
    w: Seq<char>,
)
    requires
        curated_lexicon_of(ws, base_lines, ins_lines, del_lines, max_len),
        admitted(del_lines, max_len + 100, w),
    ensures
        !has_text(ws, w),
{
    let base = choose|base: Seq<Seq<char>>|
        #[trigger] is_base_texts(base, base_lines, max_len) && forall|x: Seq<char>|
            #[trigger] has_text(ws, x) <==> curated_member(base, ins_lines, del_lines, max_len, x);
    assert(has_text(ws, w) <==> curated_member(base, ins_lines, del_lines, max_len, w));
}

/// Law: every letter of a curated word that the insertions do not account
/// for meets the distinct-word support threshold of one percent, computed
/// over the base word set alone.
pub proof fn lemma_curated_letters_supported(
    ws: Seq<Word>,
    base_lines: Seq<Vec<char>>,
    ins_lines: Seq<Vec<char>>,
    del_lines: Seq<Vec<char>>,
    max_len: nat,
    base: Seq<Seq<char>>,
    w: Seq<char>,
)
    requires
        curated_lexicon_of(ws, base_lines, ins_lines, del_lines, max_len),
        is_base_texts(base, base_lines, max_len),
        has_text(ws, w),
        !admitted(ins_lines, max_len, w),
    ensures
        all_supported(base, w, 1),
{
    let base0 = choose|base0: Seq<Seq<char>>|
        #[trigger] is_base_texts(base0, base_lines, max_len) && forall|x: Seq<char>|
            #[trigger] has_text(ws, x) <==> curated_member(base0, ins_lines, del_lines, max_len, x);
    assert(has_text(ws, w) <==> curated_member(base0, ins_lines, del_lines, max_len, w));
    assert forall|x: Seq<char>|
        #![trigger base.contains(x)]
        #![trigger base0.contains(x)]
        base.contains(x) <==> base0.contains(x) by {
        assert(base.contains(x) <==> admitted(base_lines, max_len, x));
        assert(base0.contains(x) <==> admitted(base_lines, max_len, x));
    }
    lemma_sorted_texts_unique(base, base0);
}

} // verus!

