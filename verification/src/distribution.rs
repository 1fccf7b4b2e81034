//! Distribution engine: letter frequencies over a curated lexicon and the
//! fixed-size weighted tile bag derived from them.

use vstd::prelude::*;

use crate::letters::{is_letter, is_upper_letter, upper};
use crate::letters::{is_letter_char, upper_char};
use crate::tables::{has_key, spec_get, sum_values, table_sorted};
use crate::tables::{lemma_get_at, lemma_sorted_keys_unique, lemma_sum_bounds, lemma_sum_lower,
    lemma_sum_take_le, lemma_sum_take_step, lemma_sum_update, lemma_sum_push, lemma_value_le_sum,
    lemma_get_absent, table_bump};
use crate::words::Word;

verus! {

/// Letters of `s` that fold to `c`, counted with multiplicity; characters
/// outside the alphabet are ignored.
pub open spec fn letter_count_text(s: Seq<char>, c: char) -> nat
    decreases s.len(),
{
    if s.len() == 0 {
        0
    } else {
        letter_count_text(s.drop_last(), c) + if is_letter(s.last()) && upper(s.last()) == c {
            1nat
        } else {
            0nat
        }
    }
}

/// Letters of all the words' texts that fold to `c`.
pub open spec fn letters_count(ws: Seq<Word>, c: char) -> nat
    decreases ws.len(),
{
    if ws.len() == 0 {
        0
    } else {
        letters_count(ws.drop_last(), c) + letter_count_text(ws.last().text@, c)
    }
}

/// Total characters across the words' texts.
pub open spec fn total_text_chars(ws: Seq<Word>) -> nat
    decreases ws.len(),
{
    if ws.len() == 0 {
        0
    } else {
        total_text_chars(ws.drop_last()) + ws.last().text@.len()
    }
}

proof fn lemma_letter_count_le_len(s: Seq<char>, c: char)
    ensures
        letter_count_text(s, c) <= s.len(),
    decreases s.len(),
{
    if s.len() > 0 {
        lemma_letter_count_le_len(s.drop_last(), c);
    }
}

proof fn lemma_letters_count_le_total(ws: Seq<Word>, c: char)
    ensures
        letters_count(ws, c) <= total_text_chars(ws),
    decreases ws.len(),
{
    if ws.len() > 0 {
        lemma_letters_count_le_total(ws.drop_last(), c);
        lemma_letter_count_le_len(ws.last().text@, c);
    }
}

proof fn lemma_total_take_step(ws: Seq<Word>, i: int)
    requires
        0 <= i < ws.len(),
    ensures
        total_text_chars(ws.take(i + 1)) == total_text_chars(ws.take(i)) + ws[i].text@.len(),
{
    assert(ws.take(i + 1).drop_last() =~= ws.take(i));
    assert(ws.take(i + 1).last() == ws[i]);
}

proof fn lemma_total_take_le(ws: Seq<Word>, i: int)
    requires
        0 <= i <= ws.len(),
    ensures
        total_text_chars(ws.take(i)) <= total_text_chars(ws),
    decreases ws.len() - i,
{
    if i == ws.len() {
        assert(ws.take(i) =~= ws);
    } else {
        lemma_total_take_step(ws, i);
        lemma_total_take_le(ws, i + 1);
    }
}

/// Count every letter occurring in the words' texts, folded to uppercase,
/// into a frequency table. The lexicon defines the alphabet: accented letters
/// count at their natural frequency, characters outside the alphabet not at
/// all.
pub fn calculate_distribution_from_set(words: &Vec<Word>) -> (r: Vec<(char, usize)>)
    requires
        total_text_chars(words@) <= usize::MAX,
    ensures
        table_sorted(r@),
        forall|c: char| #[trigger] spec_get(r@, c) == letters_count(words@, c),
        forall|i: int| 0 <= i < r@.len() ==> (#[trigger] r@[i]).1 >= 1,
        forall|c: char| #[trigger] has_key(r@, c) ==> is_upper_letter(c),
        sum_values(r@) <= total_text_chars(words@),
{
    let mut r: Vec<(char, usize)> = Vec::new();
    let mut i: usize = 0;
    while i < words.len()
        invariant
            i <= words@.len(),
            total_text_chars(words@) <= usize::MAX,
            table_sorted(r@),
            forall|c: char|
                #[trigger] spec_get(r@, c) == letters_count(words@.take(i as int), c),
            forall|k: int| 0 <= k < r@.len() ==> (#[trigger] r@[k]).1 >= 1,
            forall|c: char| #[trigger] has_key(r@, c) ==> is_upper_letter(c),
            sum_values(r@) <= total_text_chars(words@.take(i as int)),
        decreases words@.len() - i,
    {
        let text = &words[i].text;
        let mut j: usize = 0;
        while j < text.len()
            invariant
                i < words@.len(),
                j <= text@.len(),
                text@ == words@[i as int].text@,
                total_text_chars(words@) <= usize::MAX,
                table_sorted(r@),
                forall|c: char|
                    #[trigger] spec_get(r@, c) == letters_count(words@.take(i as int), c)
                        + letter_count_text(text@.take(j as int), c),
                forall|k: int| 0 <= k < r@.len() ==> (#[trigger] r@[k]).1 >= 1,
                forall|c: char| #[trigger] has_key(r@, c) ==> is_upper_letter(c),
                sum_values(r@) <= total_text_chars(words@.take(i as int)) + j,
            decreases text@.len() - j,
        {
            let ch = text[j];
            let ghost prevr = r@;
            if is_letter_char(ch) {
                let u = upper_char(ch);
                proof {
                    lemma_letters_count_le_total(words@.take(i as int), upper(ch));
                    lemma_total_take_le(words@, i as int + 1);
                    lemma_total_take_step(words@, i as int);
                    lemma_letter_count_le_len(text@.take(j as int), upper(ch));
                    assert(spec_get(r@, upper(ch)) < usize::MAX);
                }
                table_bump(&mut r, u);
            }
            j = j + 1;
            proof {
                assert(text@.take(j as int).drop_last() =~= text@.take(j as int - 1));
                assert(text@.take(j as int).last() == text@[j as int - 1]);
                assert forall|c: char|
                    #[trigger] spec_get(r@, c) == letters_count(words@.take(i as int), c)
                        + letter_count_text(text@.take(j as int), c) by {
                    if is_letter(text@[j as int - 1]) && upper(text@[j as int - 1]) == c {
                        assert(spec_get(r@, c) == spec_get(prevr, c) + 1);
                    } else {
                        if is_letter(text@[j as int - 1]) {
                            assert(spec_get(r@, c) == spec_get(prevr, c));
                        }
                    }
                }
            }
        }
        i = i + 1;
        proof {
            assert(text@.take(text@.len() as int) =~= text@);
            lemma_total_take_step(words@, i as int - 1);
            lemma_total_take_le(words@, i as int);
            assert(words@.take(i as int).drop_last() =~= words@.take(i as int - 1));
            assert(words@.take(i as int).last() == words@[i as int - 1]);
            assert forall|c: char|
                #[trigger] spec_get(r@, c) == letters_count(words@.take(i as int), c) by {
                assert(letters_count(words@.take(i as int), c) == letters_count(
                    words@.take(i as int - 1),
                    c,
                ) + letter_count_text(words@[i as int - 1].text@, c));
            }
        }
    }
    proof {
        assert(words@.take(words@.len() as int) =~= words@);
    }
    r
}

/// The larger of two counts.
pub open spec fn max_nat(a: nat, b: nat) -> nat {
    if a >= b {
        a
    } else {
        b
    }
}

/// The proportional share of `pool` for a letter seen `f` times out of
/// `total` letter occurrences: `f / total * pool`, rounded half up.
pub open spec fn share_round(f: nat, total: nat, pool: nat) -> nat {
    (f * pool) / total + if 2 * ((f * pool) % total) >= total {
        1nat
    } else {
        0nat
    }
}

/// The share a letter is granted before the global adjustment: its rounded
/// proportional share, but at least one tile, so every observed letter stays
/// playable.
pub open spec fn share_granted(f: nat, total: nat, pool: nat) -> nat {
    max_nat(share_round(f, total, pool), 1)
}

/// Sum of the granted shares over a frequency table.
pub open spec fn shares_sum(t: Seq<(char, usize)>, total: nat, pool: nat) -> nat
    decreases t.len(),
{
    if t.len() == 0 {
        0
    } else {
        shares_sum(t.drop_last(), total, pool) + share_granted(t.last().1 as nat, total, pool)
    }
}

proof fn lemma_shares_take_step(t: Seq<(char, usize)>, total: nat, pool: nat, i: int)
    requires
        0 <= i < t.len(),
    ensures
        shares_sum(t.take(i + 1), total, pool) == shares_sum(t.take(i), total, pool)
            + share_granted(t[i].1 as nat, total, pool),
{
    assert(t.take(i + 1).drop_last() =~= t.take(i));
    assert(t.take(i + 1).last() == t[i]);
}

/// A letter's rounded share never exceeds the pool.
proof fn lemma_share_le_pool(f: nat, total: nat, pool: nat)
    requires
        1 <= total,
        f <= total,
    ensures
        share_round(f, total, pool) <= pool,
{
    let fpi = (f * pool) as int;
    let ti = total as int;
    vstd::arithmetic::div_mod::lemma_fundamental_div_mod(fpi, ti);
    vstd::arithmetic::div_mod::lemma_mod_bound(fpi, ti);
    let q = fpi / ti;
    let r = fpi % ti;
    assert(fpi <= ti * (pool as int)) by (nonlinear_arith)
        requires
            f <= total,
            fpi == (f as int) * (pool as int),
            ti == total as int,
    ;
    assert(q <= pool as int) by (nonlinear_arith)
        requires
            ti >= 1,
            fpi == ti * q + r,
            r >= 0,
            fpi <= ti * (pool as int),
    ;
    if 2 * r >= ti {
        assert(q < pool as int) by (nonlinear_arith)
            requires
                ti >= 1,
                fpi == ti * q + r,
                2 * r >= ti,
                fpi <= ti * (pool as int),
        ;
    }
}

/// The granted share for a letter seen `f` times out of `total`, of a pool of
/// `pool` tiles.
fn granted_share(f: usize, total: usize, pool: usize) -> (r: usize)
    requires
        1 <= total,
        f <= total,
    ensures
        r == share_granted(f as nat, total as nat, pool as nat),
        1 <= r <= max_nat(pool as nat, 1),
{
    let fw = f as u128;
    let tw = total as u128;
    let pw = pool as u128;
    proof {
        assert(fw * pw <= 0xffff_ffff_ffff_ffff_ffff_ffff_ffff_ffffu128) by (nonlinear_arith)
            requires
                fw <= 0xffff_ffff_ffff_ffffu128,
                pw <= 0xffff_ffff_ffff_ffffu128,
        ;
    }
    let fp = fw * pw;
    let q = fp / tw;
    let rem = fp % tw;
    proof {
        vstd::arithmetic::div_mod::lemma_mod_bound(fp as int, tw as int);
        lemma_share_le_pool(f as nat, total as nat, pool as nat);
    }
    let s128: u128 = if 2 * rem >= tw {
        q + 1
    } else {
        q
    };
    proof {
        assert(s128 == share_round(f as nat, total as nat, pool as nat));
    }
    let r: usize;
    if s128 == 0 {
        r = 1;
    } else {
        proof {
            assert(s128 <= pw);
        }
        r = s128 as usize;
    }
    r
}

/// Build the weighted tile bag for a letter-frequency table: two wildcard
/// tiles, then a proportional rounded share of the remaining pool per letter
/// (at least one tile each), then a global adjustment. A leftover is handed
/// out one tile at a time cycling through the letters by descending
/// frequency; an overshoot is taken back one tile at a time from the rarest
/// letter still holding more than one, so the bag sums to the target exactly
/// whenever the letters fit in the pool at one tile each.
pub fn compute_tile_bag(freq: &Vec<(char, usize)>, total_tiles: usize) -> (r: Vec<(char, usize)>)
    requires
        table_sorted(freq@),
        forall|i: int| 0 <= i < freq@.len() ==> (#[trigger] freq@[i]).1 >= 1,
        !has_key(freq@, '_'),
        total_tiles >= 2,
        sum_values(freq@) <= usize::MAX,
    ensures
        table_sorted(r@),
        freq@.len() == 0 ==> r@.len() == 0,
        freq@.len() > 0 ==> spec_get(r@, '_') == 2,
        freq@.len() > 0 ==> (forall|x: char|
            #[trigger] has_key(r@, x) <==> (has_key(freq@, x) || x == '_')),
        freq@.len() > 0 ==> (forall|x: char| #[trigger] has_key(freq@, x) ==> spec_get(r@, x) >= 1),
        freq@.len() > 0 ==> sum_values(r@) == max_nat(total_tiles as nat, freq@.len() + 2),
        freq@.len() > 0 && shares_sum(freq@, sum_values(freq@), (total_tiles - 2) as nat) <= (
        total_tiles - 2) as nat ==> (forall|k: int|
            0 <= k < freq@.len() ==> spec_get(r@, (#[trigger] freq@[k]).0) >= share_granted(
                freq@[k].1 as nat,
                sum_values(freq@),
                (total_tiles - 2) as nat,
            )),
        freq@.len() > 0 && shares_sum(freq@, sum_values(freq@), (total_tiles - 2) as nat) == (
        total_tiles - 2) as nat ==> (forall|k: int|
            0 <= k < freq@.len() ==> spec_get(r@, (#[trigger] freq@[k]).0) == share_granted(
                freq@[k].1 as nat,
                sum_values(freq@),
                (total_tiles - 2) as nat,
            )),
{
    let n = freq.len();
    if n == 0 {
        let r: Vec<(char, usize)> = Vec::new();
        return r;
    }
    let pool = total_tiles - 2;
    let ghost gf = sum_values(freq@);
    let ghost gpool = pool as nat;
    // Total letter occurrences.
    let mut total_chars: usize = 0;
    let mut i: usize = 0;
    while i < n
        invariant
            n == freq@.len(),
            i <= n,
            sum_values(freq@) <= usize::MAX,
            total_chars == sum_values(freq@.take(i as int)),
        decreases n - i,
    {
        proof {
            lemma_sum_take_step(freq@, i as int);
            lemma_sum_take_le(freq@, i as int + 1);
        }
        total_chars = total_chars + freq[i].1;
        i = i + 1;
    }
    proof {
        assert(freq@.take(n as int) =~= freq@);
        lemma_sum_lower(freq@, 1);
        assert(total_chars >= n);
    }
    // First pass: one granted share per letter, in table order.
    let mut tiles: Vec<(char, usize)> = Vec::new();
    let mut i: usize = 0;
    while i < n
        invariant
            n == freq@.len(),
            n >= 1,
            i <= n,
            gf == sum_values(freq@),
            total_chars == gf,
            gf <= usize::MAX,
            pool == gpool,
            tiles@.len() == i,
            forall|k: int|
                0 <= k < i ==> (#[trigger] tiles@[k]).0 == freq@[k].0 && tiles@[k].1
                    == share_granted(freq@[k].1 as nat, gf, gpool) && 1 <= tiles@[k].1
                    <= max_nat(gpool, 1),
            sum_values(tiles@) == shares_sum(freq@.take(i as int), gf, gpool),
            forall|k: int| 0 <= k < freq@.len() ==> (#[trigger] freq@[k]).1 >= 1,
        decreases n - i,
    {
        proof {
            lemma_value_le_sum(freq@, i as int);
        }
        let s = granted_share(freq[i].1, total_chars, pool);
        let ghost prev = tiles@;
        tiles.push((freq[i].0, s));
        proof {
            lemma_sum_push(prev, (freq@[i as int].0, s));
            lemma_shares_take_step(freq@, gf, gpool, i as int);
        }
        i = i + 1;
    }
    proof {
        assert(freq@.take(n as int) =~= freq@);
    }
    let ghost gshares = shares_sum(freq@, gf, gpool);
    // Second pass: adjust to the target.
    let mut allocated: u128 = 0;
    let mut i: usize = 0;
    while i < n
        invariant
            n == tiles@.len(),
            i <= n,
            allocated == sum_values(tiles@.take(i as int)),
            allocated <= (i as int) * 0xffff_ffff_ffff_ffff,
            forall|k: int| 0 <= k < n ==> (#[trigger] tiles@[k]).1 >= 1,
        decreases n - i,
    {
        proof {
            lemma_sum_take_step(tiles@, i as int);
            assert((i as int) * 0xffff_ffff_ffff_ffff + 0xffff_ffff_ffff_ffff == (i as int + 1)
                * 0xffff_ffff_ffff_ffff) by (nonlinear_arith);
            assert((i as int + 1) * 0xffff_ffff_ffff_ffff <= 0xffff_ffff_ffff_ffff
                * 0xffff_ffff_ffff_ffff) by (nonlinear_arith)
                requires
                    i as int + 1 <= 0xffff_ffff_ffff_ffff,
            ;
            assert(0xffff_ffff_ffff_ffff * 0xffff_ffff_ffff_ffff
                < 0xffff_ffff_ffff_ffff_ffff_ffff_ffff_ffff) by (nonlinear_arith);
        }
        allocated = allocated + (tiles[i].1 as u128);
        i = i + 1;
    }
    proof {
        assert(tiles@.take(n as int) =~= tiles@);
        assert(allocated == gshares);
    }
    if allocated < (pool as u128) {
        // Leftover tiles go to the letters by descending frequency, cycling.
        let order = frequency_order_desc(freq);
        let remainder: usize = ((pool as u128) - allocated) as usize;
        let mut m: usize = 0;
        while m < remainder
            invariant
                n == freq@.len(),
                n >= 1,
                n == tiles@.len(),
                n == order@.len(),
                forall|k: int| 0 <= k < n ==> (#[trigger] order@[k]) < n,
                m <= remainder,
                gshares + remainder == gpool,
                gpool <= usize::MAX,
                sum_values(tiles@) == gshares + m,
                forall|k: int|
                    0 <= k < n ==> (#[trigger] tiles@[k]).0 == freq@[k].0 && tiles@[k].1
                        >= share_granted(freq@[k].1 as nat, gf, gpool) && tiles@[k].1 >= 1,
            decreases remainder - m,
        {
            let pos = order[m % n];
            let (c, v) = tiles[pos];
            proof {
                lemma_value_le_sum(tiles@, pos as int);
            }
            let ghost prev = tiles@;
            tiles.set(pos, (c, v + 1));
            proof {
                lemma_sum_update(prev, pos as int, (v + 1) as usize);
                assert forall|k: int|
                    0 <= k < n implies (#[trigger] tiles@[k]).0 == freq@[k].0 && tiles@[k].1
                        >= share_granted(freq@[k].1 as nat, gf, gpool) && tiles@[k].1 >= 1 by {
                    if k != pos {
                        assert(tiles@[k] == prev[k]);
                    }
                }
            }
            m = m + 1;
        }
        proof {
            lemma_sum_lower(tiles@, 1);
            assert(sum_values(tiles@) == max_nat(gpool, n as nat));
        }
    } else if allocated > (pool as u128) {
        // Overshoot comes back from the rarest letters, never below one tile.
        let mut to_remove: u128 = allocated - (pool as u128);
        loop
            invariant
                n == freq@.len(),
                n >= 1,
                n == tiles@.len(),
                table_sorted(freq@),
                sum_values(tiles@) == gpool + to_remove,
                forall|k: int|
                    0 <= k < n ==> (#[trigger] tiles@[k]).0 == freq@[k].0 && tiles@[k].1 >= 1,
            ensures
                n == tiles@.len(),
                sum_values(tiles@) == gpool + to_remove,
                forall|k: int|
                    0 <= k < n ==> (#[trigger] tiles@[k]).0 == freq@[k].0 && tiles@[k].1 >= 1,
                to_remove == 0 || (forall|k: int| 0 <= k < n ==> (#[trigger] tiles@[k]).1 == 1),
            decreases to_remove,
        {
            if to_remove == 0 {
                break;
            }
            // The rarest letter still holding more than one tile, ties broken
            // by ascending letter.
            let mut best: usize = n;
            let mut bi: usize = 0;
            while bi < n
                invariant
                    n == freq@.len(),
                    n == tiles@.len(),
                    bi <= n,
                    best == n || (best < bi && tiles@[best as int].1 > 1),
                    best == n ==> (forall|k: int| 0 <= k < bi ==> (#[trigger] tiles@[k]).1 <= 1),
                decreases n - bi,
            {
                if tiles[bi].1 > 1 && (best == n || freq[bi].1 < freq[best].1) {
                    best = bi;
                }
                bi = bi + 1;
            }
            if best == n {
                proof {
                    assert forall|k: int| 0 <= k < n implies (#[trigger] tiles@[k]).1 == 1 by {}
                }
                break;
            }
            let (c, v) = tiles[best];
            let ghost prev = tiles@;
            tiles.set(best, (c, v - 1));
            proof {
                lemma_sum_update(prev, best as int, (v - 1) as usize);
                assert forall|k: int|
                    0 <= k < n implies (#[trigger] tiles@[k]).0 == freq@[k].0 && tiles@[k].1
                        >= 1 by {
                    if k != best {
                        assert(tiles@[k] == prev[k]);
                    }
                }
            }
            to_remove = to_remove - 1;
        }
        proof {
            if to_remove > 0 {
                lemma_sum_bounds(tiles@, 1, 1);
                assert(sum_values(tiles@) == n as nat);
            } else {
                // The letters fit below the pool, since each keeps a tile.
                lemma_sum_lower(tiles@, 1);
                assert(n <= gpool);
            }
            assert(sum_values(tiles@) == max_nat(gpool, n as nat));
        }
    } else {
        proof {
            lemma_sum_lower(tiles@, 1);
            assert(sum_values(tiles@) == max_nat(gpool, n as nat));
        }
    }
    // The two wildcard tiles.
    proof {
        assert forall|x: char| #[trigger] has_key(tiles@, x) implies has_key(freq@, x) by {
            let k = choose|k: int| 0 <= k < tiles@.len() && (#[trigger] tiles@[k]).0 == x;
            assert(freq@[k].0 == x);
        }
        assert forall|x: char| #[trigger] has_key(freq@, x) implies has_key(tiles@, x) by {
            let k = choose|k: int| 0 <= k < freq@.len() && (#[trigger] freq@[k]).0 == x;
            assert(tiles@[k].0 == x);
        }
        assert forall|p: int, q: int|
            0 <= p < q < tiles@.len() implies ((#[trigger] tiles@[p]).0 as u32) < ((
        #[trigger] tiles@[q]).0 as u32) by {
            assert(tiles@[p].0 == freq@[p].0);
            assert(tiles@[q].0 == freq@[q].0);
        }
        assert forall|j: int| 0 <= j < tiles@.len() implies (#[trigger] tiles@[j]).0 != '_' by {
            if tiles@[j].0 == '_' {
                assert(has_key(freq@, '_'));
            }
        }
        lemma_get_absent(tiles@, '_');
    }
    let ghost before_blanks = tiles@;
    table_bump(&mut tiles, '_');
    table_bump(&mut tiles, '_');
    proof {
        // Per-letter counts carry over the wildcard insertions.
        assert forall|k: int|
            0 <= k < freq@.len() implies spec_get(tiles@, (#[trigger] freq@[k]).0)
                == before_blanks[k].1 by {
            assert(before_blanks[k].0 == freq@[k].0);
            lemma_sorted_keys_unique(before_blanks, k);
            lemma_get_at(before_blanks, k);
            assert(before_blanks[k].0 != '_');
        }
        if gshares <= gpool {
            assert forall|k: int|
                0 <= k < freq@.len() implies before_blanks[k].1 >= share_granted(
                (#[trigger] freq@[k]).1 as nat,
                gf,
                gpool,
            ) by {}
            if gshares == gpool {
                assert forall|k: int|
                    0 <= k < freq@.len() implies before_blanks[k].1 == share_granted(
                    (#[trigger] freq@[k]).1 as nat,
                    gf,
                    gpool,
                ) by {}
            }
        }
    }
    tiles
}

/// The letter positions of a frequency table, from most to least frequent;
/// ties keep the table's own ascending-letter order.
fn frequency_order_desc(freq: &Vec<(char, usize)>) -> (r: Vec<usize>)
    ensures
        r@.len() == freq@.len(),
        forall|k: int| 0 <= k < r@.len() ==> (#[trigger] r@[k]) < freq@.len(),
{
    let mut order: Vec<usize> = Vec::new();
    let mut i: usize = 0;
    while i < freq.len()
        invariant
            i <= freq@.len(),
            order@.len() == i,
            forall|k: int| 0 <= k < order@.len() ==> (#[trigger] order@[k]) < i,
        decreases freq@.len() - i,
    {
        let mut p: usize = 0;
        while p < order.len() && freq[order[p]].1 >= freq[i].1
            invariant
                i < freq@.len(),
                order@.len() == i,
                p <= i,
                forall|k: int| 0 <= k < order@.len() ==> (#[trigger] order@[k]) < i,
            decreases order@.len() - p,
        {
            p = p + 1;
        }
        let ghost prev = order@;
        order.insert(p, i);
        proof {
            assert forall|k: int| 0 <= k < order@.len() implies (#[trigger] order@[k]) < i + 1 by {
                if k < p {
                    assert(order@[k] == prev[k]);
                } else if k > p {
                    assert(order@[k] == prev[k - 1]);
                }
            }
        }
        i = i + 1;
    }
    order
}

} // verus!
