//! Letter tables: sorted association lists from characters to counts, used
//! for letter frequencies and tile bags. Keys are strictly ascending by
//! Unicode scalar value, so each key appears once and iteration order is
//! deterministic.

use vstd::prelude::*;

use crate::letters::char_code_inj;

verus! {

/// Table keys are strictly ascending (hence unique).
pub open spec fn table_sorted(t: Seq<(char, usize)>) -> bool {
    forall|i: int, j: int|
        0 <= i < j < t.len() ==> ((#[trigger] t[i]).0 as u32) < ((#[trigger] t[j]).0 as u32)
}

/// Whether the table has an entry for `c`.
pub open spec fn has_key(t: Seq<(char, usize)>, c: char) -> bool {
    exists|i: int| 0 <= i < t.len() && (#[trigger] t[i]).0 == c
}

/// The count stored for `c`; a missing key counts zero.
pub open spec fn spec_get(t: Seq<(char, usize)>, c: char) -> nat
    decreases t.len(),
{
    if t.len() == 0 {
        0
    } else if t[0].0 == c {
        t[0].1 as nat
    } else {
        spec_get(t.drop_first(), c)
    }
}

/// The sum of all counts in the table.
pub open spec fn sum_values(t: Seq<(char, usize)>) -> nat
    decreases t.len(),
{
    if t.len() == 0 {
        0
    } else {
        sum_values(t.drop_last()) + t.last().1 as nat
    }
}

/// In a table with unique keys, the stored count of entry `k`'s key is that
/// entry's value.
pub proof fn lemma_get_at(t: Seq<(char, usize)>, k: int)
    requires
        0 <= k < t.len(),
        forall|i: int| 0 <= i < t.len() && i != k ==> (#[trigger] t[i]).0 != t[k].0,
    ensures
        spec_get(t, t[k].0) == t[k].1,
    decreases k,
{
    if k > 0 {
        let u = t.drop_first();
        assert forall|i: int| 0 <= i < u.len() && i != k - 1 implies (#[trigger] u[i]).0 != u[
            k - 1
        ].0 by {
            assert(u[i] == t[i + 1]);
        }
        lemma_get_at(u, k - 1);
    }
}

/// A key no entry carries stores zero.
pub proof fn lemma_get_absent(t: Seq<(char, usize)>, c: char)
    requires
        forall|i: int| 0 <= i < t.len() ==> (#[trigger] t[i]).0 != c,
    ensures
        spec_get(t, c) == 0,
    decreases t.len(),
{
    if t.len() > 0 {
        let u = t.drop_first();
        assert forall|i: int| 0 <= i < u.len() implies (#[trigger] u[i]).0 != c by {
            assert(u[i] == t[i + 1]);
        }
        lemma_get_absent(u, c);
    }
}

/// Strictly sorted keys are unique.
pub proof fn lemma_sorted_keys_unique(t: Seq<(char, usize)>, k: int)
    requires
        table_sorted(t),
        0 <= k < t.len(),
    ensures
        forall|i: int| 0 <= i < t.len() && i != k ==> (#[trigger] t[i]).0 != t[k].0,
{
    assert forall|i: int| 0 <= i < t.len() && i != k implies (#[trigger] t[i]).0 != t[k].0 by {
        if i < k {
            assert((t[i].0 as u32) < (t[k].0 as u32));
        } else {
            assert((t[k].0 as u32) < (t[i].0 as u32));
        }
    }
}

/// Updating one entry's count changes only that key's stored count.
pub proof fn lemma_get_update(t: Seq<(char, usize)>, k: int, v: usize, x: char)
    requires
        0 <= k < t.len(),
    ensures
        x != t[k].0 ==> spec_get(t.update(k, (t[k].0, v)), x) == spec_get(t, x),
    decreases k,
{
    let u = t.update(k, (t[k].0, v));
    if x != t[k].0 {
        if k == 0 {
            assert(u.drop_first() =~= t.drop_first());
        } else {
            assert(u[0] == t[0]);
            if t[0].0 != x {
                assert(u.drop_first() =~= t.drop_first().update(k - 1, (t[k].0, v)));
                assert(t.drop_first()[k - 1] == t[k]);
                lemma_get_update(t.drop_first(), k - 1, v, x);
            }
        }
    }
}

/// Updating one entry's count moves the sum by the difference.
pub proof fn lemma_sum_update(t: Seq<(char, usize)>, k: int, v: usize)
    requires
        0 <= k < t.len(),
    ensures
        sum_values(t.update(k, (t[k].0, v))) + t[k].1 == sum_values(t) + v,
    decreases t.len(),
{
    let u = t.update(k, (t[k].0, v));
    if k == t.len() - 1 {
        assert(u.drop_last() =~= t.drop_last());
        assert(u.last() == (t[k].0, v));
    } else {
        assert(u.drop_last() =~= t.drop_last().update(k, (t[k].0, v)));
        assert(u.last() == t.last());
        assert(t.drop_last()[k] == t[k]);
        lemma_sum_update(t.drop_last(), k, v);
    }
}

/// Appending an entry adds its count to the sum.
pub proof fn lemma_sum_push(t: Seq<(char, usize)>, p: (char, usize))
    ensures
        sum_values(t.push(p)) == sum_values(t) + p.1,
{
    assert(t.push(p).drop_last() =~= t);
    assert(t.push(p).last() == p);
}

/// Inserting an entry adds its count to the sum.
pub proof fn lemma_sum_insert(t: Seq<(char, usize)>, k: int, p: (char, usize))
    requires
        0 <= k <= t.len(),
    ensures
        sum_values(t.insert(k, p)) == sum_values(t) + p.1,
    decreases t.len(),
{
    let u = t.insert(k, p);
    if k == t.len() {
        assert(u.drop_last() =~= t);
        assert(u.last() == p);
    } else {
        assert(u.drop_last() =~= t.drop_last().insert(k, p));
        assert(u.last() == t.last());
        lemma_sum_insert(t.drop_last(), k, p);
    }
}

/// Every count is at most the table's sum.
pub proof fn lemma_value_le_sum(t: Seq<(char, usize)>, k: int)
    requires
        0 <= k < t.len(),
    ensures
        t[k].1 <= sum_values(t),
    decreases t.len(),
{
    if k == t.len() - 1 {
        assert(t.last() == t[k]);
    } else {
        assert(t.drop_last()[k] == t[k]);
        lemma_value_le_sum(t.drop_last(), k);
    }
}

/// A table whose counts all reach `lo` sums to at least `lo` per entry.
pub proof fn lemma_sum_lower(t: Seq<(char, usize)>, lo: nat)
    requires
        forall|i: int| 0 <= i < t.len() ==> (#[trigger] t[i]).1 >= lo,
    ensures
        sum_values(t) >= t.len() * lo,
    decreases t.len(),
{
    if t.len() > 0 {
        let u = t.drop_last();
        assert forall|i: int| 0 <= i < u.len() implies (#[trigger] u[i]).1 >= lo by {
            assert(u[i] == t[i]);
        }
        lemma_sum_lower(u, lo);
        assert(t.len() * lo == u.len() * lo + lo) by (nonlinear_arith)
            requires
                t.len() == u.len() + 1,
        ;
    }
}

/// A table whose counts all reach `lo` sums to at least `lo` per entry; one
/// whose counts stay at or below `hi` sums to at most `hi` per entry.
pub proof fn lemma_sum_bounds(t: Seq<(char, usize)>, lo: nat, hi: nat)
    requires
        forall|i: int| 0 <= i < t.len() ==> lo <= (#[trigger] t[i]).1 <= hi,
    ensures
        t.len() * lo <= sum_values(t) <= t.len() * hi,
    decreases t.len(),
{
    if t.len() == 0 {
    } else {
        let u = t.drop_last();
        assert forall|i: int| 0 <= i < u.len() implies lo <= (#[trigger] u[i]).1 <= hi by {
            assert(u[i] == t[i]);
        }
        lemma_sum_bounds(u, lo, hi);
        assert(t.len() * lo == u.len() * lo + lo) by (nonlinear_arith)
            requires
                t.len() == u.len() + 1,
        ;
        assert(t.len() * hi == u.len() * hi + hi) by (nonlinear_arith)
            requires
                t.len() == u.len() + 1,
        ;
    }
}

/// The sum over a prefix grows by the next entry's count.
pub proof fn lemma_sum_take_step(t: Seq<(char, usize)>, i: int)
    requires
        0 <= i < t.len(),
    ensures
        sum_values(t.take(i + 1)) == sum_values(t.take(i)) + t[i].1,
{
    assert(t.take(i + 1).drop_last() =~= t.take(i));
    assert(t.take(i + 1).last() == t[i]);
}

/// A prefix sums to no more than the whole table.
pub proof fn lemma_sum_take_le(t: Seq<(char, usize)>, i: int)
    requires
        0 <= i <= t.len(),
    ensures
        sum_values(t.take(i)) <= sum_values(t),
    decreases t.len() - i,
{
    if i == t.len() {
        assert(t.take(i) =~= t);
    } else {
        lemma_sum_take_step(t, i);
        lemma_sum_take_le(t, i + 1);
    }
}

/// Inserting an entry leaves every other key's stored count alone.
pub proof fn lemma_get_insert(t: Seq<(char, usize)>, k: int, p: (char, usize), x: char)
    requires
        0 <= k <= t.len(),
        x != p.0,
    ensures
        spec_get(t.insert(k, p), x) == spec_get(t, x),
    decreases k,
{
    let u = t.insert(k, p);
    if k == 0 {
        assert(u.drop_first() =~= t);
    } else {
        assert(u[0] == t[0]);
        if t[0].0 != x {
            assert(u.drop_first() =~= t.drop_first().insert(k - 1, p));
            lemma_get_insert(t.drop_first(), k - 1, p, x);
        }
    }
}

/// Add one to the count stored for `c`, creating the entry if it is missing.
pub fn table_bump(t: &mut Vec<(char, usize)>, c: char)
    requires
        table_sorted(old(t)@),
        spec_get(old(t)@, c) < usize::MAX,
        forall|i: int| 0 <= i < old(t)@.len() ==> (#[trigger] old(t)@[i]).1 >= 1,
    ensures
        table_sorted(final(t)@),
        spec_get(final(t)@, c) == spec_get(old(t)@, c) + 1,
        forall|x: char| x != c ==> spec_get(final(t)@, x) == spec_get(old(t)@, x),
        forall|x: char| #[trigger] has_key(final(t)@, x) <==> (has_key(old(t)@, x) || x == c),
        sum_values(final(t)@) == sum_values(old(t)@) + 1,
        forall|i: int| 0 <= i < final(t)@.len() ==> (#[trigger] final(t)@[i]).1 >= 1,
{
    let ghost orig = t@;
    let mut i: usize = 0;
    loop
        invariant
            t@ == orig,
            i <= t@.len(),
            forall|j: int| 0 <= j < i ==> ((#[trigger] t@[j]).0 as u32) < (c as u32),
        ensures
            t@ == orig,
            i <= t@.len(),
            forall|j: int| 0 <= j < i ==> ((#[trigger] t@[j]).0 as u32) < (c as u32),
            i < t@.len() ==> ((t@[i as int].0 as u32) >= (c as u32)),
        decreases t@.len() - i,
    {
        if i == t.len() {
            break;
        }
        if (t[i].0 as u32) >= (c as u32) {
            break;
        }
        i = i + 1;
    }
    if i < t.len() && t[i].0 == c {
        proof {
            lemma_sorted_keys_unique(orig, i as int);
            lemma_get_at(orig, i as int);
        }
        let v = t[i].1;
        t.set(i, (c, v + 1));
        proof {
            let s = t@;
            assert(s =~= orig.update(i as int, (c, (v + 1) as usize)));
            assert forall|p: int, q: int|
                0 <= p < q < s.len() implies ((#[trigger] s[p]).0 as u32) < ((#[trigger] s[q]).0
                as u32) by {
                assert(s[p].0 == orig[p].0);
                assert(s[q].0 == orig[q].0);
            }
            lemma_sorted_keys_unique(s, i as int);
            lemma_get_at(s, i as int);
            assert forall|x: char| x != c implies spec_get(s, x) == spec_get(orig, x) by {
                lemma_get_update(orig, i as int, (v + 1) as usize, x);
            }
            assert forall|x: char| #[trigger] has_key(s, x) implies (has_key(orig, x) || x
                == c) by {
                let k = choose|k: int| 0 <= k < s.len() && (#[trigger] s[k]).0 == x;
                if k != i {
                    assert(orig[k].0 == x);
                }
            }
            assert forall|x: char| has_key(orig, x) implies has_key(s, x) by {
                let k = choose|k: int| 0 <= k < orig.len() && (#[trigger] orig[k]).0 == x;
                assert(s[k].0 == x);
            }
            lemma_sum_update(orig, i as int, (v + 1) as usize);
            assert forall|j: int| 0 <= j < s.len() implies (#[trigger] s[j]).1 >= 1 by {
                if j != i {
                    assert(s[j] == orig[j]);
                }
            }
        }
    } else {
        proof {
            let k = i as int;
            if k < orig.len() {
                char_code_inj(orig[k].0, c);
            }
            assert forall|j: int| 0 <= j < orig.len() implies (#[trigger] orig[j]).0 != c by {
                if j >= k {
                    if j > k {
                        assert((orig[k].0 as u32) < (orig[j].0 as u32));
                    }
                    char_code_inj(orig[j].0, c);
                }
            }
            lemma_get_absent(orig, c);
        }
        t.insert(i, (c, 1));
        proof {
            let s = t@;
            assert forall|p: int, q: int|
                0 <= p < q < s.len() implies ((#[trigger] s[p]).0 as u32) < ((#[trigger] s[q]).0
                as u32) by {
                if p < i {
                    assert(s[p] == orig[p]);
                }
                if p > i {
                    assert(s[p] == orig[p - 1]);
                }
                if q < i {
                    assert(s[q] == orig[q]);
                }
                if q > i {
                    assert(s[q] == orig[q - 1]);
                }
                if q == i {
                    assert(s[q].0 == c);
                }
                if p == i {
                    assert(s[p].0 == c);
                    char_code_inj(orig[q - 1].0, c);
                }
            }
            lemma_sorted_keys_unique(s, i as int);
            lemma_get_at(s, i as int);
            assert forall|x: char| x != c implies spec_get(s, x) == spec_get(orig, x) by {
                lemma_get_insert(orig, i as int, (c, 1usize), x);
            }
            assert forall|x: char| #[trigger] has_key(s, x) implies (has_key(orig, x) || x
                == c) by {
                let k = choose|k: int| 0 <= k < s.len() && (#[trigger] s[k]).0 == x;
                if k < i {
                    assert(orig[k].0 == x);
                } else if k > i {
                    assert(orig[k - 1].0 == x);
                }
            }
            assert forall|x: char| has_key(orig, x) implies has_key(s, x) by {
                let k = choose|k: int| 0 <= k < orig.len() && (#[trigger] orig[k]).0 == x;
                if k < i {
                    assert(s[k].0 == x);
                } else {
                    assert(s[k + 1].0 == x);
                }
            }
            lemma_sum_insert(orig, i as int, (c, 1usize));
            assert forall|j: int| 0 <= j < s.len() implies (#[trigger] s[j]).1 >= 1 by {
                if j < i {
                    assert(s[j] == orig[j]);
                } else if j > i {
                    assert(s[j] == orig[j - 1]);
                }
            }
        }
    }
}

/// Look up the count stored for `c`; a missing key counts zero.
pub fn table_get(t: &Vec<(char, usize)>, c: char) -> (r: usize)
    ensures
        r == spec_get(t@, c),
        r > 0 ==> has_key(t@, c),
{
    let mut i: usize = 0;
    proof {
        assert(t@.skip(0) =~= t@);
    }
    loop
        invariant
            i <= t@.len(),
            spec_get(t@, c) == spec_get(t@.skip(i as int), c),
            forall|j: int| 0 <= j < i ==> (#[trigger] t@[j]).0 != c,
        decreases t@.len() - i,
    {
        if i == t.len() {
            proof {
                lemma_get_absent(t@, c);
            }
            return 0;
        }
        let (k, v) = t[i];
        if k == c {
            proof {
                assert(t@.skip(i as int)[0] == t@[i as int]);
            }
            return v;
        }
        proof {
            assert(t@.skip(i as int)[0] == t@[i as int]);
            assert(t@.skip(i as int).drop_first() =~= t@.skip(i as int + 1));
        }
        i = i + 1;
    }
}

/// Whether the table has an entry for `c`.
pub fn table_has_key(t: &Vec<(char, usize)>, c: char) -> (r: bool)
    ensures
        r == has_key(t@, c),
{
    let mut i: usize = 0;
    while i < t.len()
        invariant
            i <= t@.len(),
            forall|j: int| 0 <= j < i ==> (#[trigger] t@[j]).0 != c,
        decreases t@.len() - i,
    {
        if t[i].0 == c {
            return true;
        }
        i = i + 1;
    }
    proof {
        if has_key(t@, c) {
            let k = choose|k: int| 0 <= k < t@.len() && (#[trigger] t@[k]).0 == c;
            assert(false);
        }
    }
    false
}

} // verus!
