//! Mathematical model of the translation routine and the removal ledger.
//!
//! The generated routine of the container is a chain of guard blocks, one
//! per removal, each comparing the caller's logical index against a fixed
//! threshold and bumping an accumulator when the index reaches it. Its
//! meaning is therefore the rank-counting map `i + |{t : t <= i}|`, stated
//! here as [`translate`]. Iteration is stated by [`survivors`]: the elements
//! of the backing store whose physical slot the ledger does not hold, in
//! physical order.

use vstd::prelude::*;

verus! {

/// How many entries of `ts` are at most `i`.
pub open spec fn count_le(ts: Seq<usize>, i: int) -> nat
    decreases ts.len(),
{
    if ts.len() == 0 {
        0
    } else {
        count_le(ts.drop_last(), i) + if ts.last() <= i {
            1nat
        } else {
            0nat
        }
    }
}

/// The rank-counting translation of logical index `i` through the guard
/// thresholds `ts`: every guard whose threshold is at most `i` advances the
/// physical position by one slot.
pub open spec fn translate(ts: Seq<usize>, i: int) -> int {
    i + count_le(ts, i)
}

/// Whether some entry of `r` equals `j`.
pub open spec fn has_index(r: Seq<usize>, j: int) -> bool {
    exists|k: int| 0 <= k < r.len() && r[k] as int == j
}

/// Strictly ascending: the order the ledger keeps its removed slots in.
pub open spec fn sorted_strict(r: Seq<usize>) -> bool {
    forall|a: int, b: int| 0 <= a < b < r.len() ==> r[a] < r[b]
}

/// The elements of `store` whose physical slot `rem` does not hold, in
/// physical order: what a full traversal of the container yields.
pub open spec fn survivors<T>(store: Seq<T>, rem: Seq<usize>) -> Seq<T>
    decreases store.len(),
{
    if store.len() == 0 {
        Seq::empty()
    } else if has_index(rem, store.len() - 1) {
        survivors(store.drop_last(), rem)
    } else {
        survivors(store.drop_last(), rem).push(store.last())
    }
}

/// A count over any threshold sequence never exceeds its length.
pub proof fn lemma_count_le_bound(ts: Seq<usize>, i: int)
    ensures
        count_le(ts, i) <= ts.len(),
    decreases ts.len(),
{
    if ts.len() > 0 {
        lemma_count_le_bound(ts.drop_last(), i);
    }
}

/// Counting at most `i` is monotone in `i`.
pub proof fn lemma_count_le_mono(ts: Seq<usize>, i: int, j: int)
    requires
        i <= j,
    ensures
        count_le(ts, i) <= count_le(ts, j),
    decreases ts.len(),
{
    if ts.len() > 0 {
        lemma_count_le_mono(ts.drop_last(), i, j);
    }
}

/// Nothing is at most a negative bound.
pub proof fn lemma_count_le_neg(ts: Seq<usize>, i: int)
    requires
        i < 0,
    ensures
        count_le(ts, i) == 0,
    decreases ts.len(),
{
    if ts.len() > 0 {
        lemma_count_le_neg(ts.drop_last(), i);
    }
}

/// For a duplicate-free sequence, raising the bound from `i - 1` to `i`
/// counts exactly one more entry when `i` occurs, none otherwise.
pub proof fn lemma_count_le_step(ts: Seq<usize>, i: int)
    requires
        ts.no_duplicates(),
    ensures
        count_le(ts, i) == count_le(ts, i - 1) + if has_index(ts, i) {
            1int
        } else {
            0int
        },
    decreases ts.len(),
{
    if ts.len() > 0 {
        let prefix = ts.drop_last();
        assert(prefix.no_duplicates());
        lemma_count_le_step(prefix, i);
        if ts.last() as int == i {
            assert(has_index(ts, i)) by {
                assert(ts[ts.len() - 1] as int == i);
            }
            assert(!has_index(prefix, i)) by {
                if has_index(prefix, i) {
                    let k = choose|k: int| 0 <= k < prefix.len() && prefix[k] as int == i;
                    assert(ts[k] == ts[ts.len() - 1]);
                }
            }
        } else {
            assert(has_index(ts, i) <==> has_index(prefix, i)) by {
                if has_index(ts, i) {
                    let k = choose|k: int| 0 <= k < ts.len() && ts[k] as int == i;
                    assert(0 <= k < prefix.len() && prefix[k] as int == i);
                }
                if has_index(prefix, i) {
                    let k = choose|k: int| 0 <= k < prefix.len() && prefix[k] as int == i;
                    assert(ts[k] as int == i);
                }
            }
        }
    }
}

/// Two duplicate-free sequences holding the same values count alike under
/// every bound. This ties the chronological guard chain of the routine to
/// the ascending ledger.
pub proof fn lemma_count_le_transfer(ts: Seq<usize>, r: Seq<usize>, i: int)
    requires
        ts.no_duplicates(),
        r.no_duplicates(),
        forall|j: int| has_index(ts, j) <==> has_index(r, j),
    ensures
        count_le(ts, i) == count_le(r, i),
    decreases
            if i >= 0 {
                i + 1
            } else {
                0
            },
{
    if i < 0 {
        lemma_count_le_neg(ts, i);
        lemma_count_le_neg(r, i);
    } else {
        lemma_count_le_transfer(ts, r, i - 1);
        lemma_count_le_step(ts, i);
        lemma_count_le_step(r, i);
        assert(has_index(ts, i) <==> has_index(r, i));
    }
}

/// A bound below which every entry lies counts them all.
pub proof fn lemma_count_le_all(ts: Seq<usize>, i: int)
    requires
        forall|k: int| 0 <= k < ts.len() ==> ts[k] as int <= i,
    ensures
        count_le(ts, i) == ts.len(),
    decreases ts.len(),
{
    if ts.len() > 0 {
        assert forall|k: int| 0 <= k < ts.drop_last().len() implies ts.drop_last()[k] as int
            <= i by {
            assert(ts.drop_last()[k] == ts[k]);
        }
        lemma_count_le_all(ts.drop_last(), i);
    }
}

/// Raising the bound across an interval free of entries leaves the count
/// unchanged.
pub proof fn lemma_count_le_gap(ts: Seq<usize>, i: int, j: int)
    requires
        ts.no_duplicates(),
        i <= j,
        forall|m: int| i < m <= j ==> !has_index(ts, m),
    ensures
        count_le(ts, i) == count_le(ts, j),
    decreases j - i,
{
    if i < j {
        lemma_count_le_gap(ts, i, j - 1);
        lemma_count_le_step(ts, j);
    }
}

/// How many elements survive: the store's length splits into the survivors
/// and the removed slots the ledger counts below it.
pub proof fn lemma_survivors_len<T>(store: Seq<T>, rem: Seq<usize>)
    requires
        rem.no_duplicates(),
    ensures
        survivors(store, rem).len() + count_le(rem, store.len() - 1) == store.len(),
    decreases store.len(),
{
    if store.len() == 0 {
        lemma_count_le_neg(rem, -1);
    } else {
        lemma_survivors_len(store.drop_last(), rem);
        lemma_count_le_step(rem, store.len() - 1);
    }
}

/// A surviving physical slot `p` appears among the survivors at the logical
/// position obtained by discounting the removed slots below `p`.
pub proof fn lemma_survivor_at<T>(store: Seq<T>, rem: Seq<usize>, p: int)
    requires
        rem.no_duplicates(),
        0 <= p < store.len(),
        !has_index(rem, p),
    ensures
        0 <= p - count_le(rem, p - 1) < survivors(store, rem).len(),
        survivors(store, rem)[p - count_le(rem, p - 1)] == store[p],
    decreases store.len(),
{
    let prefix = store.drop_last();
    if p == store.len() - 1 {
        lemma_survivors_len(prefix, rem);
        lemma_count_le_step(rem, p);
        assert(survivors(store, rem) == survivors(prefix, rem).push(store.last()));
        assert(store.last() == store[p]);
    } else {
        lemma_survivor_at(prefix, rem, p);
        assert(prefix[p] == store[p]);
        let j = p - count_le(rem, p - 1);
        if has_index(rem, store.len() - 1) {
            assert(survivors(store, rem)[j] == survivors(prefix, rem)[j]);
        } else {
            assert(survivors(store, rem)[j] == survivors(prefix, rem).push(store.last())[j]);
        }
    }
}

/// With an empty ledger every element survives in place.
pub proof fn lemma_survivors_empty<T>(store: Seq<T>)
    ensures
        survivors(store, Seq::<usize>::empty()) == store,
    decreases store.len(),
{
    if store.len() == 0 {
        assert(survivors(store, Seq::<usize>::empty()) =~= store);
    } else {
        lemma_survivors_empty(store.drop_last());
        assert(survivors(store, Seq::<usize>::empty()) =~= store) by {
            assert(!has_index(Seq::<usize>::empty(), store.len() - 1));
            assert(survivors(store, Seq::<usize>::empty()) == store.drop_last().push(
                store.last(),
            ));
        }
    }
}

/// A strictly ascending sequence holds no value twice.
pub proof fn lemma_sorted_no_duplicates(r: Seq<usize>)
    requires
        sorted_strict(r),
    ensures
        r.no_duplicates(),
{
}

/// Membership after appending one value.
pub proof fn lemma_has_index_push(s: Seq<usize>, x: usize, j: int)
    ensures
        has_index(s.push(x), j) <==> (has_index(s, j) || x as int == j),
{
    if has_index(s, j) {
        let k = choose|k: int| 0 <= k < s.len() && s[k] as int == j;
        assert(s.push(x)[k] as int == j);
    }
    if x as int == j {
        assert(s.push(x)[s.len() as int] as int == j);
    }
    if has_index(s.push(x), j) && x as int != j {
        let k = choose|k: int| 0 <= k < s.push(x).len() && s.push(x)[k] as int == j;
        assert(0 <= k < s.len() && s[k] as int == j);
    }
}

/// Membership after inserting one value at any position.
pub proof fn lemma_has_index_insert(s: Seq<usize>, pos: int, x: usize, j: int)
    requires
        0 <= pos <= s.len(),
    ensures
        has_index(s.insert(pos, x), j) <==> (has_index(s, j) || x as int == j),
{
    s.insert_ensures(pos, x);
    let t = s.insert(pos, x);
    if has_index(s, j) {
        let k = choose|k: int| 0 <= k < s.len() && s[k] as int == j;
        if k < pos {
            assert(t[k] as int == j);
        } else {
            assert(t[k + 1] as int == j);
        }
    }
    if x as int == j {
        assert(t[pos] as int == j);
    }
    if has_index(t, j) && x as int != j {
        let k = choose|k: int| 0 <= k < t.len() && t[k] as int == j;
        if k < pos {
            assert(s[k] as int == j);
        } else {
            assert(k != pos);
            assert(t[(k - 1) + 1] as int == j);
            assert(s[k - 1] as int == j);
        }
    }
}

/// Appending a fresh value keeps a sequence duplicate-free.
pub proof fn lemma_no_duplicates_push(s: Seq<usize>, x: usize)
    requires
        s.no_duplicates(),
        !has_index(s, x as int),
    ensures
        s.push(x).no_duplicates(),
{
    assert forall|a: int, b: int| 0 <= a < b < s.push(x).len() implies s.push(x)[a] != s.push(
        x,
    )[b] by {
        if b == s.len() {
            assert(s[a] as int != x as int) by {
                if s[a] as int == x as int {
                    assert(has_index(s, x as int));
                }
            }
        }
    }
}

/// The translation is strictly monotone, so distinct logical indices reach
/// distinct physical slots and physical order follows logical order.
pub proof fn lemma_translate_monotonic(ts: Seq<usize>, i: int, j: int)
    requires
        i < j,
    ensures
        translate(ts, i) < translate(ts, j),
{
    lemma_count_le_mono(ts, i, j);
}

/// Correctness of the rank-counting map at `i`: when no removed slot lies in
/// the interval `(i, translate(i)]`, the routine lands on the physical slot
/// of the `i`-th survivor, and that slot is not a removed one.
pub proof fn lemma_translate_correct<T>(store: Seq<T>, rem: Seq<usize>, i: int)
    requires
        rem.no_duplicates(),
        0 <= i,
        translate(rem, i) < store.len(),
        forall|j: int| i < j <= translate(rem, i) ==> !has_index(rem, j),
    ensures
        !has_index(rem, translate(rem, i)),
        0 <= i < survivors(store, rem).len(),
        survivors(store, rem)[i] == store[translate(rem, i)],
{
    let tr = translate(rem, i);
    lemma_count_le_step(rem, i);
    if tr == i {
        assert(count_le(rem, i) == 0);
        assert(!has_index(rem, i));
    }
    assert(!has_index(rem, tr));
    lemma_count_le_gap(rem, i, tr);
    lemma_count_le_step(rem, tr);
    assert(count_le(rem, tr - 1) == count_le(rem, i));
    lemma_survivor_at(store, rem, tr);
    assert(tr - count_le(rem, tr - 1) == i);
}

} // verus!
