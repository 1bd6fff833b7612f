//! The container: a backing store that is never reordered, the model of the
//! generated translation routine, and the ledger of removed physical slots.

use vstd::prelude::*;

use crate::model::count_le;
use crate::model::has_index;
use crate::model::lemma_count_le_all;
use crate::model::lemma_count_le_bound;
use crate::model::lemma_count_le_transfer;
use crate::model::lemma_has_index_insert;
use crate::model::lemma_has_index_push;
use crate::model::lemma_no_duplicates_push;
use crate::model::lemma_sorted_no_duplicates;
use crate::model::lemma_survivors_empty;
use crate::model::lemma_survivors_len;
use crate::model::lemma_translate_correct;
use crate::model::lemma_translate_monotonic;
use crate::model::sorted_strict;
use crate::model::survivors;
use crate::model::translate;

verus! {

/// Largest index the generated routine can encode: guard thresholds are
/// compared as signed 32-bit values.
pub const THRESHOLD_MAX: usize = 0x7fff_ffff;

/// How an operation on a [`JITList`] fails.
#[derive(Clone, Copy, Debug, PartialEq, Eq, Structural)]
pub enum ListError {
    /// The index is outside `0 .. length`. Recoverable.
    OutOfBounds,
    /// The index, or the physical slot it reaches, does not fit the 32-bit
    /// domain of the generated routine. Recoverable.
    IndexOverflow,
    /// The routine mapped a logical index onto a physical slot the ledger
    /// already holds. A defect of the container, not of the caller; the
    /// container poisons itself.
    Inconsistent,
    /// The container was poisoned by an earlier inconsistency and rejects
    /// every further read, write, removal and traversal.
    Poisoned,
}

/// The titular list: indexed reads and writes go through the translation
/// routine, removal appends one guard threshold, iteration walks the store
/// and skips the slots the ledger holds.
pub struct JITList<T> {
    list: Vec<T>,
    len: usize,
    thresholds: Vec<usize>,
    removed: Vec<usize>,
    poisoned: bool,
}

impl<T> JITList<T> {
    /// The backing store in physical order, never shrunk or reordered.
    pub closed spec fn store(&self) -> Seq<T> {
        self.list@
    }

    /// The guard thresholds of the translation routine, one per removal, in
    /// chronological order of emission.
    pub closed spec fn routine(&self) -> Seq<usize> {
        self.thresholds@
    }

    /// The ledger: removed physical slots in ascending order.
    pub closed spec fn ledger(&self) -> Seq<usize> {
        self.removed@
    }

    /// The caller-visible element count.
    pub closed spec fn spec_len(&self) -> nat {
        self.len as nat
    }

    /// Whether an internal inconsistency has poisoned the container.
    pub closed spec fn is_poisoned(&self) -> bool {
        self.poisoned
    }

    /// Well-formedness: the routine and the ledger agree on exactly which
    /// physical slots have been vacated, the ledger ascends within the
    /// store's bounds, thresholds fit the routine's 32-bit domain, and the
    /// length is the store's length less the removals performed.
    pub closed spec fn wf(&self) -> bool {
        !self.poisoned ==> {
            &&& self.len + self.removed@.len() == self.list@.len()
            &&& self.thresholds@.len() == self.removed@.len()
            &&& sorted_strict(self.removed@)
            &&& self.thresholds@.no_duplicates()
            &&& forall|j: int| has_index(self.thresholds@, j) <==> has_index(self.removed@, j)
            &&& forall|k: int|
                0 <= k < self.removed@.len() ==> (#[trigger] self.removed@[k]) < self.list@.len()
            &&& forall|k: int|
                0 <= k < self.thresholds@.len() ==> (#[trigger] self.thresholds@[k])
                    <= THRESHOLD_MAX
        }
    }

    /// Fallibly create a [`JITList`] holding the elements of `list`, with
    /// zero removals performed. Never fails here: the fallible shape is kept
    /// for the construction of the executable region backing the routine,
    /// whose allocation is the one construction failure the design allows.
    pub fn try_new(list: Vec<T>) -> (r: Result<Self, ListError>)
        ensures
            (r matches Ok(l) && {
                &&& l.wf()
                &&& !l.is_poisoned()
                &&& l.store() == list@
                &&& l.spec_len() == list@.len()
                &&& l.routine() == Seq::<usize>::empty()
                &&& l.ledger() == Seq::<usize>::empty()
            }),
    {
        let len: usize = list.len();
        Ok(JITList {
            list,
            len,
            thresholds: Vec::new(),
            removed: Vec::new(),
            poisoned: false,
        })
    }

    /// Create a [`JITList`] from a [`Vec`], as [`JITList::try_new`] does.
    pub fn new(list: Vec<T>) -> (r: Self)
        ensures
            r.wf(),
            !r.is_poisoned(),
            r.store() == list@,
            r.spec_len() == list@.len(),
            r.routine() == Seq::<usize>::empty(),
            r.ledger() == Seq::<usize>::empty(),
    {
        match Self::try_new(list) {
            Ok(l) => l,
            Err(_) => vstd::pervasive::unreached(),
        }
    }

    /// The current element count.
    pub fn len(&self) -> (r: usize)
        ensures
            r == self.spec_len(),
    {
        self.len
    }

    /// Whether no elements survive.
    pub fn is_empty(&self) -> (r: bool)
        ensures
            r == (self.spec_len() == 0),
    {
        self.len == 0
    }

    /// The physical slot the current translation routine maps `index` to.
    pub open spec fn removal_target(&self, index: int) -> int {
        translate(self.routine(), index)
    }

    /// Run the translation routine on a logical index known to be in range:
    /// one guarded increment per emitted threshold, in emission order. With
    /// zero removals the routine is skipped and the index is its own
    /// physical slot.
    #[verifier::loop_isolation(false)]
    pub fn get_real_index(&self, index: usize) -> (r: usize)
        requires
            self.wf(),
            !self.is_poisoned(),
            index < self.spec_len(),
        ensures
            r as int == translate(self.routine(), index as int),
            r < self.store().len(),
    {
        if self.removed.len() == 0 {
            proof {
                assert(self.thresholds@.len() == 0);
            }
            index
        } else {
            let ghost ts = self.thresholds@;
            let n: usize = self.list.len();
            let mut acc: usize = index;
            let mut k: usize = 0;
            proof {
                assert(ts.take(0) =~= Seq::<usize>::empty());
            }
            while k < self.thresholds.len()
                invariant
                    k <= ts.len(),
                    acc as int == index as int + count_le(ts.take(k as int), index as int),
                    acc as int <= index + k,
                decreases ts.len() - k,
            {
                let t: usize = self.thresholds[k];
                proof {
                    assert(ts.take(k + 1).drop_last() =~= ts.take(k as int));
                    assert(ts.take(k + 1).last() == t);
                    assert(index + ts.len() < n);
                }
                if t <= index {
                    acc = acc + 1;
                }
                k = k + 1;
            }
            proof {
                assert(ts.take(ts.len() as int) =~= ts);
                lemma_count_le_bound(ts, index as int);
            }
            acc
        }
    }

    /// Read the element at logical `index`: validate the bounds, translate
    /// the index through the routine, and read the backing store at the
    /// physical slot. With zero removals this returns the element at its
    /// original position without consulting the routine.
    pub fn get(&self, index: usize) -> (r: Result<&T, ListError>)
        requires
            self.wf(),
        ensures
            self.is_poisoned() ==> (r matches Err(e) && e == ListError::Poisoned),
            !self.is_poisoned() && index >= self.spec_len() ==> (r matches Err(e) && e
                == ListError::OutOfBounds),
            !self.is_poisoned() && index < self.spec_len() ==> (r matches Ok(v) && *v
                == self.store()[self.removal_target(index as int)]),
            !self.is_poisoned() && index < self.spec_len() && self.ledger().len() == 0 ==> (
            r matches Ok(v) && *v == self.store()[index as int]),
    {
        if self.poisoned {
            return Err(ListError::Poisoned);
        }
        if index >= self.len {
            return Err(ListError::OutOfBounds);
        }
        let phys = self.get_real_index(index);
        proof {
            if self.ledger().len() == 0 {
                assert(self.routine().len() == 0);
                assert(count_le(self.routine(), index as int) == 0);
            }
        }
        Ok(&self.list[phys])
    }

    /// Write `value` at logical `index`: validate the bounds, translate the
    /// index through the routine, and overwrite the backing store at the
    /// physical slot. No other slot changes.
    pub fn set(&mut self, index: usize, value: T) -> (r: Result<(), ListError>)
        requires
            old(self).wf(),
        ensures
            final(self).wf(),
            old(self).is_poisoned() ==> r == Err::<(), ListError>(ListError::Poisoned)
                && *final(self) == *old(self),
            !old(self).is_poisoned() && index >= old(self).spec_len() ==> r == Err::<(), ListError>(
                ListError::OutOfBounds,
            ) && *final(self) == *old(self),
            !old(self).is_poisoned() && index < old(self).spec_len() ==> {
                &&& r == Ok::<(), ListError>(())
                &&& final(self).store() == old(self).store().update(
                    old(self).removal_target(index as int),
                    value,
                )
                &&& final(self).routine() == old(self).routine()
                &&& final(self).ledger() == old(self).ledger()
                &&& final(self).spec_len() == old(self).spec_len()
                &&& !final(self).is_poisoned()
            },
    {
        if self.poisoned {
            return Err(ListError::Poisoned);
        }
        if index >= self.len {
            return Err(ListError::OutOfBounds);
        }
        let phys = self.get_real_index(index);
        self.list.set(phys, value);
        Ok(())
    }

    /// Where `x` belongs in the ascending ledger `v`: the first position
    /// whose entry is at least `x`.
    #[verifier::loop_isolation(false)]
    fn lower_bound(v: &Vec<usize>, x: usize) -> (p: usize)
        requires
            sorted_strict(v@),
        ensures
            p <= v@.len(),
            forall|k: int| 0 <= k < p ==> v@[k] < x,
            forall|k: int| p <= k < v@.len() ==> v@[k] >= x,
    {
        let mut p: usize = 0;
        while p < v.len()
            invariant
                p <= v@.len(),
                forall|k: int| 0 <= k < p ==> v@[k] < x,
            decreases v@.len() - p,
        {
            if v[p] >= x {
                return p;
            }
            p = p + 1;
        }
        p
    }

    /// Fallibly remove the element at logical `index`.
    ///
    /// Validates the bounds and the routine's 32-bit domain, translates
    /// `index` through the pre-removal routine to find the physical slot
    /// being vacated — the permanent threshold of this removal — records
    /// that slot in the ledger, decrements the length, and appends the new
    /// guard threshold to the routine.
    ///
    /// Should the routine land on a slot the ledger already holds, the
    /// ledger and the routine can no longer be kept in agreement: the
    /// container poisons itself, rejects the removal, and every later
    /// operation fails with [`ListError::Poisoned`].
    pub fn try_remove(&mut self, index: usize) -> (r: Result<(), ListError>)
        requires
            old(self).wf(),
        ensures
            final(self).wf(),
            final(self).store() == old(self).store(),
            old(self).is_poisoned() ==> r == Err::<(), ListError>(ListError::Poisoned)
                && *final(self) == *old(self),
            !old(self).is_poisoned() && index >= old(self).spec_len() ==> r == Err::<(), ListError>(
                ListError::OutOfBounds,
            ) && *final(self) == *old(self),
            !old(self).is_poisoned() && index < old(self).spec_len() && (index > THRESHOLD_MAX
                || old(self).removal_target(index as int) > THRESHOLD_MAX) ==> r == Err::<
                (),
                ListError,
            >(ListError::IndexOverflow) && *final(self) == *old(self),
            !old(self).is_poisoned() && index < old(self).spec_len() && index <= THRESHOLD_MAX
                && old(self).removal_target(index as int) <= THRESHOLD_MAX && has_index(
                old(self).ledger(),
                old(self).removal_target(index as int),
            ) ==> {
                &&& r == Err::<(), ListError>(ListError::Inconsistent)
                &&& final(self).is_poisoned()
                &&& final(self).routine() == old(self).routine()
                &&& final(self).ledger() == old(self).ledger()
                &&& final(self).spec_len() == old(self).spec_len()
            },
            !old(self).is_poisoned() && index < old(self).spec_len() && index <= THRESHOLD_MAX
                && old(self).removal_target(index as int) <= THRESHOLD_MAX && !has_index(
                old(self).ledger(),
                old(self).removal_target(index as int),
            ) ==> {
                &&& r == Ok::<(), ListError>(())
                &&& !final(self).is_poisoned()
                &&& final(self).spec_len() == old(self).spec_len() - 1
                &&& final(self).routine() == old(self).routine().push(
                    old(self).removal_target(index as int) as usize,
                )
                &&& final(self).ledger().len() == old(self).ledger().len() + 1
                &&& forall|j: int|
                    has_index(final(self).ledger(), j) <==> (has_index(old(self).ledger(), j) || j
                        == old(self).removal_target(index as int))
            },
    {
        if self.poisoned {
            return Err(ListError::Poisoned);
        }
        if index >= self.len {
            return Err(ListError::OutOfBounds);
        }
        if index > THRESHOLD_MAX {
            return Err(ListError::IndexOverflow);
        }
        let phys = self.get_real_index(index);
        if phys > THRESHOLD_MAX {
            return Err(ListError::IndexOverflow);
        }
        let pos = Self::lower_bound(&self.removed, phys);
        let ghost rem0 = self.removed@;
        let ghost ts0 = self.thresholds@;
        if pos < self.removed.len() && self.removed[pos] == phys {
            self.poisoned = true;
            proof {
                assert(has_index(rem0, phys as int));
            }
            return Err(ListError::Inconsistent);
        }
        proof {
            assert(!has_index(rem0, phys as int)) by {
                if has_index(rem0, phys as int) {
                    let k = choose|k: int| 0 <= k < rem0.len() && rem0[k] as int == phys as int;
                    assert(!(k < pos) && !(k >= pos));
                }
            }
        }
        self.thresholds.push(phys);
        self.removed.insert(pos, phys);
        self.len = self.len - 1;
        proof {
            rem0.insert_ensures(pos as int, phys);
            lemma_no_duplicates_push(ts0, phys);
            assert forall|a: int, b: int|
                0 <= a < b < self.removed@.len() implies self.removed@[a] < self.removed@[b] by {
                if b < pos {
                    assert(self.removed@[a] == rem0[a] && self.removed@[b] == rem0[b]);
                } else if a > pos {
                    assert(self.removed@[a] == rem0[a - 1] && self.removed@[b] == rem0[b - 1]);
                } else if a < pos && b == pos {
                    assert(self.removed@[a] == rem0[a] && self.removed@[b] == phys);
                } else if a < pos && b > pos {
                    assert(self.removed@[a] == rem0[a] && self.removed@[b] == rem0[b - 1]);
                    assert(rem0[b - 1] >= phys && rem0[b - 1] as int != phys as int);
                } else {
                    assert(a == pos);
                    assert(self.removed@[a] == phys && self.removed@[b] == rem0[b - 1]);
                    assert(rem0[b - 1] >= phys && rem0[b - 1] as int != phys as int);
                }
            }
            assert forall|j: int|
                has_index(self.thresholds@, j) <==> has_index(self.removed@, j) by {
                lemma_has_index_push(ts0, phys, j);
                lemma_has_index_insert(rem0, pos as int, phys, j);
            }
            assert forall|k: int|
                0 <= k < self.removed@.len() implies (#[trigger] self.removed@[k])
                < self.list@.len() by {
                if k < pos {
                    assert(self.removed@[k] == rem0[k]);
                } else if k > pos {
                    assert(self.removed@[k] == rem0[k - 1]);
                }
            }
            assert forall|j: int|
                has_index(self.removed@, j) <==> (has_index(rem0, j) || j == phys as int) by {
                lemma_has_index_insert(rem0, pos as int, phys, j);
            }
            assert(old(self).removal_target(index as int) as usize == phys);
        }
        Ok(())
    }

    /// Remove the element at logical `index`, as [`JITList::try_remove`]
    /// does. The caller owes every condition under which `try_remove`
    /// succeeds; the original operation gives up on any other input.
    pub fn remove(&mut self, index: usize)
        requires
            old(self).wf(),
            !old(self).is_poisoned(),
            index < old(self).spec_len(),
            index <= THRESHOLD_MAX,
            old(self).removal_target(index as int) <= THRESHOLD_MAX,
            !has_index(old(self).ledger(), old(self).removal_target(index as int)),
        ensures
            final(self).wf(),
            !final(self).is_poisoned(),
            final(self).store() == old(self).store(),
            final(self).spec_len() == old(self).spec_len() - 1,
            final(self).routine() == old(self).routine().push(
                old(self).removal_target(index as int) as usize,
            ),
            final(self).ledger().len() == old(self).ledger().len() + 1,
            forall|j: int|
                has_index(final(self).ledger(), j) <==> (has_index(old(self).ledger(), j) || j
                    == old(self).removal_target(index as int)),
    {
        let r = self.try_remove(index);
        proof {
            assert(r == Ok::<(), ListError>(()));
        }
    }

    /// Consume the container and collect the surviving elements in their
    /// original relative order. Walks the backing store in physical order
    /// and skips the slots the ledger holds, moving one monotone cursor
    /// over the ordered ledger instead of running the translation routine
    /// per element.
    #[verifier::loop_isolation(false)]
    pub fn into_vec(self) -> (r: Result<Vec<T>, ListError>)
        requires
            self.wf(),
        ensures
            self.is_poisoned() ==> (r matches Err(e) && e == ListError::Poisoned),
            !self.is_poisoned() ==> (r matches Ok(v) && v@ == survivors(
                self.store(),
                self.ledger(),
            )),
    {
        if self.poisoned {
            return Err(ListError::Poisoned);
        }
        let ghost store0 = self.list@;
        let ghost rem0 = self.removed@;
        let JITList { list, removed, thresholds: _, len: _, poisoned: _ } = self;
        let mut list = list;
        let mut cursor: usize = removed.len();
        let mut rev: Vec<T> = Vec::new();
        proof {
            assert(store0.take(store0.len() as int) =~= store0);
            assert(survivors(store0, rem0) + rev@.reverse() =~= survivors(store0, rem0));
        }
        while list.len() > 0
            invariant
                list@.len() <= store0.len(),
                list@ == store0.take(list@.len() as int),
                cursor <= rem0.len(),
                removed@ == rem0,
                forall|k: int| 0 <= k < cursor ==> (#[trigger] rem0[k]) < list@.len(),
                forall|k: int| cursor <= k < rem0.len() ==> (#[trigger] rem0[k]) >= list@.len(),
                survivors(store0, rem0) == survivors(store0.take(list@.len() as int), rem0)
                    + rev@.reverse(),
            decreases list@.len(),
        {
            let i: usize = list.len() - 1;
            let ghost rev0 = rev@;
            let x = match list.pop() {
                Some(x) => x,
                None => vstd::pervasive::unreached(),
            };
            proof {
                assert(store0.take(i + 1).drop_last() =~= store0.take(i as int));
                assert(store0.take(i + 1).last() == store0[i as int]);
            }
            if cursor > 0 && removed[cursor - 1] == i {
                cursor = cursor - 1;
                proof {
                    assert(has_index(rem0, i as int)) by {
                        assert(rem0[cursor as int] as int == i as int);
                    }
                    assert(survivors(store0.take(i + 1), rem0) == survivors(
                        store0.take(i as int),
                        rem0,
                    ));
                }
            } else {
                rev.push(x);
                proof {
                    assert(!has_index(rem0, i as int)) by {
                        if has_index(rem0, i as int) {
                            let k = choose|k: int|
                                0 <= k < rem0.len() && rem0[k] as int == i as int;
                            if k < cursor {
                                if k < cursor - 1 {
                                    assert(rem0[k] < rem0[cursor - 1]);
                                }
                            }
                        }
                    }
                    assert(survivors(store0.take(i + 1), rem0) == survivors(
                        store0.take(i as int),
                        rem0,
                    ).push(x));
                    assert(rev0.push(x).reverse() =~= seq![x] + rev0.reverse());
                    assert(survivors(store0.take(i as int), rem0) + rev@.reverse() =~= survivors(
                        store0.take(i + 1),
                        rem0,
                    ) + rev0.reverse());
                }
            }
        }
        proof {
            assert(store0.take(0) =~= Seq::<T>::empty());
            assert(survivors(store0, rem0) =~= rev@.reverse());
        }
        let mut out: Vec<T> = Vec::new();
        while rev.len() > 0
            invariant
                out@ + rev@.reverse() == survivors(store0, rem0),
            decreases rev@.len(),
        {
            let ghost rev0 = rev@;
            let ghost out0 = out@;
            let x = match rev.pop() {
                Some(x) => x,
                None => vstd::pervasive::unreached(),
            };
            out.push(x);
            proof {
                assert(rev0.drop_last().push(x) =~= rev0);
                assert(rev0.drop_last().push(x).reverse() =~= seq![x] + rev0.drop_last().reverse());
                assert(out@ + rev@.reverse() =~= out0 + rev0.reverse());
            }
        }
        proof {
            assert(out@ + rev@.reverse() =~= out@);
        }
        Ok(out)
    }
}

/// Law: the length always equals the store's initial length less the
/// removals performed, and the routine holds one guard per removal.
pub proof fn lemma_length_invariant<T>(l: JITList<T>)
    requires
        l.wf(),
        !l.is_poisoned(),
    ensures
        l.spec_len() + l.ledger().len() == l.store().len(),
        l.routine().len() == l.ledger().len(),
{
}

/// Law: the translation is strictly monotone in the logical index, so no
/// two distinct logical indices ever reach the same physical slot, and it
/// stays within the backing store on every index in range.
pub proof fn lemma_translate_injective<T>(l: JITList<T>, i: int, j: int)
    requires
        l.wf(),
        !l.is_poisoned(),
        0 <= i < j,
    ensures
        translate(l.routine(), i) < translate(l.routine(), j),
        j < l.spec_len() ==> translate(l.routine(), j) < l.store().len(),
{
    lemma_translate_monotonic(l.routine(), i, j);
    lemma_count_le_bound(l.routine(), j);
}

/// Law: read/translate consistency. When no removed slot lies in the
/// interval `(i, translate(i)]`, the routine maps the logical index `i` to
/// the physical slot holding the `i`-th surviving element, and never to a
/// removed slot. (Outside that proviso the rank-counting routine can land
/// on a removed slot; removal then refuses and poisons the container.)
pub proof fn lemma_translate_consistent<T>(l: JITList<T>, i: int)
    requires
        l.wf(),
        !l.is_poisoned(),
        0 <= i < l.spec_len(),
        forall|j: int| i < j <= translate(l.routine(), i) ==> !has_index(l.ledger(), j),
    ensures
        !has_index(l.ledger(), translate(l.routine(), i)),
        0 <= translate(l.routine(), i) < l.store().len(),
        survivors(l.store(), l.ledger())[i] == l.store()[translate(l.routine(), i)],
{
    lemma_sorted_no_duplicates(l.ledger());
    lemma_count_le_transfer(l.routine(), l.ledger(), i);
    lemma_count_le_bound(l.ledger(), i);
    assert(translate(l.routine(), i) == translate(l.ledger(), i));
    lemma_translate_correct(l.store(), l.ledger(), i);
}

/// Law: iteration completeness. The sequence a full traversal yields has
/// exactly the current length: every surviving element appears once.
pub proof fn lemma_iteration_length<T>(l: JITList<T>)
    requires
        l.wf(),
        !l.is_poisoned(),
    ensures
        survivors(l.store(), l.ledger()).len() == l.spec_len(),
{
    lemma_sorted_no_duplicates(l.ledger());
    lemma_survivors_len(l.store(), l.ledger());
    lemma_count_le_all(l.ledger(), l.store().len() - 1);
}

/// Law: the fast path is the identity. On a container with zero removals
/// the routine maps every index to itself and traversal yields the store
/// unchanged, so reads return the original elements in place.
pub proof fn lemma_fresh_identity<T>(l: JITList<T>, i: int)
    requires
        l.wf(),
        !l.is_poisoned(),
        l.ledger().len() == 0,
        0 <= i < l.spec_len(),
    ensures
        translate(l.routine(), i) == i,
        survivors(l.store(), l.ledger()) == l.store(),
{
    assert(l.routine().len() == 0);
    assert(count_le(l.routine(), i) == 0);
    assert(l.ledger() =~= Seq::<usize>::empty());
    lemma_survivors_empty(l.store());
}

} // verus!
