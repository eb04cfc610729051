//! Ring buffer with a fixed length.
//!
//! The buffer wraps a storage value together with a single cursor, `first`,
//! that names the storage slot holding the oldest logical element. Logical
//! position `i` lives in storage slot `(first + i) % len`; every operation is
//! pure index arithmetic, no data is ever shifted. Elements are pushed and
//! evicted simultaneously, so the buffer always holds exactly as many live
//! elements as the storage has slots.

use vstd::prelude::*;
use vstd::arithmetic::div_mod::{
    lemma_small_mod, lemma_mod_add_multiples_vanish, lemma_mod_bound, lemma_fundamental_div_mod,
    lemma_mod_multiples_vanish,
};
use crate::traits::{Slice, SliceMut};

verus! {

/// Why a construction attempt was refused.
#[derive(Clone, Copy, Debug, PartialEq, Eq, Structural)]
pub enum RingError {
    /// The backing storage holds no slots at all, so no cursor position is valid.
    ZeroCapacity,
    /// The requested cursor does not name a slot of the storage.
    FirstOutOfRange,
}

/// Ring buffer with a fixed length.
///
/// Can be created around any storage type with a [`Slice`] capability; the
/// operations that write require [`SliceMut`] as well.
#[derive(Clone, Copy, Debug, PartialEq, Eq, Hash)]
pub struct Fixed<S> {
    first: usize,
    data: S,
}

/// One push at the model level: the oldest element leaves at the front and
/// the new element is appended at the back.
pub open spec fn spec_push<T>(s: Seq<T>, item: T) -> Seq<T> {
    s.drop_first().push(item)
}

/// The logical (oldest-to-newest) reading of a storage sequence under a
/// cursor: logical position `i` is storage slot `(first + i) % len`.
pub open spec fn logical_view<T>(first: int, s: Seq<T>) -> Seq<T> {
    Seq::new(s.len(), |i: int| s[(first + i) % (s.len() as int)])
}

/// Applies [`spec_push`] once for each element of `items`, in order.
pub open spec fn spec_push_all<T>(s: Seq<T>, items: Seq<T>) -> Seq<T>
    decreases items.len(),
{
    if items.len() == 0 {
        s
    } else {
        spec_push_all(spec_push(s, items[0]), items.drop_first())
    }
}

/// The elements evicted, in order, by the pushes of [`spec_push_all`].
pub open spec fn spec_evictions<T>(s: Seq<T>, items: Seq<T>) -> Seq<T>
    decreases items.len(),
{
    if items.len() == 0 {
        Seq::empty()
    } else {
        seq![s[0]] + spec_evictions(spec_push(s, items[0]), items.drop_first())
    }
}

/// For `0 <= a < 2 * n`, reducing modulo `n` is a single conditional
/// subtraction. Every slot computation in this module stays below `2 * n`,
/// so this is the only fact about `%` the proofs need.
proof fn lemma_wrap_index(a: int, n: int)
    requires
        0 < n,
        0 <= a < 2 * n,
    ensures
        a % n == if a < n { a } else { a - n },
{
    if a < n {
        lemma_small_mod(a as nat, n as nat);
    } else {
        lemma_small_mod((a - n) as nat, n as nat);
        lemma_mod_add_multiples_vanish(a - n, n);
    }
}

/// Counting one step further around the ring from any nonnegative count.
proof fn lemma_mod_step(k: int, n: int)
    requires
        0 < n,
        0 <= k,
    ensures
        (k + 1) % n == if k % n + 1 < n {
            k % n + 1
        } else {
            0
        },
{
    lemma_mod_bound(k, n);
    lemma_fundamental_div_mod(k, n);
    lemma_mod_multiples_vanish(k / n, k % n + 1, n);
    lemma_wrap_index(k % n + 1, n);
}

/// Pushing one more element after a whole run of pushes is the run extended
/// by that element.
proof fn lemma_push_all_snoc<T>(s: Seq<T>, items: Seq<T>, x: T)
    ensures
        spec_push_all(s, items.push(x)) == spec_push(spec_push_all(s, items), x),
    decreases items.len(),
{
    assert(items.push(x).len() == items.len() + 1);
    if items.len() == 0 {
        assert(items.push(x)[0] == x);
        assert(items.push(x).drop_first() =~= Seq::<T>::empty());
        assert(spec_push_all(s, items.push(x)) == spec_push_all(
            spec_push(s, x),
            items.push(x).drop_first(),
        ));
        assert(spec_push_all(spec_push(s, x), items.push(x).drop_first()) == spec_push(s, x));
    } else {
        assert(items.push(x)[0] == items[0]);
        assert(items.push(x).drop_first() =~= items.drop_first().push(x));
        lemma_push_all_snoc(spec_push(s, items[0]), items.drop_first(), x);
        assert(spec_push_all(s, items.push(x)) == spec_push_all(
            spec_push(s, items[0]),
            items.drop_first().push(x),
        ));
    }
}

/// Logical positions are stable under a push: every surviving element moves
/// down exactly one position, and the pushed element stands at the last
/// position.
pub proof fn lemma_push_shifts_positions<T>(s: Seq<T>, item: T)
    requires
        s.len() > 0,
    ensures
        spec_push(s, item).len() == s.len(),
        forall|k: int| 1 <= k < s.len() ==> spec_push(s, item)[k - 1] == s[k],
        spec_push(s, item)[s.len() - 1] == item,
{
}

/// Eviction is first-in-first-out: pushing `items.len() <= s.len()` new
/// elements onto a ring holding `s` evicts exactly the oldest elements of
/// `s`, oldest first, and leaves the survivors of `s` followed by the new
/// elements.
pub proof fn lemma_eviction_fifo<T>(s: Seq<T>, items: Seq<T>)
    requires
        0 < s.len(),
        items.len() <= s.len(),
    ensures
        spec_evictions(s, items) == s.subrange(0, items.len() as int),
        spec_push_all(s, items) == s.skip(items.len() as int) + items,
    decreases items.len(),
{
    let n = s.len() as int;
    let k = items.len() as int;
    if items.len() == 0 {
        assert(spec_evictions(s, items) =~= s.subrange(0, 0));
        assert(spec_push_all(s, items) =~= s.skip(0) + items);
    } else {
        let s1 = spec_push(s, items[0]);
        lemma_eviction_fifo(s1, items.drop_first());
        assert forall|j: int| 0 <= j < k implies (seq![s[0]] + spec_evictions(
            s1,
            items.drop_first(),
        ))[j] == s.subrange(0, k)[j] by {
            if j >= 1 {
                assert(s1.subrange(0, k - 1)[j - 1] == s1[j - 1]);
            }
        }
        assert(spec_evictions(s, items) =~= s.subrange(0, k));
        assert forall|j: int| 0 <= j < n implies (s1.skip(k - 1) + items.drop_first())[j] == (
        s.skip(k) + items)[j] by {
            if j < n - k + 1 {
                assert((s1.skip(k - 1) + items.drop_first())[j] == s1[k - 1 + j]);
            }
        }
        assert(spec_push_all(s, items) =~= s.skip(k) + items);
    }
}

/// A full revolution: pushing exactly as many new elements as the ring holds
/// returns the whole old contents, oldest first, and leaves exactly the new
/// elements as the contents.
pub proof fn lemma_eviction_fifo_full<T>(s: Seq<T>, items: Seq<T>)
    requires
        0 < s.len(),
        items.len() == s.len(),
    ensures
        spec_evictions(s, items) == s,
        spec_push_all(s, items) == items,
{
    lemma_eviction_fifo(s, items);
    assert(s.subrange(0, s.len() as int) =~= s);
    assert(s.skip(s.len() as int) + items =~= items);
}

/// Overwriting the slot of logical position `i` rewrites exactly position `i`
/// of the logical reading.
proof fn lemma_view_of_update<T>(first: int, s: Seq<T>, i: int, v: T)
    requires
        0 <= first < s.len(),
        0 <= i < s.len(),
    ensures
        logical_view(first, s.update((first + i) % (s.len() as int), v)) == logical_view(
            first,
            s,
        ).update(i, v),
{
    let n = s.len() as int;
    let w = (first + i) % n;
    lemma_wrap_index(first + i, n);
    assert forall|k: int| 0 <= k < n implies logical_view(first, s.update(w, v))[k]
        == logical_view(first, s).update(i, v)[k] by {
        lemma_wrap_index(first + k, n);
    }
    assert(logical_view(first, s.update(w, v)) =~= logical_view(first, s).update(i, v));
}

/// Overwriting the `first` slot and advancing the cursor is one model-level
/// push: the logical reading loses its front element and gains `item` at the
/// back.
proof fn lemma_view_of_push<T>(first: int, s: Seq<T>, item: T)
    requires
        0 <= first < s.len(),
    ensures
        logical_view((first + 1) % (s.len() as int), s.update(first, item)) == spec_push(
            logical_view(first, s),
            item,
        ),
{
    let n = s.len() as int;
    let next = (first + 1) % n;
    lemma_wrap_index(first + 1, n);
    assert forall|k: int| 0 <= k < n implies logical_view(next, s.update(first, item))[k]
        == spec_push(logical_view(first, s), item)[k] by {
        lemma_wrap_index(next + k, n);
        lemma_wrap_index(first + k, n);
        if k < n - 1 {
            lemma_wrap_index(first + k + 1, n);
        }
    }
    assert(logical_view(next, s.update(first, item)) =~= spec_push(
        logical_view(first, s),
        item,
    ));
}

/// Round trip via the two contiguous runs: for every cursor position, the
/// run from the cursor to the end of storage followed by the run from the
/// start of storage to the cursor is exactly the logical contents. These are
/// the runs [`Fixed::slices`] returns, and the logical contents are what
/// [`Fixed::iter`] yields.
pub proof fn lemma_view_splits_at_cursor<T>(first: int, s: Seq<T>)
    requires
        0 <= first < s.len(),
    ensures
        logical_view(first, s) == s.subrange(first, s.len() as int) + s.subrange(0, first),
{
    let n = s.len() as int;
    assert forall|k: int| 0 <= k < n implies logical_view(first, s)[k] == (s.subrange(first, n)
        + s.subrange(0, first))[k] by {
        lemma_wrap_index(first + k, n);
    }
    assert(logical_view(first, s) =~= s.subrange(first, n) + s.subrange(0, first));
}

/// Relies on `<[T]>::split_at_mut`: the two returned runs are the pieces of
/// the slice below `mid` and from `mid` on, in that order; each keeps its
/// length, and writes through them are writes to the corresponding pieces.
#[verifier::external_body]
fn split_at_mut_pair<T>(run: &mut [T], mid: usize) -> (r: (&mut [T], &mut [T]))
    requires
        mid <= old(run)@.len(),
    ensures
        r.0@ == old(run)@.subrange(0, mid as int),
        r.1@ == old(run)@.subrange(mid as int, old(run)@.len() as int),
        final(r.0)@.len() == mid,
        final(r.1)@.len() == old(run)@.len() - mid,
        final(run)@ == final(r.0)@ + final(r.1)@,
{
    run.split_at_mut(mid)
}

/// Reading a concatenation logically from the seam gives the back part
/// first, then the front part.
proof fn lemma_view_of_concat<T>(a: Seq<T>, b: Seq<T>)
    requires
        b.len() > 0,
    ensures
        logical_view(a.len() as int, a + b) == b + a,
{
    let n = (a.len() + b.len()) as int;
    lemma_view_splits_at_cursor(a.len() as int, a + b);
    assert((a + b).subrange(a.len() as int, n) =~= b);
    assert((a + b).subrange(0, a.len() as int) =~= a);
}

impl<S: Slice> Fixed<S> {
    /// The physical storage contents, in storage order.
    pub closed spec fn storage(&self) -> Seq<S::Element> {
        self.data.contents()
    }

    /// The storage slot holding the oldest logical element.
    pub closed spec fn first_slot(&self) -> int {
        self.first as int
    }

    /// Number of slots, hence of live logical elements.
    pub open spec fn spec_len(&self) -> nat {
        self.storage().len()
    }

    /// The cursor names a real slot; this forces the length to be nonzero.
    pub open spec fn well_formed(&self) -> bool {
        0 <= self.first_slot() < self.spec_len()
    }
}

impl<S: Slice> View for Fixed<S> {
    type V = Seq<S::Element>;

    /// The contents in logical order: position `i` is storage slot
    /// `(first + i) % len`.
    open spec fn view(&self) -> Seq<S::Element> {
        logical_view(self.first_slot(), self.storage())
    }
}

impl<S: Slice> Fixed<S> {
    /// Element count of the underlying storage.
    pub fn len(&self) -> (n: usize)
        ensures
            n == self.spec_len(),
    {
        self.data.slice().len()
    }

    /// Checked raw-parts constructor: adopts `data` with the oldest element
    /// at storage slot `first`. Refuses a cursor that names no slot.
    pub fn from_raw_parts(first: usize, data: S) -> (r: Result<Fixed<S>, RingError>)
        ensures
            r is Ok <==> first < data.contents().len(),
            match r {
                Ok(rb) => {
                    &&& rb.first_slot() == first as int
                    &&& rb.storage() == data.contents()
                    &&& rb.well_formed()
                },
                Err(e) => {
                    &&& e == RingError::ZeroCapacity <==> data.contents().len() == 0
                    &&& e == RingError::FirstOutOfRange <==> (data.contents().len() > 0
                        && first >= data.contents().len())
                },
            },
    {
        let len = data.slice().len();
        if len == 0 {
            Err(RingError::ZeroCapacity)
        } else if first >= len {
            Err(RingError::FirstOutOfRange)
        } else {
            Ok(Fixed { first, data })
        }
    }

    /// Unchecked raw-parts constructor: the caller proves that `first` names
    /// a slot, and no runtime check is made.
    pub fn from_raw_parts_unchecked(first: usize, data: S) -> (rb: Fixed<S>)
        requires
            first < data.contents().len(),
        ensures
            rb.first_slot() == first as int,
            rb.storage() == data.contents(),
            rb.well_formed(),
    {
        Fixed { first, data }
    }

    /// Adopts a fully populated storage as-is: logical position 0 is storage
    /// slot 0. Refuses zero-length storage, which would leave the cursor with
    /// no valid slot.
    pub fn from(data: S) -> (r: Result<Fixed<S>, RingError>)
        ensures
            r is Ok <==> data.contents().len() > 0,
            match r {
                Ok(rb) => {
                    &&& rb.first_slot() == 0
                    &&& rb.storage() == data.contents()
                    &&& rb@ == data.contents()
                    &&& rb.well_formed()
                },
                Err(e) => e == RingError::ZeroCapacity && data.contents().len() == 0,
            },
    {
        let ghost d = data.contents();
        let r = Self::from_raw_parts(0, data);
        proof {
            if d.len() > 0 {
                let rb = r->Ok_0;
                assert forall|i: int| 0 <= i < d.len() implies rb@[i] == d[i] by {
                    lemma_wrap_index(i, d.len() as int);
                }
                assert(rb@ =~= d);
            }
        }
        r
    }

    /// Inserts `item` at the slot holding the oldest element, advances the
    /// cursor (wrapping to 0 at the end of storage), and returns the evicted
    /// oldest element. Insert-newest and evict-oldest in one step: the
    /// length never changes.
    pub fn push(&mut self, item: S::Element) -> (evicted: S::Element) where S: SliceMut
        requires
            old(self).well_formed(),
        ensures
            final(self).well_formed(),
            final(self).spec_len() == old(self).spec_len(),
            final(self)@ == spec_push(old(self)@, item),
            evicted == old(self)@[0],
            final(self).storage() == old(self).storage().update(old(self).first_slot(), item),
            final(self).first_slot() == (old(self).first_slot() + 1) % (
            old(self).spec_len() as int),
    {
        let len = self.data.slice().len();
        let first = self.first;
        let mut next_index = first + 1;
        if next_index == len {
            next_index = 0;
        }
        let ghost s = self.data.contents();
        let ghost n = s.len() as int;
        let ghost f = first as int;
        let run = self.data.slice_mut();
        let mut slot = item;
        core::mem::swap(&mut run[first], &mut slot);
        self.first = next_index;
        proof {
            lemma_wrap_index(f, n);
            lemma_wrap_index(f + 1, n);
            lemma_view_of_push(f, s, item);
        }
        slot
    }

    /// Reference to the logical element at position `index`, which lives in
    /// storage slot `(first + index) % len`. Callers bounds-check against
    /// `len()` themselves; see [`Self::get_checked`] for the checked variant.
    pub fn get(&self, index: usize) -> (r: &S::Element)
        requires
            self.well_formed(),
            index < self.spec_len(),
        ensures
            *r == self@[index as int],
    {
        let len = self.data.slice().len();
        let wrapped_index = if index < len - self.first {
            self.first + index
        } else {
            index - (len - self.first)
        };
        proof {
            lemma_wrap_index(self.first_slot() + index, len as int);
        }
        vstd::slice::slice_index_get(self.data.slice(), wrapped_index)
    }

    /// Checked logical access: accepted exactly on the valid positions —
    /// the last of them, `len - 1`, holds the newest element — and rejected
    /// with `None` on every index at or past the length.
    pub fn get_checked(&self, index: usize) -> (r: Option<&S::Element>)
        requires
            self.well_formed(),
        ensures
            r is Some <==> index < self.spec_len(),
            index < self.spec_len() ==> (r matches Some(e) && *e == self@[index as int]),
    {
        if index < self.len() {
            Some(self.get(index))
        } else {
            None
        }
    }

    /// Mutable reference to the logical element at position `index`. Writing
    /// through it rewrites that one logical position and nothing else.
    pub fn get_mut(&mut self, index: usize) -> (r: &mut S::Element) where S: SliceMut
        requires
            old(self).well_formed(),
            index < old(self).spec_len(),
        ensures
            *r == old(self)@[index as int],
            final(self)@ == old(self)@.update(index as int, *final(r)),
            final(self).well_formed(),
            final(self).spec_len() == old(self).spec_len(),
            final(self).first_slot() == old(self).first_slot(),
    {
        let len = self.data.slice().len();
        let first = self.first;
        let wrapped_index = if index < len - first {
            first + index
        } else {
            index - (len - first)
        };
        let ghost s = self.data.contents();
        let ghost n = s.len() as int;
        let ghost f = first as int;
        proof {
            lemma_wrap_index(f + index, n);
            assert forall|v: S::Element|
                logical_view(f, s.update(wrapped_index as int, v)) == #[trigger] logical_view(
                    f,
                    s,
                ).update(index as int, v) by {
                lemma_view_of_update(f, s, index as int, v);
            }
        }
        let run = self.data.slice_mut();
        &mut run[wrapped_index]
    }

    /// Splits the storage into two contiguous runs, `(tail-run, head-run)`,
    /// whose concatenation in that order is the full logical ordering
    /// starting at position 0. The zero-copy way to hand the contents to
    /// code that wants contiguous memory.
    pub fn slices(&self) -> (r: (&[S::Element], &[S::Element]))
        requires
            self.well_formed(),
        ensures
            r.0@ == self.storage().subrange(self.first_slot(), self.spec_len() as int),
            r.1@ == self.storage().subrange(0, self.first_slot()),
            r.0@ + r.1@ == self@,
    {
        let run = self.data.slice();
        let len = run.len();
        let start = vstd::slice::slice_subrange(run, self.first, len);
        let end = vstd::slice::slice_subrange(run, 0, self.first);
        proof {
            lemma_view_splits_at_cursor(self.first_slot(), self.storage());
        }
        (start, end)
    }

    /// Splits the storage into two contiguous mutable runs, `(tail-run,
    /// head-run)`, whose concatenation is the full logical ordering starting
    /// at position 0. Writes through either run land at the corresponding
    /// logical positions.
    pub fn slices_mut(&mut self) -> (r: (&mut [S::Element], &mut [S::Element])) where
        S: SliceMut,

        requires
            old(self).well_formed(),
        ensures
            r.0@ == old(self).storage().subrange(
                old(self).first_slot(),
                old(self).spec_len() as int,
            ),
            r.1@ == old(self).storage().subrange(0, old(self).first_slot()),
            r.0@ + r.1@ == old(self)@,
            final(r.0)@.len() == r.0@.len(),
            final(r.1)@.len() == r.1@.len(),
            final(self).first_slot() == old(self).first_slot(),
            final(self).spec_len() == old(self).spec_len(),
            final(self)@ == final(r.0)@ + final(r.1)@,
            final(self).well_formed(),
    {
        let first = self.first;
        let ghost s = self.data.contents();
        let ghost f = first as int;
        let run = self.data.slice_mut();
        let (head, tail) = split_at_mut_pair(run, first);
        proof {
            lemma_view_splits_at_cursor(f, s);
            lemma_view_of_concat(final(head)@, final(tail)@);
        }
        (tail, head)
    }

    /// Repositions the logical origin directly to storage slot `index % len`
    /// without moving any data: the existing contents are reinterpreted under
    /// the new ordering.
    pub fn set_first(&mut self, index: usize)
        requires
            old(self).well_formed(),
        ensures
            final(self).well_formed(),
            final(self).storage() == old(self).storage(),
            final(self).first_slot() == index as int % old(self).spec_len() as int,
    {
        let len = self.len();
        self.first = index % len;
    }

    /// The elements in logical order, oldest first, as a fresh vector:
    /// one full pass over the contents.
    pub fn iter(&self) -> (r: Vec<S::Element>) where S::Element: Copy
        requires
            self.well_formed(),
        ensures
            r@ == self@,
    {
        let len = self.len();
        let mut r: Vec<S::Element> = Vec::new();
        let mut i: usize = 0;
        while i < len
            invariant
                self.well_formed(),
                len == self.spec_len(),
                i <= len,
                r@ == self@.subrange(0, i as int),
            decreases len - i,
        {
            r.push(*self.get(i));
            i = i + 1;
            proof {
                assert(r@ =~= self@.subrange(0, i as int));
            }
        }
        proof {
            assert(self@.subrange(0, len as int) =~= self@);
        }
        r
    }

    /// The first `count` elements of the unbounded cyclic walk of the
    /// contents: logical order starting at position 0, wrapping around
    /// for as long as asked.
    pub fn iter_loop(&self, count: usize) -> (r: Vec<S::Element>) where S::Element: Copy
        requires
            self.well_formed(),
        ensures
            r@.len() == count,
            forall|i: int|
                0 <= i < count ==> r@[i] == self@[i % (self.spec_len() as int)],
    {
        let len = self.len();
        let mut r: Vec<S::Element> = Vec::new();
        let mut pos: usize = 0;
        let mut k: usize = 0;
        while k < count
            invariant
                self.well_formed(),
                len == self.spec_len(),
                k <= count,
                pos as int == k as int % len as int,
                0 <= pos < len,
                r@.len() == k,
                forall|i: int|
                    0 <= i < k ==> r@[i] == self@[i % (self.spec_len() as int)],
            decreases count - k,
        {
            r.push(*self.get(pos));
            proof {
                lemma_mod_step(k as int, len as int);
            }
            k = k + 1;
            pos = pos + 1;
            if pos == len {
                pos = 0;
            }
        }
        r
    }

    /// Bulk append: pushes each element of `items` in order, discarding
    /// every evicted element.
    pub fn extend(&mut self, items: &[S::Element]) where S: SliceMut, S::Element: Copy
        requires
            old(self).well_formed(),
        ensures
            final(self).well_formed(),
            final(self).spec_len() == old(self).spec_len(),
            final(self)@ == spec_push_all(old(self)@, items@),
            final(self).first_slot() == (old(self).first_slot() + items@.len()) % (
            old(self).spec_len() as int),
    {
        let count = items.len();
        let mut k: usize = 0;
        proof {
            lemma_small_mod(old(self).first_slot() as nat, old(self).spec_len());
        }
        while k < count
            invariant
                self.well_formed(),
                self.spec_len() == old(self).spec_len(),
                count == items@.len(),
                k <= count,
                self@ == spec_push_all(old(self)@, items@.subrange(0, k as int)),
                self.first_slot() == (old(self).first_slot() + k) % (
                old(self).spec_len() as int),
            decreases count - k,
        {
            let x = *vstd::slice::slice_index_get(items, k);
            proof {
                lemma_mod_step(old(self).first_slot() + k, old(self).spec_len() as int);
                lemma_wrap_index(self.first_slot() + 1, old(self).spec_len() as int);
            }
            self.push(x);
            k = k + 1;
            proof {
                assert(items@.subrange(0, k as int) =~= items@.subrange(
                    0,
                    k as int - 1,
                ).push(items@[k as int - 1]));
                lemma_push_all_snoc(old(self)@, items@.subrange(0, k as int - 1), x);
            }
        }
        proof {
            assert(items@.subrange(0, count as int) =~= items@);
        }
    }

    /// Decomposes the buffer back into its `(first, storage)` pair,
    /// surrendering the storage to the caller.
    pub fn into_raw_parts(self) -> (r: (usize, S))
        ensures
            r.0 as int == self.first_slot(),
            r.1.contents() == self.storage(),
    {
        let Fixed { first, data } = self;
        (first, data)
    }
}

impl<T: Copy> Fixed<Vec<T>> {
    /// Sequence-builder entry point: a ring of `capacity` copies of a
    /// placeholder value, meant to be initialized entirely by eviction —
    /// the first `capacity` pushes (see [`Fixed::extend`]) displace every
    /// placeholder. Refused at zero capacity, like every construction.
    pub fn from_fill(fill: T, capacity: usize) -> (r: Result<Fixed<Vec<T>>, RingError>)
        ensures
            r is Ok <==> capacity > 0,
            match r {
                Ok(rb) => {
                    &&& rb.well_formed()
                    &&& rb.first_slot() == 0
                    &&& rb@ == Seq::new(capacity as nat, |i: int| fill)
                },
                Err(e) => e == RingError::ZeroCapacity && capacity == 0,
            },
    {
        let mut data: Vec<T> = Vec::new();
        let mut k: usize = 0;
        while k < capacity
            invariant
                k <= capacity,
                data@ == Seq::new(k as nat, |i: int| fill),
            decreases capacity - k,
        {
            data.push(fill);
            k = k + 1;
            proof {
                assert(data@ =~= Seq::new(k as nat, |i: int| fill));
            }
        }
        Fixed::from(data)
    }
}

} // verus!
