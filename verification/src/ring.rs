//! The circular buffer itself: storage, the two cursors, and the index
//! protocol that computes the occupied and free regions and commits to them.

use vstd::prelude::*;

verus! {

use crate::PopAccessError;
use crate::PopError;
use crate::PushAccessError;
use crate::PushError;

/// A fixed-capacity circular buffer.
///
/// The storage holds `capacity + 1` slots; the slot just before `head`
/// (circularly) is never written, so `head == tail` means empty and
/// `tail + 1 == head` (circularly) means full. A slot holds `Some` exactly
/// when it lies in the occupied region `[head, tail)`, so tearing the buffer
/// down releases exactly the live elements and never a stale slot.
pub struct RingBuffer<T> {
    storage: Vec<Option<T>>,
    head: usize,
    tail: usize,
}

impl<T> View for RingBuffer<T> {
    type V = Seq<T>;

    /// The live contents, oldest first.
    closed spec fn view(&self) -> Seq<T> {
        Seq::new(
            self.occupied() as nat,
            |k: int| self.storage@[self.slot_at(k)].unwrap(),
        )
    }
}

impl<T> RingBuffer<T> {
    /// Number of slots, one more than the capacity.
    pub closed spec fn slots(&self) -> int {
        self.storage@.len() as int
    }

    /// The user-requested capacity: one less than the slot count.
    pub open spec fn cap(&self) -> int {
        self.slots() - 1
    }

    /// The consume cursor: index of the next slot to read.
    pub closed spec fn head_idx(&self) -> int {
        self.head as int
    }

    /// The produce cursor: index of the next slot to write.
    pub closed spec fn tail_idx(&self) -> int {
        self.tail as int
    }

    /// Number of live elements: the length of the circular range
    /// `[head, tail)`.
    pub open spec fn occupied(&self) -> int {
        if self.tail_idx() >= self.head_idx() {
            self.tail_idx() - self.head_idx()
        } else {
            self.tail_idx() + self.cap() + 1 - self.head_idx()
        }
    }

    /// The physical slot holding the `k`-th live element.
    closed spec fn slot_at(&self, k: int) -> int {
        if self.head_idx() + k < self.slots() {
            self.head_idx() + k
        } else {
            self.head_idx() + k - self.slots()
        }
    }

    /// Whether the physical slot `i` lies in the occupied region, that is in
    /// the circular range `[head, tail)`.
    pub open spec fn in_occupied_region(&self, i: int) -> bool {
        if self.head_idx() <= self.tail_idx() {
            self.head_idx() <= i < self.tail_idx()
        } else {
            self.head_idx() <= i < self.cap() + 1 || 0 <= i < self.tail_idx()
        }
    }

    /// Whether the physical slot `i` holds a live element.
    pub closed spec fn slot_is_live(&self, i: int) -> bool {
        0 <= i < self.slots() && self.storage@[i] is Some
    }

    /// Well-formedness: both cursors point into the storage, and a slot holds
    /// a value exactly when it lies in the occupied region.
    pub closed spec fn wf(&self) -> bool {
        &&& self.slots() >= 1
        &&& self.head_idx() < self.slots()
        &&& self.tail_idx() < self.slots()
        &&& forall|k: int|
            0 <= k < self.slots() ==> ((self.storage@[self.slot_at(k)] is Some) <==> k
                < self.occupied())
    }

    /// The occupied count never exceeds the capacity, and the view lists
    /// exactly the occupied slots.
    pub proof fn lemma_occupancy(&self)
        requires
            self.wf(),
        ensures
            0 <= self.occupied() <= self.cap(),
            self@.len() == self.occupied(),
    {
    }

    /// Creates an empty buffer with `capacity + 1` slots and both cursors
    /// at zero.
    pub fn new(capacity: usize) -> (r: Self)
        requires
            capacity < usize::MAX,
        ensures
            r.wf(),
            r.cap() == capacity,
            r@ == Seq::<T>::empty(),
            r.head_idx() == 0,
            r.tail_idx() == 0,
    {
        let slots = capacity + 1;
        let mut storage: Vec<Option<T>> = Vec::new();
        let mut i: usize = 0;
        while i < slots
            invariant
                i == storage@.len(),
                i <= slots,
                forall|k: int| 0 <= k < i ==> storage@[k] is None,
            decreases slots - i,
        {
            storage.push(None);
            i = i + 1;
        }
        let r = RingBuffer { storage, head: 0, tail: 0 };
        proof {
            assert(r@ =~= Seq::<T>::empty());
        }
        r
    }

    /// Returns the capacity the buffer was created with.
    pub fn capacity(&self) -> (r: usize)
        requires
            self.wf(),
        ensures
            r == self.cap(),
    {
        self.storage.len() - 1
    }

    /// A snapshot of the two cursors, head first.
    pub fn head_tail(&self) -> (r: (usize, usize))
        ensures
            r.0 == self.head_idx(),
            r.1 == self.tail_idx(),
    {
        (self.head, self.tail)
    }

    /// True exactly when the buffer holds no element.
    pub fn is_empty(&self) -> (r: bool)
        requires
            self.wf(),
        ensures
            r == (self@.len() == 0),
            r == (self.head_idx() == self.tail_idx()),
    {
        self.head == self.tail
    }

    /// True exactly when the buffer holds `capacity` elements, that is when
    /// advancing `tail` once would make it meet `head`.
    pub fn is_full(&self) -> (r: bool)
        requires
            self.wf(),
        ensures
            r == (self@.len() == self.cap()),
            r == (self.next_idx(self.tail_idx()) == self.head_idx()),
    {
        let slots = self.storage.len();
        let next = if self.tail + 1 == slots {
            0
        } else {
            self.tail + 1
        };
        next == self.head
    }

    /// The cursor that follows `i`, wrapping past the last slot.
    pub open spec fn next_idx(&self, i: int) -> int {
        if i + 1 == self.cap() + 1 {
            0
        } else {
            i + 1
        }
    }

    /// Writes `elem` into the slot at `tail` and advances `tail` once.
    fn push_unchecked(&mut self, elem: T)
        requires
            old(self).wf(),
            old(self)@.len() < old(self).cap(),
        ensures
            final(self).wf(),
            final(self)@ == old(self)@.push(elem),
            final(self).cap() == old(self).cap(),
            final(self).head_idx() == old(self).head_idx(),
            final(self).tail_idx() == old(self).next_idx(old(self).tail_idx()),
    {
        let t = self.tail;
        let slots = self.storage.len();
        self.storage[t] = Some(elem);
        self.tail = if t + 1 == slots {
            0
        } else {
            t + 1
        };
        proof {
            let o = old(self).occupied();
            assert(old(self).slot_at(o) == old(self).tail_idx());
            assert forall|k: int| 0 <= k < self.slots() implies (self.storage@[self.slot_at(k)]
                is Some) <==> k < self.occupied() by {
                if k != o {
                    assert(old(self).slot_at(k) != old(self).tail_idx());
                }
            }
            assert(self@ =~= old(self)@.push(elem));
        }
    }

    /// Takes the element out of the slot at `head` and advances `head` once.
    fn pop_unchecked(&mut self) -> (r: T)
        requires
            old(self).wf(),
            old(self)@.len() > 0,
        ensures
            final(self).wf(),
            r == old(self)@[0],
            final(self)@ == old(self)@.skip(1),
            final(self).cap() == old(self).cap(),
            final(self).head_idx() == old(self).next_idx(old(self).head_idx()),
            final(self).tail_idx() == old(self).tail_idx(),
    {
        let h = self.head;
        let slots = self.storage.len();
        proof {
            assert(old(self).slot_at(0) == old(self).head_idx());
        }
        let v_opt = self.storage[h].take();
        self.head = if h + 1 == slots {
            0
        } else {
            h + 1
        };
        proof {
            assert forall|k: int| 0 <= k < self.slots() - 1 implies self.slot_at(k) == old(
                self,
            ).slot_at(k + 1) by {}
            assert(self.slot_at(self.slots() - 1) == old(self).head_idx());
            assert forall|k: int| 0 <= k < self.slots() implies (self.storage@[self.slot_at(k)]
                is Some) <==> k < self.occupied() by {
                if k < self.slots() - 1 {
                    assert(old(self).slot_at(k + 1) != old(self).head_idx());
                }
            }
            assert(self@ =~= old(self)@.skip(1));
        }
        v_opt.unwrap()
    }

    /// Moves `elem` into the buffer, or returns it unchanged inside the error
    /// when the buffer is full.
    pub fn push(&mut self, elem: T) -> (r: Result<(), (PushError, T)>)
        requires
            old(self).wf(),
        ensures
            final(self).wf(),
            final(self).cap() == old(self).cap(),
            (r is Err) <==> old(self)@.len() == old(self).cap(),
            old(self)@.len() < old(self).cap() ==> r is Ok && final(self)@ == old(self)@.push(elem)
                && final(self).head_idx() == old(self).head_idx() && final(self).tail_idx() == old(
                self,
            ).next_idx(old(self).tail_idx()),
            old(self)@.len() == old(self).cap() ==> r == Err::<(), (PushError, T)>(
                (PushError::Full, elem),
            ) && *final(self) == *old(self),
    {
        proof {
            self.lemma_occupancy();
        }
        if self.is_full() {
            Err((PushError::Full, elem))
        } else {
            self.push_unchecked(elem);
            Ok(())
        }
    }

    /// Moves the oldest element out of the buffer, or reports that it is
    /// empty.
    pub fn pop(&mut self) -> (r: Result<T, PopError>)
        requires
            old(self).wf(),
        ensures
            final(self).wf(),
            final(self).cap() == old(self).cap(),
            (r is Err) <==> old(self)@.len() == 0,
            old(self)@.len() > 0 ==> (r matches Ok(v) && v == old(self)@[0]) && final(self)@ == old(
                self,
            )@.skip(1) && final(self).head_idx() == old(self).next_idx(old(self).head_idx())
                && final(self).tail_idx() == old(self).tail_idx(),
            old(self)@.len() == 0 ==> r == Err::<T, PopError>(PopError::Empty) && *final(self)
                == *old(self),
    {
        if self.is_empty() {
            Err(PopError::Empty)
        } else {
            Ok(self.pop_unchecked())
        }
    }

    /// Length of the first writable segment: the free slots from `tail` up to
    /// the physical end of the storage, or up to the slot before `head`,
    /// whichever comes first.
    pub open spec fn free_left_len(&self) -> int {
        if self.tail_idx() >= self.head_idx() {
            if self.head_idx() > 0 {
                self.cap() + 1 - self.tail_idx()
            } else {
                self.cap() - self.tail_idx()
            }
        } else {
            self.head_idx() - 1 - self.tail_idx()
        }
    }

    /// Length of the second writable segment: the free slots from the start
    /// of the storage up to the slot before `head`, when the free region
    /// wraps.
    pub open spec fn free_right_len(&self) -> int {
        if self.tail_idx() >= self.head_idx() && self.head_idx() > 0 {
            self.head_idx() - 1
        } else {
            0
        }
    }

    /// Length of the first readable segment: the live slots from `head` up to
    /// `tail` or up to the physical end of the storage.
    pub open spec fn occ_left_len(&self) -> int {
        if self.tail_idx() >= self.head_idx() {
            self.tail_idx() - self.head_idx()
        } else {
            self.cap() + 1 - self.head_idx()
        }
    }

    /// Length of the second readable segment: the live slots from the start
    /// of the storage up to `tail`, when the occupied region wraps.
    pub open spec fn occ_right_len(&self) -> int {
        if self.tail_idx() >= self.head_idx() {
            0
        } else {
            self.tail_idx()
        }
    }

    /// Region accounting: the two writable segments together cover exactly
    /// the free room, and the two readable segments exactly the live
    /// elements.
    pub proof fn lemma_regions(&self)
        requires
            self.wf(),
        ensures
            self.free_left_len() >= 0,
            self.free_right_len() >= 0,
            self.free_left_len() + self.free_right_len() == self.cap() - self@.len(),
            self.occ_left_len() >= 0,
            self.occ_right_len() >= 0,
            self.occ_left_len() + self.occ_right_len() == self@.len(),
    {
        self.lemma_occupancy();
    }

    /// The writable region as segment lengths, first segment first.
    fn free_region_lens(&self) -> (r: (usize, usize))
        requires
            self.wf(),
        ensures
            r.0 == self.free_left_len(),
            r.1 == self.free_right_len(),
    {
        let slots = self.storage.len();
        if self.tail >= self.head {
            if self.head > 0 {
                (slots - self.tail, self.head - 1)
            } else {
                (slots - 1 - self.tail, 0)
            }
        } else {
            (self.head - 1 - self.tail, 0)
        }
    }

    /// The readable region as segment lengths, first segment first.
    fn occ_region_lens(&self) -> (r: (usize, usize))
        requires
            self.wf(),
        ensures
            r.0 == self.occ_left_len(),
            r.1 == self.occ_right_len(),
    {
        let slots = self.storage.len();
        if self.tail >= self.head {
            (self.tail - self.head, 0)
        } else {
            (slots - self.head, self.tail)
        }
    }

    /// Bulk write. Computes the writable region, hands its two segment
    /// lengths to `f`, and commits `f`'s reported count only after checking
    /// it against the region and against the values `f` handed back.
    ///
    /// On success `tail` advances by the reported count and the first
    /// `count` returned values become the newest elements. When the region is
    /// empty the call fails with `Full` before `f` runs; when the count is
    /// larger than the region, or claims values that were never handed back,
    /// the call fails with `BadLen` and no cursor moves.
    pub fn push_access<R, E, F>(&mut self, f: F) -> (r: Result<
        Result<(usize, R), E>,
        PushAccessError,
    >) where F: FnOnce(usize, usize) -> Result<(usize, Vec<T>, R), E>
        requires
            old(self).wf(),
            forall|i: usize, j: usize|
                i == old(self).free_left_len() && j == old(self).free_right_len()
                    ==> call_requires(f, (i, j)),
        ensures
            final(self).wf(),
            final(self).cap() == old(self).cap(),
            (r matches Err(PushAccessError::Full)) <==> old(self)@.len() == old(self).cap(),
            (match r {
                Err(PushAccessError::Full) => *final(self) == *old(self),
                Err(PushAccessError::BadLen) => *final(self) == *old(self) && (exists|
                    n: usize,
                    vals: Vec<T>,
                    x: R,
                |
                    call_ensures(
                        f,
                        (
                            old(self).free_left_len() as usize,
                            old(self).free_right_len() as usize,
                        ),
                        Ok((n, vals, x)),
                    ) && (n > old(self).free_left_len() + old(self).free_right_len() || n
                        > vals@.len())),
                Ok(Err(e)) => *final(self) == *old(self) && call_ensures(
                    f,
                    (old(self).free_left_len() as usize, old(self).free_right_len() as usize),
                    Err(e),
                ),
                Ok(Ok((n, x))) => {
                    &&& n <= old(self).free_left_len() + old(self).free_right_len()
                    &&& final(self).head_idx() == old(self).head_idx()
                    &&& exists|vals: Vec<T>|
                        call_ensures(
                            f,
                            (
                                old(self).free_left_len() as usize,
                                old(self).free_right_len() as usize,
                            ),
                            Ok((n, vals, x)),
                        ) && n <= vals@.len() && final(self)@ == old(self)@ + vals@.take(n as int)
                },
            }),
    {
        proof {
            self.lemma_regions();
        }
        if self.is_full() {
            return Err(PushAccessError::Full);
        }
        let lens = self.free_region_lens();
        let left_len = lens.0;
        let right_len = lens.1;
        let slots = self.storage.len();
        proof {
            assert(left_len + right_len <= slots);
        }
        match f(left_len, right_len) {
            Err(e) => Ok(Err(e)),
            Ok((n, vals, x)) => {
                if n > left_len + right_len {
                    return Err(PushAccessError::BadLen);
                }
                if n > vals.len() {
                    return Err(PushAccessError::BadLen);
                }
                let ghost vals_full = vals;
                let mut vals = vals;
                let mut i: usize = 0;
                while i < n
                    invariant
                        self.wf(),
                        self.cap() == old(self).cap(),
                        self.head_idx() == old(self).head_idx(),
                        i <= n,
                        n <= vals_full@.len(),
                        vals@ == vals_full@.skip(i as int),
                        self@ == old(self)@ + vals_full@.take(i as int),
                        n <= old(self).cap() - old(self)@.len(),
                    decreases n - i,
                {
                    let v = vals.remove(0);
                    self.push_unchecked(v);
                    i = i + 1;
                    proof {
                        assert(vals@ =~= vals_full@.skip(i as int));
                        assert(self@ =~= old(self)@ + vals_full@.take(i as int));
                    }
                }
                proof {
                    assert(call_ensures(
                        f,
                        (left_len, right_len),
                        Ok::<(usize, Vec<T>, R), E>((n, vals_full, x)),
                    ));
                }
                Ok(Ok((n, x)))
            },
        }
    }

    /// Bulk read. Copies the readable region out as two segments, oldest
    /// first, hands them to `f`, and commits `f`'s reported count only after
    /// checking it against the region.
    ///
    /// On success `head` advances by the reported count, consuming that many
    /// of the oldest elements. When the region is empty the call fails with
    /// `Empty` before `f` runs; when the count is larger than the region the
    /// call fails with `BadLen` and no cursor moves.
    pub fn pop_access<R, E, F>(&mut self, f: F) -> (r: Result<
        Result<(usize, R), E>,
        PopAccessError,
    >) where T: Copy, F: FnOnce(Vec<T>, Vec<T>) -> Result<(usize, R), E>
        requires
            old(self).wf(),
            forall|lv: Vec<T>, rv: Vec<T>|
                lv@ == old(self)@.take(old(self).occ_left_len()) && rv@ == old(self)@.skip(
                    old(self).occ_left_len(),
                ) ==> call_requires(f, (lv, rv)),
        ensures
            final(self).wf(),
            final(self).cap() == old(self).cap(),
            (r matches Err(PopAccessError::Empty)) <==> old(self)@.len() == 0,
            (match r {
                Err(PopAccessError::Empty) => *final(self) == *old(self),
                Err(PopAccessError::BadLen) => *final(self) == *old(self) && (exists|
                    lv: Vec<T>,
                    rv: Vec<T>,
                    n: usize,
                    x: R,
                |
                    lv@ == old(self)@.take(old(self).occ_left_len()) && rv@ == old(self)@.skip(
                        old(self).occ_left_len(),
                    ) && call_ensures(f, (lv, rv), Ok((n, x))) && n > old(self)@.len()),
                Ok(Err(e)) => *final(self) == *old(self) && (exists|lv: Vec<T>, rv: Vec<T>|
                    lv@ == old(self)@.take(old(self).occ_left_len()) && rv@ == old(self)@.skip(
                        old(self).occ_left_len(),
                    ) && call_ensures(f, (lv, rv), Err(e))),
                Ok(Ok((n, x))) => {
                    &&& n <= old(self)@.len()
                    &&& final(self)@ == old(self)@.skip(n as int)
                    &&& final(self).tail_idx() == old(self).tail_idx()
                    &&& exists|lv: Vec<T>, rv: Vec<T>|
                        lv@ == old(self)@.take(old(self).occ_left_len()) && rv@ == old(self)@.skip(
                            old(self).occ_left_len(),
                        ) && call_ensures(f, (lv, rv), Ok((n, x)))
                },
            }),
    {
        proof {
            self.lemma_regions();
        }
        if self.is_empty() {
            return Err(PopAccessError::Empty);
        }
        let lens = self.occ_region_lens();
        let left_len = lens.0;
        let right_len = lens.1;
        let slots = self.storage.len();
        proof {
            assert(left_len + right_len <= slots);
            assert(self.head_idx() + self.occ_left_len() <= self.slots());
        }
        let mut left: Vec<T> = Vec::new();
        let mut i: usize = 0;
        while i < left_len
            invariant
                self.wf(),
                self.slots() <= usize::MAX,
                left_len == self.occ_left_len(),
                self.occ_left_len() + self.occ_right_len() == self@.len(),
                i <= left_len,
                left@.len() == i,
                forall|k: int| 0 <= k < i ==> left@[k] == self@[k],
            decreases left_len - i,
        {
            proof {
                assert(self.head_idx() + self.occ_left_len() <= self.slots());
                assert(self.slot_at(i as int) == self.head_idx() + i);
            }
            let idx = self.head + i;
            let o = self.storage[idx];
            left.push(o.unwrap());
            i = i + 1;
        }
        let mut right: Vec<T> = Vec::new();
        let mut j: usize = 0;
        while j < right_len
            invariant
                self.wf(),
                left_len == self.occ_left_len(),
                right_len == self.occ_right_len(),
                self.occ_left_len() + self.occ_right_len() == self@.len(),
                j <= right_len,
                right@.len() == j,
                forall|k: int| 0 <= k < j ==> right@[k] == self@[left_len + k],
            decreases right_len - j,
        {
            proof {
                assert(self.slot_at(left_len + j) == j);
            }
            let o = self.storage[j];
            right.push(o.unwrap());
            j = j + 1;
        }
        proof {
            assert(left@ =~= self@.take(left_len as int));
            assert(right@ =~= self@.skip(left_len as int));
        }
        let ghost left_full = left;
        let ghost right_full = right;
        match f(left, right) {
            Err(e) => Ok(Err(e)),
            Ok((n, x)) => {
                if n > left_len + right_len {
                    return Err(PopAccessError::BadLen);
                }
                let mut i: usize = 0;
                while i < n
                    invariant
                        self.wf(),
                        self.cap() == old(self).cap(),
                        self.tail_idx() == old(self).tail_idx(),
                        i <= n,
                        n <= old(self)@.len(),
                        self@ == old(self)@.skip(i as int),
                    decreases n - i,
                {
                    let _ = self.pop_unchecked();
                    i = i + 1;
                    proof {
                        assert(self@ =~= old(self)@.skip(i as int));
                    }
                }
                Ok(Ok((n, x)))
            },
        }
    }

    /// Copies as many leading elements of `elems` as fit into the free
    /// region and commits that count; an `elems` longer than the room is cut,
    /// never an error. Fails with `Full` exactly when the buffer is full.
    pub fn push_many(&mut self, elems: &[T]) -> (r: Result<usize, PushError>) where T: Copy
        requires
            old(self).wf(),
        ensures
            final(self).wf(),
            final(self).cap() == old(self).cap(),
            (r is Err) <==> old(self)@.len() == old(self).cap(),
            old(self)@.len() == old(self).cap() ==> r == Err::<usize, PushError>(PushError::Full)
                && *final(self) == *old(self),
            (match r {
                Ok(n) => {
                    &&& n == if elems@.len() as int <= old(self).cap() - old(self)@.len() {
                        elems@.len() as int
                    } else {
                        old(self).cap() - old(self)@.len()
                    }
                    &&& final(self)@ == old(self)@ + elems@.take(n as int)
                    &&& final(self).head_idx() == old(self).head_idx()
                },
                Err(e) => e == PushError::Full,
            }),
    {
        proof {
            self.lemma_regions();
        }
        if self.is_full() {
            return Err(PushError::Full);
        }
        let lens = self.free_region_lens();
        let slots = self.storage.len();
        proof {
            assert(lens.0 + lens.1 <= slots);
        }
        let room = lens.0 + lens.1;
        let n = if elems.len() < room {
            elems.len()
        } else {
            room
        };
        let mut i: usize = 0;
        while i < n
            invariant
                self.wf(),
                self.cap() == old(self).cap(),
                self.head_idx() == old(self).head_idx(),
                i <= n,
                n <= elems@.len(),
                n <= old(self).cap() - old(self)@.len(),
                self@ == old(self)@ + elems@.take(i as int),
            decreases n - i,
        {
            let v = elems[i];
            self.push_unchecked(v);
            i = i + 1;
            proof {
                assert(self@ =~= old(self)@ + elems@.take(i as int));
            }
        }
        Ok(n)
    }

    /// Copies as many of the oldest elements as fit into `elems` and consumes
    /// them; the rest of `elems` is left untouched. Fails with `Empty`
    /// exactly when the buffer is empty.
    pub fn pop_many(&mut self, elems: &mut [T]) -> (r: Result<usize, PopError>) where T: Copy
        requires
            old(self).wf(),
        ensures
            final(self).wf(),
            final(self).cap() == old(self).cap(),
            (r is Err) <==> old(self)@.len() == 0,
            old(self)@.len() == 0 ==> r == Err::<usize, PopError>(PopError::Empty) && *final(self)
                == *old(self) && final(elems)@ == old(elems)@,
            (match r {
                Ok(n) => {
                    &&& n == if old(elems)@.len() as int <= old(self)@.len() as int {
                        old(elems)@.len() as int
                    } else {
                        old(self)@.len() as int
                    }
                    &&& final(self)@ == old(self)@.skip(n as int)
                    &&& final(elems)@ == old(self)@.take(n as int) + old(elems)@.skip(n as int)
                    &&& final(self).tail_idx() == old(self).tail_idx()
                },
                Err(e) => e == PopError::Empty,
            }),
    {
        proof {
            self.lemma_regions();
        }
        if self.is_empty() {
            return Err(PopError::Empty);
        }
        let lens = self.occ_region_lens();
        let slots = self.storage.len();
        proof {
            assert(lens.0 + lens.1 <= slots);
        }
        let occ = lens.0 + lens.1;
        let n = if elems.len() < occ {
            elems.len()
        } else {
            occ
        };
        let mut i: usize = 0;
        while i < n
            invariant
                self.wf(),
                self.cap() == old(self).cap(),
                self.tail_idx() == old(self).tail_idx(),
                i <= n,
                n <= elems@.len(),
                n <= old(self)@.len(),
                elems@.len() == old(elems)@.len(),
                self@ == old(self)@.skip(i as int),
                forall|k: int| 0 <= k < i ==> elems@[k] == old(self)@[k],
                forall|k: int| i <= k < elems@.len() ==> elems@[k] == old(elems)@[k],
            decreases n - i,
        {
            let v = self.pop_unchecked();
            elems[i] = v;
            i = i + 1;
            proof {
                assert(self@ =~= old(self)@.skip(i as int));
            }
        }
        proof {
            assert(elems@ =~= old(self)@.take(n as int) + old(elems)@.skip(n as int));
        }
        Ok(n)
    }

    /// Destruction accounting: a slot holds a live element exactly when it
    /// lies in the occupied circular range `[head, tail)`. A teardown that
    /// releases the occupied range therefore releases every live element
    /// exactly once and never touches a consumed or never-written slot.
    pub proof fn lemma_live_slots(&self, i: int)
        requires
            self.wf(),
            0 <= i < self.cap() + 1,
        ensures
            self.slot_is_live(i) <==> self.in_occupied_region(i),
    {
        let k = if i >= self.head_idx() {
            i - self.head_idx()
        } else {
            i + self.slots() - self.head_idx()
        };
        assert(self.slot_at(k) == i);
    }

}

/// The contents a buffer holds after pushing each value of `xs`, in order,
/// onto contents `v`; each step is the transition that `push` commits to.
pub open spec fn pushed_all<T>(v: Seq<T>, xs: Seq<T>) -> Seq<T>
    decreases xs.len(),
{
    if xs.len() == 0 {
        v
    } else {
        pushed_all(v.push(xs[0]), xs.skip(1))
    }
}

/// The values handed out, in order, by popping a buffer with contents `v`
/// until it is empty; each step is the transition that `pop` commits to.
pub open spec fn drained_all<T>(v: Seq<T>) -> Seq<T>
    decreases v.len(),
{
    if v.len() == 0 {
        Seq::empty()
    } else {
        seq![v[0]] + drained_all(v.skip(1))
    }
}

/// Pushing appends: after pushing the values `xs` in order, the contents are
/// the old contents followed by `xs`.
pub proof fn lemma_pushed_all<T>(v: Seq<T>, xs: Seq<T>)
    ensures
        pushed_all(v, xs) == v + xs,
    decreases xs.len(),
{
    if xs.len() == 0 {
        assert(v + xs =~= v);
    } else {
        lemma_pushed_all(v.push(xs[0]), xs.skip(1));
        assert(v.push(xs[0]) + xs.skip(1) =~= v + xs);
    }
}

/// Draining reads the contents front to back.
pub proof fn lemma_drained_all<T>(v: Seq<T>)
    ensures
        drained_all(v) == v,
    decreases v.len(),
{
    if v.len() == 0 {
        assert(drained_all(v) =~= v);
    } else {
        lemma_drained_all(v.skip(1));
        assert(seq![v[0]] + v.skip(1) =~= v);
    }
}

/// First-in first-out: pushing the values `xs` onto a buffer already holding
/// `v` and then popping until empty yields exactly `v` followed by `xs`, in
/// push order.
pub proof fn lemma_fifo_order<T>(v: Seq<T>, xs: Seq<T>)
    ensures
        drained_all(pushed_all(v, xs)) == v + xs,
{
    lemma_pushed_all(v, xs);
    lemma_drained_all(v + xs);
}

} // verus!
