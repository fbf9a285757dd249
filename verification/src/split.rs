//! Split ownership: one producer handle and one consumer handle over a shared
//! ring buffer.
//!
//! [`RingBuffer::split`] wraps the buffer in shared, reference-counted state;
//! the two handles then operate independently and may move to different
//! threads. Exactly one producer value and one consumer value exist, which is
//! what keeps the two ends' writes apart. The buffer is torn down by the last
//! handle to go away, releasing exactly the elements still in the occupied
//! region.

use std::sync::Arc;
use vstd::prelude::*;
use vstd::rwlock::RwLock;
use vstd::rwlock::RwLockPredicate;

verus! {

use crate::PopAccessError;
use crate::PopError;
use crate::PushAccessError;
use crate::PushError;
use crate::ring::RingBuffer;
use vstd::pervasive::unreached;

/// The invariant every handle holds the shared buffer to: it stays
/// well-formed and keeps the capacity it was split with.
struct RingPred {
    cap: usize,
}

impl<T> RwLockPredicate<RingBuffer<T>> for RingPred {
    closed spec fn inv(self, v: RingBuffer<T>) -> bool {
        v.wf() && v.cap() == self.cap as int
    }
}

/// Relies on `alloc::sync::Arc::clone`: the returned handle refers to the
/// same shared allocation as `a`, so the two split handles coordinate
/// through one buffer.
#[verifier::external_body]
fn arc_clone<T>(a: &Arc<T>) -> (r: Arc<T>)
    ensures
        r == *a,
{
    Arc::clone(a)
}

/// Teardown of one handle's reference. Relies on `alloc::sync::Arc::into_inner`:
/// it returns the shared lock only to the caller that drops the last
/// reference; that caller then moves the buffer out of the lock
/// (`vstd::rwlock::RwLock::into_inner`) and drops it, releasing exactly the
/// elements the occupied region still holds. Any earlier caller only gives
/// its reference up. Neither call unwinds.
#[verifier::external_body]
fn drop_shared<T>(rb: &mut Option<Arc<RwLock<RingBuffer<T>, RingPred>>>)
    ensures
        *final(rb) is None,
    opens_invariants none
    no_unwind
{
    if let Some(arc) = rb.take() {
        if let Some(lock) = Arc::into_inner(arc) {
            let _ = lock.into_inner();
        }
    }
}

/// The writing end of a split ring buffer: the sole advancer of `tail`.
pub struct Producer<T> {
    rb: Option<Arc<RwLock<RingBuffer<T>, RingPred>>>,
}

/// The reading end of a split ring buffer: the sole advancer of `head`.
pub struct Consumer<T> {
    rb: Option<Arc<RwLock<RingBuffer<T>, RingPred>>>,
}

impl<T> RingBuffer<T> {
    /// Consumes the buffer and returns its two ends as independent handles
    /// that share one buffer of the same capacity.
    pub fn split(self) -> (r: (Producer<T>, Consumer<T>))
        requires
            self.wf(),
        ensures
            r.0.wf(),
            r.1.wf(),
            r.0.cap() == self.cap(),
            r.1.cap() == self.cap(),
    {
        let cap = self.capacity();
        let lock = RwLock::<RingBuffer<T>, RingPred>::new(self, Ghost(RingPred { cap }));
        let arc = Arc::new(lock);
        let arc2 = arc_clone(&arc);
        (Producer { rb: Some(arc2) }, Consumer { rb: Some(arc) })
    }
}

impl<T> Producer<T> {
    /// A handle is usable until it is dropped: it still holds its reference
    /// to the shared buffer.
    pub closed spec fn wf(&self) -> bool {
        self.rb is Some
    }

    /// The capacity of the shared buffer, fixed at the split.
    pub closed spec fn cap(&self) -> int {
        self.rb.unwrap().pred().cap as int
    }

    /// The shared lock this handle holds.
    fn lock(&self) -> (r: &Arc<RwLock<RingBuffer<T>, RingPred>>)
        requires
            self.wf(),
        ensures
            forall|v: RingBuffer<T>| r.inv(v) <==> (v.wf() && v.cap() == self.cap()),
    {
        match &self.rb {
            Some(a) => a,
            None => unreached(),
        }
    }

    /// Returns the capacity of the shared buffer.
    pub fn capacity(&self) -> (r: usize)
        requires
            self.wf(),
        ensures
            r == self.cap(),
    {
        let lock = self.lock();
        let read = lock.acquire_read();
        let c = read.borrow().capacity();
        read.release_read();
        c
    }

    /// A point-in-time observation from a fresh snapshot of both cursors:
    /// true exactly when that snapshot held `capacity` elements. It may be
    /// stale the instant it returns if the consumer pops meanwhile; it cannot
    /// turn stale toward "more full", since only this handle advances `tail`.
    pub fn is_full(&self) -> (r: bool)
        requires
            self.wf(),
        ensures
            exists|s: RingBuffer<T>|
                s.wf() && s.cap() == self.cap() && r == (s@.len() == s.cap()),
    {
        let lock = self.lock();
        let read = lock.acquire_read();
        let r = read.borrow().is_full();
        read.release_read();
        r
    }

    /// A snapshot of the cursor pair, head first.
    pub fn head_tail(&self) -> (r: (usize, usize))
        requires
            self.wf(),
        ensures
            exists|s: RingBuffer<T>|
                s.wf() && s.cap() == self.cap() && r.0 == s.head_idx() && r.1 == s.tail_idx(),
    {
        let lock = self.lock();
        let read = lock.acquire_read();
        let r = read.borrow().head_tail();
        read.release_read();
        r
    }

    /// Moves `elem` into the shared buffer, or hands it back unchanged inside
    /// the error when the buffer is full at this moment.
    pub fn push(&mut self, elem: T) -> (r: Result<(), (PushError, T)>)
        requires
            old(self).wf(),
        ensures
            final(self).wf(),
            final(self).cap() == old(self).cap(),
            r matches Err(e) ==> e.0 == PushError::Full && e.1 == elem,
    {
        let lock = self.lock();
        let (mut state, wh) = lock.acquire_write();
        let res = state.push(elem);
        wh.release_write(state);
        res
    }

    /// Copies as many leading elements of `elems` as fit into the free region
    /// at this moment and returns the count; fails with `Full` only when the
    /// buffer was full at the snapshot.
    pub fn push_many(&mut self, elems: &[T]) -> (r: Result<usize, PushError>) where T: Copy
        requires
            old(self).wf(),
        ensures
            final(self).wf(),
            final(self).cap() == old(self).cap(),
            r matches Ok(n) ==> n <= elems@.len() && n <= old(self).cap(),
    {
        let lock = self.lock();
        let (mut state, wh) = lock.acquire_write();
        proof {
            state.lemma_occupancy();
        }
        let res = state.push_many(elems);
        wh.release_write(state);
        res
    }

    /// Bulk write against a fresh snapshot: `f` receives the two free-segment
    /// lengths and hands back a reported count, the values written, and its
    /// own result; the count is validated against the offered region and the
    /// values before `tail` moves.
    pub fn push_access<R, E, F>(&mut self, f: F) -> (r: Result<
        Result<(usize, R), E>,
        PushAccessError,
    >) where F: FnOnce(usize, usize) -> Result<(usize, Vec<T>, R), E>
        requires
            old(self).wf(),
            forall|args: (usize, usize)| call_requires(f, args),
        ensures
            final(self).wf(),
            final(self).cap() == old(self).cap(),
            (match r {
                Ok(Ok((n, x))) => exists|i: usize, j: usize, vals: Vec<T>|
                    call_ensures(f, (i, j), Ok((n, vals, x))) && n <= i + j && n <= vals@.len(),
                Ok(Err(e)) => exists|i: usize, j: usize| call_ensures(f, (i, j), Err(e)),
                Err(PushAccessError::BadLen) => exists|
                    i: usize,
                    j: usize,
                    n: usize,
                    vals: Vec<T>,
                    x: R,
                | call_ensures(f, (i, j), Ok((n, vals, x))) && (n > i + j || n > vals@.len()),
                Err(PushAccessError::Full) => true,
            }),
    {
        let lock = self.lock();
        let (mut state, wh) = lock.acquire_write();
        let ghost s0 = state;
        let res = state.push_access(f);
        proof {
            s0.lemma_regions();
            if let Ok(Ok((n, x))) = &res {
                let i = s0.free_left_len() as usize;
                let j = s0.free_right_len() as usize;
                let vals = choose|vals: Vec<T>|
                    call_ensures(f, (i, j), Ok::<(usize, Vec<T>, R), E>((*n, vals, *x))) && *n
                        <= vals@.len() && state@ == s0@ + vals@.take(*n as int);
                assert(call_ensures(f, (i, j), Ok::<(usize, Vec<T>, R), E>((*n, vals, *x))) && *n
                    <= i + j && *n <= vals@.len());
            }
        }
        wh.release_write(state);
        res
    }
}

impl<T> Consumer<T> {
    /// A handle is usable until it is dropped: it still holds its reference
    /// to the shared buffer.
    pub closed spec fn wf(&self) -> bool {
        self.rb is Some
    }

    /// The capacity of the shared buffer, fixed at the split.
    pub closed spec fn cap(&self) -> int {
        self.rb.unwrap().pred().cap as int
    }

    /// The shared lock this handle holds.
    fn lock(&self) -> (r: &Arc<RwLock<RingBuffer<T>, RingPred>>)
        requires
            self.wf(),
        ensures
            forall|v: RingBuffer<T>| r.inv(v) <==> (v.wf() && v.cap() == self.cap()),
    {
        match &self.rb {
            Some(a) => a,
            None => unreached(),
        }
    }

    /// Returns the capacity of the shared buffer.
    pub fn capacity(&self) -> (r: usize)
        requires
            self.wf(),
        ensures
            r == self.cap(),
    {
        let lock = self.lock();
        let read = lock.acquire_read();
        let c = read.borrow().capacity();
        read.release_read();
        c
    }

    /// A point-in-time observation from a fresh snapshot of both cursors:
    /// true exactly when that snapshot held no element. It may be stale the
    /// instant it returns if the producer pushes meanwhile; it cannot turn
    /// stale toward "more empty", since only this handle advances `head`.
    pub fn is_empty(&self) -> (r: bool)
        requires
            self.wf(),
        ensures
            exists|s: RingBuffer<T>| s.wf() && s.cap() == self.cap() && r == (s@.len() == 0),
    {
        let lock = self.lock();
        let read = lock.acquire_read();
        let r = read.borrow().is_empty();
        read.release_read();
        r
    }

    /// A snapshot of the cursor pair, head first.
    pub fn head_tail(&self) -> (r: (usize, usize))
        requires
            self.wf(),
        ensures
            exists|s: RingBuffer<T>|
                s.wf() && s.cap() == self.cap() && r.0 == s.head_idx() && r.1 == s.tail_idx(),
    {
        let lock = self.lock();
        let read = lock.acquire_read();
        let r = read.borrow().head_tail();
        read.release_read();
        r
    }

    /// Moves the oldest element out of the shared buffer, or reports that it
    /// was empty at this moment.
    pub fn pop(&mut self) -> (r: Result<T, PopError>)
        requires
            old(self).wf(),
        ensures
            final(self).wf(),
            final(self).cap() == old(self).cap(),
            r matches Err(e) ==> e == PopError::Empty,
    {
        let lock = self.lock();
        let (mut state, wh) = lock.acquire_write();
        let res = state.pop();
        wh.release_write(state);
        res
    }

    /// Copies as many of the oldest elements as fit into `elems`, consuming
    /// them; the rest of `elems` stays untouched. Fails with `Empty` only
    /// when the buffer was empty at the snapshot.
    pub fn pop_many(&mut self, elems: &mut [T]) -> (r: Result<usize, PopError>) where T: Copy
        requires
            old(self).wf(),
        ensures
            final(self).wf(),
            final(self).cap() == old(self).cap(),
            final(elems)@.len() == old(elems)@.len(),
            (match r {
                Ok(n) => n <= old(elems)@.len() && (forall|k: int|
                    n <= k < old(elems)@.len() ==> final(elems)@[k] == old(elems)@[k]),
                Err(e) => e == PopError::Empty && final(elems)@ == old(elems)@,
            }),
    {
        let lock = self.lock();
        let (mut state, wh) = lock.acquire_write();
        proof {
            state.lemma_occupancy();
        }
        let res = state.pop_many(elems);
        wh.release_write(state);
        res
    }

    /// Bulk read against a fresh snapshot: `f` receives the occupied region
    /// copied out as two segments, oldest first, and hands back a consume
    /// count and its own result; the count is validated against the offered
    /// region before `head` moves.
    pub fn pop_access<R, E, F>(&mut self, f: F) -> (r: Result<
        Result<(usize, R), E>,
        PopAccessError,
    >) where T: Copy, F: FnOnce(Vec<T>, Vec<T>) -> Result<(usize, R), E>
        requires
            old(self).wf(),
            forall|args: (Vec<T>, Vec<T>)| call_requires(f, args),
        ensures
            final(self).wf(),
            final(self).cap() == old(self).cap(),
            (match r {
                Ok(Ok((n, x))) => exists|lv: Vec<T>, rv: Vec<T>|
                    call_ensures(f, (lv, rv), Ok((n, x))) && n <= lv@.len() + rv@.len(),
                Ok(Err(e)) => exists|lv: Vec<T>, rv: Vec<T>| call_ensures(f, (lv, rv), Err(e)),
                Err(PopAccessError::BadLen) => exists|lv: Vec<T>, rv: Vec<T>, n: usize, x: R|
                    call_ensures(f, (lv, rv), Ok((n, x))) && n > lv@.len() + rv@.len(),
                Err(PopAccessError::Empty) => true,
            }),
    {
        let lock = self.lock();
        let (mut state, wh) = lock.acquire_write();
        let ghost s0 = state;
        let res = state.pop_access(f);
        proof {
            s0.lemma_regions();
            if let Ok(Ok((n, x))) = &res {
                let (lv, rv) = choose|lv: Vec<T>, rv: Vec<T>|
                    lv@ == s0@.take(s0.occ_left_len()) && rv@ == s0@.skip(s0.occ_left_len())
                        && call_ensures(f, (lv, rv), Ok::<(usize, R), E>((*n, *x)));
                assert(lv@.len() + rv@.len() == s0@.len());
                assert(call_ensures(f, (lv, rv), Ok::<(usize, R), E>((*n, *x))) && *n <= lv@.len()
                    + rv@.len());
            }
        }
        wh.release_write(state);
        res
    }
}

impl<T> Drop for Producer<T> {
    /// Releases this handle's reference; the last of the two handles tears
    /// the shared buffer down.
    fn drop(&mut self)
        opens_invariants none
        no_unwind
    {
        drop_shared(&mut self.rb);
    }
}

impl<T> Drop for Consumer<T> {
    /// Releases this handle's reference; the last of the two handles tears
    /// the shared buffer down.
    fn drop(&mut self)
        opens_invariants none
        no_unwind
    {
        drop_shared(&mut self.rb);
    }
}

} // verus!
