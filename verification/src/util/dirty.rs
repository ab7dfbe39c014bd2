//! Dirty is a wrapper type that remembers whether the internal object has been
//! borrowed mutably.
use vstd::prelude::*;

verus! {

/// A value with a flag that records whether it was handed out for change.
#[derive(Debug, Copy)]
pub struct Dirty<T> {
    inner: T,
    dirty: bool,
}

impl<T: Clone> Clone for Dirty<T> {
    /// A copy with the same flag, its value a clone of this one's.
    fn clone(&self) -> (r: Self)
        ensures
            r.is_dirty() == self.is_dirty(),
            cloned::<T>(self.value(), r.value()),
    {
        Dirty { inner: self.inner.clone(), dirty: self.dirty }
    }
}

impl<T> Dirty<T> {
    pub closed spec fn value(&self) -> T {
        self.inner
    }

    pub closed spec fn is_dirty(&self) -> bool {
        self.dirty
    }

    /// Wrap `inner`, not dirty.
    pub fn new(inner: T) -> (r: Self)
        ensures
            r.value() == inner,
            !r.is_dirty(),
    {
        let dirty = false;
        Self { inner, dirty }
    }

    pub fn dirty(&self) -> (r: bool)
        ensures
            r == self.is_dirty(),
    {
        self.dirty
    }

    pub fn clear_dirty(&mut self)
        ensures
            final(self).value() == old(self).value(),
            !final(self).is_dirty(),
    {
        self.dirty = false;
    }

    pub fn set_dirty(&mut self)
        ensures
            final(self).value() == old(self).value(),
            final(self).is_dirty(),
    {
        self.dirty = true;
    }

    /// The wrapped value.
    pub fn unwrap(self) -> (r: T)
        ensures
            r == self.value(),
    {
        self.inner
    }

    /// Read the wrapped value; the flag stays as it is.
    pub fn as_ref(&self) -> (r: &T)
        ensures
            *r == self.value(),
    {
        &self.inner
    }

    /// Hand out the wrapped value for change, which marks it dirty.
    pub fn as_mut(&mut self) -> (r: &mut T)
        ensures
            *r == old(self).value(),
            final(self).is_dirty(),
            final(self).value() == *final(r),
    {
        self.dirty = true;
        &mut self.inner
    }
}

/// The calls that can be made on a `Dirty` value.
pub enum DirtyCall {
    AsRef,
    AsMut,
    SetDirty,
    ClearDirty,
    Clone,
}

/// `after` is what the call `call` may leave of `before`, as the call's contract says.
pub open spec fn dirty_step<T>(before: Dirty<T>, call: DirtyCall, after: Dirty<T>) -> bool {
    match call {
        DirtyCall::AsRef => after == before,
        DirtyCall::AsMut => after.is_dirty(),
        DirtyCall::SetDirty => after.is_dirty() && after.value() == before.value(),
        DirtyCall::ClearDirty => !after.is_dirty() && after.value() == before.value(),
        DirtyCall::Clone => after.is_dirty() == before.is_dirty(),
    }
}

/// The call hands the value out for change or marks it.
pub open spec fn marks(call: DirtyCall) -> bool {
    call is AsMut || call is SetDirty
}

/// The call clears the flag.
pub open spec fn clears(call: DirtyCall) -> bool {
    call is ClearDirty
}

/// Some call of `calls` handed the value out for change or marked it, and no later call
/// cleared the flag.
pub open spec fn marked_since_clear(calls: Seq<DirtyCall>) -> bool {
    exists|i: int| 0 <= i < calls.len() && #[trigger] marks(calls[i])
        && forall|j: int| i < j < calls.len() ==> !#[trigger] clears(calls[j])
}

proof fn lemma_marked_push(pc: Seq<DirtyCall>, c: DirtyCall)
    ensures
        marked_since_clear(pc.push(c)) == (if marks(c) { true } else if clears(c) { false } else { marked_since_clear(pc) }),
{
    let calls = pc.push(c);
    let n = pc.len() as int;
    assert(calls[n] == c);
    if marks(c) {
        assert(marks(calls[n]));
    } else if clears(c) {
        if marked_since_clear(calls) {
            let i = choose|i: int| 0 <= i < calls.len() && #[trigger] marks(calls[i])
                && forall|j: int| i < j < calls.len() ==> !#[trigger] clears(calls[j]);
            assert(i != n);
            assert(clears(calls[n]));
        }
    } else {
        if marked_since_clear(calls) {
            let i = choose|i: int| 0 <= i < calls.len() && #[trigger] marks(calls[i])
                && forall|j: int| i < j < calls.len() ==> !#[trigger] clears(calls[j]);
            assert(i < n);
            assert(pc[i] == calls[i]);
            assert forall|j: int| i < j < pc.len() implies !#[trigger] clears(pc[j]) by {
                assert(pc[j] == calls[j]);
            }
        }
        if marked_since_clear(pc) {
            let i = choose|i: int| 0 <= i < pc.len() && #[trigger] marks(pc[i])
                && forall|j: int| i < j < pc.len() ==> !#[trigger] clears(pc[j]);
            assert(pc[i] == calls[i]);
            assert forall|j: int| i < j < calls.len() implies !#[trigger] clears(calls[j]) by {
                if j < n {
                    assert(pc[j] == calls[j]);
                }
            }
        }
    }
}

/// A value wrapped by `new` and then given the calls `calls` in turn, each on the value that
/// the call before left or cloned, is dirty exactly when one of them handed it out for change
/// or marked it and none after that cleared the flag; reading or cloning it never changes the
/// flag.
pub proof fn law_dirty_tracks_changes<T>(states: Seq<Dirty<T>>, calls: Seq<DirtyCall>)
    requires
        states.len() == calls.len() + 1,
        !states[0].is_dirty(),
        forall|i: int| 0 <= i < calls.len() ==> dirty_step(states[i], #[trigger] calls[i], states[i + 1]),
    ensures
        states.last().is_dirty() == marked_since_clear(calls),
    decreases calls.len(),
{
    let n = calls.len() as int;
    if n == 0 {
        return;
    }
    let ps = states.drop_last();
    let pc = calls.drop_last();
    assert forall|i: int| 0 <= i < pc.len() implies dirty_step(ps[i], #[trigger] pc[i], ps[i + 1]) by {
        assert(pc[i] == calls[i] && ps[i] == states[i] && ps[i + 1] == states[i + 1]);
        assert(dirty_step(states[i], calls[i], states[i + 1]));
    }
    law_dirty_tracks_changes(ps, pc);
    assert(ps.last() == states[n - 1]);
    assert(dirty_step(states[n - 1], calls[n - 1], states[n]));
    assert(calls =~= pc.push(calls[n - 1]));
    lemma_marked_push(pc, calls[n - 1]);
}

} // verus!
