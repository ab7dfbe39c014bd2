//! The lock words of a readers-writer lock and of a mutex: how each operation changes them,
//! and the lock operations that apply those changes atomically.
//!
//! The readers-writer lock word: the highest bit holds the "last minute" waiter flag; the other
//! bits hold 0 when nobody holds the lock, 0x7FFF_FFFF when a writer holds it, and the number of
//! readers otherwise (at most 0x7FFF_FFFE).
use vstd::prelude::*;
use crate::errno::Errno;

verus! {

/// The lock bits of a word that a writer holds.
pub const WRITER_HELD: i32 = 0x7FFF_FFFF;
/// The largest number of readers.
pub const MAX_READERS: i32 = 0x7FFF_FFFE;

/// The lock bits of the word: the number of readers, or `WRITER_HELD`.
pub open spec fn lock_bits(val: i32) -> i32 {
    val & 0x7FFF_FFFF
}

/// Whether the waiter flag of the word is set.
pub open spec fn waiter_flag(val: i32) -> bool {
    val < 0
}

/// The word after one more reader takes the lock: refused with `EBUSY` while a writer holds it
/// and with `EAGAIN` when the readers are at their limit.
pub fn try_read_transition(val: i32) -> (r: Result<i32, Errno>)
    ensures
        lock_bits(val) == WRITER_HELD ==> r == Err::<i32, Errno>(Errno::EBUSY),
        lock_bits(val) == MAX_READERS ==> r == Err::<i32, Errno>(Errno::EAGAIN),
        lock_bits(val) < MAX_READERS ==> r == Ok::<i32, Errno>((val + 1) as i32)
            && lock_bits((val + 1) as i32) == lock_bits(val) + 1
            && waiter_flag((val + 1) as i32) == waiter_flag(val),
{
    let cnt: i32 = val & 0x7FFF_FFFF;
    assert(0 <= cnt <= 0x7FFF_FFFF) by (bit_vector)
        requires
            cnt == val & 0x7FFF_FFFF,
    ;
    if cnt == 0x7FFF_FFFF {
        return Err(Errno::EBUSY);
    }
    if cnt == 0x7FFF_FFFE {
        return Err(Errno::EAGAIN);
    }
    assert(val < 0x7FFF_FFFF && ((val + 1) as i32) & 0x7FFF_FFFF == cnt + 1 && ((val + 1 < 0) == (val < 0))) by (bit_vector)
        requires
            cnt == val & 0x7FFF_FFFF,
            cnt < 0x7FFF_FFFE,
    ;
    Ok(val + 1)
}

/// A writer takes the lock only when nobody holds it and nobody waits.
pub fn try_write_transition(val: i32) -> (r: Result<i32, Errno>)
    ensures
        val == 0 ==> r == Ok::<i32, Errno>(WRITER_HELD),
        val != 0 ==> r == Err::<i32, Errno>(Errno::EBUSY),
{
    if val == 0 {
        Ok(0x7FFF_FFFF)
    } else {
        Err(Errno::EBUSY)
    }
}

/// The word after a reader or the writer lets go of the word `val`.
pub open spec fn unlock_word(val: i32) -> i32 {
    if lock_bits(val) == 1 || lock_bits(val) == WRITER_HELD {
        0
    } else if val == i32::MIN {
        WRITER_HELD
    } else {
        (val - 1) as i32
    }
}

/// The word after a reader or the writer lets go, and how many waiters to wake, if any: the
/// last reader or the writer clears the word (flag included); any other reader counts one down.
/// Waiters are woken when the word becomes clear and someone waits or the flag was set.
pub fn unlock_transition(val: i32, waiters: i32) -> (r: (i32, Option<i32>))
    ensures
        val == i32::MIN ==> r.0 == WRITER_HELD,
        (lock_bits(val) == 1 || lock_bits(val) == WRITER_HELD) ==> r.0 == 0,
        !(lock_bits(val) == 1 || lock_bits(val) == WRITER_HELD) && val != i32::MIN ==> r.0 == (val - 1) as i32,
        !(lock_bits(val) == 1 || lock_bits(val) == WRITER_HELD) && lock_bits(val) > 1 ==>
            lock_bits(r.0) == lock_bits(val) - 1 && waiter_flag(r.0) == waiter_flag(val),
        r.0 == unlock_word(val),
        r.1 == (if r.0 == 0 && (waiters != 0 || val < 0) { Some(lock_bits(val)) } else { None::<i32> }),
{
    let cnt: i32 = val & 0x7FFF_FFFF;
    assert(val == i32::MIN ==> cnt == 0) by (bit_vector)
        requires
            cnt == val & 0x7FFF_FFFF,
    ;
    let new: i32 = if cnt == 1 || cnt == 0x7FFF_FFFF {
        0
    } else {
        if cnt > 1 {
            assert(((val - 1) as i32) & 0x7FFF_FFFF == cnt - 1 && ((val - 1 < 0) == (val < 0))) by (bit_vector)
                requires
                    cnt == val & 0x7FFF_FFFF,
                    cnt > 1,
                    cnt != 0x7FFF_FFFF,
            ;
        }
        if val == i32::MIN {
            0x7FFF_FFFF
        } else {
            val - 1
        }
    };
    assert(cnt > 1 && cnt != 0x7FFF_FFFF ==> lock_bits(new) == cnt - 1 && waiter_flag(new) == waiter_flag(val));
    let wake = if new == 0 && (waiters != 0 || val < 0) {
        Some(cnt)
    } else {
        None
    };
    (new, wake)
}


/// The word with the waiter flag set.
pub fn waiter_word(val: i32) -> (r: i32)
    ensures
        lock_bits(r) == lock_bits(val),
        waiter_flag(r),
{
    let r = (val as u32 | 0x8000_0000u32) as i32;
    assert(((val as u32 | 0x8000_0000u32) as i32) & 0x7FFF_FFFF == val & 0x7FFF_FFFF
        && ((val as u32 | 0x8000_0000u32) as i32) < 0) by (bit_vector);
    r
}

/// While a reader cannot get the lock: wait on the flagged word when a writer holds it,
/// otherwise try again at once.
pub fn read_wait_word(val: i32) -> (r: Option<i32>)
    ensures
        lock_bits(val) == WRITER_HELD ==> (r matches Some(w) && lock_bits(w) == lock_bits(val) && waiter_flag(w)),
        lock_bits(val) != WRITER_HELD ==> r is None,
{
    if (val & 0x7FFF_FFFF) != 0x7FFF_FFFF {
        return None;
    }
    Some(waiter_word(val))
}

/// While a writer cannot get the lock: wait on the flagged word when anyone holds it or
/// waits, otherwise try again at once.
pub fn write_wait_word(val: i32) -> (r: Option<i32>)
    ensures
        val != 0 ==> (r matches Some(w) && lock_bits(w) == lock_bits(val) && waiter_flag(w)),
        val == 0 ==> r is None,
{
    if val == 0 {
        return None;
    }
    Some(waiter_word(val))
}

/// Whether a waiter keeps spinning: spins are left, the lock is held, and nobody waits yet.
pub fn keep_spinning(spins: i32, val: i32, waiters: i32) -> (r: bool)
    ensures
        r == (spins != 0 && val != 0 && waiters == 0),
{
    spins != 0 && val != 0 && waiters == 0
}

/// Whether a mutex that was found in `state` before an unlock has waiters to wake.
pub fn unlock_wakes(state: u32) -> (r: bool)
    ensures
        r == (state == 2),
{
    state == 2
}

/// A reader that takes the lock and lets it go leaves the word as it found it, except that
/// the last reader also clears the waiter flag: the word is then clear.
pub proof fn law_read_unlock_restores(val: i32)
    requires
        lock_bits(val) < MAX_READERS,
    ensures
        lock_bits(val) > 0 ==> unlock_word((val + 1) as i32) == val,
        lock_bits(val) == 0 ==> unlock_word((val + 1) as i32) == 0,
{
    assert(lock_bits(val) < MAX_READERS && lock_bits(val) > 0 ==> (
        lock_bits((val + 1) as i32) == lock_bits(val) + 1 && (val + 1) as i32 != i32::MIN && val + 1 <= i32::MAX)) by (bit_vector);
    assert(lock_bits(val) == 0 ==> lock_bits((val + 1) as i32) == 1) by (bit_vector);
}

/// A writer that takes a clear lock and lets it go leaves it clear.
pub proof fn law_write_unlock_clears()
    ensures
        unlock_word(WRITER_HELD) == 0,
{
    assert(lock_bits(WRITER_HELD) == WRITER_HELD) by (bit_vector);
}

} // verus!
