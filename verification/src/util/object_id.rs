//! Unique object ids.
use vstd::prelude::*;

verus! {

/// The largest id that a new object may get, so that the overflow of the counter is noticed
/// even when many ids are taken at once.
pub const MAX_OBJECT_ID: u64 = 0x7fff_ffff_ffff_ffff;

/// A unique ID.
#[derive(Clone, Copy, Debug, PartialEq, Eq, Structural, Hash)]
pub struct ObjectId(u64);

impl ObjectId {
    /// The id as a number.
    pub closed spec fn value(&self) -> u64 {
        self.0
    }

    /// The id `id`, taken from the counter of ids, which starts at one; `None` for 0, which no
    /// count gives and which is the null id, and once the counter has passed half of its range.
    pub fn new_with(id: u64) -> (r: Option<Self>)
        ensures
            1 <= id <= MAX_OBJECT_ID ==> (r matches Some(o) && o.value() == id),
            id == 0 || id > MAX_OBJECT_ID ==> r is None,
    {
        if 1 <= id && id <= MAX_OBJECT_ID {
            Some(ObjectId(id))
        } else {
            None
        }
    }

    /// The special "null" id; no id made by `new_with` from the counter equals it.
    pub fn null() -> (r: Self)
        ensures
            r.value() == 0,
    {
        ObjectId(0)
    }

    /// The id as `u64`.
    pub fn get(&self) -> (r: u64)
        ensures
            r == self.value(),
    {
        self.0
    }
}

/// Two ids are the same exactly when their numbers are; so no id that `new_with` makes is the
/// null id, whose number is 0.
pub proof fn law_ids_equal_by_value(a: ObjectId, b: ObjectId)
    ensures
        (a == b) <==> (a.value() == b.value()),
{
}

} // verus!
