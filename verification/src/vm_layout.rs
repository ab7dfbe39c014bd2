use vstd::prelude::*;
use crate::errno::Errno;
use crate::vm_range::{align_up, align_up_spec, is_pow2, lemma_page_size_pow2, usize_is_power_of_two, PAGE_SIZE};

verus! {

/// The size and alignment that a region of memory needs.
#[derive(Clone, Copy, Debug, PartialEq, Eq, Structural)]
pub struct VMLayout {
    size: usize,
    align: usize,
}

impl VMLayout {
    pub closed spec fn size(&self) -> usize {
        self.size
    }

    pub closed spec fn align(&self) -> usize {
        self.align
    }

    /// The alignment is a power of two.
    pub open spec fn wf(&self) -> bool {
        is_pow2(self.align() as nat) && self.align() > 0
    }

    /// A layout of `size` bytes; the alignment must be a power of two.
    pub fn new(size: usize, align: usize) -> (r: Result<VMLayout, Errno>)
        ensures
            r is Ok <==> is_pow2(align as nat),
            r is Err ==> r == Err::<VMLayout, Errno>(Errno::EINVAL),
            r matches Ok(l) ==> l.size() == size && l.align() == align && l.wf(),
    {
        if !usize_is_power_of_two(align) {
            return Err(Errno::EINVAL);
        }
        Ok(VMLayout { size, align })
    }

    /// The layout of no memory, aligned to a page.
    pub fn new_empty() -> (r: VMLayout)
        ensures
            r.size() == 0,
            r.align() == PAGE_SIZE,
            r.wf(),
    {
        proof {
            lemma_page_size_pow2();
        }
        VMLayout { size: 0, align: PAGE_SIZE }
    }

    /// Append `more_space` after this layout: the size grows to the next multiple of the
    /// other alignment plus the other size, and the alignment becomes the larger one.
    pub fn add(&mut self, more_space: &VMLayout) -> (r: &mut Self)
        requires
            old(self).wf(),
            more_space.wf(),
            more_space.size() > 0 ==>
                align_up_spec(old(self).size() as int, more_space.align() as int) + more_space.size() <= usize::MAX
                && old(self).size() + more_space.align() - 1 <= usize::MAX,
        ensures
            more_space.size() == 0 ==> *r == *old(self),
            more_space.size() > 0 ==> r.size() == align_up_spec(old(self).size() as int, more_space.align() as int) + more_space.size(),
            more_space.size() > 0 ==> r.align() == (if old(self).align() >= more_space.align() { old(self).align() } else { more_space.align() }),
            r.wf(),
            *final(self) == *final(r),
    {
        if more_space.size == 0 {
            return self;
        }

        self.size = align_up(self.size, more_space.align) + more_space.size;
        self.align = if self.align >= more_space.align { self.align } else { more_space.align };
        self
    }

    /// Grow this layout so that it covers `new_space` too: the alignment becomes the larger
    /// one and the size the larger size rounded up to that alignment.
    pub fn extend(&mut self, new_space: &VMLayout) -> (r: &mut Self)
        requires
            old(self).wf(),
            new_space.wf(),
            new_space.size() > 0 ==> ({
                let a = if old(self).align() >= new_space.align() { old(self).align() } else { new_space.align() };
                let s = if old(self).size() >= new_space.size() { old(self).size() } else { new_space.size() };
                s + a - 1 <= usize::MAX
            }),
        ensures
            new_space.size() == 0 ==> *r == *old(self),
            new_space.size() > 0 ==> r.align() == (if old(self).align() >= new_space.align() { old(self).align() } else { new_space.align() }),
            new_space.size() > 0 ==> r.size() == align_up_spec(
                (if old(self).size() >= new_space.size() { old(self).size() } else { new_space.size() }) as int,
                r.align() as int),
            extends(*old(self), *new_space, *r),
            new_space.size() > 0 ==> r.size() >= old(self).size() && r.size() >= new_space.size()
                && r.size() % r.align() == 0,
            r.wf(),
            *final(self) == *final(r),
    {
        if new_space.size == 0 {
            return self;
        }

        self.align = if self.align >= new_space.align { self.align } else { new_space.align };
        let size = if self.size >= new_space.size { self.size } else { new_space.size };
        self.size = align_up(size, self.align);
        self
    }

    #[verifier::when_used_as_spec(size)]
    pub fn get_size(&self) -> (r: usize)
        ensures
            r == self.size(),
    {
        self.size
    }

    #[verifier::when_used_as_spec(align)]
    pub fn get_align(&self) -> (r: usize)
        ensures
            r == self.align(),
    {
        self.align
    }
}

impl Default for VMLayout {
    fn default() -> (r: VMLayout)
        ensures
            r.size() == 0,
            r.align() == PAGE_SIZE,
    {
        VMLayout::new_empty()
    }
}

/// `after` is what `extend` makes of `before` and `new_space`: `before` itself when
/// `new_space` is empty, else the larger alignment and the larger size rounded up to it.
pub open spec fn extends(before: VMLayout, new_space: VMLayout, after: VMLayout) -> bool {
    if new_space.size() == 0 {
        after == before
    } else {
        let a = if before.align() >= new_space.align() { before.align() } else { new_space.align() };
        let s = if before.size() >= new_space.size() { before.size() } else { new_space.size() };
        &&& after.align() == a
        &&& after.size() == align_up_spec(s as int, a as int)
    }
}

/// Extending a layout twice by the same layout gives the layout that extending once gives.
pub proof fn law_extend_twice_is_once(l: VMLayout, n: VMLayout, once: VMLayout, twice: VMLayout)
    requires
        l.wf(),
        n.wf(),
        extends(l, n, once),
        extends(once, n, twice),
    ensures
        twice == once,
        n.size() > 0 ==> once.size() >= l.size() && once.size() >= n.size() && once.size() % once.align() == 0,
{
    if n.size() > 0 {
        let s = if l.size() >= n.size() { l.size() } else { n.size() };
        crate::vm_range::lemma_align_up(s as int, once.align() as int);
        crate::vm_range::lemma_align_up(once.size() as int, once.align() as int);
        assert(twice.size() == once.size() && twice.align() == once.align());
    }
}

} // verus!
