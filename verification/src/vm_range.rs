use vstd::prelude::*;
use crate::errno::Errno;

verus! {

/// The size of one page of memory.
pub const PAGE_SIZE: usize = 4096;

/// The smallest multiple of `align` that is not below `x`.
pub open spec fn align_up_spec(x: int, align: int) -> int {
    (x + align - 1) / align * align
}

/// The largest multiple of `align` that is not above `x`.
pub open spec fn align_down_spec(x: int, align: int) -> int {
    x - x % align
}

/// Facts about rounding up to a multiple.
pub proof fn lemma_align_up(x: int, align: int)
    requires
        x >= 0,
        align > 0,
    ensures
        align_up_spec(x, align) % align == 0,
        x <= align_up_spec(x, align) < x + align,
        x % align == 0 ==> align_up_spec(x, align) == x,
{
    let q = (x + align - 1) / align;
    let r = (x + align - 1) % align;
    assert(x + align - 1 == q * align + r) by (nonlinear_arith)
        requires
            align > 0,
            q == (x + align - 1) / align,
            r == (x + align - 1) % align,
    ;
    assert((q * align) % align == 0) by (nonlinear_arith)
        requires
            align > 0,
    ;
    assert(0 <= r < align);
    if x % align == 0 {
        let k = x / align;
        assert(x == k * align) by (nonlinear_arith)
            requires
                align > 0,
                k == x / align,
                x % align == 0,
        ;
        assert(x + align - 1 == k * align + (align - 1)) by (nonlinear_arith)
            requires
                x == k * align,
        ;
        assert(q == k && r == align - 1) by (nonlinear_arith)
            requires
                x + align - 1 == k * align + (align - 1),
                x + align - 1 == q * align + r,
                0 <= r < align,
                align > 0,
        ;
    }
}

/// Facts about rounding down to a multiple.
pub proof fn lemma_align_down(x: int, align: int)
    requires
        x >= 0,
        align > 0,
    ensures
        align_down_spec(x, align) % align == 0,
        x - align < align_down_spec(x, align) <= x,
        0 <= align_down_spec(x, align),
{
    let q = x / align;
    let r = x % align;
    assert(x == q * align + r) by (nonlinear_arith)
        requires
            align > 0,
            q == x / align,
            r == x % align,
    ;
    assert((q * align) % align == 0) by (nonlinear_arith)
        requires
            align > 0,
    ;
    assert(q >= 0) by (nonlinear_arith)
        requires
            x >= 0,
            align > 0,
            q == x / align,
    ;
    assert(q * align >= 0) by (nonlinear_arith)
        requires
            q >= 0,
            align > 0,
    ;
}

/// Round `addr` up to a multiple of `align`.
pub fn align_up(addr: usize, align: usize) -> (r: usize)
    requires
        align > 0,
        addr + align - 1 <= usize::MAX,
    ensures
        r == align_up_spec(addr as int, align as int),
        r % align == 0,
        addr <= r < addr + align,
        addr % align == 0 ==> r == addr,
{
    proof {
        lemma_align_up(addr as int, align as int);
    }
    let q = (addr + (align - 1)) / align;
    assert(q * align <= addr + (align - 1)) by (nonlinear_arith)
        requires
            align > 0,
            q as int == (addr as int + align as int - 1) / (align as int),
    ;
    q * align
}

/// Round `addr` down to a multiple of `align`.
pub fn align_down(addr: usize, align: usize) -> (r: usize)
    requires
        align > 0,
    ensures
        r == align_down_spec(addr as int, align as int),
        r % align == 0,
        addr - align < r <= addr,
{
    proof {
        lemma_align_down(addr as int, align as int);
    }
    addr - addr % align
}

/// The pieces that `VMRange::subtract` returns.
pub open spec fn subtract_spec(r: VMRange, o: VMRange) -> Seq<VMRange> {
    if r.start < o.start {
        if o.end < r.end {
            seq![VMRange { start: r.start, end: o.start }, VMRange { start: o.end, end: r.end }]
        } else {
            seq![VMRange { start: r.start, end: if r.end < o.start { r.end } else { o.start } }]
        }
    } else if o.end < r.end {
        seq![VMRange { start: if r.start > o.end { r.start } else { o.end }, end: r.end }]
    } else {
        seq![]
    }
}

/// The pieces of `subtract_spec` are within `r`, outside `o`, and cover the rest of `r`.
pub proof fn lemma_subtract_spec(r: VMRange, o: VMRange)
    requires
        r.wf(),
        o.wf(),
    ensures
        subtract_spec(r, o).len() <= 2,
        forall|i: int| 0 <= i < subtract_spec(r, o).len() ==> (#[trigger] subtract_spec(r, o)[i]).wf()
            && r.start <= subtract_spec(r, o)[i].start && subtract_spec(r, o)[i].end <= r.end,
        r.start < r.end ==> forall|i: int| 0 <= i < subtract_spec(r, o).len() ==> (#[trigger] subtract_spec(r, o)[i]).start < subtract_spec(r, o)[i].end,
        forall|a: int| r.has(a) && !o.has(a) <==> exists|i: int| 0 <= i < subtract_spec(r, o).len() && (#[trigger] subtract_spec(r, o)[i]).has(a),
        subtract_spec(r, o).len() == 2 ==> subtract_spec(r, o)[0].end <= subtract_spec(r, o)[1].start,
{
    let v = subtract_spec(r, o);
    assert forall|a: int| r.has(a) && !o.has(a) implies exists|i: int| 0 <= i < v.len() && (#[trigger] v[i]).has(a) by {
        if r.start < o.start && o.end < r.end && a >= o.start {
            assert(v[1].has(a));
        } else {
            assert(v[0].has(a));
        }
    }
}

/// A half-open range `[start, end)` of virtual addresses.
#[derive(Clone, Copy, Debug, PartialEq, Eq, Structural, Default)]
pub struct VMRange {
    pub start: usize,
    pub end: usize,
}

impl VMRange {
    /// A range is well formed when it does not end before it starts.
    pub open spec fn wf(&self) -> bool {
        self.start <= self.end
    }

    /// Whether the address `addr` lies in the range.
    pub open spec fn has(&self, addr: int) -> bool {
        self.start <= addr < self.end
    }

    /// The set of addresses in the range.
    pub open spec fn addrs(&self) -> Set<int> {
        Set::new(|a: int| self.has(a))
    }

    /// Whether both ends of the range are page aligned.
    pub open spec fn page_aligned(&self) -> bool {
        self.start % PAGE_SIZE == 0 && self.end % PAGE_SIZE == 0
    }

    /// The number of addresses in the range.
    pub open spec fn spec_size(&self) -> int {
        self.end - self.start
    }

    /// Create the range `[start, end)`; both ends must be page aligned and in order.
    pub fn new(start: usize, end: usize) -> (r: Result<VMRange, Errno>)
        ensures
            (start % PAGE_SIZE != 0 || end % PAGE_SIZE != 0 || start > end) <==> r is Err,
            r is Err ==> r == Err::<VMRange, Errno>(Errno::EINVAL),
            r matches Ok(v) ==> v.start == start && v.end == end,
    {
        if start % PAGE_SIZE != 0 || end % PAGE_SIZE != 0 || start > end {
            return Err(Errno::EINVAL);
        }
        Ok(VMRange { start: start, end: end })
    }

    /// Create the empty range that starts and ends at `start`.
    pub fn new_empty(start: usize) -> (r: Result<VMRange, Errno>)
        ensures
            start % PAGE_SIZE != 0 <==> r is Err,
            r is Err ==> r == Err::<VMRange, Errno>(Errno::EINVAL),
            r matches Ok(v) ==> v.start == start && v.end == start,
    {
        if start % PAGE_SIZE != 0 {
            return Err(Errno::EINVAL);
        }
        Ok(VMRange { start: start, end: start })
    }

    /// Create the range `[start, start + size)`.
    pub fn new_with_size(start: usize, size: usize) -> (r: Result<VMRange, Errno>)
        requires
            start + size <= usize::MAX,
        ensures
            (start % PAGE_SIZE != 0 || (start + size) % (PAGE_SIZE as int) != 0) <==> r is Err,
            r is Err ==> r == Err::<VMRange, Errno>(Errno::EINVAL),
            r matches Ok(v) ==> v.start == start && v.end == start + size,
    {
        Self::new(start, start + size)
    }

    /// Create a range without checking its ends.
    pub fn from_unchecked(start: usize, end: usize) -> (r: VMRange)
        requires
            start % PAGE_SIZE == 0,
            end % PAGE_SIZE == 0,
            start <= end,
        ensures
            r.start == start && r.end == end,
    {
        VMRange { start: start, end: end }
    }

    pub fn start(&self) -> (r: usize)
        ensures
            r == self.start,
    {
        self.start
    }

    pub fn end(&self) -> (r: usize)
        ensures
            r == self.end,
    {
        self.end
    }

    pub fn size(&self) -> (r: usize)
        requires
            self.wf(),
        ensures
            r == self.end - self.start,
    {
        self.end - self.start
    }

    /// Keep the start and move the end so that the range has `new_size` addresses.
    pub fn resize(&mut self, new_size: usize)
        requires
            old(self).start + new_size <= usize::MAX,
        ensures
            final(self).start == old(self).start,
            final(self).end == old(self).start + new_size,
    {
        self.end = self.start + new_size;
    }

    /// Move the start of the range.
    pub fn set_start(&mut self, new_start: usize)
        ensures
            final(self).start == new_start,
            final(self).end == old(self).end,
    {
        self.start = new_start;
    }

    /// Move the end of the range.
    pub fn set_end(&mut self, new_end: usize)
        ensures
            final(self).start == old(self).start,
            final(self).end == new_end,
    {
        self.end = new_end;
    }

    pub fn empty(&self) -> (r: bool)
        ensures
            r == (self.start == self.end),
    {
        self.start == self.end
    }

    pub fn is_superset_of(&self, other: &VMRange) -> (r: bool)
        ensures
            r == (self.start <= other.start && other.end <= self.end),
    {
        self.start() <= other.start() && other.end() <= self.end()
    }

    pub fn contains(&self, addr: usize) -> (r: bool)
        ensures
            r == self.has(addr as int),
    {
        self.start() <= addr && addr < self.end()
    }

    /// Whether the two ranges share at least one address.
    pub fn overlap_with(&self, other: &VMRange) -> (r: bool)
        ensures
            r == (self.start < other.end && other.start < self.end),
    {
        self.start() < other.end() && other.start() < self.end()
    }

    /// Whether one of the ranges ends exactly where the other starts.
    pub fn is_contiguous_with(&self, other: &VMRange) -> (r: bool)
        ensures
            r == (self.start == other.end || self.end == other.start),
    {
        self.start() == other.end() || self.end() == other.start()
    }

    /// The parts of `self` that lie outside `other`, in address order.
    pub fn subtract(&self, other: &VMRange) -> (r: Vec<VMRange>)
        requires
            self.wf(),
            other.wf(),
        ensures
            r@.len() <= 2,
            forall|i: int| 0 <= i < r@.len() ==> (#[trigger] r@[i]).wf(),
            self.start < self.end ==> forall|i: int| 0 <= i < r@.len() ==> (#[trigger] r@[i]).start < r@[i].end,
            forall|a: int| self.has(a) && !other.has(a) <==> exists|i: int| 0 <= i < r@.len() && (#[trigger] r@[i]).has(a),
            forall|i: int| 0 <= i < r@.len() ==> self.start <= (#[trigger] r@[i]).start && r@[i].end <= self.end,
            r@.len() == 2 ==> r@[0].end <= r@[1].start,
            self.page_aligned() && other.page_aligned() ==> forall|i: int| 0 <= i < r@.len() ==> (#[trigger] r@[i]).page_aligned(),
            r@ == subtract_spec(*self, *other),
    {
        let self_start = self.start();
        let self_end = self.end();
        let other_start = other.start();
        let other_end = other.end();

        let mut v: Vec<VMRange> = Vec::new();
        if self_start < other_start {
            if other_end < self_end {
                v.push(VMRange { start: self_start, end: other_start });
                v.push(VMRange { start: other_end, end: self_end });
                assert forall|a: int| self.has(a) && !other.has(a) implies exists|i: int| 0 <= i < v@.len() && (#[trigger] v@[i]).has(a) by {
                    if a < other_start {
                        assert(v@[0].has(a));
                    } else {
                        assert(v@[1].has(a));
                    }
                }
            } else {
                let e = if self_end < other_start { self_end } else { other_start };
                v.push(VMRange { start: self_start, end: e });
                assert forall|a: int| self.has(a) && !other.has(a) implies exists|i: int| 0 <= i < v@.len() && (#[trigger] v@[i]).has(a) by {
                    assert(v@[0].has(a));
                }
            }
        } else {
            if other_end < self_end {
                let s = if self_start > other_end { self_start } else { other_end };
                v.push(VMRange { start: s, end: self_end });
                assert forall|a: int| self.has(a) && !other.has(a) implies exists|i: int| 0 <= i < v@.len() && (#[trigger] v@[i]).has(a) by {
                    assert(v@[0].has(a));
                }
            }
        }
        v
    }

    /// The common part of the two ranges, which may be empty when they only touch.
    pub fn intersect(&self, other: &VMRange) -> (r: Option<VMRange>)
        ensures
            r is Some <==> (if self.start > other.start { self.start } else { other.start })
                <= (if self.end < other.end { self.end } else { other.end }),
            r matches Some(v) ==> v.start == (if self.start > other.start { self.start } else { other.start })
                && v.end == (if self.end < other.end { self.end } else { other.end })
                && v.wf()
                && (forall|a: int| v.has(a) <==> self.has(a) && other.has(a)),
    {
        let intersection_start = if self.start() > other.start() { self.start() } else { other.start() };
        let intersection_end = if self.end() < other.end() { self.end() } else { other.end() };
        if intersection_start > intersection_end {
            return None;
        }
        Some(VMRange { start: intersection_start, end: intersection_end })
    }
}

} // verus!

verus! {

/// Whether `n` is a power of two.
pub open spec fn is_pow2(n: nat) -> bool
    decreases n,
{
    if n == 0 {
        false
    } else if n == 1 {
        true
    } else {
        n % 2 == 0 && is_pow2(n / 2)
    }
}

/// The page size is a power of two.
pub proof fn lemma_page_size_pow2()
    ensures
        is_pow2(PAGE_SIZE as nat),
{
    reveal_with_fuel(is_pow2, 14);
}

/// Whether `x` is a power of two: halve it while it is even and above one, and see whether
/// one is left.
pub(crate) fn usize_is_power_of_two(x: usize) -> (r: bool)
    ensures
        r == is_pow2(x as nat),
{
    if x == 0 {
        return false;
    }
    let mut v: usize = x;
    while v > 1 && v % 2 == 0
        invariant
            v >= 1,
            is_pow2(x as nat) == is_pow2(v as nat),
        decreases v,
    {
        v = v / 2;
    }
    v == 1
}

impl VMRange {
    /// The range that starts at the first multiple of the layout's alignment from `min_start`
    /// and ends on the first page boundary after the layout's size.
    pub fn new_with_layout(layout: &crate::vm_layout::VMLayout, min_start: usize) -> (r: VMRange)
        requires
            layout.wf(),
            min_start + layout.align() - 1 <= usize::MAX,
            align_up_spec(min_start as int, layout.align() as int) + layout.size() + PAGE_SIZE - 1 <= usize::MAX,
        ensures
            r.start == align_up_spec(min_start as int, layout.align() as int),
            r.end == align_up_spec(r.start + layout.size(), PAGE_SIZE as int),
            r.wf(),
            r.end % PAGE_SIZE == 0,
    {
        let start = align_up(min_start, layout.get_align());
        let end = align_up(start + layout.get_size(), PAGE_SIZE);
        VMRange { start: start, end: end }
    }
}

} // verus!
