//! The memory of a chunk: the areas in use, in address order, and the free ranges.
//!
//! Every address of the chunk is either free or covered by exactly one area; the free size is
//! the total size of the free ranges.
use vstd::prelude::*;
use crate::errno::Errno;
use crate::free_space_manager::{
    VMFreeSpaceManager, ranges_sorted, ranges_nonempty, in_ranges, free_set, sum_sizes, has_slot,
    lemma_in_ranges_concat, lemma_disjoint_has_slot, lemma_sum_bound, find_result, take_out,
    lemma_take_out, ends_below, ranges_apart, lemma_run_in_one_range,
};
use crate::vm_util::{VMMapOptions, VMMapAddr, VMRemapOptions, VMRemapResult, VMRemapParser, remap_fails_spec, remap_mmap_spec, remap_munmap_spec, remap_preferred_range, remap_old_range};
use crate::vm_util::FileRef;
use crate::process_vm::MRemapFlags;
use crate::vm_area::{VMArea, VMAreaView, AccessView, pid_t, can_merge_view};
use crate::vm_perms::VMPerms;
use crate::vm_range::{VMRange, subtract_spec, lemma_subtract_spec, align_up, align_up_spec, lemma_align_up, PAGE_SIZE};

verus! {

/// The ranges of a list of areas.
pub open spec fn area_ranges(s: Seq<VMAreaView>) -> Seq<VMRange> {
    Seq::new(s.len(), |i: int| s[i].range)
}

/// The addresses that the areas of a list cover.
pub open spec fn mapped_set(s: Seq<VMAreaView>) -> Set<int> {
    free_set(area_ranges(s))
}

/// The larger of two addresses.
pub open spec fn max_addr(a: usize, b: usize) -> usize {
    if a > b { a } else { b }
}

/// The smaller of two addresses.
pub open spec fn min_addr(a: usize, b: usize) -> usize {
    if a < b { a } else { b }
}

/// The common part of two ranges (well formed only when they overlap or touch).
pub open spec fn overlap(a: VMRange, b: VMRange) -> VMRange {
    VMRange { start: max_addr(a.start, b.start), end: min_addr(a.end, b.end) }
}

/// Whether two ranges share an address.
pub open spec fn overlaps(a: VMRange, b: VMRange) -> bool {
    max_addr(a.start, b.start) < min_addr(a.end, b.end)
}

/// The part `q` of the area `v`: same permissions and access, the file moved to `q`.
pub open spec fn cut(v: VMAreaView, q: VMRange) -> VMAreaView {
    VMAreaView {
        range: q,
        perms: v.perms,
        file_backed: VMArea::shifted_file(v.file_backed, v.range.start, q.start),
        access: v.access,
    }
}

/// The parts `qs` of the area `v`.
pub open spec fn cuts(v: VMAreaView, qs: Seq<VMRange>) -> Seq<VMAreaView> {
    Seq::new(qs.len(), |j: int| cut(v, qs[j]))
}

/// An area of a chunk `[lo, hi)`: nonempty, inside the chunk, private, and with a file offset
/// that still fits at the end of the chunk.
pub open spec fn area_ok(v: VMAreaView, lo: int, hi: int) -> bool {
    &&& lo <= v.range.start
    &&& v.range.start < v.range.end
    &&& v.range.end <= hi
    &&& v.access is Private
    &&& (v.file_backed matches Some(f) ==> f.offset + (hi - v.range.start) <= usize::MAX)
}

/// The areas of a chunk `[lo, hi)`, in address order and apart.
pub open spec fn areas_ok(s: Seq<VMAreaView>, lo: int, hi: int) -> bool {
    &&& ranges_sorted(area_ranges(s))
    &&& forall|i: int| 0 <= i < s.len() ==> area_ok(#[trigger] s[i], lo, hi)
}

/// Whether the area `v` is one of process `pid` that shares an address with `r`.
pub open spec fn hit(v: VMAreaView, r: VMRange, pid: pid_t) -> bool {
    v.access == AccessView::Private(pid) && overlaps(v.range, r)
}

/// What is left of the area `v` after process `pid` unmaps `r`.
pub open spec fn unmap_one(v: VMAreaView, r: VMRange, pid: pid_t) -> Seq<VMAreaView> {
    if hit(v, r, pid) {
        cuts(v, subtract_spec(v.range, overlap(v.range, r)))
    } else {
        seq![v]
    }
}

/// What process `pid` unmaps of the area `v` when it unmaps `r`.
pub open spec fn unmapped_one(v: VMAreaView, r: VMRange, pid: pid_t) -> Seq<VMAreaView> {
    if hit(v, r, pid) {
        seq![cut(v, overlap(v.range, r))]
    } else {
        seq![]
    }
}

/// The areas after process `pid` unmaps `r`.
pub open spec fn unmap_areas(s: Seq<VMAreaView>, r: VMRange, pid: pid_t) -> Seq<VMAreaView>
    decreases s.len(),
{
    if s.len() == 0 {
        seq![]
    } else {
        unmap_areas(s.drop_last(), r, pid) + unmap_one(s.last(), r, pid)
    }
}

/// The parts of the areas that process `pid` unmaps with `r`, in address order.
pub open spec fn unmapped_areas(s: Seq<VMAreaView>, r: VMRange, pid: pid_t) -> Seq<VMAreaView>
    decreases s.len(),
{
    if s.len() == 0 {
        seq![]
    } else {
        unmapped_areas(s.drop_last(), r, pid) + unmapped_one(s.last(), r, pid)
    }
}

/// The addresses of `r` in areas of process `pid`.
pub open spec fn owned_in(s: Seq<VMAreaView>, r: VMRange, pid: pid_t) -> Set<int> {
    Set::new(|a: int| r.has(a) && exists|i: int| 0 <= i < s.len() && (#[trigger] s[i]).range.has(a)
        && s[i].access == AccessView::Private(pid))
}

proof fn lemma_area_ranges_concat(a: Seq<VMAreaView>, b: Seq<VMAreaView>)
    ensures
        area_ranges(a + b) =~= area_ranges(a) + area_ranges(b),
{
}

proof fn lemma_area_ranges_cuts(v: VMAreaView, qs: Seq<VMRange>)
    ensures
        area_ranges(cuts(v, qs)) =~= qs,
{
}

/// An address stays mapped by one area after an unmap unless that area is of process `pid`
/// and `r` holds the address.
proof fn lemma_unmap_one_addrs(v: VMAreaView, r: VMRange, pid: pid_t, a: int)
    requires
        v.range.wf(),
        r.wf(),
    ensures
        in_ranges(area_ranges(unmap_one(v, r, pid)), a) <==> v.range.has(a) && !(v.access == AccessView::Private(pid) && r.has(a)),
        in_ranges(area_ranges(unmapped_one(v, r, pid)), a) <==> v.range.has(a) && v.access == AccessView::Private(pid) && r.has(a),
{
    if hit(v, r, pid) {
        let o = overlap(v.range, r);
        lemma_subtract_spec(v.range, o);
        lemma_area_ranges_cuts(v, subtract_spec(v.range, o));
        let q = seq![cut(v, o)];
        assert(area_ranges(q) =~= seq![o]);
        if in_ranges(area_ranges(q), a) {
            let k = choose|k: int| 0 <= k < area_ranges(q).len() && (#[trigger] area_ranges(q)[k]).has(a);
            assert(k == 0);
        }
        if o.has(a) {
            assert(area_ranges(q)[0].has(a));
        }
    } else {
        assert(area_ranges(seq![v]) =~= seq![v.range]);
        if v.range.has(a) {
            assert(area_ranges(seq![v])[0].has(a));
        }
        if in_ranges(area_ranges(seq![v]), a) {
            let k = choose|k: int| 0 <= k < area_ranges(seq![v]).len() && (#[trigger] area_ranges(seq![v])[k]).has(a);
            assert(k == 0);
        }
        assert(area_ranges(Seq::<VMAreaView>::empty()) =~= Seq::<VMRange>::empty());
    }
}

/// Which addresses an unmap keeps mapped and which it takes away.
pub proof fn lemma_unmap_addrs(s: Seq<VMAreaView>, r: VMRange, pid: pid_t, a: int)
    requires
        r.wf(),
        forall|i: int| 0 <= i < s.len() ==> (#[trigger] s[i]).range.wf(),
    ensures
        in_ranges(area_ranges(unmap_areas(s, r, pid)), a) <==> exists|i: int| 0 <= i < s.len()
            && (#[trigger] s[i]).range.has(a) && !(s[i].access == AccessView::Private(pid) && r.has(a)),
        in_ranges(area_ranges(unmapped_areas(s, r, pid)), a) <==> exists|i: int| 0 <= i < s.len()
            && (#[trigger] s[i]).range.has(a) && s[i].access == AccessView::Private(pid) && r.has(a),
    decreases s.len(),
{
    if s.len() == 0 {
        assert(area_ranges(Seq::<VMAreaView>::empty()) =~= Seq::<VMRange>::empty());
    } else {
        let p = s.drop_last();
        let v = s.last();
        let n = s.len() - 1;
        assert forall|i: int| 0 <= i < p.len() implies (#[trigger] p[i]).range.wf() by {
            assert(p[i] == s[i]);
        }
        lemma_unmap_addrs(p, r, pid, a);
        lemma_unmap_one_addrs(v, r, pid, a);
        lemma_area_ranges_concat(unmap_areas(p, r, pid), unmap_one(v, r, pid));
        lemma_in_ranges_concat(area_ranges(unmap_areas(p, r, pid)), area_ranges(unmap_one(v, r, pid)), a);
        lemma_area_ranges_concat(unmapped_areas(p, r, pid), unmapped_one(v, r, pid));
        lemma_in_ranges_concat(area_ranges(unmapped_areas(p, r, pid)), area_ranges(unmapped_one(v, r, pid)), a);
        if exists|i: int| 0 <= i < s.len() && (#[trigger] s[i]).range.has(a) && !(s[i].access == AccessView::Private(pid) && r.has(a)) {
            let i = choose|i: int| 0 <= i < s.len() && (#[trigger] s[i]).range.has(a) && !(s[i].access == AccessView::Private(pid) && r.has(a));
            if i < n {
                assert(p[i] == s[i]);
            }
        }
        if exists|i: int| 0 <= i < p.len() && (#[trigger] p[i]).range.has(a) && !(p[i].access == AccessView::Private(pid) && r.has(a)) {
            let i = choose|i: int| 0 <= i < p.len() && (#[trigger] p[i]).range.has(a) && !(p[i].access == AccessView::Private(pid) && r.has(a));
            assert(s[i] == p[i]);
        }
        if exists|i: int| 0 <= i < s.len() && (#[trigger] s[i]).range.has(a) && s[i].access == AccessView::Private(pid) && r.has(a) {
            let i = choose|i: int| 0 <= i < s.len() && (#[trigger] s[i]).range.has(a) && s[i].access == AccessView::Private(pid) && r.has(a);
            if i < n {
                assert(p[i] == s[i]);
            }
        }
        if exists|i: int| 0 <= i < p.len() && (#[trigger] p[i]).range.has(a) && p[i].access == AccessView::Private(pid) && r.has(a) {
            let i = choose|i: int| 0 <= i < p.len() && (#[trigger] p[i]).range.has(a) && p[i].access == AccessView::Private(pid) && r.has(a);
            assert(s[i] == p[i]);
        }
        if v.range.has(a) {
            assert(s[n] == v);
        }
    }
}

/// Two sorted lists, the first ending before the second starts, make a sorted list.
pub proof fn lemma_sorted_concat(a: Seq<VMRange>, b: Seq<VMRange>)
    requires
        ranges_sorted(a),
        ranges_sorted(b),
        forall|i: int, j: int| 0 <= i < a.len() && 0 <= j < b.len() ==> (#[trigger] a[i]).end <= (#[trigger] b[j]).start,
    ensures
        ranges_sorted(a + b),
{
    let t = a + b;
    assert forall|x: int| 0 <= x < t.len() implies (#[trigger] t[x]).wf() by {
        if x < a.len() {
            assert(t[x] == a[x]);
        } else {
            assert(t[x] == b[x - a.len()]);
        }
    }
    assert forall|x: int, y: int| 0 <= x < y < t.len() implies (#[trigger] t[x]).end <= (#[trigger] t[y]).start by {
        if y < a.len() {
            assert(t[x] == a[x] && t[y] == a[y]);
        } else if x < a.len() {
            assert(t[x] == a[x] && t[y] == b[y - a.len()]);
        } else {
            assert(t[x] == b[x - a.len()] && t[y] == b[y - a.len()]);
        }
    }
}

/// A part of an area is an area of the chunk too.
proof fn lemma_cut_ok(v: VMAreaView, q: VMRange, lo: int, hi: int)
    requires
        area_ok(v, lo, hi),
        v.range.start <= q.start,
        q.start < q.end,
        q.end <= v.range.end,
    ensures
        area_ok(cut(v, q), lo, hi),
{
}

/// What an unmap leaves of one area: parts of it, in order, each an area of the chunk.
proof fn lemma_unmap_one_ok(v: VMAreaView, r: VMRange, pid: pid_t, lo: int, hi: int)
    requires
        area_ok(v, lo, hi),
        r.wf(),
    ensures
        ranges_sorted(area_ranges(unmap_one(v, r, pid))),
        forall|k: int| 0 <= k < unmap_one(v, r, pid).len() ==> area_ok(#[trigger] unmap_one(v, r, pid)[k], lo, hi)
            && v.range.start <= unmap_one(v, r, pid)[k].range.start && unmap_one(v, r, pid)[k].range.end <= v.range.end,
{
    let u = unmap_one(v, r, pid);
    if hit(v, r, pid) {
        let o = overlap(v.range, r);
        let qs = subtract_spec(v.range, o);
        lemma_subtract_spec(v.range, o);
        lemma_area_ranges_cuts(v, qs);
        assert forall|k: int| 0 <= k < u.len() implies area_ok(#[trigger] u[k], lo, hi)
            && v.range.start <= u[k].range.start && u[k].range.end <= v.range.end by {
            assert(u[k] == cut(v, qs[k]));
            assert(qs[k].start < qs[k].end);
            lemma_cut_ok(v, qs[k], lo, hi);
        }
    } else {
        assert(area_ranges(u) =~= seq![v.range]);
        assert(u[0] == v);
    }
}

/// An unmap keeps the areas of a chunk in order, each inside an area it had before.
#[verifier::spinoff_prover]
#[verifier::rlimit(30)]
pub proof fn lemma_unmap_sorted(s: Seq<VMAreaView>, r: VMRange, pid: pid_t, lo: int, hi: int)
    requires
        areas_ok(s, lo, hi),
        r.wf(),
    ensures
        areas_ok(unmap_areas(s, r, pid), lo, hi),
        forall|k: int| 0 <= k < unmap_areas(s, r, pid).len() ==> exists|j: int| 0 <= j < s.len()
            && (#[trigger] s[j]).range.start <= (#[trigger] unmap_areas(s, r, pid)[k]).range.start
            && unmap_areas(s, r, pid)[k].range.end <= s[j].range.end,
    decreases s.len(),
{
    let u = unmap_areas(s, r, pid);
    if s.len() == 0 {
        assert(area_ranges(u) =~= Seq::<VMRange>::empty());
    } else {
        let p = s.drop_last();
        let v = s.last();
        let n = s.len() - 1;
        assert(s[n] == v);
        assert forall|i: int| 0 <= i < p.len() implies area_ok(#[trigger] p[i], lo, hi) by {
            assert(p[i] == s[i]);
        }
        assert(area_ranges(p) =~= area_ranges(s).drop_last());
        assert(ranges_sorted(area_ranges(p))) by {
            assert forall|x: int, y: int| 0 <= x < y < area_ranges(p).len() implies
                (#[trigger] area_ranges(p)[x]).end <= (#[trigger] area_ranges(p)[y]).start by {
                assert(area_ranges(p)[x] == area_ranges(s)[x] && area_ranges(p)[y] == area_ranges(s)[y]);
            }
        }
        lemma_unmap_sorted(p, r, pid, lo, hi);
        lemma_unmap_one_ok(v, r, pid, lo, hi);
        let up = unmap_areas(p, r, pid);
        let uo = unmap_one(v, r, pid);
        assert(u == up + uo);
        lemma_area_ranges_concat(up, uo);
        assert forall|i: int, j: int| 0 <= i < area_ranges(up).len() && 0 <= j < area_ranges(uo).len() implies
            (#[trigger] area_ranges(up)[i]).end <= (#[trigger] area_ranges(uo)[j]).start by {
            let w = choose|w: int| 0 <= w < p.len() && (#[trigger] p[w]).range.start <= up[i].range.start && up[i].range.end <= p[w].range.end;
            assert(p[w] == s[w]);
            assert(area_ranges(s)[w].end <= area_ranges(s)[n].start);
        }
        lemma_sorted_concat(area_ranges(up), area_ranges(uo));
        assert forall|k: int| 0 <= k < u.len() implies exists|j: int| 0 <= j < s.len()
            && (#[trigger] s[j]).range.start <= (#[trigger] u[k]).range.start && u[k].range.end <= s[j].range.end by {
            if k < up.len() {
                assert(u[k] == up[k]);
                let w = choose|w: int| 0 <= w < p.len() && (#[trigger] p[w]).range.start <= up[k].range.start && up[k].range.end <= p[w].range.end;
                assert(p[w] == s[w]);
            } else {
                assert(u[k] == uo[k - up.len()]);
            }
        }
        assert forall|k: int| 0 <= k < u.len() implies area_ok(#[trigger] u[k], lo, hi) by {
            if k < up.len() {
                assert(u[k] == up[k]);
            } else {
                assert(u[k] == uo[k - up.len()]);
            }
        }
    }
}

/// A sorted list of nonempty ranges inside `[lo, hi)` adds up to no more than `hi - lo`.
pub proof fn lemma_sum_within(t: Seq<VMRange>, lo: int, hi: int)
    requires
        ranges_sorted(t),
        ranges_nonempty(t),
        lo <= hi,
        forall|a: int| #[trigger] in_ranges(t, a) ==> lo <= a < hi,
    ensures
        0 <= sum_sizes(t) <= hi - lo,
        forall|i: int| 0 <= i < t.len() ==> lo <= (#[trigger] t[i]).start && t[i].end <= hi,
{
    assert forall|i: int| 0 <= i < t.len() implies lo <= (#[trigger] t[i]).start && t[i].end <= hi by {
        assert(t[i].has(t[i].start as int));
        assert(in_ranges(t, t[i].start as int));
        assert(t[i].has(t[i].end - 1));
        assert(in_ranges(t, t[i].end - 1));
    }
    if t.len() > 0 {
        lemma_sum_bound(t);
        assert(t[0] == t[0]);
        assert(t.last() == t[t.len() - 1]);
    } else {
        assert(sum_sizes(t) == 0);
    }
}

/// An unmap by process `pid` of `r` takes exactly the addresses of `r` in areas of `pid` away
/// from the areas, and returns them as the unmapped parts.
pub proof fn lemma_unmap_sets(s: Seq<VMAreaView>, r: VMRange, pid: pid_t, lo: int, hi: int)
    requires
        areas_ok(s, lo, hi),
        r.wf(),
    ensures
        mapped_set(unmap_areas(s, r, pid)) =~= mapped_set(s).difference(owned_in(s, r, pid)),
        mapped_set(unmapped_areas(s, r, pid)) =~= owned_in(s, r, pid),
        owned_in(s, r, pid).subset_of(mapped_set(s)),
{
    assert forall|i: int| 0 <= i < s.len() implies (#[trigger] s[i]).range.wf() by {
        assert(area_ok(s[i], lo, hi));
    }
    let rs = area_ranges(s);
    assert forall|a: int| mapped_set(unmap_areas(s, r, pid)).contains(a) <==> mapped_set(s).difference(owned_in(s, r, pid)).contains(a) by {
        lemma_unmap_addrs(s, r, pid, a);
        if mapped_set(unmap_areas(s, r, pid)).contains(a) {
            let i = choose|i: int| 0 <= i < s.len() && (#[trigger] s[i]).range.has(a) && !(s[i].access == AccessView::Private(pid) && r.has(a));
            assert(rs[i].has(a));
            if owned_in(s, r, pid).contains(a) {
                let j = choose|j: int| 0 <= j < s.len() && (#[trigger] s[j]).range.has(a) && s[j].access == AccessView::Private(pid);
                assert(rs[j].has(a));
                if i != j {
                    if i < j {
                        assert(rs[i].end <= rs[j].start);
                    } else {
                        assert(rs[j].end <= rs[i].start);
                    }
                }
            }
        }
        if mapped_set(s).difference(owned_in(s, r, pid)).contains(a) {
            let i = choose|i: int| 0 <= i < rs.len() && (#[trigger] rs[i]).has(a);
            assert(s[i].range.has(a));
        }
    }
    assert forall|a: int| mapped_set(unmapped_areas(s, r, pid)).contains(a) <==> owned_in(s, r, pid).contains(a) by {
        lemma_unmap_addrs(s, r, pid, a);
    }
    assert forall|a: int| owned_in(s, r, pid).contains(a) implies mapped_set(s).contains(a) by {
        let j = choose|j: int| 0 <= j < s.len() && (#[trigger] s[j]).range.has(a) && s[j].access == AccessView::Private(pid);
        assert(rs[j].has(a));
    }
}

/// The areas after process `pid` unmaps `[addr, addr + size)` from a chunk `chunk`: only the
/// part inside the chunk counts.
pub open spec fn unmap_request(s: Seq<VMAreaView>, chunk: VMRange, addr: usize, size: int, pid: pid_t) -> Seq<VMAreaView> {
    let rr = VMRange { start: addr, end: (addr + size) as usize };
    if overlaps(rr, chunk) { unmap_areas(s, overlap(rr, chunk), pid) } else { s }
}

/// The parts that such an unmap takes away.
pub open spec fn unmapped_request(s: Seq<VMAreaView>, chunk: VMRange, addr: usize, size: int, pid: pid_t) -> Seq<VMAreaView> {
    let rr = VMRange { start: addr, end: (addr + size) as usize };
    if overlaps(rr, chunk) { unmapped_areas(s, overlap(rr, chunk), pid) } else { seq![] }
}

/// The addresses that such an unmap frees.
pub open spec fn owned_request(s: Seq<VMAreaView>, chunk: VMRange, addr: usize, size: int, pid: pid_t) -> Set<int> {
    let rr = VMRange { start: addr, end: (addr + size) as usize };
    if overlaps(rr, chunk) { owned_in(s, overlap(rr, chunk), pid) } else { Set::empty() }
}

/// The range part of an mmap result.
pub open spec fn range_of(r: Result<(VMRange, Vec<VMArea>), Errno>) -> Result<VMRange, Errno> {
    match r {
        Ok((v, _)) => Ok(v),
        Err(e) => Err(e),
    }
}

/// The area that an mmap with `options` by process `pid` makes over `v`.
pub open spec fn mmap_area(options: VMMapOptions, v: VMRange, pid: pid_t) -> VMAreaView {
    VMAreaView { range: v, perms: options.spec_perms(), file_backed: options.spec_file_backed(), access: AccessView::Private(pid) }
}

/// The areas after an mmap's forced unmap, if it asks for one.
pub open spec fn mmap_mid(s: Seq<VMAreaView>, chunk: VMRange, options: VMMapOptions, pid: pid_t) -> Seq<VMAreaView> {
    match options.spec_addr() {
        VMMapAddr::Force(a) => if a % PAGE_SIZE == 0 { unmap_request(s, chunk, a, options.spec_size() as int, pid) } else { s },
        _ => s,
    }
}

/// The addresses that an mmap's forced unmap frees.
pub open spec fn mmap_freed(s: Seq<VMAreaView>, chunk: VMRange, options: VMMapOptions, pid: pid_t) -> Set<int> {
    match options.spec_addr() {
        VMMapAddr::Force(a) => if a % PAGE_SIZE == 0 { owned_request(s, chunk, a, options.spec_size() as int, pid) } else { Set::empty() },
        _ => Set::empty(),
    }
}

/// A page-aligned size leaves room for a page below the largest `usize`.
proof fn lemma_page_multiple_room(size: usize)
    requires
        size % PAGE_SIZE == 0,
    ensures
        size + PAGE_SIZE - 1 <= usize::MAX,
{
    let q = size / PAGE_SIZE;
    assert(size == q * PAGE_SIZE);
    assert(usize::MAX == 0xffff_ffff || usize::MAX == 0xffff_ffff_ffff_ffff);
    if usize::MAX == 0xffff_ffff {
        assert(q <= 0xfffff);
    } else {
        assert(q <= 0xf_ffff_ffff_ffff);
    }
}

/// The areas of a list, each replaced by the parts that `f` makes of it.
pub open spec fn flat_areas(s: Seq<VMAreaView>, f: spec_fn(VMAreaView) -> Seq<VMAreaView>) -> Seq<VMAreaView>
    decreases s.len(),
{
    if s.len() == 0 {
        seq![]
    } else {
        flat_areas(s.drop_last(), f) + f(s.last())
    }
}

/// The ranges that `g` picks from each area of a list, in order.
pub open spec fn flat_ranges(s: Seq<VMAreaView>, g: spec_fn(VMAreaView) -> Seq<VMRange>) -> Seq<VMRange>
    decreases s.len(),
{
    if s.len() == 0 {
        seq![]
    } else {
        flat_ranges(s.drop_last(), g) + g(s.last())
    }
}

/// `ps` are parts of the area `v`, in order, each an area of the chunk `[lo, hi)`.
pub open spec fn parts_ok(v: VMAreaView, ps: Seq<VMAreaView>, lo: int, hi: int) -> bool {
    &&& ranges_sorted(area_ranges(ps))
    &&& forall|k: int| 0 <= k < ps.len() ==> area_ok(#[trigger] ps[k], lo, hi)
        && v.range.start <= ps[k].range.start && ps[k].range.end <= v.range.end
}

/// Which addresses the parts of all areas cover.
pub proof fn lemma_flat_addrs(s: Seq<VMAreaView>, f: spec_fn(VMAreaView) -> Seq<VMAreaView>, a: int)
    ensures
        in_ranges(area_ranges(flat_areas(s, f)), a) <==> exists|i: int| 0 <= i < s.len() && #[trigger] in_ranges(area_ranges(f(s[i])), a),
    decreases s.len(),
{
    if s.len() == 0 {
        assert(area_ranges(Seq::<VMAreaView>::empty()) =~= Seq::<VMRange>::empty());
    } else {
        let p = s.drop_last();
        let n = s.len() - 1;
        lemma_flat_addrs(p, f, a);
        lemma_area_ranges_concat(flat_areas(p, f), f(s.last()));
        lemma_in_ranges_concat(area_ranges(flat_areas(p, f)), area_ranges(f(s.last())), a);
        assert(s[n] == s.last());
        if exists|i: int| 0 <= i < s.len() && #[trigger] in_ranges(area_ranges(f(s[i])), a) {
            let i = choose|i: int| 0 <= i < s.len() && #[trigger] in_ranges(area_ranges(f(s[i])), a);
            if i < n {
                assert(p[i] == s[i]);
            }
        }
        if exists|i: int| 0 <= i < p.len() && #[trigger] in_ranges(area_ranges(f(p[i])), a) {
            let i = choose|i: int| 0 <= i < p.len() && #[trigger] in_ranges(area_ranges(f(p[i])), a);
            assert(s[i] == p[i]);
        }
    }
}

/// Replacing each area by parts of it keeps the areas of a chunk in order.
#[verifier::spinoff_prover]
#[verifier::rlimit(30)]
pub proof fn lemma_flat_sorted(s: Seq<VMAreaView>, f: spec_fn(VMAreaView) -> Seq<VMAreaView>, lo: int, hi: int)
    requires
        areas_ok(s, lo, hi),
        forall|i: int| 0 <= i < s.len() ==> parts_ok(s[i], #[trigger] f(s[i]), lo, hi),
    ensures
        areas_ok(flat_areas(s, f), lo, hi),
        forall|k: int| 0 <= k < flat_areas(s, f).len() ==> exists|j: int| 0 <= j < s.len()
            && (#[trigger] s[j]).range.start <= (#[trigger] flat_areas(s, f)[k]).range.start
            && flat_areas(s, f)[k].range.end <= s[j].range.end,
    decreases s.len(),
{
    let u = flat_areas(s, f);
    if s.len() == 0 {
        assert(area_ranges(u) =~= Seq::<VMRange>::empty());
    } else {
        let p = s.drop_last();
        let v = s.last();
        let n = s.len() - 1;
        assert(s[n] == v);
        assert(parts_ok(s[n], f(s[n]), lo, hi));
        assert forall|i: int| 0 <= i < p.len() implies area_ok(#[trigger] p[i], lo, hi) by {
            assert(p[i] == s[i]);
        }
        assert forall|i: int| 0 <= i < p.len() implies parts_ok(p[i], #[trigger] f(p[i]), lo, hi) by {
            assert(p[i] == s[i]);
        }
        assert(ranges_sorted(area_ranges(p))) by {
            assert forall|x: int, y: int| 0 <= x < y < area_ranges(p).len() implies
                (#[trigger] area_ranges(p)[x]).end <= (#[trigger] area_ranges(p)[y]).start by {
                assert(area_ranges(p)[x] == area_ranges(s)[x] && area_ranges(p)[y] == area_ranges(s)[y]);
            }
            assert forall|x: int| 0 <= x < area_ranges(p).len() implies (#[trigger] area_ranges(p)[x]).wf() by {
                assert(area_ranges(p)[x] == area_ranges(s)[x]);
            }
        }
        lemma_flat_sorted(p, f, lo, hi);
        let up = flat_areas(p, f);
        let uo = f(v);
        assert(u == up + uo);
        lemma_area_ranges_concat(up, uo);
        assert forall|i: int, j: int| 0 <= i < area_ranges(up).len() && 0 <= j < area_ranges(uo).len() implies
            (#[trigger] area_ranges(up)[i]).end <= (#[trigger] area_ranges(uo)[j]).start by {
            let w = choose|w: int| 0 <= w < p.len() && (#[trigger] p[w]).range.start <= up[i].range.start && up[i].range.end <= p[w].range.end;
            assert(p[w] == s[w]);
            assert(area_ranges(s)[w].end <= area_ranges(s)[n].start);
            assert(area_ranges(uo)[j] == uo[j].range);
        }
        lemma_sorted_concat(area_ranges(up), area_ranges(uo));
        assert forall|k: int| 0 <= k < u.len() implies exists|j: int| 0 <= j < s.len()
            && (#[trigger] s[j]).range.start <= (#[trigger] u[k]).range.start && u[k].range.end <= s[j].range.end by {
            if k < up.len() {
                assert(u[k] == up[k]);
                let w = choose|w: int| 0 <= w < p.len() && (#[trigger] p[w]).range.start <= up[k].range.start && up[k].range.end <= p[w].range.end;
                assert(p[w] == s[w]);
            } else {
                assert(u[k] == uo[k - up.len()]);
                assert(s[n].range.start <= uo[k - up.len()].range.start);
            }
        }
        assert forall|k: int| 0 <= k < u.len() implies area_ok(#[trigger] u[k], lo, hi) by {
            if k < up.len() {
                assert(u[k] == up[k]);
            } else {
                assert(u[k] == uo[k - up.len()]);
            }
        }
    }
}

/// What a change of permissions to `p` over `r` by process `pid` makes of the area `v`: the
/// part inside `r` gets the new permissions, the parts before and after keep theirs.
pub open spec fn protect_one(v: VMAreaView, r: VMRange, p: VMPerms, pid: pid_t) -> Seq<VMAreaView> {
    if v.access == AccessView::Private(pid) && v.perms != p && overlaps(v.range, r) {
        let o = overlap(v.range, r);
        (if v.range.start < o.start { seq![cut(v, VMRange { start: v.range.start, end: o.start })] } else { seq![] })
            + seq![VMAreaView { perms: p, ..cut(v, o) }]
            + (if o.end < v.range.end { seq![cut(v, VMRange { start: o.end, end: v.range.end })] } else { seq![] })
    } else {
        seq![v]
    }
}

/// The range of the area `v` whose permissions such a change sets.
pub open spec fn protected_one(v: VMAreaView, r: VMRange, p: VMPerms, pid: pid_t) -> Seq<VMRange> {
    if v.access == AccessView::Private(pid) && v.perms != p && overlaps(v.range, r) {
        seq![overlap(v.range, r)]
    } else {
        seq![]
    }
}

/// `protect_one` for fixed arguments.
pub open spec fn protect_fn(r: VMRange, p: VMPerms, pid: pid_t) -> spec_fn(VMAreaView) -> Seq<VMAreaView> {
    |v: VMAreaView| protect_one(v, r, p, pid)
}

/// `protected_one` for fixed arguments.
pub open spec fn protected_fn(r: VMRange, p: VMPerms, pid: pid_t) -> spec_fn(VMAreaView) -> Seq<VMRange> {
    |v: VMAreaView| protected_one(v, r, p, pid)
}

/// A change of permissions splits an area into parts that cover it exactly.
#[verifier::spinoff_prover]
#[verifier::rlimit(30)]
proof fn lemma_protect_one(v: VMAreaView, r: VMRange, p: VMPerms, pid: pid_t, lo: int, hi: int)
    requires
        area_ok(v, lo, hi),
        r.wf(),
    ensures
        parts_ok(v, protect_one(v, r, p, pid), lo, hi),
        forall|a: int| #[trigger] in_ranges(area_ranges(protect_one(v, r, p, pid)), a) <==> v.range.has(a),
{
    let u = protect_one(v, r, p, pid);
    if v.access == AccessView::Private(pid) && v.perms != p && overlaps(v.range, r) {
        let o = overlap(v.range, r);
        let left = VMRange { start: v.range.start, end: o.start };
        let right = VMRange { start: o.end, end: v.range.end };
        let ls: Seq<VMAreaView> = if v.range.start < o.start { seq![cut(v, left)] } else { seq![] };
        let ms: Seq<VMAreaView> = seq![VMAreaView { perms: p, ..cut(v, o) }];
        let rs: Seq<VMAreaView> = if o.end < v.range.end { seq![cut(v, right)] } else { seq![] };
        assert(u == ls + ms + rs);
        lemma_area_ranges_concat(ls + ms, rs);
        lemma_area_ranges_concat(ls, ms);
        let lr: Seq<VMRange> = if v.range.start < o.start { seq![left] } else { seq![] };
        let rr: Seq<VMRange> = if o.end < v.range.end { seq![right] } else { seq![] };
        assert(area_ranges(ls) =~= lr);
        assert(area_ranges(ms) =~= seq![o]);
        assert(area_ranges(rs) =~= rr);
        assert(area_ranges(u) =~= lr + seq![o] + rr);
        let ar = area_ranges(u);
        assert forall|k: int| 0 <= k < u.len() implies area_ok(#[trigger] u[k], lo, hi)
            && v.range.start <= u[k].range.start && u[k].range.end <= v.range.end by {
            if k < ls.len() {
                assert(u[k] == ls[k]);
                lemma_cut_ok(v, left, lo, hi);
            } else if k < ls.len() + 1 {
                assert(u[k] == ms[k - ls.len()]);
                lemma_cut_ok(v, o, lo, hi);
            } else {
                assert(u[k] == rs[k - ls.len() - 1]);
                lemma_cut_ok(v, right, lo, hi);
            }
        }
        assert forall|x: int| 0 <= x < ar.len() implies (#[trigger] ar[x]).wf() by {
            assert(area_ok(u[x], lo, hi));
        }
        assert forall|x: int, y: int| 0 <= x < y < ar.len() implies (#[trigger] ar[x]).end <= (#[trigger] ar[y]).start by {
            if x < lr.len() {
                assert(ar[x] == left);
            } else {
                assert(ar[x] == o);
                assert(ar[y] == right);
            }
            if y == lr.len() {
                assert(ar[y] == o);
            } else {
                assert(ar[y] == right);
            }
        }
        assert forall|a: int| #[trigger] in_ranges(ar, a) <==> v.range.has(a) by {
            if v.range.has(a) {
                if a < o.start {
                    assert(ar[0] == left);
                    assert(ar[0].has(a));
                } else if a < o.end {
                    assert(ar[lr.len() as int] == o);
                    assert(ar[lr.len() as int].has(a));
                } else {
                    assert(ar[lr.len() as int + 1] == right);
                    assert(ar[lr.len() as int + 1].has(a));
                }
            }
            if in_ranges(ar, a) {
                let k = choose|k: int| 0 <= k < ar.len() && (#[trigger] ar[k]).has(a);
                assert(area_ok(u[k], lo, hi));
            }
        }
    } else {
        assert(area_ranges(u) =~= seq![v.range]);
        assert(u[0] == v);
        assert forall|a: int| #[trigger] in_ranges(area_ranges(u), a) <==> v.range.has(a) by {
            if v.range.has(a) {
                assert(area_ranges(u)[0].has(a));
            }
        }
    }
}

/// The area `v` stretched to end at `end`.
pub open spec fn stretch(v: VMAreaView, end: usize) -> VMAreaView {
    VMAreaView { range: VMRange { start: v.range.start, end }, ..v }
}

/// The areas of a list with each run of areas that can become one merged into one, from left
/// to right.
pub open spec fn merge_areas(s: Seq<VMAreaView>) -> Seq<VMAreaView>
    decreases s.len(),
{
    if s.len() == 0 {
        s
    } else {
        let p = merge_areas(s.drop_last());
        if p.len() > 0 && can_merge_view(p.last(), s.last()) {
            p.update(p.len() - 1, stretch(p.last(), s.last().range.end))
        } else {
            p.push(s.last())
        }
    }
}

/// Merging keeps the areas of a chunk in order, covers the same addresses, and ends where the
/// list ends.
#[verifier::spinoff_prover]
#[verifier::rlimit(30)]
pub proof fn lemma_merge_areas(s: Seq<VMAreaView>, lo: int, hi: int)
    requires
        areas_ok(s, lo, hi),
    ensures
        areas_ok(merge_areas(s), lo, hi),
        mapped_set(merge_areas(s)) =~= mapped_set(s),
        s.len() > 0 ==> merge_areas(s).len() > 0 && merge_areas(s).last().range.end == s.last().range.end,
        s.len() > 0 ==> merge_areas(s)[0].range.start == s[0].range.start,
    decreases s.len(),
{
    let m = merge_areas(s);
    if s.len() == 0 {
        assert(area_ranges(m) =~= Seq::<VMRange>::empty());
    } else {
        let p = s.drop_last();
        let v = s.last();
        let n = s.len() - 1;
        assert(s[n] == v);
        assert(area_ok(v, lo, hi));
        assert forall|i: int| 0 <= i < p.len() implies area_ok(#[trigger] p[i], lo, hi) by {
            assert(p[i] == s[i]);
        }
        assert(ranges_sorted(area_ranges(p))) by {
            assert forall|x: int, y: int| 0 <= x < y < area_ranges(p).len() implies
                (#[trigger] area_ranges(p)[x]).end <= (#[trigger] area_ranges(p)[y]).start by {
                assert(area_ranges(p)[x] == area_ranges(s)[x] && area_ranges(p)[y] == area_ranges(s)[y]);
            }
            assert forall|x: int| 0 <= x < area_ranges(p).len() implies (#[trigger] area_ranges(p)[x]).wf() by {
                assert(area_ranges(p)[x] == area_ranges(s)[x]);
            }
        }
        lemma_merge_areas(p, lo, hi);
        let mp = merge_areas(p);
        let rp = area_ranges(mp);
        let rm = area_ranges(m);
        assert(area_ranges(s) =~= area_ranges(p).push(v.range));
        if n > 0 {
            assert(p.last() == s[n - 1]);
            assert(area_ranges(s)[n - 1].end <= area_ranges(s)[n].start);
            assert(mp.last().range.end <= v.range.start);
        }
        if mp.len() > 0 && can_merge_view(mp.last(), v) {
            let k = mp.len() - 1;
            let w = stretch(mp.last(), v.range.end);
            assert(m == mp.update(k, w));
            assert(area_ok(mp[k], lo, hi));
            assert(rm =~= rp.update(k, w.range));
            assert forall|j: int| 0 <= j < m.len() implies area_ok(#[trigger] m[j], lo, hi) by {
                if j != k {
                    assert(m[j] == mp[j]);
                }
            }
            assert forall|x: int| 0 <= x < rm.len() implies (#[trigger] rm[x]).wf() by {
                if x != k {
                    assert(rm[x] == rp[x]);
                }
            }
            assert forall|x: int, y: int| 0 <= x < y < rm.len() implies (#[trigger] rm[x]).end <= (#[trigger] rm[y]).start by {
                assert(rm[x] == rp[x]);
                if y != k {
                    assert(rm[y] == rp[y]);
                } else {
                    assert(rm[y] == w.range);
                    assert(rp[x].end <= rp[k].start);
                }
            }
            assert forall|a: int| #[trigger] in_ranges(rm, a) <==> in_ranges(area_ranges(s), a) by {
                assert(mapped_set(mp).contains(a) <==> mapped_set(p).contains(a));
                if in_ranges(rm, a) {
                    let j = choose|j: int| 0 <= j < rm.len() && (#[trigger] rm[j]).has(a);
                    if j == k {
                        if a < mp.last().range.end {
                            assert(rp[k].has(a));
                            assert(in_ranges(rp, a));
                            let t = choose|t: int| 0 <= t < area_ranges(p).len() && (#[trigger] area_ranges(p)[t]).has(a);
                            assert(area_ranges(s)[t] == area_ranges(p)[t]);
                        } else {
                            assert(area_ranges(s)[n].has(a));
                        }
                    } else {
                        assert(rp[j].has(a));
                        assert(in_ranges(rp, a));
                        let t = choose|t: int| 0 <= t < area_ranges(p).len() && (#[trigger] area_ranges(p)[t]).has(a);
                        assert(area_ranges(s)[t] == area_ranges(p)[t]);
                    }
                }
                if in_ranges(area_ranges(s), a) {
                    let t = choose|t: int| 0 <= t < area_ranges(s).len() && (#[trigger] area_ranges(s)[t]).has(a);
                    if t == n {
                        assert(rm[k].has(a));
                    } else {
                        assert(area_ranges(p)[t].has(a));
                        assert(in_ranges(area_ranges(p), a));
                        assert(in_ranges(rp, a));
                        let j = choose|j: int| 0 <= j < rp.len() && (#[trigger] rp[j]).has(a);
                        if j == k {
                            assert(rm[k].has(a));
                        } else {
                            assert(rm[j] == rp[j]);
                        }
                    }
                }
            }
            if k == 0 {
                assert(m[0] == w);
            } else {
                assert(m[0] == mp[0]);
            }
        } else {
            assert(m == mp.push(v));
            assert(rm =~= rp.push(v.range));
            assert forall|j: int| 0 <= j < m.len() implies area_ok(#[trigger] m[j], lo, hi) by {
                if j < mp.len() {
                    assert(m[j] == mp[j]);
                }
            }
            assert forall|x: int| 0 <= x < rm.len() implies (#[trigger] rm[x]).wf() by {
                if x < rp.len() {
                    assert(rm[x] == rp[x]);
                }
            }
            assert forall|x: int, y: int| 0 <= x < y < rm.len() implies (#[trigger] rm[x]).end <= (#[trigger] rm[y]).start by {
                assert(rm[x] == rp[x]);
                if y < rp.len() {
                    assert(rm[y] == rp[y]);
                } else {
                    assert(area_ok(mp[x], lo, hi));
                    if x < rp.len() - 1 {
                        assert(rp[x].end <= rp[rp.len() - 1].start);
                        assert(area_ok(mp[rp.len() - 1], lo, hi));
                    }
                }
            }
            assert forall|a: int| #[trigger] in_ranges(rm, a) <==> in_ranges(area_ranges(s), a) by {
                lemma_in_ranges_concat(rp, seq![v.range], a);
                lemma_in_ranges_concat(area_ranges(p), seq![v.range], a);
                assert(rm =~= rp + seq![v.range]);
                assert(area_ranges(s) =~= area_ranges(p) + seq![v.range]);
                crate::free_space_manager::lemma_single(v.range);
                assert(mapped_set(mp).contains(a) <==> mapped_set(p).contains(a));
            }
            if mp.len() == 0 {
                assert(m[0] == v);
                assert(p.len() == 0);
            } else {
                assert(m[0] == mp[0]);
            }
        }
        if n > 0 {
            assert(p[0] == s[0]);
        }
    }
}

/// The part of the area `v` inside `r`, if they share an address.
pub open spec fn sync_one(v: VMAreaView, r: VMRange) -> Seq<VMAreaView> {
    if overlaps(v.range, r) { seq![cut(v, overlap(v.range, r))] } else { seq![] }
}

/// `sync_one` for a fixed range.
pub open spec fn sync_fn(r: VMRange) -> spec_fn(VMAreaView) -> Seq<VMAreaView> {
    |v: VMAreaView| sync_one(v, r)
}

/// The area `v`, if it writes back to `file`.
pub open spec fn file_one(v: VMAreaView, file: FileRef) -> Seq<VMAreaView> {
    if v.writeback_file() matches Some((f, _)) && f == file { seq![v] } else { seq![] }
}

/// `file_one` for a fixed file.
pub open spec fn file_fn(file: FileRef) -> spec_fn(VMAreaView) -> Seq<VMAreaView> {
    |v: VMAreaView| file_one(v, file)
}

/// Nothing that is left of an area once `r` is unmapped meets `r`.
proof fn lemma_unmap_one_misses(v: VMAreaView, r: VMRange, pid: pid_t)
    requires
        v.range.wf(),
        r.wf(),
    ensures
        forall|i: int| 0 <= i < unmap_one(v, r, pid).len() ==> !hit(#[trigger] unmap_one(v, r, pid)[i], r, pid),
{
    if hit(v, r, pid) {
        let o = overlap(v.range, r);
        let qs = subtract_spec(v.range, o);
        crate::vm_range::lemma_subtract_spec(v.range, o);
        assert forall|i: int| 0 <= i < unmap_one(v, r, pid).len() implies !hit(#[trigger] unmap_one(v, r, pid)[i], r, pid) by {
            let q = qs[i];
            assert(unmap_one(v, r, pid)[i] == cut(v, q));
            if overlaps(q, r) {
                let a = max_addr(q.start, r.start) as int;
                assert(q.has(a));
                assert(exists|j: int| 0 <= j < qs.len() && (#[trigger] qs[j]).has(a));
                assert(v.range.has(a) && !o.has(a));
                assert(r.has(a));
            }
        }
    }
}

/// Areas of which none meets `r` are left as they are by unmapping `r`.
proof fn lemma_unmap_untouched_all(t: Seq<VMAreaView>, r: VMRange, pid: pid_t)
    requires
        forall|i: int| 0 <= i < t.len() ==> !hit(#[trigger] t[i], r, pid),
    ensures
        unmap_areas(t, r, pid) == t,
        unmapped_areas(t, r, pid) == Seq::<VMAreaView>::empty(),
    decreases t.len(),
{
    if t.len() > 0 {
        let p = t.drop_last();
        assert forall|i: int| 0 <= i < p.len() implies !hit(#[trigger] p[i], r, pid) by {
            assert(p[i] == t[i]);
        }
        lemma_unmap_untouched_all(p, r, pid);
        assert(!hit(t[t.len() - 1], r, pid));
        assert(p + seq![t.last()] =~= t);
        assert(unmapped_areas(p, r, pid) + Seq::<VMAreaView>::empty() =~= Seq::<VMAreaView>::empty());
    }
}

/// No area left after unmapping `r` meets `r`.
proof fn lemma_unmap_areas_miss(s: Seq<VMAreaView>, r: VMRange, pid: pid_t)
    requires
        forall|i: int| 0 <= i < s.len() ==> (#[trigger] s[i]).range.wf(),
        r.wf(),
    ensures
        forall|i: int| 0 <= i < unmap_areas(s, r, pid).len() ==> !hit(#[trigger] unmap_areas(s, r, pid)[i], r, pid),
    decreases s.len(),
{
    if s.len() > 0 {
        let p = s.drop_last();
        assert forall|i: int| 0 <= i < p.len() implies (#[trigger] p[i]).range.wf() by {
            assert(p[i] == s[i]);
        }
        lemma_unmap_areas_miss(p, r, pid);
        assert(s.last() == s[s.len() - 1]);
        lemma_unmap_one_misses(s.last(), r, pid);
        let a = unmap_areas(p, r, pid);
        let b = unmap_one(s.last(), r, pid);
        assert forall|i: int| 0 <= i < (a + b).len() implies !hit(#[trigger] (a + b)[i], r, pid) by {
            if i < a.len() {
                assert((a + b)[i] == a[i]);
            } else {
                assert((a + b)[i] == b[i - a.len()]);
            }
        }
    }
}

/// Unmapping the same range twice does what unmapping it once does: the second time leaves
/// the areas as they are and unmaps nothing.
pub proof fn law_unmap_twice_is_once(s: Seq<VMAreaView>, r: VMRange, pid: pid_t)
    requires
        forall|i: int| 0 <= i < s.len() ==> (#[trigger] s[i]).range.wf(),
        r.wf(),
    ensures
        unmap_areas(unmap_areas(s, r, pid), r, pid) == unmap_areas(s, r, pid),
        unmapped_areas(unmap_areas(s, r, pid), r, pid) == Seq::<VMAreaView>::empty(),
{
    lemma_unmap_areas_miss(s, r, pid);
    lemma_unmap_untouched_all(unmap_areas(s, r, pid), r, pid);
}

/// The free ranges of a chunk are fixed by its free addresses: two well-formed chunks over the
/// same range with the same free addresses have the very same list of free ranges. So what
/// `munmap`, `munmap_range` and `mmap` state of the free addresses fixes the free list too,
/// each run of free addresses being one range.
pub proof fn law_free_ranges_fixed_by_free_addresses(c1: ChunkManager, c2: ChunkManager)
    requires
        c1.wf(),
        c2.wf(),
        c1.spec_range() == c2.spec_range(),
        free_set(c1.free_ranges()) == free_set(c2.free_ranges()),
    ensures
        c1.free_ranges() == c2.free_ranges(),
{
    if c1.spec_range().start < c2.spec_range().end {
        crate::free_space_manager::law_apart_ranges_fixed_by_addresses(c1.free_ranges(), c2.free_ranges());
    }
}

/// Mapping a range with `mmap` at a place it may choose or that it needs, and then unmapping
/// exactly that range by the same process, gives back the chunk from before: the same areas
/// and the very same free ranges, the range joined again with the free space around it. The
/// chunk `c2` is what `munmap_range` of the range leaves of `c1`.
pub proof fn law_munmap_undoes_mmap(c0: ChunkManager, c1: ChunkManager, c2: ChunkManager,
    options: VMMapOptions, pid: pid_t, v: VMRange, u: Vec<VMArea>)
    requires
        c0.wf(),
        c1.wf(),
        c2.wf(),
        !(options.spec_addr() is Force),
        ChunkManager::mmap_done(c0, c1, options, pid, Ok((v, u))),
        c2.spec_range() == c1.spec_range(),
        c2.areas() == unmap_areas(c1.areas(), v, pid),
        free_set(c2.free_ranges()) == free_set(c1.free_ranges()).union(owned_in(c1.areas(), v, pid)),
    ensures
        c2.areas() == c0.areas(),
        c2.free_ranges() == c0.free_ranges(),
{
    let lo = c0.spec_range().start as int;
    let hi = c0.spec_range().end as int;
    let mid = mmap_mid(c0.areas(), c0.spec_range(), options, pid);
    assert(mid == c0.areas());
    let area = mmap_area(options, v, pid);
    let k = choose|k: int| 0 <= k <= mid.len() && c1.areas() == mid.insert(k, area);
    law_unmap_undoes_map(mid, k, area, pid, lo, hi);
    let s1 = c1.areas();
    assert(s1[k] == area);
    assert(owned_in(s1, v, pid) =~= v.addrs()) by {
        assert forall|a: int| v.has(a) implies owned_in(s1, v, pid).contains(a) by {
            assert(s1[k].range.has(a) && s1[k].access == AccessView::Private(pid));
        }
    }
    assert(mmap_freed(c0.areas(), c0.spec_range(), options, pid) =~= Set::<int>::empty());
    let f0 = c0.free_ranges();
    let i = choose|i: int| 0 <= i < f0.len() && f0[i].start <= v.start && v.end <= f0[i].end
        && c1.free_ranges() == take_out(f0, i, v);
    assert forall|a: int| v.has(a) implies free_set(f0).contains(a) by {
        assert(f0[i].has(a));
    }
    assert(free_set(c2.free_ranges()) =~= free_set(f0));
    law_free_ranges_fixed_by_free_addresses(c2, c0);
}

/// Unmapping a concatenation unmaps each part.
proof fn lemma_unmap_concat(a: Seq<VMAreaView>, b: Seq<VMAreaView>, r: VMRange, pid: pid_t)
    ensures
        unmap_areas(a + b, r, pid) == unmap_areas(a, r, pid) + unmap_areas(b, r, pid),
        unmapped_areas(a + b, r, pid) == unmapped_areas(a, r, pid) + unmapped_areas(b, r, pid),
    decreases b.len(),
{
    if b.len() == 0 {
        assert(a + b =~= a);
        assert(unmap_areas(a, r, pid) + Seq::<VMAreaView>::empty() =~= unmap_areas(a, r, pid));
        assert(unmapped_areas(a, r, pid) + Seq::<VMAreaView>::empty() =~= unmapped_areas(a, r, pid));
    } else {
        lemma_unmap_concat(a, b.drop_last(), r, pid);
        assert((a + b).drop_last() =~= a + b.drop_last());
        assert((a + b).last() == b.last());
        assert(unmap_areas(a, r, pid) + unmap_areas(b.drop_last(), r, pid) + unmap_one(b.last(), r, pid)
            =~= unmap_areas(a, r, pid) + (unmap_areas(b.drop_last(), r, pid) + unmap_one(b.last(), r, pid)));
        assert(unmapped_areas(a, r, pid) + unmapped_areas(b.drop_last(), r, pid) + unmapped_one(b.last(), r, pid)
            =~= unmapped_areas(a, r, pid) + (unmapped_areas(b.drop_last(), r, pid) + unmapped_one(b.last(), r, pid)));
    }
}

/// Areas that the unmap does not hit stay as they are.
proof fn lemma_unmap_untouched(s: Seq<VMAreaView>, r: VMRange, pid: pid_t)
    requires
        forall|j: int| 0 <= j < s.len() ==> !hit(#[trigger] s[j], r, pid),
    ensures
        unmap_areas(s, r, pid) == s,
        unmapped_areas(s, r, pid) == Seq::<VMAreaView>::empty(),
    decreases s.len(),
{
    if s.len() > 0 {
        assert forall|j: int| 0 <= j < s.drop_last().len() implies !hit(#[trigger] s.drop_last()[j], r, pid) by {
            assert(s.drop_last()[j] == s[j]);
        }
        lemma_unmap_untouched(s.drop_last(), r, pid);
        assert(!hit(s[s.len() - 1], r, pid));
        assert(s.drop_last().push(s.last()) =~= s);
        assert(unmapped_one(s.last(), r, pid) =~= Seq::<VMAreaView>::empty());
        assert(Seq::<VMAreaView>::empty() + Seq::<VMAreaView>::empty() =~= Seq::<VMAreaView>::empty());
    }
}

/// Unmapping, by the process that mapped it, exactly the range of an area that an mmap put
/// among the areas of a chunk takes that area away and leaves the others as they were: the
/// areas are those from before the mmap, and the area itself is what is unmapped.
#[verifier::spinoff_prover]
#[verifier::rlimit(30)]
pub proof fn law_unmap_undoes_map(s: Seq<VMAreaView>, k: int, v: VMAreaView, pid: pid_t, lo: int, hi: int)
    requires
        0 <= k <= s.len(),
        areas_ok(s.insert(k, v), lo, hi),
        v.access == AccessView::Private(pid),
    ensures
        unmap_areas(s.insert(k, v), v.range, pid) == s,
        unmapped_areas(s.insert(k, v), v.range, pid) == seq![v],
{
    let t = s.insert(k, v);
    let pre = s.subrange(0, k);
    let post = s.subrange(k, s.len() as int);
    assert(t =~= pre + seq![v] + post);
    assert(t[k] == v);
    assert(area_ok(v, lo, hi));
    let rs = area_ranges(t);
    assert forall|j: int| 0 <= j < pre.len() implies !hit(#[trigger] pre[j], v.range, pid) by {
        assert(pre[j] == t[j]);
        assert(rs[j].end <= rs[k].start);
    }
    assert forall|j: int| 0 <= j < post.len() implies !hit(#[trigger] post[j], v.range, pid) by {
        assert(post[j] == t[k + 1 + j]);
        assert(rs[k].end <= rs[k + 1 + j].start);
    }
    lemma_unmap_untouched(pre, v.range, pid);
    lemma_unmap_untouched(post, v.range, pid);
    lemma_unmap_concat(pre + seq![v], post, v.range, pid);
    lemma_unmap_concat(pre, seq![v], v.range, pid);
    assert(seq![v].drop_last() =~= Seq::<VMAreaView>::empty());
    assert(seq![v].last() == v);
    assert(hit(v, v.range, pid));
    assert(overlap(v.range, v.range) == v.range);
    lemma_subtract_spec(v.range, v.range);
    assert(subtract_spec(v.range, v.range) =~= Seq::<VMRange>::empty());
    assert(unmap_one(v, v.range, pid) =~= Seq::<VMAreaView>::empty());
    assert(cut(v, v.range) == v) by {
        if let Some(f) = v.file_backed {
            assert(VMArea::shifted_file(v.file_backed, v.range.start, v.range.start) == Some(f));
        }
    }
    assert(unmap_areas(seq![v].drop_last(), v.range, pid) == Seq::<VMAreaView>::empty());
    assert(unmapped_areas(seq![v].drop_last(), v.range, pid) == Seq::<VMAreaView>::empty());
    assert(unmapped_one(v, v.range, pid) == seq![v]);
    assert(unmap_areas(seq![v], v.range, pid) =~= Seq::<VMAreaView>::empty() + unmap_one(v, v.range, pid));
    assert(unmapped_areas(seq![v], v.range, pid) =~= Seq::<VMAreaView>::empty() + seq![v]);
    assert(pre + Seq::<VMAreaView>::empty() + post =~= s);
    assert(Seq::<VMAreaView>::empty() + seq![v] + Seq::<VMAreaView>::empty() =~= seq![v]);
}

/// The memory of a chunk: its range, the areas in use in address order, the free ranges, and
/// the total free size.
#[derive(Debug, Default)]
pub struct ChunkManager {
    range: VMRange,
    free_size: usize,
    vmas: Vec<VMArea>,
    free_manager: VMFreeSpaceManager,
}

impl ChunkManager {
    /// The range of the chunk.
    pub closed spec fn spec_range(&self) -> VMRange {
        self.range
    }

    /// The areas in use, in address order.
    pub closed spec fn areas(&self) -> Seq<VMAreaView> {
        self.vmas@.map_values(|v: VMArea| v@)
    }

    /// The free ranges, in address order.
    pub closed spec fn free_ranges(&self) -> Seq<VMRange> {
        self.free_manager.ranges()
    }

    /// The recorded free size.
    pub closed spec fn spec_free_size(&self) -> usize {
        self.free_size
    }

    /// The areas lie apart in address order inside the chunk, each nonempty and private; the
    /// free ranges are sorted and no two of them touch; every address of the chunk is either free or in an area, not
    /// both; and the free size is the total size of the free ranges.
    pub open spec fn wf(&self) -> bool {
        let lo = self.spec_range().start as int;
        let hi = self.spec_range().end as int;
        &&& self.spec_range().wf()
        &&& areas_ok(self.areas(), lo, hi)
        &&& ranges_sorted(self.free_ranges())
        &&& ranges_apart(self.free_ranges())
        &&& (lo < hi ==> ranges_nonempty(self.free_ranges()))
        &&& (lo == hi ==> self.free_ranges() == seq![self.spec_range()])
        &&& free_set(self.free_ranges()).disjoint(mapped_set(self.areas()))
        &&& free_set(self.free_ranges()).union(mapped_set(self.areas())) == self.spec_range().addrs()
        &&& self.spec_free_size() == sum_sizes(self.free_ranges())
    }

    /// The free ranges lie inside the chunk and add up to no more than its size.
    proof fn lemma_free_within(&self)
        requires
            self.wf(),
        ensures
            forall|i: int| 0 <= i < self.free_ranges().len() ==> self.spec_range().start <= (#[trigger] self.free_ranges()[i]).start
                && self.free_ranges()[i].end <= self.spec_range().end,
            sum_sizes(self.free_ranges()) <= self.spec_range().end - self.spec_range().start,
    {
        let lo = self.spec_range().start as int;
        let hi = self.spec_range().end as int;
        let t = self.free_ranges();
        if lo < hi {
            assert forall|a: int| #[trigger] in_ranges(t, a) implies lo <= a < hi by {
                assert(free_set(t).contains(a));
                assert(self.spec_range().addrs().contains(a));
            }
            lemma_sum_within(t, lo, hi);
        } else {
            crate::free_space_manager::lemma_single(self.spec_range());
        }
    }

    /// The chunk `[addr, addr + size)`, all free; both ends must be page aligned.
    pub fn from(addr: usize, size: usize) -> (r: Result<Self, Errno>)
        requires
            addr + size <= usize::MAX,
        ensures
            r is Err <==> addr % crate::vm_range::PAGE_SIZE != 0 || (addr + size) % (crate::vm_range::PAGE_SIZE as int) != 0,
            r is Err ==> r == Err::<Self, Errno>(Errno::EINVAL),
            r matches Ok(c) ==> {
                &&& c.wf()
                &&& c.spec_range() == VMRange { start: addr, end: (addr + size) as usize }
                &&& c.areas() == Seq::<VMAreaView>::empty()
                &&& c.free_ranges() == seq![c.spec_range()]
                &&& c.spec_free_size() == size
            },
    {
        let range = VMRange::new(addr, addr + size)?;
        let free_manager = VMFreeSpaceManager::new(range);
        let c = ChunkManager { range, free_size: range.size(), vmas: Vec::new(), free_manager };
        proof {
            crate::free_space_manager::lemma_single(range);
            assert(c.areas() =~= Seq::<VMAreaView>::empty());
            assert(area_ranges(c.areas()) =~= Seq::<VMRange>::empty());
            assert(free_set(c.free_ranges()) =~= range.addrs());
            assert(mapped_set(c.areas()) =~= Set::<int>::empty());
            assert(free_set(c.free_ranges()).union(mapped_set(c.areas())) =~= range.addrs());
        }
        Ok(c)
    }

    pub fn range(&self) -> (r: &VMRange)
        ensures
            *r == self.spec_range(),
    {
        &self.range
    }

    /// The areas in use, in address order.
    pub fn vmas(&self) -> (r: &Vec<VMArea>)
        ensures
            r@.map_values(|v: VMArea| v@) == self.areas(),
    {
        &self.vmas
    }

    pub fn free_size(&self) -> (r: &usize)
        ensures
            *r == self.spec_free_size(),
    {
        &self.free_size
    }

    /// Whether no area is in use.
    pub fn is_empty(&self) -> (r: bool)
        ensures
            r == (self.areas().len() == 0),
    {
        self.vmas.len() == 0
    }

    /// Unmap what process `current_pid` has in `range`: every area of that process that
    /// shares addresses with `range` loses them, and they become free. The unmapped parts are
    /// returned in address order, for their memory to be written back, reset and cleared.
    #[verifier::spinoff_prover]
    #[verifier::rlimit(30)]
    pub fn munmap_range(&mut self, range: VMRange, current_pid: pid_t) -> (r: Vec<VMArea>)
        requires
            old(self).wf(),
            range.wf(),
        ensures
            final(self).wf(),
            final(self).spec_range() == old(self).spec_range(),
            final(self).areas() == unmap_areas(old(self).areas(), range, current_pid),
            r@.map_values(|v: VMArea| v@) == unmapped_areas(old(self).areas(), range, current_pid),
            mapped_set(final(self).areas()) == mapped_set(old(self).areas()).difference(owned_in(old(self).areas(), range, current_pid)),
            free_set(final(self).free_ranges()) == free_set(old(self).free_ranges()).union(owned_in(old(self).areas(), range, current_pid)),
    {
        let ghost s0 = self.areas();
        let ghost f0 = self.free_ranges();
        let ghost lo = self.range.start as int;
        let ghost hi = self.range.end as int;
        proof {
            self.lemma_free_within();
        }
        let mut new_vmas: Vec<VMArea> = Vec::new();
        let mut removed: Vec<VMArea> = Vec::new();
        let n = self.vmas.len();
        let mut i: usize = 0;
        while i < n
            invariant
                n == self.vmas@.len(),
                s0 == self.vmas@.map_values(|v: VMArea| v@),
                self.range == old(self).range,
                lo == self.range.start,
                hi == self.range.end,
                self.range.wf(),
                range.wf(),
                areas_ok(s0, lo, hi),
                free_set(f0).disjoint(mapped_set(s0)),
                free_set(f0).union(mapped_set(s0)) == self.range.addrs(),
                0 <= i <= n,
                new_vmas@.map_values(|v: VMArea| v@) == unmap_areas(s0.subrange(0, i as int), range, current_pid),
                removed@.map_values(|v: VMArea| v@) == unmapped_areas(s0.subrange(0, i as int), range, current_pid),
                self.free_manager.wf(),
                ranges_apart(self.free_ranges()),
                lo < hi ==> ranges_nonempty(self.free_ranges()),
                lo == hi ==> self.free_ranges() == f0,
                free_set(self.free_ranges()) == free_set(f0).union(mapped_set(unmapped_areas(s0.subrange(0, i as int), range, current_pid))),
                self.free_size == sum_sizes(self.free_ranges()),
            decreases n - i,
        {
            let ghost v = s0[i as int];
            let ghost pre = s0.subrange(0, i as int);
            proof {
                assert(s0.subrange(0, i as int + 1).drop_last() =~= pre);
                assert(s0.subrange(0, i as int + 1).last() == v);
                assert(area_ok(v, lo, hi));
            }
            let vma = &self.vmas[i];
            let owned = vma.belong_to(current_pid);
            let vs = vma.start();
            let ve = vma.end();
            let s = if vs > range.start { vs } else { range.start };
            let e = if ve < range.end { ve } else { range.end };
            if owned && s < e {
                assert(hit(v, range, current_pid));
                let iv = match vma.intersect(&range) {
                    Some(iv) => iv,
                    None => {
                        assert(false);
                        return removed;
                    },
                };
                let ir = *iv.range();
                let mut pieces = vma.subtract(&ir);
                proof {
                    assert(ir == overlap(v.range, range));
                    assert(pieces@.map_values(|w: VMArea| w@) =~= cuts(v, subtract_spec(v.range, ir)));
                    assert(iv@ == cut(v, overlap(v.range, range)));
                    let cur = self.free_ranges();
                    assert forall|a: int| ir.has(a) implies !in_ranges(cur, a) by {
                        assert(area_ranges(s0)[i as int].has(a));
                        assert(mapped_set(s0).contains(a));
                        if in_ranges(cur, a) {
                            assert(free_set(cur).contains(a));
                            if !free_set(f0).contains(a) {
                                assert(mapped_set(unmapped_areas(pre, range, current_pid)).contains(a));
                                assert forall|j: int| 0 <= j < pre.len() implies (#[trigger] pre[j]).range.wf() by {
                                    assert(pre[j] == s0[j]);
                                    assert(area_ok(s0[j], lo, hi));
                                }
                                lemma_unmap_addrs(pre, range, current_pid, a);
                                let j = choose|j: int| 0 <= j < pre.len() && (#[trigger] pre[j]).range.has(a)
                                    && pre[j].access == AccessView::Private(current_pid) && range.has(a);
                                assert(pre[j] == s0[j]);
                                assert(area_ranges(s0)[j].end <= area_ranges(s0)[i as int].start);
                            }
                        }
                    }
                    assert(lo < hi);
                    lemma_disjoint_has_slot(cur, ir);
                }
                let _ = self.free_manager.add_range_back_to_free_manager(&ir);
                proof {
                    let t = self.free_ranges();
                    assert(mapped_set(unmapped_areas(s0.subrange(0, i as int + 1), range, current_pid))
                        =~= mapped_set(unmapped_areas(pre, range, current_pid)).union(ir.addrs())) by {
                        let up = unmapped_areas(pre, range, current_pid);
                        lemma_area_ranges_concat(up, seq![iv@]);
                        assert(area_ranges(seq![iv@]) =~= seq![ir]);
                        crate::free_space_manager::lemma_single(ir);
                        assert forall|a: int| #[trigger] in_ranges(area_ranges(up + seq![iv@]), a) <==> in_ranges(area_ranges(up), a) || ir.has(a) by {
                            lemma_in_ranges_concat(area_ranges(up), seq![ir], a);
                        }
                    }
                    assert forall|a: int| #[trigger] in_ranges(t, a) implies lo <= a < hi by {
                        assert(free_set(t).contains(a));
                        if !free_set(f0).contains(a) && !ir.has(a) {
                            let pu = unmapped_areas(pre, range, current_pid);
                            assert(mapped_set(pu).contains(a));
                            assert forall|j: int| 0 <= j < pre.len() implies (#[trigger] pre[j]).range.wf() by {
                                assert(pre[j] == s0[j]);
                                assert(area_ok(s0[j], lo, hi));
                            }
                            lemma_unmap_addrs(pre, range, current_pid, a);
                            let j = choose|j: int| 0 <= j < pre.len() && (#[trigger] pre[j]).range.has(a)
                                && pre[j].access == AccessView::Private(current_pid) && range.has(a);
                            assert(pre[j] == s0[j]);
                            assert(area_ok(s0[j], lo, hi));
                        }
                        if free_set(f0).contains(a) {
                            assert(self.range.addrs().contains(a));
                        }
                    }
                    lemma_sum_within(t, lo, hi);
                }
                self.free_size = self.free_size + (e - s);
                new_vmas.append(&mut pieces);
                removed.push(iv);
                proof {
                    assert(removed@.map_values(|w: VMArea| w@) =~= unmapped_areas(pre, range, current_pid).push(cut(v, overlap(v.range, range))));
                    assert(unmapped_one(v, range, current_pid) == seq![cut(v, overlap(v.range, range))]);
                    assert(unmapped_areas(pre, range, current_pid).push(cut(v, overlap(v.range, range)))
                        =~= unmapped_areas(pre, range, current_pid) + unmapped_one(v, range, current_pid));
                }
            } else {
                assert(!hit(v, range, current_pid));
                let keep = vma.duplicate();
                new_vmas.push(keep);
                proof {
                    assert(unmap_one(v, range, current_pid) == seq![v]);
                    assert(unmapped_one(v, range, current_pid) =~= Seq::<VMAreaView>::empty());
                    assert(unmapped_areas(s0.subrange(0, i as int + 1), range, current_pid)
                        =~= unmapped_areas(pre, range, current_pid));
                }
            }
            i = i + 1;
        }
        proof {
            assert(s0.subrange(0, n as int) =~= s0);
            lemma_unmap_sorted(s0, range, current_pid, lo, hi);
            lemma_unmap_sets(s0, range, current_pid, lo, hi);
        }
        self.vmas = new_vmas;
        proof {
            let rset = owned_in(s0, range, current_pid);
            let m0 = mapped_set(s0);
            assert(free_set(self.free_ranges()) =~= free_set(f0).union(rset));
            assert(mapped_set(self.areas()) =~= m0.difference(rset));
            assert(free_set(self.free_ranges()).disjoint(mapped_set(self.areas())));
            assert(free_set(self.free_ranges()).union(mapped_set(self.areas())) =~= self.range.addrs()) by {
                assert forall|a: int| free_set(self.free_ranges()).union(mapped_set(self.areas())).contains(a)
                    <==> free_set(f0).union(m0).contains(a) by {
                    if rset.contains(a) {
                        assert(m0.contains(a));
                    }
                }
            }
        }
        removed
    }


    /// Unmap what process `current_pid` has in `[addr, addr + size)`, the size rounded up to
    /// pages; only the part inside the chunk counts. The address must be page aligned and the
    /// size nonzero.
    pub fn munmap(&mut self, addr: usize, size: usize, current_pid: pid_t) -> (r: Result<Vec<VMArea>, Errno>)
        requires
            old(self).wf(),
            size + PAGE_SIZE - 1 <= usize::MAX,
            addr + align_up_spec(size as int, PAGE_SIZE as int) <= usize::MAX,
        ensures
            final(self).wf(),
            final(self).spec_range() == old(self).spec_range(),
            r is Err <==> size == 0 || addr % PAGE_SIZE != 0,
            r is Err ==> r == Err::<Vec<VMArea>, Errno>(Errno::EINVAL) && final(self).areas() == old(self).areas()
                && final(self).free_ranges() == old(self).free_ranges(),
            r matches Ok(v) ==> {
                let sz = align_up_spec(size as int, PAGE_SIZE as int);
                &&& final(self).areas() == unmap_request(old(self).areas(), old(self).spec_range(), addr, sz, current_pid)
                &&& v@.map_values(|w: VMArea| w@) == unmapped_request(old(self).areas(), old(self).spec_range(), addr, sz, current_pid)
                &&& mapped_set(final(self).areas()) == mapped_set(old(self).areas()).difference(
                    owned_request(old(self).areas(), old(self).spec_range(), addr, sz, current_pid))
                &&& free_set(final(self).free_ranges()) == free_set(old(self).free_ranges()).union(
                    owned_request(old(self).areas(), old(self).spec_range(), addr, sz, current_pid))
            },
    {
        if size == 0 {
            return Err(Errno::EINVAL);
        }
        let size = align_up(size, PAGE_SIZE);
        proof {
            crate::vm_range::lemma_page_size_pow2();
            lemma_align_up(size as int, PAGE_SIZE as int);
        }
        let munmap_range = VMRange::new(addr, addr + size)?;
        let eff = match munmap_range.intersect(&self.range) {
            None => {
                proof {
                    assert(owned_request(self.areas(), self.range, addr, size as int, current_pid) =~= Set::<int>::empty());
                    assert(free_set(self.free_ranges()).union(Set::<int>::empty()) =~= free_set(self.free_ranges()));
                    assert(mapped_set(self.areas()).difference(Set::<int>::empty()) =~= mapped_set(self.areas()));
                }
                return Ok(Vec::new());
            },
            Some(e) => e,
        };
        if eff.empty() {
            proof {
                assert(owned_request(self.areas(), self.range, addr, size as int, current_pid) =~= Set::<int>::empty());
                assert(free_set(self.free_ranges()).union(Set::<int>::empty()) =~= free_set(self.free_ranges()));
                assert(mapped_set(self.areas()).difference(Set::<int>::empty()) =~= mapped_set(self.areas()));
            }
            return Ok(Vec::new());
        }
        proof {
            assert(eff == overlap(munmap_range, self.range));
        }
        Ok(self.munmap_range(eff, current_pid))
    }

    /// Put the area `vma`, which shares no address with the areas in use, among them in
    /// address order.
    #[verifier::spinoff_prover]
    #[verifier::rlimit(30)]
    fn insert_area(&mut self, vma: VMArea)
        requires
            areas_ok(old(self).areas(), old(self).spec_range().start as int, old(self).spec_range().end as int),
            area_ok(vma@, old(self).spec_range().start as int, old(self).spec_range().end as int),
            forall|a: int| vma@.range.has(a) ==> !mapped_set(old(self).areas()).contains(a),
        ensures
            areas_ok(final(self).areas(), old(self).spec_range().start as int, old(self).spec_range().end as int),
            exists|k: int| 0 <= k <= old(self).areas().len() && final(self).areas() == old(self).areas().insert(k, vma@),
            mapped_set(final(self).areas()) == mapped_set(old(self).areas()).union(vma@.range.addrs()),
            final(self).spec_range() == old(self).spec_range(),
            final(self).free_ranges() == old(self).free_ranges(),
            final(self).spec_free_size() == old(self).spec_free_size(),
    {
        let ghost s0 = self.areas();
        let ghost lo = self.range.start as int;
        let ghost hi = self.range.end as int;
        let ghost v = vma@;
        let vstart = vma.start();
        let mut k: usize = 0;
        while k < self.vmas.len() && self.vmas[k].start() < vstart
            invariant
                s0 == self.vmas@.map_values(|w: VMArea| w@),
                k <= s0.len(),
                vstart == v.range.start,
                forall|j: int| 0 <= j < k ==> (#[trigger] s0[j]).range.start < v.range.start,
            decreases s0.len() - k,
        {
            k = k + 1;
        }
        let ghost rs = area_ranges(s0);
        proof {
            assert(s0 == old(self).areas());
            assert forall|j: int| 0 <= j < k implies (#[trigger] rs[j]).end <= v.range.start by {
                assert(area_ok(s0[j], lo, hi));
                assert(rs[j] == s0[j].range);
                assert(s0[j].range.start < v.range.start);
                assert(v.range.has(v.range.start as int));
                if rs[j].end > v.range.start {
                    assert(rs[j].has(v.range.start as int));
                    assert(mapped_set(s0).contains(v.range.start as int));
                }
            }
            assert forall|j: int| k <= j < s0.len() implies v.range.end <= (#[trigger] rs[j]).start by {
                assert(area_ok(s0[j], lo, hi));
                assert(rs[j] == s0[j].range);
                assert(rs[k as int] == s0[k as int].range);
                assert(s0[k as int].range.start >= v.range.start);
                if j > k {
                    assert(area_ok(s0[k as int], lo, hi));
                    assert(rs[k as int].end <= rs[j].start);
                }
                if rs[j].start < v.range.end {
                    assert(v.range.has(rs[j].start as int));
                    assert(rs[j].has(rs[j].start as int));
                    assert(mapped_set(s0).contains(rs[j].start as int));
                }
            }
        }
        self.vmas.insert(k, vma);
        proof {
            let s1 = self.areas();
            assert(s1 =~= s0.insert(k as int, v));
            let r1 = area_ranges(s1);
            assert(r1 =~= rs.insert(k as int, v.range));
            assert forall|j: int| 0 <= j < s1.len() implies area_ok(#[trigger] s1[j], lo, hi) by {
                if j < k {
                    assert(s1[j] == s0[j]);
                } else if j > k {
                    assert(s1[j] == s0[j - 1]);
                }
            }
            assert forall|x: int, y: int| 0 <= x < y < r1.len() implies (#[trigger] r1[x]).end <= (#[trigger] r1[y]).start by {
                if y < k {
                    assert(r1[x] == rs[x] && r1[y] == rs[y]);
                } else if y == k {
                    assert(r1[x] == rs[x]);
                } else if x < k {
                    assert(r1[x] == rs[x] && r1[y] == rs[y - 1]);
                    assert(area_ok(s0[x], lo, hi));
                } else if x == k {
                    assert(r1[y] == rs[y - 1]);
                } else {
                    assert(r1[x] == rs[x - 1] && r1[y] == rs[y - 1]);
                }
            }
            assert forall|j: int| 0 <= j < r1.len() implies (#[trigger] r1[j]).wf() by {
                assert(area_ok(s1[j], lo, hi));
            }
            assert forall|a: int| mapped_set(s1).contains(a) <==> mapped_set(s0).union(v.range.addrs()).contains(a) by {
                if in_ranges(r1, a) {
                    let j = choose|j: int| 0 <= j < r1.len() && (#[trigger] r1[j]).has(a);
                    if j < k {
                        assert(r1[j] == rs[j]);
                    } else if j > k {
                        assert(r1[j] == rs[j - 1]);
                    }
                }
                if in_ranges(rs, a) {
                    let j = choose|j: int| 0 <= j < rs.len() && (#[trigger] rs[j]).has(a);
                    if j < k {
                        assert(r1[j] == rs[j]);
                    } else {
                        assert(r1[j + 1] == rs[j]);
                    }
                }
                if v.range.has(a) {
                    assert(r1[k as int] == v.range);
                }
            }
        }
    }


    /// Take a free range for an mmap with `options` by process `current_pid`, without any
    /// forced unmap, and make it an area.
    #[verifier::spinoff_prover]
    fn map_free(&mut self, options: &VMMapOptions, current_pid: pid_t) -> (r: Result<VMRange, Errno>)
        requires
            old(self).wf(),
            options.wf(),
            old(self).spec_range().end + options.spec_align() + options.spec_size() <= usize::MAX,
            options.spec_file_backed() matches Some(f) ==> f.offset + old(self).spec_range().spec_size() <= usize::MAX,
        ensures
            final(self).wf(),
            final(self).spec_range() == old(self).spec_range(),
            find_result(old(self).free_ranges(), final(self).free_ranges(),
                options.spec_size() as int, options.spec_align() as int, options.spec_addr(), 0, r),
            r is Err ==> final(self).areas() == old(self).areas(),
            r matches Ok(v) ==> {
                &&& exists|k: int| 0 <= k <= old(self).areas().len() && final(self).areas() == old(self).areas().insert(k, mmap_area(*options, v, current_pid))
                &&& mapped_set(final(self).areas()) == mapped_set(old(self).areas()).union(v.addrs())
                &&& free_set(final(self).free_ranges()) == free_set(old(self).free_ranges()).difference(v.addrs())
            },
    {
        let addr = *options.addr();
        let size = *options.size();
        let align = *options.align();
        let ghost f1 = self.free_ranges();
        let ghost lo = self.range.start as int;
        let ghost hi = self.range.end as int;
        proof {
            self.lemma_free_within();
            assert forall|i: int| 0 <= i < f1.len() implies (#[trigger] f1[i]).end + (align + size) <= usize::MAX by {
                assert(self.free_ranges()[i].end <= hi);
            }
        }
        let new_range = self.free_manager.find_free_range(size, align, addr)?;
        let ghost i = choose|i: int| 0 <= i < f1.len() && f1[i].start <= new_range.start && new_range.end <= f1[i].end
            && self.free_manager.ranges() == take_out(f1, i, new_range);
        proof {
            let t = self.free_manager.ranges();
            lemma_take_out(f1, i, new_range);
            assert(f1[i].start < f1[i].end);
            assert(lo < hi) by {
                if lo == hi {
                    assert(f1 == seq![self.range]);
                }
            }
            assert(self.range.start <= f1[i].start && f1[i].end <= self.range.end);
            if t.len() > 0 {
                lemma_sum_bound(t);
            }
        }
        let new_vma = VMArea::new(new_range, *options.perms(), options.file_backed(), current_pid);
        self.free_size = self.free_size - size;
        proof {
            assert forall|x: int| new_range.has(x) implies !mapped_set(self.areas()).contains(x) by {
                assert(f1[i].has(x));
                assert(in_ranges(f1, x));
                assert(free_set(f1).contains(x));
            }
            assert(new_vma@ == mmap_area(*options, new_range, current_pid));
        }
        self.insert_area(new_vma);
        proof {
            let fs = free_set(self.free_ranges());
            let ms = mapped_set(self.areas());
            assert forall|x: int| new_range.has(x) implies free_set(f1).contains(x) by {
                assert(f1[i].has(x));
            }
            assert(fs.disjoint(ms));
            assert(fs.union(ms) =~= self.range.addrs()) by {
                assert forall|x: int| fs.union(ms).contains(x) <==> free_set(f1).union(mapped_set(old(self).areas())).contains(x) by {
                }
            }
        }
        Ok(new_range)
    }

    /// What `mmap` of `options` for process `pid` does to the chunk `c0`, leaving `c1` and
    /// returning `r`.
    pub open spec fn mmap_done(c0: ChunkManager, c1: ChunkManager, options: VMMapOptions, pid: pid_t,
        r: Result<(VMRange, Vec<VMArea>), Errno>) -> bool {
        let bad_force = options.spec_addr() matches VMMapAddr::Force(a) && a % PAGE_SIZE != 0;
        &&& c1.spec_range() == c0.spec_range()
        &&& bad_force ==> r == Err::<(VMRange, Vec<VMArea>), Errno>(Errno::EINVAL)
            && c1.areas() == c0.areas() && c1.free_ranges() == c0.free_ranges()
        &&& !(options.spec_addr() is Force) ==> find_result(c0.free_ranges(), c1.free_ranges(),
            options.spec_size() as int, options.spec_align() as int, options.spec_addr(), 0, range_of(r))
        &&& options.spec_addr() matches VMMapAddr::Force(a) ==> (a % PAGE_SIZE == 0 ==> (r is Ok <==>
            forall|x: int| a <= x < a + options.spec_size() ==> #[trigger] free_set(c0.free_ranges()).union(
                mmap_freed(c0.areas(), c0.spec_range(), options, pid)).contains(x)))
        &&& (r is Err && !bad_force) ==> {
            &&& r == Err::<(VMRange, Vec<VMArea>), Errno>(Errno::ENOMEM)
            &&& c1.areas() == mmap_mid(c0.areas(), c0.spec_range(), options, pid)
            &&& free_set(c1.free_ranges()) == free_set(c0.free_ranges()).union(
                mmap_freed(c0.areas(), c0.spec_range(), options, pid))
        }
        &&& r matches Ok((v, u)) ==> {
            let mid = mmap_mid(c0.areas(), c0.spec_range(), options, pid);
            &&& v.end - v.start == options.spec_size()
            &&& (options.spec_addr() matches VMMapAddr::Force(a) ==> v.start == a)
            &&& u@.map_values(|w: VMArea| w@) == match options.spec_addr() {
                VMMapAddr::Force(a) => unmapped_request(c0.areas(), c0.spec_range(), a, options.spec_size() as int, pid),
                _ => Seq::<VMAreaView>::empty(),
            }
            &&& exists|k: int| 0 <= k <= mid.len() && c1.areas() == mid.insert(k, mmap_area(options, v, pid))
            &&& mapped_set(c1.areas()) == mapped_set(mid).union(v.addrs())
            &&& free_set(c1.free_ranges()) == free_set(c0.free_ranges()).union(
                mmap_freed(c0.areas(), c0.spec_range(), options, pid)).difference(v.addrs())
        }
    }

    /// Map `options.size` bytes for process `current_pid`, placed as `options.addr` asks: a
    /// forced address is unmapped first. Returns the new range, whose memory is still to be
    /// filled, and the parts that the forced unmap took away.
    pub fn mmap(&mut self, options: &VMMapOptions, current_pid: pid_t) -> (r: Result<(VMRange, Vec<VMArea>), Errno>)
        requires
            old(self).wf(),
            options.wf(),
            old(self).spec_range().end + options.spec_align() + options.spec_size() <= usize::MAX,
            options.spec_addr() matches VMMapAddr::Force(a) ==> a + options.spec_size() <= usize::MAX,
            options.spec_file_backed() matches Some(f) ==> f.offset + old(self).spec_range().spec_size() <= usize::MAX,
        ensures
            final(self).wf(),
            Self::mmap_done(*old(self), *final(self), *options, current_pid, r),
    {
        let addr = *options.addr();
        let size = *options.size();
        let ghost a0 = self.areas();
        let ghost f0 = self.free_ranges();
        proof {
            crate::vm_range::lemma_page_size_pow2();
            lemma_page_multiple_room(size);
            lemma_align_up(size as int, PAGE_SIZE as int);
        }
        let mut unmapped: Vec<VMArea> = Vec::new();
        match addr {
            VMMapAddr::Force(a) => {
                unmapped = self.munmap(a, size, current_pid)?;
            },
            _ => {
                proof {
                    assert(unmapped@.map_values(|w: VMArea| w@) =~= Seq::<VMAreaView>::empty());
                    assert(mmap_freed(a0, self.range, *options, current_pid) =~= Set::<int>::empty());
                    assert(free_set(f0).union(Set::<int>::empty()) =~= free_set(f0));
                }
            },
        }
        proof {
            assert(self.areas() == mmap_mid(a0, self.range, *options, current_pid));
            assert(free_set(self.free_ranges()) == free_set(f0).union(mmap_freed(a0, self.range, *options, current_pid)));
        }
        let ghost fm = self.free_ranges();
        let res = self.map_free(options, current_pid);
        proof {
            if let VMMapAddr::Force(a) = addr {
                lemma_run_in_one_range(fm, a as int, a + size);
                assert forall|x: int| #[trigger] in_ranges(fm, x) <==> free_set(f0).union(
                    mmap_freed(a0, self.range, *options, current_pid)).contains(x) by {
                    assert(free_set(fm).contains(x) == in_ranges(fm, x));
                }
            }
        }
        let new_range = res?;
        Ok((new_range, unmapped))
    }

    /// Give process `current_pid`'s memory in `[addr, addr + size)` the permissions
    /// `new_perms`: each of its areas there with other permissions is split so that the part
    /// inside gets them. Returns the ranges whose permissions changed, in address order, for
    /// the new permissions to be applied to the memory. Both ends must be page aligned, and the
    /// range must not start below the chunk.
    #[verifier::spinoff_prover]
    #[verifier::rlimit(30)]
    pub fn mprotect(&mut self, addr: usize, size: usize, new_perms: VMPerms, current_pid: pid_t) -> (r: Result<Vec<VMRange>, Errno>)
        requires
            old(self).wf(),
            addr + size <= usize::MAX,
        ensures
            final(self).wf(),
            final(self).spec_range() == old(self).spec_range(),
            final(self).free_ranges() == old(self).free_ranges(),
            final(self).spec_free_size() == old(self).spec_free_size(),
            r is Err <==> addr % PAGE_SIZE != 0 || (addr + size) % (PAGE_SIZE as int) != 0 || addr < old(self).spec_range().start,
            r is Err ==> final(self).areas() == old(self).areas(),
            (addr % PAGE_SIZE != 0 || (addr + size) % (PAGE_SIZE as int) != 0) ==> r == Err::<Vec<VMRange>, Errno>(Errno::EINVAL),
            (addr % PAGE_SIZE == 0 && (addr + size) % (PAGE_SIZE as int) == 0 && addr < old(self).spec_range().start)
                ==> r == Err::<Vec<VMRange>, Errno>(Errno::ENOMEM),
            r matches Ok(v) ==> {
                let pr = VMRange { start: addr, end: (addr + size) as usize };
                &&& final(self).areas() == flat_areas(old(self).areas(), protect_fn(pr, new_perms, current_pid))
                &&& v@ == flat_ranges(old(self).areas(), protected_fn(pr, new_perms, current_pid))
                &&& mapped_set(final(self).areas()) == mapped_set(old(self).areas())
            },
    {
        let protect_range = VMRange::new_with_size(addr, size)?;
        if addr < self.range.start() {
            return Err(Errno::ENOMEM);
        }
        let ghost s0 = self.areas();
        let ghost lo = self.range.start as int;
        let ghost hi = self.range.end as int;
        let ghost f = protect_fn(protect_range, new_perms, current_pid);
        let ghost g = protected_fn(protect_range, new_perms, current_pid);
        let mut new_vmas: Vec<VMArea> = Vec::new();
        let mut changed: Vec<VMRange> = Vec::new();
        let n = self.vmas.len();
        let mut i: usize = 0;
        while i < n
            invariant
                n == self.vmas@.len(),
                s0 == self.vmas@.map_values(|v: VMArea| v@),
                areas_ok(s0, lo, hi),
                protect_range.wf(),
                f == protect_fn(protect_range, new_perms, current_pid),
                g == protected_fn(protect_range, new_perms, current_pid),
                0 <= i <= n,
                new_vmas@.map_values(|v: VMArea| v@) == flat_areas(s0.subrange(0, i as int), f),
                changed@ == flat_ranges(s0.subrange(0, i as int), g),
            decreases n - i,
        {
            let ghost v = s0[i as int];
            let ghost pre = s0.subrange(0, i as int);
            proof {
                assert(s0.subrange(0, i as int + 1).drop_last() =~= pre);
                assert(s0.subrange(0, i as int + 1).last() == v);
                assert(area_ok(v, lo, hi));
                assert(f(v) == protect_one(v, protect_range, new_perms, current_pid));
                assert(g(v) == protected_one(v, protect_range, new_perms, current_pid));
            }
            let vma = &self.vmas[i];
            let owned = vma.belong_to(current_pid);
            let perms = vma.perms();
            let vs = vma.start();
            let ve = vma.end();
            let s = if vs > protect_range.start { vs } else { protect_range.start };
            let e = if ve < protect_range.end { ve } else { protect_range.end };
            if owned && perms != new_perms && s < e {
                let o = VMRange { start: s, end: e };
                let ghost ps: Seq<VMAreaView> = protect_one(v, protect_range, new_perms, current_pid);
                let mut parts: Vec<VMArea> = Vec::new();
                if vs < s {
                    let left = VMArea::inherits_file_from(vma, VMRange { start: vs, end: s }, perms, vma.access().duplicate());
                    parts.push(left);
                }
                let mid = VMArea::inherits_file_from(vma, o, new_perms, vma.access().duplicate());
                parts.push(mid);
                if e < ve {
                    let right = VMArea::inherits_file_from(vma, VMRange { start: e, end: ve }, perms, vma.access().duplicate());
                    parts.push(right);
                }
                proof {
                    assert(parts@.map_values(|w: VMArea| w@) =~= ps);
                }
                new_vmas.append(&mut parts);
                changed.push(o);
                proof {
                    assert(changed@ =~= flat_ranges(pre, g) + g(v));
                }
            } else {
                new_vmas.push(vma.duplicate());
                proof {
                    assert(changed@ =~= flat_ranges(pre, g) + g(v));
                }
            }
            proof {
                assert(new_vmas@.map_values(|w: VMArea| w@) =~= flat_areas(pre, f) + f(v));
            }
            i = i + 1;
        }
        proof {
            assert(s0.subrange(0, n as int) =~= s0);
            assert forall|j: int| 0 <= j < s0.len() implies parts_ok(s0[j], #[trigger] f(s0[j]), lo, hi) by {
                assert(area_ok(s0[j], lo, hi));
                lemma_protect_one(s0[j], protect_range, new_perms, current_pid, lo, hi);
            }
            lemma_flat_sorted(s0, f, lo, hi);
            assert forall|a: int| mapped_set(flat_areas(s0, f)).contains(a) <==> mapped_set(s0).contains(a) by {
                lemma_flat_addrs(s0, f, a);
                if mapped_set(flat_areas(s0, f)).contains(a) {
                    let j = choose|j: int| 0 <= j < s0.len() && #[trigger] in_ranges(area_ranges(f(s0[j])), a);
                    assert(area_ok(s0[j], lo, hi));
                    lemma_protect_one(s0[j], protect_range, new_perms, current_pid, lo, hi);
                    assert(area_ranges(s0)[j].has(a));
                }
                if mapped_set(s0).contains(a) {
                    let j = choose|j: int| 0 <= j < area_ranges(s0).len() && (#[trigger] area_ranges(s0)[j]).has(a);
                    assert(area_ok(s0[j], lo, hi));
                    lemma_protect_one(s0[j], protect_range, new_perms, current_pid, lo, hi);
                    assert(in_ranges(area_ranges(f(s0[j])), a));
                }
            }
            assert(mapped_set(flat_areas(s0, f)) =~= mapped_set(s0));
        }
        self.vmas = new_vmas;
        Ok(changed)
    }


    /// Merge each run of neighbouring areas that can become one.
    #[verifier::spinoff_prover]
    #[verifier::rlimit(30)]
    fn merge_all_vmas(&mut self)
        requires
            old(self).wf(),
        ensures
            final(self).wf(),
            final(self).areas() == merge_areas(old(self).areas()),
            mapped_set(final(self).areas()) == mapped_set(old(self).areas()),
            final(self).spec_range() == old(self).spec_range(),
            final(self).free_ranges() == old(self).free_ranges(),
            final(self).spec_free_size() == old(self).spec_free_size(),
    {
        let ghost s0 = self.areas();
        let ghost lo = self.range.start as int;
        let ghost hi = self.range.end as int;
        let mut out: Vec<VMArea> = Vec::new();
        let n = self.vmas.len();
        let mut i: usize = 0;
        while i < n
            invariant
                n == self.vmas@.len(),
                s0 == self.vmas@.map_values(|v: VMArea| v@),
                areas_ok(s0, lo, hi),
                0 <= i <= n,
                out@.map_values(|v: VMArea| v@) == merge_areas(s0.subrange(0, i as int)),
            decreases n - i,
        {
            let ghost pre = s0.subrange(0, i as int);
            let ghost v = s0[i as int];
            proof {
                assert(s0.subrange(0, i as int + 1).drop_last() =~= pre);
                assert(s0.subrange(0, i as int + 1).last() == v);
                assert forall|j: int| 0 <= j < pre.len() implies area_ok(#[trigger] pre[j], lo, hi) by {
                    assert(pre[j] == s0[j]);
                }
                assert(ranges_sorted(area_ranges(pre))) by {
                    assert forall|x: int, y: int| 0 <= x < y < area_ranges(pre).len() implies
                        (#[trigger] area_ranges(pre)[x]).end <= (#[trigger] area_ranges(pre)[y]).start by {
                        assert(area_ranges(pre)[x] == area_ranges(s0)[x] && area_ranges(pre)[y] == area_ranges(s0)[y]);
                    }
                    assert forall|x: int| 0 <= x < area_ranges(pre).len() implies (#[trigger] area_ranges(pre)[x]).wf() by {
                        assert(area_ranges(pre)[x] == area_ranges(s0)[x]);
                    }
                }
                lemma_merge_areas(pre, lo, hi);
                assert(area_ok(v, lo, hi));
            }
            let vma = &self.vmas[i];
            let ol = out.len();
            let merge = if ol > 0 {
                proof {
                    assert(area_ok(merge_areas(pre)[ol - 1], lo, hi));
                }
                VMArea::can_merge_vmas(&out[ol - 1], vma)
            } else {
                false
            };
            if merge {
                let mut last = match out.pop() {
                    Some(l) => l,
                    None => {
                        assert(false);
                        return;
                    },
                };
                last.set_end(vma.end());
                out.push(last);
            } else {
                out.push(vma.duplicate());
            }
            proof {
                assert(out@.map_values(|w: VMArea| w@) =~= merge_areas(s0.subrange(0, i as int + 1)));
            }
            i = i + 1;
        }
        proof {
            assert(s0.subrange(0, n as int) =~= s0);
            lemma_merge_areas(s0, lo, hi);
        }
        self.vmas = out;
    }

    /// The range of the area of process `current_pid` that holds `addr`.
    pub fn find_mmap_region(&self, addr: usize, current_pid: pid_t) -> (r: Result<VMRange, Errno>)
        requires
            self.wf(),
        ensures
            r is Ok <==> exists|i: int| 0 <= i < self.areas().len() && (#[trigger] self.areas()[i]).range.has(addr as int)
                && self.areas()[i].access == AccessView::Private(current_pid),
            r is Err ==> r == Err::<VMRange, Errno>(Errno::ESRCH),
            r matches Ok(v) ==> exists|i: int| 0 <= i < self.areas().len() && (#[trigger] self.areas()[i]).range == v
                && v.has(addr as int),
    {
        let ghost s0 = self.areas();
        let n = self.vmas.len();
        let mut i: usize = 0;
        while i < n
            invariant
                n == self.vmas@.len(),
                s0 == self.vmas@.map_values(|v: VMArea| v@),
                self.wf(),
                s0 == self.areas(),
                forall|j: int| 0 <= j < i ==> !(#[trigger] s0[j]).range.has(addr as int),
            decreases n - i,
        {
            let vma = &self.vmas[i];
            if vma.range().contains(addr) {
                if vma.belong_to(current_pid) {
                    proof {
                        assert(area_ok(s0[i as int], self.range.start as int, self.range.end as int));
                    }
                    return Ok(*vma.range());
                }
                proof {
                    assert forall|j: int| 0 <= j < s0.len() && (#[trigger] s0[j]).range.has(addr as int)
                        implies s0[j].access != AccessView::Private(current_pid) by {
                        let rs = area_ranges(s0);
                        assert(rs[j].has(addr as int) && rs[i as int].has(addr as int));
                        assert(area_ok(s0[j], self.range.start as int, self.range.end as int));
                        assert(area_ok(s0[i as int], self.range.start as int, self.range.end as int));
                        if j != i {
                            if j < i {
                                assert(rs[j].end <= rs[i as int].start);
                            } else {
                                assert(rs[i as int].end <= rs[j].start);
                            }
                        }
                    }
                }
                return Err(Errno::ESRCH);
            }
            i = i + 1;
        }
        Err(Errno::ESRCH)
    }

    /// Whether one free range holds all of `request_range`.
    pub fn is_free_range(&self, request_range: &VMRange) -> (r: bool)
        ensures
            r == self.spec_is_free_range(*request_range),
    {
        self.free_manager.is_free_range(request_range)
    }

    /// Plan an mremap request of process `current_pid`: merge the areas that can become one,
    /// find the area of the process that holds the whole old range, and plan within it.
    #[verifier::spinoff_prover]
    #[verifier::rlimit(30)]
    pub fn parse_mremap_options(&mut self, options: &VMRemapOptions, current_pid: pid_t) -> (r: Result<VMRemapResult, Errno>)
        requires
            old(self).wf(),
            options.wf(),
            options.spec_old_addr() + options.spec_new_size() <= usize::MAX,
            options.spec_old_addr() + options.spec_old_size() <= usize::MAX,
            options.spec_flags() matches MRemapFlags::FixedAddr(na) ==> na + options.spec_new_size() <= usize::MAX,
        ensures
            final(self).wf(),
            final(self).areas() == merge_areas(old(self).areas()),
            final(self).spec_range() == old(self).spec_range(),
            final(self).free_ranges() == old(self).free_ranges(),
            final(self).spec_free_size() == old(self).spec_free_size(),
            ({
                let m = merge_areas(old(self).areas());
                let o = remap_old_range(*options);
                let found = exists|i: int| 0 <= i < m.len() && (#[trigger] m[i]).access == AccessView::Private(current_pid)
                    && m[i].range.start <= o.start && o.end <= m[i].range.end;
                &&& !found ==> r == Err::<VMRemapResult, Errno>(Errno::EFAULT)
                &&& found ==> exists|i: int| 0 <= i < m.len() && (#[trigger] m[i]).access == AccessView::Private(current_pid)
                    && m[i].range.start <= o.start && o.end <= m[i].range.end
                    && planned(old(self).free_ranges(), *options, m[i], r)
            }),
    {
        let old_addr = options.old_addr();
        let old_size = options.old_size();
        proof {
            crate::vm_range::lemma_page_size_pow2();
        }
        let old_range = match VMRange::new_with_size(old_addr, old_size) {
            Ok(r) => r,
            Err(e) => {
                assert(false);
                return Err(e);
            },
        };
        self.merge_all_vmas();
        let ghost m = self.areas();
        let n = self.vmas.len();
        let mut i: usize = 0;
        while i < n
            invariant
                n == self.vmas@.len(),
                m == self.vmas@.map_values(|v: VMArea| v@),
                m == self.areas(),
                m == merge_areas(old(self).areas()),
                self.range == old(self).range,
                self.free_ranges() == old(self).free_ranges(),
                self.free_size == old(self).free_size,
                self.wf(),
                options.wf(),
                options.spec_old_addr() + options.spec_new_size() <= usize::MAX,
                options.spec_old_addr() + options.spec_old_size() <= usize::MAX,
                options.spec_flags() matches MRemapFlags::FixedAddr(na) ==> na + options.spec_new_size() <= usize::MAX,
                old_range == remap_old_range(*options),
                forall|j: int| 0 <= j < i ==> !((#[trigger] m[j]).access == AccessView::Private(current_pid)
                    && m[j].range.start <= old_range.start && old_range.end <= m[j].range.end),
            decreases n - i,
        {
            let vma = &self.vmas[i];
            if vma.belong_to(current_pid) && vma.range().is_superset_of(&old_range) {
                proof {
                    assert(area_ok(m[i as int], self.range.start as int, self.range.end as int));
                    assert(m[i as int].access == AccessView::Private(current_pid));
                }
                let res = self.parse(options, vma);
                proof {
                    assert(planned(self.free_ranges(), *options, m[i as int], res));
                }
                return res;
            }
            i = i + 1;
        }
        Err(Errno::EFAULT)
    }

    /// Unmap every area of process `pid`, as when it exits; the areas are returned for their
    /// memory to be written back, reset and cleared.
    pub fn clean_vmas_with_pid(&mut self, pid: pid_t) -> (r: Vec<VMArea>)
        requires
            old(self).wf(),
        ensures
            final(self).wf(),
            final(self).spec_range() == old(self).spec_range(),
            final(self).areas() == unmap_areas(old(self).areas(), old(self).spec_range(), pid),
            r@.map_values(|v: VMArea| v@) == unmapped_areas(old(self).areas(), old(self).spec_range(), pid),
            mapped_set(final(self).areas()) == mapped_set(old(self).areas()).difference(owned_in(old(self).areas(), old(self).spec_range(), pid)),
            free_set(final(self).free_ranges()) == free_set(old(self).free_ranges()).union(owned_in(old(self).areas(), old(self).spec_range(), pid)),
    {
        let range = self.range;
        self.munmap_range(range, pid)
    }

    /// The parts of the areas inside `sync_range`, whose memory is to be written back to the
    /// files behind them; the range must lie inside the chunk.
    pub fn msync_by_range(&self, sync_range: &VMRange) -> (r: Result<Vec<VMArea>, Errno>)
        requires
            self.wf(),
        ensures
            r is Err <==> !(self.spec_range().start <= sync_range.start && sync_range.end <= self.spec_range().end),
            r is Err ==> r == Err::<Vec<VMArea>, Errno>(Errno::ENOMEM),
            r matches Ok(v) ==> v@.map_values(|w: VMArea| w@) == flat_areas(self.areas(), sync_fn(*sync_range)),
    {
        if !self.range.is_superset_of(sync_range) {
            return Err(Errno::ENOMEM);
        }
        let ghost s0 = self.areas();
        let ghost lo = self.range.start as int;
        let ghost hi = self.range.end as int;
        let ghost f = sync_fn(*sync_range);
        let mut out: Vec<VMArea> = Vec::new();
        let n = self.vmas.len();
        let mut i: usize = 0;
        while i < n
            invariant
                n == self.vmas@.len(),
                s0 == self.vmas@.map_values(|v: VMArea| v@),
                areas_ok(s0, lo, hi),
                f == sync_fn(*sync_range),
                0 <= i <= n,
                out@.map_values(|v: VMArea| v@) == flat_areas(s0.subrange(0, i as int), f),
            decreases n - i,
        {
            let ghost v = s0[i as int];
            let ghost pre = s0.subrange(0, i as int);
            proof {
                assert(s0.subrange(0, i as int + 1).drop_last() =~= pre);
                assert(s0.subrange(0, i as int + 1).last() == v);
                assert(area_ok(v, lo, hi));
                assert(f(v) == sync_one(v, *sync_range));
            }
            let vma = &self.vmas[i];
            let vs = vma.start();
            let ve = vma.end();
            let s = if vs > sync_range.start { vs } else { sync_range.start };
            let e = if ve < sync_range.end { ve } else { sync_range.end };
            if s < e {
                match vma.intersect(sync_range) {
                    Some(iv) => {
                        out.push(iv);
                    },
                    None => {
                        assert(false);
                    },
                }
            }
            proof {
                assert(out@.map_values(|w: VMArea| w@) =~= flat_areas(pre, f) + f(v));
            }
            i = i + 1;
        }
        proof {
            assert(s0.subrange(0, n as int) =~= s0);
        }
        Ok(out)
    }

    /// The areas that write back to `sync_file`, whose memory is to be written back to it.
    pub fn msync_by_file(&self, sync_file: &FileRef) -> (r: Vec<VMArea>)
        ensures
            r@.map_values(|w: VMArea| w@) == flat_areas(self.areas(), file_fn(*sync_file)),
    {
        let ghost s0 = self.areas();
        let ghost f = file_fn(*sync_file);
        let mut out: Vec<VMArea> = Vec::new();
        let n = self.vmas.len();
        let mut i: usize = 0;
        while i < n
            invariant
                n == self.vmas@.len(),
                s0 == self.vmas@.map_values(|v: VMArea| v@),
                f == file_fn(*sync_file),
                0 <= i <= n,
                out@.map_values(|v: VMArea| v@) == flat_areas(s0.subrange(0, i as int), f),
            decreases n - i,
        {
            let ghost v = s0[i as int];
            let ghost pre = s0.subrange(0, i as int);
            proof {
                assert(s0.subrange(0, i as int + 1).drop_last() =~= pre);
                assert(s0.subrange(0, i as int + 1).last() == v);
                assert(f(v) == file_one(v, *sync_file));
            }
            let vma = &self.vmas[i];
            match vma.writeback_file() {
                Some((file, _)) => {
                    if file.id == sync_file.id {
                        out.push(vma.duplicate());
                    }
                },
                None => {},
            }
            proof {
                assert(out@.map_values(|w: VMArea| w@) =~= flat_areas(pre, f) + f(v));
            }
            i = i + 1;
        }
        proof {
            assert(s0.subrange(0, n as int) =~= s0);
        }
        out
    }

}

impl VMRemapParser for ChunkManager {
    open spec fn spec_is_free_range(&self, request_range: VMRange) -> bool {
        free_holds(self.free_ranges(), request_range)
    }

    fn is_free_range(&self, request_range: &VMRange) -> (r: bool) {
        self.free_manager.is_free_range(request_range)
    }
}

/// Whether one of the free ranges `free` holds all of `r`.
pub open spec fn free_holds(free: Seq<VMRange>, r: VMRange) -> bool {
    exists|i: int| 0 <= i < free.len() && (#[trigger] free[i]).start <= r.start && r.end <= free[i].end
}

/// `r` is what planning the mremap request `o` inside the area `v` gives, over the free ranges
/// `free`.
pub open spec fn planned(free: Seq<VMRange>, o: VMRemapOptions, v: VMAreaView, r: Result<VMRemapResult, Errno>) -> bool {
    let vma_ret = remap_fails_spec(o, v);
    &&& (r is Err <==> vma_ret)
    &&& (r is Err ==> r == Err::<VMRemapResult, Errno>(Errno::EINVAL))
    &&& (r matches Ok(res) ==> {
        let free = free_holds(free, remap_preferred_range(o));
        let (mmap, ret) = remap_mmap_spec(o, v, free);
        &&& match (res.spec_mmap_options(), mmap) {
            (Some(opts), Some(req)) => opts.request() == req && opts.wf(),
            (None, None) => true,
            _ => false,
        }
        &&& res.spec_mmap_result_addr() == ret
        &&& res.spec_munmap_args() == remap_munmap_spec(o, ret)
        &&& res.spec_may_move() == (o.spec_flags() == MRemapFlags::MayMove)
    })
}

} // verus!
