//! The commit status of the pages of a range of enclave memory, one bit per page.
//!
//! A global tracker follows one page chunk of `PAGE_CHUNK_UNIT` bytes of the user space; a
//! VMA tracker follows the pages of one area. Committing pages sets their bits; once every bit
//! is set the tracker is fully committed.
use vstd::prelude::*;
use std::collections::HashMap;
use bitvec::vec::BitVec;
use crate::errno::Errno;
use crate::vm_epc::EPCMemType;
use crate::vm_range::{VMRange, PAGE_SIZE};
use crate::vm_perms::{VMPerms, VM_PERM_NONE, VM_PERM_READ, VM_PERM_WRITE, VM_PERM_EXEC};

verus! {

broadcast use vstd::std_specs::hash::group_hash_axioms;

/// A bit vector of the `bitvec` crate, one bit per page. Verus cannot take the declaration of
/// `BitVec` itself (its parameters are bound by traits of that crate), so it is held here, out
/// of Verus's sight, and handled only through the functions below.
#[verifier::external_body]
pub struct PageBits {
    bits: BitVec,
}

/// The bits of a bit vector, in order.
pub uninterp spec fn bitvec_bits(v: PageBits) -> Seq<bool>;

/// `BitVec::repeat`: a bit vector of `len` copies of `bit`.
#[verifier::external_body]
fn bits_repeat(bit: bool, len: usize) -> (r: PageBits)
    ensures
        bitvec_bits(r) == Seq::new(len as nat, |_i: int| bit),
{
    PageBits { bits: BitVec::repeat(bit, len) }
}

/// `BitVec::len`: the number of bits.
#[verifier::external_body]
fn bits_len(v: &PageBits) -> (r: usize)
    ensures
        r == bitvec_bits(*v).len(),
{
    v.bits.len()
}

/// Indexing a bit vector by a position below its length (it panics otherwise): that bit.
#[verifier::external_body]
fn bit_at(v: &PageBits, i: usize) -> (r: bool)
    requires
        i < bitvec_bits(*v).len(),
    ensures
        r == bitvec_bits(*v)[i as int],
{
    v.bits[i]
}

/// `BitSlice::set`, at a position below the length (it panics otherwise): that bit becomes
/// `value`, the others stay.
#[verifier::external_body]
fn bit_set(v: &mut PageBits, i: usize, value: bool)
    requires
        i < bitvec_bits(*old(v)).len(),
    ensures
        bitvec_bits(*final(v)) == bitvec_bits(*old(v)).update(i as int, value),
{
    v.bits.set(i, value)
}

/// `BitSlice::all`: whether every bit is set (true when there is none).
#[verifier::external_body]
fn bits_all(v: &PageBits) -> (r: bool)
    ensures
        r == (forall|i: int| 0 <= i < bitvec_bits(*v).len() ==> #[trigger] bitvec_bits(*v)[i]),
{
    v.bits.all()
}

/// `BitSlice::any`: whether some bit is set (false when there is none).
#[verifier::external_body]
fn bits_any(v: &PageBits) -> (r: bool)
    ensures
        r == (exists|i: int| 0 <= i < bitvec_bits(*v).len() && #[trigger] bitvec_bits(*v)[i]),
{
    v.bits.any()
}

/// `BitSlice::not_any`: whether no bit is set (true when there is none).
#[verifier::external_body]
fn bits_not_any(v: &PageBits) -> (r: bool)
    ensures
        r == (forall|i: int| 0 <= i < bitvec_bits(*v).len() ==> !#[trigger] bitvec_bits(*v)[i]),
{
    v.bits.not_any()
}

/// `BitSlice::fill`: every bit becomes `value`.
#[verifier::external_body]
fn bits_fill(v: &mut PageBits, value: bool)
    ensures
        bitvec_bits(*final(v)) == Seq::new(bitvec_bits(*old(v)).len(), |_i: int| value),
{
    v.bits.fill(value)
}

/// `BitVec::split_off`, at a position no larger than the length (it panics otherwise): the
/// bits from `at` on move into the returned vector.
#[verifier::external_body]
fn bits_split_off(v: &mut PageBits, at: usize) -> (r: PageBits)
    requires
        at <= bitvec_bits(*old(v)).len(),
    ensures
        bitvec_bits(*final(v)) == bitvec_bits(*old(v)).subrange(0, at as int),
        bitvec_bits(r) == bitvec_bits(*old(v)).subrange(at as int, bitvec_bits(*old(v)).len() as int),
{
    PageBits { bits: v.bits.split_off(at) }
}

/// `BitVec::truncate`: keep the first `new_len` bits, when there are more.
#[verifier::external_body]
fn bits_truncate(v: &mut PageBits, new_len: usize)
    ensures
        new_len < bitvec_bits(*old(v)).len() ==> bitvec_bits(*final(v)) == bitvec_bits(*old(v)).subrange(0, new_len as int),
        new_len >= bitvec_bits(*old(v)).len() ==> bitvec_bits(*final(v)) == bitvec_bits(*old(v)),
{
    v.bits.truncate(new_len)
}

/// The size of the memory that one global tracker follows.
pub const PAGE_CHUNK_UNIT: usize = 0x40_0000;
/// The number of pages that one global tracker follows.
pub const PAGE_CHUNK_PAGE_NUM: usize = 0x400;

/// The start of the page chunk that holds `addr`.
pub fn get_page_chunk_start_addr(addr: usize) -> (r: usize)
    ensures
        r == addr - addr % PAGE_CHUNK_UNIT,
{
    addr - addr % PAGE_CHUNK_UNIT
}

/// Whether a tracker follows a page chunk or an area.
#[derive(Clone, Copy, Debug, PartialEq, Eq, Structural)]
pub enum TrackerType {
    /// `PAGE_CHUNK_UNIT` bytes, for the global status of a page chunk.
    GlobalTracker,
    /// The pages of one area.
    VMATracker,
}

/// Whether every bit of `bits` is `b`.
pub open spec fn all_are(bits: Seq<bool>, b: bool) -> bool {
    forall|i: int| 0 <= i < bits.len() ==> #[trigger] bits[i] == b
}

/// `[s, e]` is a maximal run of `b` bits in `bits`.
pub open spec fn is_run(bits: Seq<bool>, b: bool, s: int, e: int) -> bool {
    &&& 0 <= s <= e < bits.len()
    &&& forall|k: int| s <= k <= e ==> #[trigger] bits[k] == b
    &&& (s == 0 || bits[s - 1] != b)
    &&& (e == bits.len() - 1 || bits[e + 1] != b)
}

/// The memory of the pages `s..=e` of a tracker starting at `start`.
pub open spec fn pages_range(start: int, s: int, e: int) -> VMRange {
    VMRange { start: (start + s * PAGE_SIZE) as usize, end: (start + (e + 1) * PAGE_SIZE) as usize }
}

/// The first page of `r` in a tracker starting at `st`.
pub open spec fn first_page(r: VMRange, st: int) -> int {
    (r.start - st) / PAGE_SIZE as int
}

/// The last page of `r` in a tracker starting at `st`.
pub open spec fn last_page(r: VMRange, st: int) -> int {
    (r.end - st) / PAGE_SIZE as int - 1
}

/// `r` is the memory of a maximal run of `b` bits in `bits`, in a tracker starting at `st`.
pub open spec fn is_run_range(r: VMRange, bits: Seq<bool>, b: bool, st: int) -> bool {
    &&& is_run(bits, b, first_page(r, st), last_page(r, st))
    &&& r == pages_range(st, first_page(r, st), last_page(r, st))
}

/// `r` lists, in address order, the memory of the maximal runs of `b` bits of a tracker over
/// `bits` starting at `st`.
pub open spec fn lists_runs(r: Seq<VMRange>, bits: Seq<bool>, b: bool, st: int) -> bool {
    &&& forall|i: int| 0 <= i < r.len() ==> is_run_range(#[trigger] r[i], bits, b, st)
    &&& forall|s: int, e: int| is_run(bits, b, s, e) ==> exists|i: int| 0 <= i < r.len() && #[trigger] r[i] == pages_range(st, s, e)
    &&& forall|i: int, j: int| 0 <= i < j < r.len() ==> (#[trigger] r[i]).end < (#[trigger] r[j]).start
}

/// The pages `s..=e` of a tracker that fits below the largest `usize` map back to `s` and `e`.
proof fn lemma_pages_range(st: int, s: int, e: int, n: int)
    requires
        0 <= s <= e < n,
        0 <= st,
        st + n * PAGE_SIZE <= usize::MAX,
    ensures
        pages_range(st, s, e).start == st + s * PAGE_SIZE,
        pages_range(st, s, e).end == st + (e + 1) * PAGE_SIZE,
        first_page(pages_range(st, s, e), st) == s,
        last_page(pages_range(st, s, e), st) == e,
{
    assert((s * PAGE_SIZE) / PAGE_SIZE as int == s);
    assert(((e + 1) * PAGE_SIZE) / PAGE_SIZE as int == e + 1);
}

/// After looking at the first `i` bits: `ret` lists the maximal runs of `b` bits that end
/// before the bit `i - 1`, in order, all before page `i`; a run may be open from `rs`, and
/// then the listed ones end before it.
#[verifier::opaque]
pub open spec fn runs_so_far(ret: Seq<VMRange>, bits: Seq<bool>, b: bool, st: int, i: int, in_run: bool, rs: int) -> bool {
    &&& (in_run ==> rs < i && (rs == 0 || bits[rs - 1] != b) && (forall|k: int| rs <= k < i ==> #[trigger] bits[k] == b))
    &&& (!in_run ==> (i == 0 || bits[i - 1] != b))
    &&& (forall|k: int| 0 <= k < ret.len() ==> is_run_range(#[trigger] ret[k], bits, b, st) && last_page(ret[k], st) + 1 < i)
    &&& (forall|s: int, e: int| is_run(bits, b, s, e) && e + 1 < i ==> exists|k: int| 0 <= k < ret.len()
        && #[trigger] ret[k] == pages_range(st, s, e))
    &&& (forall|x: int, y: int| 0 <= x < y < ret.len() ==> (#[trigger] ret[x]).end < (#[trigger] ret[y]).start)
    &&& (forall|k: int| 0 <= k < ret.len() ==> (#[trigger] ret[k]).end < st + i * PAGE_SIZE)
    &&& (in_run ==> forall|k: int| 0 <= k < ret.len() ==> (#[trigger] ret[k]).end < st + rs * PAGE_SIZE)
    &&& 0 <= rs
}

/// Bit `i` continues or opens a run.
proof fn lemma_runs_same(ret: Seq<VMRange>, bits: Seq<bool>, b: bool, st: int, i: int, in_run: bool, rs: int)
    requires
        runs_so_far(ret, bits, b, st, i, in_run, rs),
        0 <= i < bits.len(),
        bits[i] == b,
    ensures
        runs_so_far(ret, bits, b, st, i + 1, true, if in_run { rs } else { i }),
{
    reveal(runs_so_far);
    assert forall|s: int, e: int| is_run(bits, b, s, e) && e + 1 < i + 1 implies exists|k: int| 0 <= k < ret.len()
        && #[trigger] ret[k] == pages_range(st, s, e) by {
        assert(e + 1 != i);
    }
    let nrs = if in_run { rs } else { i };
    assert forall|k: int| nrs <= k < i + 1 implies #[trigger] bits[k] == b by {
        if k < i {
            assert(in_run);
        }
    }
}

/// Bit `i` closes the run open from `rs`.
proof fn lemma_runs_close(ret: Seq<VMRange>, bits: Seq<bool>, b: bool, st: int, i: int, rs: int)
    requires
        runs_so_far(ret, bits, b, st, i, true, rs),
        0 <= i < bits.len(),
        bits[i] != b,
        0 <= st,
        st + bits.len() * PAGE_SIZE <= usize::MAX,
    ensures
        runs_so_far(ret.push(pages_range(st, rs, i - 1)), bits, b, st, i + 1, false, rs),
        0 <= rs < i,
{
    reveal(runs_so_far);
    let nr = pages_range(st, rs, i - 1);
    let r2 = ret.push(nr);
    lemma_pages_range(st, rs, i - 1, bits.len() as int);
    assert(is_run(bits, b, rs, i - 1));
    assert forall|k: int| 0 <= k < r2.len() implies is_run_range(#[trigger] r2[k], bits, b, st) && last_page(r2[k], st) + 1 < i + 1 by {
        if k < ret.len() {
            assert(r2[k] == ret[k]);
        }
    }
    assert forall|s: int, e2: int| is_run(bits, b, s, e2) && e2 + 1 < i + 1 implies exists|k: int| 0 <= k < r2.len()
        && #[trigger] r2[k] == pages_range(st, s, e2) by {
        if e2 + 1 == i {
            if s < rs {
                assert(bits[rs - 1] == b);
            } else if s > rs {
                assert(bits[s - 1] == b);
            }
            assert(r2[ret.len() as int] == pages_range(st, s, e2));
        } else {
            let k = choose|k: int| 0 <= k < ret.len() && #[trigger] ret[k] == pages_range(st, s, e2);
            assert(r2[k] == ret[k]);
        }
    }
    assert forall|x: int, y: int| 0 <= x < y < r2.len() implies (#[trigger] r2[x]).end < (#[trigger] r2[y]).start by {
        assert(r2[x] == ret[x]);
        if y < ret.len() {
            assert(r2[y] == ret[y]);
        }
    }
    assert forall|k: int| 0 <= k < r2.len() implies (#[trigger] r2[k]).end < st + (i + 1) * PAGE_SIZE by {
        if k < ret.len() {
            assert(r2[k] == ret[k]);
        }
    }
}

/// Bit `i` is outside any run, and no run is open.
proof fn lemma_runs_idle(ret: Seq<VMRange>, bits: Seq<bool>, b: bool, st: int, i: int, rs: int)
    requires
        runs_so_far(ret, bits, b, st, i, false, rs),
        0 <= i < bits.len(),
        bits[i] != b,
    ensures
        runs_so_far(ret, bits, b, st, i + 1, false, rs),
{
    reveal(runs_so_far);
    assert forall|s: int, e: int| is_run(bits, b, s, e) && e + 1 < i + 1 implies exists|k: int| 0 <= k < ret.len()
        && #[trigger] ret[k] == pages_range(st, s, e) by {
        if e + 1 == i {
            assert(bits[e] == b);
        }
    }
}

/// After the last bit, the listed runs and the open one, if any, are all the runs.
proof fn lemma_runs_finish(ret: Seq<VMRange>, bits: Seq<bool>, b: bool, st: int, in_run: bool, rs: int)
    requires
        runs_so_far(ret, bits, b, st, bits.len() as int, in_run, rs),
        0 <= st,
        st + bits.len() * PAGE_SIZE <= usize::MAX,
    ensures
        in_run ==> lists_runs(ret.push(pages_range(st, rs, bits.len() - 1)), bits, b, st),
        !in_run ==> lists_runs(ret, bits, b, st),
        in_run ==> 0 <= rs < bits.len(),
{
    reveal(runs_so_far);
    let n = bits.len() as int;
    if in_run {
        let r2 = ret.push(pages_range(st, rs, n - 1));
        lemma_pages_range(st, rs, n - 1, n);
        assert(is_run(bits, b, rs, n - 1));
        assert forall|k: int| 0 <= k < r2.len() implies is_run_range(#[trigger] r2[k], bits, b, st) by {
            if k < ret.len() {
                assert(r2[k] == ret[k]);
            }
        }
        assert forall|s: int, e2: int| is_run(bits, b, s, e2) implies exists|k: int| 0 <= k < r2.len()
            && #[trigger] r2[k] == pages_range(st, s, e2) by {
            if e2 + 1 == n {
                if s < rs {
                    assert(bits[rs - 1] == b);
                } else if s > rs {
                    assert(bits[s - 1] == b);
                }
                assert(r2[ret.len() as int] == pages_range(st, s, e2));
            } else {
                let k = choose|k: int| 0 <= k < ret.len() && #[trigger] ret[k] == pages_range(st, s, e2);
                assert(r2[k] == ret[k]);
            }
        }
        assert forall|x: int, y: int| 0 <= x < y < r2.len() implies (#[trigger] r2[x]).end < (#[trigger] r2[y]).start by {
            assert(r2[x] == ret[x]);
            if y < ret.len() {
                assert(r2[y] == ret[y]);
            }
        }
    } else {
        assert forall|s: int, e: int| is_run(bits, b, s, e) implies exists|k: int| 0 <= k < ret.len()
            && #[trigger] ret[k] == pages_range(st, s, e) by {
            if e + 1 == n {
                assert(bits[e] == b);
            }
        }
    }
}

/// How much memory a page fault commits at once.
pub const COMMIT_SIZE_UNIT: usize = 0x1000;

/// After this many page faults an area is committed whole.
pub const PF_NUM_THRESHOLD: u64 = 3;

/// `r` cut down to `size` bytes from its start.
pub open spec fn resized(r: VMRange, size: int) -> VMRange {
    VMRange { start: r.start, end: (r.start + size) as usize }
}

/// The ranges to commit after `total` bytes were committed already: each range in turn,
/// the last one cut so that no more than `unit` bytes are committed in all.
pub open spec fn commit_rest(rs: Seq<VMRange>, total: int, unit: int) -> Seq<VMRange>
    decreases rs.len(),
{
    if rs.len() == 0 || total >= unit {
        seq![]
    } else {
        let r = rs[0];
        let r2 = if r.spec_size() + total > unit { resized(r, unit - total) } else { r };
        seq![r2] + commit_rest(rs.drop_first(), total + r2.spec_size(), unit)
    }
}

/// The ranges that a page fault at `pf_addr` commits, from the uncommitted ranges `rs`: from
/// the page of the fault to the end of its range, and on into the next ranges, `unit` bytes
/// in all at most; nothing when no uncommitted range holds the address.
pub open spec fn commit_plan(rs: Seq<VMRange>, pf_addr: usize, unit: int) -> Seq<VMRange> {
    if exists|i: int| 0 <= i < rs.len() && (#[trigger] rs[i]).has(pf_addr as int) {
        let i = choose|i: int| 0 <= i < rs.len() && (#[trigger] rs[i]).has(pf_addr as int);
        let first = VMRange { start: (pf_addr - pf_addr % PAGE_SIZE) as usize, end: rs[i].end };
        let first2 = if first.spec_size() < unit { first } else { resized(first, unit) };
        seq![first2] + commit_rest(rs.subrange(i + 1, rs.len() as int), first2.spec_size(), unit)
    } else {
        seq![]
    }
}

/// A page fault commits the page of the fault first: when an uncommitted range holds the
/// faulting address, the first range committed starts at that address rounded down to its
/// page and holds the address, so the access that faulted can go on.
pub proof fn law_fault_commit_starts_at_fault_page(rs: Seq<VMRange>, pf_addr: usize, unit: int)
    requires
        unit >= PAGE_SIZE,
    ensures
        (exists|j: int| 0 <= j < rs.len() && (#[trigger] rs[j]).has(pf_addr as int)) ==> {
            &&& commit_plan(rs, pf_addr, unit).len() > 0
            &&& commit_plan(rs, pf_addr, unit)[0].start == pf_addr - pf_addr % PAGE_SIZE
            &&& commit_plan(rs, pf_addr, unit)[0].has(pf_addr as int)
        },
{
    if exists|j: int| 0 <= j < rs.len() && (#[trigger] rs[j]).has(pf_addr as int) {
        let i = choose|i: int| 0 <= i < rs.len() && (#[trigger] rs[i]).has(pf_addr as int);
        let page = pf_addr - pf_addr % PAGE_SIZE;
        assert(page <= pf_addr < page + PAGE_SIZE);
        let first = VMRange { start: page as usize, end: rs[i].end };
        assert(first.start == page && first.end == rs[i].end);
        let first2 = if first.spec_size() < unit { first } else { resized(first, unit) };
        assert(commit_plan(rs, pf_addr, unit)[0] == first2);
    }
}

/// What to do about a page fault in an area.
#[derive(Clone, Copy, Debug, PartialEq, Eq, Structural)]
pub enum PageFaultAction {
    /// Another thread committed the whole area already.
    AlreadyCommitted,
    /// Commit every page of the area.
    CommitWhole,
    /// Commit up to `COMMIT_SIZE_UNIT` bytes from the page of the fault.
    CommitOnce,
}

/// What to do about a page fault at `pf_addr`, raised at instruction `rip`, for a write when
/// `is_write`, in an area with permissions `perms` whose pages are all committed when
/// `fully_committed`, of memory kind `mem_type`, after `pf_count` earlier faults: an access
/// that the permissions refuse is refused; reserved memory never faults; a fault raised by the
/// kernel, or after enough faults, commits the whole area.
pub fn handle_page_fault(perms: VMPerms, rip: usize, pf_addr: usize, is_write: bool, fully_committed: bool,
    mem_type: EPCMemType, kernel_triggers: bool, pf_count: u64) -> (r: Result<PageFaultAction, Errno>)
    ensures
        ({
            let denied = perms.bits == VM_PERM_NONE
                || (!is_write && !perms.has(VM_PERM_READ))
                || (is_write && !perms.has(VM_PERM_WRITE))
                || (rip == pf_addr && !perms.has(VM_PERM_EXEC));
            &&& denied ==> r == Err::<PageFaultAction, Errno>(Errno::EACCES)
            &&& (!denied && fully_committed) ==> r == Ok::<PageFaultAction, Errno>(PageFaultAction::AlreadyCommitted)
            &&& (!denied && !fully_committed && mem_type == EPCMemType::Reserved) ==> r == Err::<PageFaultAction, Errno>(Errno::EINVAL)
            &&& (!denied && !fully_committed && mem_type == EPCMemType::UserRegion) ==> r == Ok::<PageFaultAction, Errno>(
                if kernel_triggers || pf_count >= PF_NUM_THRESHOLD { PageFaultAction::CommitWhole } else { PageFaultAction::CommitOnce })
        }),
{
    if perms.bits() == VM_PERM_NONE || (!is_write && !perms.can_read()) {
        return Err(Errno::EACCES);
    }
    if is_write && !perms.can_write() {
        return Err(Errno::EACCES);
    }
    if rip == pf_addr && !perms.can_execute() {
        return Err(Errno::EACCES);
    }
    if fully_committed {
        return Ok(PageFaultAction::AlreadyCommitted);
    }
    if mem_type == EPCMemType::Reserved {
        return Err(Errno::EINVAL);
    }
    if kernel_triggers || pf_count >= PF_NUM_THRESHOLD {
        return Ok(PageFaultAction::CommitWhole);
    }
    Ok(PageFaultAction::CommitOnce)
}

/// `rs` is what `get_ranges(committed)` gives for the tracker `t`.
pub open spec fn ranges_of(t: PageTracker, committed: bool, rs: Seq<VMRange>) -> bool {
    &&& t@.fully_committed ==> rs == (if committed { seq![t@.range] } else { Seq::<VMRange>::empty() })
    &&& !t@.fully_committed && all_are(t@.bits, false) ==> rs == (if committed { Seq::<VMRange>::empty() } else { seq![t@.range] })
    &&& !t@.fully_committed && !all_are(t@.bits, false) ==> lists_runs(rs, t@.bits, committed, t@.range.start as int)
}

/// The ranges that a tracker gives lie apart, in address order.
proof fn lemma_ranges_of_apart(t: PageTracker, committed: bool, rs: Seq<VMRange>)
    requires
        t.wf(),
        ranges_of(t, committed, rs),
    ensures
        forall|x: int, y: int| 0 <= x < y < rs.len() ==> (#[trigger] rs[x]).end <= (#[trigger] rs[y]).start,
        forall|x: int| 0 <= x < rs.len() ==> (#[trigger] rs[x]).wf(),
{
    if !t@.fully_committed && !all_are(t@.bits, false) {
        assert forall|x: int| 0 <= x < rs.len() implies (#[trigger] rs[x]).wf() by {
            assert(is_run_range(rs[x], t@.bits, committed, t@.range.start as int));
            let s = first_page(rs[x], t@.range.start as int);
            let e = last_page(rs[x], t@.range.start as int);
            assert(s <= e);
            assert(rs[x] == pages_range(t@.range.start as int, s, e));
            assert(t@.range.start + s * PAGE_SIZE <= t@.range.start + (e + 1) * PAGE_SIZE);
            assert(t@.range.start + (e + 1) * PAGE_SIZE <= t@.range.start + t@.bits.len() * PAGE_SIZE);
        }
    }
}

/// In ranges that lie apart, the one holding an address is the only one.
proof fn lemma_unique_container(rs: Seq<VMRange>, i: int, a: int)
    requires
        0 <= i < rs.len(),
        rs[i].has(a),
        forall|x: int, y: int| 0 <= x < y < rs.len() ==> (#[trigger] rs[x]).end <= (#[trigger] rs[y]).start,
    ensures
        (choose|j: int| 0 <= j < rs.len() && (#[trigger] rs[j]).has(a)) == i,
{
    let j = choose|j: int| 0 <= j < rs.len() && (#[trigger] rs[j]).has(a);
    if j < i {
        assert(rs[j].end <= rs[i].start);
    } else if j > i {
        assert(rs[i].end <= rs[j].start);
    }
}

/// The mathematical value of a tracker.
pub struct PageTrackerView {
    pub type_: TrackerType,
    pub range: VMRange,
    pub bits: Seq<bool>,
    pub fully_committed: bool,
}

/// The commit status of the pages of a range.
pub struct PageTracker {
    type_: TrackerType,
    range: VMRange,
    inner: PageBits,
    fully_committed: bool,
}

impl View for PageTracker {
    type V = PageTrackerView;

    closed spec fn view(&self) -> PageTrackerView {
        PageTrackerView { type_: self.type_, range: self.range, bits: bitvec_bits(self.inner), fully_committed: self.fully_committed }
    }
}

impl PageTracker {
    /// One bit per page of the range, and a fully committed tracker has every bit set.
    pub open spec fn wf(&self) -> bool {
        &&& self@.range.wf()
        &&& self@.range.start % PAGE_SIZE == 0
        &&& self@.bits.len() * PAGE_SIZE == self@.range.spec_size()
        &&& self@.fully_committed ==> all_are(self@.bits, true)
    }

    /// A global tracker of the page chunk at `start_addr`, with no page committed yet.
    pub fn new_global_tracker(start_addr: usize) -> (r: Result<Self, Errno>)
        requires
            start_addr + PAGE_CHUNK_UNIT <= usize::MAX,
        ensures
            r is Err <==> start_addr % PAGE_SIZE != 0,
            r is Err ==> r == Err::<Self, Errno>(Errno::EINVAL),
            r matches Ok(t) ==> t.wf() && t@ == (PageTrackerView {
                type_: TrackerType::GlobalTracker,
                range: VMRange { start: start_addr, end: (start_addr + PAGE_CHUNK_UNIT) as usize },
                bits: Seq::new(PAGE_CHUNK_PAGE_NUM as nat, |_i: int| false),
                fully_committed: false,
            }),
    {
        let range = VMRange::new_with_size(start_addr, PAGE_CHUNK_UNIT)?;
        let inner = bits_repeat(false, PAGE_CHUNK_PAGE_NUM);
        Ok(PageTracker { type_: TrackerType::GlobalTracker, range, inner, fully_committed: false })
    }

    /// A tracker of the area `vm_range`: reserved memory is committed already; user region
    /// memory starts with no page committed, and learns from the global trackers what is.
    pub fn new_vma_tracker(vm_range: &VMRange, epc_type: &EPCMemType) -> (r: Self)
        requires
            vm_range.wf(),
            vm_range.start % PAGE_SIZE == 0,
            vm_range.spec_size() % (PAGE_SIZE as int) == 0,
        ensures
            r.wf(),
            r@.type_ == TrackerType::VMATracker,
            r@.range == *vm_range,
            r@.bits == Seq::new((vm_range.spec_size() / PAGE_SIZE as int) as nat, |_i: int| *epc_type == EPCMemType::Reserved),
            r@.fully_committed == (*epc_type == EPCMemType::Reserved),
    {
        let page_num = vm_range.size() / PAGE_SIZE;
        match epc_type {
            EPCMemType::UserRegion => {
                PageTracker { type_: TrackerType::VMATracker, range: *vm_range, inner: bits_repeat(false, page_num), fully_committed: false }
            },
            EPCMemType::Reserved => {
                PageTracker { type_: TrackerType::VMATracker, range: *vm_range, inner: bits_repeat(true, page_num), fully_committed: true }
            },
        }
    }

    pub fn range(&self) -> (r: &VMRange)
        ensures
            *r == self@.range,
    {
        &self.range
    }

    pub fn is_fully_committed(&self) -> (r: bool)
        ensures
            r == self@.fully_committed,
    {
        self.fully_committed
    }

    /// Whether no page is committed.
    pub fn is_reserved_only(&self) -> (r: bool)
        ensures
            r == (!self@.fully_committed && all_are(self@.bits, false)),
    {
        !self.fully_committed && bits_not_any(&self.inner)
    }

    /// Whether some pages, not all, are committed.
    pub fn is_partially_committed(&self) -> (r: bool)
        ensures
            r == (!self@.fully_committed && !all_are(self@.bits, false)),
    {
        if self.fully_committed {
            return false;
        }
        let any = bits_any(&self.inner);
        proof {
            if any {
                let i = choose|i: int| 0 <= i < self@.bits.len() && #[trigger] self@.bits[i];
                assert(self@.bits[i] != false);
            } else {
                assert forall|i: int| 0 <= i < self@.bits.len() implies #[trigger] self@.bits[i] == false by {
                    if self@.bits[i] {
                        assert(exists|j: int| 0 <= j < self@.bits.len() && #[trigger] self@.bits[j]);
                    }
                }
            }
        }
        any
    }

    /// The memory of the committed pages, when `committed`, or else of the uncommitted ones, as
    /// ranges of consecutive pages in address order.
    #[verifier::spinoff_prover]
    #[verifier::rlimit(30)]
    pub fn get_ranges(&self, committed: bool) -> (r: Vec<VMRange>)
        requires
            self.wf(),
        ensures
            self@.fully_committed ==> r@ == (if committed { seq![self@.range] } else { Seq::<VMRange>::empty() }),
            !self@.fully_committed && all_are(self@.bits, false) ==> r@ == (if committed { Seq::<VMRange>::empty() } else { seq![self@.range] }),
            !self@.fully_committed && !all_are(self@.bits, false) ==> lists_runs(r@, self@.bits, committed, self@.range.start as int),
    {
        if self.is_fully_committed() {
            if committed {
                let mut v = Vec::new();
                v.push(self.range);
                return v;
            } else {
                return Vec::new();
            }
        }
        if self.is_reserved_only() {
            if committed {
                return Vec::new();
            } else {
                let mut v = Vec::new();
                v.push(self.range);
                return v;
            }
        }
        let ghost bits = self@.bits;
        let n = bits_len(&self.inner);
        let start = self.range.start();
        let ghost st = start as int;
        let mut ret: Vec<VMRange> = Vec::new();
        let mut run_start: usize = 0;
        let mut in_run = false;
        let mut i: usize = 0;
        proof {
            reveal(runs_so_far);
        }
        while i < n
            invariant
                self.wf(),
                bits == self@.bits,
                n == bits.len(),
                st == self@.range.start,
                start == st,
                0 <= i <= n,
                runs_so_far(ret@, bits, committed, st, i as int, in_run, run_start as int),
            decreases n - i,
        {
            let bit = bit_at(&self.inner, i);
            proof {
                assert(bit == bits[i as int]);
            }
            if bit == committed {
                proof {
                    lemma_runs_same(ret@, bits, committed, st, i as int, in_run, run_start as int);
                }
                if !in_run {
                    run_start = i;
                    in_run = true;
                }
            } else {
                if in_run {
                    proof {
                        lemma_runs_close(ret@, bits, committed, st, i as int, run_start as int);
                    }
                    let nr = VMRange { start: start + run_start * PAGE_SIZE, end: start + i * PAGE_SIZE };
                    ret.push(nr);
                    in_run = false;
                } else {
                    proof {
                        lemma_runs_idle(ret@, bits, committed, st, i as int, run_start as int);
                    }
                }
            }
            i = i + 1;
        }
        proof {
            lemma_runs_finish(ret@, bits, committed, st, in_run, run_start as int);
        }
        if in_run {
            let nr = VMRange { start: start + run_start * PAGE_SIZE, end: start + n * PAGE_SIZE };
            ret.push(nr);
        }
        ret
    }

    /// Keep only the pages of `new_range`, a part of the tracker's range.
    pub fn split_for_new_range(&mut self, new_range: &VMRange)
        requires
            old(self).wf(),
            old(self)@.range.start <= new_range.start,
            new_range.start <= new_range.end,
            new_range.end <= old(self)@.range.end,
            new_range.start % PAGE_SIZE == 0,
            new_range.spec_size() % (PAGE_SIZE as int) == 0,
        ensures
            final(self).wf(),
            final(self)@.type_ == old(self)@.type_,
            final(self)@.range == *new_range,
            final(self)@.bits == old(self)@.bits.subrange(
                (new_range.start - old(self)@.range.start) / PAGE_SIZE as int,
                (new_range.start - old(self)@.range.start) / PAGE_SIZE as int + new_range.spec_size() / PAGE_SIZE as int),
            final(self)@.fully_committed == (old(self)@.fully_committed || all_are(final(self)@.bits, true)),
    {
        let ghost ob = self@.bits;
        let new_start = new_range.start();
        let page_num = new_range.size() / PAGE_SIZE;
        let split_idx = (new_start - self.range.start()) / PAGE_SIZE;
        proof {
            let d = new_start - self.range.start;
            assert(d % (PAGE_SIZE as int) == 0);
            assert(split_idx * PAGE_SIZE == d);
            assert(page_num * PAGE_SIZE == new_range.spec_size());
            assert(split_idx + page_num <= ob.len());
        }
        let mut new_inner = bits_split_off(&mut self.inner, split_idx);
        bits_truncate(&mut new_inner, page_num);
        self.inner = new_inner;
        proof {
            assert(bitvec_bits(self.inner) =~= ob.subrange(split_idx as int, split_idx + page_num));
        }
        if bits_all(&self.inner) {
            self.fully_committed = true;
        }
        self.range = *new_range;
        proof {
            if old(self)@.fully_committed {
                assert forall|k: int| 0 <= k < self@.bits.len() implies #[trigger] self@.bits[k] == true by {
                    assert(self@.bits[k] == ob[k + split_idx]);
                }
            }
        }
    }

    /// Mark the pages of `[start_addr, start_addr + size)` inside the tracker as committed.
    #[verifier::spinoff_prover]
    #[verifier::rlimit(30)]
    pub fn commit_pages_common(&mut self, start_addr: usize, size: usize)
        requires
            old(self).wf(),
            start_addr % PAGE_SIZE == 0,
            size % PAGE_SIZE == 0,
            start_addr + size <= usize::MAX,
            (if start_addr > old(self)@.range.start { start_addr } else { old(self)@.range.start })
                <= (if start_addr + size < old(self)@.range.end { start_addr + size } else { old(self)@.range.end as int }),
        ensures
            final(self).wf(),
            final(self)@.type_ == old(self)@.type_,
            final(self)@.range == old(self)@.range,
            final(self)@.bits == Seq::new(old(self)@.bits.len(), |k: int|
                old(self)@.bits[k] || old(self)@.range.has(old(self)@.range.start + k * PAGE_SIZE)
                    && start_addr <= old(self)@.range.start + k * PAGE_SIZE < start_addr + size),
            final(self)@.fully_committed == (old(self)@.fully_committed || all_are(final(self)@.bits, true)),
    {
        let ghost ob = self@.bits;
        let ghost st = self@.range.start as int;
        let range = VMRange { start: start_addr, end: start_addr + size };
        let inter = match self.range.intersect(&range) {
            Some(i) => i,
            None => {
                assert(false);
                return;
            },
        };
        let page_start_id = (inter.start() - self.range.start()) / PAGE_SIZE;
        let page_num = inter.size() / PAGE_SIZE;
        proof {
            crate::vm_range::lemma_page_size_pow2();
            assert(self.range.start % PAGE_SIZE == 0);
            assert(inter.start % PAGE_SIZE == 0);
            assert(inter.end % PAGE_SIZE == 0);
            assert(page_start_id * PAGE_SIZE == inter.start - st);
            assert(page_num * PAGE_SIZE == inter.end - inter.start);
            assert(page_start_id + page_num <= ob.len());
        }
        let end_id = page_start_id + page_num;
        let mut k: usize = page_start_id;
        while k < end_id
            invariant
                self.wf(),
                self@.range == old(self)@.range,
                self@.type_ == old(self)@.type_,
                self@.fully_committed == old(self)@.fully_committed,
                ob == old(self)@.bits,
                st == self@.range.start,
                page_start_id <= k <= end_id,
                end_id <= ob.len(),
                self@.bits.len() == ob.len(),
                forall|j: int| 0 <= j < ob.len() ==> #[trigger] self@.bits[j] == (ob[j] || page_start_id <= j < k),
            decreases end_id - k,
        {
            bit_set(&mut self.inner, k, true);
            k = k + 1;
        }
        proof {
            assert forall|j: int| 0 <= j < ob.len() implies (page_start_id <= j < end_id) == (#[trigger] old(self)@.range.has(st + j * PAGE_SIZE)
                && start_addr <= st + j * PAGE_SIZE < start_addr + size) by {
                assert(j * PAGE_SIZE < ob.len() * PAGE_SIZE);
                if page_start_id <= j < end_id {
                    assert(page_start_id * PAGE_SIZE <= j * PAGE_SIZE);
                    assert(j * PAGE_SIZE < end_id * PAGE_SIZE);
                } else if j < page_start_id {
                    assert(j * PAGE_SIZE < page_start_id * PAGE_SIZE);
                    assert(j * PAGE_SIZE <= page_start_id * PAGE_SIZE - PAGE_SIZE);
                } else {
                    assert(j * PAGE_SIZE >= end_id * PAGE_SIZE);
                }
            }
            assert(self@.bits =~= Seq::new(ob.len(), |j: int|
                ob[j] || old(self)@.range.has(st + j * PAGE_SIZE) && start_addr <= st + j * PAGE_SIZE < start_addr + size));
        }
        if bits_all(&self.inner) {
            self.fully_committed = true;
        }
        proof {
            if old(self)@.fully_committed {
                assert forall|j: int| 0 <= j < self@.bits.len() implies #[trigger] self@.bits[j] == true by {
                    assert(ob[j]);
                }
            }
        }
    }

    /// Mark every page as committed. Returns the memory that was not committed yet, as
    /// ranges of consecutive pages in address order, for it to be committed.
    pub fn commit_whole(&mut self) -> (r: Vec<VMRange>)
        requires
            old(self).wf(),
        ensures
            final(self).wf(),
            final(self)@.type_ == old(self)@.type_,
            final(self)@.range == old(self)@.range,
            final(self)@.bits == Seq::new(old(self)@.bits.len(), |_k: int| true),
            final(self)@.fully_committed,
            old(self)@.fully_committed ==> r@ == Seq::<VMRange>::empty(),
            !old(self)@.fully_committed && all_are(old(self)@.bits, false) ==> r@ == seq![old(self)@.range],
            !old(self)@.fully_committed && !all_are(old(self)@.bits, false) ==> lists_runs(r@, old(self)@.bits, false, old(self)@.range.start as int),
    {
        if self.is_fully_committed() {
            return Vec::new();
        }
        let uncommitted = self.get_ranges(false);
        bits_fill(&mut self.inner, true);
        self.fully_committed = true;
        uncommitted
    }

    /// Copy into `vma_tracker`, a fresh tracker of an area, the status of the pages that this
    /// global tracker and the area share.
    #[verifier::spinoff_prover]
    #[verifier::rlimit(30)]
    pub fn set_committed_pages_for_vma_tracker(&self, vma_tracker: &mut PageTracker)
        requires
            self.wf(),
            old(vma_tracker).wf(),
            !old(vma_tracker)@.fully_committed,
            (if self@.range.start > old(vma_tracker)@.range.start { self@.range.start } else { old(vma_tracker)@.range.start })
                <= (if self@.range.end < old(vma_tracker)@.range.end { self@.range.end } else { old(vma_tracker)@.range.end }),
        ensures
            final(vma_tracker).wf(),
            final(vma_tracker)@.type_ == old(vma_tracker)@.type_,
            final(vma_tracker)@.range == old(vma_tracker)@.range,
            final(vma_tracker)@.bits == Seq::new(old(vma_tracker)@.bits.len(), |k: int| {
                let a = old(vma_tracker)@.range.start + k * PAGE_SIZE;
                if self@.range.has(a) { self@.bits[(a - self@.range.start) / PAGE_SIZE as int] } else { old(vma_tracker)@.bits[k] }
            }),
            final(vma_tracker)@.fully_committed == all_are(final(vma_tracker)@.bits, true),
    {
        let ghost vb = vma_tracker@.bits;
        let ghost gb = self@.bits;
        let ghost vs = vma_tracker@.range.start as int;
        let ghost gs = self@.range.start as int;
        let inter = match self.range.intersect(&vma_tracker.range) {
            Some(i) => i,
            None => {
                assert(false);
                return;
            },
        };
        let vma_id = (inter.start() - vma_tracker.range.start()) / PAGE_SIZE;
        let global_id = (inter.start() - self.range.start()) / PAGE_SIZE;
        let page_num = inter.size() / PAGE_SIZE;
        proof {
            assert(vma_id * PAGE_SIZE == inter.start - vs);
            assert(global_id * PAGE_SIZE == inter.start - gs);
            assert(page_num * PAGE_SIZE == inter.end - inter.start);
            assert(vma_id + page_num <= vb.len());
            assert(global_id + page_num <= gb.len());
        }
        let mut k: usize = 0;
        while k < page_num
            invariant
                self.wf(),
                vb.len() * PAGE_SIZE <= usize::MAX,
                gb.len() * PAGE_SIZE <= usize::MAX,
                vma_tracker@.range == old(vma_tracker)@.range,
                vma_tracker@.type_ == old(vma_tracker)@.type_,
                vma_tracker@.fully_committed == old(vma_tracker)@.fully_committed,
                !vma_tracker@.fully_committed,
                vb == old(vma_tracker)@.bits,
                gb == self@.bits,
                vma_id + page_num <= vb.len(),
                global_id + page_num <= gb.len(),
                0 <= k <= page_num,
                vma_tracker@.bits.len() == vb.len(),
                forall|j: int| 0 <= j < vb.len() ==> #[trigger] vma_tracker@.bits[j] ==
                    if vma_id <= j < vma_id + k { gb[j - vma_id + global_id] } else { vb[j] },
            decreases page_num - k,
        {
            let bit = bit_at(&self.inner, global_id + k);
            bit_set(&mut vma_tracker.inner, vma_id + k, bit);
            k = k + 1;
        }
        proof {
            assert forall|j: int| 0 <= j < vb.len() implies (vma_id <= j < vma_id + page_num) == #[trigger] self@.range.has(vs + j * PAGE_SIZE) by {
                assert(j * PAGE_SIZE < vb.len() * PAGE_SIZE);
                if vma_id <= j < vma_id + page_num {
                    assert(vma_id * PAGE_SIZE <= j * PAGE_SIZE);
                    assert(j * PAGE_SIZE < (vma_id + page_num) * PAGE_SIZE);
                } else if j < vma_id {
                    assert(j * PAGE_SIZE <= vma_id * PAGE_SIZE - PAGE_SIZE);
                } else {
                    assert(j * PAGE_SIZE >= (vma_id + page_num) * PAGE_SIZE);
                }
            }
            assert forall|j: int| 0 <= j < vb.len() implies #[trigger] vma_tracker@.bits[j] == ({
                let a = vs + j * PAGE_SIZE;
                if self@.range.has(a) { gb[(a - gs) / PAGE_SIZE as int] } else { vb[j] }
            }) by {
                if vma_id <= j < vma_id + page_num {
                    assert(vs + j * PAGE_SIZE - gs == (j - vma_id + global_id) * PAGE_SIZE);
                    assert(((j - vma_id + global_id) * PAGE_SIZE) / PAGE_SIZE as int == j - vma_id + global_id);
                }
            }
            assert(vma_tracker@.bits =~= Seq::new(vb.len(), |j: int| {
                let a = vs + j * PAGE_SIZE;
                if self@.range.has(a) { gb[(a - gs) / PAGE_SIZE as int] } else { vb[j] }
            }));
        }
        if bits_all(&vma_tracker.inner) {
            vma_tracker.fully_committed = true;
        }
    }


    /// The memory that a page fault at `pf_addr` commits in one go: from the page of the fault
    /// on, through the uncommitted pages in address order, `COMMIT_SIZE_UNIT` bytes at most.
    #[verifier::spinoff_prover]
    #[verifier::rlimit(30)]
    pub fn commit_once_for_page_fault(&self, pf_addr: usize) -> (r: Vec<VMRange>)
        requires
            self.wf(),
        ensures
            exists|rs: Seq<VMRange>| ranges_of(*self, false, rs) && r@ == commit_plan(rs, pf_addr, COMMIT_SIZE_UNIT as int)
                && ((exists|j: int| 0 <= j < rs.len() && (#[trigger] rs[j]).has(pf_addr as int)) ==> {
                    &&& r@.len() > 0
                    &&& r@[0].start == pf_addr - pf_addr % PAGE_SIZE
                    &&& r@[0].has(pf_addr as int)
                }),
    {
        let ranges = self.get_ranges(false);
        let ghost rs = ranges@;
        proof {
            assert(ranges_of(*self, false, rs));
            lemma_ranges_of_apart(*self, false, rs);
        }
        let n = ranges.len();
        let mut i: usize = 0;
        while i < n && !ranges[i].contains(pf_addr)
            invariant
                n == rs.len(),
                rs == ranges@,
                i <= n,
                forall|j: int| 0 <= j < i ==> !(#[trigger] rs[j]).has(pf_addr as int),
            decreases n - i,
        {
            i = i + 1;
        }
        let mut out: Vec<VMRange> = Vec::new();
        if i == n {
            proof {
                assert(!(exists|j: int| 0 <= j < rs.len() && (#[trigger] rs[j]).has(pf_addr as int)));
                assert(out@ =~= commit_plan(rs, pf_addr, COMMIT_SIZE_UNIT as int));
                assert(ranges_of(*self, false, rs));
            }
            return out;
        }
        proof {
            assert(rs[i as int].has(pf_addr as int));
            lemma_unique_container(rs, i as int, pf_addr as int);
            law_fault_commit_starts_at_fault_page(rs, pf_addr, COMMIT_SIZE_UNIT as int);
        }
        let unit = COMMIT_SIZE_UNIT;
        let page = pf_addr - pf_addr % PAGE_SIZE;
        let end0 = ranges[i].end();
        let first = if end0 - page < unit { VMRange { start: page, end: end0 } } else { VMRange { start: page, end: page + unit } };
        let mut total: usize = end0 - page;
        if total > unit {
            total = unit;
        }
        proof {
            assert(first.spec_size() == total);
        }
        out.push(first);
        let mut k: usize = i + 1;
        proof {
            assert(out@ =~= seq![first]);
        }
        while k < n && total < unit
            invariant
                n == rs.len(),
                rs == ranges@,
                i < k <= n,
                0 < total <= unit,
                unit == COMMIT_SIZE_UNIT,
                forall|x: int| 0 <= x < rs.len() ==> (#[trigger] rs[x]).wf(),
                out@ + commit_rest(rs.subrange(k as int, n as int), total as int, unit as int)
                    == seq![first] + commit_rest(rs.subrange(i as int + 1, n as int), first.spec_size(), unit as int),
            decreases n - k,
        {
            let r = ranges[k];
            let ghost sub = rs.subrange(k as int, n as int);
            let ghost t0 = total as int;
            proof {
                assert(sub[0] == r);
                assert(sub.drop_first() =~= rs.subrange(k as int + 1, n as int));
            }
            let sz = r.size();
            let r2 = if sz > unit - total { VMRange { start: r.start(), end: r.start() + (unit - total) } } else { r };
            let ghost old_out = out@;
            out.push(r2);
            total = total + r2.size();
            proof {
                assert(commit_rest(sub, t0, unit as int) == seq![r2] + commit_rest(rs.subrange(k as int + 1, n as int), total as int, unit as int));
                assert(out@ + commit_rest(rs.subrange(k as int + 1, n as int), total as int, unit as int)
                    =~= old_out + (seq![r2] + commit_rest(rs.subrange(k as int + 1, n as int), total as int, unit as int)));
            }
            k = k + 1;
        }
        proof {
            assert(commit_rest(rs.subrange(k as int, n as int), total as int, unit as int) == Seq::<VMRange>::empty());
            assert(out@ + Seq::<VMRange>::empty() =~= out@);
            assert(out@ == commit_plan(rs, pf_addr, COMMIT_SIZE_UNIT as int));
            assert(ranges_of(*self, false, rs));
        }
        out
    }
}


/// The commit status of one page chunk of the user space, which the areas in it share: a
/// global tracker, until every page is committed.
pub struct GlobalPageChunk {
    pub fully_committed: bool,
    pub tracker: Option<PageTracker>,
}

/// The range of the page chunk at `c`.
pub open spec fn chunk_range(c: usize) -> VMRange {
    VMRange { start: c, end: (c + PAGE_CHUNK_UNIT) as usize }
}

/// The entry of the page chunk at `c` is consistent: a global tracker of the chunk's pages
/// that is not full, or none once every page is committed.
pub open spec fn chunk_ok(c: usize, g: GlobalPageChunk) -> bool {
    &&& c % PAGE_CHUNK_UNIT == 0
    &&& c + PAGE_CHUNK_UNIT <= usize::MAX
    &&& match g.tracker {
        Some(t) => t.wf() && t@.type_ == TrackerType::GlobalTracker && t@.range == chunk_range(c)
            && !g.fully_committed && !t@.fully_committed,
        None => g.fully_committed,
    }
}

/// The page chunk that holds the address `a`.
pub open spec fn chunk_of(a: int) -> int {
    a - a % PAGE_CHUNK_UNIT as int
}

/// Whether the page at `a` is committed, by the page chunks `m`.
pub open spec fn page_committed(m: Map<usize, GlobalPageChunk>, a: int) -> bool {
    let c = chunk_of(a);
    if !m.contains_key(c as usize) {
        false
    } else {
        match m[c as usize].tracker {
            None => true,
            Some(t) => t@.bits[(a - c) / PAGE_SIZE as int],
        }
    }
}

/// The commit status of the pages of the user space, by page chunk.
pub struct PageChunkManager {
    range: VMRange,
    inner: HashMap<usize, GlobalPageChunk>,
}

impl PageChunkManager {
    /// The page chunks that are tracked, by start address.
    pub closed spec fn chunks(&self) -> Map<usize, GlobalPageChunk> {
        self.inner@
    }

    pub closed spec fn spec_range(&self) -> VMRange {
        self.range
    }

    /// Every entry is consistent.
    pub open spec fn wf(&self) -> bool {
        forall|c: usize| #[trigger] self.chunks().contains_key(c) ==> chunk_ok(c, self.chunks()[c])
    }

    /// The manager of `range`, which tracks no page chunk yet: no page is committed.
    pub fn new(range: &VMRange) -> (r: Self)
        ensures
            r.wf(),
            r.spec_range() == *range,
            r.chunks() == Map::<usize, GlobalPageChunk>::empty(),
    {
        PageChunkManager { range: *range, inner: HashMap::new() }
    }

    /// Whether the page that holds `mem_addr` is committed.
    pub fn is_committed(&self, mem_addr: usize) -> (r: bool)
        requires
            self.wf(),
        ensures
            r == page_committed(self.chunks(), mem_addr - mem_addr % PAGE_SIZE),
    {
        let page_start_addr = mem_addr - mem_addr % PAGE_SIZE;
        let page_chunk_start_addr = get_page_chunk_start_addr(page_start_addr);
        match self.inner.get(&page_chunk_start_addr) {
            Some(global_page_chunk) => {
                proof {
                    assert(chunk_ok(page_chunk_start_addr, self.chunks()[page_chunk_start_addr]));
                }
                match &global_page_chunk.tracker {
                    Some(page_tracker) => {
                        let page_id = (page_start_addr - page_chunk_start_addr) / PAGE_SIZE;
                        proof {
                            assert(page_start_addr - page_chunk_start_addr < PAGE_CHUNK_UNIT);
                            assert(page_tracker@.bits.len() * PAGE_SIZE == PAGE_CHUNK_UNIT);
                        }
                        bit_at(&page_tracker.inner, page_id)
                    },
                    None => true,
                }
            },
            None => false,
        }
    }
}


/// Whether the page chunk at `c` holds part of `[start, end)`.
pub open spec fn covers(c: usize, start: int, end: int) -> bool {
    c % PAGE_CHUNK_UNIT == 0 && chunk_of(start) <= c < end
}

/// The bits of the tracker `t` once the pages of `[start, end)` are committed too.
pub open spec fn committed_bits(t: PageTrackerView, start: int, end: int) -> Seq<bool> {
    Seq::new(t.bits.len(), |k: int| t.bits[k] || t.range.has(t.range.start + k * PAGE_SIZE)
        && start <= t.range.start + k * PAGE_SIZE < end)
}

/// The entry of a page chunk once the pages of `[start, end)` are committed: the global
/// tracker has their bits set, and goes once every bit is.
pub open spec fn entry_after_commit(old: GlobalPageChunk, new: GlobalPageChunk, start: int, end: int) -> bool {
    match old.tracker {
        None => new == old,
        Some(t) => {
            let b = committed_bits(t@, start, end);
            if all_are(b, true) {
                new.fully_committed && new.tracker is None
            } else {
                !new.fully_committed && (new.tracker matches Some(t2) && t2@ == (PageTrackerView { bits: b, ..t@ }))
            }
        },
    }
}

/// The page chunks `m1` are `m0` once the pages of `[start, end)` are recorded as committed:
/// the same chunks, and each one that holds part of the range has its entry updated.
pub open spec fn recorded_commit(m0: Map<usize, GlobalPageChunk>, m1: Map<usize, GlobalPageChunk>, start: int, end: int) -> bool {
    &&& m1.dom() == m0.dom()
    &&& forall|c: usize| #[trigger] m0.contains_key(c) ==> if covers(c, start, end) {
        entry_after_commit(m0[c], m1[c], start, end)
    } else {
        m1[c] == m0[c]
    }
}

/// Once the pages of `[start, end)` are recorded as committed in page chunks that track them
/// all, each of those pages reads as committed, and every page that read as committed still
/// does.
pub proof fn law_recorded_pages_read_committed(m0: Map<usize, GlobalPageChunk>, m1: Map<usize, GlobalPageChunk>, start: int, end: int, a: usize)
    requires
        forall|c: usize| #[trigger] m0.contains_key(c) ==> chunk_ok(c, m0[c]),
        forall|c: usize| #[trigger] covers(c, start, end) ==> m0.contains_key(c),
        recorded_commit(m0, m1, start, end),
        0 <= start,
        a % PAGE_SIZE == 0,
    ensures
        start <= a < end ==> page_committed(m1, a as int),
        page_committed(m0, a as int) ==> page_committed(m1, a as int),
{
    let c = chunk_of(a as int);
    let cu = c as usize;
    assert(0 <= c <= a);
    assert(c % PAGE_CHUNK_UNIT as int == 0);
    assert((a - c) % PAGE_SIZE as int == 0) by {
        assert(c == (c / PAGE_CHUNK_UNIT as int) * PAGE_CHUNK_UNIT as int);
    }
    if start <= a < end {
        lemma_chunk_of_monotone(start, a as int);
        assert(covers(cu, start, end));
    }
    if m0.contains_key(cu) {
        assert(chunk_ok(cu, m0[cu]));
        if covers(cu, start, end) {
            match m0[cu].tracker {
                None => {},
                Some(t) => {
                    let k = (a - c) / PAGE_SIZE as int;
                    assert(k * PAGE_SIZE == a - c);
                    assert(0 <= k < t@.bits.len()) by (nonlinear_arith)
                        requires
                            k * PAGE_SIZE == a - c,
                            t@.bits.len() * PAGE_SIZE == PAGE_CHUNK_UNIT,
                            0 <= a - c < PAGE_CHUNK_UNIT,
                    ;
                    let b = committed_bits(t@, start, end);
                    assert(t@.range.start + k * PAGE_SIZE == a);
                    if !all_are(b, true) {
                        assert(m1[cu].tracker matches Some(t2) && t2@.bits == b);
                    }
                },
            }
        }
    }
}

/// The page chunk of an address does not come before that of a lower one.
proof fn lemma_chunk_of_monotone(x: int, y: int)
    requires
        0 <= x <= y,
    ensures
        chunk_of(x) <= chunk_of(y),
{
    let u = PAGE_CHUNK_UNIT as int;
    assert(x == (x / u) * u + x % u);
    assert(y == (y / u) * u + y % u);
    assert(x / u <= y / u) by (nonlinear_arith)
        requires
            0 <= x <= y,
            u > 0,
    ;
    assert((x / u) * u <= (y / u) * u) by (nonlinear_arith)
        requires
            x / u <= y / u,
            u > 0,
    ;
}

impl PageChunkManager {
    /// Record that the pages of `[commit_start_addr, commit_start_addr + commit_size)` are
    /// committed, in the global trackers of the page chunks that hold them, which must be
    /// tracked; a chunk whose pages are now all committed needs its tracker no more.
    #[verifier::spinoff_prover]
    #[verifier::rlimit(40)]
    pub fn set_committed_pages_for_global_tracker(&mut self, commit_start_addr: usize, commit_size: usize)
        requires
            old(self).wf(),
            commit_start_addr % PAGE_SIZE == 0,
            commit_size % PAGE_SIZE == 0,
            commit_start_addr + commit_size + PAGE_CHUNK_UNIT <= usize::MAX,
            forall|c: usize| #[trigger] covers(c, commit_start_addr as int, commit_start_addr + commit_size)
                ==> old(self).chunks().contains_key(c),
        ensures
            final(self).wf(),
            final(self).spec_range() == old(self).spec_range(),
            recorded_commit(old(self).chunks(), final(self).chunks(), commit_start_addr as int, commit_start_addr + commit_size),
    {
        let ghost m0 = self.chunks();
        let ghost s0 = commit_start_addr as int;
        let ghost e0 = commit_start_addr + commit_size;
        let commit_end_addr = commit_start_addr + commit_size;
        let mut c = get_page_chunk_start_addr(commit_start_addr);
        while c < commit_end_addr
            invariant
                self.wf(),
                self.spec_range() == old(self).spec_range(),
                m0 == old(self).chunks(),
                s0 == commit_start_addr,
                e0 == commit_end_addr,
                commit_start_addr % PAGE_SIZE == 0,
                commit_size % PAGE_SIZE == 0,
                commit_end_addr == commit_start_addr + commit_size,
                commit_end_addr + PAGE_CHUNK_UNIT <= usize::MAX,
                c % PAGE_CHUNK_UNIT == 0,
                chunk_of(s0) <= c <= commit_end_addr + PAGE_CHUNK_UNIT,
                forall|c2: usize| #[trigger] covers(c2, s0, e0) ==> m0.contains_key(c2),
                self.chunks().dom() == m0.dom(),
                forall|c2: usize| #[trigger] m0.contains_key(c2) ==> if covers(c2, s0, e0) && c2 < c {
                    entry_after_commit(m0[c2], self.chunks()[c2], s0, e0)
                } else {
                    self.chunks()[c2] == m0[c2]
                },
            decreases commit_end_addr + PAGE_CHUNK_UNIT - c,
        {
            proof {
                assert(covers(c, s0, e0));
                assert(m0.contains_key(c));
                assert(chunk_ok(c, m0[c]));
            }
            let entry = self.inner.remove(&c);
            match entry {
                Some(pc) => {
                    let fully = pc.fully_committed;
                    match pc.tracker {
                        Some(t) => {
                            let mut t = t;
                            t.commit_pages_common(commit_start_addr, commit_size);
                            if t.is_fully_committed() {
                                self.inner.insert(c, GlobalPageChunk { fully_committed: true, tracker: None });
                            } else {
                                self.inner.insert(c, GlobalPageChunk { fully_committed: false, tracker: Some(t) });
                            }
                        },
                        None => {
                            self.inner.insert(c, GlobalPageChunk { fully_committed: fully, tracker: None });
                        },
                    }
                },
                None => {
                    assert(false);
                },
            }
            proof {
                assert(self.chunks().dom() =~= m0.dom());
                assert forall|c2: usize| #[trigger] self.chunks().contains_key(c2) implies chunk_ok(c2, self.chunks()[c2]) by {
                    if c2 != c {
                        assert(m0.contains_key(c2));
                        assert(old(self).chunks().contains_key(c2));
                    }
                }
            }
            c = c + PAGE_CHUNK_UNIT;
        }
        proof {
            assert forall|c2: usize| #[trigger] m0.contains_key(c2) && covers(c2, s0, e0) implies c2 < c by {}
        }
    }
}


/// The entry of a page chunk at `c` that was not tracked before: a global tracker with no page
/// committed.
pub open spec fn fresh_chunk(c: usize, g: GlobalPageChunk) -> bool {
    &&& !g.fully_committed
    &&& g.tracker matches Some(t) && t@ == (PageTrackerView {
        type_: TrackerType::GlobalTracker,
        range: chunk_range(c),
        bits: Seq::new(PAGE_CHUNK_PAGE_NUM as nat, |_i: int| false),
        fully_committed: false,
    })
}

/// An address in the page chunk at `c` belongs to that chunk.
proof fn lemma_chunk_of(a: int, c: int)
    requires
        c % PAGE_CHUNK_UNIT as int == 0,
        c <= a < c + PAGE_CHUNK_UNIT,
    ensures
        chunk_of(a) == c,
{
}

impl PageChunkManager {
    /// Fill `vma_tracker`, the fresh tracker of an area of user region memory whose pages are
    /// all uncommitted, with the status that the page chunks record for its pages. A page
    /// chunk of the area that is not tracked yet gets a global tracker with no page committed.
    #[verifier::spinoff_prover]
    #[verifier::rlimit(60)]
    pub fn get_committed_pages_from_global_tracker(&mut self, vma_tracker: &mut PageTracker) -> (r: Result<(), Errno>)
        requires
            old(self).wf(),
            old(vma_tracker).wf(),
            old(vma_tracker)@.type_ == TrackerType::VMATracker,
            all_are(old(vma_tracker)@.bits, false),
            !old(vma_tracker)@.fully_committed,
            old(vma_tracker)@.range.start < old(vma_tracker)@.range.end,
            old(vma_tracker)@.range.end + PAGE_CHUNK_UNIT <= usize::MAX,
        ensures
            r is Ok,
            final(self).wf(),
            final(self).spec_range() == old(self).spec_range(),
            final(vma_tracker).wf(),
            final(vma_tracker)@.type_ == old(vma_tracker)@.type_,
            final(vma_tracker)@.range == old(vma_tracker)@.range,
            final(vma_tracker)@.bits == Seq::new(old(vma_tracker)@.bits.len(), |k: int|
                page_committed(old(self).chunks(), old(vma_tracker)@.range.start + k * PAGE_SIZE)),
            final(vma_tracker)@.fully_committed == all_are(final(vma_tracker)@.bits, true),
            forall|c: usize| #[trigger] old(self).chunks().contains_key(c) ==> final(self).chunks().contains_key(c)
                && final(self).chunks()[c] == old(self).chunks()[c],
            forall|c: usize| #[trigger] final(self).chunks().contains_key(c) && !old(self).chunks().contains_key(c) ==>
                covers(c, old(vma_tracker)@.range.start as int, old(vma_tracker)@.range.end as int) && fresh_chunk(c, final(self).chunks()[c]),
            forall|c: usize| #[trigger] covers(c, old(vma_tracker)@.range.start as int, old(vma_tracker)@.range.end as int)
                ==> final(self).chunks().contains_key(c),
    {
        let ghost m0 = self.chunks();
        let ghost b0 = vma_tracker@.bits;
        let vs = vma_tracker.range.start();
        let ve = vma_tracker.range.end();
        let mut c = get_page_chunk_start_addr(vs);
        proof {
            assert(b0.len() > 0);
            assert(!b0[0]);
        }
        while c < ve
            invariant
                self.wf(),
                self.spec_range() == old(self).spec_range(),
                m0 == old(self).chunks(),
                vma_tracker.wf(),
                vma_tracker@.type_ == old(vma_tracker)@.type_,
                vma_tracker@.range == old(vma_tracker)@.range,
                vs == vma_tracker@.range.start,
                ve == vma_tracker@.range.end,
                b0 == old(vma_tracker)@.bits,
                vma_tracker@.bits.len() == b0.len(),
                ve + PAGE_CHUNK_UNIT <= usize::MAX,
                vs < ve,
                c % PAGE_CHUNK_UNIT == 0,
                chunk_of(vs as int) <= c <= ve + PAGE_CHUNK_UNIT,
                forall|k: int| 0 <= k < b0.len() ==> #[trigger] vma_tracker@.bits[k] == if vs + k * PAGE_SIZE < c {
                    page_committed(m0, vs + k * PAGE_SIZE)
                } else {
                    false
                },
                vma_tracker@.fully_committed == all_are(vma_tracker@.bits, true),
                forall|c2: usize| #[trigger] m0.contains_key(c2) ==> self.chunks().contains_key(c2) && self.chunks()[c2] == m0[c2],
                forall|c2: usize| #[trigger] self.chunks().contains_key(c2) && !m0.contains_key(c2) ==>
                    covers(c2, vs as int, ve as int) && c2 < c && fresh_chunk(c2, self.chunks()[c2]),
                forall|c2: usize| #[trigger] covers(c2, vs as int, ve as int) && c2 < c ==> self.chunks().contains_key(c2),
            decreases ve + PAGE_CHUNK_UNIT - c,
        {
            let ghost bits_before = vma_tracker@.bits;
            proof {
                // A page of the area at or after `c` is still uncommitted.
                let first = if c > vs { c as int } else { vs as int };
                let k0 = (first - vs) / PAGE_SIZE as int;
                assert(c as int % PAGE_SIZE as int == 0) by {
                    assert(c as int == (c as int / PAGE_CHUNK_UNIT as int) * PAGE_CHUNK_UNIT as int);
                }
                assert(first % PAGE_SIZE as int == 0);
                assert((first - vs) % PAGE_SIZE as int == 0);
                assert(k0 * PAGE_SIZE == first - vs);
                assert(b0.len() * PAGE_SIZE == ve - vs);
                assert(k0 < b0.len()) by (nonlinear_arith)
                    requires
                        k0 * PAGE_SIZE == first - vs,
                        b0.len() * PAGE_SIZE == ve - vs,
                        first < ve,
                ;
                assert(0 <= k0 < b0.len());
                assert(!vma_tracker@.bits[k0]);
                assert(!vma_tracker@.fully_committed);
            }
            match self.inner.get(&c) {
                Some(pc) => {
                    proof {
                        assert(chunk_ok(c, self.chunks()[c]));
                        assert(m0.contains_key(c));
                    }
                    if pc.fully_committed {
                        vma_tracker.commit_pages_common(c, PAGE_CHUNK_UNIT);
                        proof {
                            assert forall|k: int| 0 <= k < b0.len() implies #[trigger] vma_tracker@.bits[k] == if vs + k * PAGE_SIZE < c + PAGE_CHUNK_UNIT {
                                page_committed(m0, vs + k * PAGE_SIZE)
                            } else {
                                false
                            } by {
                                let a = vs + k * PAGE_SIZE;
                                if c <= a < c + PAGE_CHUNK_UNIT {
                                    lemma_chunk_of(a, c as int);
                                }
                            }
                            if all_are(bits_before, true) {
                                assert(all_are(vma_tracker@.bits, true));
                            }
                        }
                    } else {
                        match &pc.tracker {
                            Some(t) => {
                                t.set_committed_pages_for_vma_tracker(vma_tracker);
                                proof {
                                    assert forall|k: int| 0 <= k < b0.len() implies #[trigger] vma_tracker@.bits[k] == if vs + k * PAGE_SIZE < c + PAGE_CHUNK_UNIT {
                                        page_committed(m0, vs + k * PAGE_SIZE)
                                    } else {
                                        false
                                    } by {
                                        let a = vs + k * PAGE_SIZE;
                                        if c <= a < c + PAGE_CHUNK_UNIT {
                                            lemma_chunk_of(a, c as int);
                                        }
                                    }
                                }
                            },
                            None => {
                                assert(false);
                            },
                        }
                    }
                },
                None => {
                    let t = PageTracker::new_global_tracker(c)?;
                    self.inner.insert(c, GlobalPageChunk { fully_committed: false, tracker: Some(t) });
                    proof {
                        assert(!m0.contains_key(c));
                        assert forall|k: int| 0 <= k < b0.len() implies #[trigger] vma_tracker@.bits[k] == if vs + k * PAGE_SIZE < c + PAGE_CHUNK_UNIT {
                            page_committed(m0, vs + k * PAGE_SIZE)
                        } else {
                            false
                        } by {
                            let a = vs + k * PAGE_SIZE;
                            if c <= a < c + PAGE_CHUNK_UNIT {
                                lemma_chunk_of(a, c as int);
                            }
                        }
                        assert forall|c2: usize| #[trigger] self.chunks().contains_key(c2) implies chunk_ok(c2, self.chunks()[c2]) by {
                            if c2 != c {
                                assert(old(self).chunks().contains_key(c2) || self.chunks().contains_key(c2));
                            }
                        }
                    }
                },
            }
            c = c + PAGE_CHUNK_UNIT;
        }
        proof {
            assert(vma_tracker@.bits =~= Seq::new(b0.len(), |k: int| page_committed(m0, vs + k * PAGE_SIZE))) by {
                assert forall|k: int| 0 <= k < b0.len() implies #[trigger] vma_tracker@.bits[k] == page_committed(m0, vs + k * PAGE_SIZE) by {
                    assert(k * PAGE_SIZE < b0.len() * PAGE_SIZE);
                }
            }
        }
        Ok(())
    }
}

} // verus!
