//! Free space management for memory: an address-ordered list of free ranges,
//! searched first fit.
use vstd::prelude::*;
use crate::errno::Errno;
use crate::vm_range::{align_up, align_up_spec, lemma_align_up, VMRange};
use crate::vm_util::VMMapAddr;

verus! {

/// The ranges are well formed and in address order, each ending no later than the next starts.
pub open spec fn ranges_sorted(s: Seq<VMRange>) -> bool {
    &&& forall|i: int| 0 <= i < s.len() ==> (#[trigger] s[i]).wf()
    &&& forall|i: int, j: int| 0 <= i < j < s.len() ==> (#[trigger] s[i]).end <= (#[trigger] s[j]).start
}

/// No range of the list is empty.
pub open spec fn ranges_nonempty(s: Seq<VMRange>) -> bool {
    forall|i: int| 0 <= i < s.len() ==> (#[trigger] s[i]).start < s[i].end
}

/// Whether some range of the list holds `a`.
pub open spec fn in_ranges(s: Seq<VMRange>, a: int) -> bool {
    exists|i: int| 0 <= i < s.len() && (#[trigger] s[i]).has(a)
}

/// The set of addresses that the list holds.
pub open spec fn free_set(s: Seq<VMRange>) -> Set<int> {
    Set::new(|a: int| in_ranges(s, a))
}

/// The total size of the ranges of the list.
pub open spec fn sum_sizes(s: Seq<VMRange>) -> int
    decreases s.len(),
{
    if s.len() == 0 {
        0
    } else {
        sum_sizes(s.drop_last()) + s.last().spec_size()
    }
}

/// Each range can grow by `extra` without passing the largest `usize`.
pub open spec fn ends_below(s: Seq<VMRange>, extra: int) -> bool {
    forall|i: int| 0 <= i < s.len() ==> (#[trigger] s[i]).end + extra <= usize::MAX
}

/// A request of `size` bytes, aligned to `align` after skipping `random_offset` bytes,
/// fits into the range `r`.
pub open spec fn usable(r: VMRange, size: int, align: int, random_offset: int) -> bool {
    align_up_spec(r.start + random_offset, align) + size <= r.end
}

/// The part of `r` that a request placed by alignment takes.
pub open spec fn aligned_pick(r: VMRange, size: int, align: int, random_offset: int) -> VMRange {
    VMRange {
        start: align_up_spec(r.start + random_offset, align) as usize,
        end: (align_up_spec(r.start + random_offset, align) + size) as usize,
    }
}

/// The request fits into `r` at exactly the hinted address `h`.
pub open spec fn hint_fits(r: VMRange, size: int, align: int, h: int) -> bool {
    &&& r.spec_size() >= size
    &&& h % align == 0
    &&& r.has(h)
    &&& r.end - h >= size
}

/// `i` is the first range of the list that a request fits.
pub open spec fn is_first_usable(s: Seq<VMRange>, i: int, size: int, align: int, ro: int) -> bool {
    &&& 0 <= i < s.len()
    &&& usable(s[i], size, align, ro)
    &&& forall|j: int| 0 <= j < i ==> !usable(#[trigger] s[j], size, align, ro)
}

/// `i` is the smallest range of the list that a request fits, the first one among equals.
pub open spec fn is_best_usable(s: Seq<VMRange>, i: int, size: int, align: int, ro: int) -> bool {
    &&& 0 <= i < s.len()
    &&& usable(s[i], size, align, ro)
    &&& forall|j: int| 0 <= j < s.len() && usable(#[trigger] s[j], size, align, ro) ==> s[i].spec_size() <= s[j].spec_size()
    &&& forall|j: int| 0 <= j < i && usable(#[trigger] s[j], size, align, ro) ==> s[i].spec_size() < s[j].spec_size()
}

/// A range `dirty` can be put back: the list is empty, or `dirty` lies before the first
/// range, after the last one, or between two neighbours.
pub open spec fn has_slot(s: Seq<VMRange>, dirty: VMRange) -> bool {
    ||| s.len() == 0
    ||| dirty.end <= s[0].start
    ||| s.last().end <= dirty.start
    ||| exists|i: int| 0 <= i < s.len() - 1 && (#[trigger] s[i]).end <= dirty.start && dirty.end <= s[i + 1].start
}

/// The list after `r`, a part of its `i`-th range, is taken out of it.
pub open spec fn take_out(s: Seq<VMRange>, i: int, r: VMRange) -> Seq<VMRange> {
    s.subrange(0, i) + crate::vm_range::subtract_spec(s[i], r) + s.subrange(i + 1, s.len() as int)
}

/// The ranges of a sorted list add up to no more than the distance it spans.
pub proof fn lemma_sum_bound(s: Seq<VMRange>)
    requires
        ranges_sorted(s),
        s.len() > 0,
    ensures
        0 <= sum_sizes(s) <= s.last().end - s[0].start,
    decreases s.len(),
{
    let p = s.drop_last();
    if s.len() == 1 {
        assert(sum_sizes(p) == 0);
    } else {
        lemma_sum_bound(p);
        assert(p.last() == s[s.len() - 2]);
        assert(p[0] == s[0]);
        assert(s[s.len() - 2].end <= s.last().start);
    }
}

/// The sum of a concatenation is the sum of its parts.
pub proof fn lemma_sum_concat(a: Seq<VMRange>, b: Seq<VMRange>)
    ensures
        sum_sizes(a + b) == sum_sizes(a) + sum_sizes(b),
    decreases b.len(),
{
    if b.len() == 0 {
        assert(a + b =~= a);
    } else {
        lemma_sum_concat(a, b.drop_last());
        assert((a + b).drop_last() =~= a + b.drop_last());
    }
}

/// The sum of one range is its size.
pub proof fn lemma_sum_single(x: VMRange)
    ensures
        sum_sizes(seq![x]) == x.spec_size(),
{
    assert(seq![x].drop_last() =~= Seq::<VMRange>::empty());
    assert(sum_sizes(Seq::<VMRange>::empty()) == 0);
}

/// A sorted list holds an address in at most one of its ranges.
pub proof fn lemma_unique_holder(s: Seq<VMRange>, i: int, j: int, a: int)
    requires
        ranges_sorted(s),
        0 <= i < s.len(),
        0 <= j < s.len(),
        s[i].has(a),
        s[j].has(a),
    ensures
        i == j,
{
    if i < j {
        assert(s[i].end <= s[j].start);
    } else if j < i {
        assert(s[j].end <= s[i].start);
    }
}

/// Where the ranges of `take_out` come from.
proof fn lemma_take_out_index(s: Seq<VMRange>, i: int, r: VMRange, k: int)
    requires
        0 <= i < s.len(),
        0 <= k < take_out(s, i, r).len(),
    ensures ({
        let mid = crate::vm_range::subtract_spec(s[i], r);
        let t = take_out(s, i, r);
        &&& t.len() == s.len() - 1 + mid.len()
        &&& k < i ==> t[k] == s[k]
        &&& i <= k < i + mid.len() ==> t[k] == mid[k - i]
        &&& i + mid.len() <= k ==> t[k] == s[k - mid.len() + 1]
    }),
{
}

/// Taking `r` out of the `i`-th range keeps the list sorted.
proof fn lemma_take_out_sorted(s: Seq<VMRange>, i: int, r: VMRange)
    requires
        ranges_sorted(s),
        0 <= i < s.len(),
        r.wf(),
        s[i].start <= r.start,
        r.end <= s[i].end,
    ensures
        ranges_sorted(take_out(s, i, r)),
        ranges_nonempty(s) ==> ranges_nonempty(take_out(s, i, r)),
        forall|k: int| 0 <= k < take_out(s, i, r).len() ==> exists|j: int| 0 <= j < s.len()
            && s[j].start <= (#[trigger] take_out(s, i, r)[k]).start && take_out(s, i, r)[k].end <= s[j].end,
{
    let mid = crate::vm_range::subtract_spec(s[i], r);
    let t = take_out(s, i, r);
    let m = mid.len() as int;
    crate::vm_range::lemma_subtract_spec(s[i], r);
    assert forall|x: int, y: int| 0 <= x < y < t.len() implies (#[trigger] t[x]).end <= (#[trigger] t[y]).start by {
        lemma_take_out_index(s, i, r, x);
        lemma_take_out_index(s, i, r, y);
        if y < i {
        } else if y < i + m {
            if x < i {
                assert(s[x].end <= s[i].start);
            }
        } else {
            if x < i {
            } else if x < i + m {
                assert(s[i].end <= s[y - m + 1].start);
            }
        }
    }
    assert forall|x: int| 0 <= x < t.len() implies (#[trigger] t[x]).wf() && (ranges_nonempty(s) ==> t[x].start < t[x].end)
        && exists|j: int| 0 <= j < s.len() && s[j].start <= t[x].start && t[x].end <= s[j].end by {
        lemma_take_out_index(s, i, r, x);
        if x < i {
            assert(s[x].start <= t[x].start && t[x].end <= s[x].end);
        } else if x < i + m {
            assert(s[i].start <= t[x].start && t[x].end <= s[i].end);
        } else {
            assert(s[x - m + 1].start <= t[x].start && t[x].end <= s[x - m + 1].end);
        }
    }
}

/// Taking `r` out of the `i`-th range removes exactly the addresses of `r`.
proof fn lemma_take_out_set(s: Seq<VMRange>, i: int, r: VMRange)
    requires
        ranges_sorted(s),
        0 <= i < s.len(),
        r.wf(),
        s[i].start <= r.start,
        r.end <= s[i].end,
    ensures
        free_set(take_out(s, i, r)) =~= free_set(s).difference(r.addrs()),
{
    let mid = crate::vm_range::subtract_spec(s[i], r);
    let t = take_out(s, i, r);
    let m = mid.len() as int;
    crate::vm_range::lemma_subtract_spec(s[i], r);
    assert(t.len() == s.len() - 1 + m);
    assert forall|addr: int| #[trigger] in_ranges(t, addr) implies in_ranges(s, addr) && !r.has(addr) by {
        let k = choose|k: int| 0 <= k < t.len() && (#[trigger] t[k]).has(addr);
        lemma_take_out_index(s, i, r, k);
        if k < i {
            assert(s[k].end <= s[i].start);
            assert(s[k].has(addr));
        } else if k < i + m {
            assert(s[i].has(addr));
        } else {
            assert(s[i].end <= s[k - m + 1].start);
            assert(s[k - m + 1].has(addr));
        }
    }
    assert forall|addr: int| in_ranges(s, addr) && !r.has(addr) implies #[trigger] in_ranges(t, addr) by {
        let j = choose|j: int| 0 <= j < s.len() && (#[trigger] s[j]).has(addr);
        if j < i {
            lemma_take_out_index(s, i, r, j);
            assert(t[j].has(addr));
        } else if j == i {
            let k = choose|k: int| 0 <= k < mid.len() && (#[trigger] mid[k]).has(addr);
            lemma_take_out_index(s, i, r, i + k);
            assert(t[i + k].has(addr));
        } else {
            lemma_take_out_index(s, i, r, j + m - 1);
            assert(t[j + m - 1].has(addr));
        }
    }
}

/// Taking `r` out of the `i`-th range lowers the total size by the size of `r`.
proof fn lemma_take_out_sum(s: Seq<VMRange>, i: int, r: VMRange)
    requires
        0 <= i < s.len(),
        s[i].wf(),
        r.wf(),
        s[i].start <= r.start,
        r.end <= s[i].end,
    ensures
        sum_sizes(take_out(s, i, r)) == sum_sizes(s) - r.spec_size(),
{
    let pre = s.subrange(0, i);
    let mid = crate::vm_range::subtract_spec(s[i], r);
    let post = s.subrange(i + 1, s.len() as int);
    lemma_sum_concat(pre + mid, post);
    lemma_sum_concat(pre, mid);
    lemma_sum_concat(pre, seq![s[i]]);
    lemma_sum_concat(pre + seq![s[i]], post);
    assert(s =~= pre + seq![s[i]] + post);
    lemma_sum_single(s[i]);
    if mid.len() == 1 {
        lemma_sum_single(mid[0]);
        assert(mid =~= seq![mid[0]]);
    } else if mid.len() == 2 {
        lemma_sum_single(mid[0]);
        lemma_sum_concat(seq![mid[0]], seq![mid[1]]);
        lemma_sum_single(mid[1]);
        assert(mid =~= seq![mid[0]] + seq![mid[1]]);
    } else {
        assert(sum_sizes(mid) == 0);
    }
}

/// Taking `r` out of the `i`-th range keeps the list sorted, removes exactly the addresses of
/// `r`, and lowers the total size by the size of `r`.
pub proof fn lemma_take_out(s: Seq<VMRange>, i: int, r: VMRange)
    requires
        ranges_sorted(s),
        0 <= i < s.len(),
        r.wf(),
        s[i].start <= r.start,
        r.end <= s[i].end,
    ensures
        ranges_sorted(take_out(s, i, r)),
        free_set(take_out(s, i, r)) =~= free_set(s).difference(r.addrs()),
        sum_sizes(take_out(s, i, r)) == sum_sizes(s) - r.spec_size(),
        ranges_nonempty(s) ==> ranges_nonempty(take_out(s, i, r)),
        forall|k: int| 0 <= k < take_out(s, i, r).len() ==> exists|j: int| 0 <= j < s.len()
            && s[j].start <= (#[trigger] take_out(s, i, r)[k]).start && take_out(s, i, r)[k].end <= s[j].end,
{
    lemma_take_out_sorted(s, i, r);
    lemma_take_out_set(s, i, r);
    lemma_take_out_sum(s, i, r);
}

/// A nonempty range that shares no address with a sorted list of nonempty ranges has a slot.
pub proof fn lemma_disjoint_has_slot(s: Seq<VMRange>, dirty: VMRange)
    requires
        ranges_sorted(s),
        ranges_nonempty(s),
        dirty.start < dirty.end,
        forall|a: int| dirty.has(a) ==> !in_ranges(s, a),
    ensures
        has_slot(s, dirty),
{
    if s.len() > 0 && !(dirty.end <= s[0].start) && !(s.last().end <= dirty.start) {
        // s[0].start < dirty.end and dirty.start < s.last().end
        // find the last range that starts before dirty ends
        if dirty.start < s[0].end {
            // dirty overlaps s[0]
            let a = if dirty.start > s[0].start { dirty.start as int } else { s[0].start as int };
            assert(s[0].has(a));
            assert(dirty.has(a));
            assert(in_ranges(s, a));
        } else {
            // s[0].end <= dirty.start; find the last k with s[k].end <= dirty.start
            let k = lemma_last_before(s, dirty.start as int);
            if k == s.len() - 1 {
                assert(s.last().end <= dirty.start);
            } else {
                let n = s[k + 1];
                if dirty.end <= n.start {
                    assert(s[k].end <= dirty.start && dirty.end <= s[k + 1].start);
                } else {
                    // n.end > dirty.start, n.start < dirty.end: overlap
                    let a = if dirty.start > n.start { dirty.start as int } else { n.start as int };
                    assert(n.has(a));
                    assert(dirty.has(a));
                    assert(in_ranges(s, a));
                }
            }
        }
    }
}

/// The last range of a sorted list that ends by `x`, given that the first one does.
proof fn lemma_last_before(s: Seq<VMRange>, x: int) -> (k: int)
    requires
        ranges_sorted(s),
        s.len() > 0,
        s[0].end <= x,
    ensures
        0 <= k < s.len(),
        s[k].end <= x,
        k + 1 < s.len() ==> s[k + 1].end > x,
    decreases s.len(),
{
    if s.len() == 1 {
        0
    } else {
        let p = s.drop_last();
        let k0 = lemma_last_before(p, x);
        if k0 + 1 < p.len() {
            assert(p[k0 + 1] == s[k0 + 1]);
            k0
        } else if s.last().end <= x {
            (s.len() - 1) as int
        } else {
            k0
        }
    }
}

/// An address is in a concatenation when it is in one of the parts.
pub proof fn lemma_in_ranges_concat(a: Seq<VMRange>, b: Seq<VMRange>, x: int)
    ensures
        in_ranges(a + b, x) <==> in_ranges(a, x) || in_ranges(b, x),
{
    let t = a + b;
    if in_ranges(t, x) {
        let k = choose|k: int| 0 <= k < t.len() && (#[trigger] t[k]).has(x);
        if k < a.len() {
            assert(a[k] == t[k]);
        } else {
            assert(b[k - a.len()] == t[k]);
        }
    }
    if in_ranges(a, x) {
        let k = choose|k: int| 0 <= k < a.len() && (#[trigger] a[k]).has(x);
        assert(t[k] == a[k]);
    }
    if in_ranges(b, x) {
        let k = choose|k: int| 0 <= k < b.len() && (#[trigger] b[k]).has(x);
        assert(t[k + a.len()] == b[k]);
    }
}

/// The ranges `s[i..j]` replaced by `m`.
pub open spec fn splice(s: Seq<VMRange>, i: int, j: int, m: Seq<VMRange>) -> Seq<VMRange> {
    s.subrange(0, i) + m + s.subrange(j, s.len() as int)
}

/// Replacing `s[i..j]` by `m` swaps their addresses and their sizes.
pub proof fn lemma_splice(s: Seq<VMRange>, i: int, j: int, m: Seq<VMRange>)
    requires
        0 <= i <= j <= s.len(),
    ensures
        forall|x: int| #[trigger] in_ranges(splice(s, i, j, m), x) <==>
            in_ranges(s.subrange(0, i), x) || in_ranges(m, x) || in_ranges(s.subrange(j, s.len() as int), x),
        forall|x: int| #[trigger] in_ranges(s, x) <==>
            in_ranges(s.subrange(0, i), x) || in_ranges(s.subrange(i, j), x) || in_ranges(s.subrange(j, s.len() as int), x),
        sum_sizes(splice(s, i, j, m)) == sum_sizes(s.subrange(0, i)) + sum_sizes(m) + sum_sizes(s.subrange(j, s.len() as int)),
        sum_sizes(s) == sum_sizes(s.subrange(0, i)) + sum_sizes(s.subrange(i, j)) + sum_sizes(s.subrange(j, s.len() as int)),
{
    let pre = s.subrange(0, i);
    let mid = s.subrange(i, j);
    let post = s.subrange(j, s.len() as int);
    assert(s =~= pre + mid + post);
    assert forall|x: int| #[trigger] in_ranges(splice(s, i, j, m), x) <==> in_ranges(pre, x) || in_ranges(m, x) || in_ranges(post, x) by {
        lemma_in_ranges_concat(pre + m, post, x);
        lemma_in_ranges_concat(pre, m, x);
    }
    assert forall|x: int| #[trigger] in_ranges(s, x) <==> in_ranges(pre, x) || in_ranges(mid, x) || in_ranges(post, x) by {
        lemma_in_ranges_concat(pre + mid, post, x);
        lemma_in_ranges_concat(pre, mid, x);
    }
    lemma_sum_concat(pre + m, post);
    lemma_sum_concat(pre, m);
    lemma_sum_concat(pre + mid, post);
    lemma_sum_concat(pre, mid);
}

/// Replacing `s[i..j]` by nonempty ranges keeps a list of nonempty ranges so.
pub proof fn lemma_splice_nonempty(s: Seq<VMRange>, i: int, j: int, m: Seq<VMRange>)
    requires
        ranges_nonempty(s),
        ranges_nonempty(m),
        0 <= i <= j <= s.len(),
    ensures
        ranges_nonempty(splice(s, i, j, m)),
{
    let t = splice(s, i, j, m);
    assert forall|x: int| 0 <= x < t.len() implies (#[trigger] t[x]).start < t[x].end by {
        if x < i {
            assert(t[x] == s[x]);
        } else if x < i + m.len() {
            assert(t[x] == m[x - i]);
        } else {
            assert(t[x] == s[x - i - m.len() + j]);
        }
    }
}

/// The addresses and the size of one range.
pub proof fn lemma_single(x: VMRange)
    ensures
        forall|a: int| #[trigger] in_ranges(seq![x], a) <==> x.has(a),
        sum_sizes(seq![x]) == x.spec_size(),
{
    lemma_sum_single(x);
    assert forall|a: int| #[trigger] in_ranges(seq![x], a) <==> x.has(a) by {
        if x.has(a) {
            assert(seq![x][0] == x);
        }
    }
}

/// Replacing `s[i..j]` by `m` keeps a sorted list sorted when `m` is sorted and fits between
/// its neighbours.
pub proof fn lemma_splice_sorted(s: Seq<VMRange>, i: int, j: int, m: Seq<VMRange>)
    requires
        ranges_sorted(s),
        ranges_sorted(m),
        0 <= i <= j <= s.len(),
        m.len() > 0,
        i > 0 ==> s[i - 1].end <= m[0].start,
        j < s.len() ==> m.last().end <= s[j].start,
    ensures
        ranges_sorted(splice(s, i, j, m)),
{
    let t = splice(s, i, j, m);
    let ml = m.len() as int;
    assert forall|x: int| 0 <= x < t.len() implies (#[trigger] t[x]).wf() by {
        if x < i {
            assert(t[x] == s[x]);
        } else if x < i + ml {
            assert(t[x] == m[x - i]);
        } else {
            assert(t[x] == s[x - i - ml + j]);
        }
    }
    assert forall|x: int, y: int| 0 <= x < y < t.len() implies (#[trigger] t[x]).end <= (#[trigger] t[y]).start by {
        if y < i {
            assert(t[x] == s[x] && t[y] == s[y]);
        } else if y < i + ml {
            assert(t[y] == m[y - i]);
            if x < i {
                assert(t[x] == s[x]);
                assert(s[x].end <= s[i - 1].end);
                assert(m[0].start <= m[0].end);
                if y - i > 0 {
                    assert(m[0].end <= m[y - i].start);
                }
            } else {
                assert(t[x] == m[x - i]);
            }
        } else {
            assert(t[y] == s[y - i - ml + j]);
            if x < i {
                assert(t[x] == s[x]);
                assert(s[x].end <= s[i - 1].end);
                assert(s[i - 1].end <= m[0].start);
                assert(m[0].start <= m[0].end);
                if ml > 1 {
                    assert(m[0].end <= m[ml - 1].start);
                }
                assert(m[ml - 1].start <= m[ml - 1].end);
                if y - i - ml + j > j {
                    assert(s[j].end <= s[y - i - ml + j].start);
                }
                assert(s[j].start <= s[j].end);
            } else if x < i + ml {
                assert(t[x] == m[x - i]);
                if x - i < ml - 1 {
                    assert(m[x - i].end <= m[ml - 1].start);
                }
                assert(m[ml - 1].start <= m[ml - 1].end);
                if y - i - ml + j > j {
                    assert(s[j].end <= s[y - i - ml + j].start);
                }
                assert(s[j].start <= s[j].end);
            } else {
                assert(t[x] == s[x - i - ml + j]);
            }
        }
    }
}

/// Replacing `s[i..j]` by `m`, when `m` holds the addresses of `s[i..j]` and of `d` and the sum
/// of their sizes, adds `d` to the list.
pub proof fn lemma_splice_union(s: Seq<VMRange>, i: int, j: int, m: Seq<VMRange>, d: VMRange)
    requires
        0 <= i <= j <= s.len(),
        forall|x: int| #[trigger] in_ranges(m, x) <==> in_ranges(s.subrange(i, j), x) || d.has(x),
        sum_sizes(m) == sum_sizes(s.subrange(i, j)) + d.spec_size(),
    ensures
        free_set(splice(s, i, j, m)) =~= free_set(s).union(d.addrs()),
        sum_sizes(splice(s, i, j, m)) == sum_sizes(s) + d.spec_size(),
{
    lemma_splice(s, i, j, m);
    assert forall|x: int| free_set(splice(s, i, j, m)).contains(x) <==> free_set(s).union(d.addrs()).contains(x) by {
        assert(in_ranges(m, x) <==> in_ranges(s.subrange(i, j), x) || d.has(x));
        assert(in_ranges(s, x) <==> in_ranges(s.subrange(0, i), x) || in_ranges(s.subrange(i, j), x) || in_ranges(s.subrange(j, s.len() as int), x));
        assert(in_ranges(splice(s, i, j, m), x) <==> in_ranges(s.subrange(0, i), x) || in_ranges(m, x) || in_ranges(s.subrange(j, s.len() as int), x));
    }
}

/// The addresses and size of two ranges in a row.
pub proof fn lemma_pair(s: Seq<VMRange>, i: int)
    requires
        0 <= i,
        i + 2 <= s.len(),
    ensures
        forall|x: int| #[trigger] in_ranges(s.subrange(i, i + 2), x) <==> s[i].has(x) || s[i + 1].has(x),
        sum_sizes(s.subrange(i, i + 2)) == s[i].spec_size() + s[i + 1].spec_size(),
{
    let p = s.subrange(i, i + 2);
    assert(p =~= seq![s[i]] + seq![s[i + 1]]);
    lemma_single(s[i]);
    lemma_single(s[i + 1]);
    lemma_sum_concat(seq![s[i]], seq![s[i + 1]]);
    assert forall|x: int| #[trigger] in_ranges(p, x) <==> s[i].has(x) || s[i + 1].has(x) by {
        lemma_in_ranges_concat(seq![s[i]], seq![s[i + 1]], x);
    }
}

/// The addresses and size of one range of a list.
pub proof fn lemma_one(s: Seq<VMRange>, i: int)
    requires
        0 <= i < s.len(),
    ensures
        forall|x: int| #[trigger] in_ranges(s.subrange(i, i + 1), x) <==> s[i].has(x),
        sum_sizes(s.subrange(i, i + 1)) == s[i].spec_size(),
        forall|x: int| #[trigger] in_ranges(s.subrange(i, i), x) <==> false,
        sum_sizes(s.subrange(i, i)) == 0,
{
    assert(s.subrange(i, i + 1) =~= seq![s[i]]);
    assert(s.subrange(i, i) =~= Seq::<VMRange>::empty());
    lemma_single(s[i]);
}

/// Putting `d` back between the neighbours `s[i]` and `s[i + 1]`: the new list stays sorted and
/// holds the addresses of `d` too.
pub open spec fn put_back_ok(s: Seq<VMRange>, t: Seq<VMRange>, d: VMRange) -> bool {
    &&& ranges_sorted(t)
    &&& free_set(t) =~= free_set(s).union(d.addrs())
    &&& sum_sizes(t) == sum_sizes(s) + d.spec_size()
}

proof fn lemma_put_back_between(s: Seq<VMRange>, i: int, d: VMRange)
    requires
        ranges_sorted(s),
        0 <= i,
        i + 2 <= s.len(),
        d.wf(),
        s[i].end <= d.start,
        d.end <= s[i + 1].start,
    ensures
        d.start == s[i].end && d.end == s[i + 1].start ==> put_back_ok(s,
            splice(s, i, i + 2, seq![VMRange { start: s[i].start, end: s[i + 1].end }]), d),
        d.start == s[i].end && d.end != s[i + 1].start ==> put_back_ok(s,
            splice(s, i, i + 1, seq![VMRange { start: s[i].start, end: d.end }]), d),
        d.start != s[i].end && d.end == s[i + 1].start ==> put_back_ok(s,
            splice(s, i + 1, i + 2, seq![VMRange { start: d.start, end: s[i + 1].end }]), d),
        put_back_ok(s, splice(s, i + 1, i + 1, seq![d]), d),
{
    let l = s[i];
    let r = s[i + 1];
    assert(l.wf() && r.wf());
    if i + 2 < s.len() {
        assert(s[i + 1].end <= s[i + 2].start);
    }
    if i > 0 {
        assert(s[i - 1].end <= s[i].start);
    }
    lemma_pair(s, i);
    lemma_one(s, i);
    lemma_one(s, i + 1);
    lemma_single(d);
    if d.start == l.end && d.end == r.start {
        let m = VMRange { start: l.start, end: r.end };
        lemma_single(m);
        lemma_splice_union(s, i, i + 2, seq![m], d);
        lemma_splice_sorted(s, i, i + 2, seq![m]);
    }
    if d.start == l.end && d.end != r.start {
        let m = VMRange { start: l.start, end: d.end };
        lemma_single(m);
        lemma_splice_union(s, i, i + 1, seq![m], d);
        lemma_splice_sorted(s, i, i + 1, seq![m]);
    }
    if d.start != l.end && d.end == r.start {
        let m = VMRange { start: d.start, end: r.end };
        lemma_single(m);
        lemma_splice_union(s, i + 1, i + 2, seq![m], d);
        lemma_splice_sorted(s, i + 1, i + 2, seq![m]);
    }
    lemma_splice_union(s, i + 1, i + 1, seq![d], d);
    assert(seq![d].last() == d);
    lemma_splice_sorted(s, i + 1, i + 1, seq![d]);
}

proof fn lemma_put_back_head(s: Seq<VMRange>, d: VMRange)
    requires
        ranges_sorted(s),
        s.len() > 0,
        d.wf(),
        d.end <= s[0].start,
    ensures
        d.end == s[0].start ==> put_back_ok(s, splice(s, 0, 1, seq![VMRange { start: d.start, end: s[0].end }]), d),
        put_back_ok(s, splice(s, 0, 0, seq![d]), d),
{
    assert(s[0].wf());
    if s.len() > 1 {
        assert(s[0].end <= s[1].start);
    }
    lemma_one(s, 0);
    lemma_single(d);
    if d.end == s[0].start {
        let m = VMRange { start: d.start, end: s[0].end };
        lemma_single(m);
        lemma_splice_union(s, 0, 1, seq![m], d);
        lemma_splice_sorted(s, 0, 1, seq![m]);
    }
    lemma_splice_union(s, 0, 0, seq![d], d);
    assert(seq![d].last() == d);
    lemma_splice_sorted(s, 0, 0, seq![d]);
}

proof fn lemma_put_back_tail(s: Seq<VMRange>, d: VMRange)
    requires
        ranges_sorted(s),
        s.len() > 0,
        d.wf(),
        s.last().end <= d.start,
    ensures
        d.start == s.last().end ==> put_back_ok(s, splice(s, s.len() - 1, s.len() as int, seq![VMRange { start: s.last().start, end: d.end }]), d),
        put_back_ok(s, splice(s, s.len() as int, s.len() as int, seq![d]), d),
{
    let n = s.len() as int;
    assert(s[n - 1].wf());
    if n > 1 {
        assert(s[n - 2].end <= s[n - 1].start);
    }
    lemma_one(s, n - 1);
    lemma_single(d);
    if d.start == s.last().end {
        let m = VMRange { start: s.last().start, end: d.end };
        lemma_single(m);
        lemma_splice_union(s, n - 1, n, seq![m], d);
        lemma_splice_sorted(s, n - 1, n, seq![m]);
    }
    assert(s.subrange(n, n) =~= Seq::<VMRange>::empty());
    assert(forall|x: int| #[trigger] in_ranges(s.subrange(n, n), x) <==> false);
    assert(sum_sizes(s.subrange(n, n)) == 0);
    lemma_splice_union(s, n, n, seq![d], d);
    lemma_splice_sorted(s, n, n, seq![d]);
}

/// No two ranges of the list touch: each ends strictly before the next starts, so every run of
/// free addresses is one range.
pub open spec fn ranges_apart(s: Seq<VMRange>) -> bool {
    forall|i: int, j: int| 0 <= i < j < s.len() ==> (#[trigger] s[i]).end < (#[trigger] s[j]).start
}

/// `d` fits between the neighbours `s[i]` and `s[i + 1]`.
pub open spec fn slot_at(s: Seq<VMRange>, i: int, d: VMRange) -> bool {
    &&& 0 <= i
    &&& i + 1 < s.len()
    &&& s[i].end <= d.start
    &&& d.end <= s[i + 1].start
}

/// `i` is the first place between two neighbours where `d` fits.
pub open spec fn first_slot(s: Seq<VMRange>, i: int, d: VMRange) -> bool {
    &&& slot_at(s, i, d)
    &&& forall|k: int| 0 <= k < i ==> !slot_at(s, k, d)
}

/// The list after `d` is put between `s[i]` and `s[i + 1]`: joined with each of them that it
/// touches, or as a range of its own.
pub open spec fn merge_at(s: Seq<VMRange>, i: int, d: VMRange) -> Seq<VMRange> {
    let l = s[i];
    let r = s[i + 1];
    if d.start == l.end && d.end == r.start {
        splice(s, i, i + 2, seq![VMRange { start: l.start, end: r.end }])
    } else if d.start == l.end {
        splice(s, i, i + 1, seq![VMRange { start: l.start, end: d.end }])
    } else if d.end == r.start {
        splice(s, i + 1, i + 2, seq![VMRange { start: d.start, end: r.end }])
    } else {
        splice(s, i + 1, i + 1, seq![d])
    }
}

/// The list after `d` is put back: into an empty list; joined with the first range when it
/// ends where that starts, or in front of it when it ends before; joined with the last range
/// when it starts where that ends, or behind it when it starts after; otherwise at the first
/// place between two neighbours where it fits. With no such place the list stays as it is.
pub open spec fn put_back(s: Seq<VMRange>, d: VMRange) -> Seq<VMRange> {
    if s.len() == 0 {
        seq![d]
    } else if d.end == s[0].start {
        splice(s, 0, 1, seq![VMRange { start: d.start, end: s[0].end }])
    } else if d.end < s[0].start {
        splice(s, 0, 0, seq![d])
    } else if d.start == s.last().end {
        splice(s, s.len() - 1, s.len() as int, seq![VMRange { start: s.last().start, end: d.end }])
    } else if d.start > s.last().end {
        splice(s, s.len() as int, s.len() as int, seq![d])
    } else if exists|i: int| first_slot(s, i, d) {
        merge_at(s, choose|i: int| first_slot(s, i, d), d)
    } else {
        s
    }
}

/// Replacing `s[i..j]` by `m` keeps the ranges apart when `m`'s are and `m` keeps a gap to
/// the neighbours on both sides.
pub proof fn lemma_splice_apart(s: Seq<VMRange>, i: int, j: int, m: Seq<VMRange>)
    requires
        ranges_sorted(s),
        ranges_apart(s),
        ranges_sorted(m),
        ranges_apart(m),
        0 <= i <= j <= s.len(),
        m.len() > 0 && i > 0 ==> s[i - 1].end < m[0].start,
        m.len() > 0 && j < s.len() ==> m.last().end < s[j].start,
    ensures
        ranges_apart(splice(s, i, j, m)),
{
    let t = splice(s, i, j, m);
    let ml = m.len() as int;
    assert forall|x: int, y: int| 0 <= x < y < t.len() implies (#[trigger] t[x]).end < (#[trigger] t[y]).start by {
        if y < i {
            assert(t[x] == s[x] && t[y] == s[y]);
        } else if y < i + ml {
            assert(t[y] == m[y - i]);
            if x < i {
                assert(t[x] == s[x]);
                if x < i - 1 {
                    assert(s[x].end < s[i - 1].start);
                }
                assert(s[i - 1].wf());
                assert(m[0].wf());
                if y - i > 0 {
                    assert(m[0].end < m[y - i].start);
                }
            } else {
                assert(t[x] == m[x - i]);
            }
        } else {
            let yy = y - i - ml + j;
            assert(t[y] == s[yy]);
            if x < i {
                assert(t[x] == s[x]);
            } else if x < i + ml {
                assert(t[x] == m[x - i]);
                if x - i < ml - 1 {
                    assert(m[x - i].end < m[ml - 1].start);
                }
                assert(m[ml - 1].wf());
                assert(m.last() == m[ml - 1]);
                if yy > j {
                    assert(s[j].end < s[yy].start);
                }
                assert(s[j].wf());
            } else {
                assert(t[x] == s[x - i - ml + j]);
            }
        }
    }
}

proof fn lemma_one_apart(x: VMRange)
    requires
        x.wf(),
    ensures
        ranges_sorted(seq![x]),
        ranges_apart(seq![x]),
{
}

/// Putting a range back keeps the ranges of a sorted list apart.
pub proof fn lemma_put_back_apart(s: Seq<VMRange>, d: VMRange)
    requires
        ranges_sorted(s),
        ranges_apart(s),
        d.wf(),
    ensures
        ranges_apart(put_back(s, d)),
{
    let n = s.len() as int;
    if n == 0 {
        lemma_one_apart(d);
        return;
    }
    assert(s[0].wf());
    assert(s[n - 1].wf());
    assert(s.last() == s[n - 1]);
    if d.end == s[0].start {
        let m = VMRange { start: d.start, end: s[0].end };
        lemma_one_apart(m);
        lemma_splice_apart(s, 0, 1, seq![m]);
    } else if d.end < s[0].start {
        lemma_one_apart(d);
        lemma_splice_apart(s, 0, 0, seq![d]);
    } else if d.start == s.last().end {
        let m = VMRange { start: s.last().start, end: d.end };
        lemma_one_apart(m);
        if n > 1 {
            assert(s[n - 2].end < s[n - 1].start);
        }
        lemma_splice_apart(s, n - 1, n, seq![m]);
    } else if d.start > s.last().end {
        lemma_one_apart(d);
        lemma_splice_apart(s, n, n, seq![d]);
    } else if exists|i: int| first_slot(s, i, d) {
        let i = choose|i: int| first_slot(s, i, d);
        let l = s[i];
        let r = s[i + 1];
        assert(l.wf() && r.wf());
        if i > 0 {
            assert(s[i - 1].end < s[i].start);
        }
        if i + 2 < n {
            assert(s[i + 1].end < s[i + 2].start);
        }
        if d.start == l.end && d.end == r.start {
            let m = VMRange { start: l.start, end: r.end };
            lemma_one_apart(m);
            lemma_splice_apart(s, i, i + 2, seq![m]);
        } else if d.start == l.end {
            let m = VMRange { start: l.start, end: d.end };
            lemma_one_apart(m);
            lemma_splice_apart(s, i, i + 1, seq![m]);
        } else if d.end == r.start {
            let m = VMRange { start: d.start, end: r.end };
            lemma_one_apart(m);
            lemma_splice_apart(s, i + 1, i + 2, seq![m]);
        } else {
            lemma_one_apart(d);
            lemma_splice_apart(s, i + 1, i + 1, seq![d]);
        }
    }
}

/// Where `d` fits first between two neighbours, and not at either end, that is where it is put.
proof fn lemma_put_back_at(s: Seq<VMRange>, i: int, d: VMRange)
    requires
        s.len() > 0,
        d.end > s[0].start,
        d.start < s.last().end,
        first_slot(s, i, d),
    ensures
        put_back(s, d) == merge_at(s, i, d),
{
    let c = choose|k: int| first_slot(s, k, d);
    assert(first_slot(s, c, d));
    if c < i {
        assert(!slot_at(s, c, d));
    }
    if c > i {
        assert(!slot_at(s, i, d));
    }
    assert(c == i);
}

/// Putting a nonempty range back into a place that fits it keeps the list sorted and its
/// ranges nonempty, and adds the range's addresses to those of the list.
proof fn lemma_put_back_shape(s: Seq<VMRange>, d: VMRange)
    requires
        ranges_sorted(s),
        ranges_nonempty(s),
        d.wf(),
        d.start < d.end,
        has_slot(s, d),
    ensures
        ranges_sorted(put_back(s, d)),
        ranges_nonempty(put_back(s, d)),
        free_set(put_back(s, d)) == free_set(s).union(d.addrs()),
{
    let n = s.len() as int;
    lemma_single(d);
    if n == 0 {
        lemma_one_apart(d);
        assert(free_set(seq![d]) =~= free_set(s).union(d.addrs())) by {
            assert forall|x: int| #[trigger] in_ranges(s, x) implies false by {}
        }
        return;
    }
    assert(s.last() == s[n - 1]);
    assert(s[0].start < s[0].end);
    assert(s[n - 1].start < s[n - 1].end);
    if d.end == s[0].start {
        lemma_put_back_head(s, d);
        lemma_splice_nonempty(s, 0, 1, seq![VMRange { start: d.start, end: s[0].end }]);
    } else if d.end < s[0].start {
        lemma_put_back_head(s, d);
        lemma_splice_nonempty(s, 0, 0, seq![d]);
    } else if d.start == s.last().end {
        lemma_put_back_tail(s, d);
        lemma_splice_nonempty(s, n - 1, n, seq![VMRange { start: s.last().start, end: d.end }]);
    } else if d.start > s.last().end {
        lemma_put_back_tail(s, d);
        lemma_splice_nonempty(s, n, n, seq![d]);
    } else {
        let i = choose|i: int| 0 <= i < s.len() - 1 && (#[trigger] s[i]).end <= d.start && d.end <= s[i + 1].start;
        assert(slot_at(s, i, d));
        assert forall|k: int| 0 <= k < i implies !slot_at(s, k, d) by {
            if slot_at(s, k, d) {
                if k + 1 < i {
                    assert(s[k + 1].end <= s[i].start);
                    assert(s[k + 1].start < s[k + 1].end);
                }
                assert(s[i].start < s[i].end);
            }
        }
        assert(first_slot(s, i, d));
        lemma_put_back_at(s, i, d);
        lemma_put_back_between(s, i, d);
        let l = s[i];
        let r = s[i + 1];
        assert(l.start < l.end && r.start < r.end);
        if d.start == l.end && d.end == r.start {
            lemma_splice_nonempty(s, i, i + 2, seq![VMRange { start: l.start, end: r.end }]);
        } else if d.start == l.end {
            lemma_splice_nonempty(s, i, i + 1, seq![VMRange { start: l.start, end: d.end }]);
        } else if d.end == r.start {
            lemma_splice_nonempty(s, i + 1, i + 2, seq![VMRange { start: d.start, end: r.end }]);
        } else {
            lemma_splice_nonempty(s, i + 1, i + 1, seq![d]);
        }
    }
}

/// Taking a nonempty part out of a range keeps the ranges of the list apart.
pub proof fn lemma_take_out_apart(s: Seq<VMRange>, i: int, r: VMRange)
    requires
        ranges_sorted(s),
        ranges_apart(s),
        0 <= i < s.len(),
        r.wf(),
        r.start < r.end,
        s[i].start <= r.start,
        r.end <= s[i].end,
    ensures
        ranges_apart(take_out(s, i, r)),
{
    let m = crate::vm_range::subtract_spec(s[i], r);
    assert(s[i].wf());
    crate::vm_range::lemma_subtract_spec(s[i], r);
    assert(ranges_sorted(m));
    if m.len() == 2 {
        assert(m[0].end == r.start && m[1].start == r.end);
    }
    assert(ranges_apart(m));
    if i > 0 {
        assert(s[i - 1].end < s[i].start);
    }
    if i + 1 < s.len() {
        assert(s[i].end < s[i + 1].start);
    }
    if m.len() > 0 {
        assert(m.last() == m[m.len() - 1]);
    }
    assert(take_out(s, i, r) =~= splice(s, i, i + 1, m));
    lemma_splice_apart(s, i, i + 1, m);
}

/// In a sorted list whose ranges are apart, a nonempty run `[a, b)` of addresses that the list
/// holds lies within one of its ranges.
pub proof fn lemma_run_in_one_range(s: Seq<VMRange>, a: int, b: int)
    requires
        ranges_sorted(s),
        ranges_apart(s),
        a < b,
    ensures
        (exists|i: int| 0 <= i < s.len() && (#[trigger] s[i]).has(a) && b <= s[i].end)
            <==> (forall|x: int| a <= x < b ==> #[trigger] in_ranges(s, x)),
{
    if forall|x: int| a <= x < b ==> #[trigger] in_ranges(s, x) {
        assert(in_ranges(s, a));
        let i = choose|i: int| 0 <= i < s.len() && (#[trigger] s[i]).has(a);
        if b > s[i].end {
            let e = s[i].end as int;
            assert(in_ranges(s, e));
            let j = choose|j: int| 0 <= j < s.len() && (#[trigger] s[j]).has(e);
            if j < i {
                assert(s[j].end < s[i].start);
            } else if j > i {
                assert(s[i].end < s[j].start);
            }
        }
    }
    if exists|i: int| 0 <= i < s.len() && (#[trigger] s[i]).has(a) && b <= s[i].end {
        let i = choose|i: int| 0 <= i < s.len() && (#[trigger] s[i]).has(a) && b <= s[i].end;
        assert forall|x: int| a <= x < b implies #[trigger] in_ranges(s, x) by {
            assert(s[i].has(x));
        }
    }
}

/// A sorted list of nonempty ranges that are apart starts at the lowest address it holds,
/// and its first range ends at the first address after that which it does not hold.
proof fn lemma_first_range(s: Seq<VMRange>)
    requires
        ranges_sorted(s),
        ranges_nonempty(s),
        ranges_apart(s),
        s.len() > 0,
    ensures
        in_ranges(s, s[0].start as int),
        forall|x: int| #[trigger] in_ranges(s, x) ==> s[0].start <= x,
        !in_ranges(s, s[0].end as int),
        forall|x: int| s[0].start <= x < s[0].end ==> #[trigger] in_ranges(s, x),
        forall|x: int| #[trigger] in_ranges(s, x) && !s[0].has(x) ==> s[0].end < x,
{
    assert(s[0].has(s[0].start as int));
    assert forall|x: int| #[trigger] in_ranges(s, x) implies s[0].start <= x by {
        let k = choose|k: int| 0 <= k < s.len() && (#[trigger] s[k]).has(x);
        if k > 0 {
            assert(s[0].end < s[k].start);
        }
    }
    if in_ranges(s, s[0].end as int) {
        let k = choose|k: int| 0 <= k < s.len() && (#[trigger] s[k]).has(s[0].end as int);
        if k > 0 {
            assert(s[0].end < s[k].start);
        }
    }
    assert forall|x: int| s[0].start <= x < s[0].end implies #[trigger] in_ranges(s, x) by {
        assert(s[0].has(x));
    }
    assert forall|x: int| #[trigger] in_ranges(s, x) && !s[0].has(x) implies s[0].end < x by {
        let k = choose|k: int| 0 <= k < s.len() && (#[trigger] s[k]).has(x);
        if k > 0 {
            assert(s[0].end < s[k].start);
        }
    }
}

/// A sorted list of nonempty ranges that are apart is fixed by the addresses it holds: two
/// such lists that hold the same addresses are the same list.
pub proof fn law_apart_ranges_fixed_by_addresses(s: Seq<VMRange>, t: Seq<VMRange>)
    requires
        ranges_sorted(s),
        ranges_nonempty(s),
        ranges_apart(s),
        ranges_sorted(t),
        ranges_nonempty(t),
        ranges_apart(t),
        free_set(s) == free_set(t),
    ensures
        s == t,
    decreases s.len(),
{
    assert forall|x: int| #[trigger] in_ranges(s, x) <==> in_ranges(t, x) by {
        assert(free_set(s).contains(x) == in_ranges(s, x));
        assert(free_set(t).contains(x) == in_ranges(t, x));
        assert(free_set(s).contains(x) == free_set(t).contains(x));
    }
    if s.len() == 0 {
        if t.len() > 0 {
            assert(t[0].has(t[0].start as int));
            assert(in_ranges(t, t[0].start as int));
            assert(!in_ranges(s, t[0].start as int));
        }
        assert(s =~= t);
        return;
    }
    if t.len() == 0 {
        assert(s[0].has(s[0].start as int));
        assert(in_ranges(s, s[0].start as int));
        return;
    }
    lemma_first_range(s);
    lemma_first_range(t);
    assert(in_ranges(s, t[0].start as int));
    assert(in_ranges(t, s[0].start as int));
    assert(s[0].start == t[0].start);
    if s[0].end < t[0].end {
        assert(in_ranges(t, s[0].end as int));
        assert(in_ranges(s, s[0].end as int));
    }
    if t[0].end < s[0].end {
        assert(in_ranges(s, t[0].end as int));
        assert(in_ranges(t, t[0].end as int));
    }
    assert(s[0] == t[0]);
    let s2 = s.drop_first();
    let t2 = t.drop_first();
    assert forall|x: int| #[trigger] in_ranges(s2, x) <==> in_ranges(s, x) && !s[0].has(x) by {
        if in_ranges(s2, x) {
            let k = choose|k: int| 0 <= k < s2.len() && (#[trigger] s2[k]).has(x);
            assert(s2[k] == s[k + 1]);
            assert(s[0].end < s[k + 1].start);
        }
        if in_ranges(s, x) && !s[0].has(x) {
            let k = choose|k: int| 0 <= k < s.len() && (#[trigger] s[k]).has(x);
            assert(s2[k - 1] == s[k]);
        }
    }
    assert forall|x: int| #[trigger] in_ranges(t2, x) <==> in_ranges(t, x) && !t[0].has(x) by {
        if in_ranges(t2, x) {
            let k = choose|k: int| 0 <= k < t2.len() && (#[trigger] t2[k]).has(x);
            assert(t2[k] == t[k + 1]);
            assert(t[0].end < t[k + 1].start);
        }
        if in_ranges(t, x) && !t[0].has(x) {
            let k = choose|k: int| 0 <= k < t.len() && (#[trigger] t[k]).has(x);
            assert(t2[k - 1] == t[k]);
        }
    }
    assert(free_set(s2) =~= free_set(t2));
    assert(ranges_sorted(s2) && ranges_nonempty(s2) && ranges_apart(s2)) by {
        assert forall|i: int| 0 <= i < s2.len() implies (#[trigger] s2[i]).wf() && s2[i].start < s2[i].end by {
            assert(s2[i] == s[i + 1]);
        }
        assert forall|i: int, j: int| 0 <= i < j < s2.len() implies (#[trigger] s2[i]).end < (#[trigger] s2[j]).start by {
            assert(s2[i] == s[i + 1] && s2[j] == s[j + 1]);
        }
    }
    assert(ranges_sorted(t2) && ranges_nonempty(t2) && ranges_apart(t2)) by {
        assert forall|i: int| 0 <= i < t2.len() implies (#[trigger] t2[i]).wf() && t2[i].start < t2[i].end by {
            assert(t2[i] == t[i + 1]);
        }
        assert forall|i: int, j: int| 0 <= i < j < t2.len() implies (#[trigger] t2[i]).end < (#[trigger] t2[j]).start by {
            assert(t2[i] == t[i + 1] && t2[j] == t[j + 1]);
        }
    }
    law_apart_ranges_fixed_by_addresses(s2, t2);
    assert(s =~= seq![s[0]] + s2);
    assert(t =~= seq![t[0]] + t2);
}

/// Free space manager: the free ranges in address order.
#[derive(Debug, Default)]
pub struct VMFreeSpaceManager {
    free_manager: Vec<VMRange>,
}

impl VMFreeSpaceManager {
    /// The free ranges.
    pub closed spec fn ranges(&self) -> Seq<VMRange> {
        self.free_manager@
    }

    /// The free addresses.
    pub open spec fn free_addrs(&self) -> Set<int> {
        free_set(self.ranges())
    }

    /// The free ranges are well formed and in address order.
    pub open spec fn wf(&self) -> bool {
        ranges_sorted(self.ranges())
    }

    /// A manager whose only free range is `initial_free_range`.
    pub fn new(initial_free_range: VMRange) -> (r: Self)
        ensures
            r.ranges() == seq![initial_free_range],
            initial_free_range.wf() ==> r.wf(),
    {
        let mut free_manager = Vec::with_capacity(100);
        free_manager.push(initial_free_range);
        VMFreeSpaceManager { free_manager }
    }

    /// The total size of the free ranges.
    pub fn free_size(&self) -> (r: usize)
        requires
            self.wf(),
        ensures
            r == sum_sizes(self.ranges()),
    {
        let ghost s = self.free_manager@;
        let mut acc: usize = 0;
        let mut i: usize = 0;
        while i < self.free_manager.len()
            invariant
                s == self.free_manager@,
                                ranges_sorted(s),
                i <= s.len(),
                acc == sum_sizes(s.take(i as int)),
            decreases s.len() - i,
        {
            proof {
                let t = s.take(i as int + 1);
                assert(t.drop_last() =~= s.take(i as int));
                assert(ranges_sorted(t));
                lemma_sum_bound(t);
                assert(t.last() == s[i as int]);
                assert(t[0] == s[0]);
            }
            acc = acc + self.free_manager[i].size();
            i = i + 1;
        }
        assert(s.take(i as int) =~= s);
        acc
    }

    /// Whether `free_range`, after skipping `random_offset` bytes and aligning, holds `target_size` bytes.
    fn check_free_range_usable(free_range: &VMRange, target_size: usize, align: usize, random_offset: usize) -> (r: bool)
        requires
            align > 0,
            free_range.end + random_offset + align + target_size <= usize::MAX,
            free_range.wf(),
        ensures
            r == usable(*free_range, target_size as int, align as int, random_offset as int),
    {
        let start = align_up(free_range.start() + random_offset, align);
        let end = start + target_size;
        if free_range.end() < end {
            return false;
        }
        true
    }

    /// Take the part `range` out of the free range at `index`.
    fn free_list_update_range(&mut self, index: usize, range: VMRange)
        requires
            old(self).wf(),
            index < old(self).ranges().len(),
            range.wf(),
            old(self).ranges()[index as int].start <= range.start,
            range.end <= old(self).ranges()[index as int].end,
        ensures
            final(self).ranges() == take_out(old(self).ranges(), index as int, range),
            final(self).wf(),
    {
        let ghost s = self.free_manager@;
        proof {
            lemma_take_out(s, index as int, range);
        }
        let ranges_after_subtraction = self.free_manager[index].subtract(&range);
        if ranges_after_subtraction.len() == 0 {
            self.free_manager.remove(index);
            assert(self.free_manager@ =~= take_out(s, index as int, range));
            return;
        }
        self.free_manager.set(index, ranges_after_subtraction[0]);
        if ranges_after_subtraction.len() == 2 {
            assert(index + 1 <= self.free_manager.len());
            self.free_manager.insert(index + 1, ranges_after_subtraction[1]);
        }
        assert(self.free_manager@ =~= take_out(s, index as int, range));
    }

    /// First fit among the free ranges that can hold the request after alignment; the ghost
    /// value is the index of the range it came from.
    fn find_any(&mut self, size: usize, align: usize, random_offset: usize) -> (r: (Result<VMRange, Errno>, Ghost<int>))
        requires
            old(self).wf(),
            align > 0,
            ends_below(old(self).ranges(), random_offset + align + size),
        ensures
            final(self).wf(),
            r.0 is Err <==> forall|j: int| 0 <= j < old(self).ranges().len() ==> !usable(#[trigger] old(self).ranges()[j], size as int, align as int, random_offset as int),
            r.0 is Err ==> r.0 == Err::<VMRange, Errno>(Errno::ENOMEM) && final(self).ranges() == old(self).ranges(),
            r.0 is Ok ==> is_first_usable(old(self).ranges(), r.1@, size as int, align as int, random_offset as int),
            r.0 is Ok ==> r.0->Ok_0 == aligned_pick(old(self).ranges()[r.1@], size as int, align as int, random_offset as int),
            r.0 is Ok ==> final(self).ranges() == take_out(old(self).ranges(), r.1@, r.0->Ok_0),
    {
        let ghost s = self.free_manager@;
        let mut idx: usize = 0;
        while idx < self.free_manager.len()
            invariant
                s == self.free_manager@,
                s == old(self).free_manager@,
                ranges_sorted(s),
                align > 0,
                ends_below(s, random_offset + align + size),
                idx <= s.len(),
                forall|j: int| 0 <= j < idx ==> !usable(#[trigger] s[j], size as int, align as int, random_offset as int),
            decreases s.len() - idx,
        {
            let free_range = self.free_manager[idx];
            if free_range.size() >= size && Self::check_free_range_usable(&free_range, size, align, random_offset) {
                proof {
                    lemma_align_up(free_range.start + random_offset, align as int);
                }
                let start = align_up(free_range.start() + random_offset, align);
                let end = start + size;
                let result = VMRange { start, end };
                self.free_list_update_range(idx, result);
                assert(usable(old(self).ranges()[idx as int], size as int, align as int, random_offset as int));
                return (Ok(result), Ghost(idx as int));
            }
            proof {
                if usable(free_range, size as int, align as int, random_offset as int) {
                    lemma_align_up(free_range.start + random_offset, align as int);
                }
            }
            idx = idx + 1;
        }
        (Err(Errno::ENOMEM), Ghost(0))
    }

    /// The hinted address when a free range holds the request there; otherwise the smallest
    /// free range that can hold it after alignment. The ghost value is the index of the range
    /// it came from.
    fn find_hint(&mut self, size: usize, align: usize, hint: usize, random_offset: usize) -> (r: (Result<VMRange, Errno>, Ghost<int>))
        requires
            old(self).wf(),
            align > 0,
            ends_below(old(self).ranges(), random_offset + align + size),
        ensures
            final(self).wf(),
            (exists|i: int| 0 <= i < old(self).ranges().len() && hint_fits(#[trigger] old(self).ranges()[i], size as int, align as int, hint as int))
                ==> r.0 == Ok::<VMRange, Errno>(VMRange { start: hint, end: (hint + size) as usize })
                    && 0 <= r.1@ < old(self).ranges().len()
                    && hint_fits(old(self).ranges()[r.1@], size as int, align as int, hint as int),
            !(exists|i: int| 0 <= i < old(self).ranges().len() && hint_fits(#[trigger] old(self).ranges()[i], size as int, align as int, hint as int))
                ==> {
                    &&& r.0 is Err <==> forall|j: int| 0 <= j < old(self).ranges().len() ==> !usable(#[trigger] old(self).ranges()[j], size as int, align as int, random_offset as int)
                    &&& r.0 is Ok ==> is_best_usable(old(self).ranges(), r.1@, size as int, align as int, random_offset as int)
                    &&& r.0 is Ok ==> r.0->Ok_0 == aligned_pick(old(self).ranges()[r.1@], size as int, align as int, random_offset as int)
                },
            r.0 is Err ==> r.0 == Err::<VMRange, Errno>(Errno::ENOMEM) && final(self).ranges() == old(self).ranges(),
            r.0 is Ok ==> final(self).ranges() == take_out(old(self).ranges(), r.1@, r.0->Ok_0),
    {
        let ghost s = self.free_manager@;
        let mut best: Option<usize> = None;
        let mut idx: usize = 0;
        while idx < self.free_manager.len()
            invariant
                s == self.free_manager@,
                s == old(self).free_manager@,
                ranges_sorted(s),
                align > 0,
                ends_below(s, random_offset + align + size),
                idx <= s.len(),
                forall|j: int| 0 <= j < idx ==> !hint_fits(#[trigger] s[j], size as int, align as int, hint as int),
                best is None ==> forall|j: int| 0 <= j < idx ==> !usable(#[trigger] s[j], size as int, align as int, random_offset as int),
                best matches Some(b) ==> b < idx && is_best_usable(s.take(idx as int), b as int, size as int, align as int, random_offset as int),
            decreases s.len() - idx,
        {
            let free_range = self.free_manager[idx];
            if free_range.size() >= size {
                if hint % align == 0 && free_range.contains(hint) && free_range.end() - hint >= size {
                    let result = VMRange { start: hint, end: hint + size };
                    self.free_list_update_range(idx, result);
                    assert(hint_fits(old(self).ranges()[idx as int], size as int, align as int, hint as int));
                    return (Ok(result), Ghost(idx as int));
                }
                if Self::check_free_range_usable(&free_range, size, align, random_offset) {
                    let replace = match best {
                        None => true,
                        Some(b) => self.free_manager[b].size() > free_range.size(),
                    };
                    if replace {
                        best = Some(idx);
                    }
                }
            }
            proof {
                if usable(free_range, size as int, align as int, random_offset as int) {
                    lemma_align_up(free_range.start + random_offset, align as int);
                }
                let t = s.take(idx as int + 1);
                match best {
                    Some(b) => {
                        assert forall|j: int| 0 <= j < t.len() && usable(#[trigger] t[j], size as int, align as int, random_offset as int)
                            implies t[b as int].spec_size() <= t[j].spec_size() by {
                            if j < idx {
                                assert(t[j] == s.take(idx as int)[j]);
                            }
                        }
                        assert forall|j: int| 0 <= j < b && usable(#[trigger] t[j], size as int, align as int, random_offset as int)
                            implies t[b as int].spec_size() < t[j].spec_size() by {
                            if b < idx {
                                assert(t[j] == s.take(idx as int)[j]);
                            } else {
                                assert(t[j] == s[j]);
                            }
                        }
                    },
                    None => {},
                }
            }
            idx = idx + 1;
        }
        proof {
            assert(s.take(idx as int) =~= s);
            assert forall|i: int| 0 <= i < old(self).ranges().len() implies !hint_fits(#[trigger] old(self).ranges()[i], size as int, align as int, hint as int) by {
                assert(old(self).ranges()[i] == s[i]);
            }
        }
        match best {
            None => {
                assert forall|j: int| 0 <= j < old(self).ranges().len() implies !usable(#[trigger] old(self).ranges()[j], size as int, align as int, random_offset as int) by {
                    assert(old(self).ranges()[j] == s[j]);
                }
                (Err(Errno::ENOMEM), Ghost(0))
            },
            Some(b) => {
                let free_range = self.free_manager[b];
                proof {
                    lemma_align_up(free_range.start + random_offset, align as int);
                }
                let start = align_up(free_range.start() + random_offset, align);
                let end = start + size;
                let result = VMRange { start, end };
                assert(usable(old(self).ranges()[b as int], size as int, align as int, random_offset as int));
                self.free_list_update_range(b, result);
                (Ok(result), Ghost(b as int))
            }
        }
    }

    /// The range `[addr, addr + size)`, when one free range holds all of it; the ghost value is
    /// the index of that range.
    fn find_fixed(&mut self, size: usize, addr: usize) -> (r: (Result<VMRange, Errno>, Ghost<int>))
        requires
            old(self).wf(),
        ensures
            final(self).wf(),
            r.0 is Ok <==> exists|i: int| 0 <= i < old(self).ranges().len() && (#[trigger] old(self).ranges()[i]).has(addr as int)
                && addr + size <= old(self).ranges()[i].end,
            r.0 is Err ==> r.0 == Err::<VMRange, Errno>(Errno::ENOMEM) && final(self).ranges() == old(self).ranges(),
            r.0 is Ok ==> r.0->Ok_0 == (VMRange { start: addr, end: (addr + size) as usize })
                && 0 <= r.1@ < old(self).ranges().len()
                && old(self).ranges()[r.1@].has(addr as int)
                && addr + size <= old(self).ranges()[r.1@].end
                && final(self).ranges() == take_out(old(self).ranges(), r.1@, r.0->Ok_0),
    {
        let ghost s = self.free_manager@;
        let mut idx: usize = 0;
        while idx < self.free_manager.len()
            invariant
                s == self.free_manager@,
                s == old(self).free_manager@,
                ranges_sorted(s),
                idx <= s.len(),
                forall|j: int| 0 <= j < idx ==> !((#[trigger] s[j]).has(addr as int) && addr + size <= s[j].end),
            decreases s.len() - idx,
        {
            let free_range = self.free_manager[idx];
            if free_range.size() >= size {
                if free_range.start() > addr {
                    proof {
                        assert forall|i: int| 0 <= i < old(self).ranges().len() implies !((#[trigger] old(self).ranges()[i]).has(addr as int) && addr + size <= old(self).ranges()[i].end) by {
                            assert(old(self).ranges()[i] == s[i]);
                            if i > idx {
                                assert(s[idx as int].end <= s[i].start);
                            }
                        }
                    }
                    return (Err(Errno::ENOMEM), Ghost(0));
                }
                if free_range.contains(addr) {
                    if free_range.end() - addr < size {
                        proof {
                            assert forall|i: int| 0 <= i < old(self).ranges().len() implies !((#[trigger] old(self).ranges()[i]).has(addr as int) && addr + size <= old(self).ranges()[i].end) by {
                                assert(old(self).ranges()[i] == s[i]);
                                if s[i].has(addr as int) {
                                    lemma_unique_holder(s, i, idx as int, addr as int);
                                }
                            }
                        }
                        return (Err(Errno::ENOMEM), Ghost(0));
                    }
                    let result = VMRange { start: addr, end: addr + size };
                    assert(old(self).ranges()[idx as int].has(addr as int) && addr + size <= old(self).ranges()[idx as int].end);
                    self.free_list_update_range(idx, result);
                    return (Ok(result), Ghost(idx as int));
                }
            }
            idx = idx + 1;
        }
        proof {
            assert forall|i: int| 0 <= i < old(self).ranges().len() implies !((#[trigger] old(self).ranges()[i]).has(addr as int) && addr + size <= old(self).ranges()[i].end) by {
                assert(old(self).ranges()[i] == s[i]);
            }
        }
        (Err(Errno::ENOMEM), Ghost(0))
    }

    #[verifier::spinoff_prover]
    #[verifier::rlimit(30)]
    fn find_free_range_internal(&mut self, size: usize, align: usize, addr: VMMapAddr, random_offset: usize) -> (r: Result<VMRange, Errno>)
        requires
            old(self).wf(),
            align > 0,
            !(addr is Need || addr is Force) ==> ends_below(old(self).ranges(), random_offset + align + size),
        ensures
            find_result(old(self).ranges(), final(self).ranges(), size as int, align as int, addr, random_offset as int, r),
            final(self).wf(),
    {
        let ghost s = self.ranges();
        let (r, Ghost(i)) = match addr {
            VMMapAddr::Any => self.find_any(size, align, random_offset),
            VMMapAddr::Hint(h) => self.find_hint(size, align, h, random_offset),
            VMMapAddr::Need(a) => self.find_fixed(size, a),
            VMMapAddr::Force(a) => self.find_fixed(size, a),
        };
        proof {
            if let Ok(v) = r {
                match addr {
                    VMMapAddr::Any => {
                        lemma_align_up(s[i].start + random_offset, align as int);
                    },
                    VMMapAddr::Hint(h) => {
                        if !(exists|k: int| 0 <= k < s.len() && hint_fits(#[trigger] s[k], size as int, align as int, h as int)) {
                            lemma_align_up(s[i].start + random_offset, align as int);
                        }
                    },
                    _ => {},
                }
                assert(0 <= i < s.len() && s[i].start <= v.start && v.end <= s[i].end && self.ranges() == take_out(s, i, v));
            }
        }
        r
    }

    /// Take a range of `size` bytes out of the free ranges, placed as `addr` asks, aligned to
    /// `align` after skipping `random_offset` bytes.
    pub fn find_free_range_with_random_offset(&mut self, size: usize, align: usize, addr: VMMapAddr, random_offset: usize) -> (r: Result<VMRange, Errno>)
        requires
            old(self).wf(),
            align > 0,
            !(addr is Need || addr is Force) ==> ends_below(old(self).ranges(), random_offset + align + size),
        ensures
            find_result(old(self).ranges(), final(self).ranges(), size as int, align as int, addr, random_offset as int, r),
            final(self).wf(),
            size > 0 && ranges_apart(old(self).ranges()) ==> ranges_apart(final(self).ranges()),
    {
        let ghost s = self.ranges();
        let r = self.find_free_range_internal(size, align, addr, random_offset);
        proof {
            if size > 0 && ranges_apart(s) {
                lemma_find_keeps_apart(s, self.ranges(), size as int, align as int, addr, random_offset as int, r);
            }
        }
        r
    }

    /// Take a range of `size` bytes out of the free ranges, placed as `addr` asks and aligned to `align`.
    pub fn find_free_range(&mut self, size: usize, align: usize, addr: VMMapAddr) -> (r: Result<VMRange, Errno>)
        requires
            old(self).wf(),
            align > 0,
            !(addr is Need || addr is Force) ==> ends_below(old(self).ranges(), align + size),
        ensures
            find_result(old(self).ranges(), final(self).ranges(), size as int, align as int, addr, 0, r),
            final(self).wf(),
            size > 0 && ranges_apart(old(self).ranges()) ==> ranges_apart(final(self).ranges()),
    {
        let ghost s = self.ranges();
        let r = self.find_free_range_internal(size, align, addr, 0);
        proof {
            if size > 0 && ranges_apart(s) {
                lemma_find_keeps_apart(s, self.ranges(), size as int, align as int, addr, 0, r);
            }
        }
        r
    }

    /// Put the range `dirty_range` back: merge it with every free range it touches, or insert
    /// it in address order (see `put_back`). Nothing changes when no place between the free
    /// ranges fits it. Free ranges that were apart stay apart, so a range that is given back
    /// next to free space becomes one range with it.
    #[verifier::spinoff_prover]
    #[verifier::rlimit(30)]
    pub fn add_range_back_to_free_manager(&mut self, dirty_range: &VMRange) -> (r: Result<(), Errno>)
        requires
            old(self).wf(),
            dirty_range.wf(),
        ensures
            r is Ok,
            final(self).wf(),
            final(self).ranges() == put_back(old(self).ranges(), *dirty_range),
            ranges_apart(old(self).ranges()) ==> ranges_apart(final(self).ranges()),
            has_slot(old(self).ranges(), *dirty_range) ==> final(self).free_addrs() == old(self).free_addrs().union(dirty_range.addrs())
                && sum_sizes(final(self).ranges()) == sum_sizes(old(self).ranges()) + dirty_range.spec_size(),
            !has_slot(old(self).ranges(), *dirty_range) ==> final(self).ranges() == old(self).ranges(),
            ranges_nonempty(old(self).ranges()) && dirty_range.start < dirty_range.end ==> ranges_nonempty(final(self).ranges()),
    {
        let ghost s = self.free_manager@;
        let d = *dirty_range;
        proof {
            lemma_single(d);
            if ranges_apart(s) {
                lemma_put_back_apart(s, d);
            }
        }
        // If the free list is empty, insert the dirty range and it's done.
        if self.free_manager.len() == 0 {
            self.free_manager.push(d);
            proof {
                assert(self.free_manager@ =~= splice(s, 0, 0, seq![d]));
                if ranges_nonempty(s) && d.start < d.end { lemma_splice_nonempty(s, 0, 0, seq![d]); }
                assert(s.subrange(0, 0) =~= Seq::<VMRange>::empty());
                assert(forall|x: int| #[trigger] in_ranges(s.subrange(0, 0), x) <==> false);
                assert(sum_sizes(s.subrange(0, 0)) == 0);
                lemma_splice_union(s, 0, 0, seq![d], d);
            }
            return Ok(());
        }

        let dirty_range_start = d.start();
        let dirty_range_end = d.end();
        let n = self.free_manager.len();

        // If the dirty range is before the first free range or after the last free range
        let head_range = self.free_manager[0];
        if dirty_range_end == head_range.start() {
            let mut new_head = head_range;
            new_head.set_start(dirty_range_start);
            self.free_manager.set(0, new_head);
            proof {
                assert(new_head == VMRange { start: d.start, end: s[0].end });
                lemma_put_back_head(s, d);
                assert(self.free_manager@ =~= splice(s, 0, 1, seq![new_head]));
                if ranges_nonempty(s) && d.start < d.end { lemma_splice_nonempty(s, 0, 1, seq![new_head]); }
            }
            return Ok(());
        }
        if dirty_range_end < head_range.start() {
            self.free_manager.insert(0, d);
            proof {
                lemma_put_back_head(s, d);
                assert(self.free_manager@ =~= splice(s, 0, 0, seq![d]));
                if ranges_nonempty(s) && d.start < d.end { lemma_splice_nonempty(s, 0, 0, seq![d]); }
            }
            return Ok(());
        }

        let tail_range = self.free_manager[n - 1];
        if dirty_range_start == tail_range.end() {
            let mut new_tail = tail_range;
            new_tail.set_end(dirty_range_end);
            self.free_manager.set(n - 1, new_tail);
            proof {
                assert(s.last() == s[n - 1]);
                assert(new_tail == VMRange { start: s.last().start, end: d.end });
                lemma_put_back_tail(s, d);
                assert(self.free_manager@ =~= splice(s, n - 1, n as int, seq![new_tail]));
                if ranges_nonempty(s) && d.start < d.end { assert(s[n - 1].start < s[n - 1].end); lemma_splice_nonempty(s, n - 1, n as int, seq![new_tail]); }
            }
            return Ok(());
        }
        if dirty_range_start > tail_range.end() {
            self.free_manager.push(d);
            proof {
                assert(s.last() == s[n - 1]);
                lemma_put_back_tail(s, d);
                assert(self.free_manager@ =~= splice(s, n as int, n as int, seq![d]));
                if ranges_nonempty(s) && d.start < d.end { lemma_splice_nonempty(s, n as int, n as int, seq![d]); }
            }
            return Ok(());
        }
        assert(s.last() == s[n - 1]);
        self.put_back_between(d);
        Ok(())
    }

    /// Put `d`, which ends after the first free range starts and starts before the last one
    /// ends, back between two neighbouring free ranges.
    #[verifier::spinoff_prover]
    #[verifier::rlimit(50)]
    fn put_back_between(&mut self, d: VMRange)
        requires
            old(self).wf(),
            d.wf(),
            old(self).ranges().len() > 0,
            d.end > old(self).ranges()[0].start,
            d.start < old(self).ranges().last().end,
        ensures
            final(self).wf(),
            has_slot(old(self).ranges(), d) ==> put_back_ok(old(self).ranges(), final(self).ranges(), d),
            !has_slot(old(self).ranges(), d) ==> final(self).ranges() == old(self).ranges(),
            ranges_nonempty(old(self).ranges()) && d.start < d.end ==> ranges_nonempty(final(self).ranges()),
            final(self).ranges() == put_back(old(self).ranges(), d),
    {
        let ghost s = self.free_manager@;
        assert(s.last() == s[s.len() - 1]);
        let n = self.free_manager.len();
        let dirty_range_start = d.start();
        let dirty_range_end = d.end();
        // The dirty range must be between some two ranges.
        let mut idx: usize = 0;
        while idx < n - 1
            invariant
                s == self.free_manager@,
                s == old(self).free_manager@,
                ranges_sorted(s),
                n == s.len(),
                n >= 1,
                d.wf(),
                dirty_range_start == d.start,
                dirty_range_end == d.end,
                d.end > s[0].start,
                d.start < s.last().end,
                idx <= n - 1,
                forall|k: int| 0 <= k < idx ==> !((#[trigger] s[k]).end <= d.start && d.end <= s[k + 1].start),
            decreases n - 1 - idx,
        {
            let left_range = self.free_manager[idx];
            let right_range = self.free_manager[idx + 1];

            if left_range.end() <= dirty_range_start && dirty_range_end <= right_range.start() {
                let touch_left = d.is_contiguous_with(&left_range);
                let touch_right = d.is_contiguous_with(&right_range);
                proof {
                    assert(s[idx as int].start <= s[idx as int].end);
                    assert(s[idx as int + 1].start <= s[idx as int + 1].end);
                    assert(touch_left <==> d.start == s[idx as int].end);
                    assert(touch_right <==> d.end == s[idx as int + 1].start);
                    lemma_put_back_between(s, idx as int, d);
                    assert(first_slot(s, idx as int, d));
                    lemma_put_back_at(s, idx as int, d);
                }
                if touch_left && touch_right {
                    let merged = VMRange { start: left_range.start(), end: right_range.end() };
                    self.free_manager.set(idx, merged);
                    self.free_manager.remove(idx + 1);
                    assert(self.free_manager@ =~= splice(s, idx as int, idx as int + 2, seq![merged]));
                    proof { if ranges_nonempty(s) && d.start < d.end { assert(s[idx as int].start < s[idx as int].end); lemma_splice_nonempty(s, idx as int, idx as int + 2, seq![merged]); } }
                } else if touch_left {
                    let mut new_left = left_range;
                    new_left.set_end(dirty_range_end);
                    self.free_manager.set(idx, new_left);
                    assert(self.free_manager@ =~= splice(s, idx as int, idx as int + 1, seq![new_left]));
                    proof { if ranges_nonempty(s) && d.start < d.end { assert(s[idx as int].start < s[idx as int].end); lemma_splice_nonempty(s, idx as int, idx as int + 1, seq![new_left]); } }
                } else if touch_right {
                    let mut new_right = right_range;
                    new_right.set_start(dirty_range_start);
                    self.free_manager.set(idx + 1, new_right);
                    assert(self.free_manager@ =~= splice(s, idx as int + 1, idx as int + 2, seq![new_right]));
                    proof { if ranges_nonempty(s) && d.start < d.end { assert(s[idx as int + 1].start < s[idx as int + 1].end); lemma_splice_nonempty(s, idx as int + 1, idx as int + 2, seq![new_right]); } }
                } else {
                    self.free_manager.insert(idx + 1, d);
                    assert(self.free_manager@ =~= splice(s, idx as int + 1, idx as int + 1, seq![d]));
                    proof { if ranges_nonempty(s) && d.start < d.end { lemma_splice_nonempty(s, idx as int + 1, idx as int + 1, seq![d]); } }
                }
                return;
            }
            idx = idx + 1;
        }
        assert(!has_slot(s, d)) by {
            assert(s.last() == s[n - 1]);
        }
        assert(!exists|i: int| first_slot(s, i, d));
    }

    /// Whether one free range holds all of `request_range`.
    pub fn is_free_range(&self, request_range: &VMRange) -> (r: bool)
        ensures
            r == exists|i: int| 0 <= i < self.ranges().len()
                && (#[trigger] self.ranges()[i]).start <= request_range.start && request_range.end <= self.ranges()[i].end,
    {
        let mut i: usize = 0;
        while i < self.free_manager.len()
            invariant
                i <= self.free_manager@.len(),
                forall|j: int| 0 <= j < i ==> !((#[trigger] self.free_manager@[j]).start <= request_range.start
                    && request_range.end <= self.free_manager@[j].end),
            decreases self.free_manager@.len() - i,
        {
            if self.free_manager[i].is_superset_of(request_range) {
                assert(self.ranges()[i as int].start <= request_range.start && request_range.end <= self.ranges()[i as int].end);
                return true;
            }
            i = i + 1;
        }
        false
    }
}

/// What a search for free space returns and leaves: on success a range of `size` bytes that was
/// free, chosen as `addr` asks, and the list without it; on failure `ENOMEM` and the list as it was.
pub open spec fn find_result(
    s: Seq<VMRange>,
    t: Seq<VMRange>,
    size: int,
    align: int,
    addr: VMMapAddr,
    ro: int,
    r: Result<VMRange, Errno>,
) -> bool {
    &&& r is Err ==> r == Err::<VMRange, Errno>(Errno::ENOMEM) && t == s
    &&& r matches Ok(v) ==> v.end - v.start == size && v.wf()
        && exists|i: int| 0 <= i < s.len() && s[i].start <= v.start && v.end <= s[i].end && t == take_out(s, i, v)
    &&& match addr {
        VMMapAddr::Any => {
            &&& r is Err <==> forall|j: int| 0 <= j < s.len() ==> !usable(#[trigger] s[j], size, align, ro)
            &&& r matches Ok(v) ==> exists|i: int| is_first_usable(s, i, size, align, ro) && v == aligned_pick(s[i], size, align, ro)
        },
        VMMapAddr::Hint(h) => {
            if exists|i: int| 0 <= i < s.len() && hint_fits(#[trigger] s[i], size, align, h as int) {
                (r matches Ok(v) && v.start == h)
            } else {
                &&& r is Err <==> forall|j: int| 0 <= j < s.len() ==> !usable(#[trigger] s[j], size, align, ro)
                &&& r matches Ok(v) ==> exists|i: int| is_best_usable(s, i, size, align, ro) && v == aligned_pick(s[i], size, align, ro)
            }
        },
        VMMapAddr::Need(a) | VMMapAddr::Force(a) => {
            &&& r is Ok <==> exists|i: int| 0 <= i < s.len() && (#[trigger] s[i]).has(a as int) && a + size <= s[i].end
            &&& r matches Ok(v) ==> v.start == a
        },
    }
}

/// Where a search for `size` bytes, placed as `addr` asks and aligned to `align` after
/// skipping `ro` bytes, puts the request among the free ranges `s`, or nothing when it cannot
/// be placed: the aligned start of the first range it fits for any address; the hinted
/// address when the request fits there, else the aligned start of the smallest range it fits;
/// a needed or forced address when one range holds the request there.
pub open spec fn placement(s: Seq<VMRange>, size: int, align: int, addr: VMMapAddr, ro: int) -> Option<VMRange> {
    match addr {
        VMMapAddr::Any => if exists|i: int| is_first_usable(s, i, size, align, ro) {
            Some(aligned_pick(s[choose|i: int| is_first_usable(s, i, size, align, ro)], size, align, ro))
        } else {
            None
        },
        VMMapAddr::Hint(h) => if exists|i: int| 0 <= i < s.len() && hint_fits(#[trigger] s[i], size, align, h as int) {
            Some(VMRange { start: h, end: (h + size) as usize })
        } else if exists|i: int| is_best_usable(s, i, size, align, ro) {
            Some(aligned_pick(s[choose|i: int| is_best_usable(s, i, size, align, ro)], size, align, ro))
        } else {
            None
        },
        VMMapAddr::Need(a) | VMMapAddr::Force(a) => if exists|i: int| 0 <= i < s.len()
            && (#[trigger] s[i]).has(a as int) && a + size <= s[i].end {
            Some(VMRange { start: a, end: (a + size) as usize })
        } else {
            None
        },
    }
}

/// The free range of `s` that holds `v`.
pub open spec fn holder(s: Seq<VMRange>, v: VMRange) -> int {
    choose|i: int| 0 <= i < s.len() && s[i].start <= v.start && v.end <= s[i].end
}

/// A search's result is its placement, and the free ranges it leaves are the ranges without
/// it: what `find_result` allows is one outcome only.
pub proof fn lemma_find_result_placement(s: Seq<VMRange>, t: Seq<VMRange>, size: int, align: int, addr: VMMapAddr, ro: int,
    r: Result<VMRange, Errno>)
    requires
        ranges_sorted(s),
        size > 0,
        find_result(s, t, size, align, addr, ro, r),
    ensures
        r is Ok <==> placement(s, size, align, addr, ro) is Some,
        r matches Ok(v) ==> v == placement(s, size, align, addr, ro)->0 && t == take_out(s, holder(s, v), v)
            && 0 <= holder(s, v) < s.len() && s[holder(s, v)].start <= v.start && v.end <= s[holder(s, v)].end,
        r is Err ==> t == s,
{
    match addr {
        VMMapAddr::Any => {
            if exists|i: int| is_first_usable(s, i, size, align, ro) {
                let i = choose|i: int| is_first_usable(s, i, size, align, ro);
                assert(usable(s[i], size, align, ro));
            }
            if let Ok(v) = r {
                let i = choose|i: int| is_first_usable(s, i, size, align, ro) && v == aligned_pick(s[i], size, align, ro);
                let c = choose|i: int| is_first_usable(s, i, size, align, ro);
                if c < i {
                    assert(!usable(s[c], size, align, ro));
                }
                if i < c {
                    assert(!usable(s[i], size, align, ro));
                }
            }
        },
        VMMapAddr::Hint(h) => {
            if !(exists|i: int| 0 <= i < s.len() && hint_fits(#[trigger] s[i], size, align, h as int)) {
                if exists|i: int| is_best_usable(s, i, size, align, ro) {
                    let i = choose|i: int| is_best_usable(s, i, size, align, ro);
                    assert(usable(s[i], size, align, ro));
                }
                if let Ok(v) = r {
                    let i = choose|i: int| is_best_usable(s, i, size, align, ro) && v == aligned_pick(s[i], size, align, ro);
                    let c = choose|i: int| is_best_usable(s, i, size, align, ro);
                    if c < i {
                        assert(usable(s[c], size, align, ro));
                        assert(s[i].spec_size() < s[c].spec_size());
                        assert(s[c].spec_size() <= s[i].spec_size());
                    }
                    if i < c {
                        assert(usable(s[i], size, align, ro));
                        assert(s[c].spec_size() < s[i].spec_size());
                        assert(s[i].spec_size() <= s[c].spec_size());
                    }
                }
            }
        },
        _ => {},
    }
    if let Ok(v) = r {
        let i = choose|i: int| 0 <= i < s.len() && s[i].start <= v.start && v.end <= s[i].end && t == take_out(s, i, v);
        let j = holder(s, v);
        assert(0 <= j < s.len() && s[j].start <= v.start && v.end <= s[j].end);
        if i < j {
            assert(s[i].end <= s[j].start);
        }
        if j < i {
            assert(s[j].end <= s[i].start);
        }
        assert(i == j);
    }
}

/// A search that takes a nonempty range out keeps the free ranges apart.
proof fn lemma_find_keeps_apart(s: Seq<VMRange>, t: Seq<VMRange>, size: int, align: int, addr: VMMapAddr, ro: int, r: Result<VMRange, Errno>)
    requires
        ranges_sorted(s),
        ranges_apart(s),
        size > 0,
        find_result(s, t, size, align, addr, ro, r),
    ensures
        ranges_apart(t),
{
    if let Ok(v) = r {
        let i = choose|i: int| 0 <= i < s.len() && s[i].start <= v.start && v.end <= s[i].end && t == take_out(s, i, v);
        lemma_take_out_apart(s, i, v);
    }
}

} // verus!

verus! {

/// Giving back a range that was just taken out of a free range restores the free addresses and
/// the free size: after a search takes `r` out of the `i`-th range, the list has a place for `r`,
/// and putting it back there yields the free set and the total size from before.
pub proof fn law_release_restores(s: Seq<VMRange>, i: int, r: VMRange)
    requires
        ranges_sorted(s),
        ranges_nonempty(s),
        0 <= i < s.len(),
        s[i].start <= r.start,
        r.start < r.end,
        r.end <= s[i].end,
    ensures
        has_slot(take_out(s, i, r), r),
        free_set(take_out(s, i, r)).union(r.addrs()) == free_set(s),
        sum_sizes(take_out(s, i, r)) + r.spec_size() == sum_sizes(s),
{
    let t = take_out(s, i, r);
    lemma_take_out(s, i, r);
    assert forall|a: int| r.has(a) implies !in_ranges(t, a) by {
        if in_ranges(t, a) {
            assert(free_set(t).contains(a));
        }
    }
    lemma_disjoint_has_slot(t, r);
    assert forall|a: int| free_set(t).union(r.addrs()).contains(a) <==> free_set(s).contains(a) by {
        if r.has(a) {
            assert(s[i].has(a));
            assert(in_ranges(s, a));
        }
    }
    assert(free_set(t).union(r.addrs()) =~= free_set(s));
}

/// Giving back a range that was just taken out of one of the free ranges, when the free ranges
/// are apart, restores the very list from before: the range is joined again with what is left
/// on either side of it.
pub proof fn law_take_out_put_back_restores(s: Seq<VMRange>, i: int, r: VMRange)
    requires
        ranges_sorted(s),
        ranges_nonempty(s),
        ranges_apart(s),
        0 <= i < s.len(),
        s[i].start <= r.start,
        r.start < r.end,
        r.end <= s[i].end,
    ensures
        put_back(take_out(s, i, r), r) == s,
{
    let t = take_out(s, i, r);
    law_release_restores(s, i, r);
    lemma_take_out(s, i, r);
    lemma_take_out_apart(s, i, r);
    let u = put_back(t, r);
    lemma_put_back_apart(t, r);
    lemma_put_back_shape(t, r);
    law_apart_ranges_fixed_by_addresses(u, s);
}

} // verus!
