//! A virtual memory area: a range of memory with its permissions, the file behind it, and the
//! processes that may access it.
use vstd::prelude::*;
use std::collections::HashMap;
use vstd::std_specs::iter::IteratorSpec;
use crate::errno::Errno;
use crate::vm_perms::VMPerms;
use crate::vm_range::VMRange;
use crate::vm_util::{FileBacked, FileRef, VMInitializer};

verus! {

broadcast use vstd::std_specs::hash::group_hash_axioms;

/// A process id.
pub type pid_t = u32;

/// Who may access a memory area.
#[derive(Debug)]
pub enum VMAccess {
    /// Can only be accessed by one single process
    Private(pid_t),
    /// Can be accessed by multi processes, also a reference counter
    /// to record sharings within each process(like thread)
    Shared(HashMap<pid_t, u32>),
}

/// The mathematical value of an access: a private owner, or the sharing counts per process.
pub enum AccessView {
    Private(pid_t),
    Shared(Map<pid_t, u32>),
}

impl View for VMAccess {
    type V = AccessView;

    open spec fn view(&self) -> AccessView {
        match self {
            VMAccess::Private(p) => AccessView::Private(*p),
            VMAccess::Shared(m) => AccessView::Shared(m@),
        }
    }
}

impl VMAccess {
    /// A copy of the access, with the same owner or the same sharing counts.
    pub fn duplicate(&self) -> (r: VMAccess)
        ensures
            r@ == self@,
    {
        match self {
            VMAccess::Private(p) => VMAccess::Private(*p),
            VMAccess::Shared(m) => VMAccess::Shared(m.clone()),
        }
    }

    /// Whether the two accesses are equal: the same private owner, or the same sharing counts.
    pub fn same_as(&self, other: &VMAccess) -> (r: bool)
        ensures
            r == (self@ == other@),
    {
        match (self, other) {
            (VMAccess::Private(a), VMAccess::Private(b)) => *a == *b,
            (VMAccess::Shared(a), VMAccess::Shared(b)) => {
                let r = same_counts(a, b);
                proof {
                    if r {
                        assert(a@ =~= b@);
                    }
                }
                r
            },
            _ => false,
        }
    }
}

/// Whether two sharing tables hold the same counts.
fn same_counts(a: &HashMap<pid_t, u32>, b: &HashMap<pid_t, u32>) -> (r: bool)
    ensures
        r == (a@ == b@),
{
    if a.len() != b.len() {
        return false;
    }
    let ghost items = vstd::std_specs::hash::spec_hash_map_iter(a).remaining();
    let mut all = true;
    for item in it: a.iter()
        invariant
            a@.len() == b@.len(),
            it.seq() == items,
            items == vstd::std_specs::hash::spec_hash_map_iter(a).remaining(),
            all ==> forall|i: int| 0 <= i < it.index() ==> b@.contains_key(*(#[trigger] items[i]).0)
                && b@[*items[i].0] == *items[i].1,
            !all ==> a@ != b@,
    {
        let (k, v) = item;
        proof {
            assert(a@.contains_key(*k) && a@[*k] == *v);
        }
        match b.get(k) {
            Some(w) => {
                if *w != *v {
                    all = false;
                }
            },
            None => {
                all = false;
            },
        }
    }
    proof {
        if all {
            assert forall|k: pid_t| a@.contains_key(k) implies b@.contains_key(k) && b@[k] == a@[k] by {
                assert(items.contains((&k, &a@[k])));
                let i = choose|i: int| 0 <= i < items.len() && items[i] == (&k, &a@[k]);
                assert(b@.contains_key(*items[i].0));
            }
            assert(a@.dom().subset_of(b@.dom()));
            vstd::set_lib::lemma_subset_equality(a@.dom(), b@.dom());
            assert(a@ =~= b@);
        }
    }
    all
}

/// The mathematical value of an area: its range, permissions, file and access.
pub struct VMAreaView {
    pub range: VMRange,
    pub perms: VMPerms,
    pub file_backed: Option<FileBacked>,
    pub access: AccessView,
}

impl VMAreaView {
    /// The file and offset that the area writes back to, if it does.
    pub open spec fn writeback_file(self) -> Option<(FileRef, usize)> {
        match self.file_backed {
            Some(f) => if f.write_back { Some((f.file, f.offset)) } else { None },
            None => None,
        }
    }
}

/// A range of memory with its permissions, the file behind it, and who may access it.
#[derive(Debug)]
pub struct VMArea {
    range: VMRange,
    perms: VMPerms,
    file_backed: Option<FileBacked>,
    access: VMAccess,
}

impl View for VMArea {
    type V = VMAreaView;

    open spec fn view(&self) -> VMAreaView {
        VMAreaView {
            range: self.spec_range(),
            perms: self.spec_perms(),
            file_backed: self.spec_file_backed(),
            access: self.spec_access(),
        }
    }
}

impl VMArea {
    pub closed spec fn spec_range(&self) -> VMRange { self.range }
    pub closed spec fn spec_perms(&self) -> VMPerms { self.perms }
    pub closed spec fn spec_file_backed(&self) -> Option<FileBacked> { self.file_backed }
    pub closed spec fn spec_access(&self) -> AccessView { self.access@ }

    /// The file and offset that the area writes back to, if it does.
    pub open spec fn spec_writeback_file(&self) -> Option<(FileRef, usize)> {
        match self.spec_file_backed() {
            Some(f) => if f.write_back { Some((f.file, f.offset)) } else { None },
            None => None,
        }
    }

    /// The area is the same as the one made of these parts.
    pub open spec fn is(&self, range: VMRange, perms: VMPerms, file_backed: Option<FileBacked>, access: AccessView) -> bool {
        self.spec_range() == range && self.spec_perms() == perms && self.spec_file_backed() == file_backed && self.spec_access() == access
    }

    /// A private area of process `pid`.
    pub fn new(range: VMRange, perms: VMPerms, file_backed: Option<FileBacked>, pid: pid_t) -> (r: VMArea)
        ensures
            r.is(range, perms, file_backed, AccessView::Private(pid)),
    {
        VMArea { range, perms, file_backed, access: VMAccess::Private(pid) }
    }

    /// A copy of the area.
    pub fn duplicate(&self) -> (r: VMArea)
        ensures
            r.is(self.spec_range(), self.spec_perms(), self.spec_file_backed(), self.spec_access()),
    {
        VMArea { range: self.range, perms: self.perms, file_backed: self.file_backed, access: self.access.duplicate() }
    }

    /// The file behind `vma`, moved forward by the distance from the start of `vma` to `new_start`.
    pub open spec fn shifted_file(file_backed: Option<FileBacked>, vma_start: usize, new_start: usize) -> Option<FileBacked> {
        match file_backed {
            Some(f) => Some(FileBacked { offset: (f.offset + (new_start - vma_start)) as usize, ..f }),
            None => None,
        }
    }

    /// A new area over `new_range`, a part of `vma`, with its own permissions and access, whose
    /// file (if any) is the file of `vma` at the offset that matches `new_range`.
    pub fn inherits_file_from(vma: &VMArea, new_range: VMRange, new_perms: VMPerms, access: VMAccess) -> (r: Self)
        requires
            vma.spec_range().start <= new_range.start,
            new_range.end <= vma.spec_range().end,
            vma.spec_file_backed() matches Some(f) ==> f.offset + (new_range.start - vma.spec_range().start) <= usize::MAX,
        ensures
            r.is(new_range, new_perms, Self::shifted_file(vma.spec_file_backed(), vma.spec_range().start, new_range.start), access@),
    {
        let new_backed_file = match &vma.file_backed {
            Some(file) => {
                let mut new_file = *file;
                let file_offset = file.offset();
                let new_start_offset = new_range.start() - vma.range.start();
                let new_file_offset = file_offset + new_start_offset;
                new_file.set_offset(new_file_offset);
                Some(new_file)
            },
            None => None,
        };
        VMArea { range: new_range, perms: new_perms, file_backed: new_backed_file, access }
    }

    pub fn perms(&self) -> (r: VMPerms)
        ensures
            r == self.spec_perms(),
    {
        self.perms
    }

    pub fn range(&self) -> (r: &VMRange)
        ensures
            *r == self.spec_range(),
    {
        &self.range
    }

    pub fn access(&self) -> (r: &VMAccess)
        ensures
            r@ == self.spec_access(),
    {
        &self.access
    }

    pub fn start(&self) -> (r: usize)
        ensures
            r == self.spec_range().start,
    {
        self.range.start()
    }

    pub fn end(&self) -> (r: usize)
        ensures
            r == self.spec_range().end,
    {
        self.range.end()
    }

    pub fn size(&self) -> (r: usize)
        requires
            self.spec_range().wf(),
        ensures
            r == self.spec_range().end - self.spec_range().start,
    {
        self.range.size()
    }

    /// Whether process `target_pid` may access the area.
    pub fn belong_to(&self, target_pid: pid_t) -> (r: bool)
        ensures
            r == match self.spec_access() {
                AccessView::Private(p) => p == target_pid,
                AccessView::Shared(m) => m.contains_key(target_pid),
            },
    {
        match &self.access {
            VMAccess::Private(pid) => *pid == target_pid,
            VMAccess::Shared(pid_table) => pid_table.contains_key(&target_pid),
        }
    }

    /// Whether process `target_pid` is the only one that accesses the area, and only once.
    pub fn exclusive_by(&self, target_pid: pid_t) -> (r: bool)
        ensures
            r == match self.spec_access() {
                AccessView::Private(p) => p == target_pid,
                AccessView::Shared(m) => m.len() == 1 && m.contains_key(target_pid) && m[target_pid] == 1,
            },
    {
        match &self.access {
            VMAccess::Private(pid) => *pid == target_pid,
            VMAccess::Shared(pid_table) => {
                pid_table.len() == 1 && pid_table.contains_key(&target_pid) && match pid_table.get(&target_pid) {
                    Some(c) => *c == 1,
                    None => false,
                }
            },
        }
    }

    /// The owner of a private area.
    pub fn pid(&self) -> (r: pid_t)
        requires
            self.spec_access() is Private,
        ensures
            self.spec_access() == AccessView::Private(r),
    {
        match self.access {
            VMAccess::Private(pid) => pid,
            VMAccess::Shared(_) => 0,
        }
    }

    /// The file and offset that the area is loaded from, if a file is behind it.
    pub fn init_file(&self) -> (r: Option<(FileRef, usize)>)
        ensures
            r == match self.spec_file_backed() {
                Some(f) => Some((f.file, f.offset)),
                None => None,
            },
    {
        match &self.file_backed {
            Some(file) => Some(file.init_file()),
            None => None,
        }
    }

    /// The file and offset that the area writes back to, if it does.
    pub fn writeback_file(&self) -> (r: Option<(FileRef, usize)>)
        ensures
            r == self.spec_writeback_file(),
    {
        match &self.file_backed {
            Some(file) => file.writeback_file(),
            None => None,
        }
    }

    pub fn set_perms(&mut self, new_perms: VMPerms)
        ensures
            final(self).is(old(self).spec_range(), new_perms, old(self).spec_file_backed(), old(self).spec_access()),
    {
        self.perms = new_perms;
    }

    pub fn is_shared(&self) -> (r: bool)
        ensures
            r == self.spec_access() is Shared,
    {
        match self.access {
            VMAccess::Private(_) => false,
            VMAccess::Shared(_) => true,
        }
    }

    /// Turn a private area into a shared one that its owner holds once.
    pub fn mark_shared(&mut self)
        ensures
            final(self).spec_range() == old(self).spec_range(),
            final(self).spec_perms() == old(self).spec_perms(),
            final(self).spec_file_backed() == old(self).spec_file_backed(),
            final(self).spec_access() == match old(self).spec_access() {
                AccessView::Private(p) => AccessView::Shared(map![p => 1u32]),
                a => a,
            },
    {
        let pid = match self.access {
            VMAccess::Private(pid) => pid,
            VMAccess::Shared(_) => {
                return;
            },
        };
        let mut table = HashMap::new();
        table.insert(pid, 1u32);
        proof {
            assert(table@ =~= map![pid => 1u32]);
        }
        self.access = VMAccess::Shared(table);
    }

    /// Count one more sharing by process `pid`; a private area is refused.
    pub fn attach_shared_process(&mut self, pid: pid_t) -> (r: Result<(), Errno>)
        requires
            old(self).spec_access() matches AccessView::Shared(m) ==> (m.contains_key(pid) ==> m[pid] < u32::MAX),
        ensures
            r is Err <==> old(self).spec_access() is Private,
            r is Err ==> r == Err::<(), Errno>(Errno::EINVAL) && final(self).spec_access() == old(self).spec_access(),
            final(self).spec_range() == old(self).spec_range(),
            final(self).spec_perms() == old(self).spec_perms(),
            final(self).spec_file_backed() == old(self).spec_file_backed(),
            old(self).spec_access() matches AccessView::Shared(m) ==> final(self).spec_access() == AccessView::Shared(attached(m, pid)),
    {
        match &mut self.access {
            VMAccess::Private(_) => Err(Errno::EINVAL),
            VMAccess::Shared(pid_table) => {
                let count = match pid_table.get(&pid) {
                    Some(c) => *c + 1,
                    None => 1,
                };
                pid_table.insert(pid, count);
                Ok(())
            },
        }
    }

    /// Count one sharing less by process `pid`, dropping it when no sharing is left or when
    /// `force_detach`; tells whether no process shares the area any more. A private area is refused.
    pub fn detach_shared_process(&mut self, pid: pid_t, force_detach: bool) -> (r: Result<bool, Errno>)
        requires
            old(self).spec_access() matches AccessView::Shared(m) ==> (m.contains_key(pid) ==> m[pid] > 0),
        ensures
            r is Err <==> old(self).spec_access() is Private,
            r is Err ==> r == Err::<bool, Errno>(Errno::EINVAL) && final(self).spec_access() == old(self).spec_access(),
            final(self).spec_range() == old(self).spec_range(),
            final(self).spec_perms() == old(self).spec_perms(),
            final(self).spec_file_backed() == old(self).spec_file_backed(),
            old(self).spec_access() matches AccessView::Shared(m) ==> {
                let m2 = detached(m, pid, force_detach);
                &&& final(self).spec_access() == AccessView::Shared(m2)
                &&& r == Ok::<bool, Errno>(m2.is_empty())
            },
    {
        match &mut self.access {
            VMAccess::Private(_) => Err(Errno::EINVAL),
            VMAccess::Shared(pid_table) => {
                match pid_table.get(&pid) {
                    Some(c) => {
                        let count = *c - 1;
                        if count == 0 || force_detach {
                            pid_table.remove(&pid);
                        } else {
                            pid_table.insert(pid, count);
                        }
                    },
                    None => {},
                }
                Ok(pid_table.is_empty())
            },
        }
    }

    /// Take over the access of `vma`.
    pub fn inherits_access_from(&mut self, vma: &VMArea)
        ensures
            final(self).is(old(self).spec_range(), old(self).spec_perms(), old(self).spec_file_backed(), vma.spec_access()),
    {
        self.access = vma.access.duplicate();
    }

    /// The parts of the area outside `other`, each inheriting the file, permissions and access.
    pub fn subtract(&self, other: &VMRange) -> (r: Vec<VMArea>)
        requires
            self.spec_range().wf(),
            other.wf(),
            self.spec_file_backed() matches Some(f) ==> f.offset + self.spec_range().spec_size() <= usize::MAX,
        ensures
            r@.len() == crate::vm_range::subtract_spec(self.spec_range(), *other).len(),
            forall|i: int| 0 <= i < r@.len() ==> (#[trigger] r@[i]).is(
                crate::vm_range::subtract_spec(self.spec_range(), *other)[i],
                self.spec_perms(),
                Self::shifted_file(self.spec_file_backed(), self.spec_range().start, crate::vm_range::subtract_spec(self.spec_range(), *other)[i].start),
                self.spec_access()),
    {
        let ranges = self.range.subtract(other);
        proof {
            crate::vm_range::lemma_subtract_spec(self.range, *other);
        }
        let mut out: Vec<VMArea> = Vec::new();
        let mut i: usize = 0;
        while i < ranges.len()
            invariant
                ranges@ == crate::vm_range::subtract_spec(self.spec_range(), *other),
                i <= ranges@.len(),
                out@.len() == i,
                self.spec_range().wf(),
                self.spec_file_backed() matches Some(f) ==> f.offset + self.spec_range().spec_size() <= usize::MAX,
                forall|j: int| 0 <= j < ranges@.len() ==> self.spec_range().start <= (#[trigger] ranges@[j]).start && ranges@[j].end <= self.spec_range().end,
                forall|j: int| 0 <= j < i ==> (#[trigger] out@[j]).is(ranges@[j], self.spec_perms(),
                    Self::shifted_file(self.spec_file_backed(), self.spec_range().start, ranges@[j].start), self.spec_access()),
            decreases ranges@.len() - i,
        {
            let piece = Self::inherits_file_from(self, ranges[i], self.perms, self.access.duplicate());
            out.push(piece);
            i = i + 1;
        }
        out
    }

    /// The part of the area inside `other`, inheriting the file, permissions and access, when
    /// the two overlap or touch.
    pub fn intersect(&self, other: &VMRange) -> (r: Option<VMArea>)
        requires
            self.spec_range().wf(),
            self.spec_file_backed() matches Some(f) ==> f.offset + self.spec_range().spec_size() <= usize::MAX,
        ensures
            r is Some <==> (if self.spec_range().start > other.start { self.spec_range().start } else { other.start })
                <= (if self.spec_range().end < other.end { self.spec_range().end } else { other.end }),
            r matches Some(v) ==> {
                let s = if self.spec_range().start > other.start { self.spec_range().start } else { other.start };
                let e = if self.spec_range().end < other.end { self.spec_range().end } else { other.end };
                v.is(VMRange { start: s, end: e }, self.spec_perms(),
                    Self::shifted_file(self.spec_file_backed(), self.spec_range().start, s), self.spec_access())
            },
    {
        let new_range = match self.range.intersect(other) {
            None => return None,
            Some(r) => r,
        };
        Some(Self::inherits_file_from(self, new_range, self.perms, self.access.duplicate()))
    }

    /// The file behind the area after its start moved from `old_start` to `new_start`.
    pub open spec fn moved_file(file_backed: Option<FileBacked>, old_start: usize, new_start: usize) -> Option<FileBacked> {
        match file_backed {
            Some(f) => Some(FileBacked { offset: (f.offset + new_start - old_start) as usize, ..f }),
            None => None,
        }
    }

    /// Move the start of the area, moving the file offset with it.
    pub fn set_start(&mut self, new_start: usize)
        requires
            old(self).spec_file_backed() matches Some(f) ==> 0 <= f.offset + new_start - old(self).spec_range().start <= usize::MAX,
        ensures
            final(self).is(VMRange { start: new_start, end: old(self).spec_range().end }, old(self).spec_perms(),
                Self::moved_file(old(self).spec_file_backed(), old(self).spec_range().start, new_start), old(self).spec_access()),
    {
        let old_start = self.range.start();
        if new_start == old_start {
            proof {
                if let Some(f) = self.file_backed {
                    assert(Self::moved_file(self.file_backed, old_start, new_start) == Some(f));
                }
            }
            return;
        }
        self.range.set_start(new_start);
        if let Some(file) = &mut self.file_backed {
            let offset = file.offset();
            if old_start < new_start {
                file.set_offset(offset + (new_start - old_start));
            } else {
                file.set_offset(offset - (old_start - new_start));
            }
        }
    }

    /// Move the end of the area.
    pub fn set_end(&mut self, new_end: usize)
        ensures
            final(self).is(VMRange { start: old(self).spec_range().start, end: new_end }, old(self).spec_perms(),
                old(self).spec_file_backed(), old(self).spec_access()),
    {
        self.range.set_end(new_end);
    }

    /// Whether two areas describe the same memory: same access, range and permissions, and the
    /// same write-back file at the same offset, or none.
    pub fn is_the_same_to(&self, other: &VMArea) -> (r: bool)
        ensures
            r == (self.spec_access() == other.spec_access()
                && self.spec_range() == other.spec_range()
                && self.spec_perms() == other.spec_perms()
                && self.spec_writeback_file() == other.spec_writeback_file()),
    {
        if !self.access.same_as(&other.access) {
            return false;
        }
        if self.range != other.range {
            return false;
        }
        if self.perms != other.perms {
            return false;
        }
        match (self.writeback_file(), other.writeback_file()) {
            (None, None) => true,
            (Some(_), None) => false,
            (None, Some(_)) => false,
            (Some((self_file, self_offset)), Some((other_file, other_offset))) => {
                self_file.id == other_file.id && self_offset == other_offset
            },
        }
    }

    /// Whether `left` and `right` can become one area: both nonempty, same access, `left` ends
    /// where `right` starts, same permissions, and the same write-back file continuing from
    /// `left` into `right`, or none.
    pub fn can_merge_vmas(left: &VMArea, right: &VMArea) -> (r: bool)
        requires
            left.spec_range().wf(),
            right.spec_range().wf(),
        ensures
            r == can_merge_spec(*left, *right),
    {
        if left.size() == 0 || right.size() == 0 {
            return false;
        }
        if !left.access.same_as(&right.access) {
            return false;
        }
        if left.end() != right.start() {
            return false;
        }
        if left.perms != right.perms {
            return false;
        }
        match (left.writeback_file(), right.writeback_file()) {
            (None, None) => true,
            (Some(_), None) => false,
            (None, Some(_)) => false,
            (Some((left_file, left_offset)), Some((right_file, right_offset))) => {
                left_file.id == right_file.id && right_offset > left_offset && right_offset - left_offset == left.size()
            },
        }
    }
}

/// The sharing counts `m` after process `pid` shares the area once more.
pub open spec fn attached(m: Map<pid_t, u32>, pid: pid_t) -> Map<pid_t, u32> {
    m.insert(pid, if m.contains_key(pid) { (m[pid] + 1) as u32 } else { 1u32 })
}

/// The sharing counts `m` after process `pid` shares the area once less, or not at all when
/// `force`.
pub open spec fn detached(m: Map<pid_t, u32>, pid: pid_t, force: bool) -> Map<pid_t, u32> {
    if !m.contains_key(pid) {
        m
    } else if m[pid] == 1 || force {
        m.remove(pid)
    } else {
        m.insert(pid, (m[pid] - 1) as u32)
    }
}

/// A process that shares an area once more and then once less leaves the sharing counts as
/// they were.
pub proof fn law_attach_then_detach_restores(m: Map<pid_t, u32>, pid: pid_t)
    requires
        m.contains_key(pid) ==> 0 < m[pid] < u32::MAX,
    ensures
        detached(attached(m, pid), pid, false) == m,
{
    if m.contains_key(pid) {
        assert(detached(attached(m, pid), pid, false) =~= m);
    } else {
        assert(detached(attached(m, pid), pid, false) =~= m);
    }
}

/// How to fill a range of an area's memory.
#[derive(Clone, Copy, Debug, PartialEq, Eq, Structural)]
pub enum MemInitPlan {
    /// Read the file, which must be readable, from `offset` into the range, then set
    /// `protect` when given.
    ReadFile { file: FileRef, offset: usize, protect: Option<VMPerms> },
    /// Clear the range, then set `protect` when given.
    Zero { protect: Option<VMPerms> },
    /// Set `protect` when given.
    Protect { protect: Option<VMPerms> },
    /// Commit the pages of the range, filled from the file at `offset`, with `perms`.
    CommitWithFile { file: FileRef, offset: usize, perms: VMPerms },
    /// Commit the pages of the range with `perms`.
    Commit { perms: VMPerms },
}

/// The permissions to set after filling committed memory: none when they are the default ones.
pub open spec fn protect_after(perms: VMPerms) -> Option<VMPerms> {
    if perms.bits == crate::vm_perms::VM_PERM_DEFAULT { None } else { Some(perms) }
}

impl VMArea {
    /// How to fill `target_range`, a part of the area: as `initializer` says for committed
    /// memory (a file is read at the offset that matches the range, zeros are written, or
    /// nothing), setting the area's permissions afterwards unless they are the default ones;
    /// with no initializer, on a page fault, the pages are committed, filled from the area's
    /// file when it has one.
    pub fn init_memory_plan(&self, target_range: &VMRange, initializer: Option<&VMInitializer>) -> (r: MemInitPlan)
        requires
            self@.range.start <= target_range.start,
            target_range.end <= self@.range.end,
            initializer matches Some(i) ==> (i is DoNothing || i is FillZeros || i is LoadFromFile),
            initializer matches Some(VMInitializer::LoadFromFile { offset, .. }) ==> *offset + (target_range.start - self@.range.start) <= usize::MAX,
            self@.file_backed matches Some(f) ==> f.offset + (target_range.start - self@.range.start) <= usize::MAX,
        ensures
            r == match initializer {
                Some(VMInitializer::LoadFromFile { file, offset }) => MemInitPlan::ReadFile {
                    file: *file,
                    offset: (*offset + (target_range.start - self@.range.start)) as usize,
                    protect: protect_after(self@.perms),
                },
                Some(VMInitializer::FillZeros()) => MemInitPlan::Zero { protect: protect_after(self@.perms) },
                Some(_) => MemInitPlan::Protect { protect: protect_after(self@.perms) },
                None => match self@.file_backed {
                    Some(f) => MemInitPlan::CommitWithFile {
                        file: f.file,
                        offset: (f.offset + (target_range.start - self@.range.start)) as usize,
                        perms: self@.perms,
                    },
                    None => MemInitPlan::Commit { perms: self@.perms },
                },
            },
    {
        let perms = self.perms;
        let protect = if perms.is_default() { None } else { Some(perms) };
        match initializer {
            Some(init) => match init {
                VMInitializer::LoadFromFile { file, offset } => {
                    MemInitPlan::ReadFile { file: *file, offset: *offset + (target_range.start() - self.range.start()), protect }
                },
                VMInitializer::FillZeros() => MemInitPlan::Zero { protect },
                _ => MemInitPlan::Protect { protect },
            },
            None => match self.init_file() {
                Some((file, offset)) => MemInitPlan::CommitWithFile {
                    file,
                    offset: offset + (target_range.start() - self.range.start()),
                    perms,
                },
                None => MemInitPlan::Commit { perms },
            },
        }
    }
}

/// Where the part `q` of the area `v` is written back: the area's file at the matching
/// offset, when the area writes back and the file is writable.
pub open spec fn flush_target(v: VMAreaView, q: VMRange, file_writable: bool) -> Option<(FileRef, usize)> {
    match v.writeback_file() {
        Some((f, o)) => if file_writable { Some((f, (o + (q.start - v.range.start)) as usize)) } else { None },
        None => None,
    }
}

impl VMArea {
    /// The memory to write back and clear when the area goes, or to write back on a sync: each
    /// range of committed memory (`committed`, in address order), with the place in the file
    /// where it is written when the area writes back to a writable file.
    pub fn flush_plan(&self, committed: &Vec<VMRange>, file_writable: bool) -> (r: Vec<(VMRange, Option<(FileRef, usize)>)>)
        requires
            forall|i: int| 0 <= i < committed@.len() ==> self@.range.start <= (#[trigger] committed@[i]).start
                && committed@[i].start <= committed@[i].end && committed@[i].end <= self@.range.end,
            self@.file_backed matches Some(f) ==> f.offset + self@.range.spec_size() <= usize::MAX,
        ensures
            r@.len() == committed@.len(),
            forall|i: int| 0 <= i < r@.len() ==> (#[trigger] r@[i]) == (committed@[i], flush_target(self@, committed@[i], file_writable)),
    {
        let target = if file_writable { self.writeback_file() } else { None };
        let start = self.range.start();
        let mut out: Vec<(VMRange, Option<(FileRef, usize)>)> = Vec::new();
        let mut i: usize = 0;
        while i < committed.len()
            invariant
                i <= committed@.len(),
                out@.len() == i,
                start == self@.range.start,
                target == (if file_writable { self@.writeback_file() } else { None }),
                forall|j: int| 0 <= j < committed@.len() ==> self@.range.start <= (#[trigger] committed@[j]).start
                    && committed@[j].start <= committed@[j].end && committed@[j].end <= self@.range.end,
                self@.file_backed matches Some(f) ==> f.offset + self@.range.spec_size() <= usize::MAX,
                forall|j: int| 0 <= j < i ==> (#[trigger] out@[j]) == (committed@[j], flush_target(self@, committed@[j], file_writable)),
            decreases committed@.len() - i,
        {
            let q = committed[i];
            let place = match target {
                Some((f, o)) => Some((f, o + (q.start() - start))),
                None => None,
            };
            out.push((q, place));
            i = i + 1;
        }
        out
    }

    /// The memory whose permissions a page fault at `pf_addr` widens back to the area's own:
    /// memory with no permissions is not to be touched (`EPERM`); all of it when every page
    /// is committed (`fully_committed`), and otherwise the committed ranges (`committed`)
    /// that hold the address.
    pub fn extend_permission_ranges(&self, fully_committed: bool, committed: &Vec<VMRange>, pf_addr: usize) -> (r: Result<Vec<VMRange>, Errno>)
        ensures
            self@.perms.bits == crate::vm_perms::VM_PERM_NONE ==> r == Err::<Vec<VMRange>, Errno>(Errno::EPERM),
            self@.perms.bits != crate::vm_perms::VM_PERM_NONE && fully_committed ==> (r matches Ok(v) && v@ == seq![self@.range]),
            self@.perms.bits != crate::vm_perms::VM_PERM_NONE && !fully_committed ==> (r matches Ok(v)
                && v@ == committed@.filter(|q: VMRange| q.has(pf_addr as int))),
    {
        if self.perms.bits() == crate::vm_perms::VM_PERM_NONE {
            return Err(Errno::EPERM);
        }
        let mut out: Vec<VMRange> = Vec::new();
        if fully_committed {
            out.push(self.range);
            return Ok(out);
        }
        let ghost pred = |q: VMRange| q.has(pf_addr as int);
        let mut i: usize = 0;
        while i < committed.len()
            invariant
                i <= committed@.len(),
                out@ == committed@.take(i as int).filter(pred),
                pred == (|q: VMRange| q.has(pf_addr as int)),
            decreases committed@.len() - i,
        {
            proof {
                reveal(Seq::filter);
                assert(committed@.take(i as int + 1).drop_last() =~= committed@.take(i as int));
            }
            if committed[i].contains(pf_addr) {
                out.push(committed[i]);
            }
            i = i + 1;
        }
        proof {
            assert(committed@.take(committed@.len() as int) =~= committed@);
        }
        Ok(out)
    }
}

/// Whether two areas can become one.
pub open spec fn can_merge_spec(left: VMArea, right: VMArea) -> bool {
    can_merge_view(left@, right@)
}

/// Whether two areas, taken by their values, can become one.
pub open spec fn can_merge_view(left: VMAreaView, right: VMAreaView) -> bool {
    &&& left.range.spec_size() > 0
    &&& right.range.spec_size() > 0
    &&& left.access == right.access
    &&& left.range.end == right.range.start
    &&& left.perms == right.perms
    &&& match (left.writeback_file(), right.writeback_file()) {
        (None, None) => true,
        (Some((lf, lo)), Some((rf, ro))) => lf == rf && ro > lo && ro - lo == left.range.spec_size(),
        _ => false,
    }
}

} // verus!
