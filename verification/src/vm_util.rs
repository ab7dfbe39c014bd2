use vstd::prelude::*;
use crate::errno::Errno;
use crate::process_vm::MRemapFlags;
use crate::vm_perms::VMPerms;
use crate::vm_area::{VMArea, VMAreaView};
use crate::vm_range::{align_down, align_up, align_up_spec, is_pow2, lemma_page_size_pow2, usize_is_power_of_two, VMRange, PAGE_SIZE};

verus! {

/// Where a new mapping may be placed.
#[derive(Clone, Copy, Debug, PartialEq, Eq, Structural)]
pub enum VMMapAddr {
    /// Free to choose any address
    Any,
    /// Prefer the address, but can use other address
    Hint(usize),
    /// Need to use the address, otherwise report error
    Need(usize),
    /// Force using the address by munmap first
    Force(usize),
}

impl Default for VMMapAddr {
    fn default() -> (r: VMMapAddr)
        ensures
            r == VMMapAddr::Any,
    {
        VMMapAddr::Any
    }
}


/// A file that memory can be loaded from or written back to, known by its identity.
#[derive(Clone, Copy, Debug, PartialEq, Eq, Structural)]
pub struct FileRef {
    pub id: u64,
}

/// A file behind a mapping: the file, the offset in it where the mapping starts, and whether
/// the mapping writes back to it.
#[derive(Clone, Copy, Debug, PartialEq, Eq, Structural)]
pub struct FileBacked {
    pub file: FileRef,
    pub offset: usize,
    pub write_back: bool,
}

impl FileBacked {
    pub fn new(file: FileRef, offset: usize, write_back: bool) -> (r: FileBacked)
        ensures
            r == (FileBacked { file, offset, write_back }),
    {
        FileBacked { file, offset, write_back }
    }

    /// The file and offset that the memory is loaded from.
    pub fn init_file(&self) -> (r: (FileRef, usize))
        ensures
            r == (self.file, self.offset),
    {
        (self.file, self.offset)
    }

    /// The file and offset that the memory is written back to, if it is.
    pub fn writeback_file(&self) -> (r: Option<(FileRef, usize)>)
        ensures
            r == (if self.write_back { Some((self.file, self.offset)) } else { None }),
    {
        if self.write_back {
            Some((self.file, self.offset))
        } else {
            None
        }
    }

    pub fn offset(&self) -> (r: usize)
        ensures
            r == self.offset,
    {
        self.offset
    }

    pub fn set_offset(&mut self, offset: usize)
        ensures
            *final(self) == (FileBacked { offset, ..*old(self) }),
    {
        self.offset = offset;
    }
}

/// How the memory of a new mapping is filled.
#[derive(Clone, Copy, Debug, PartialEq, Eq, Structural)]
pub enum VMInitializer {
    DoNothing(),
    FillZeros(),
    CopyFrom { range: VMRange },
    LoadFromFile { file: FileRef, offset: usize },
    /// For file-backed mremap which may move from old range to new range and read extra bytes from file
    CopyOldAndReadNew { old_range: VMRange, file: FileRef, offset: usize },
}

/// `n` zero bytes.
pub open spec fn zeros(n: int) -> Seq<u8> {
    Seq::new(n as nat, |_i: int| 0u8)
}

/// The contents of a buffer `buf` once `init` has filled it, given the bytes `src` of the
/// memory that it copies from and the bytes `read` that reading the file gave, or `None` when
/// the read failed; or the error.
pub open spec fn init_fill(init: VMInitializer, buf: Seq<u8>, src: Seq<u8>, read: Option<Seq<u8>>) -> Result<Seq<u8>, Errno> {
    match init {
        VMInitializer::DoNothing() => Ok(buf),
        VMInitializer::FillZeros() => Ok(zeros(buf.len() as int)),
        VMInitializer::CopyFrom { .. } => {
            let c = if buf.len() < src.len() { buf.len() as int } else { src.len() as int };
            Ok(src.take(c) + zeros(buf.len() - c))
        },
        VMInitializer::LoadFromFile { .. } => match read {
            Some(b) => Ok(b + zeros(buf.len() - b.len())),
            None => Err(Errno::EACCES),
        },
        VMInitializer::CopyOldAndReadNew { .. } => match read {
            Some(b) => Ok(src + b + zeros(buf.len() - src.len() - b.len())),
            None => Err(Errno::EACCES),
        },
    }
}

/// Copy `src` into `buf` at `at`.
fn write_bytes(buf: &mut [u8], at: usize, src: &[u8])
    requires
        at + src@.len() <= old(buf)@.len(),
    ensures
        final(buf)@ == old(buf)@.take(at as int) + src@ + old(buf)@.skip(at + src@.len()),
{
    let n = src.len();
    let bl = buf.len();
    let mut i: usize = 0;
    while i < n
        invariant
            n == src@.len(),
            bl == buf@.len(),
            at + n <= buf@.len(),
            buf@.len() == old(buf)@.len(),
            i <= n,
            forall|k: int| 0 <= k < at ==> buf@[k] == old(buf)@[k],
            forall|k: int| 0 <= k < i ==> buf@[at + k] == src@[k],
            forall|k: int| at + n <= k < buf@.len() ==> buf@[k] == old(buf)@[k],
        decreases n - i,
    {
        buf[at + i] = src[i];
        i = i + 1;
    }
    assert(buf@ =~= old(buf)@.take(at as int) + src@ + old(buf)@.skip(at + src@.len()));
}

/// Clear the bytes of `buf` from `at` on.
fn zero_from(buf: &mut [u8], at: usize)
    requires
        at <= old(buf)@.len(),
    ensures
        final(buf)@ == old(buf)@.take(at as int) + zeros(old(buf)@.len() - at),
{
    let n = buf.len();
    let mut i: usize = at;
    while i < n
        invariant
            n == buf@.len(),
            buf@.len() == old(buf)@.len(),
            at <= i <= n,
            forall|k: int| 0 <= k < at ==> buf@[k] == old(buf)@[k],
            forall|k: int| at <= k < i ==> buf@[k] == 0u8,
        decreases n - i,
    {
        buf[i] = 0;
        i = i + 1;
    }
    assert(buf@ =~= old(buf)@.take(at as int) + zeros(old(buf)@.len() - at));
}

impl VMInitializer {
    /// Fill `buf`, the memory of a new mapping, as the initializer says: leave it, clear it,
    /// copy the bytes `src` of the memory it copies from (as many as fit, the rest cleared),
    /// or put in the bytes `read` that reading the file gave (after `src`, for a moved
    /// file-backed mapping) and clear the rest. A failed read (`None`) is `EACCES`; the bytes
    /// of `src` are in place by then.
    pub fn init_slice(&self, buf: &mut [u8], src: &[u8], read: Option<&[u8]>) -> (r: Result<(), Errno>)
        requires
            *self matches VMInitializer::LoadFromFile { .. } ==> (read matches Some(b) ==> b@.len() <= old(buf)@.len()),
            *self matches VMInitializer::CopyOldAndReadNew { .. } ==> src@.len() <= old(buf)@.len()
                && (read matches Some(b) ==> src@.len() + b@.len() <= old(buf)@.len()),
        ensures
            ({
                let rd = match read { Some(b) => Some(b@), None => None::<Seq<u8>> };
                match init_fill(*self, old(buf)@, src@, rd) {
                    Ok(v) => r is Ok && final(buf)@ == v,
                    Err(e) => r == Err::<(), Errno>(e) && final(buf)@ == (if *self is CopyOldAndReadNew {
                        src@ + old(buf)@.skip(src@.len() as int)
                    } else {
                        old(buf)@
                    }),
                }
            }),
    {
        match self {
            VMInitializer::DoNothing() => Ok(()),
            VMInitializer::FillZeros() => {
                zero_from(buf, 0);
                proof {
                    assert(old(buf)@.take(0) + zeros(old(buf)@.len() as int) =~= zeros(old(buf)@.len() as int));
                }
                Ok(())
            },
            VMInitializer::CopyFrom { .. } => {
                let copy_len = if buf.len() < src.len() { buf.len() } else { src.len() };
                let part = vstd::slice::slice_subrange(src, 0, copy_len);
                write_bytes(buf, 0, part);
                proof {
                    assert(part@ =~= src@.take(copy_len as int));
                }
                zero_from(buf, copy_len);
                proof {
                    assert(buf@ =~= src@.take(copy_len as int) + zeros(old(buf)@.len() - copy_len));
                }
                Ok(())
            },
            VMInitializer::LoadFromFile { .. } => {
                match read {
                    Some(b) => {
                        write_bytes(buf, 0, b);
                        zero_from(buf, b.len());
                        proof {
                            assert(buf@ =~= b@ + zeros(old(buf)@.len() - b@.len()));
                        }
                        Ok(())
                    },
                    None => Err(Errno::EACCES),
                }
            },
            VMInitializer::CopyOldAndReadNew { .. } => {
                let buf_len = buf.len();
                let copy_len = src.len();
                write_bytes(buf, 0, src);
                proof {
                    assert(buf@ =~= src@ + old(buf)@.skip(src@.len() as int));
                }
                match read {
                    Some(b) => {
                        assert(copy_len + b@.len() <= buf_len);
                        write_bytes(buf, copy_len, b);
                        zero_from(buf, copy_len + b.len());
                        proof {
                            assert(buf@ =~= src@ + b@ + zeros(old(buf)@.len() - src@.len() - b@.len()));
                        }
                        Ok(())
                    },
                    None => Err(Errno::EACCES),
                }
            },
        }
    }
}

impl Default for VMInitializer {
    fn default() -> (r: VMInitializer)
        ensures
            r == VMInitializer::DoNothing(),
    {
        VMInitializer::DoNothing()
    }
}

/// The fields of mmap options, as one value.
pub struct MmapRequest {
    pub size: usize,
    pub align: usize,
    pub perms: VMPerms,
    pub addr: VMMapAddr,
    pub initializer: VMInitializer,
    pub writeback_file: Option<(FileRef, usize)>,
}

/// The checked options of an mmap request.
#[derive(Clone, Copy, Debug)]
pub struct VMMapOptions {
    size: usize,
    align: usize,
    perms: VMPerms,
    addr: VMMapAddr,
    initializer: VMInitializer,
    /// The content of the VMA can be written back to a given file at a given offset
    writeback_file: Option<(FileRef, usize)>,
}

impl VMMapOptions {
    pub closed spec fn spec_size(&self) -> usize { self.size }
    pub closed spec fn spec_align(&self) -> usize { self.align }
    pub closed spec fn spec_perms(&self) -> VMPerms { self.perms }
    pub closed spec fn spec_addr(&self) -> VMMapAddr { self.addr }
    pub closed spec fn spec_initializer(&self) -> VMInitializer { self.initializer }
    pub closed spec fn spec_writeback_file(&self) -> Option<(FileRef, usize)> { self.writeback_file }

    /// All of the options, as one value.
    pub open spec fn request(&self) -> MmapRequest {
        MmapRequest {
            size: self.spec_size(),
            align: self.spec_align(),
            perms: self.spec_perms(),
            addr: self.spec_addr(),
            initializer: self.spec_initializer(),
            writeback_file: self.spec_writeback_file(),
        }
    }

    /// Checked options: the size is a nonzero multiple of the page size, the alignment a power
    /// of two, and a fixed address a multiple of the alignment.
    pub open spec fn wf(&self) -> bool {
        &&& self.spec_size() > 0
        &&& self.spec_size() % PAGE_SIZE == 0
        &&& is_pow2(self.spec_align() as nat)
        &&& match self.spec_addr() {
            VMMapAddr::Need(a) | VMMapAddr::Force(a) => a % self.spec_align() == 0,
            VMMapAddr::Hint(a) => a % PAGE_SIZE == 0,
            VMMapAddr::Any => true,
        }
    }

    pub fn size(&self) -> (r: &usize)
        ensures
            *r == self.spec_size(),
    {
        &self.size
    }

    pub fn addr(&self) -> (r: &VMMapAddr)
        ensures
            *r == self.spec_addr(),
    {
        &self.addr
    }

    pub fn perms(&self) -> (r: &VMPerms)
        ensures
            *r == self.spec_perms(),
    {
        &self.perms
    }

    pub fn align(&self) -> (r: &usize)
        ensures
            *r == self.spec_align(),
    {
        &self.align
    }

    pub fn initializer(&self) -> (r: &VMInitializer)
        ensures
            *r == self.spec_initializer(),
    {
        &self.initializer
    }

    /// The file behind a mapping made with these options: the write-back file, or else the
    /// file that the memory is loaded from, which is then not written back.
    pub open spec fn spec_file_backed(&self) -> Option<FileBacked> {
        match self.spec_writeback_file() {
            Some((f, off)) => Some(FileBacked { file: f, offset: off, write_back: true }),
            None => match self.spec_initializer() {
                VMInitializer::LoadFromFile { file, offset } => Some(FileBacked { file, offset, write_back: false }),
                _ => None,
            },
        }
    }

    /// The file behind a mapping made with these options.
    pub fn file_backed(&self) -> (r: Option<FileBacked>)
        ensures
            r == self.spec_file_backed(),
    {
        match self.writeback_file {
            Some((f, off)) => Some(FileBacked::new(f, off, true)),
            None => match self.initializer {
                VMInitializer::LoadFromFile { file, offset } => Some(FileBacked::new(file, offset, false)),
                _ => None,
            },
        }
    }

    pub fn writeback_file(&self) -> (r: &Option<(FileRef, usize)>)
        ensures
            *r == self.spec_writeback_file(),
    {
        &self.writeback_file
    }
}


/// Collects the options of an mmap request; `build` checks them.
#[derive(Clone, Copy, Debug, Default)]
pub struct VMMapOptionsBuilder {
    size: Option<usize>,
    align: Option<usize>,
    perms: Option<VMPerms>,
    addr: Option<VMMapAddr>,
    initializer: Option<VMInitializer>,
    writeback_file: Option<Option<(FileRef, usize)>>,
}

impl VMMapOptionsBuilder {
    pub closed spec fn size_opt(&self) -> Option<usize> { self.size }
    pub closed spec fn align_opt(&self) -> Option<usize> { self.align }
    pub closed spec fn perms_opt(&self) -> Option<VMPerms> { self.perms }
    pub closed spec fn addr_opt(&self) -> Option<VMMapAddr> { self.addr }
    pub closed spec fn initializer_opt(&self) -> Option<VMInitializer> { self.initializer }
    pub closed spec fn writeback_file_opt(&self) -> Option<Option<(FileRef, usize)>> { self.writeback_file }

    /// A builder with nothing set.
    pub fn new() -> (r: Self)
        ensures
            r.size_opt() is None && r.align_opt() is None && r.perms_opt() is None
                && r.addr_opt() is None && r.initializer_opt() is None && r.writeback_file_opt() is None,
    {
        VMMapOptionsBuilder { size: None, align: None, perms: None, addr: None, initializer: None, writeback_file: None }
    }

    pub fn size(self, value: usize) -> (r: Self)
        ensures
            r.size_opt() == Some(value),
            r.align_opt() == self.align_opt(),
            r.perms_opt() == self.perms_opt(),
            r.addr_opt() == self.addr_opt(),
            r.initializer_opt() == self.initializer_opt(),
            r.writeback_file_opt() == self.writeback_file_opt(),
    {
        VMMapOptionsBuilder { size: Some(value), ..self }
    }

    pub fn align(self, value: usize) -> (r: Self)
        ensures
            r.size_opt() == self.size_opt(),
            r.align_opt() == Some(value),
            r.perms_opt() == self.perms_opt(),
            r.addr_opt() == self.addr_opt(),
            r.initializer_opt() == self.initializer_opt(),
            r.writeback_file_opt() == self.writeback_file_opt(),
    {
        VMMapOptionsBuilder { align: Some(value), ..self }
    }

    pub fn perms(self, value: VMPerms) -> (r: Self)
        ensures
            r.size_opt() == self.size_opt(),
            r.align_opt() == self.align_opt(),
            r.perms_opt() == Some(value),
            r.addr_opt() == self.addr_opt(),
            r.initializer_opt() == self.initializer_opt(),
            r.writeback_file_opt() == self.writeback_file_opt(),
    {
        VMMapOptionsBuilder { perms: Some(value), ..self }
    }

    pub fn addr(self, value: VMMapAddr) -> (r: Self)
        ensures
            r.size_opt() == self.size_opt(),
            r.align_opt() == self.align_opt(),
            r.perms_opt() == self.perms_opt(),
            r.addr_opt() == Some(value),
            r.initializer_opt() == self.initializer_opt(),
            r.writeback_file_opt() == self.writeback_file_opt(),
    {
        VMMapOptionsBuilder { addr: Some(value), ..self }
    }

    pub fn initializer(self, value: VMInitializer) -> (r: Self)
        ensures
            r.size_opt() == self.size_opt(),
            r.align_opt() == self.align_opt(),
            r.perms_opt() == self.perms_opt(),
            r.addr_opt() == self.addr_opt(),
            r.initializer_opt() == Some(value),
            r.writeback_file_opt() == self.writeback_file_opt(),
    {
        VMMapOptionsBuilder { initializer: Some(value), ..self }
    }

    pub fn writeback_file(self, value: Option<(FileRef, usize)>) -> (r: Self)
        ensures
            r.size_opt() == self.size_opt(),
            r.align_opt() == self.align_opt(),
            r.perms_opt() == self.perms_opt(),
            r.addr_opt() == self.addr_opt(),
            r.initializer_opt() == self.initializer_opt(),
            r.writeback_file_opt() == Some(value),
    {
        VMMapOptionsBuilder { writeback_file: Some(value), ..self }
    }

    /// The alignment that `build` uses: the one given, or the page size.
    pub open spec fn effective_align(&self) -> usize {
        match self.align_opt() {
            Some(a) => a,
            None => PAGE_SIZE,
        }
    }

    /// The address request that `build` uses: the one given, or any address.
    pub open spec fn effective_addr(&self) -> VMMapAddr {
        match self.addr_opt() {
            Some(a) => a,
            None => VMMapAddr::Any,
        }
    }

    /// Whether `build` refuses the options: no size or a zero size, an alignment that is not a
    /// power of two, no permissions, or a fixed address off the alignment.
    pub open spec fn build_fails(&self) -> bool {
        ||| self.size_opt() is None
        ||| self.size_opt() == Some(0usize)
        ||| !is_pow2(self.effective_align() as nat)
        ||| self.perms_opt() is None
        ||| (self.effective_addr() matches VMMapAddr::Need(a) && a % self.effective_align() != 0)
        ||| (self.effective_addr() matches VMMapAddr::Force(a) && a % self.effective_align() != 0)
    }

    /// Check the options: the size is rounded up to whole pages, the alignment defaults to a
    /// page, a hinted address is rounded down to a page, a fixed one must be aligned.
    pub fn build(self) -> (r: Result<VMMapOptions, Errno>)
        requires
            self.size_opt() matches Some(s) ==> s + PAGE_SIZE - 1 <= usize::MAX,
        ensures
            r is Err <==> self.build_fails(),
            r is Err ==> r == Err::<VMMapOptions, Errno>(Errno::EINVAL),
            r matches Ok(o) ==> {
                &&& o.wf()
                &&& o.spec_size() == align_up_spec(self.size_opt()->Some_0 as int, PAGE_SIZE as int)
                &&& o.spec_align() == self.effective_align()
                &&& Some(o.spec_perms()) == self.perms_opt()
                &&& o.spec_addr() == match self.effective_addr() {
                    VMMapAddr::Hint(a) => VMMapAddr::Hint((a - a % PAGE_SIZE) as usize),
                    other => other,
                }
                &&& o.spec_initializer() == match self.initializer_opt() {
                    Some(i) => i,
                    None => VMInitializer::DoNothing(),
                }
                &&& o.spec_writeback_file() == match self.writeback_file_opt() {
                    Some(w) => w,
                    None => None,
                }
            },
    {
        proof {
            lemma_page_size_pow2();
        }
        let size = match self.size {
            None => return Err(Errno::EINVAL),
            Some(size) => {
                if size == 0 {
                    return Err(Errno::EINVAL);
                }
                align_up(size, PAGE_SIZE)
            },
        };
        let align = {
            let align = match self.align {
                Some(a) => a,
                None => PAGE_SIZE,
            };
            if align == 0 || !usize_is_power_of_two(align) {
                return Err(Errno::EINVAL);
            }
            align
        };
        let perms = match self.perms {
            None => return Err(Errno::EINVAL),
            Some(p) => p,
        };
        let addr = {
            let addr = match self.addr {
                Some(a) => a,
                None => VMMapAddr::Any,
            };
            match addr {
                VMMapAddr::Any => VMMapAddr::Any,
                VMMapAddr::Hint(addr) => {
                    let addr = align_down(addr, PAGE_SIZE);
                    VMMapAddr::Hint(addr)
                },
                VMMapAddr::Need(addr_) | VMMapAddr::Force(addr_) => {
                    if addr_ % align != 0 {
                        return Err(Errno::EINVAL);
                    }
                    addr
                },
            }
        };
        let initializer = match self.initializer {
            Some(initializer) => initializer,
            None => VMInitializer::DoNothing(),
        };
        let writeback_file = match self.writeback_file {
            Some(w) => w,
            None => None,
        };
        Ok(VMMapOptions { size, align, perms, addr, initializer, writeback_file })
    }
}


/// How the size of a mapping changes in an mremap request.
#[derive(Clone, Copy, Debug, PartialEq, Eq, Structural)]
pub enum VMRemapSizeType {
    Same,
    Shrinking,
    Growing,
}

impl VMRemapSizeType {
    pub open spec fn spec_new(old_size: usize, new_size: usize) -> VMRemapSizeType {
        if new_size == old_size {
            VMRemapSizeType::Same
        } else if new_size < old_size {
            VMRemapSizeType::Shrinking
        } else {
            VMRemapSizeType::Growing
        }
    }

    pub fn new(old_size: &usize, new_size: &usize) -> (r: Self)
        ensures
            r == Self::spec_new(*old_size, *new_size),
    {
        if *new_size == *old_size {
            VMRemapSizeType::Same
        } else if *new_size < *old_size {
            VMRemapSizeType::Shrinking
        } else {
            VMRemapSizeType::Growing
        }
    }
}

/// The checked arguments of an mremap request.
#[derive(Clone, Copy, Debug)]
pub struct VMRemapOptions {
    old_addr: usize,
    old_size: usize,
    new_size: usize,
    flags: MRemapFlags,
}

impl VMRemapOptions {
    pub closed spec fn spec_old_addr(&self) -> usize { self.old_addr }
    pub closed spec fn spec_old_size(&self) -> usize { self.old_size }
    pub closed spec fn spec_new_size(&self) -> usize { self.new_size }
    pub closed spec fn spec_flags(&self) -> MRemapFlags { self.flags }

    /// Checked arguments: page-aligned addresses and nonzero page-aligned sizes.
    pub open spec fn wf(&self) -> bool {
        &&& self.spec_old_addr() % PAGE_SIZE == 0
        &&& self.spec_old_size() > 0 && self.spec_old_size() % PAGE_SIZE == 0
        &&& self.spec_new_size() > 0 && self.spec_new_size() % PAGE_SIZE == 0
        &&& (self.spec_flags() matches MRemapFlags::FixedAddr(a) ==> a % PAGE_SIZE == 0)
    }

    /// Check the arguments of an mremap request: the old address must be page aligned, the
    /// sizes nonzero, a requested new address page aligned; the sizes are rounded up to pages.
    pub fn new(old_addr: usize, old_size: usize, new_size: usize, flags: MRemapFlags) -> (r: Result<Self, Errno>)
        requires
            old_size + PAGE_SIZE - 1 <= usize::MAX,
            new_size + PAGE_SIZE - 1 <= usize::MAX,
        ensures
            r is Err <==> old_addr % PAGE_SIZE != 0 || old_size == 0
                || (flags matches MRemapFlags::FixedAddr(a) && a % PAGE_SIZE != 0) || new_size == 0,
            r is Err ==> r == Err::<Self, Errno>(Errno::EINVAL),
            r matches Ok(o) ==> o.wf() && o.spec_old_addr() == old_addr
                && o.spec_old_size() == align_up_spec(old_size as int, PAGE_SIZE as int)
                && o.spec_new_size() == align_up_spec(new_size as int, PAGE_SIZE as int)
                && o.spec_flags() == flags,
    {
        if old_addr % PAGE_SIZE != 0 {
            return Err(Errno::EINVAL);
        }
        let old_size = if old_size == 0 {
            return Err(Errno::EINVAL);
        } else {
            align_up(old_size, PAGE_SIZE)
        };
        if let Some(new_addr) = flags.new_addr() {
            if new_addr % PAGE_SIZE != 0 {
                return Err(Errno::EINVAL);
            }
        }
        let new_size = if new_size == 0 {
            return Err(Errno::EINVAL);
        } else {
            align_up(new_size, PAGE_SIZE)
        };
        Ok(Self { old_addr, old_size, new_size, flags })
    }

    pub fn old_addr(&self) -> (r: usize)
        ensures
            r == self.spec_old_addr(),
    {
        self.old_addr
    }

    pub fn old_size(&self) -> (r: usize)
        ensures
            r == self.spec_old_size(),
    {
        self.old_size
    }

    pub fn new_size(&self) -> (r: usize)
        ensures
            r == self.spec_new_size(),
    {
        self.new_size
    }

    pub fn flags(&self) -> (r: MRemapFlags)
        ensures
            r == self.spec_flags(),
    {
        self.flags
    }
}

/// The plan of an mremap request: an optional mmap followed by an optional munmap.
#[derive(Clone, Copy, Debug)]
pub struct VMRemapResult {
    mmap_options: Option<VMMapOptions>,
    /// For RemapFlags::MayMove and size is growing case:
    /// If mmap_result_addr is None, we need to do mmap and unmap the old range.
    /// If not None, then addr is specified, and thus it just mmap after the old range and should be no munmap.
    mmap_result_addr: Option<usize>,
    /// (munmap_addr, munmap_size)
    munmap_args: Option<(usize, usize)>,
    /// Whether the mapping may move; when the free space found while planning is gone by the time
    /// of the mmap, the mmap should be done again.
    may_move: bool,
}

impl VMRemapResult {
    pub closed spec fn spec_mmap_options(&self) -> Option<VMMapOptions> { self.mmap_options }
    pub closed spec fn spec_mmap_result_addr(&self) -> Option<usize> { self.mmap_result_addr }
    pub closed spec fn spec_munmap_args(&self) -> Option<(usize, usize)> { self.munmap_args }
    pub closed spec fn spec_may_move(&self) -> bool { self.may_move }

    pub fn new(
        mmap_options: Option<VMMapOptions>,
        mmap_result_addr: Option<usize>,
        munmap_args: Option<(usize, usize)>,
        may_move: bool,
    ) -> (r: Self)
        ensures
            r.spec_mmap_options() == mmap_options,
            r.spec_mmap_result_addr() == mmap_result_addr,
            r.spec_munmap_args() == munmap_args,
            r.spec_may_move() == may_move,
    {
        Self { mmap_options, mmap_result_addr, munmap_args, may_move }
    }

    pub fn mmap_options(&self) -> (r: &Option<VMMapOptions>)
        ensures
            *r == self.spec_mmap_options(),
    {
        &self.mmap_options
    }

    pub fn mmap_result_addr(&self) -> (r: &Option<usize>)
        ensures
            *r == self.spec_mmap_result_addr(),
    {
        &self.mmap_result_addr
    }

    pub fn munmap_args(&self) -> (r: &Option<(usize, usize)>)
        ensures
            *r == self.spec_munmap_args(),
    {
        &self.munmap_args
    }

    pub fn may_move(&self) -> (r: bool)
        ensures
            r == self.spec_may_move(),
    {
        self.may_move
    }
}


/// The range that an mremap request starts from.
pub open spec fn remap_old_range(o: VMRemapOptions) -> VMRange {
    VMRange { start: o.spec_old_addr(), end: (o.spec_old_addr() + o.spec_old_size()) as usize }
}

/// The range right after the old one that a growing mremap would take in place.
pub open spec fn remap_preferred_range(o: VMRemapOptions) -> VMRange {
    VMRange {
        start: (o.spec_old_addr() + o.spec_old_size()) as usize,
        end: (o.spec_old_addr() + o.spec_new_size()) as usize,
    }
}

/// The page-aligned mmap request of `size` bytes at `addr` with the given fill and file.
pub open spec fn page_request(size: int, addr: VMMapAddr, perms: VMPerms, init: VMInitializer, wb: Option<(FileRef, usize)>) -> MmapRequest {
    MmapRequest { size: size as usize, align: PAGE_SIZE, perms, addr, initializer: init, writeback_file: wb }
}

/// The mmap part of an mremap plan and the address the request returns, when known; `free`
/// tells whether the range right after the old one is free.
pub open spec fn remap_mmap_spec(o: VMRemapOptions, vma: VMAreaView, free: bool) -> (Option<MmapRequest>, Option<usize>) {
    let old_addr = o.spec_old_addr();
    let old_size = o.spec_old_size();
    let new_size = o.spec_new_size();
    let old_range = remap_old_range(o);
    let perms = vma.perms;
    let growing = new_size > old_size;
    let vsize = vma.range.end - vma.range.start;
    let copy_old = VMRange { start: old_range.start, end: vma.range.end };
    match (o.spec_flags(), vma.writeback_file()) {
        (MRemapFlags::NoMove, None) if growing => (
            Some(page_request(new_size - old_size, VMMapAddr::Need(old_range.end), perms, VMInitializer::DoNothing(), None)),
            Some(old_addr),
        ),
        (MRemapFlags::NoMove, Some((file, offset))) if growing => (
            Some(page_request(new_size - old_size, VMMapAddr::Need(old_range.end), perms,
                VMInitializer::LoadFromFile { file, offset: (offset + vsize) as usize }, Some((file, (offset + vsize) as usize)))),
            Some(old_addr),
        ),
        (MRemapFlags::MayMove, None) if growing => if free {
            (Some(page_request(new_size - old_size, VMMapAddr::Need(remap_preferred_range(o).start), perms, VMInitializer::DoNothing(), None)), Some(old_addr))
        } else {
            (Some(page_request(new_size as int, VMMapAddr::Any, perms, VMInitializer::CopyFrom { range: old_range }, None)), None)
        },
        (MRemapFlags::MayMove, Some((file, offset))) if growing => if free {
            (Some(page_request(new_size - old_size, VMMapAddr::Need(remap_preferred_range(o).start), perms,
                VMInitializer::LoadFromFile { file, offset: (offset + vsize) as usize }, Some((file, (offset + vsize) as usize)))), Some(old_addr))
        } else {
            (Some(page_request(new_size as int, VMMapAddr::Any, perms,
                VMInitializer::CopyOldAndReadNew { old_range: copy_old, file, offset: (copy_old.end - vma.range.start) as usize },
                Some((file, offset)))), None)
        },
        (MRemapFlags::FixedAddr(new_addr), None) => (
            Some(page_request(new_size as int, VMMapAddr::Force(new_addr), perms, VMInitializer::CopyFrom { range: old_range }, None)),
            Some(new_addr),
        ),
        (MRemapFlags::FixedAddr(new_addr), Some((file, offset))) => (
            Some(page_request(new_size as int, VMMapAddr::Force(new_addr), perms,
                VMInitializer::CopyOldAndReadNew { old_range: copy_old, file, offset: (copy_old.end - vma.range.start) as usize },
                Some((file, offset)))),
            Some(new_addr),
        ),
        _ => (None, Some(old_addr)),
    }
}

/// The munmap part of an mremap plan, given the address the request returns when known.
pub open spec fn remap_munmap_spec(o: VMRemapOptions, ret_addr: Option<usize>) -> Option<(usize, usize)> {
    let old_addr = o.spec_old_addr();
    let old_size = o.spec_old_size();
    let new_size = o.spec_new_size();
    match o.spec_flags() {
        MRemapFlags::NoMove if new_size < old_size =>
            Some(((old_addr + new_size) as usize, (old_size - new_size) as usize)),
        MRemapFlags::MayMove if new_size < old_size =>
            Some(((old_addr + new_size) as usize, (old_size - new_size) as usize)),
        MRemapFlags::MayMove if new_size > old_size =>
            if ret_addr is None { Some((old_addr, old_size)) } else { None },
        MRemapFlags::FixedAddr(_) => Some((old_addr, old_size)),
        _ => None,
    }
}

/// When an mremap request is refused: a file-backed area that is not exactly the old range, or
/// a fixed new range that overlaps the old one.
pub open spec fn remap_fails_spec(o: VMRemapOptions, vma: VMAreaView) -> bool {
    ||| (vma.writeback_file() is Some && remap_old_range(o) != vma.range)
    ||| (o.spec_flags() matches MRemapFlags::FixedAddr(na) && ({
        let nr = VMRange { start: na, end: (na + o.spec_new_size()) as usize };
        nr.start < remap_old_range(o).end && remap_old_range(o).start < nr.end
    }))
}

/// Plans mremap requests over the memory that the implementor manages.
pub trait VMRemapParser {
    /// Whether the implementor holds `request_range` as free memory.
    spec fn spec_is_free_range(&self, request_range: VMRange) -> bool;

    /// Whether `request_range` is free.
    fn is_free_range(&self, request_range: &VMRange) -> (r: bool)
        ensures
            r == self.spec_is_free_range(*request_range),
    ;

    /// Implement mremap as one optional mmap followed by one optional munmap, for the old range
    /// inside the area `vma`.
    #[verifier::spinoff_prover]
    #[verifier::rlimit(40)]
    fn parse(&self, options: &VMRemapOptions, vma: &VMArea) -> (r: Result<VMRemapResult, Errno>)
        requires
            options.wf(),
            vma.spec_range().wf(),
            vma.spec_range().start <= options.spec_old_addr(),
            options.spec_old_addr() + options.spec_old_size() <= vma.spec_range().end,
            options.spec_old_addr() + options.spec_new_size() <= usize::MAX,
            options.spec_old_addr() + options.spec_old_size() <= usize::MAX,
            options.spec_flags() matches MRemapFlags::FixedAddr(na) ==> na + options.spec_new_size() <= usize::MAX,
            vma.spec_file_backed() matches Some(f) ==> f.offset + vma.spec_range().spec_size() <= usize::MAX,
        ensures
            r is Err <==> remap_fails_spec(*options, vma@),
            r is Err ==> r == Err::<VMRemapResult, Errno>(Errno::EINVAL),
            r matches Ok(res) ==> {
                let free = self.spec_is_free_range(remap_preferred_range(*options));
                let (mmap, ret) = remap_mmap_spec(*options, vma@, free);
                &&& match (res.spec_mmap_options(), mmap) {
                    (Some(opts), Some(req)) => opts.request() == req && opts.wf(),
                    (None, None) => true,
                    _ => false,
                }
                &&& res.spec_mmap_result_addr() == ret
                &&& res.spec_munmap_args() == remap_munmap_spec(*options, ret)
                &&& res.spec_may_move() == (options.spec_flags() == MRemapFlags::MayMove)
            },
            (options.spec_flags() == MRemapFlags::MayMove && options.spec_new_size() > options.spec_old_size()
                && vma@.writeback_file() is None && !self.spec_is_free_range(remap_preferred_range(*options))) ==> {
                &&& r matches Ok(res)
                &&& res.spec_mmap_options() matches Some(opts)
                &&& opts.spec_initializer() == (VMInitializer::CopyFrom { range: remap_old_range(*options) })
                &&& opts.spec_addr() == VMMapAddr::Any
                &&& opts.spec_size() == options.spec_new_size()
                &&& res.spec_mmap_result_addr() is None
                &&& res.spec_munmap_args() == Some((options.spec_old_addr(), options.spec_old_size()))
            },
            (options.spec_new_size() < options.spec_old_size() && !(options.spec_flags() is FixedAddr)
                && !remap_fails_spec(*options, vma@)) ==> {
                &&& r matches Ok(res)
                &&& res.spec_mmap_options() is None
                &&& res.spec_mmap_result_addr() == Some(options.spec_old_addr())
                &&& res.spec_munmap_args() == Some(((options.spec_old_addr() + options.spec_new_size()) as usize,
                    (options.spec_old_size() - options.spec_new_size()) as usize))
            },
            (options.spec_new_size() > options.spec_old_size() && vma@.writeback_file() is None
                && (options.spec_flags() == MRemapFlags::NoMove || (options.spec_flags() == MRemapFlags::MayMove
                    && self.spec_is_free_range(remap_preferred_range(*options))))) ==> {
                &&& r matches Ok(res)
                &&& res.spec_mmap_options() matches Some(opts)
                &&& opts.spec_addr() == VMMapAddr::Need((options.spec_old_addr() + options.spec_old_size()) as usize)
                &&& opts.spec_size() == options.spec_new_size() - options.spec_old_size()
                &&& opts.spec_initializer() == VMInitializer::DoNothing()
                &&& res.spec_mmap_result_addr() == Some(options.spec_old_addr())
                &&& res.spec_munmap_args() is None
            },
            (options.spec_flags() matches MRemapFlags::FixedAddr(na) && vma@.writeback_file() is None
                && !remap_fails_spec(*options, vma@)) ==> {
                &&& r matches Ok(res)
                &&& res.spec_mmap_options() matches Some(opts)
                &&& opts.spec_addr() == VMMapAddr::Force(options.spec_flags()->FixedAddr_0)
                &&& opts.spec_size() == options.spec_new_size()
                &&& opts.spec_initializer() == (VMInitializer::CopyFrom { range: remap_old_range(*options) })
                &&& res.spec_mmap_result_addr() == Some(options.spec_flags()->FixedAddr_0)
                &&& res.spec_munmap_args() == Some((options.spec_old_addr(), options.spec_old_size()))
            },
    {
        let old_addr = options.old_addr();
        let old_size = options.old_size();
        let old_range = match VMRange::new_with_size(old_addr, old_size) {
            Ok(r) => r,
            Err(e) => {
                assert(false);
                return Err(e);
            },
        };
        let new_size = options.new_size();
        let flags = options.flags();
        let size_type = VMRemapSizeType::new(&old_size, &new_size);
        let perms = vma.perms();
        let writeback_file = vma.writeback_file();
        proof {
            lemma_page_size_pow2();
            crate::vm_range::lemma_align_up(new_size as int, PAGE_SIZE as int);
            crate::vm_range::lemma_align_up(old_size as int, PAGE_SIZE as int);
            if new_size > old_size {
                crate::vm_range::lemma_align_up((new_size - old_size) as int, PAGE_SIZE as int);
            }
        }

        if writeback_file.is_some() && old_range != *vma.range() {
            return Err(Errno::EINVAL);
        }

        let ghost free = self.spec_is_free_range(remap_preferred_range(*options));
        let growing = match size_type {
            VMRemapSizeType::Growing => true,
            _ => false,
        };
        let (need_mmap, ret_addr): (Option<VMMapOptions>, Option<usize>) = match (flags, writeback_file) {
            (MRemapFlags::NoMove, None) if growing => {
                let opts = VMMapOptionsBuilder::new()
                    .size(new_size - old_size)
                    .addr(VMMapAddr::Need(old_range.end()))
                    .perms(perms)
                    .initializer(VMInitializer::DoNothing());
                let mmap_opts = match opts.build() {
                    Ok(o) => o,
                    Err(e) => return Err(e),
                };
                (Some(mmap_opts), Some(old_addr))
            },
            (MRemapFlags::NoMove, Some((backed_file, offset))) if growing => {
                let new_offset = offset + vma.size();
                let opts = VMMapOptionsBuilder::new()
                    .size(new_size - old_size)
                    .addr(VMMapAddr::Need(old_range.end()))
                    .perms(perms)
                    .initializer(VMInitializer::LoadFromFile { file: backed_file, offset: new_offset })
                    .writeback_file(Some((backed_file, new_offset)));
                let mmap_opts = match opts.build() {
                    Ok(o) => o,
                    Err(e) => return Err(e),
                };
                (Some(mmap_opts), Some(old_addr))
            },
            (MRemapFlags::MayMove, None) if growing => {
                let prefered_new_range = VMRange { start: old_addr + old_size, end: old_addr + new_size };
                if self.is_free_range(&prefered_new_range) {
                    let opts = VMMapOptionsBuilder::new()
                        .size(prefered_new_range.size())
                        .addr(VMMapAddr::Need(prefered_new_range.start()))
                        .perms(perms)
                        .initializer(VMInitializer::DoNothing());
                    let mmap_opts = match opts.build() {
                        Ok(o) => o,
                        Err(e) => return Err(e),
                    };
                    (Some(mmap_opts), Some(old_addr))
                } else {
                    let opts = VMMapOptionsBuilder::new()
                        .size(new_size)
                        .addr(VMMapAddr::Any)
                        .perms(perms)
                        .initializer(VMInitializer::CopyFrom { range: old_range });
                    let mmap_opts = match opts.build() {
                        Ok(o) => o,
                        Err(e) => return Err(e),
                    };
                    (Some(mmap_opts), None)
                }
            },
            (MRemapFlags::MayMove, Some((backed_file, offset))) if growing => {
                let prefered_new_range = VMRange { start: old_addr + old_size, end: old_addr + new_size };
                if self.is_free_range(&prefered_new_range) {
                    let new_offset = offset + vma.size();
                    let opts = VMMapOptionsBuilder::new()
                        .size(prefered_new_range.size())
                        .addr(VMMapAddr::Need(prefered_new_range.start()))
                        .perms(perms)
                        .initializer(VMInitializer::LoadFromFile { file: backed_file, offset: new_offset })
                        .writeback_file(Some((backed_file, new_offset)));
                    let mmap_opts = match opts.build() {
                        Ok(o) => o,
                        Err(e) => return Err(e),
                    };
                    (Some(mmap_opts), Some(old_addr))
                } else {
                    let copy_end = vma.end();
                    let copy_range = VMRange { start: old_range.start(), end: copy_end };
                    let reread_file_start_offset = copy_end - vma.start();
                    let opts = VMMapOptionsBuilder::new()
                        .size(new_size)
                        .addr(VMMapAddr::Any)
                        .perms(perms)
                        .initializer(VMInitializer::CopyOldAndReadNew { old_range: copy_range, file: backed_file, offset: reread_file_start_offset })
                        .writeback_file(Some((backed_file, offset)));
                    let mmap_opts = match opts.build() {
                        Ok(o) => o,
                        Err(e) => return Err(e),
                    };
                    (Some(mmap_opts), None)
                }
            },
            (MRemapFlags::FixedAddr(new_addr), None) => {
                let opts = VMMapOptionsBuilder::new()
                    .size(new_size)
                    .addr(VMMapAddr::Force(new_addr))
                    .perms(perms)
                    .initializer(VMInitializer::CopyFrom { range: old_range });
                let mmap_opts = match opts.build() {
                    Ok(o) => o,
                    Err(e) => return Err(e),
                };
                (Some(mmap_opts), Some(new_addr))
            },
            (MRemapFlags::FixedAddr(new_addr), Some((backed_file, offset))) => {
                let copy_end = vma.end();
                let copy_range = VMRange { start: old_range.start(), end: copy_end };
                let reread_file_start_offset = copy_end - vma.start();
                let opts = VMMapOptionsBuilder::new()
                    .size(new_size)
                    .addr(VMMapAddr::Force(new_addr))
                    .perms(perms)
                    .initializer(VMInitializer::CopyOldAndReadNew { old_range: copy_range, file: backed_file, offset: reread_file_start_offset })
                    .writeback_file(Some((backed_file, offset)));
                let mmap_opts = match opts.build() {
                    Ok(o) => o,
                    Err(e) => return Err(e),
                };
                (Some(mmap_opts), Some(new_addr))
            },
            _ => (None, Some(old_addr)),
        };

        let shrinking = match size_type {
            VMRemapSizeType::Shrinking => true,
            _ => false,
        };
        let need_munmap: Option<(usize, usize)> = match flags {
            MRemapFlags::NoMove if shrinking => {
                let unmap_addr = old_addr + new_size;
                let unmap_size = old_size - new_size;
                Some((unmap_addr, unmap_size))
            },
            MRemapFlags::MayMove if shrinking => {
                let unmap_addr = old_addr + new_size;
                let unmap_size = old_size - new_size;
                Some((unmap_addr, unmap_size))
            },
            MRemapFlags::MayMove if growing => {
                if ret_addr.is_none() {
                    Some((old_addr, old_size))
                } else {
                    None
                }
            },
            MRemapFlags::FixedAddr(new_addr) => {
                let new_range = VMRange { start: new_addr, end: new_addr + new_size };
                if new_range.overlap_with(&old_range) {
                    return Err(Errno::EINVAL);
                }
                Some((old_addr, old_size))
            },
            _ => None,
        };

        let may_move = match flags {
            MRemapFlags::MayMove => true,
            _ => false,
        };
        Ok(VMRemapResult::new(need_mmap, ret_addr, need_munmap, may_move))
    }
}

/// An mremap that grows an area with no file behind it and may move it, when the pages right
/// after it are not free, moves it: the plan maps the new size at any address, fills the new
/// mapping by copying the whole old range to its start, so every byte keeps its offset, and
/// unmaps the old range.
pub proof fn law_moving_growth_copies_old_range(o: VMRemapOptions, vma: VMAreaView)
    requires
        o.wf(),
        o.spec_flags() == MRemapFlags::MayMove,
        o.spec_new_size() > o.spec_old_size(),
        vma.writeback_file() is None,
    ensures
        ({
            let (mmap, ret) = remap_mmap_spec(o, vma, false);
            &&& mmap matches Some(req)
            &&& req.initializer == (VMInitializer::CopyFrom { range: VMRange { start: o.spec_old_addr(), end: (o.spec_old_addr() + o.spec_old_size()) as usize } })
            &&& req.addr == VMMapAddr::Any
            &&& req.size == o.spec_new_size()
            &&& ret is None
            &&& remap_munmap_spec(o, ret) == Some((o.spec_old_addr(), o.spec_old_size()))
        }),
{
}

} // verus!
