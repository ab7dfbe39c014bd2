# occlum

The memory management and utility layers of a library OS for SGX enclaves, written in Verus
with their contracts proved.

- `src/` is the verified library:
  - `vm_range`, `vm_layout`, `vm_perms`, `vm_util`: address ranges, layouts, permissions, and
    the options of mmap and mremap requests (with their checks and the planning of mremap).
  - `free_space_manager`: the sorted list of free ranges, with first-fit, hinted and fixed
    placement, and the merging of released ranges.
  - `vm_area`, `vm_chunk_manager`, `chunk`: areas with their files and sharing counts, and the
    chunks that hold them, with mmap, munmap, mprotect, msync, mremap planning and merging.
  - `vm_manager`, `process_vm`, `shm_manager`: the global accounting of chunks and free
    memory, in which every address of the user space is free, in a chunk or in the gap, with
    the chunks in address order (taking, giving back, splitting, joining and all-or-nothing
    allocation of chunks, and the steps of shared mappings); the
    decisions of the user space manager about its chunks, the per-process requests (brk, mmap options, ELF layouts), and shared file
    mappings.
  - `vm_epc`, `page_tracker`: enclave memory kinds, and page commit tracking per area and per
    page chunk.
  - `util`: lock word transitions, ring buffer wait queues and steps, user pointer checks,
    quote buffers and quoting call results, `/etc/hosts` parsing, the checks of the host files taken into the enclave,
    and small helpers.
- `tests/`: tests of the library on concrete values.
- `app/`: a thin layer around the library: lock words on atomics with waiting, `/etc/hosts`
  reading, an id counter, per-process memory over one chunk, and a user space that holds the
  global manager of `vm_manager` and runs its mmap steps and munmap targets over default and
  single-area chunks. Shared file mappings and the memory itself (page commits, file
  contents) are not handled there.

The areas of a chunk are kept in a sorted `Vec`, where the original keeps them in a red-black
tree of `intrusive_collections`. That tree needs an adapter that is written with the crate's
macro or an `unsafe` impl, and neither can stand in the verified library; the sorted `Vec`
with its stated order takes its place.
