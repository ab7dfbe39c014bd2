//! The shared state of a byte ring buffer between its reader and its writer: which side has
//! closed, which side blocks, and who waits for which event; and the decisions of a read or a
//! write from that state.
use vstd::prelude::*;
use std::collections::HashMap;
use vstd::std_specs::iter::IteratorSpec;
use crate::errno::Errno;
use crate::vm_area::pid_t;

verus! {

broadcast use vstd::std_specs::hash::group_hash_axioms;

pub const POLLIN: u32 = 0x001;
pub const POLLOUT: u32 = 0x004;
pub const POLLRDNORM: u32 = 0x040;
pub const POLLWRNORM: u32 = 0x100;

/// What a waiting thread waits for.
#[derive(Clone, Copy, Debug, PartialEq, Eq, Structural)]
pub enum IoEvent {
    /// A poll for the events in the bits.
    Poll(u32),
    Epoll,
    BlockingRead,
    BlockingWrite,
}

/// The threads to wake once data arrives: blocking readers and pollers of readable data.
pub open spec fn wakes_on_data(e: IoEvent) -> bool {
    match e {
        IoEvent::Poll(ev) => ev & (POLLIN | POLLRDNORM) != 0,
        IoEvent::BlockingRead => true,
        _ => false,
    }
}

/// The threads to wake once space frees up: blocking writers and pollers of writable space.
pub open spec fn wakes_on_space(e: IoEvent) -> bool {
    match e {
        IoEvent::Poll(ev) => ev & (POLLOUT | POLLWRNORM) != 0,
        IoEvent::BlockingWrite => true,
        _ => false,
    }
}

/// Which waiters a change of the buffer wakes: 0 after data arrived, 1 after space freed up,
/// 2 when the writer is gone (readers and pollers), 3 when the reader is gone (writers and pollers).
pub open spec fn wakes(mode: u8, e: IoEvent) -> bool {
    if mode == 0 {
        wakes_on_data(e)
    } else if mode == 1 {
        wakes_on_space(e)
    } else if mode == 2 {
        e is Poll || e is BlockingRead
    } else {
        e is Poll || e is BlockingWrite
    }
}

/// The shared state of a ring buffer.
#[derive(Debug)]
pub struct RingBufMeta {
    reader_closed: bool,
    writer_closed: bool,
    reader_wait_queue: HashMap<pid_t, IoEvent>,
    writer_wait_queue: HashMap<pid_t, IoEvent>,
    blocking_read: bool,
    blocking_write: bool,
}

/// The thread ids of a wait queue whose events satisfy `f`, each once.
fn select_waiters(queue: &HashMap<pid_t, IoEvent>, mode: u8) -> (r: Vec<pid_t>)
    requires
        mode <= 3,
    ensures
        r@.no_duplicates(),
        forall|t: pid_t| r@.contains(t) <==> queue@.contains_key(t) && wakes(mode, queue@[t]),
{
    let ghost items = vstd::std_specs::hash::spec_hash_map_iter(queue).remaining();
    let mut out: Vec<pid_t> = Vec::new();
    for item in it: queue.iter()
        invariant
            it.seq() == items,
            items == vstd::std_specs::hash::spec_hash_map_iter(queue).remaining(),
            items.no_duplicates(),
            mode <= 3,
            out@.no_duplicates(),
            forall|t: pid_t| out@.contains(t) <==> exists|i: int| 0 <= i < it.index() && *(#[trigger] items[i]).0 == t && wakes(mode, *items[i].1),
    {
        let (tid, event) = item;
        let wake = match event {
            IoEvent::Poll(ev) => if mode == 0 {
                *ev & (POLLIN | POLLRDNORM) != 0
            } else if mode == 1 {
                *ev & (POLLOUT | POLLWRNORM) != 0
            } else {
                true
            },
            IoEvent::BlockingRead => mode == 0 || mode == 2,
            IoEvent::BlockingWrite => mode == 1 || mode == 3,
            IoEvent::Epoll => false,
        };
        proof {
            let i = it.index();
            assert(items[i] == (tid, event));
            assert(queue@.contains_key(*tid) && queue@[*tid] == *event);
            assert forall|j: int| 0 <= j < i implies *(#[trigger] items[j]).0 != *tid by {
                assert(queue@.contains_key(*items[j].0) && queue@[*items[j].0] == *items[j].1);
                if *items[j].0 == *tid {
                    assert(*items[j].1 == *event);
                    assert(items[j] == items[i]);
                }
            }
        }
        assert(wake == wakes(mode, *event));
        let ghost old_out = out@;
        assert(!old_out.contains(*tid));
        if wake {
            out.push(*tid);
            assert forall|a: int, b: int| 0 <= a < b < out@.len() implies out@[a] != out@[b] by {
                if b == old_out.len() {
                    assert(old_out.contains(old_out[a]));
                }
            }
        }
        proof {
            let i = it.index();
            assert forall|t: pid_t| out@.contains(t) <==> exists|k: int| 0 <= k < i + 1 && *(#[trigger] items[k]).0 == t && wakes(mode, *items[k].1) by {
                if wake {
                    assert(out@ == old_out.push(*tid));
                    if out@.contains(t) {
                        let j = choose|j: int| 0 <= j < out@.len() && out@[j] == t;
                        if j == old_out.len() {
                            assert(*items[i].0 == t);
                        } else {
                            assert(old_out.contains(t));
                        }
                    }
                } else {
                    assert(out@ == old_out);
                }
                if exists|k: int| 0 <= k < i + 1 && *(#[trigger] items[k]).0 == t && wakes(mode, *items[k].1) {
                    let k = choose|k: int| 0 <= k < i + 1 && *(#[trigger] items[k]).0 == t && wakes(mode, *items[k].1);
                    if k == i {
                        assert(out@[out@.len() - 1] == t);
                    } else {
                        assert(old_out.contains(t));
                        let j = choose|j: int| 0 <= j < old_out.len() && old_out[j] == t;
                        assert(out@[j] == t);
                    }
                }
            }
        }
    }
    proof {
        assert forall|t: pid_t| out@.contains(t) <==> queue@.contains_key(t) && wakes(mode, queue@[t]) by {
            if queue@.contains_key(t) && wakes(mode, queue@[t]) {
                assert(items.contains((&t, &queue@[t])));
                let k = choose|k: int| 0 <= k < items.len() && items[k] == (&t, &queue@[t]);
                assert(*items[k].0 == t);
            }
            if out@.contains(t) {
                let k = choose|k: int| 0 <= k < items.len() && *(#[trigger] items[k]).0 == t && wakes(mode, *items[k].1);
                assert(queue@.contains_key(*items[k].0) && queue@[*items[k].0] == *items[k].1);
            }
        }
    }
    out
}


impl RingBufMeta {
    pub closed spec fn spec_reader_closed(&self) -> bool { self.reader_closed }
    pub closed spec fn spec_writer_closed(&self) -> bool { self.writer_closed }
    pub closed spec fn spec_blocking_read(&self) -> bool { self.blocking_read }
    pub closed spec fn spec_blocking_write(&self) -> bool { self.blocking_write }
    pub closed spec fn readers(&self) -> Map<pid_t, IoEvent> { self.reader_wait_queue@ }
    pub closed spec fn writers(&self) -> Map<pid_t, IoEvent> { self.writer_wait_queue@ }

    /// Both sides open and blocking, nobody waiting.
    pub fn new() -> (r: RingBufMeta)
        ensures
            !r.spec_reader_closed() && !r.spec_writer_closed(),
            r.spec_blocking_read() && r.spec_blocking_write(),
            r.readers() == Map::<pid_t, IoEvent>::empty(),
            r.writers() == Map::<pid_t, IoEvent>::empty(),
    {
        RingBufMeta {
            reader_closed: false,
            writer_closed: false,
            reader_wait_queue: HashMap::new(),
            writer_wait_queue: HashMap::new(),
            blocking_read: true,
            blocking_write: true,
        }
    }

    pub fn is_reader_closed(&self) -> (r: bool)
        ensures
            r == self.spec_reader_closed(),
    {
        self.reader_closed
    }

    pub fn close_reader(&mut self)
        ensures
            final(self).spec_reader_closed(),
            final(self).spec_writer_closed() == old(self).spec_writer_closed(),
            final(self).spec_blocking_read() == old(self).spec_blocking_read(),
            final(self).spec_blocking_write() == old(self).spec_blocking_write(),
            final(self).readers() == old(self).readers(),
            final(self).writers() == old(self).writers(),
    {
        self.reader_closed = true;
    }

    pub fn is_writer_closed(&self) -> (r: bool)
        ensures
            r == self.spec_writer_closed(),
    {
        self.writer_closed
    }

    pub fn close_writer(&mut self)
        ensures
            final(self).spec_writer_closed(),
            final(self).spec_reader_closed() == old(self).spec_reader_closed(),
            final(self).spec_blocking_read() == old(self).spec_blocking_read(),
            final(self).spec_blocking_write() == old(self).spec_blocking_write(),
            final(self).readers() == old(self).readers(),
            final(self).writers() == old(self).writers(),
    {
        self.writer_closed = true;
    }

    pub fn reader_wait_queue(&self) -> (r: &HashMap<pid_t, IoEvent>)
        ensures
            r@ == self.readers(),
    {
        &self.reader_wait_queue
    }

    pub fn writer_wait_queue(&self) -> (r: &HashMap<pid_t, IoEvent>)
        ensures
            r@ == self.writers(),
    {
        &self.writer_wait_queue
    }

    /// Record that thread `tid` waits on the reader side for `event`.
    pub fn enqueue_reader_event(&mut self, tid: pid_t, event: IoEvent) -> (r: Result<(), Errno>)
        ensures
            r is Ok,
            final(self).readers() == old(self).readers().insert(tid, event),
            final(self).writers() == old(self).writers(),
            final(self).spec_reader_closed() == old(self).spec_reader_closed(),
            final(self).spec_writer_closed() == old(self).spec_writer_closed(),
            final(self).spec_blocking_read() == old(self).spec_blocking_read(),
            final(self).spec_blocking_write() == old(self).spec_blocking_write(),
    {
        self.reader_wait_queue.insert(tid, event);
        Ok(())
    }

    /// Thread `tid` no longer waits on the reader side.
    pub fn dequeue_reader_event(&mut self, tid: pid_t) -> (r: Result<(), Errno>)
        requires
            old(self).readers().contains_key(tid),
        ensures
            r is Ok,
            final(self).readers() == old(self).readers().remove(tid),
            final(self).writers() == old(self).writers(),
            final(self).spec_reader_closed() == old(self).spec_reader_closed(),
            final(self).spec_writer_closed() == old(self).spec_writer_closed(),
            final(self).spec_blocking_read() == old(self).spec_blocking_read(),
            final(self).spec_blocking_write() == old(self).spec_blocking_write(),
    {
        self.reader_wait_queue.remove(&tid);
        Ok(())
    }

    /// Record that thread `tid` waits on the writer side for `event`.
    pub fn enqueue_writer_event(&mut self, tid: pid_t, event: IoEvent) -> (r: Result<(), Errno>)
        ensures
            r is Ok,
            final(self).writers() == old(self).writers().insert(tid, event),
            final(self).readers() == old(self).readers(),
            final(self).spec_reader_closed() == old(self).spec_reader_closed(),
            final(self).spec_writer_closed() == old(self).spec_writer_closed(),
            final(self).spec_blocking_read() == old(self).spec_blocking_read(),
            final(self).spec_blocking_write() == old(self).spec_blocking_write(),
    {
        self.writer_wait_queue.insert(tid, event);
        Ok(())
    }

    /// Thread `tid` no longer waits on the writer side.
    pub fn dequeue_writer_event(&mut self, tid: pid_t) -> (r: Result<(), Errno>)
        requires
            old(self).writers().contains_key(tid),
        ensures
            r is Ok,
            final(self).writers() == old(self).writers().remove(tid),
            final(self).readers() == old(self).readers(),
            final(self).spec_reader_closed() == old(self).spec_reader_closed(),
            final(self).spec_writer_closed() == old(self).spec_writer_closed(),
            final(self).spec_blocking_read() == old(self).spec_blocking_read(),
            final(self).spec_blocking_write() == old(self).spec_blocking_write(),
    {
        self.writer_wait_queue.remove(&tid);
        Ok(())
    }

    pub fn blocking_read(&self) -> (r: bool)
        ensures
            r == self.spec_blocking_read(),
    {
        self.blocking_read
    }

    pub fn set_non_blocking_read(&mut self)
        ensures
            !final(self).spec_blocking_read(),
            final(self).spec_blocking_write() == old(self).spec_blocking_write(),
            final(self).spec_reader_closed() == old(self).spec_reader_closed(),
            final(self).spec_writer_closed() == old(self).spec_writer_closed(),
            final(self).readers() == old(self).readers(),
            final(self).writers() == old(self).writers(),
    {
        self.blocking_read = false;
    }

    pub fn set_blocking_read(&mut self)
        ensures
            final(self).spec_blocking_read(),
            final(self).spec_blocking_write() == old(self).spec_blocking_write(),
            final(self).spec_reader_closed() == old(self).spec_reader_closed(),
            final(self).spec_writer_closed() == old(self).spec_writer_closed(),
            final(self).readers() == old(self).readers(),
            final(self).writers() == old(self).writers(),
    {
        self.blocking_read = true;
    }

    pub fn blocking_write(&self) -> (r: bool)
        ensures
            r == self.spec_blocking_write(),
    {
        self.blocking_write
    }

    pub fn set_non_blocking_write(&mut self)
        ensures
            !final(self).spec_blocking_write(),
            final(self).spec_blocking_read() == old(self).spec_blocking_read(),
            final(self).spec_reader_closed() == old(self).spec_reader_closed(),
            final(self).spec_writer_closed() == old(self).spec_writer_closed(),
            final(self).readers() == old(self).readers(),
            final(self).writers() == old(self).writers(),
    {
        self.blocking_write = false;
    }

    pub fn set_blocking_write(&mut self)
        ensures
            final(self).spec_blocking_write(),
            final(self).spec_blocking_read() == old(self).spec_blocking_read(),
            final(self).spec_reader_closed() == old(self).spec_reader_closed(),
            final(self).spec_writer_closed() == old(self).spec_writer_closed(),
            final(self).readers() == old(self).readers(),
            final(self).writers() == old(self).writers(),
    {
        self.blocking_write = true;
    }

    /// The readers to wake after a write: blocking readers and pollers for readable data.
    /// A waiting reader never waits to write, and epoll waiters are not supported.
    pub fn readers_to_wake_after_write(&self) -> (r: Vec<pid_t>)
        requires
            forall|t: pid_t| self.readers().contains_key(t) ==> !(self.readers()[t] is Epoll) && !(self.readers()[t] is BlockingWrite),
        ensures
            r@.no_duplicates(),
            forall|t: pid_t| r@.contains(t) <==> self.readers().contains_key(t) && wakes_on_data(self.readers()[t]),
    {
        select_waiters(&self.reader_wait_queue, 0)
    }

    /// The writers to wake after a read: blocking writers and pollers for writable space.
    /// A waiting writer never waits to read, and epoll waiters are not supported.
    pub fn writers_to_wake_after_read(&self) -> (r: Vec<pid_t>)
        requires
            forall|t: pid_t| self.writers().contains_key(t) ==> !(self.writers()[t] is Epoll) && !(self.writers()[t] is BlockingRead),
        ensures
            r@.no_duplicates(),
            forall|t: pid_t| r@.contains(t) <==> self.writers().contains_key(t) && wakes_on_space(self.writers()[t]),
    {
        select_waiters(&self.writer_wait_queue, 1)
    }

    /// The readers to wake when the writer goes away: every poller and blocking reader.
    pub fn readers_to_wake_on_writer_drop(&self) -> (r: Vec<pid_t>)
        requires
            forall|t: pid_t| self.readers().contains_key(t) ==> !(self.readers()[t] is Epoll) && !(self.readers()[t] is BlockingWrite),
        ensures
            r@.no_duplicates(),
            forall|t: pid_t| r@.contains(t) <==> self.readers().contains_key(t),
    {
        select_waiters(&self.reader_wait_queue, 2)
    }

    /// The writers to wake when the reader goes away: every poller and blocking writer.
    pub fn writers_to_wake_on_reader_drop(&self) -> (r: Vec<pid_t>)
        requires
            forall|t: pid_t| self.writers().contains_key(t) ==> !(self.writers()[t] is Epoll) && !(self.writers()[t] is BlockingRead),
        ensures
            r@.no_duplicates(),
            forall|t: pid_t| r@.contains(t) <==> self.writers().contains_key(t),
    {
        select_waiters(&self.writer_wait_queue, 3)
    }
}

/// What a read from the ring buffer does next.
#[derive(Clone, Copy, Debug, PartialEq, Eq, Structural)]
pub enum ReadStep {
    /// Take the bytes that are there.
    Pop,
    /// Nothing to read and the writer is gone: return 0.
    EndOfFile,
    /// Nothing to read yet: wait as a blocking reader, then take what is there.
    Wait,
}

/// What a write to the ring buffer does next.
#[derive(Clone, Copy, Debug, PartialEq, Eq, Structural)]
pub enum WriteStep {
    /// Put the bytes that fit.
    Push,
    /// No space yet: wait as a blocking writer, then put what fits.
    Wait,
}

/// The next step of a read: take the data that is there; with none, end of file once the writer
/// is gone, `EAGAIN` when the reader does not block, and waiting otherwise.
pub fn read_step(can_read: bool, peer_closed: bool, blocking: bool) -> (r: Result<ReadStep, Errno>)
    ensures
        can_read ==> r == Ok::<ReadStep, Errno>(ReadStep::Pop),
        !can_read && peer_closed ==> r == Ok::<ReadStep, Errno>(ReadStep::EndOfFile),
        !can_read && !peer_closed && !blocking ==> r == Err::<ReadStep, Errno>(Errno::EAGAIN),
        !can_read && !peer_closed && blocking ==> r == Ok::<ReadStep, Errno>(ReadStep::Wait),
{
    if can_read {
        Ok(ReadStep::Pop)
    } else if peer_closed {
        Ok(ReadStep::EndOfFile)
    } else if !blocking {
        Err(Errno::EAGAIN)
    } else {
        Ok(ReadStep::Wait)
    }
}

/// The next step of a write: `EPIPE` once the reader is gone; put what fits when there is
/// space; with none, `EAGAIN` when the writer does not block, and waiting otherwise.
pub fn write_step(can_write: bool, peer_closed: bool, blocking: bool) -> (r: Result<WriteStep, Errno>)
    ensures
        peer_closed ==> r == Err::<WriteStep, Errno>(Errno::EPIPE),
        !peer_closed && can_write ==> r == Ok::<WriteStep, Errno>(WriteStep::Push),
        !peer_closed && !can_write && !blocking ==> r == Err::<WriteStep, Errno>(Errno::EAGAIN),
        !peer_closed && !can_write && blocking ==> r == Ok::<WriteStep, Errno>(WriteStep::Wait),
{
    if peer_closed {
        Err(Errno::EPIPE)
    } else if can_write {
        Ok(WriteStep::Push)
    } else if !blocking {
        Err(Errno::EAGAIN)
    } else {
        Ok(WriteStep::Wait)
    }
}

/// The result of a read after waiting: the bytes taken, or 0 when the writer went away.
pub fn read_after_wait(count: usize) -> (r: Result<usize, Errno>)
    ensures
        r == Ok::<usize, Errno>(count),
{
    Ok(count)
}

/// The result of a write after waiting: the bytes put, or `EPIPE` when none fit because the
/// reader went away.
pub fn write_after_wait(count: usize) -> (r: Result<usize, Errno>)
    ensures
        count > 0 ==> r == Ok::<usize, Errno>(count),
        count == 0 ==> r == Err::<usize, Errno>(Errno::EPIPE),
{
    if count > 0 {
        Ok(count)
    } else {
        Err(Errno::EPIPE)
    }
}

} // verus!
