//! What the filesystem needs to know of the scheduler: wakeup tokens, what a
//! parked task waits for, and the record of what the scheduler is asked to do.

use vstd::prelude::*;
use crate::process::ProcessId;
use crate::multitasking::waitfor::ExplicitEventId;

pub mod waitfor;

verus! {

/// Size of a page of memory, in bytes.
pub const PAGE_SIZE_BYTES: usize = 0x1000;

/// An executable image, laid out for loading: the bytes of the file,
/// followed by zeros up to the end of the last page.
#[derive(Debug)]
pub struct ElfImage {
    bytes: Vec<u8>,
}

impl ElfImage {
    /// The bytes of the image: whole pages.
    pub closed spec fn view(&self) -> Seq<u8> {
        self.bytes@
    }

    /// `file` followed by as few zeros as bring it to whole pages.
    pub open spec fn padded(file: Seq<u8>) -> Seq<u8> {
        file + Seq::new(Self::padding(file.len()), |i: int| 0u8)
    }

    /// The number of zeros that bring `len` bytes to whole pages.
    pub open spec fn padding(len: nat) -> nat {
        if len % (PAGE_SIZE_BYTES as nat) == 0 {
            0
        } else {
            ((PAGE_SIZE_BYTES as nat) - len % (PAGE_SIZE_BYTES as nat)) as nat
        }
    }

    /// The image of a file. `None` where the padded image would not fit
    /// the address space.
    pub fn new(file: Vec<u8>) -> (image: Option<Self>)
        ensures
            match image {
                Some(image) => image@ == Self::padded(file@) && file@.len() + Self::padding(
                    file@.len(),
                ) <= usize::MAX,
                None => file@.len() + Self::padding(file@.len()) > usize::MAX,
            },
    {
        let rest = file.len() % PAGE_SIZE_BYTES;
        let padding: usize = if rest == 0 {
            0
        } else {
            PAGE_SIZE_BYTES - rest
        };
        if padding > usize::MAX - file.len() {
            return None;
        }
        let mut bytes = file;
        let mut i: usize = 0;
        while i < padding
            invariant
                i <= padding,
                padding == Self::padding(file@.len()),
                file@.len() + padding <= usize::MAX,
                bytes@ == file@ + Seq::new(i as nat, |j: int| 0u8),
            decreases padding - i,
        {
            bytes.push(0u8);
            i += 1;
        }
        Some(ElfImage { bytes })
    }

    /// The number of pages that the image takes.
    pub fn size_pages(&self) -> (pages: usize)
        ensures
            pages == self@.len() / (PAGE_SIZE_BYTES as nat),
    {
        self.bytes.len() / PAGE_SIZE_BYTES
    }

    /// The bytes of the image.
    pub fn as_bytes(&self) -> (bytes: &Vec<u8>)
        ensures
            bytes@ == self@,
    {
        &self.bytes
    }
}

/// An image has whole pages, starts with the file and is zero after it.
pub proof fn lemma_image_layout(file: Seq<u8>)
    ensures
        ElfImage::padded(file).len() % (PAGE_SIZE_BYTES as nat) == 0,
        ElfImage::padded(file).len() < file.len() + PAGE_SIZE_BYTES,
        ElfImage::padded(file).subrange(0, file.len() as int) == file,
        forall|i: int|
            file.len() <= i < ElfImage::padded(file).len() ==> ElfImage::padded(file)[i] == 0u8,
{
    assert(ElfImage::padded(file).subrange(0, file.len() as int) =~= file);
}

/// The scheduler, as the filesystem sees it.
///
/// The filesystem never runs a process. It asks the scheduler to wake the
/// tasks that wait for an event, and to start a process from an image. This
/// type records those requests in the order in which they were made; whoever
/// holds the real scheduler takes them from here and carries them out before
/// any process runs again.
#[derive(Debug)]
pub struct Scheduler {
    next_pid: ProcessId,
    triggered: Vec<ExplicitEventId>,
    spawned: Vec<(ProcessId, ElfImage)>,
}

impl Scheduler {
    /// The id that the next process will get.
    pub closed spec fn next_pid(&self) -> ProcessId {
        self.next_pid
    }

    /// The events that the scheduler was asked to trigger and that have not
    /// been taken yet, oldest first.
    pub closed spec fn triggered(&self) -> Seq<ExplicitEventId> {
        self.triggered@
    }

    /// The processes that the scheduler was asked to start and that have not
    /// been taken yet, oldest first: the id and the bytes of the image.
    pub closed spec fn spawned(&self) -> Seq<(ProcessId, Seq<u8>)> {
        Seq::new(self.spawned@.len(), |i: int| (self.spawned@[i].0, self.spawned@[i].1@))
    }

    /// Whether the scheduler can start `n` more processes.
    pub open spec fn has_room(&self, n: nat) -> bool {
        self.next_pid().value() + n <= u64::MAX
    }

    pub fn new() -> (sched: Self)
        ensures
            sched.next_pid().value() == 1,
            sched.triggered() == Seq::<ExplicitEventId>::empty(),
            sched.spawned() == Seq::<(ProcessId, Seq<u8>)>::empty(),
    {
        Scheduler { next_pid: ProcessId::first(), triggered: Vec::new(), spawned: Vec::new() }
    }

    /// Whether one more process can be started.
    pub fn can_spawn(&self) -> (b: bool)
        ensures
            b == self.has_room(1),
    {
        self.next_pid.as_u64() < u64::MAX
    }

    /// Asks for every task that waits for `event` to be woken.
    pub fn trigger(&mut self, event: ExplicitEventId)
        ensures
            final(self).triggered() == old(self).triggered().push(event),
            final(self).next_pid() == old(self).next_pid(),
            final(self).spawned() == old(self).spawned(),
    {
        self.triggered.push(event);
        assert(self.spawned() =~= old(self).spawned());
    }

    /// Asks for a process to be started from `image`. Returns the id that
    /// the process gets.
    pub fn spawn(&mut self, image: ElfImage) -> (pid: ProcessId)
        requires
            old(self).has_room(1),
        ensures
            pid == old(self).next_pid(),
            final(self).next_pid().value() == old(self).next_pid().value() + 1,
            final(self).spawned() == old(self).spawned().push((pid, image@)),
            final(self).triggered() == old(self).triggered(),
    {
        let pid = self.next_pid;
        self.next_pid = pid.next();
        self.spawned.push((pid, image));
        assert(self.spawned() =~= old(self).spawned().push((pid, image@)));
        pid
    }

    /// Takes the events to trigger, oldest first.
    pub fn take_triggered(&mut self) -> (events: Vec<ExplicitEventId>)
        ensures
            events@ == old(self).triggered(),
            final(self).triggered() == Seq::<ExplicitEventId>::empty(),
            final(self).next_pid() == old(self).next_pid(),
            final(self).spawned() == old(self).spawned(),
    {
        let mut events = Vec::new();
        std::mem::swap(&mut self.triggered, &mut events);
        assert(self.spawned() =~= old(self).spawned());
        events
    }

    /// Takes the processes to start, oldest first.
    pub fn take_spawned(&mut self) -> (processes: Vec<(ProcessId, ElfImage)>)
        ensures
            processes@.len() == old(self).spawned().len(),
            forall|i: int|
                0 <= i < processes@.len() ==> (processes@[i].0, processes@[i].1@) == old(
                    self).spawned()[i],
            final(self).spawned() == Seq::<(ProcessId, Seq<u8>)>::empty(),
            final(self).next_pid() == old(self).next_pid(),
            final(self).triggered() == old(self).triggered(),
    {
        let mut processes = Vec::new();
        std::mem::swap(&mut self.spawned, &mut processes);
        assert(self.spawned() =~= Seq::<(ProcessId, Seq<u8>)>::empty());
        processes
    }
}

} // verus!
