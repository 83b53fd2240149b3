//! The kinds of file, and what each does when it is opened, read, written
//! and closed.

use vstd::prelude::*;
use std::collections::VecDeque;
use crate::abi::FileInfo;
use crate::filesystem::FileClientId;
use crate::filesystem::file::attachment::{Attachment, AttachmentView};
use crate::filesystem::file::internal::{BranchView, InternalBranch};
use crate::filesystem::file::process_file::{ProcessFile, ProcessFileView};
use crate::filesystem::result::{ErrorCode, IoResult, IoResultPure};
use crate::multitasking::Scheduler;
use crate::multitasking::waitfor::{EventCounter, ExplicitEventId, WaitFor};
use crate::process::ProcessId;
use crate::table::Table;

pub mod attachment;
pub mod internal;
pub mod process_file;

verus! {

/// Whether a node can have children, and who keeps them.
#[derive(Debug, Clone, Copy, PartialEq, Eq, Structural)]
pub enum Leafness {
    /// The node never has children.
    Leaf,
    /// The children are served by the manager of an attachment.
    Branch,
    /// The children are kept by the kernel.
    InternalBranch,
}

/// What closing a file asks of the filesystem.
#[derive(Debug, Clone, Copy, PartialEq, Eq, Structural)]
pub enum CloseAction {
    /// Nothing more.
    Normal,
    /// The node is to be destroyed.
    Destroy,
}

/// Wakeups that the destruction of a node asks for.
#[derive(Debug)]
pub struct Trigger {
    events: Vec<ExplicitEventId>,
}

impl Trigger {
    /// The events to trigger, in order.
    pub closed spec fn view(&self) -> Seq<ExplicitEventId> {
        self.events@
    }

    /// Nothing to trigger.
    pub fn empty() -> (trigger: Self)
        ensures
            trigger@ == Seq::<ExplicitEventId>::empty(),
    {
        Trigger { events: Vec::new() }
    }

    /// These events to trigger.
    pub fn events(events: Vec<ExplicitEventId>) -> (trigger: Self)
        ensures
            trigger@ == events@,
    {
        Trigger { events }
    }

    /// The events, in order.
    pub fn into_events(self) -> (events: Vec<ExplicitEventId>)
        ensures
            events@ == self@,
    {
        self.events
    }

    /// Asks the scheduler to trigger every event, in order.
    pub fn run(self, sched: &mut Scheduler)
        ensures
            final(sched).triggered() == old(sched).triggered() + self@,
            final(sched).next_pid() == old(sched).next_pid(),
            final(sched).spawned() == old(sched).spawned(),
    {
        let mut i: usize = 0;
        while i < self.events.len()
            invariant
                i <= self.events@.len(),
                sched.triggered() == old(sched).triggered() + self.events@.subrange(0, i as int),
                sched.next_pid() == old(sched).next_pid(),
                sched.spawned() == old(sched).spawned(),
            decreases self.events@.len() - i,
        {
            sched.trigger(self.events[i]);
            i += 1;
            assert(self.events@.subrange(0, i as int) =~= self.events@.subrange(0, i - 1).push(
                self.events@[i - 1],
            ));
        }
        assert(self.events@.subrange(0, i as int) =~= self.events@);
    }
}

/// What a read does: the state after it, how many events it minted, what it
/// returns, and the bytes it puts at the start of the buffer.
pub struct ReadStep<S> {
    pub post: S,
    pub minted: nat,
    pub result: IoResult<usize>,
    pub data: Seq<u8>,
}

/// What a write does: the state after it and what it returns.
pub struct WriteStep<S> {
    pub post: S,
    pub result: IoResult<usize>,
}

/// What a close does: the state after it and what it returns.
pub struct CloseStep<S> {
    pub post: S,
    pub result: IoResult<CloseAction>,
}

/// The first `n` bytes of `data`, followed by what `buf` held behind them:
/// a buffer after `n` bytes of `data` were copied to its start.
pub open spec fn filled(buf: Seq<u8>, data: Seq<u8>, n: int) -> Seq<u8> {
    data.subrange(0, n) + buf.subrange(n, buf.len() as int)
}

/// The number of bytes that one read moves from a stream of `available`
/// bytes into a buffer of `capacity` bytes.
pub open spec fn chunk(capacity: int, available: int) -> int {
    if capacity <= available {
        capacity
    } else {
        available
    }
}

/// Moves bytes from the front of `queue` to the start of `buf`, as many as
/// fit and are there.
pub fn drain_into(queue: &mut VecDeque<u8>, buf: &mut [u8]) -> (n: usize)
    ensures
        n == chunk(old(buf)@.len() as int, old(queue)@.len() as int),
        final(buf)@ == filled(old(buf)@, old(queue)@, n as int),
        final(queue)@ == old(queue)@.subrange(n as int, old(queue)@.len() as int),
{
    let mut i: usize = 0;
    while i < buf.len() && queue.len() > 0
        invariant
            i <= buf@.len(),
            buf@.len() == old(buf)@.len(),
            i <= old(queue)@.len(),
            queue@ == old(queue)@.subrange(i as int, old(queue)@.len() as int),
            buf@ == filled(old(buf)@, old(queue)@, i as int),
        decreases buf@.len() - i,
    {
        let byte = queue.pop_front();
        buf[i] = byte.unwrap();
        i += 1;
        assert(buf@ =~= filled(old(buf)@, old(queue)@, i as int));
        assert(queue@ =~= old(queue)@.subrange(i as int, old(queue)@.len() as int));
    }
    i
}

/// Copies `data` to the start of `buf`.
pub fn copy_into(data: &Vec<u8>, buf: &mut [u8])
    requires
        data@.len() <= old(buf)@.len(),
    ensures
        final(buf)@ == filled(old(buf)@, data@, data@.len() as int),
{
    let mut i: usize = 0;
    while i < data.len()
        invariant
            i <= data@.len(),
            data@.len() <= buf@.len(),
            buf@.len() == old(buf)@.len(),
            buf@ == filled(old(buf)@, data@, i as int),
        decreases data@.len() - i,
    {
        buf[i] = data[i];
        i += 1;
        assert(buf@ =~= filled(old(buf)@, data@, i as int));
    }
}

/// The bytes that each client of a file has still to read.
///
/// A client gets its stream when the file first has something for it, reads
/// it front to back, possibly in several calls, and keeps it, empty in the
/// end, until it closes the file.
pub struct ByteStreams {
    streams: Table<FileClientId, VecDeque<u8>>,
}

impl ByteStreams {
    /// The bytes left to read, by client.
    pub closed spec fn view(&self) -> Map<FileClientId, Seq<u8>> {
        Map::new(
            |fc: FileClientId| self.streams@.contains_key(fc),
            |fc: FileClientId| self.streams@[fc]@,
        )
    }

    pub closed spec fn wf(&self) -> bool {
        self.streams.wf()
    }

    pub fn new() -> (streams: Self)
        ensures
            streams.wf(),
            streams@ == Map::<FileClientId, Seq<u8>>::empty(),
    {
        let streams = ByteStreams { streams: Table::new() };
        assert(streams@ =~= Map::<FileClientId, Seq<u8>>::empty());
        streams
    }

    pub fn contains(&self, fc: FileClientId) -> (b: bool)
        requires
            self.wf(),
        ensures
            b == self@.contains_key(fc),
    {
        self.streams.contains_key(fc)
    }

    /// Gives `fc` the stream `data`, in place of any it had.
    pub fn put(&mut self, fc: FileClientId, data: Vec<u8>)
        requires
            old(self).wf(),
        ensures
            final(self).wf(),
            final(self)@ == old(self)@.insert(fc, data@),
    {
        let mut queue: VecDeque<u8> = VecDeque::new();
        let mut i: usize = 0;
        while i < data.len()
            invariant
                i <= data@.len(),
                queue@ == data@.subrange(0, i as int),
            decreases data@.len() - i,
        {
            queue.push_back(data[i]);
            i += 1;
            assert(queue@ =~= data@.subrange(0, i as int));
        }
        assert(data@.subrange(0, i as int) =~= data@);
        self.streams.insert(fc, queue);
        assert(self@ =~= old(self)@.insert(fc, data@));
    }

    /// Moves bytes from the front of the stream of `fc` to the start of
    /// `buf`, as many as fit and are there. `None` where `fc` has no stream.
    pub fn read(&mut self, fc: FileClientId, buf: &mut [u8]) -> (n: Option<usize>)
        requires
            old(self).wf(),
        ensures
            final(self).wf(),
            match n {
                Some(n) => {
                    &&& old(self)@.contains_key(fc)
                    &&& n == chunk(old(buf)@.len() as int, old(self)@[fc].len() as int)
                    &&& final(buf)@ == filled(old(buf)@, old(self)@[fc], n as int)
                    &&& final(self)@ == old(self)@.insert(
                        fc,
                        old(self)@[fc].subrange(n as int, old(self)@[fc].len() as int),
                    )
                },
                None => !old(self)@.contains_key(fc) && final(self)@ == old(self)@ && final(buf)@
                    == old(buf)@,
            },
    {
        match self.streams.get_mut(fc) {
            Some(queue) => {
                let n = drain_into(queue, buf);
                assert(self@ =~= old(self)@.insert(
                    fc,
                    old(self)@[fc].subrange(n as int, old(self)@[fc].len() as int),
                ));
                Some(n)
            },
            None => {
                assert(self@ =~= old(self)@);
                None
            },
        }
    }

    /// Takes the stream of `fc` away.
    pub fn remove(&mut self, fc: FileClientId)
        requires
            old(self).wf(),
        ensures
            final(self).wf(),
            final(self)@ == old(self)@.remove(fc),
    {
        self.streams.remove(fc);
        assert(self@ =~= old(self)@.remove(fc));
    }
}

/// The devices that drivers serve. The filesystem keeps their nodes and
/// leaves their input and output to the drivers.
#[derive(Debug, Clone, Copy, PartialEq, Eq, Structural)]
pub enum DeviceKind {
    /// The test device.
    Test,
    /// The kernel console.
    Console,
    /// The network card.
    Nic,
    /// The hardware address of the network card.
    NicMac,
}

/// The operations of a file, as plain values: what kind of file it is, with
/// the state of that kind.
pub enum FileOpsView {
    Null,
    Zero,
    Internal(BranchView),
    Process(ProcessFileView),
    Attached(AttachmentView),
    Device(DeviceKind),
}

impl FileOpsView {
    pub open spec fn leafness(self) -> Leafness {
        match self {
            FileOpsView::Internal(_) => Leafness::InternalBranch,
            FileOpsView::Attached(a) => if a.is_leaf {
                Leafness::Leaf
            } else {
                Leafness::Branch
            },
            _ => Leafness::Leaf,
        }
    }

    /// What holds of a file between any two operations.
    pub open spec fn wf(self) -> bool {
        match self {
            FileOpsView::Internal(b) => b.wf(),
            FileOpsView::Attached(a) => a.wf(),
            _ => true,
        }
    }

    /// Every event in the file has a number below `next`.
    pub open spec fn minted_below(self, next: u64) -> bool {
        match self {
            FileOpsView::Attached(a) => a.minted_below(next),
            _ => true,
        }
    }

    /// The clients that have begun to read a listing or a result.
    pub open spec fn stream_clients(self) -> Set<FileClientId> {
        match self {
            FileOpsView::Internal(b) => b.readers.dom(),
            FileOpsView::Process(p) => p.readers.dom(),
            _ => Set::empty(),
        }
    }

    /// The process behind the file: the one that a process file is about,
    /// or the one that serves an attachment.
    pub open spec fn pid(self) -> Option<ProcessId> {
        match self {
            FileOpsView::Process(p) => Some(p.pid),
            FileOpsView::Attached(a) => a.manager.process,
            _ => None,
        }
    }

    /// A read by `fc` into a buffer of `capacity` bytes, where the next
    /// event to mint has the number `next`.
    pub open spec fn read(self, fc: FileClientId, capacity: nat, next: u64) -> ReadStep<
        FileOpsView,
    > {
        match self {
            FileOpsView::Null => ReadStep {
                post: self,
                minted: 0,
                result: IoResult::Success(0),
                data: Seq::empty(),
            },
            FileOpsView::Zero => ReadStep {
                post: self,
                minted: 0,
                result: IoResult::Success(capacity as usize),
                data: Seq::new(capacity, |i: int| 0u8),
            },
            FileOpsView::Internal(b) => {
                let step = b.read(fc, capacity);
                ReadStep {
                    post: FileOpsView::Internal(step.post),
                    minted: step.minted,
                    result: step.result,
                    data: step.data,
                }
            },
            FileOpsView::Process(p) => {
                let step = p.read(fc, capacity);
                ReadStep {
                    post: FileOpsView::Process(step.post),
                    minted: step.minted,
                    result: step.result,
                    data: step.data,
                }
            },
            FileOpsView::Attached(a) => {
                let step = a.read(fc, capacity, next);
                ReadStep {
                    post: FileOpsView::Attached(step.post),
                    minted: step.minted,
                    result: step.result,
                    data: step.data,
                }
            },
            FileOpsView::Device(_) => ReadStep {
                post: self,
                minted: 0,
                result: IoResult::Error(ErrorCode::fs_unsupported),
                data: Seq::empty(),
            },
        }
    }

    /// A write of `bytes` by `fc`.
    pub open spec fn write(self, fc: FileClientId, bytes: Seq<u8>) -> WriteStep<FileOpsView> {
        match self {
            FileOpsView::Null => WriteStep {
                post: self,
                result: IoResult::Success(bytes.len() as usize),
            },
            FileOpsView::Zero => WriteStep {
                post: self,
                result: IoResult::Error(ErrorCode::fs_readonly),
            },
            FileOpsView::Internal(b) => WriteStep {
                post: FileOpsView::Internal(b.write(bytes).post),
                result: b.write(bytes).result,
            },
            FileOpsView::Process(p) => WriteStep {
                post: FileOpsView::Process(p.write(fc, bytes).post),
                result: p.write(fc, bytes).result,
            },
            FileOpsView::Attached(a) => WriteStep {
                post: FileOpsView::Attached(a.write(fc, bytes).post),
                result: a.write(fc, bytes).result,
            },
            FileOpsView::Device(_) => WriteStep {
                post: self,
                result: IoResult::Error(ErrorCode::fs_unsupported),
            },
        }
    }

    /// A close by `fc`.
    pub open spec fn close(self, fc: FileClientId) -> CloseStep<FileOpsView> {
        match self {
            FileOpsView::Internal(b) => CloseStep {
                post: FileOpsView::Internal(b.close(fc).post),
                result: b.close(fc).result,
            },
            FileOpsView::Process(p) => CloseStep {
                post: FileOpsView::Process(p.close(fc).post),
                result: p.close(fc).result,
            },
            FileOpsView::Attached(a) => CloseStep {
                post: FileOpsView::Attached(a.close(fc).post),
                result: a.close(fc).result,
            },
            _ => CloseStep { post: self, result: IoResult::Success(CloseAction::Normal) },
        }
    }

    /// What `fc` waits for before its next read.
    pub open spec fn read_waiting_for(self, fc: FileClientId) -> WaitFor {
        match self {
            FileOpsView::Process(p) => if p.status.is_none() {
                WaitFor::Process(p.pid)
            } else {
                WaitFor::Ready
            },
            FileOpsView::Attached(a) => if fc == a.manager {
                match a.flag {
                    Some(e) => WaitFor::Event(e),
                    None => WaitFor::Ready,
                }
            } else if a.pending_clients().contains(fc) {
                WaitFor::Event(a.pending[a.pending_clients().index_of(fc)].1)
            } else {
                WaitFor::Ready
            },
            _ => WaitFor::Ready,
        }
    }

    /// Whether destroying the file wakes every task parked on `event`.
    pub open spec fn outstanding(self, event: ExplicitEventId) -> bool {
        match self {
            FileOpsView::Attached(a) => a.outstanding(event),
            _ => false,
        }
    }
}

impl FileOpsView {
    /// Whether `post` is a later state of this file: the same kind of file,
    /// for the same process or under the same manager.
    pub open spec fn same_file(self, post: FileOpsView) -> bool {
        match (self, post) {
            (FileOpsView::Null, FileOpsView::Null) => true,
            (FileOpsView::Zero, FileOpsView::Zero) => true,
            (FileOpsView::Internal(_), FileOpsView::Internal(_)) => true,
            (FileOpsView::Process(p), FileOpsView::Process(q)) => p.pid == q.pid && p.owner
                == q.owner,
            (FileOpsView::Attached(a), FileOpsView::Attached(b)) => a.manager == b.manager
                && a.is_leaf == b.is_leaf,
            (FileOpsView::Device(k), FileOpsView::Device(l)) => k == l,
            _ => false,
        }
    }
}

/// No operation turns a file into another one, and only a read gives a
/// client a place in a listing or a result, which a close takes away.
pub proof fn lemma_file_steps_keep_identity(
    s: FileOpsView,
    fc: FileClientId,
    capacity: nat,
    bytes: Seq<u8>,
    next: u64,
)
    ensures
        s.same_file(s.read(fc, capacity, next).post),
        s.same_file(s.write(fc, bytes).post),
        s.same_file(s.close(fc).post),
        forall|c: FileClientId| #[trigger]
            s.read(fc, capacity, next).post.stream_clients().contains(c)
                ==> s.stream_clients().contains(c) || c == fc,
        s.write(fc, bytes).post.stream_clients() == s.stream_clients(),
        s.close(fc).post.stream_clients() == s.stream_clients().remove(fc),
{
    assert(s.write(fc, bytes).post.stream_clients() =~= s.stream_clients());
    assert(s.close(fc).post.stream_clients() =~= s.stream_clients().remove(fc));
}

/// A write or a close keeps what holds of a file between operations, and
/// brings no event into the file.
pub proof fn lemma_file_write_close_keep_invariants(
    s: FileOpsView,
    fc: FileClientId,
    bytes: Seq<u8>,
)
    requires
        s.wf(),
    ensures
        s.write(fc, bytes).post.wf(),
        s.close(fc).post.wf(),
        forall|next: u64| s.minted_below(next) ==> s.write(fc, bytes).post.minted_below(next),
        forall|next: u64| s.minted_below(next) ==> s.close(fc).post.minted_below(next),
{
    match s {
        FileOpsView::Internal(b) => {
            crate::filesystem::file::internal::lemma_write_keeps_names_distinct(b, bytes);
        },
        FileOpsView::Attached(a) => {
            crate::filesystem::file::attachment::lemma_write_keeps_invariants(a, fc, bytes);
            crate::filesystem::file::attachment::lemma_close_keeps_invariants(a, fc);
        },
        _ => {},
    }
}

/// Whatever a file does keeps what holds of it between operations, and no
/// successful read comes with a wakeup.
pub proof fn lemma_file_steps_keep_invariants(
    s: FileOpsView,
    fc: FileClientId,
    capacity: nat,
    bytes: Seq<u8>,
    next: u64,
)
    requires
        s.wf(),
        s.minted_below(next),
        next < u64::MAX,
        capacity <= usize::MAX,
    ensures
        s.read(fc, capacity, next).post.wf(),
        s.read(fc, capacity, next).post.minted_below(
            (next + s.read(fc, capacity, next).minted) as u64,
        ),
        s.read(fc, capacity, next).minted <= 1,
        s.read(fc, capacity, next).data.len() <= capacity,
        s.read(fc, capacity, next).result matches IoResult::Success(n) ==> n
            == s.read(fc, capacity, next).data.len(),
        !(s.read(fc, capacity, next).result is Success) ==> s.read(
            fc,
            capacity,
            next,
        ).data.len() == 0,
        s.read(fc, capacity, next).result.pure() is Success ==> s.read(
            fc,
            capacity,
            next,
        ).result is Success,
        s.write(fc, bytes).post.wf(),
        s.write(fc, bytes).post.minted_below(next),
        s.close(fc).post.wf(),
        s.close(fc).post.minted_below(next),
{
    reveal_with_fuel(IoResult::pure, 3);
    match s {
        FileOpsView::Internal(b) => {
            crate::filesystem::file::internal::lemma_write_keeps_names_distinct(b, bytes);
        },
        FileOpsView::Attached(a) => {
            crate::filesystem::file::attachment::lemma_read_keeps_invariants(a, fc, capacity, next);
            crate::filesystem::file::attachment::lemma_write_keeps_invariants(a, fc, bytes);
            crate::filesystem::file::attachment::lemma_close_keeps_invariants(a, fc);
            crate::filesystem::file::attachment::lemma_request_frame_len(
                crate::filesystem::wire::Request {
                    sender: crate::filesystem::file::attachment::sender_of(a.closed[0]),
                    data: crate::filesystem::wire::FileOperation::Close,
                },
            );
            crate::filesystem::file::attachment::lemma_request_frame_len(
                crate::filesystem::wire::Request {
                    sender: crate::filesystem::file::attachment::sender_of(a.pending[0].0),
                    data: crate::filesystem::wire::FileOperation::Read(
                        a.length_wanted(a.pending[0].0),
                    ),
                },
            );
        },
        _ => {},
    }
}

/// The operations of a file: one of the kinds of file, with its state.
pub enum FileOps {
    /// Reads as an empty file and swallows what is written.
    NullDevice,
    /// Reads as zeros without end and takes no writes.
    ZeroDevice,
    /// A directory that the kernel keeps.
    InternalBranch(InternalBranch),
    /// The file of a process.
    ProcessFile(ProcessFile),
    /// A node that a user process serves.
    Attachment(Attachment),
    /// A device that a driver serves.
    Device(DeviceKind),
}

impl FileOps {
    /// The file as plain values.
    pub open spec fn view(&self) -> FileOpsView {
        match self {
            FileOps::NullDevice => FileOpsView::Null,
            FileOps::ZeroDevice => FileOpsView::Zero,
            FileOps::InternalBranch(b) => FileOpsView::Internal(b@),
            FileOps::ProcessFile(p) => FileOpsView::Process(p@),
            FileOps::Attachment(a) => FileOpsView::Attached(a@),
            FileOps::Device(kind) => FileOpsView::Device(*kind),
        }
    }

    /// What holds of a file between any two operations.
    pub open spec fn wf(&self) -> bool {
        match self {
            FileOps::InternalBranch(b) => b.wf(),
            FileOps::ProcessFile(p) => p.wf(),
            FileOps::Attachment(a) => a.wf(),
            _ => true,
        }
    }

    /// Whether the file can have children, and who keeps them. Never
    /// changes over the life of a file.
    pub fn leafness(&self) -> (leafness: Leafness)
        ensures
            leafness == self@.leafness(),
    {
        match self {
            FileOps::InternalBranch(_) => Leafness::InternalBranch,
            FileOps::Attachment(a) => a.leafness(),
            _ => Leafness::Leaf,
        }
    }

    pub fn fileinfo(&self) -> (info: FileInfo)
        ensures
            info.is_leaf == (self@.leafness() == Leafness::Leaf),
    {
        FileInfo { is_leaf: self.leafness() == Leafness::Leaf }
    }

    /// The process behind the file, where there is one.
    pub fn pid(&self) -> (pid: IoResultPure<ProcessId>)
        ensures
            pid == (match self@.pid() {
                Some(p) => IoResultPure::Success(p),
                None => IoResultPure::Error(ErrorCode::fs_unsupported),
            }),
    {
        match self {
            FileOps::ProcessFile(p) => IoResultPure::Success(p.pid()),
            FileOps::Attachment(a) => match a.pid() {
                Some(p) => IoResultPure::Success(p),
                None => IoResultPure::Error(ErrorCode::fs_unsupported),
            },
            _ => IoResultPure::Error(ErrorCode::fs_unsupported),
        }
    }

    /// Opens the file for `fc`. No kind of file has anything to do here.
    pub fn open(&mut self, fc: FileClientId) -> (result: IoResult<()>)
        ensures
            *final(self) == *old(self),
            result == IoResult::Success(()),
    {
        IoResult::Success(())
    }

    /// Reads from the file into `buf`.
    pub fn read(&mut self, fc: FileClientId, buf: &mut [u8], ids: &mut EventCounter) -> (result:
        IoResult<usize>)
        requires
            old(self).wf(),
            old(self)@.wf(),
            old(self)@.minted_below(old(ids).next_id()),
            old(ids).has_room(1),
        ensures
            final(self).wf(),
            final(self)@.wf(),
            final(self)@.minted_below(final(ids).next_id()),
            ({
                let step = old(self)@.read(fc, old(buf)@.len(), old(ids).next_id());
                &&& final(self)@ == step.post
                &&& result == step.result
                &&& final(ids).next_id() == old(ids).next_id() + step.minted
                &&& final(buf)@ == filled(old(buf)@, step.data, step.data.len() as int)
            }),
    {
        let capacity = buf.len();
        proof {
            lemma_file_steps_keep_invariants(
                self@,
                fc,
                capacity as nat,
                Seq::empty(),
                ids.next_id(),
            );
        }
        match self {
            FileOps::NullDevice => {
                assert(buf@ =~= filled(old(buf)@, Seq::<u8>::empty(), 0));
                IoResult::Success(0)
            },
            FileOps::ZeroDevice => {
                let mut i: usize = 0;
                while i < buf.len()
                    invariant
                        i <= buf@.len(),
                        buf@.len() == old(buf)@.len(),
                        forall|j: int| 0 <= j < i ==> buf@[j] == 0u8,
                    decreases buf@.len() - i,
                {
                    buf[i] = 0;
                    i += 1;
                }
                assert(buf@ =~= filled(
                    old(buf)@,
                    Seq::new(old(buf)@.len(), |i: int| 0u8),
                    old(buf)@.len() as int,
                ));
                IoResult::Success(buf.len())
            },
            FileOps::InternalBranch(b) => b.read(fc, buf),
            FileOps::ProcessFile(p) => p.read(fc, buf),
            FileOps::Attachment(a) => a.read(fc, buf, ids),
            FileOps::Device(_) => {
                assert(buf@ =~= filled(old(buf)@, Seq::<u8>::empty(), 0));
                IoResult::Error(ErrorCode::fs_unsupported)
            },
        }
    }

    /// What `fc` waits for before its next read.
    pub fn read_waiting_for(&mut self, fc: FileClientId) -> (wait: WaitFor)
        requires
            old(self).wf(),
            old(self)@.wf(),
        ensures
            final(self).wf(),
            final(self)@ == old(self)@,
            wait == old(self)@.read_waiting_for(fc),
    {
        match self {
            FileOps::ProcessFile(p) => if p.is_over() {
                WaitFor::Ready
            } else {
                WaitFor::Process(p.pid())
            },
            FileOps::Attachment(a) => a.read_waiting_for(fc),
            _ => WaitFor::Ready,
        }
    }

    /// Writes `buf` to the file.
    pub fn write(&mut self, fc: FileClientId, buf: &[u8]) -> (result: IoResult<usize>)
        requires
            old(self).wf(),
            old(self)@.wf(),
        ensures
            final(self).wf(),
            final(self)@.wf(),
            final(self)@ == old(self)@.write(fc, buf@).post,
            result == old(self)@.write(fc, buf@).result,
            forall|next: u64| old(self)@.minted_below(next) ==> final(self)@.minted_below(next),
    {
        match self {
            FileOps::NullDevice => IoResult::Success(buf.len()),
            FileOps::ZeroDevice => IoResult::Error(ErrorCode::fs_readonly),
            FileOps::InternalBranch(b) => b.write(buf),
            FileOps::ProcessFile(p) => p.write(fc, buf),
            FileOps::Attachment(a) => a.write(fc, buf),
            FileOps::Device(_) => IoResult::Error(ErrorCode::fs_unsupported),
        }
    }

    /// Closes the file for `fc`.
    pub fn close(&mut self, fc: FileClientId) -> (result: IoResult<CloseAction>)
        requires
            old(self).wf(),
            old(self)@.wf(),
        ensures
            final(self).wf(),
            final(self)@.wf(),
            final(self)@ == old(self)@.close(fc).post,
            result == old(self)@.close(fc).result,
            forall|next: u64| old(self)@.minted_below(next) ==> final(self)@.minted_below(next),
    {
        match self {
            FileOps::InternalBranch(b) => b.close(fc),
            FileOps::ProcessFile(p) => p.close(fc),
            FileOps::Attachment(a) => a.close(fc),
            _ => IoResult::Success(CloseAction::Normal),
        }
    }

    /// The wakeups that the destruction of the file asks for: every task
    /// that is parked on it, each once.
    pub fn destroy(&mut self) -> (trigger: Trigger)
        requires
            old(self).wf(),
            old(self)@.wf(),
        ensures
            final(self).wf(),
            final(self)@ == old(self)@,
            trigger@.no_duplicates(),
            forall|e: ExplicitEventId| trigger@.contains(e) <==> old(self)@.outstanding(e),
    {
        match self {
            FileOps::Attachment(a) => a.destroy(),
            _ => Trigger::empty(),
        }
    }
}

} // verus!
