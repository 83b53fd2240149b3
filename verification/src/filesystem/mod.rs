//! The virtual filesystem: the node tree, the descriptor tables and the
//! operations that system calls perform on them.

use vstd::prelude::*;
use vstd::slice::slice_subrange;
use vstd::string::*;
use crate::abi::{FileDescriptor, FileInfo};
use crate::filesystem::file::{
    filled,
    lemma_file_steps_keep_invariants,
    CloseAction,
    DeviceKind,
    FileOps,
    FileOpsView,
    Leafness,
};
use crate::filesystem::file::attachment::Attachment;
use crate::filesystem::file::internal::{BranchView, InternalBranch};
use crate::filesystem::file::process_file::ProcessFile;
use crate::filesystem::laws::{
    lemma_child_is_exact,
    lemma_listing_is_exact,
    lemma_modify_is_exact,
    lemma_resolve_is_exact,
    writable,
};
use crate::filesystem::model::{
    listing_ids,
    Ancestry,
    boot_layout,
    empty_branch,
    ExecStep,
    decimal,
    digit,
    process_directory,
    lemma_build_keeps_wf,
    lemma_growth,
    lemma_node_update_keeps_wf,
    BuilderView,
    listing_names,
    listing_nodes,
    root_id,
    DescriptorsView,
    Step,
    VfsView,
};
use crate::filesystem::node::{lemma_node_id_of_value, Node, NodeId, NodeView};
use crate::filesystem::path::{absolute, split, Path, PathBuf};
use crate::filesystem::result::{ErrorCode, IoContext, IoResult, IoResultPure};
use crate::filesystem::wire::{
    branch_listing_from_bytes,
    branch_listing_view,
    listing_from_bytes,
    listing_view,
    modification_to_bytes,
    InternalModification,
};
use crate::multitasking::{ElfImage, Scheduler};
use crate::multitasking::waitfor::{EventCounter, ExplicitEventId, WaitFor};
use crate::process::ProcessId;
use crate::table::{lemma_table_entries, swap_removed, Keyed, RawKey, Table};

pub mod boot;
pub mod file;
pub mod laws;
pub mod model;
pub mod node;
pub mod path;
pub mod result;
pub mod wire;

verus! {

/// Who has a file open: a process, or the kernel itself, and the descriptor
/// under which it holds the file. No two openers share a `FileClientId`.
#[derive(Debug, Clone, Copy, PartialEq, Eq, Hash, Structural)]
pub struct FileClientId {
    /// `None` where the kernel, and no process, is the opener.
    pub process: Option<ProcessId>,
    /// The descriptor, counted per process.
    pub fd: FileDescriptor,
}

impl FileClientId {
    /// The kernel as opener.
    pub fn kernel(fd: FileDescriptor) -> (fc: Self)
        ensures
            fc == (FileClientId { process: None, fd }),
    {
        FileClientId { process: None, fd }
    }

    /// A process as opener.
    pub fn process(pid: ProcessId, fd: FileDescriptor) -> (fc: Self)
        ensures
            fc == (FileClientId { process: Some(pid), fd }),
    {
        FileClientId { process: Some(pid), fd }
    }

    pub fn is_kernel(&self) -> (b: bool)
        ensures
            b == self.process.is_none(),
    {
        self.process.is_none()
    }
}

impl Keyed for FileClientId {
    open spec fn raw(self) -> RawKey {
        match self.process {
            Some(pid) => (Some(pid.value()), self.fd.value()),
            None => (None, self.fd.value()),
        }
    }

    fn to_raw(&self) -> (raw: RawKey) {
        match self.process {
            Some(pid) => (Some(pid.as_u64()), self.fd.as_u64()),
            None => (None, self.fd.as_u64()),
        }
    }

    proof fn lemma_raw_injective(a: Self, b: Self) {
        if a.process.is_some() {
            crate::process::lemma_process_id_by_value(a.process.unwrap(), b.process.unwrap());
        }
        crate::abi::lemma_file_descriptor_by_value(a.fd, b.fd);
    }
}

/// How far the counters advance, at most, while the boot tree is made.
pub const BOOT_BUDGET: usize = 60;

/// The size of the buffer through which the kernel reads files.
pub const IO_BUFFER_SIZE: usize = 4096;

/// How reading a file to its end went.
pub enum ReadAllOutcome {
    /// A read came back short: these are the bytes of the file.
    Done(Seq<u8>),
    /// A read did not succeed: this is what it returned. The bytes read
    /// before it are lost.
    Stopped(IoResult<usize>),
}

/// What reading a file to its end does: the file after it, how many events
/// were minted, and how it went.
pub struct ReadAll {
    pub post: FileOpsView,
    pub minted: nat,
    pub outcome: ReadAllOutcome,
}

/// Reading a file to its end, for `fc`, after `acc` was read: one read after
/// the other through a buffer of [`IO_BUFFER_SIZE`] bytes, until a read
/// leaves room in the buffer or fails. A file that goes on beyond what a
/// vector can hold is a protocol error.
pub open spec fn read_all(file: FileOpsView, fc: FileClientId, next: u64, acc: Seq<u8>) -> ReadAll
    decreases usize::MAX - acc.len(),
{
    let step = file.read(fc, IO_BUFFER_SIZE as nat, next);
    if step.result is Success {
        if acc.len() + step.data.len() > usize::MAX {
            ReadAll {
                post: step.post,
                minted: step.minted,
                outcome: ReadAllOutcome::Stopped(IoResult::Error(ErrorCode::fs_protocol)),
            }
        } else if step.data.len() < IO_BUFFER_SIZE {
            ReadAll {
                post: step.post,
                minted: step.minted,
                outcome: ReadAllOutcome::Done(acc + step.data),
            }
        } else {
            let rest = read_all(step.post, fc, (next + step.minted) as u64, acc + step.data);
            ReadAll { minted: step.minted + rest.minted, ..rest }
        }
    } else {
        ReadAll {
            post: step.post,
            minted: step.minted,
            outcome: ReadAllOutcome::Stopped(step.result),
        }
    }
}

/// A read that mints an event does not fill the kernel's buffer.
pub proof fn lemma_minting_read_is_short(s: FileOpsView, fc: FileClientId, next: u64)
    requires
        s.wf(),
    ensures
        s.read(fc, IO_BUFFER_SIZE as nat, next).minted > 0 ==> !(s.read(
            fc,
            IO_BUFFER_SIZE as nat,
            next,
        ).result is Success) || s.read(fc, IO_BUFFER_SIZE as nat, next).data.len()
            < IO_BUFFER_SIZE,
        s.read(fc, IO_BUFFER_SIZE as nat, next).minted <= 1,
{
    match s {
        FileOpsView::Attached(a) => {
            crate::filesystem::file::attachment::lemma_request_frame_len(
                crate::filesystem::wire::Request {
                    sender: crate::filesystem::file::attachment::sender_of(a.closed[0]),
                    data: crate::filesystem::wire::FileOperation::Close,
                },
            );
            crate::filesystem::file::attachment::lemma_request_frame_len(
                crate::filesystem::wire::Request {
                    sender: crate::filesystem::file::attachment::sender_of(a.pending[0].0),
                    data: crate::filesystem::wire::FileOperation::Read(
                        a.length_wanted(a.pending[0].0),
                    ),
                },
            );
        },
        _ => {},
    }
}

/// Reading a file to its end mints at most one event, and keeps what holds
/// of the file between operations.
pub proof fn lemma_read_all_keeps_invariants(
    file: FileOpsView,
    fc: FileClientId,
    next: u64,
    acc: Seq<u8>,
)
    requires
        file.wf(),
        file.minted_below(next),
        next < u64::MAX,
    ensures
        read_all(file, fc, next, acc).minted <= 1,
        read_all(file, fc, next, acc).post.wf(),
        read_all(file, fc, next, acc).post.minted_below(
            (next + read_all(file, fc, next, acc).minted) as u64,
        ),
        read_all(file, fc, next, acc).outcome matches ReadAllOutcome::Stopped(r) ==> !(r.pure()
            is Success),
    decreases usize::MAX - acc.len(),
{
    let step = file.read(fc, IO_BUFFER_SIZE as nat, next);
    lemma_file_steps_keep_invariants(file, fc, IO_BUFFER_SIZE as nat, Seq::empty(), next);
    lemma_minting_read_is_short(file, fc, next);
    if step.result is Success && acc.len() + step.data.len() <= usize::MAX && step.data.len()
        >= IO_BUFFER_SIZE {
        lemma_read_all_keeps_invariants(step.post, fc, next, acc + step.data);
    }
}

/// Reading a file to its end does not turn it into another file, and gives
/// nobody but the reader a place in a listing or a result.
pub proof fn lemma_read_all_keeps_identity(
    file: FileOpsView,
    fc: FileClientId,
    next: u64,
    acc: Seq<u8>,
)
    ensures
        file.same_file(read_all(file, fc, next, acc).post),
        forall|c: FileClientId| #[trigger]
            read_all(file, fc, next, acc).post.stream_clients().contains(c)
                ==> file.stream_clients().contains(c) || c == fc,
    decreases usize::MAX - acc.len(),
{
    let step = file.read(fc, IO_BUFFER_SIZE as nat, next);
    crate::filesystem::file::lemma_file_steps_keep_identity(
        file,
        fc,
        IO_BUFFER_SIZE as nat,
        Seq::empty(),
        next,
    );
    if step.result is Success && acc.len() + step.data.len() <= usize::MAX && step.data.len()
        >= IO_BUFFER_SIZE {
        lemma_read_all_keeps_identity(step.post, fc, (next + step.minted) as u64, acc + step.data);
    }
}

/// Reads all bytes of a file. Used when the kernel needs all data of a
/// file. When a read fails, the data read so far is discarded.
pub fn read_to_end(file: &mut FileOps, fc: FileClientId, ids: &mut EventCounter) -> (result:
    IoResult<Vec<u8>>)
    requires
        old(file).wf(),
        old(file)@.wf(),
        old(file)@.minted_below(old(ids).next_id()),
        old(ids).has_room(1),
    ensures
        final(file).wf(),
        final(file)@.wf(),
        final(file)@.minted_below(final(ids).next_id()),
        ({
            let all = read_all(old(file)@, fc, old(ids).next_id(), Seq::empty());
            &&& final(file)@ == all.post
            &&& final(ids).next_id() == old(ids).next_id() + all.minted
            &&& match all.outcome {
                ReadAllOutcome::Done(bytes) => result matches IoResult::Success(v) && v@ == bytes,
                ReadAllOutcome::Stopped(r) => result.events() == r.events() && result.pure()
                    == r.pure().retyped::<Vec<u8>>(),
            }
        }),
{
    let mut result: Vec<u8> = Vec::new();
    let mut buffer: Vec<u8> = vec![0u8; IO_BUFFER_SIZE];
    let ghost target = read_all(old(file)@, fc, old(ids).next_id(), Seq::empty());
    proof {
        lemma_read_all_keeps_invariants(old(file)@, fc, old(ids).next_id(), Seq::empty());
    }
    loop
        invariant
            file.wf(),
            file@.wf(),
            file@.minted_below(ids.next_id()),
            ids.has_room(1),
            buffer@.len() == IO_BUFFER_SIZE,
            ids.next_id() >= old(ids).next_id(),
            target == (ReadAll {
                minted: (read_all(file@, fc, ids.next_id(), result@).minted + (ids.next_id() - old(
                    ids,
                ).next_id())) as nat,
                ..read_all(file@, fc, ids.next_id(), result@)
            }),
            target == read_all(old(file)@, fc, old(ids).next_id(), Seq::empty()),
        decreases usize::MAX - result@.len(),
    {
        proof {
            lemma_file_steps_keep_invariants(
                file@,
                fc,
                IO_BUFFER_SIZE as nat,
                Seq::empty(),
                ids.next_id(),
            );
            lemma_minting_read_is_short(file@, fc, ids.next_id());
        }
        let ghost step = file@.read(fc, IO_BUFFER_SIZE as nat, ids.next_id());
        let ghost before = result@;
        match file.read(fc, buffer.as_mut_slice(), ids) {
            IoResult::Success(count) => {
                if count > usize::MAX - result.len() {
                    return IoResult::Error(ErrorCode::fs_protocol);
                }
                let mut i: usize = 0;
                while i < count
                    invariant
                        i <= count <= IO_BUFFER_SIZE,
                        buffer@.len() == IO_BUFFER_SIZE,
                        before.len() + count <= usize::MAX,
                        result@ == before + buffer@.subrange(0, i as int),
                    decreases count - i,
                {
                    result.push(buffer[i]);
                    i += 1;
                    assert(result@ =~= before + buffer@.subrange(0, i as int));
                }
                assert(buffer@.subrange(0, count as int) =~= step.data);
                if count < IO_BUFFER_SIZE {
                    // EOF
                    return IoResult::Success(result);
                }
            },
            other => {
                return other.retype();
            },
        }
    }
}

/// What writing all of some data to a file does: the file after it, the
/// events that the writes ask to trigger, and how it went.
pub struct WriteAll {
    pub post: FileOpsView,
    pub events: Seq<ExplicitEventId>,
    pub outcome: IoResultPure<()>,
}

/// Writing all of `data` to a file, for `fc`: one write after the other,
/// each of what the one before has left, until nothing is left or a write
/// fails. A write that takes nothing is a protocol error.
pub open spec fn write_all_to(file: FileOpsView, fc: FileClientId, data: Seq<u8>) -> WriteAll
    decreases data.len(),
{
    if data.len() == 0 {
        WriteAll { post: file, events: Seq::empty(), outcome: IoResultPure::Success(()) }
    } else {
        let step = file.write(fc, data);
        match step.result.pure() {
            IoResultPure::Success(count) => {
                if 0 < count <= data.len() {
                    let rest = write_all_to(step.post, fc, data.skip(count as int));
                    WriteAll { events: step.result.events() + rest.events, ..rest }
                } else {
                    WriteAll {
                        post: step.post,
                        events: step.result.events(),
                        outcome: IoResultPure::Error(ErrorCode::fs_protocol),
                    }
                }
            },
            other => WriteAll {
                post: step.post,
                events: step.result.events(),
                outcome: other.retyped(),
            },
        }
    }
}

/// Writing all of some data keeps what holds of the file between
/// operations.
pub proof fn lemma_write_all_keeps_invariants(
    file: FileOpsView,
    fc: FileClientId,
    data: Seq<u8>,
    next: u64,
)
    requires
        file.wf(),
        file.minted_below(next),
        next < u64::MAX,
    ensures
        write_all_to(file, fc, data).post.wf(),
        write_all_to(file, fc, data).post.minted_below(next),
    decreases data.len(),
{
    if data.len() > 0 {
        let step = file.write(fc, data);
        lemma_file_steps_keep_invariants(file, fc, 0, data, next);
        match step.result.pure() {
            IoResultPure::Success(count) => {
                if 0 < count <= data.len() {
                    lemma_write_all_keeps_invariants(step.post, fc, data.skip(count as int), next);
                }
            },
            _ => {},
        }
    }
}

/// Writing all of some data does not turn the file into another file, and
/// gives nobody a place in a listing or a result.
pub proof fn lemma_write_all_keeps_identity(file: FileOpsView, fc: FileClientId, data: Seq<u8>)
    ensures
        file.same_file(write_all_to(file, fc, data).post),
        write_all_to(file, fc, data).post.stream_clients() == file.stream_clients(),
    decreases data.len(),
{
    if data.len() > 0 {
        let step = file.write(fc, data);
        crate::filesystem::file::lemma_file_steps_keep_identity(file, fc, 0, data, 0);
        match step.result.pure() {
            IoResultPure::Success(count) => {
                if 0 < count <= data.len() {
                    lemma_write_all_keeps_identity(step.post, fc, data.skip(count as int));
                }
            },
            _ => {},
        }
    }
}

/// Writes all bytes. Used when the kernel needs to write a fixed amount of
/// data. When a write fails, what was written before it stays written.
pub fn write_all(file: &mut FileOps, fc: FileClientId, data: &[u8]) -> (result: IoResult<()>)
    requires
        old(file).wf(),
        old(file)@.wf(),
    ensures
        final(file).wf(),
        final(file)@.wf(),
        final(file)@ == write_all_to(old(file)@, fc, data@).post,
        result.events() == write_all_to(old(file)@, fc, data@).events,
        result.pure() == write_all_to(old(file)@, fc, data@).outcome,
        forall|next: u64| old(file)@.minted_below(next) ==> final(file)@.minted_below(next),
{
    let mut offset: usize = 0;
    let mut ctx = IoContext::new();
    let ghost target = write_all_to(old(file)@, fc, data@);
    assert(data@.skip(0) =~= data@);
    while offset < data.len()
        invariant
            offset <= data@.len(),
            file.wf(),
            file@.wf(),
            forall|next: u64| old(file)@.minted_below(next) ==> file@.minted_below(next),
            target == write_all_to(old(file)@, fc, data@),
            target == (WriteAll {
                events: ctx@ + write_all_to(file@, fc, data@.skip(offset as int)).events,
                ..write_all_to(file@, fc, data@.skip(offset as int))
            }),
        decreases data@.len() - offset,
    {
        let rest = slice_subrange(data, offset, data.len());
        assert(rest@ =~= data@.skip(offset as int));
        let ghost step = file@.write(fc, rest@);
        let ghost before = ctx@;
        let (written, new_ctx) = file.write(fc, rest).separate_events();
        ctx.consume(new_ctx);
        match written {
            IoResultPure::Success(count) => {
                if count == 0 || count > rest.len() {
                    return IoResultPure::Error(ErrorCode::fs_protocol).with_context(ctx);
                }
                assert(rest@.skip(count as int) =~= data@.skip(offset + count));
                assert(ctx@ + write_all_to(file@, fc, data@.skip(offset + count)).events =~= before
                    + (step.result.events() + write_all_to(
                    file@,
                    fc,
                    data@.skip(offset + count),
                ).events));
                offset += count;
            },
            other => {
                return other.retype().with_context(ctx);
            },
        }
    }
    assert(data@.skip(offset as int).len() == 0);
    assert(ctx@ + Seq::<ExplicitEventId>::empty() =~= ctx@);
    IoResultPure::Success(()).with_context(ctx)
}

/// The node of a process and the descriptors that the process holds.
pub struct ProcessDescriptors {
    /// Node id of the process
    node_id: NodeId,
    /// Descriptors owned by the process
    descriptors: Table<FileDescriptor, NodeId>,
    /// Next available file descriptor
    next_fd: FileDescriptor,
}

impl ProcessDescriptors {
    /// The descriptors as plain values.
    pub closed spec fn view(&self) -> DescriptorsView {
        DescriptorsView {
            node_id: self.node_id,
            descriptors: self.descriptors@,
            order: self.descriptors.keys(),
            next_fd: self.next_fd.value(),
        }
    }

    /// The table is in order, and `order` lists exactly the descriptors.
    pub closed spec fn wf(&self) -> bool {
        self.descriptors.wf()
    }

    /// The descriptors in `order` are those that the process holds, each
    /// once.
    pub proof fn lemma_order(&self)
        requires
            self.wf(),
        ensures
            self@.order.no_duplicates(),
            forall|fd: FileDescriptor|
                self@.order.contains(fd) <==> self@.descriptors.contains_key(fd),
    {
    }

    fn new(node_id: NodeId) -> (pd: Self)
        ensures
            pd.wf(),
            pd@ == (DescriptorsView {
                node_id,
                descriptors: Map::empty(),
                order: Seq::empty(),
                next_fd: 0,
            }),
    {
        let pd = ProcessDescriptors {
            node_id,
            descriptors: Table::new(),
            next_fd: FileDescriptor::from_u64(0),
        };
        proof {
            crate::abi::lemma_file_descriptor_of_value(0, pd.next_fd);
        }
        pd
    }

    fn resolve(&self, fd: FileDescriptor) -> (node: Option<NodeId>)
        requires
            self.wf(),
        ensures
            node == (if self@.descriptors.contains_key(fd) {
                Some(self@.descriptors[fd])
            } else {
                None
            }),
    {
        match self.descriptors.get(fd) {
            Some(node) => Some(*node),
            None => None,
        }
    }

    fn create_id(&mut self, node_id: NodeId) -> (fd: FileDescriptor)
        requires
            old(self).wf(),
            old(self)@.next_fd < u64::MAX,
            !old(self)@.descriptors.contains_key(FileDescriptor::of(old(self)@.next_fd)),
        ensures
            final(self).wf(),
            fd == FileDescriptor::of(old(self)@.next_fd),
            final(self)@ == (DescriptorsView {
                descriptors: old(self)@.descriptors.insert(fd, node_id),
                order: old(self)@.order.push(fd),
                next_fd: (old(self)@.next_fd + 1) as u64,
                ..old(self)@
            }),
    {
        let fd = self.next_fd;
        proof {
            crate::abi::lemma_file_descriptor_of_value(fd.value(), fd);
        }
        self.descriptors.insert(fd, node_id);
        self.next_fd = self.next_fd.next();
        fd
    }

    fn remove(&mut self, fd: FileDescriptor)
        requires
            old(self).wf(),
            old(self)@.descriptors.contains_key(fd),
        ensures
            final(self).wf(),
            final(self)@ == (DescriptorsView {
                descriptors: old(self)@.descriptors.remove(fd),
                order: swap_removed(old(self)@.order, old(self)@.order.index_of(fd)),
                ..old(self)@
            }),
    {
        self.descriptors.remove(fd);
    }
}

/// The children of a listing as plain values.
pub open spec fn children_view(children: Seq<(NodeId, String)>) -> Seq<(NodeId, Seq<char>)> {
    Seq::new(children.len(), |i: int| (children[i].0, children[i].1@))
}

/// One decimal digit as a string.
fn digit_str(d: u64) -> (s: &'static str)
    requires
        d < 10,
    ensures
        s@ == seq![digit(d as nat)],
{
    proof {
        reveal_strlit("0");
        reveal_strlit("1");
        reveal_strlit("2");
        reveal_strlit("3");
        reveal_strlit("4");
        reveal_strlit("5");
        reveal_strlit("6");
        reveal_strlit("7");
        reveal_strlit("8");
        reveal_strlit("9");
    }
    let s = if d == 0 {
        "0"
    } else if d == 1 {
        "1"
    } else if d == 2 {
        "2"
    } else if d == 3 {
        "3"
    } else if d == 4 {
        "4"
    } else if d == 5 {
        "5"
    } else if d == 6 {
        "6"
    } else if d == 7 {
        "7"
    } else if d == 8 {
        "8"
    } else {
        "9"
    };
    assert(s@ =~= seq![digit(d as nat)]);
    s
}

/// A number in decimal digits: the name of the node of a process.
pub fn decimal_string(n: u64) -> (s: String)
    ensures
        s@ == decimal(n as nat),
{
    let mut digits = String::from_str(digit_str(n % 10));
    let mut rest = n / 10;
    while rest > 0
        invariant
            decimal(n as nat) == (if rest > 0 {
                decimal(rest as nat) + digits@
            } else {
                digits@
            }),
        decreases rest,
    {
        let ghost before = digits@;
        let ghost high = decimal((rest / 10) as nat);
        let d = rest % 10;
        digits = String::from_str(digit_str(d)).concat(digits.as_str());
        proof {
            if rest >= 10 {
                assert(decimal(rest as nat) == high.push(digit(d as nat)));
                assert(high.push(digit(d as nat)) + before =~= high + digits@);
            } else {
                assert(decimal(rest as nat) + before =~= digits@);
            }
        }
        rest = rest / 10;
    }
    digits
}

/// The first child in a listing that has the given name.
pub fn find_child(children: &Vec<(NodeId, String)>, name: &str) -> (child: Option<NodeId>)
    ensures
        child == (match listing_names(children_view(children@)).index_of_first(name@) {
            Some(i) => Some(children@[i].0),
            None => None,
        }),
{
    let ghost names = listing_names(children_view(children@));
    let wanted = String::from_str(name);
    let mut i: usize = 0;
    while i < children.len()
        invariant
            i <= children@.len(),
            names == listing_names(children_view(children@)),
            wanted@ == name@,
            forall|k: int| 0 <= k < i ==> names[k] != name@,
        decreases children@.len() - i,
    {
        if children[i].1 == wanted {
            proof {
                assert(names[i as int] == name@);
                names.index_of_first_ensures(name@);
            }
            return Some(children[i].0);
        }
        i += 1;
    }
    proof {
        names.index_of_first_ensures(name@);
    }
    None
}

/// Whether the scheduler was asked for exactly these wakeups since `before`:
/// first `exact`, in that order, and then every event for which `wakes`
/// holds, each once.
pub open spec fn woke(
    before: Seq<ExplicitEventId>,
    after: Seq<ExplicitEventId>,
    exact: Seq<ExplicitEventId>,
    wakes: spec_fn(ExplicitEventId) -> bool,
) -> bool {
    &&& woke_all(before, after, exact, wakes)
    &&& after.skip((before + exact).len() as int).no_duplicates()
}

/// Whether the scheduler was asked for these wakeups since `before`: first
/// `exact`, in that order, and then the events for which `wakes` holds, all
/// of them and no others.
pub open spec fn woke_all(
    before: Seq<ExplicitEventId>,
    after: Seq<ExplicitEventId>,
    exact: Seq<ExplicitEventId>,
    wakes: spec_fn(ExplicitEventId) -> bool,
) -> bool {
    let found = before + exact;
    let tail = after.skip(found.len() as int);
    &&& found.len() <= after.len()
    &&& after.subrange(0, found.len() as int) == found
    &&& forall|e: ExplicitEventId| tail.contains(e) <==> wakes(e)
}

/// Whether the filesystem and the scheduler are as the start of a process
/// leaves them: the filesystem as the model says, every event handed to the
/// scheduler, and the process, where one was started, asked for under the
/// next process id.
pub open spec fn exec_done(
    step: ExecStep,
    before: Scheduler,
    fs: VfsView,
    after: Scheduler,
) -> bool {
    &&& fs == step.post
    &&& after.triggered() == before.triggered() + step.events
    &&& match step.spawned {
        Some(image) => after.spawned() == before.spawned().push((before.next_pid(), image))
            && after.next_pid().value() == before.next_pid().value() + 1,
        None => after.spawned() == before.spawned() && after.next_pid() == before.next_pid(),
    }
}

/// Whether a file is of a kind that holds no event and no reader: what a
/// node can be made with at any time.
pub open spec fn is_plain(file: FileOpsView) -> bool {
    file == empty_branch() || file is Null || file is Zero || file is Device
}

/// The plan that a layout stands for: the components of each path, and the
/// file to put there.
pub open spec fn layout_view(layout: Seq<(Path, FileOps)>) -> Seq<(Seq<Seq<char>>, FileOpsView)> {
    Seq::new(layout.len(), |k: int| (layout[k].0@.components, layout[k].1@))
}

/// A way up that is continued: the nodes passed so far, then the rest of
/// the way.
pub open spec fn lifted(passed: Seq<NodeId>, rest: Ancestry) -> Ancestry {
    match rest {
        Ancestry::Top(chain) => Ancestry::Top(passed + chain),
        other => other,
    }
}

/// The name of the first entry of a listing that is for the given node.
pub fn find_name_of(children: &Vec<(NodeId, String)>, node: NodeId) -> (name: Option<String>)
    ensures
        match listing_ids(children_view(children@)).index_of_first(node) {
            Some(i) => name matches Some(n) && n@ == children@[i].1@,
            None => name.is_none(),
        },
{
    let ghost ids = listing_ids(children_view(children@));
    let mut i: usize = 0;
    while i < children.len()
        invariant
            i <= children@.len(),
            ids == listing_ids(children_view(children@)),
            forall|k: int| 0 <= k < i ==> ids[k] != node,
        decreases children@.len() - i,
    {
        if children[i].0 == node {
            proof {
                assert(ids[i as int] == node);
                ids.index_of_first_ensures(node);
            }
            return Some(children[i].1.clone());
        }
        i += 1;
    }
    proof {
        ids.index_of_first_ensures(node);
    }
    None
}

/// Whether a result that carries bytes is what the model says.
pub open spec fn matches_bytes(result: IoResult<Vec<u8>>, step: Step<Seq<u8>>) -> bool {
    &&& result.events() == step.events
    &&& match step.outcome {
        IoResultPure::Success(bytes) => result.pure() matches IoResultPure::Success(v) && v@
            == bytes,
        other => result.pure() == other.retyped::<Vec<u8>>(),
    }
}

/// Whether a result that carries a listing is what the model says.
pub open spec fn matches_listing(
    result: IoResult<Vec<(NodeId, String)>>,
    step: Step<Seq<(NodeId, Seq<char>)>>,
) -> bool {
    &&& result.events() == step.events
    &&& match step.outcome {
        IoResultPure::Success(children) => result.pure() matches IoResultPure::Success(v)
            && children_view(v@) == children,
        other => result.pure() == other.retyped::<Vec<(NodeId, String)>>(),
    }
}

/// Whether a result is what the model says.
pub open spec fn matches_step<T>(result: IoResult<T>, step: Step<T>) -> bool {
    result.events() == step.events && result.pure() == step.outcome
}

/// What to put at a new node, once its id is known.
///
/// A node may need its own id: an attachment is served through a
/// descriptor that stands for the attachment's node. So the node is made
/// only when the id is taken and the link is in place.
pub enum NodeBuilder {
    /// This node.
    Ready(Node),
    /// An attachment, served by the process through a new descriptor that
    /// stands for the node.
    Attachment { manager: ProcessId, is_leaf: bool },
}

impl NodeBuilder {
    /// The builder as plain values.
    pub open spec fn view(&self) -> BuilderView {
        match self {
            NodeBuilder::Ready(node) => BuilderView::Ready(node@),
            NodeBuilder::Attachment { manager, is_leaf } => BuilderView::Attachment {
                manager: *manager,
                is_leaf: *is_leaf,
            },
        }
    }

    /// The file of a node that is ready is in order.
    pub open spec fn wf(&self) -> bool {
        match self {
            NodeBuilder::Ready(node) => node.wf(),
            _ => true,
        }
    }
}

/// The virtual filesystem: every node, and the descriptors of every
/// process.
pub struct VirtualFS {
    nodes: Table<NodeId, Node>,
    descriptors: Table<ProcessId, ProcessDescriptors>,
    next_node_id: NodeId,
    next_kernel_fd: FileDescriptor,
    events: EventCounter,
}

impl VirtualFS {
    /// The filesystem as plain values.
    pub closed spec fn view(&self) -> VfsView {
        VfsView {
            nodes: Map::new(
                |id: NodeId| self.nodes@.contains_key(id),
                |id: NodeId| self.nodes@[id]@,
            ),
            descriptors: Map::new(
                |pid: ProcessId| self.descriptors@.contains_key(pid),
                |pid: ProcessId| self.descriptors@[pid]@,
            ),
            next_node_id: self.next_node_id.value(),
            next_kernel_fd: self.next_kernel_fd.value(),
            next_event: self.events.next_id(),
        }
    }

    /// The tables, and what they hold, are in order.
    pub closed spec fn parts_wf(&self) -> bool {
        &&& self.nodes.wf()
        &&& self.descriptors.wf()
        &&& forall|id: NodeId| #[trigger]
            self.nodes@.contains_key(id) ==> self.nodes@[id].ops().wf()
        &&& forall|pid: ProcessId| #[trigger]
            self.descriptors@.contains_key(pid) ==> self.descriptors@[pid].wf()
    }

    /// What holds of the filesystem between any two operations.
    pub open spec fn wf(&self) -> bool {
        self.parts_wf() && self@.wf()
    }

    /// A filesystem that holds the root and nothing else. The root refers
    /// to itself, so it is never removed.
    pub fn new() -> (fs: Self)
        ensures
            fs.wf(),
            fs@.referenced(),
            fs@.has_budget(BOOT_BUDGET as nat),
            fs@ == crate::filesystem::boot::bare(),
    {
        let mut nodes: Table<NodeId, Node> = Table::new();
        let mut root_node = Node::new(None, FileOps::InternalBranch(InternalBranch::new()));
        root_node.inc_ref();  // Root node refers to "itself", and will not be removed
        let root = NodeId::first();
        proof {
            lemma_node_id_of_value(1, root);
            root_node.lemma_view();
        }
        nodes.insert(root, root_node);
        let fs = VirtualFS {
            nodes,
            descriptors: Table::new(),
            next_node_id: root.next(),
            next_kernel_fd: FileDescriptor::from_u64(0),
            events: EventCounter::new(),
        };
        proof {
            crate::abi::lemma_file_descriptor_of_value(0, fs.next_kernel_fd);
            assert(fs@.nodes =~= Map::<NodeId, NodeView>::empty().insert(root_id(), root_node@));
            assert(fs@.descriptors =~= Map::<ProcessId, DescriptorsView>::empty());
            assert(root_node@.data.stream_clients() =~= Set::<FileClientId>::empty());
        }
        fs
    }

    /// Takes the next descriptor of the kernel.
    pub fn take_kernel_fc(&mut self) -> (fc: FileClientId)
        requires
            old(self).wf(),
            old(self)@.next_kernel_fd < u64::MAX,
        ensures
            final(self).wf(),
            fc == old(self)@.kernel_fc(),
            final(self)@ == (VfsView {
                next_kernel_fd: (old(self)@.next_kernel_fd + 1) as u64,
                ..old(self)@
            }),
    {
        let fd = self.next_kernel_fd;
        proof {
            crate::abi::lemma_file_descriptor_of_value(fd.value(), fd);
        }
        self.next_kernel_fd = self.next_kernel_fd.next();
        assert(self@.nodes =~= old(self)@.nodes);
        assert(self@.descriptors =~= old(self)@.descriptors);
        FileClientId::kernel(fd)
    }

    /// The node with the given id.
    pub fn node(&self, id: NodeId) -> (node: IoResultPure<&Node>)
        requires
            self.wf(),
        ensures
            match node {
                IoResultPure::Success(node) => self@.nodes.contains_key(id) && node@
                    == self@.nodes[id] && node.wf(),
                IoResultPure::Error(code) => !self@.nodes.contains_key(id) && code
                    == ErrorCode::fs_file_destroyed,
                IoResultPure::RepeatAfter(_) => false,
            },
    {
        if let Some(node) = self.nodes.get(id) {
            assert(self@.nodes.contains_key(id));
            assert(self.nodes@[id].ops().wf());
            IoResultPure::Success(node)
        } else {
            IoResultPure::Error(ErrorCode::fs_file_destroyed)
        }
    }

    /// The node with the given id, to work on. Whoever changes the node
    /// answers for what holds of the filesystem afterwards.
    pub fn node_mut(&mut self, id: NodeId) -> (node: IoResultPure<&mut Node>)
        requires
            old(self).wf(),
        ensures
            final(self).tables_linked(),
            match node {
                IoResultPure::Success(node) => {
                    &&& old(self)@.nodes.contains_key(id)
                    &&& node@ == old(self)@.nodes[id]
                    &&& node.wf()
                    &&& final(self)@.nodes == old(self)@.nodes.insert(id, final(node)@)
                    &&& final(node).wf() ==> final(self).parts_wf()
                },
                IoResultPure::Error(code) => !old(self)@.nodes.contains_key(id) && code
                    == ErrorCode::fs_file_destroyed && final(self)@.nodes == old(self)@.nodes
                    && final(self).parts_wf(),
                IoResultPure::RepeatAfter(_) => false,
            },
            final(self)@.descriptors == old(self)@.descriptors,
            final(self)@.next_node_id == old(self)@.next_node_id,
            final(self)@.next_kernel_fd == old(self)@.next_kernel_fd,
            final(self)@.next_event == old(self)@.next_event,
    {
        assert(self@.nodes.contains_key(id) ==> self.nodes@[id].ops().wf());
        match self.nodes.get_mut(id) {
            Some(node) => IoResultPure::Success(node),
            None => IoResultPure::Error(ErrorCode::fs_file_destroyed),
        }
    }

    /// The tables are in order. (What they hold may need mending.)
    pub closed spec fn tables_linked(&self) -> bool {
        self.nodes.wf() && self.descriptors.wf()
    }

    /// Reads all of a node through a descriptor of the kernel that is
    /// opened for the purpose and closed again.
    fn temp_open_read(&mut self, node_id: NodeId) -> (result: IoResult<Vec<u8>>)
        requires
            old(self).wf(),
            old(self)@.nodes.contains_key(node_id),
            old(self)@.has_budget(1),
        ensures
            final(self).wf(),
            final(self)@ == old(self)@.temp_read(node_id).post,
            matches_bytes(result, old(self)@.temp_read(node_id)),
            old(self)@.referenced() ==> final(self)@.referenced(),
            old(self)@.grew_by(final(self)@, 1),
    {
        let ghost pre = self@;
        let fc = self.take_kernel_fc();
        let ghost data0 = pre.nodes[node_id].data;
        proof {
            lemma_read_all_keeps_invariants(data0, fc, pre.next_event, Seq::empty());
            lemma_read_all_keeps_identity(data0, fc, pre.next_event, Seq::empty());
            let all = read_all(data0, fc, pre.next_event, Seq::empty());
            crate::filesystem::file::lemma_file_steps_keep_identity(all.post, fc, 0, Seq::empty(), 0);
            assert(self.nodes@.contains_key(node_id));
            assert(self.nodes@[node_id].ops().wf());
        }
        let ghost mid = self.nodes@;
        let result = match self.nodes.get_mut(node_id) {
            Some(node) => {
                proof {
                    node.lemma_view();
                }
                node.open(fc);
                proof {
                    node.lemma_view();
                }
                let result = read_to_end(node.data_mut(), fc, &mut self.events);
                let (_, ctx) = node.close(fc).separate_events();
                result.with_context(ctx)
            },
            None => IoResult::Error(ErrorCode::fs_file_destroyed),
        };
        proof {
            let step = pre.temp_read(node_id);
            assert(self@.nodes =~= step.post.nodes);
            assert(self@.descriptors =~= step.post.descriptors);
            assert(self@ == step.post);
            assert forall|id: NodeId| #[trigger]
                self.nodes@.contains_key(id) implies self.nodes@[id].ops().wf() by {
                if id != node_id {
                    assert(mid.contains_key(id));
                }
            }
            lemma_node_update_keeps_wf(pre, self@, node_id);
        }
        result
    }

    /// Writes all of `data` to a node through a descriptor of the kernel
    /// that is opened for the purpose and closed again.
    fn temp_open_write(&mut self, node_id: NodeId, data: &[u8]) -> (result: IoResult<()>)
        requires
            old(self).wf(),
            old(self)@.nodes.contains_key(node_id),
            old(self)@.has_budget(1),
        ensures
            final(self).wf(),
            final(self)@ == old(self)@.temp_write(node_id, data@).post,
            matches_step(result, old(self)@.temp_write(node_id, data@)),
            old(self)@.referenced() ==> final(self)@.referenced(),
            old(self)@.grew_by(final(self)@, 1),
    {
        let ghost pre = self@;
        let fc = self.take_kernel_fc();
        let ghost data0 = pre.nodes[node_id].data;
        proof {
            lemma_write_all_keeps_identity(data0, fc, data@);
            let all = write_all_to(data0, fc, data@);
            crate::filesystem::file::lemma_file_steps_keep_identity(all.post, fc, 0, Seq::empty(), 0);
            assert(self.nodes@.contains_key(node_id));
            assert(self.nodes@[node_id].ops().wf());
        }
        let ghost mid = self.nodes@;
        let result = match self.nodes.get_mut(node_id) {
            Some(node) => {
                proof {
                    node.lemma_view();
                }
                node.open(fc);
                proof {
                    node.lemma_view();
                }
                let result = write_all(node.data_mut(), fc, data);
                let (_, ctx) = node.close(fc).separate_events();
                result.with_context(ctx)
            },
            None => IoResult::Error(ErrorCode::fs_file_destroyed),
        };
        proof {
            let step = pre.temp_write(node_id, data@);
            assert(self@.nodes =~= step.post.nodes);
            assert(self@.descriptors =~= step.post.descriptors);
            assert(self@ == step.post);
            assert forall|id: NodeId| #[trigger]
                self.nodes@.contains_key(id) implies self.nodes@[id].ops().wf() by {
                if id != node_id {
                    assert(mid.contains_key(id));
                }
            }
            lemma_node_update_keeps_wf(pre, self@, node_id);
        }
        result
    }

    /// The nodes that the descriptors of a manager stand for.
    fn managed_children(&self, manager: ProcessId, items: &Vec<(String, u64)>) -> (children: Option<
        Vec<(NodeId, String)>,
    >)
        requires
            self.wf(),
        ensures
            match children {
                Some(children) => self@.managed_children(manager, branch_listing_view(items@))
                    == Some(children_view(children@)),
                None => self@.managed_children(manager, branch_listing_view(items@)).is_none(),
            },
    {
        let ghost plain = branch_listing_view(items@);
        let pd = match self.descriptors.get(manager) {
            Some(pd) => pd,
            None => {
                return None;
            },
        };
        assert(self@.descriptors.contains_key(manager));
        let mut children: Vec<(NodeId, String)> = Vec::new();
        let mut i: usize = 0;
        while i < items.len()
            invariant
                i <= items@.len(),
                pd.wf(),
                pd@ == self@.descriptors[manager],
                plain == branch_listing_view(items@),
                children@.len() == i,
                forall|k: int|
                    0 <= k < i ==> pd@.descriptors.contains_key(
                        #[trigger] FileDescriptor::of(plain[k].1),
                    ),
                forall|k: int|
                    0 <= k < i ==> (#[trigger] children@[k]).0
                        == pd@.descriptors[FileDescriptor::of(plain[k].1)] && children@[k].1@
                        == plain[k].0,
            decreases items@.len() - i,
        {
            let fd = FileDescriptor::from_u64(items[i].1);
            match pd.resolve(fd) {
                Some(node_id) => {
                    children.push((node_id, items[i].0.clone()));
                },
                None => {
                    assert(!pd@.descriptors.contains_key(FileDescriptor::of(plain[i as int].1)));
                    return None;
                },
            }
            i += 1;
        }
        proof {
            assert(children_view(children@) =~= self@.managed_children(manager, plain).unwrap());
        }
        Some(children)
    }

    /// The children that the manager of a branch attachment lists.
    fn get_children_attached(&mut self, node_id: NodeId) -> (result: IoResult<
        Vec<(NodeId, String)>,
    >)
        requires
            old(self).wf(),
            old(self)@.nodes.contains_key(node_id),
            old(self)@.nodes[node_id].data.leafness() == Leafness::Branch,
            old(self)@.has_budget(1),
        ensures
            final(self).wf(),
            final(self)@ == old(self)@.get_children(node_id).post,
            matches_listing(result, old(self)@.get_children(node_id)),
            old(self)@.referenced() ==> final(self)@.referenced(),
            old(self)@.grew_by(final(self)@, 1),
    {
        let ghost pre = self@;
        // The manager may repeat the request after an event
        let fc = self.take_kernel_fc();
        let ghost taken = self@;
        let ghost data0 = pre.nodes[node_id].data;
        proof {
            lemma_read_all_keeps_invariants(data0, fc, pre.next_event, Seq::empty());
            lemma_read_all_keeps_identity(data0, fc, pre.next_event, Seq::empty());
            assert(self.nodes@.contains_key(node_id));
            assert(self.nodes@[node_id].ops().wf());
            assert(data0.stream_clients() =~= Set::<FileClientId>::empty());
        }
        let ghost mid = self.nodes@;
        let (pid, bytes, ctx) = match self.nodes.get_mut(node_id) {
            Some(node) => {
                proof {
                    node.lemma_view();
                }
                match node.data().pid() {
                    IoResultPure::Success(pid) => {
                        let (bytes, ctx) = read_to_end(
                            node.data_mut(),
                            fc,
                            &mut self.events,
                        ).separate_events();
                        (pid, bytes, ctx)
                    },
                    _ => {
                        proof {
                            assert(self.nodes@ =~= mid);
                            assert(self@.nodes =~= taken.nodes);
                            assert(self@.descriptors =~= taken.descriptors);
                            lemma_growth(pre, self@, self@, 1, 0);
                        }
                        return IoResult::Error(ErrorCode::fs_unsupported);
                    },
                }
            },
            None => {
                return IoResult::Error(ErrorCode::fs_file_destroyed);
            },
        };
        proof {
            let step = pre.get_children(node_id);
            assert(self@.nodes =~= step.post.nodes);
            assert(self@.descriptors =~= step.post.descriptors);
            assert(self@ == step.post);
            assert forall|id: NodeId| #[trigger]
                self.nodes@.contains_key(id) implies self.nodes@[id].ops().wf() by {
                if id != node_id {
                    assert(mid.contains_key(id));
                }
            }
            let all = read_all(data0, fc, pre.next_event, Seq::empty());
            assert(all.post.stream_clients() =~= Set::<FileClientId>::empty());
            lemma_node_update_keeps_wf(pre, self@, node_id);
        }
        match bytes {
            IoResultPure::Success(bytes) => {
                let children = match branch_listing_from_bytes(bytes.as_slice()) {
                    Some(items) => self.managed_children(pid, &items),
                    None => None,
                };
                match children {
                    Some(children) => IoResult::Success(children),
                    None => IoResult::Error(ErrorCode::fs_protocol),
                }
            },
            other => other.retype().with_context(ctx),
        }
    }

    /// The children of a node, each with its name.
    pub fn get_children(&mut self, node_id: NodeId) -> (result: IoResult<Vec<(NodeId, String)>>)
        requires
            old(self).wf(),
            old(self)@.has_budget(1),
        ensures
            final(self).wf(),
            final(self)@ == old(self)@.get_children(node_id).post,
            matches_listing(result, old(self)@.get_children(node_id)),
            old(self)@.referenced() ==> final(self)@.referenced(),
            old(self)@.grew_by(final(self)@, 1),
            old(self)@.nodes.contains_key(node_id) ==> (
            old(self)@.nodes[node_id].data matches FileOpsView::Internal(b) ==> {
                &&& result matches IoResult::Success(children) && children_view(children@)
                    == b.children
                &&& final(self)@ == old(self)@.after_looks(1)
            }),
    {
        proof {
            self.lemma_listable();
            if self@.nodes.contains_key(node_id) && self@.nodes[node_id].data is Internal {
                lemma_listing_is_exact(self@, node_id);
            }
        }
        let leafness = match self.node(node_id) {
            IoResultPure::Success(node) => node.leafness(),
            _ => {
                return IoResult::Error(ErrorCode::fs_file_destroyed);
            },
        };
        match leafness {
            Leafness::Leaf => IoResult::Error(ErrorCode::fs_node_is_leaf),
            Leafness::Branch => self.get_children_attached(node_id),
            Leafness::InternalBranch => {
                // Use internal branch protocol.
                let (bytes, ctx) = self.temp_open_read(node_id).separate_events();
                match bytes {
                    IoResultPure::Success(bytes) => {
                        match listing_from_bytes(bytes.as_slice()) {
                            Some(entries) => {
                                proof {
                                    let parsed = crate::filesystem::wire::listing_parse(
                                        bytes@,
                                    ).unwrap();
                                    assert forall|k: int|
                                        0 <= k < entries@.len() implies children_view(entries@)[k]
                                        == listing_nodes(parsed)[k] by {
                                        lemma_node_id_of_value(entries@[k].0.value(), entries@[k].0);
                                    }
                                    assert(children_view(entries@) =~= listing_nodes(parsed));
                                }
                                IoResultPure::Success(entries).with_context(ctx)
                            },
                            None => IoResultPure::Error(ErrorCode::fs_protocol).with_context(ctx),
                        }
                    },
                    other => other.retype().with_context(ctx),
                }
            },
        }
    }

    /// The child of a node that has the given name.
    pub fn get_child(&mut self, node_id: NodeId, name: &str) -> (result: IoResult<NodeId>)
        requires
            old(self).wf(),
            old(self)@.has_budget(1),
        ensures
            final(self).wf(),
            final(self)@ == old(self)@.get_child(node_id, name@).post,
            matches_step(result, old(self)@.get_child(node_id, name@)),
            old(self)@.referenced() ==> final(self)@.referenced(),
            old(self)@.grew_by(final(self)@, 1),
            old(self)@.nodes.contains_key(node_id) ==> (
            old(self)@.nodes[node_id].data matches FileOpsView::Internal(b) ==> {
                &&& result == (match b.child_named(name@) {
                    Some(child) => IoResult::Success(child),
                    None => IoResult::Error(ErrorCode::fs_node_not_found),
                })
                &&& final(self)@ == old(self)@.after_looks(1)
            }),
    {
        proof {
            self.lemma_listable();
            if self@.nodes.contains_key(node_id) && self@.nodes[node_id].data is Internal {
                lemma_child_is_exact(self@, node_id, name@);
            }
        }
        let (children, ctx) = self.get_children(node_id).separate_events();
        match children {
            IoResultPure::Success(children) => {
                proof {
                    listing_names(children_view(children@)).index_of_first_ensures(name@);
                }
                match find_child(&children, name) {
                    Some(child) => IoResultPure::Success(child).with_context(ctx),
                    None => IoResultPure::Error(ErrorCode::fs_node_not_found).with_context(ctx),
                }
            },
            other => other.retype().with_context(ctx),
        }
    }

    /// Whether a node has a child of the given name.
    pub fn has_child(&mut self, node_id: NodeId, name: &str) -> (result: IoResult<bool>)
        requires
            old(self).wf(),
            old(self)@.has_budget(1),
        ensures
            final(self).wf(),
            final(self)@ == old(self)@.has_child(node_id, name@).post,
            matches_step(result, old(self)@.has_child(node_id, name@)),
            old(self)@.referenced() ==> final(self)@.referenced(),
            old(self)@.grew_by(final(self)@, 1),
            old(self)@.nodes.contains_key(node_id) ==> (
            old(self)@.nodes[node_id].data matches FileOpsView::Internal(b) ==> {
                &&& result == IoResult::Success(b.names().contains(name@))
                &&& final(self)@ == old(self)@.after_looks(1)
            }),
    {
        proof {
            self.lemma_listable();
            if self@.nodes.contains_key(node_id) && self@.nodes[node_id].data is Internal {
                lemma_child_is_exact(self@, node_id, name@);
            }
        }
        let (child, ctx) = self.get_child(node_id, name).separate_events();
        match child {
            IoResultPure::Success(_) => IoResultPure::Success(true).with_context(ctx),
            IoResultPure::Error(ErrorCode::fs_node_not_found) => IoResultPure::Success(
                false,
            ).with_context(ctx),
            other => other.retype().with_context(ctx),
        }
    }

    /// Writes one modification to a branch that the kernel keeps. Other
    /// branches are changed by their managers only.
    fn modify(&mut self, parent_id: NodeId, modification: &InternalModification) -> (result:
        IoResult<()>)
        requires
            old(self).wf(),
            old(self)@.has_budget(1),
        ensures
            final(self).wf(),
            final(self)@ == old(self)@.modify(parent_id, modification@).post,
            matches_step(result, old(self)@.modify(parent_id, modification@)),
            old(self)@.referenced() ==> final(self)@.referenced(),
            old(self)@.grew_by(final(self)@, 1),
            result.events() == Seq::<ExplicitEventId>::empty(),
            old(self)@.nodes.contains_key(parent_id) ==> (
            old(self)@.nodes[parent_id].data matches FileOpsView::Internal(b) ==> (match b.modified(
                modification@,
            ) {
                Ok(branch) => result.pure() == IoResultPure::Success(()) && final(self)@ == old(
                    self)@.with_branch(parent_id, branch).after_looks(1),
                Err(code) => result.pure() == IoResultPure::<()>::Error(code) && final(self)@
                    == old(self)@.after_looks(1),
            })),
    {
        proof {
            lemma_modify_is_silent(self@, parent_id, modification@);
        }
        let leafness = match self.node(parent_id) {
            IoResultPure::Success(node) => node.leafness(),
            _ => {
                return IoResult::Error(ErrorCode::fs_file_destroyed);
            },
        };
        match leafness {
            Leafness::Leaf => IoResult::Error(ErrorCode::fs_node_is_leaf),
            Leafness::Branch => IoResult::Error(ErrorCode::fs_unsupported),
            Leafness::InternalBranch => {
                // Use internal branch protocol
                let bytes = modification_to_bytes(modification);
                proof {
                    assert(bytes.len() == bytes@.len());
                    assert(writable(modification@));
                    lemma_modify_is_exact(self@, parent_id, modification@);
                }
                self.temp_open_write(parent_id, bytes.as_slice())
            },
        }
    }

    /// Adds a child. This does not work with non-internal branches; they
    /// must be modified by userspace processes only.
    fn add_child(&mut self, parent_id: NodeId, child_name: &str, child_id: NodeId) -> (result:
        IoResult<()>)
        requires
            old(self).wf(),
            old(self)@.has_budget(1),
        ensures
            final(self).wf(),
            final(self)@ == old(self)@.add_child(parent_id, child_name@, child_id).post,
            matches_step(result, old(self)@.add_child(parent_id, child_name@, child_id)),
            old(self)@.referenced() ==> final(self)@.referenced(),
            old(self)@.grew_by(final(self)@, 1),
            result.events() == Seq::<ExplicitEventId>::empty(),
            old(self)@.nodes.contains_key(parent_id) ==> (
            old(self)@.nodes[parent_id].data matches FileOpsView::Internal(b) ==> (
            if b.names().contains(child_name@) {
                result.pure() == IoResultPure::<()>::Error(ErrorCode::fs_node_exists) && final(
                    self)@ == old(self)@.after_looks(1)
            } else {
                result.pure() == IoResultPure::Success(()) && final(self)@ == old(
                    self)@.with_child(parent_id, child_name@, child_id).after_looks(1)
            })),
    {
        let data = InternalModification::Add(child_id, String::from_str(child_name));
        proof {
            lemma_node_id_of_value(child_id.value(), child_id);
        }
        self.modify(parent_id, &data)
    }

    /// Removes a child. This does not work with non-internal branches; they
    /// must be modified by userspace processes only.
    fn remove_child(&mut self, parent_id: NodeId, child_id: NodeId) -> (result: IoResult<()>)
        requires
            old(self).wf(),
            old(self)@.has_budget(1),
        ensures
            final(self).wf(),
            final(self)@ == old(self)@.remove_child(parent_id, child_id).post,
            matches_step(result, old(self)@.remove_child(parent_id, child_id)),
            old(self)@.referenced() ==> final(self)@.referenced(),
            old(self)@.grew_by(final(self)@, 1),
            result.events() == Seq::<ExplicitEventId>::empty(),
            old(self)@.nodes.contains_key(parent_id) ==> (
            old(self)@.nodes[parent_id].data matches FileOpsView::Internal(b) ==> result.pure()
                == IoResultPure::Success(()) && final(self)@ == old(self)@.without_child(
                parent_id,
                child_id,
            ).after_looks(1)),
    {
        let data = InternalModification::Remove(child_id);
        proof {
            lemma_node_id_of_value(child_id.value(), child_id);
        }
        self.modify(parent_id, &data)
    }

    /// Takes the next node id for a child of `parent` under `name`, and
    /// links it there.
    fn link_new(&mut self, parent: NodeId, name: &str) -> (result: IoResult<NodeId>)
        requires
            old(self).wf(),
            old(self)@.has_budget(2),
        ensures
            final(self).wf(),
            final(self)@ == old(self)@.link_new(parent, name@).post,
            matches_step(result, old(self)@.link_new(parent, name@)),
            old(self)@.referenced() ==> final(self)@.referenced(),
            old(self)@.grew_by(final(self)@, 2),
            final(self)@.next_node_id == old(self)@.next_node_id,
            forall|pid: ProcessId|
                old(self)@.descriptors.contains_key(pid) ==> final(self)@.descriptors.contains_key(
                    pid,
                ),
            old(self)@.nodes.contains_key(parent) ==> (
            old(self)@.nodes[parent].data matches FileOpsView::Internal(b) ==> {
                &&& result.events() == Seq::<ExplicitEventId>::empty()
                &&& if b.names().contains(name@) {
                    result.pure() == IoResultPure::<NodeId>::Error(ErrorCode::fs_node_exists)
                        && final(self)@ == old(self)@.after_looks(1)
                } else {
                    result.pure() == IoResultPure::Success(NodeId::of(old(self)@.next_node_id))
                        && final(self)@ == old(self)@.with_child(
                        parent,
                        name@,
                        NodeId::of(old(self)@.next_node_id),
                    ).after_looks(2)
                }
            }),
    {
        let new_node_id = self.next_node_id;
        let ghost pre = self@;
        proof {
            lemma_node_id_of_value(new_node_id.value(), new_node_id);
            lemma_listing_keeps_tables(pre, parent, name@);
        }
        let (exists, ctx) = self.has_child(parent, name).separate_events();
        let ghost mid = self@;
        proof {
            lemma_growth(pre, mid, mid, 1, 0);
        }
        match exists {
            IoResultPure::Success(true) => {
                proof {
                    lemma_growth(pre, mid, mid, 1, 1);
                }
                IoResultPure::Error(ErrorCode::fs_node_exists).with_context(ctx)
            },
            IoResultPure::Success(false) => {
                let (linked, new_ctx) = self.add_child(parent, name, new_node_id).separate_events();
                let mut ctx = ctx;
                ctx.consume(new_ctx);
                proof {
                    lemma_growth(pre, mid, self@, 1, 1);
                    lemma_modify_keeps_tables(
                        mid,
                        parent,
                        crate::filesystem::wire::ModificationView::Add(
                            new_node_id.value(),
                            name@,
                        ),
                    );
                }
                match linked {
                    IoResultPure::Success(_) => IoResultPure::Success(new_node_id).with_context(
                        ctx,
                    ),
                    other => other.retype().with_context(ctx),
                }
            },
            other => {
                proof {
                    lemma_growth(pre, mid, mid, 1, 1);
                }
                other.retype().with_context(ctx)
            },
        }
    }

    /// Gives `pid` a new descriptor for `node_id`.
    fn create_descriptor(&mut self, pid: ProcessId, node_id: NodeId) -> (fc: FileClientId)
        requires
            old(self).wf(),
            old(self)@.descriptors.contains_key(pid),
            old(self)@.has_budget(1),
        ensures
            final(self).wf(),
            final(self)@ == old(self)@.with_descriptor(pid, node_id).0,
            fc == old(self)@.with_descriptor(pid, node_id).1,
            old(self)@.grew_by(final(self)@, 1),
    {
        let ghost pre = self@;
        assert(self.descriptors@.contains_key(pid));
        assert(self.descriptors@[pid].wf());
        let ghost tables = self.descriptors@;
        let fd = match self.descriptors.get_mut(pid) {
            Some(process) => {
                proof {
                    process.lemma_order();
                    assert(!process@.descriptors.contains_key(
                        FileDescriptor::of(process@.next_fd),
                    )) by {
                        crate::abi::lemma_file_descriptor_of_value(
                            process@.next_fd,
                            FileDescriptor::of(process@.next_fd),
                        );
                        assert(pre.descriptors[pid].descriptors.contains_key(
                            FileDescriptor::of(process@.next_fd),
                        ) ==> false);
                    }
                }
                process.create_id(node_id)
            },
            None => FileDescriptor::from_u64(0),
        };
        proof {
            let post = pre.with_descriptor(pid, node_id).0;
            assert(self@.nodes =~= post.nodes);
            assert(self@.descriptors =~= post.descriptors);
            assert forall|p: ProcessId| #[trigger]
                self.descriptors@.contains_key(p) implies self.descriptors@[p].wf() by {
                if p != pid {
                    assert(tables.contains_key(p));
                }
            }
            assert forall|p: ProcessId, d: FileDescriptor|
                #![trigger self@.descriptors[p].descriptors.contains_key(d)]
                self@.descriptors.contains_key(p) && self@.descriptors[p].descriptors.contains_key(
                    d,
                ) implies d.value() < self@.descriptors[p].next_fd by {
                assert(pre.descriptors.contains_key(p));
                if p == pid {
                    if d != fd {
                        assert(pre.descriptors[p].descriptors.contains_key(d));
                    } else {
                        crate::abi::lemma_file_descriptor_of_value(pre.descriptors[p].next_fd, d);
                    }
                } else {
                    assert(pre.descriptors[p].descriptors.contains_key(d));
                }
            }
            assert forall|p: ProcessId| #[trigger]
                self@.descriptors.contains_key(p) implies self@.descriptors[p].next_fd <= (
            if pre.descriptors.contains_key(p) {
                pre.descriptors[p].next_fd as int
            } else {
                0
            }) + 1 by {
                assert(pre.descriptors.contains_key(p));
            }
            assert forall|id: NodeId| #[trigger]
                self@.nodes.contains_key(id) implies self@.nodes[id].refcount <= (
            if pre.nodes.contains_key(id) {
                pre.nodes[id].refcount as int
            } else {
                0
            }) + 1 by {
                assert(pre.nodes.contains_key(id));
            }
        }
        FileClientId::process(pid, fd)
    }

    /// Makes the node `id` from `builder` and puts it into the table.
    fn build(&mut self, id: NodeId, parent: Option<NodeId>, builder: NodeBuilder) -> (fc: Option<
        FileClientId,
    >)
        requires
            old(self).wf(),
            builder.wf(),
            old(self)@.admits(builder@),
            old(self)@.has_budget(1),
            id == NodeId::of(old(self)@.next_node_id),
        ensures
            final(self).wf(),
            final(self)@ == old(self)@.build(id, parent, builder@).0,
            fc == old(self)@.build(id, parent, builder@).1,
            old(self)@.grew_by(final(self)@, 1),
            old(self)@.referenced() ==> final(self)@.referenced_except(id),
    {
        let ghost pre = self@;
        proof {
            lemma_build_keeps_wf(pre, parent, builder@);
            lemma_node_id_of_value(pre.next_node_id, self.next_node_id);
        }
        let (node, fc) = match builder {
            NodeBuilder::Ready(node) => {
                assert(forall|other: NodeId| #[trigger]
                    self.nodes@.contains_key(other) ==> self.nodes@[other].ops().wf());
                (node, None)
            },
            NodeBuilder::Attachment { manager, is_leaf } => {
                let fc = self.create_descriptor(manager, id);
                assert(forall|other: NodeId| #[trigger]
                    self.nodes@.contains_key(other) ==> self.nodes@[other].ops().wf());
                assert(forall|p: ProcessId| #[trigger]
                    self.descriptors@.contains_key(p) ==> self.descriptors@[p].wf());
                let attachment = Attachment::new(fc, is_leaf, &mut self.events);
                (Node::new(parent, FileOps::Attachment(attachment)), Some(fc))
            },
        };
        let ghost tables = self.nodes@;
        proof {
            node.lemma_view();
        }
        self.nodes.insert(id, node);
        self.next_node_id = self.next_node_id.next();
        proof {
            let post = pre.build(id, parent, builder@).0;
            assert(self@.nodes =~= post.nodes);
            assert(self@.descriptors =~= post.descriptors);
            assert forall|other: NodeId| #[trigger]
                self.nodes@.contains_key(other) implies self.nodes@[other].ops().wf() by {
                if other != id {
                    assert(tables.contains_key(other));
                }
            }
        }
        fc
    }

    /// Create a new node, with contents made once its id is known.
    pub fn create_node_with(&mut self, parent: NodeId, name: &str, builder: NodeBuilder) -> (result:
        IoResult<(NodeId, Option<FileClientId>)>)
        requires
            old(self).wf(),
            builder.wf(),
            old(self)@.admits(builder@),
            old(self)@.has_budget(3),
        ensures
            final(self).wf(),
            final(self)@ == old(self)@.create_node_with(parent, name@, builder@).post,
            matches_step(result, old(self)@.create_node_with(parent, name@, builder@)),
            old(self)@.grew_by(final(self)@, 3),
            old(self)@.referenced() ==> (match result.pure() {
                IoResultPure::Success((id, _)) => final(self)@.referenced_except(id),
                _ => final(self)@.referenced(),
            }),
            old(self)@.nodes.contains_key(parent) ==> (
            old(self)@.nodes[parent].data matches FileOpsView::Internal(b) ==> {
                &&& result.events() == Seq::<ExplicitEventId>::empty()
                &&& if b.names().contains(name@) {
                    result.pure() == IoResultPure::<(NodeId, Option<FileClientId>)>::Error(
                        ErrorCode::fs_node_exists,
                    ) && final(self)@ == old(self)@.after_looks(1)
                } else {
                    let id = NodeId::of(old(self)@.next_node_id);
                    let made = old(self)@.with_child(parent, name@, id).after_looks(2).build(
                        id,
                        Some(parent),
                        builder@,
                    );
                    result.pure() == IoResultPure::Success((id, made.1)) && final(self)@ == made.0
                }
            }),
    {
        let ghost pre = self@;
        let (linked, ctx) = self.link_new(parent, name).separate_events();
        let ghost mid = self@;
        proof {
            lemma_growth(pre, mid, mid, 2, 0);
            lemma_link_keeps_event_counter(pre, parent, name@);
        }
        match linked {
            IoResultPure::Success(id) => {
                let fc = self.build(id, Some(parent), builder);
                proof {
                    lemma_growth(pre, mid, self@, 2, 1);
                }
                IoResultPure::Success((id, fc)).with_context(ctx)
            },
            other => other.retype().with_context(ctx),
        }
    }

    /// Create a new node
    pub fn create_node(&mut self, parent: NodeId, name: &str, new_node: Node) -> (result: IoResult<
        NodeId,
    >)
        requires
            old(self).wf(),
            new_node.wf(),
            old(self)@.admits(BuilderView::Ready(new_node@)),
            old(self)@.has_budget(3),
        ensures
            final(self).wf(),
            final(self)@ == old(self)@.create_node_with(
                parent,
                name@,
                BuilderView::Ready(new_node@),
            ).post,
            result.events() == old(self)@.create_node_with(
                parent,
                name@,
                BuilderView::Ready(new_node@),
            ).events,
            match old(self)@.create_node_with(parent, name@, BuilderView::Ready(new_node@)).outcome {
                IoResultPure::Success((id, _)) => result.pure() == IoResultPure::Success(id),
                other => result.pure() == other.retyped::<NodeId>(),
            },
            old(self)@.grew_by(final(self)@, 3),
            old(self)@.referenced() ==> (match result.pure() {
                IoResultPure::Success(id) => final(self)@.referenced_except(id),
                _ => final(self)@.referenced(),
            }),
            old(self)@.nodes.contains_key(parent) ==> (
            old(self)@.nodes[parent].data matches FileOpsView::Internal(b) ==> {
                &&& result.events() == Seq::<ExplicitEventId>::empty()
                &&& if b.names().contains(name@) {
                    result.pure() == IoResultPure::<NodeId>::Error(ErrorCode::fs_node_exists)
                        && final(self)@ == old(self)@.after_looks(1)
                } else {
                    let id = NodeId::of(old(self)@.next_node_id);
                    result.pure() == IoResultPure::Success(id) && final(self)@ == old(
                        self)@.with_child(parent, name@, id).after_looks(2).build(
                        id,
                        Some(parent),
                        BuilderView::Ready(new_node@),
                    ).0
                }
            }),
    {
        let (created, ctx) = self.create_node_with(
            parent,
            name,
            NodeBuilder::Ready(new_node),
        ).separate_events();
        match created {
            IoResultPure::Success((id, _)) => IoResultPure::Success(id).with_context(ctx),
            other => other.retype().with_context(ctx),
        }
    }

    /// Create a new anonymous node, with contents made once its id is
    /// known.
    pub fn create_anon_node_with(&mut self, builder: NodeBuilder) -> (created: (
        NodeId,
        Option<FileClientId>,
    ))
        requires
            old(self).wf(),
            builder.wf(),
            old(self)@.admits(builder@),
            old(self)@.has_budget(1),
        ensures
            final(self).wf(),
            final(self)@ == old(self)@.create_anon_node_with(builder@).0,
            created == old(self)@.create_anon_node_with(builder@).1,
            old(self)@.grew_by(final(self)@, 1),
            old(self)@.referenced() ==> final(self)@.referenced_except(created.0),
    {
        let new_node_id = self.next_node_id;
        proof {
            lemma_node_id_of_value(new_node_id.value(), new_node_id);
        }
        let fc = self.build(new_node_id, None, builder);
        (new_node_id, fc)
    }

    /// Create a new anonymous node
    pub fn create_anon_node(&mut self, new_node: Node) -> (id: NodeId)
        requires
            old(self).wf(),
            new_node.wf(),
            old(self)@.admits(BuilderView::Ready(new_node@)),
            old(self)@.has_budget(1),
        ensures
            final(self).wf(),
            final(self)@ == old(self)@.create_anon_node_with(BuilderView::Ready(new_node@)).0,
            id == old(self)@.create_anon_node_with(BuilderView::Ready(new_node@)).1.0,
            old(self)@.grew_by(final(self)@, 1),
            old(self)@.referenced() ==> final(self)@.referenced_except(id),
    {
        self.create_anon_node_with(NodeBuilder::Ready(new_node)).0
    }

    /// Traverse tree and return NodeId
    pub fn resolve(&mut self, path: &Path) -> (result: IoResult<NodeId>)
        requires
            old(self).wf(),
            path@.absolute,
            old(self)@.has_budget(path@.components.len()),
        ensures
            final(self).wf(),
            final(self)@ == old(self)@.resolve(path@.components).post,
            matches_step(result, old(self)@.resolve(path@.components)),
            old(self)@.referenced() ==> final(self)@.referenced(),
            old(self)@.grew_by(final(self)@, path@.components.len()),
            final(self)@.descriptors == old(self)@.descriptors,
            final(self)@.next_node_id == old(self)@.next_node_id,
            final(self)@.nodes.dom() == old(self)@.nodes.dom(),
            old(self)@.walk(root_id(), path@.components) matches Some(outcome) ==> {
                &&& result.pure() == outcome
                &&& result.events() == Seq::<ExplicitEventId>::empty()
                &&& final(self)@ == old(self)@.after_looks(
                    old(self)@.looks(root_id(), path@.components),
                )
            },
    {
        proof {
            self.lemma_listable();
            if self@.walk(root_id(), path@.components).is_some() {
                lemma_resolve_is_exact(self@, root_id(), path@.components);
            }
        }
        let mut cursor: NodeId = NodeId::first();
        let mut ctx = IoContext::new();
        let ghost names = path@.components;
        let ghost target = old(self)@.resolve(names);
        proof {
            lemma_node_id_of_value(1, cursor);
            assert(names.skip(0) =~= names);
            lemma_growth(old(self)@, self@, self@, 0, 0);
            assert(old(self)@.grew_by(self@, 0));
        }
        let mut i: usize = 0;
        while i < path.len()
            invariant
                i <= names.len(),
                names == path@.components,
                self.wf(),
                self@.has_budget((names.len() - i) as nat),
                old(self)@.referenced() ==> self@.referenced(),
                old(self)@.grew_by(self@, i as nat),
                self@.descriptors == old(self)@.descriptors,
                self@.next_node_id == old(self)@.next_node_id,
                self@.nodes.dom() == old(self)@.nodes.dom(),
                target == old(self)@.resolve(names),
                target == (Step {
                    events: ctx@ + self@.resolve_from(cursor, names.skip(i as int)).events,
                    ..self@.resolve_from(cursor, names.skip(i as int))
                }),
                old(self)@.walk(root_id(), names).is_some() ==> target == (Step {
                    post: old(self)@.after_looks(old(self)@.looks(root_id(), names)),
                    events: Seq::<ExplicitEventId>::empty(),
                    outcome: old(self)@.walk(root_id(), names).unwrap(),
                }),
            decreases names.len() - i,
        {
            let ghost before = self@;
            let ghost ctx_before = ctx@;
            let ghost rest = names.skip(i as int);
            proof {
                lemma_listing_keeps_tables(before, cursor, rest[0]);
                lemma_growth(before, before, before, 0, 0);
            }
            let (child, new_ctx) = self.get_child(cursor, path.component(i).as_str()).separate_events();
            ctx.consume(new_ctx);
            proof {
                lemma_growth(old(self)@, before, self@, i as nat, 1);
                lemma_growth(before, self@, self@, 1, 0);
                assert(rest.skip(1) =~= names.skip(i + 1));
            }
            match child {
                IoResultPure::Success(new_cursor) => {
                    proof {
                        let first = before.get_child(cursor, rest[0]);
                        let tail = self@.resolve_from(new_cursor, names.skip(i + 1));
                        assert(ctx@ + tail.events =~= ctx_before + (first.events + tail.events));
                    }
                    cursor = new_cursor;
                },
                other => {
                    proof {
                        lemma_growth(old(self)@, self@, self@, (i + 1) as nat, 0);
                    }
                    return other.with_context(ctx);
                },
            }
            i += 1;
        }
        proof {
            assert(names.skip(i as int).len() == 0);
            assert(ctx@ + Seq::<ExplicitEventId>::empty() =~= ctx@);
        }
        IoResultPure::Success(cursor).with_context(ctx)
    }

    /// Whether `fc` is a descriptor that a process holds.
    pub fn holds(&self, fc: FileClientId) -> (b: bool)
        requires
            self.wf(),
        ensures
            b == self@.holds(fc),
    {
        match fc.process {
            Some(pid) => match self.descriptors.get(pid) {
                Some(held) => {
                    assert(self.descriptors@[pid].wf());
                    held.resolve(fc.fd).is_some()
                },
                None => false,
            },
            None => false,
        }
    }

    /// Resolves file descriptor for a process
    pub fn resolve_fc(&mut self, fc: FileClientId) -> (node: IoResultPure<NodeId>)
        requires
            old(self).wf(),
            old(self)@.holds(fc),
        ensures
            *final(self) == *old(self),
            node == IoResultPure::Success(old(self)@.resolve_fc(fc)),
    {
        let node = match fc.process {
            Some(pid) => match self.descriptors.get(pid) {
                Some(held) => {
                    assert(self.descriptors@[pid].wf());
                    held.resolve(fc.fd)
                },
                None => None,
            },
            None => None,
        };
        match node {
            Some(node) => IoResultPure::Success(node),
            None => IoResultPure::Error(ErrorCode::fs_file_destroyed),
        }
    }

    /// Adds a reference to a node: for the client that opens it, or one
    /// that keeps the node for good.
    fn open_node(&mut self, id: NodeId, fc: Option<FileClientId>) -> (found: bool)
        requires
            old(self).wf(),
            old(self)@.has_budget(1),
        ensures
            final(self).wf(),
            found == old(self)@.nodes.contains_key(id),
            final(self)@ == (if found {
                old(self)@.with_opened(id)
            } else {
                old(self)@
            }),
            old(self)@.grew_by(final(self)@, 1),
            old(self)@.referenced() ==> final(self)@.referenced(),
            found && old(self)@.referenced_except(id) ==> final(self)@.referenced(),
    {
        let ghost pre = self@;
        let ghost mid = self.nodes@;
        assert(forall|other: NodeId| #[trigger]
            self.nodes@.contains_key(other) ==> self.nodes@[other].ops().wf());
        assert(pre.nodes.contains_key(id) ==> pre.nodes[id].refcount + 1 <= u64::MAX);
        let found = match self.nodes.get_mut(id) {
            Some(node) => {
                proof {
                    node.lemma_view();
                }
                match fc {
                    Some(fc) => {
                        node.open(fc);
                    },
                    None => {
                        node.inc_ref();
                    },
                }
                proof {
                    node.lemma_view();
                }
                true
            },
            None => false,
        };
        proof {
            if found {
                let post = pre.with_opened(id);
                assert(self@.nodes =~= post.nodes);
                assert(self@.descriptors =~= post.descriptors);
                assert forall|other: NodeId| #[trigger]
                    self.nodes@.contains_key(other) implies self.nodes@[other].ops().wf() by {
                    if other != id {
                        assert(mid.contains_key(other));
                    }
                }
                lemma_node_update_keeps_wf(pre, self@, id);
                if pre.referenced_except(id) {
                    assert forall|other: NodeId| #[trigger]
                        self@.nodes.contains_key(other) implies self@.nodes[other].refcount
                        > 0 by {
                        if other != id {
                            assert(pre.nodes.contains_key(other));
                        }
                    }
                }
            } else {
                assert(self@.nodes =~= pre.nodes);
                assert(self@.descriptors =~= pre.descriptors);
                assert(self.nodes@ =~= mid);
                lemma_growth(pre, pre, pre, 0, 0);
            }
        }
        found
    }

    /// Open a file (system call)
    pub fn open(&mut self, sched: &mut Scheduler, pid: ProcessId, path: &str) -> (result:
        IoResultPure<FileClientId>)
        requires
            old(self).wf(),
            old(self)@.descriptors.contains_key(pid),
            absolute(path@),
            old(self)@.has_budget(split(path@).len() + 2),
        ensures
            final(self).wf(),
            final(self)@ == old(self)@.open(pid, split(path@)).post,
            result == old(self)@.open(pid, split(path@)).outcome,
            final(sched).triggered() == old(sched).triggered() + old(self)@.open(
                pid,
                split(path@),
            ).events,
            final(sched).next_pid() == old(sched).next_pid(),
            final(sched).spawned() == old(sched).spawned(),
            old(self)@.referenced() ==> final(self)@.referenced(),
            old(self)@.grew_by(final(self)@, split(path@).len() + 2),
            old(self)@.lookup(split(path@)) matches Some(outcome) ==> {
                &&& final(sched).triggered() == old(sched).triggered()
                &&& match outcome {
                    IoResultPure::Success(node) => {
                        let held = old(self)@.after_lookup(split(path@)).with_descriptor(
                            pid,
                            node,
                        );
                        if old(self)@.nodes.contains_key(node) {
                            result == IoResultPure::Success(held.1) && final(self)@
                                == held.0.with_opened(node)
                        } else {
                            result == IoResultPure::<FileClientId>::Error(
                                ErrorCode::fs_file_destroyed,
                            ) && final(self)@ == held.0
                        }
                    },
                    other => result == other.retyped::<FileClientId>() && final(self)@ == old(
                        self)@.after_lookup(split(path@)),
                }
            },
    {
        let ghost pre = self@;
        proof {
            self.lemma_listable();
            if pre.lookup(split(path@)).is_some() {
                lemma_resolve_is_exact(pre, root_id(), split(path@));
                assert(old(sched).triggered() + Seq::<ExplicitEventId>::empty() =~= old(
                    sched).triggered());
            }
        }
        let path = Path::new(path);
        let ghost n = path@.components.len();
        proof {
            lemma_growth(pre, pre, pre, 0, 0);
        }
        let node_id = match self.resolve(&path).consume_events(sched) {
            IoResultPure::Success(node_id) => node_id,
            other => {
                proof {
                    lemma_growth(pre, self@, self@, n, 2);
                }
                return other.retype();
            },
        };
        let ghost found = self@;
        proof {
            lemma_growth(pre, found, found, n, 0);
        }
        let fc = self.create_descriptor(pid, node_id);
        let ghost held = self@;
        proof {
            lemma_growth(pre, found, held, n, 1);
            lemma_growth(found, held, held, 1, 0);
            assert(pre.referenced() ==> held.referenced());
        }
        let opened = self.open_node(node_id, Some(fc));
        proof {
            lemma_growth(pre, held, self@, n + 1, 1);
        }
        if opened {
            IoResultPure::Success(fc)
        } else {
            IoResultPure::Error(ErrorCode::fs_file_destroyed)
        }
    }

    /// File info (system call)
    pub fn fileinfo(&mut self, path: &str) -> (result: IoResult<FileInfo>)
        requires
            old(self).wf(),
            absolute(path@),
            old(self)@.has_budget(split(path@).len()),
        ensures
            final(self).wf(),
            final(self)@ == old(self)@.fileinfo(split(path@)).post,
            result.events() == old(self)@.fileinfo(split(path@)).events,
            match old(self)@.fileinfo(split(path@)).outcome {
                IoResultPure::Success(is_leaf) => result.pure() == IoResultPure::Success(
                    FileInfo { is_leaf },
                ),
                other => result.pure() == other.retyped::<FileInfo>(),
            },
            old(self)@.referenced() ==> final(self)@.referenced(),
            old(self)@.grew_by(final(self)@, split(path@).len()),
            old(self)@.lookup(split(path@)) matches Some(outcome) ==> {
                &&& final(self)@ == old(self)@.after_lookup(split(path@))
                &&& result == (match outcome {
                    IoResultPure::Success(node) => if old(self)@.nodes.contains_key(node) {
                        IoResult::Success(
                            FileInfo {
                                is_leaf: old(self)@.nodes[node].data.leafness() == Leafness::Leaf,
                            },
                        )
                    } else {
                        IoResult::Error(ErrorCode::fs_file_destroyed)
                    },
                    IoResultPure::Error(code) => IoResult::Error(code),
                    IoResultPure::RepeatAfter(wait) => IoResult::RepeatAfter(wait),
                })
            },
    {
        let path = Path::new(path);
        let (found, ctx) = self.resolve(&path).separate_events();
        match found {
            IoResultPure::Success(id) => match self.node(id) {
                IoResultPure::Success(node) => IoResultPure::Success(node.fileinfo()).with_context(
                    ctx,
                ),
                _ => IoResultPure::Error(ErrorCode::fs_file_destroyed).with_context(ctx),
            },
            other => other.retype().with_context(ctx),
        }
    }

    /// Read from file (system call)
    pub fn read(&mut self, sched: &mut Scheduler, fc: FileClientId, buf: &mut [u8]) -> (result:
        IoResultPure<usize>)
        requires
            old(self).wf(),
            old(self)@.holds(fc),
            old(self)@.has_budget(1),
        ensures
            final(self).wf(),
            final(self)@ == old(self)@.read(fc, old(buf)@.len()).0.post,
            result == old(self)@.read(fc, old(buf)@.len()).0.outcome,
            final(buf)@ == filled(
                old(buf)@,
                old(self)@.read(fc, old(buf)@.len()).1,
                old(self)@.read(fc, old(buf)@.len()).1.len() as int,
            ),
            final(sched).triggered() == old(sched).triggered() + old(self)@.read(
                fc,
                old(buf)@.len(),
            ).0.events,
            final(sched).next_pid() == old(sched).next_pid(),
            final(sched).spawned() == old(sched).spawned(),
            old(self)@.referenced() ==> final(self)@.referenced(),
            old(self)@.grew_by(final(self)@, 1),
    {
        let ghost pre = self@;
        let node_id = match self.resolve_fc(fc) {
            IoResultPure::Success(node_id) => node_id,
            other => {
                return other.retype();
            },
        };
        let ghost mid = self.nodes@;
        assert(forall|other: NodeId| #[trigger]
            self.nodes@.contains_key(other) ==> self.nodes@[other].ops().wf());
        let capacity = buf.len();
        proof {
            if pre.nodes.contains_key(node_id) {
                lemma_file_steps_keep_invariants(
                    pre.nodes[node_id].data,
                    fc,
                    capacity as nat,
                    Seq::empty(),
                    pre.next_event,
                );
                crate::filesystem::file::lemma_file_steps_keep_identity(
                    pre.nodes[node_id].data,
                    fc,
                    capacity as nat,
                    Seq::empty(),
                    pre.next_event,
                );
            }
        }
        let result = match self.nodes.get_mut(node_id) {
            Some(node) => {
                proof {
                    node.lemma_view();
                }
                node.read(fc, buf, &mut self.events)
            },
            None => {
                proof {
                    assert(buf@ =~= filled(old(buf)@, Seq::<u8>::empty(), 0));
                }
                IoResult::Error(ErrorCode::fs_file_destroyed)
            },
        };
        proof {
            let post = pre.read(fc, capacity as nat).0.post;
            assert(self@.nodes =~= post.nodes);
            assert(self@.descriptors =~= post.descriptors);
            if pre.nodes.contains_key(node_id) {
                assert forall|other: NodeId| #[trigger]
                    self.nodes@.contains_key(other) implies self.nodes@[other].ops().wf() by {
                    if other != node_id {
                        assert(mid.contains_key(other));
                    }
                }
                lemma_node_update_keeps_wf(pre, self@, node_id);
            } else {
                assert(self.nodes@ =~= mid);
                lemma_growth(pre, pre, pre, 0, 0);
            }
        }
        result.consume_events(sched)
    }

    /// Read waiting for (used by system call: fd_select)
    pub fn read_waiting_for(&mut self, sched: &mut Scheduler, fc: FileClientId) -> (result:
        IoResultPure<WaitFor>)
        requires
            old(self).wf(),
            old(self)@.holds(fc),
        ensures
            final(self).wf(),
            final(self)@ == old(self)@,
            *final(sched) == *old(sched),
            result == (if old(self)@.nodes.contains_key(old(self)@.resolve_fc(fc)) {
                IoResultPure::Success(
                    old(self)@.nodes[old(self)@.resolve_fc(fc)].data.read_waiting_for(fc),
                )
            } else {
                IoResultPure::Error(ErrorCode::fs_file_destroyed)
            }),
    {
        let ghost pre = self@;
        let node_id = match self.resolve_fc(fc) {
            IoResultPure::Success(node_id) => node_id,
            other => {
                return other.retype();
            },
        };
        let ghost mid = self.nodes@;
        assert(forall|other: NodeId| #[trigger]
            self.nodes@.contains_key(other) ==> self.nodes@[other].ops().wf());
        assert(pre.nodes.contains_key(node_id) ==> pre.nodes[node_id].data.wf());
        let result = match self.nodes.get_mut(node_id) {
            Some(node) => {
                proof {
                    node.lemma_view();
                }
                IoResultPure::Success(node.read_waiting_for(fc))
            },
            None => IoResultPure::Error(ErrorCode::fs_file_destroyed),
        };
        proof {
            assert(self@.nodes =~= pre.nodes);
            assert(self@.descriptors =~= pre.descriptors);
            assert forall|other: NodeId| #[trigger]
                self.nodes@.contains_key(other) implies self.nodes@[other].ops().wf() by {
                if other != node_id {
                    assert(mid.contains_key(other));
                }
            }
        }
        result
    }

    /// Write to file (system call)
    pub fn write(&mut self, sched: &mut Scheduler, fc: FileClientId, buf: &[u8]) -> (result:
        IoResultPure<usize>)
        requires
            old(self).wf(),
            old(self)@.holds(fc),
        ensures
            final(self).wf(),
            final(self)@ == old(self)@.write(fc, buf@).post,
            result == old(self)@.write(fc, buf@).outcome,
            final(sched).triggered() == old(sched).triggered() + old(self)@.write(fc, buf@).events,
            final(sched).next_pid() == old(sched).next_pid(),
            final(sched).spawned() == old(sched).spawned(),
            old(self)@.referenced() ==> final(self)@.referenced(),
            old(self)@.grew_by(final(self)@, 0),
    {
        let ghost pre = self@;
        let node_id = match self.resolve_fc(fc) {
            IoResultPure::Success(node_id) => node_id,
            other => {
                return other.retype();
            },
        };
        let ghost mid = self.nodes@;
        assert(forall|other: NodeId| #[trigger]
            self.nodes@.contains_key(other) ==> self.nodes@[other].ops().wf());
        proof {
            if pre.nodes.contains_key(node_id) {
                crate::filesystem::file::lemma_file_steps_keep_identity(
                    pre.nodes[node_id].data,
                    fc,
                    0,
                    buf@,
                    0,
                );
            }
        }
        let result = match self.nodes.get_mut(node_id) {
            Some(node) => {
                proof {
                    node.lemma_view();
                }
                node.write(fc, buf)
            },
            None => IoResult::Error(ErrorCode::fs_file_destroyed),
        };
        proof {
            let post = pre.write(fc, buf@).post;
            assert(self@.nodes =~= post.nodes);
            assert(self@.descriptors =~= post.descriptors);
            if pre.nodes.contains_key(node_id) {
                assert forall|other: NodeId| #[trigger]
                    self.nodes@.contains_key(other) implies self.nodes@[other].ops().wf() by {
                    if other != node_id {
                        assert(mid.contains_key(other));
                    }
                }
                lemma_node_update_keeps_wf(pre, self@, node_id);
            } else {
                assert(self.nodes@ =~= mid);
                lemma_growth(pre, pre, pre, 0, 0);
            }
        }
        result.consume_events(sched)
    }

    /// Get pid (system call)
    pub fn get_pid(&mut self, fc: FileClientId) -> (result: IoResultPure<ProcessId>)
        requires
            old(self).wf(),
            old(self)@.holds(fc),
        ensures
            *final(self) == *old(self),
            result == (if old(self)@.nodes.contains_key(old(self)@.resolve_fc(fc)) {
                match old(self)@.nodes[old(self)@.resolve_fc(fc)].data.pid() {
                    Some(pid) => IoResultPure::Success(pid),
                    None => IoResultPure::Error(ErrorCode::fs_unsupported),
                }
            } else {
                IoResultPure::Error(ErrorCode::fs_file_destroyed)
            }),
    {
        let node_id = match self.resolve_fc(fc) {
            IoResultPure::Success(node_id) => node_id,
            other => {
                return other.retype();
            },
        };
        match self.node(node_id) {
            IoResultPure::Success(node) => {
                proof {
                    node.lemma_view();
                }
                node.data().pid()
            },
            _ => IoResultPure::Error(ErrorCode::fs_file_destroyed),
        }
    }

    /// Read a file for other kernel component
    /// Discards data on error.
    pub fn read_file(&mut self, path: &str) -> (result: IoResult<Vec<u8>>)
        requires
            old(self).wf(),
            absolute(path@),
            old(self)@.has_budget(split(path@).len() + 1),
        ensures
            final(self).wf(),
            final(self)@ == old(self)@.read_file(split(path@)).post,
            matches_bytes(result, old(self)@.read_file(split(path@))),
            old(self)@.referenced() ==> final(self)@.referenced(),
            old(self)@.grew_by(final(self)@, split(path@).len() + 1),
            old(self)@.read_at(split(path@)) matches Some(step) ==> final(self)@ == step.post
                && matches_bytes(result, step),
    {
        let ghost pre = self@;
        let path = Path::new(path);
        let ghost n = path@.components.len();
        let (found, ctx) = self.resolve(&path).separate_events();
        let ghost mid = self@;
        proof {
            lemma_growth(pre, mid, mid, n, 1);
            lemma_growth(pre, mid, mid, n, 0);
        }
        match found {
            IoResultPure::Success(node_id) => {
                if self.nodes.contains_key(node_id) {
                    let (bytes, read_ctx) = self.temp_open_read(node_id).separate_events();
                    let mut ctx = ctx;
                    ctx.consume(read_ctx);
                    proof {
                        lemma_growth(pre, mid, self@, n, 1);
                    }
                    bytes.with_context(ctx)
                } else {
                    IoResultPure::Error(ErrorCode::fs_file_destroyed).with_context(ctx)
                }
            },
            other => other.retype().with_context(ctx),
        }
    }

    /// Loads an image and lays it out in whole pages
    pub fn load_module(&mut self, path: &str) -> (result: IoResult<ElfImage>)
        requires
            old(self).wf(),
            absolute(path@),
            old(self)@.has_budget(split(path@).len() + 1),
        ensures
            final(self).wf(),
            final(self)@ == old(self)@.load_module(split(path@)).post,
            result.events() == old(self)@.load_module(split(path@)).events,
            match old(self)@.load_module(split(path@)).outcome {
                IoResultPure::Success(bytes) => result.pure() matches IoResultPure::Success(image)
                    && image@ == bytes,
                other => result.pure() == other.retyped::<ElfImage>(),
            },
            old(self)@.referenced() ==> final(self)@.referenced(),
            old(self)@.grew_by(final(self)@, split(path@).len() + 1),
            old(self)@.image_at(split(path@)) matches Some(step) ==> {
                &&& final(self)@ == step.post
                &&& result.events() == step.events
                &&& match step.outcome {
                    IoResultPure::Success(bytes) => result.pure() matches IoResultPure::Success(image)
                        && image@ == bytes,
                    other => result.pure() == other.retyped::<ElfImage>(),
                }
            },
    {
        let ghost read = old(self)@.read_file(split(path@));
        let (bytes, ctx) = self.read_file(path).separate_events();
        proof {
            assert(old(self)@.load_module(split(path@)).post == read.post);
            assert(old(self)@.load_module(split(path@)).events == read.events);
        }
        match bytes {
            IoResultPure::Success(bytes) => match ElfImage::new(bytes) {
                Some(image) => IoResultPure::Success(image).with_context(ctx),
                None => IoResultPure::Error(ErrorCode::fs_protocol).with_context(ctx),
            },
            other => other.retype().with_context(ctx),
        }
    }

    /// Create a new node, and give it one initial reference so it will not
    /// be removed automatically
    pub fn create_static(&mut self, path: &Path, dev: FileOps) -> (result: IoResult<NodeId>)
        requires
            old(self).wf(),
            path@.absolute,
            path@.components.len() > 0,
            dev.wf(),
            old(self)@.admits(
                BuilderView::Ready(NodeView { parent: None, refcount: 0, data: dev@ }),
            ),
            old(self)@.has_budget(path@.components.len() + 3),
        ensures
            final(self).wf(),
            final(self)@ == old(self)@.create_static(path@.components, dev@).post,
            matches_step(result, old(self)@.create_static(path@.components, dev@)),
            old(self)@.referenced() ==> final(self)@.referenced(),
            old(self)@.grew_by(final(self)@, path@.components.len() + 3),
            old(self)@.made_static(path@.components, dev@) matches Some((post, outcome)) ==> {
                &&& final(self)@ == post
                &&& result.pure() == outcome
                &&& result.events() == Seq::<ExplicitEventId>::empty()
            },
    {
        let ghost pre = self@;
        let ghost names = path@.components;
        let ghost n = (names.len() - 1) as nat;
        let parent_path = match path.parent() {
            Some(parent_path) => parent_path,
            None => {
                return IoResult::Error(ErrorCode::fs_node_not_found);
            },
        };
        let (found, ctx) = self.resolve(&parent_path).separate_events();
        let ghost mid = self@;
        proof {
            lemma_growth(pre, mid, mid, n, 0);
            lemma_growth(pre, mid, mid, n, 4);
            lemma_resolve_mints(pre, names.drop_last());
        }
        let parent = match found {
            IoResultPure::Success(parent) => parent,
            other => {
                return other.retype().with_context(ctx);
            },
        };
        let file_name = match path.file_name() {
            Some(file_name) => file_name,
            None => {
                return IoResult::Error(ErrorCode::fs_node_not_found);
            },
        };
        let node = Node::new(Some(parent), dev);
        proof {
            node.lemma_view();
            lemma_minted_below_grows(dev@, pre.next_event, mid.next_event);
        }
        let (created, new_ctx) = self.create_node(parent, file_name.as_str(), node).separate_events();
        let mut ctx = ctx;
        ctx.consume(new_ctx);
        let ghost made = self@;
        proof {
            lemma_growth(pre, mid, made, n, 3);
            lemma_growth(mid, made, made, 3, 0);
            lemma_growth(pre, made, made, n + 3, 1);
        }
        match created {
            IoResultPure::Success(id) => {
                proof {
                    lemma_created_node_exists(
                        mid,
                        parent,
                        file_name@,
                        BuilderView::Ready(node@),
                    );
                }
                self.open_node(id, None);
                proof {
                    lemma_growth(pre, made, self@, n + 3, 1);
                }
                IoResultPure::Success(id).with_context(ctx)
            },
            other => other.retype().with_context(ctx),
        }
    }

    /// Create a new branch node, and give it one initial reference so it
    /// will not be removed automatically
    pub fn create_static_branch(&mut self, path: &Path) -> (result: IoResult<NodeId>)
        requires
            old(self).wf(),
            path@.absolute,
            path@.components.len() > 0,
            old(self)@.has_budget(path@.components.len() + 3),
        ensures
            final(self).wf(),
            final(self)@ == old(self)@.create_static(
                path@.components,
                FileOpsView::Internal(
                    crate::filesystem::file::internal::BranchView {
                        children: Seq::empty(),
                        readers: Map::empty(),
                    },
                ),
            ).post,
            matches_step(
                result,
                old(self)@.create_static(
                    path@.components,
                    FileOpsView::Internal(
                        crate::filesystem::file::internal::BranchView {
                            children: Seq::empty(),
                            readers: Map::empty(),
                        },
                    ),
                ),
            ),
            old(self)@.referenced() ==> final(self)@.referenced(),
            old(self)@.grew_by(final(self)@, path@.components.len() + 3),
            old(self)@.made_static(path@.components, empty_branch()) matches Some(
                (post, outcome),
            ) ==> {
                &&& final(self)@ == post
                &&& result.pure() == outcome
                &&& result.events() == Seq::<ExplicitEventId>::empty()
            },
    {
        let branch = FileOps::InternalBranch(InternalBranch::new());
        proof {
            assert(branch@.stream_clients() =~= Set::<FileClientId>::empty());
        }
        self.create_static(path, branch)
    }

    /// Attach to fs (system call)
    /// Give empty path to not bind the attachment directly to VFS, this is
    /// used to create subnodes for attached branches
    pub fn attach(&mut self, sched: &mut Scheduler, pid: ProcessId, path: &str, is_leaf: bool) -> (result:
        IoResultPure<FileClientId>)
        requires
            old(self).wf(),
            old(self)@.descriptors.contains_key(pid),
            path@.len() > 0 ==> absolute(path@) && split(path@).len() > 0,
            old(self)@.has_budget(split(path@).len() + 4),
        ensures
            final(self).wf(),
            final(self)@ == old(self)@.attach(pid, path@, split(path@), is_leaf).post,
            result == old(self)@.attach(pid, path@, split(path@), is_leaf).outcome,
            final(sched).triggered() == old(sched).triggered() + old(self)@.attach(
                pid,
                path@,
                split(path@),
                is_leaf,
            ).events,
            final(sched).next_pid() == old(sched).next_pid(),
            final(sched).spawned() == old(sched).spawned(),
            old(self)@.referenced() ==> final(self)@.referenced(),
            old(self)@.grew_by(final(self)@, split(path@).len() + 4),
            path@.len() > 0 ==> (old(self)@.lookup(split(path@).drop_last()) matches Some(
                IoResultPure::Success(parent),
            ) ==> (old(self)@.nodes.contains_key(parent) ==> (
            old(self)@.nodes[parent].data matches FileOpsView::Internal(b) ==> {
                let found = old(self)@.after_lookup(split(path@).drop_last());
                let name = split(path@).last();
                &&& final(sched).triggered() == old(sched).triggered()
                &&& if b.names().contains(name) {
                    result == IoResultPure::<FileClientId>::Error(ErrorCode::fs_node_exists)
                        && final(self)@ == found.after_looks(1)
                } else {
                    let id = NodeId::of(old(self)@.next_node_id);
                    let made = found.with_child(parent, name, id).after_looks(2).build(
                        id,
                        Some(parent),
                        BuilderView::Attachment { manager: pid, is_leaf },
                    );
                    result == IoResultPure::Success(made.1.unwrap()) && final(self)@
                        == made.0.with_opened(id)
                }
            }))),
    {
        let ghost pre = self@;
        let ghost names = split(path@);
        let ghost builder = BuilderView::Attachment { manager: pid, is_leaf };
        proof {
            assert(sched.triggered() + Seq::<ExplicitEventId>::empty() =~= sched.triggered());
        }
        let (node_id, fc) = if path.unicode_len() > 0 {
            // Create with an attachment point
            let path = Path::new(path);
            let ghost n = (names.len() - 1) as nat;
            let parent_path = match path.parent() {
                Some(parent_path) => parent_path,
                None => {
                    return IoResultPure::Error(ErrorCode::fs_node_not_found);
                },
            };
            let parent = match self.resolve(&parent_path).consume_events(sched) {
                IoResultPure::Success(parent) => parent,
                other => {
                    proof {
                        lemma_growth(pre, self@, self@, n, 5);
                    }
                    return other.retype();
                },
            };
            let ghost mid = self@;
            let ghost woken = sched.triggered();
            proof {
                lemma_growth(pre, mid, mid, n, 0);
            }
            let file_name = match path.file_name() {
                Some(file_name) => file_name,
                None => {
                    return IoResultPure::Error(ErrorCode::fs_node_not_found);
                },
            };
            let created = self.create_node_with(
                parent,
                file_name.as_str(),
                NodeBuilder::Attachment { manager: pid, is_leaf },
            ).consume_events(sched);
            proof {
                lemma_growth(pre, mid, self@, n, 3);
                lemma_growth(pre, self@, self@, n + 3, 2);
                lemma_created_node_exists(mid, parent, file_name@, builder);
                let first = pre.resolve(names.drop_last());
                let second = mid.create_node_with(parent, file_name@, builder);
                assert(sched.triggered() =~= old(sched).triggered() + (first.events
                    + second.events));
            }
            match created {
                IoResultPure::Success((node_id, Some(fc))) => (node_id, fc),
                IoResultPure::Success((_, None)) => {
                    return IoResultPure::Error(ErrorCode::fs_protocol);
                },
                other => {
                    return other.retype();
                },
            }
        } else {
            // Create unattached
            let (node_id, fc) = self.create_anon_node_with(
                NodeBuilder::Attachment { manager: pid, is_leaf },
            );
            proof {
                lemma_growth(pre, self@, self@, 1, 0);
            }
            match fc {
                Some(fc) => (node_id, fc),
                None => {
                    return IoResultPure::Error(ErrorCode::fs_protocol);
                },
            }
        };
        let ghost made = self@;
        proof {
            lemma_growth(pre, made, made, names.len() + 3, 0);
        }
        // Keep the attachment open for its manager
        self.open_node(node_id, Some(fc));
        proof {
            lemma_growth(pre, made, self@, names.len() + 3, 1);
        }
        IoResultPure::Success(fc)
    }

    /// Remove a closed node
    #[must_use]
    pub fn remove_node(&mut self, node_id: NodeId) -> (node: Node)
        requires
            old(self).wf(),
            old(self)@.nodes.contains_key(node_id),
            old(self)@.has_budget(1),
        ensures
            final(self).wf(),
            final(self)@ == old(self)@.remove_node(node_id),
            node@ == old(self)@.nodes[node_id],
            node.wf(),
            old(self)@.referenced_except(node_id) ==> final(self)@.referenced(),
            old(self)@.grew_by(final(self)@, 1),
            final(self)@ == old(self)@.collected(node_id),
    {
        let ghost pre = self@;
        let ghost mid = self.nodes@;
        assert(forall|other: NodeId| #[trigger]
            self.nodes@.contains_key(other) ==> self.nodes@[other].ops().wf());
        assert(self.nodes@.contains_key(node_id));
        // Remove the node itself
        let node = match self.nodes.remove(node_id) {
            Some(node) => node,
            None => Node::new(None, FileOps::NullDevice),
        };
        let ghost without = VfsView { nodes: pre.nodes.remove(node_id), ..pre };
        proof {
            assert(self@.nodes =~= without.nodes);
            assert(self@.descriptors =~= without.descriptors);
            assert forall|other: NodeId| #[trigger]
                self.nodes@.contains_key(other) implies self.nodes@[other].ops().wf() by {
                assert(mid.contains_key(other));
            }
            assert forall|id: NodeId| #[trigger] self@.nodes.contains_key(id) implies ({
                &&& id.value() < self@.next_node_id
                &&& self@.nodes[id].data.wf()
                &&& self@.nodes[id].data.minted_below(self@.next_event)
                &&& forall|c: FileClientId| #[trigger]
                    self@.nodes[id].data.stream_clients().contains(c) ==> c.process.is_some()
                &&& self@.nodes[id].data matches FileOpsView::Attached(a)
                    ==> a.manager.process.is_some()
            }) by {
                assert(pre.nodes.contains_key(id));
            }
            assert(pre.grew_by(self@, 0)) by {
                assert forall|id: NodeId| #[trigger]
                    self@.nodes.contains_key(id) implies self@.nodes[id].refcount <= (
                if pre.nodes.contains_key(id) {
                    pre.nodes[id].refcount as int
                } else {
                    0
                }) + 0 by {
                    assert(pre.nodes.contains_key(id));
                }
            }
            lemma_growth(pre, self@, self@, 0, 0);
            if pre.referenced_except(node_id) {
                assert forall|id: NodeId| #[trigger]
                    self@.nodes.contains_key(id) implies self@.nodes[id].refcount > 0 by {
                    assert(pre.nodes.contains_key(id));
                }
            }
            assert(pre.nodes[node_id].data.wf());
        }

        // Remove link from parent branch, if the branch is still there
        if let Some(parent) = node.parent() {
            let ghost before = self@;
            let unlinked = self.remove_child(parent, node_id);
            proof {
                lemma_growth(pre, before, self@, 0, 1);
                lemma_modify_is_silent(
                    before,
                    parent,
                    crate::filesystem::wire::ModificationView::Remove(node_id.value()),
                );
                assert(unlinked.events() == Seq::<ExplicitEventId>::empty());
            }
        } else {
            proof {
                lemma_growth(pre, self@, self@, 0, 1);
            }
        }
        node
    }

    /// Close a file descriptor using node_id
    /// Can be used to close file descriptors for already-killed process.
    /// This function never fails, but wakes whoever waits for the close.
    pub fn close_removed(&mut self, sched: &mut Scheduler, fc: FileClientId, node_id: NodeId) -> (result:
        IoResult<()>)
        requires
            old(self).wf(),
            old(self)@.referenced(),
            old(self)@.has_budget(1),
        ensures
            final(self).wf(),
            final(self)@.referenced(),
            final(self)@ == old(self)@.close_removed(fc, node_id),
            final(self)@ == old(self)@.after_close(fc, node_id),
            result == IoResult::Success(()),
            woke(
                old(sched).triggered(),
                final(sched).triggered(),
                old(self)@.close_events(fc, node_id),
                |e: ExplicitEventId| old(self)@.close_wakes(fc, node_id, e),
            ),
            final(sched).next_pid() == old(sched).next_pid(),
            final(sched).spawned() == old(sched).spawned(),
            old(self)@.grew_by(final(self)@, 1),
            forall|pid: ProcessId|
                final(self)@.descriptors.contains_key(pid) <==> old(self)@.descriptors.contains_key(
                    pid,
                ),
    {
        let ghost pre = self@;
        let ghost mid = self.nodes@;
        assert(forall|other: NodeId| #[trigger]
            self.nodes@.contains_key(other) ==> self.nodes@[other].ops().wf());
        proof {
            if pre.nodes.contains_key(node_id) {
                crate::filesystem::file::lemma_file_steps_keep_identity(
                    pre.nodes[node_id].data,
                    fc,
                    0,
                    Seq::empty(),
                    0,
                );
                assert(pre.nodes[node_id].refcount > 0);
            }
        }
        let action = match self.nodes.get_mut(node_id) {
            Some(node) => {
                proof {
                    node.lemma_view();
                }
                node.close(fc).consume_events(sched)
            },
            None => {
                proof {
                    assert(self.nodes@ =~= mid);
                    assert(self@.nodes =~= pre.nodes);
                    assert(self@.descriptors =~= pre.descriptors);
                    lemma_growth(pre, pre, pre, 0, 1);
                    let found = old(sched).triggered() + pre.close_events(fc, node_id);
                    assert(found =~= old(sched).triggered());
                    assert(sched.triggered().subrange(0, found.len() as int) =~= found);
                    assert(sched.triggered().skip(found.len() as int) =~= Seq::<
                        ExplicitEventId,
                    >::empty());
                }
                return IoResult::Success(());
            },
        };
        let ghost closed = self@;
        let ghost after_close = sched.triggered();
        proof {
            let post = VfsView {
                nodes: pre.nodes.insert(node_id, pre.nodes[node_id].closed(fc)),
                ..pre
            };
            assert(self@.nodes =~= post.nodes);
            assert(self@.descriptors =~= post.descriptors);
            assert forall|other: NodeId| #[trigger]
                self.nodes@.contains_key(other) implies self.nodes@[other].ops().wf() by {
                if other != node_id {
                    assert(mid.contains_key(other));
                }
            }
            lemma_node_update_keeps_wf(pre, self@, node_id);
            assert(closed.referenced_except(node_id)) by {
                assert forall|other: NodeId|
                    other != node_id && #[trigger] closed.nodes.contains_key(
                        other,
                    ) implies closed.nodes[other].refcount > 0 by {
                    assert(pre.nodes.contains_key(other));
                }
            }
            lemma_growth(pre, closed, closed, 0, 0);
        }
        match action {
            IoResultPure::Success(CloseAction::Destroy) => {
                let mut node = self.remove_node(node_id);
                let trigger = node.destroy();
                trigger.run(sched);
                proof {
                    lemma_growth(pre, closed, self@, 0, 1);
                    let found = old(sched).triggered() + pre.close_events(fc, node_id);
                    let tail = trigger@;
                    assert(after_close =~= found);
                    assert(sched.triggered() =~= found + tail);
                    assert(sched.triggered().subrange(0, found.len() as int) =~= found);
                    assert(sched.triggered().skip(found.len() as int) =~= tail);
                    assert(pre.close_destroys(fc, node_id));
                    lemma_remove_keeps_processes(closed, node_id);
                }
            },
            _ => {
                proof {
                    lemma_growth(pre, closed, closed, 0, 1);
                    let found = old(sched).triggered() + pre.close_events(fc, node_id);
                    assert(after_close =~= found);
                    assert(sched.triggered().subrange(0, found.len() as int) =~= found);
                    assert(sched.triggered().skip(found.len() as int) =~= Seq::<
                        ExplicitEventId,
                    >::empty());
                    assert(!pre.close_destroys(fc, node_id));
                    assert forall|other: NodeId| #[trigger]
                        closed.nodes.contains_key(other) implies closed.nodes[other].refcount
                        > 0 by {
                        if other != node_id {
                            assert(pre.nodes.contains_key(other));
                        }
                    }
                }
            },
        }
        IoResult::Success(())
    }

    /// Takes a descriptor out of the table of its process.
    fn drop_descriptor(&mut self, fc: FileClientId)
        requires
            old(self).wf(),
            old(self)@.holds(fc),
        ensures
            final(self).wf(),
            final(self)@ == old(self)@.without_descriptor(fc),
            old(self)@.grew_by(final(self)@, 0),
    {
        let ghost pre = self@;
        let pid = match fc.process {
            Some(pid) => pid,
            None => {
                return ;
            },
        };
        assert(self.descriptors@.contains_key(pid));
        assert(self.descriptors@[pid].wf());
        let ghost tables = self.descriptors@;
        match self.descriptors.get_mut(pid) {
            Some(held) => {
                held.remove(fc.fd);
            },
            None => {},
        }
        proof {
            let post = pre.without_descriptor(fc);
            assert(self@.nodes =~= post.nodes);
            assert(self@.descriptors =~= post.descriptors);
            assert forall|p: ProcessId| #[trigger]
                self.descriptors@.contains_key(p) implies self.descriptors@[p].wf() by {
                if p != pid {
                    assert(tables.contains_key(p));
                }
            }
            assert forall|p: ProcessId, d: FileDescriptor|
                #![trigger self@.descriptors[p].descriptors.contains_key(d)]
                self@.descriptors.contains_key(p) && self@.descriptors[p].descriptors.contains_key(
                    d,
                ) implies d.value() < self@.descriptors[p].next_fd by {
                assert(pre.descriptors.contains_key(p));
                assert(pre.descriptors[p].descriptors.contains_key(d));
            }
            assert forall|p: ProcessId| #[trigger]
                self@.descriptors.contains_key(p) implies self@.descriptors[p].next_fd <= (
            if pre.descriptors.contains_key(p) {
                pre.descriptors[p].next_fd as int
            } else {
                0
            }) + 0 by {
                assert(pre.descriptors.contains_key(p));
            }
            assert forall|id: NodeId| #[trigger]
                self@.nodes.contains_key(id) implies self@.nodes[id].refcount <= (
            if pre.nodes.contains_key(id) {
                pre.nodes[id].refcount as int
            } else {
                0
            }) + 0 by {
                assert(pre.nodes.contains_key(id));
            }
        }
    }

    /// Close a file descriptor (system call)
    pub fn close(&mut self, sched: &mut Scheduler, fc: FileClientId) -> (result: IoResultPure<()>)
        requires
            old(self).wf(),
            old(self)@.referenced(),
            old(self)@.holds(fc),
            old(self)@.has_budget(1),
        ensures
            final(self).wf(),
            final(self)@.referenced(),
            final(self)@ == old(self)@.close(fc),
            final(self)@ == old(self)@.without_descriptor(fc).after_close(
                fc,
                old(self)@.resolve_fc(fc),
            ),
            !final(self)@.holds(fc),
            result == IoResultPure::Success(()),
            woke(
                old(sched).triggered(),
                final(sched).triggered(),
                old(self)@.close_events(fc, old(self)@.resolve_fc(fc)),
                |e: ExplicitEventId| old(self)@.close_wakes(fc, old(self)@.resolve_fc(fc), e),
            ),
            final(sched).next_pid() == old(sched).next_pid(),
            final(sched).spawned() == old(sched).spawned(),
            old(self)@.grew_by(final(self)@, 1),
    {
        let ghost pre = self@;
        let node_id = match self.resolve_fc(fc) {
            IoResultPure::Success(node_id) => node_id,
            _ => {
                return IoResultPure::Success(());
            },
        };
        self.drop_descriptor(fc);
        let ghost dropped = self@;
        proof {
            assert(dropped.referenced());
            lemma_growth(pre, dropped, dropped, 0, 0);
            assert(dropped.close_events(fc, node_id) == pre.close_events(fc, node_id));
            assert(forall|e: ExplicitEventId|
                dropped.close_wakes(fc, node_id, e) == pre.close_wakes(fc, node_id, e));
            lemma_close_keeps_processes(dropped, fc, node_id);
        }
        self.close_removed(sched, fc, node_id).consume_events(sched);
        proof {
            lemma_growth(pre, dropped, self@, 0, 1);
        }
        IoResultPure::Success(())
    }

    /// The next descriptor for `node`: of the owner, where there is one,
    /// and else of the kernel.
    fn owner_descriptor(&mut self, owner: Option<ProcessId>, node: NodeId) -> (fc: FileClientId)
        requires
            old(self).wf(),
            owner matches Some(pid) ==> old(self)@.descriptors.contains_key(pid),
            old(self)@.has_budget(1),
        ensures
            final(self).wf(),
            final(self)@ == old(self)@.with_owner_descriptor(owner, node).0,
            fc == old(self)@.with_owner_descriptor(owner, node).1,
            old(self)@.grew_by(final(self)@, 1),
            old(self)@.referenced() ==> final(self)@.referenced(),
            forall|id: NodeId|
                old(self)@.referenced_except(id) ==> final(self)@.referenced_except(id),
            final(self)@.nodes == old(self)@.nodes,
    {
        let ghost pre = self@;
        match owner {
            Some(pid) => self.create_descriptor(pid, node),
            None => {
                let fc = self.take_kernel_fc();
                proof {
                    crate::filesystem::lemma_growth_of_counters(pre, self@, 1);
                }
                fc
            },
        }
    }

    /// Gives a process that was started its node under `/prc` and its
    /// table of descriptors, and opens the node for the owner.
    fn register(&mut self, sched: &mut Scheduler, new_pid: ProcessId, owner: Option<ProcessId>, fc: FileClientId) -> (result:
        IoResultPure<FileClientId>)
        requires
            old(self).wf(),
            owner matches Some(pid) ==> old(self)@.descriptors.contains_key(pid),
            old(self)@.has_budget(6),
        ensures
            final(self).wf(),
            final(self)@ == old(self)@.register(new_pid, owner, fc).post,
            result == old(self)@.register(new_pid, owner, fc).outcome,
            final(sched).triggered() == old(sched).triggered() + old(self)@.register(
                new_pid,
                owner,
                fc,
            ).events,
            final(sched).next_pid() == old(sched).next_pid(),
            final(sched).spawned() == old(sched).spawned(),
            old(self)@.referenced() ==> final(self)@.referenced(),
            old(self)@.grew_by(final(self)@, 6),
            old(self)@.registered(new_pid, owner, fc) matches Some((post, outcome)) ==> {
                &&& final(self)@ == post
                &&& result == outcome
                &&& final(sched).triggered() == old(sched).triggered()
            },
    {
        let ghost pre = self@;
        // Create a node and descriptors for the process
        let mut path = Path::root();
        proof {
            reveal_strlit("prc");
            assert("prc"@ =~= process_directory());
        }
        path.push("prc");
        assert(path@.components =~= seq![process_directory()]);
        let directory_id = match self.resolve(&path).consume_events(sched) {
            IoResultPure::Success(directory_id) => directory_id,
            other => {
                proof {
                    lemma_growth(pre, self@, self@, 1, 5);
                }
                return other.retype();
            },
        };
        let ghost found = self@;
        proof {
            lemma_growth(pre, found, found, 1, 0);
        }
        let name = decimal_string(new_pid.as_u64());
        let node = Node::new(
            Some(directory_id),
            FileOps::ProcessFile(ProcessFile::new(new_pid, fc)),
        );
        proof {
            node.lemma_view();
            assert(node@.data.stream_clients() =~= Set::<FileClientId>::empty());
        }
        let created = self.create_node(directory_id, name.as_str(), node).consume_events(sched);
        let ghost made = self@;
        proof {
            lemma_growth(pre, found, made, 1, 3);
            lemma_growth(pre, made, made, 4, 0);
            lemma_growth(pre, made, made, 4, 2);
            let first = pre.resolve(seq![process_directory()]);
            let second = found.create_node_with(
                directory_id,
                name@,
                BuilderView::Ready(node@),
            );
            assert(sched.triggered() =~= old(sched).triggered() + (first.events + second.events));
            lemma_created_node_exists(found, directory_id, name@, BuilderView::Ready(node@));
        }
        let node_id = match created {
            IoResultPure::Success(node_id) => node_id,
            other => {
                return other.retype();
            },
        };
        self.add_process(new_pid, node_id);
        let ghost known = self@;
        proof {
            lemma_growth(pre, made, known, 4, 0);
            lemma_growth(pre, known, known, 4, 0);
        }

        // Open a file descriptor to the process for the owner
        let fc = self.owner_descriptor(owner, node_id);
        let ghost held = self@;
        proof {
            lemma_growth(pre, known, held, 4, 1);
            lemma_growth(pre, held, held, 5, 0);
        }
        self.open_node(node_id, Some(fc));
        proof {
            lemma_growth(pre, held, self@, 5, 1);
        }
        IoResultPure::Success(fc)
    }

    /// Gives a process an empty table of descriptors.
    fn add_process(&mut self, pid: ProcessId, node_id: NodeId)
        requires
            old(self).wf(),
        ensures
            final(self).wf(),
            final(self)@ == (VfsView {
                descriptors: old(self)@.descriptors.insert(
                    pid,
                    DescriptorsView {
                        node_id,
                        descriptors: Map::empty(),
                        order: Seq::empty(),
                        next_fd: 0,
                    },
                ),
                ..old(self)@
            }),
            old(self)@.grew_by(final(self)@, 0),
            old(self)@.referenced() ==> final(self)@.referenced(),
            forall|id: NodeId|
                old(self)@.referenced_except(id) ==> final(self)@.referenced_except(id),
    {
        let ghost pre = self@;
        let ghost tables = self.descriptors@;
        assert(forall|p: ProcessId| #[trigger]
            self.descriptors@.contains_key(p) ==> self.descriptors@[p].wf());
        self.descriptors.insert(pid, ProcessDescriptors::new(node_id));
        proof {
            assert(self@.nodes =~= pre.nodes);
            assert(self@.descriptors =~= pre.descriptors.insert(
                pid,
                DescriptorsView {
                    node_id,
                    descriptors: Map::empty(),
                    order: Seq::empty(),
                    next_fd: 0,
                },
            ));
            assert forall|p: ProcessId| #[trigger]
                self.descriptors@.contains_key(p) implies self.descriptors@[p].wf() by {
                if p != pid {
                    assert(tables.contains_key(p));
                }
            }
            assert forall|p: ProcessId, d: FileDescriptor|
                #![trigger self@.descriptors[p].descriptors.contains_key(d)]
                self@.descriptors.contains_key(p) && self@.descriptors[p].descriptors.contains_key(
                    d,
                ) implies d.value() < self@.descriptors[p].next_fd by {
                if p != pid {
                    assert(pre.descriptors.contains_key(p));
                    assert(pre.descriptors[p].descriptors.contains_key(d));
                }
            }
            assert forall|p: ProcessId| #[trigger]
                self@.descriptors.contains_key(p) implies self@.descriptors[p].next_fd <= (
            if pre.descriptors.contains_key(p) {
                pre.descriptors[p].next_fd as int
            } else {
                0
            }) + 0 by {
                if p != pid {
                    assert(pre.descriptors.contains_key(p));
                }
            }
            assert forall|id: NodeId| #[trigger]
                self@.nodes.contains_key(id) implies self@.nodes[id].refcount <= (
            if pre.nodes.contains_key(id) {
                pre.nodes[id].refcount as int
            } else {
                0
            }) + 0 by {
                assert(pre.nodes.contains_key(id));
            }
        }
    }

    /// Loads the image at `path` and opens the file for the owner of the
    /// process to be, or for the kernel.
    fn open_executable(&mut self, sched: &mut Scheduler, path: &str, owner_pid: Option<ProcessId>) -> (result:
        IoResultPure<(ElfImage, FileClientId)>)
        requires
            old(self).wf(),
            absolute(path@),
            owner_pid matches Some(pid) ==> old(self)@.descriptors.contains_key(pid),
            old(self)@.has_budget(2 * split(path@).len() + 3),
        ensures
            final(self).wf(),
            final(self)@ == old(self)@.open_executable(split(path@), owner_pid).post,
            match old(self)@.open_executable(split(path@), owner_pid).outcome {
                IoResultPure::Success((bytes, fc)) => result matches IoResultPure::Success(opened)
                    && opened.0@ == bytes && opened.1 == fc,
                other => result == other.retyped::<(ElfImage, FileClientId)>(),
            },
            final(sched).triggered() == old(sched).triggered() + old(self)@.open_executable(
                split(path@),
                owner_pid,
            ).events,
            final(sched).next_pid() == old(sched).next_pid(),
            final(sched).spawned() == old(sched).spawned(),
            old(self)@.referenced() ==> final(self)@.referenced(),
            old(self)@.grew_by(final(self)@, 2 * split(path@).len() + 3),
            forall|pid: ProcessId|
                old(self)@.descriptors.contains_key(pid) ==> final(self)@.descriptors.contains_key(
                    pid,
                ),
            old(self)@.opened_at(split(path@), owner_pid) matches Some(step) ==> {
                &&& final(self)@ == step.post
                &&& final(sched).triggered() == old(sched).triggered() + step.events
                &&& match step.outcome {
                    IoResultPure::Success((bytes, fc)) => result matches IoResultPure::Success(opened)
                        && opened.0@ == bytes && opened.1 == fc,
                    other => result == other.retyped::<(ElfImage, FileClientId)>(),
                }
            },
    {
        let ghost pre = self@;
        let ghost names = split(path@);
        let ghost n = names.len();
        let ghost step = pre.open_executable(names, owner_pid);
        // Load elf image
        let elfimage = match self.load_module(path).consume_events(sched) {
            IoResultPure::Success(elfimage) => elfimage,
            other => {
                proof {
                    lemma_growth(pre, self@, self@, n + 1, n + 2);
                    lemma_read_file_keeps_tables(pre, names);
                }
                return other.retype();
            },
        };
        let ghost loaded = self@;
        proof {
            lemma_growth(pre, loaded, loaded, n + 1, 0);
            lemma_read_file_keeps_tables(pre, names);
        }

        // Open the executable file for the owner of the process
        let path = Path::new(path);
        let owner_node_id = match self.resolve(&path).consume_events(sched) {
            IoResultPure::Success(owner_node_id) => owner_node_id,
            other => {
                proof {
                    lemma_growth(pre, loaded, self@, n + 1, n);
                    lemma_growth(pre, self@, self@, 2 * n + 1, 2);
                    assert(sched.triggered() =~= old(sched).triggered() + step.events);
                }
                return other.retype();
            },
        };
        let ghost found = self@;
        proof {
            lemma_growth(pre, loaded, found, n + 1, n);
            lemma_growth(pre, found, found, 2 * n + 1, 0);
            assert(sched.triggered() =~= old(sched).triggered() + step.events);
        }
        let fc = self.owner_descriptor(owner_pid, owner_node_id);
        let ghost held = self@;
        proof {
            lemma_growth(pre, found, held, 2 * n + 1, 1);
            lemma_growth(pre, held, held, 2 * n + 2, 0);
        }
        let opened = self.open_node(owner_node_id, None);
        proof {
            lemma_growth(pre, held, self@, 2 * n + 2, 1);
        }
        if opened {
            IoResultPure::Success((elfimage, fc))
        } else {
            IoResultPure::Error(ErrorCode::fs_file_destroyed)
        }
    }

    /// Starts a process from the file at `path`, for an owner or, without
    /// one, for the kernel.
    fn exec_optional_owner(&mut self, sched: &mut Scheduler, path: &str, owner_pid: Option<ProcessId>) -> (result:
        IoResult<FileClientId>)
        requires
            old(self).wf(),
            absolute(path@),
            owner_pid matches Some(pid) ==> old(self)@.descriptors.contains_key(pid),
            old(self)@.has_budget(2 * split(path@).len() + 9),
            old(sched).has_room(1),
        ensures
            final(self).wf(),
            exec_done(
                old(self)@.exec(old(sched).next_pid(), split(path@), owner_pid),
                *old(sched),
                final(self)@,
                *final(sched),
            ),
            result.events() == Seq::<ExplicitEventId>::empty(),
            result.pure() == old(self)@.exec(
                old(sched).next_pid(),
                split(path@),
                owner_pid,
            ).outcome,
            old(self)@.referenced() ==> final(self)@.referenced(),
            old(self)@.grew_by(final(self)@, 2 * split(path@).len() + 9),
            old(self)@.started(old(sched).next_pid(), split(path@), owner_pid) matches Some(step) ==> {
                &&& exec_done(step, *old(sched), final(self)@, *final(sched))
                &&& result.pure() == step.outcome
            },
            ({
                let opened = old(self)@.open_executable(split(path@), owner_pid);
                opened.outcome matches IoResultPure::Success(got) ==> (opened.post.registered(
                    old(sched).next_pid(),
                    owner_pid,
                    got.1,
                ) matches Some((post, outcome)) ==> {
                    &&& final(self)@ == post
                    &&& result.pure() == outcome
                    &&& final(sched).triggered() == old(sched).triggered() + opened.events
                })
            }),
    {
        let ghost pre = self@;
        let ghost n = split(path@).len();
        proof {
            lemma_growth(pre, pre, pre, 0, 0);
        }
        let (elfimage, fc) = match self.open_executable(sched, path, owner_pid) {
            IoResultPure::Success(opened) => opened,
            other => {
                proof {
                    lemma_growth(pre, self@, self@, 2 * n + 3, 6);
                }
                return other.retype().into_result();
            },
        };
        let ghost opened = self@;
        let ghost woken = sched.triggered();
        proof {
            lemma_growth(pre, opened, opened, 2 * n + 3, 0);
        }

        // Spawn the new process
        let new_pid = sched.spawn(elfimage);

        let result = self.register(sched, new_pid, owner_pid, fc);
        proof {
            lemma_growth(pre, opened, self@, 2 * n + 3, 6);
            let first = pre.open_executable(split(path@), owner_pid);
            let second = opened.register(new_pid, owner_pid, fc);
            assert(sched.triggered() =~= old(sched).triggered() + (first.events + second.events));
        }
        result.into_result()
    }

    /// Exec a file (system call)
    pub fn exec(&mut self, sched: &mut Scheduler, owner_pid: ProcessId, path: &str) -> (result:
        IoResultPure<FileClientId>)
        requires
            old(self).wf(),
            absolute(path@),
            old(self)@.descriptors.contains_key(owner_pid),
            old(self)@.has_budget(2 * split(path@).len() + 9),
            old(sched).has_room(1),
        ensures
            final(self).wf(),
            exec_done(
                old(self)@.exec(old(sched).next_pid(), split(path@), Some(owner_pid)),
                *old(sched),
                final(self)@,
                *final(sched),
            ),
            result == old(self)@.exec(
                old(sched).next_pid(),
                split(path@),
                Some(owner_pid),
            ).outcome,
            old(self)@.referenced() ==> final(self)@.referenced(),
            old(self)@.grew_by(final(self)@, 2 * split(path@).len() + 9),
            old(self)@.started(old(sched).next_pid(), split(path@), Some(owner_pid)) matches Some(step) ==> {
                &&& exec_done(step, *old(sched), final(self)@, *final(sched))
                &&& result == step.outcome
            },
            ({
                let opened = old(self)@.open_executable(split(path@), Some(owner_pid));
                opened.outcome matches IoResultPure::Success(got) ==> (opened.post.registered(
                    old(sched).next_pid(),
                    Some(owner_pid),
                    got.1,
                ) matches Some((post, outcome)) ==> {
                    &&& final(self)@ == post
                    &&& result == outcome
                    &&& final(sched).triggered() == old(sched).triggered() + opened.events
                })
            }),
    {
        let result = self.exec_optional_owner(sched, path, Some(owner_pid));
        let ghost woken = sched.triggered();
        let result = result.consume_events(sched);
        assert(sched.triggered() =~= woken);
        result
    }

    /// Exec a file without a parent process, i.e. init
    pub fn kernel_exec(&mut self, sched: &mut Scheduler, path: &str) -> (result: IoResult<
        FileClientId,
    >)
        requires
            old(self).wf(),
            absolute(path@),
            old(self)@.has_budget(2 * split(path@).len() + 9),
            old(sched).has_room(1),
        ensures
            final(self).wf(),
            exec_done(
                old(self)@.exec(old(sched).next_pid(), split(path@), None),
                *old(sched),
                final(self)@,
                *final(sched),
            ),
            result.events() == Seq::<ExplicitEventId>::empty(),
            result.pure() == old(self)@.exec(old(sched).next_pid(), split(path@), None).outcome,
            old(self)@.referenced() ==> final(self)@.referenced(),
            old(self)@.grew_by(final(self)@, 2 * split(path@).len() + 9),
            old(self)@.started(old(sched).next_pid(), split(path@), None) matches Some(step) ==> {
                &&& exec_done(step, *old(sched), final(self)@, *final(sched))
                &&& result.pure() == step.outcome
            },
            ({
                let opened = old(self)@.open_executable(split(path@), None);
                opened.outcome matches IoResultPure::Success(got) ==> (opened.post.registered(
                    old(sched).next_pid(),
                    None,
                    got.1,
                ) matches Some((post, outcome)) ==> {
                    &&& final(self)@ == post
                    &&& result.pure() == outcome
                    &&& final(sched).triggered() == old(sched).triggered() + opened.events
                })
            }),
    {
        self.exec_optional_owner(sched, path, None)
    }

    /// Update when a process completes.
    /// Stores the encoded result of the process in the node of the process,
    /// as far as the node is still there. Then closes all files opened by
    /// the process, and sends wakeup signals for them if required.
    pub fn on_process_over(&mut self, sched: &mut Scheduler, pid: ProcessId, status: &[u8])
        requires
            old(self).wf(),
            old(self)@.referenced(),
            old(self)@.descriptors.contains_key(pid) ==> old(self)@.has_budget(
                old(self)@.descriptors[pid].order.len() + 1,
            ),
        ensures
            final(self).wf(),
            final(self)@.referenced(),
            final(self)@ == old(self)@.on_process_over(pid, status@),
            final(self)@ == (if old(self)@.descriptors.contains_key(pid) {
                old(self)@.report(pid, status@).post.after_close_all(
                    pid,
                    old(self)@.descriptors[pid],
                    0,
                )
            } else {
                old(self)@
            }),
            !final(self)@.descriptors.contains_key(pid),
            old(self)@.descriptors.contains_key(pid) ==> woke_all(
                old(sched).triggered(),
                final(sched).triggered(),
                old(self)@.report(pid, status@).events,
                |e: ExplicitEventId|
                    old(self)@.report(pid, status@).post.close_all_wakes(
                        pid,
                        old(self)@.descriptors[pid],
                        0,
                        e,
                    ),
            ),
            !old(self)@.descriptors.contains_key(pid) ==> *final(sched) == *old(sched),
            final(sched).next_pid() == old(sched).next_pid(),
            final(sched).spawned() == old(sched).spawned(),
    {
        let ghost pre = self@;
        let ghost tables = self.descriptors@;
        assert(forall|p: ProcessId| #[trigger]
            self.descriptors@.contains_key(p) ==> self.descriptors@[p].wf());
        let pd = match self.descriptors.remove(pid) {
            Some(pd) => pd,
            None => {
                proof {
                    assert(self.descriptors@ =~= tables);
                    assert(self@.nodes =~= pre.nodes);
                    assert(self@.descriptors =~= pre.descriptors);
                }
                return ;
            },
        };
        let ghost held = pre.descriptors[pid];
        let ghost gone = pre.without_process(pid);
        proof {
            assert(pd@ == held);
            assert(self@.nodes =~= gone.nodes);
            assert(self@.descriptors =~= gone.descriptors);
            assert forall|p: ProcessId| #[trigger]
                self.descriptors@.contains_key(p) implies self.descriptors@[p].wf() by {
                assert(tables.contains_key(p));
            }
            assert forall|p: ProcessId, d: FileDescriptor|
                #![trigger self@.descriptors[p].descriptors.contains_key(d)]
                self@.descriptors.contains_key(p) && self@.descriptors[p].descriptors.contains_key(
                    d,
                ) implies d.value() < self@.descriptors[p].next_fd by {
                assert(pre.descriptors.contains_key(p));
                assert(pre.descriptors[p].descriptors.contains_key(d));
            }
            assert(gone.has_budget(held.order.len() + 1)) by {
                assert forall|p: ProcessId| #[trigger]
                    gone.descriptors.contains_key(p) implies gone.descriptors[p].next_fd
                    + held.order.len() + 1 <= u64::MAX by {
                    assert(pre.descriptors.contains_key(p));
                }
            }
        }

        // Inform process about its status.
        // The node will not exist iff all process having access to
        // it's result are already dead. In this case the status
        // doesn't have to be stored
        if self.nodes.contains_key(pd.node_id) {
            let _ = self.temp_open_write(pd.node_id, status).consume_events(sched);
            proof {
                lemma_growth(gone, self@, self@, 1, 0);
                lemma_temp_write_keeps_processes(gone, pd.node_id, status@);
            }
        } else {
            proof {
                assert(sched.triggered() =~= old(sched).triggered() + Seq::<
                    ExplicitEventId,
                >::empty());
                lemma_growth(gone, gone, gone, 0, 0);
                crate::filesystem::lemma_growth_of_counters(gone, gone, 1);
                lemma_growth(gone, gone, gone, 1, 0);
            }
        }
        let ghost reported = self@;
        let ghost base = sched.triggered();

        // Close files process was holding open
        let count = pd.descriptors.len();
        let mut i: usize = 0;
        proof {
            assert(base.skip(base.len() as int) =~= Seq::<ExplicitEventId>::empty());
            assert(base.subrange(0, base.len() as int) =~= base);
        }
        while i < count
            invariant
                i <= count,
                count == held.order.len(),
                pd.wf(),
                pd@ == held,
                self.wf(),
                self@.referenced(),
                self@.has_budget((count - i) as nat),
                !self@.descriptors.contains_key(pid),
                reported.close_all(pid, held, 0) == self@.close_all(pid, held, i as nat),
                reported.after_close_all(pid, held, 0) == self@.after_close_all(
                    pid,
                    held,
                    i as nat,
                ),
                base.len() <= sched.triggered().len(),
                sched.triggered().subrange(0, base.len() as int) == base,
                forall|e: ExplicitEventId|
                    reported.close_all_wakes(pid, held, 0, e) <==> sched.triggered().skip(
                        base.len() as int,
                    ).contains(e) || self@.close_all_wakes(pid, held, i as nat, e),
                sched.next_pid() == old(sched).next_pid(),
                sched.spawned() == old(sched).spawned(),
            decreases count - i,
        {
            let fd = pd.descriptors.key_at(i);
            let node_id = *pd.descriptors.value_at(i);
            let fc = FileClientId::process(pid, fd);
            let ghost before = self@;
            let ghost woken = sched.triggered();
            proof {
                lemma_table_entries(&pd.descriptors, i as int);
                assert(node_id == held.descriptors[fd]);
            }
            let _ = self.close_removed(sched, fc, node_id);
            proof {
                lemma_growth(before, self@, self@, 1, 0);
                let events = before.close_events(fc, node_id);
                let found = woken + events;
                let tail = sched.triggered().skip(found.len() as int);
                assert(sched.triggered() =~= found + tail);
                assert(sched.triggered().subrange(0, base.len() as int) =~= base);
                let since = woken.skip(base.len() as int);
                assert(woken =~= base + since);
                assert(sched.triggered().skip(base.len() as int) =~= since + events + tail);
                assert forall|e: ExplicitEventId|
                    reported.close_all_wakes(pid, held, 0, e) <==> sched.triggered().skip(
                        base.len() as int,
                    ).contains(e) || self@.close_all_wakes(pid, held, (i + 1) as nat, e) by {
                    let all = since + events + tail;
                    if all.contains(e) {
                        let k = choose|k: int| 0 <= k < all.len() && all[k] == e;
                        if k < since.len() {
                            assert(since[k] == e);
                        } else if k < since.len() + events.len() {
                            assert(events[k - since.len()] == e);
                        } else {
                            assert(tail[k - since.len() - events.len()] == e);
                        }
                    }
                    if since.contains(e) {
                        let k = choose|k: int| 0 <= k < since.len() && since[k] == e;
                        assert(all[k] == e);
                    }
                    if events.contains(e) {
                        let k = choose|k: int| 0 <= k < events.len() && events[k] == e;
                        assert(all[since.len() + k] == e);
                    }
                    if tail.contains(e) {
                        let k = choose|k: int| 0 <= k < tail.len() && tail[k] == e;
                        assert(all[since.len() + events.len() + k] == e);
                    }
                }
            }
            i += 1;
        }
    }

    /// Makes the nodes of `layout`, one after the other, each with a
    /// reference that keeps it for good.
    #[verifier::rlimit(50)]
    pub fn create_all(&mut self, layout: Vec<(Path, FileOps)>) -> (result: IoResult<()>)
        requires
            old(self).wf(),
            forall|k: int|
                0 <= k < layout@.len() ==> (#[trigger] layout@[k]).0@.absolute && 0
                    < layout@[k].0@.components.len() <= 2 && layout@[k].1.wf() && is_plain(
                    layout@[k].1@,
                ),
            old(self)@.has_budget(5 * layout@.len()),
        ensures
            final(self).wf(),
            final(self)@ == old(self)@.create_all(layout_view(layout@), 0).post,
            matches_step(result, old(self)@.create_all(layout_view(layout@), 0)),
            old(self)@.referenced() ==> final(self)@.referenced(),
            old(self)@.grew_by(final(self)@, 5 * layout@.len()),
            old(self)@.made_all(layout_view(layout@), 0) matches Some((post, outcome)) ==> {
                &&& final(self)@ == post
                &&& result.pure() == outcome
                &&& result.events() == Seq::<ExplicitEventId>::empty()
            },
    {
        let ghost plan = layout_view(layout@);
        let mut entries = layout;
        let ghost target = old(self)@.create_all(plan, 0);
        let mut ctx = IoContext::new();
        let count = entries.len();
        let mut i: usize = 0;
        proof {
            lemma_growth(old(self)@, old(self)@, old(self)@, 0, 0);
            assert(ctx@ + self@.create_all(plan, 0).events =~= self@.create_all(plan, 0).events);
            crate::filesystem::lemma_growth_of_counters(old(self)@, self@, 0);
        }
        while i < count
            invariant
                i <= count,
                count == entries@.len(),
                plan == layout_view(layout@),
                target == old(self)@.create_all(plan, 0),
                count == plan.len(),
                self.wf(),
                self@.has_budget((5 * (count - i)) as nat),
                old(self)@.referenced() ==> self@.referenced(),
                old(self)@.grew_by(self@, (5 * i) as nat),
                forall|k: int|
                    i <= k < entries@.len() ==> (#[trigger] entries@[k]).0@.absolute && 0
                        < entries@[k].0@.components.len() <= 2 && entries@[k].1.wf() && is_plain(
                        entries@[k].1@,
                    ) && plan[k] == (entries@[k].0@.components, entries@[k].1@),
                target == (Step {
                    events: ctx@ + self@.create_all(plan, i as nat).events,
                    ..self@.create_all(plan, i as nat)
                }),
                old(self)@.made_all(plan, 0).is_some() ==> ctx@ == Seq::<ExplicitEventId>::empty()
                    && self@.made_all(plan, i as nat) == old(self)@.made_all(plan, 0),
            decreases count - i,
        {
            let ghost before = self@;
            let ghost ctx_before = ctx@;
            let ghost entry = entries@[i as int];
            let mut dev = FileOps::NullDevice;
            std::mem::swap(&mut entries[i].1, &mut dev);
            assert(dev == entry.1);
            let (made, new_ctx) = self.create_static(&entries[i].0, dev).separate_events();
            ctx.consume(new_ctx);
            proof {
                let n = entry.0@.components.len();
                lemma_growth(before, self@, self@, n + 3, 0);
                lemma_growth(old(self)@, before, self@, (5 * i) as nat, n + 3);
                lemma_growth(old(self)@, self@, self@, (5 * i + n + 3) as nat, 0);
                let step = before.create_static(plan[i as int].0, plan[i as int].1);
                let rest = self@.create_all(plan, (i + 1) as nat);
                assert(ctx@ + rest.events =~= ctx_before + (step.events + rest.events));
            }
            match made {
                IoResultPure::Success(_) => {},
                other => {
                    return other.retype().with_context(ctx);
                },
            }
            i += 1;
        }
        proof {
            assert(ctx@ + Seq::<ExplicitEventId>::empty() =~= ctx@);
        }
        IoResultPure::Success(()).with_context(ctx)
    }

    /// The encoded listing of a branch in the table reads back as the
    /// listing.
    pub proof fn lemma_node_readable(&self, id: NodeId)
        requires
            self.wf(),
            self@.nodes.contains_key(id),
        ensures
            self@.nodes[id].data matches FileOpsView::Internal(b) ==> b.readable(),
    {
        let node = self.nodes@[id];
        assert(self.nodes@.contains_key(id));
        assert(node.ops().wf());
        node.lemma_view();
        match node.ops() {
            FileOps::InternalBranch(b) => {
                b.lemma_readable();
            },
            _ => {},
        }
    }

    /// The number of entries in the table of nodes.
    pub closed spec fn node_count(&self) -> nat {
        self.nodes.spec_len()
    }

    /// There are as many nodes as the table of nodes has entries.
    pub proof fn lemma_node_count(&self)
        requires
            self.wf(),
        ensures
            self@.nodes.dom().finite(),
            self@.nodes.dom().len() == self.node_count(),
    {
        let keys = self.nodes.keys();
        assert(self@.nodes.dom() =~= keys.to_set());
        vstd::seq_lib::seq_to_set_is_finite(keys);
        keys.unique_seq_to_set();
    }

    /// Node ancestry in order [node, ..., root], or None if not connected
    /// to root
    pub fn node_ancestors(&self, node_id: NodeId) -> (result: IoResultPure<Option<Vec<NodeId>>>)
        requires
            self.wf(),
        ensures
            match self@.node_ancestors(node_id) {
                IoResultPure::Success(Some(chain)) => result matches IoResultPure::Success(
                    Some(v),
                ) && v@ == chain,
                IoResultPure::Success(None) => result matches IoResultPure::Success(None),
                other => result == other.retyped::<Option<Vec<NodeId>>>(),
            },
    {
        let ghost total = self@.nodes.dom().len();
        proof {
            self.lemma_node_count();
        }
        let mut fuel = self.nodes.len();
        let mut ancestry: Vec<NodeId> = Vec::new();
        ancestry.push(node_id);
        let mut last = node_id;
        proof {
            assert(ancestry@.drop_last() =~= Seq::<NodeId>::empty());
        }
        loop
            invariant
                self.wf(),
                ancestry@.len() > 0,
                last == ancestry@.last(),
                total == self@.nodes.dom().len(),
                self@.ancestry(node_id, total) == lifted(
                    ancestry@.drop_last(),
                    self@.ancestry(last, fuel as nat),
                ),
            ensures
                self@.ancestry(node_id, total) == Ancestry::Top(ancestry@),
                ancestry@.len() > 0,
                last == ancestry@.last(),
            decreases fuel,
        {
            let parent = match self.node(last) {
                IoResultPure::Success(node) => node.parent(),
                _ => {
                    return IoResultPure::Error(ErrorCode::fs_file_destroyed);
                },
            };
            match parent {
                Some(parent) => {
                    if fuel == 0 {
                        return IoResultPure::Success(None);
                    }
                    proof {
                        let before = ancestry@;
                        let rest = self@.ancestry(parent, (fuel - 1) as nat);
                        assert(before.push(parent).drop_last() =~= before);
                        assert(before =~= before.drop_last() + seq![last]);
                        match rest {
                            Ancestry::Top(chain) => {
                                assert(before.drop_last() + (seq![last] + chain) =~= before
                                    + chain);
                            },
                            _ => {},
                        }
                    }
                    fuel -= 1;
                    ancestry.push(parent);
                    last = parent;
                },
                None => {
                    proof {
                        assert(ancestry@.drop_last() + seq![last] =~= ancestry@);
                    }
                    break ;
                },
            }
        }
        let root = NodeId::first();
        proof {
            lemma_node_id_of_value(1, root);
        }
        if last == root {
            IoResultPure::Success(Some(ancestry))
        } else {
            IoResultPure::Success(None)
        }
    }

    /// Resolve path from node, if any
    /// This is only for creating debug strings, as it can return None even
    /// when a path exists
    pub fn debug_node_id_to_path(&mut self, sched: &mut Scheduler, node_id: NodeId) -> (path: Option<
        PathBuf,
    >)
        requires
            old(self).wf(),
            old(self)@.has_budget(old(self)@.nodes.dom().len() + 1),
        ensures
            final(self).wf(),
            old(self)@.referenced() ==> final(self)@.referenced(),
            match old(self)@.node_ancestors(node_id) {
                IoResultPure::Success(Some(chain)) => {
                    let walked = old(self)@.names_along(chain);
                    &&& final(self)@ == walked.post
                    &&& final(sched).triggered() == old(sched).triggered() + walked.events
                    &&& match walked.outcome {
                        IoResultPure::Success(names) => path matches Some(p) && p@.absolute
                            && p@.components == names,
                        _ => path.is_none(),
                    }
                },
                _ => path.is_none() && final(self)@ == old(self)@ && final(sched).triggered()
                    == old(sched).triggered(),
            },
            final(sched).next_pid() == old(sched).next_pid(),
            final(sched).spawned() == old(sched).spawned(),
    {
        let ghost pre = self@;
        let mut ancestors = match self.node_ancestors(node_id) {
            IoResultPure::Success(Some(ancestors)) => ancestors,
            _ => {
                return None;
            },
        };
        let ghost chain = ancestors@;
        let ghost target = pre.names_along(chain);
        proof {
            self.lemma_node_count();
            lemma_ancestry_is_short(pre, node_id, pre.nodes.dom().len());
            lemma_growth(pre, pre, pre, 0, 0);
            assert(sched.triggered() + target.events =~= old(sched).triggered() + target.events);
        }
        let mut pb = Path::root();
        let ghost woken = old(sched).triggered();
        while ancestors.len() > 1
            invariant
                self.wf(),
                ancestors@.len() >= 1,
                self@.has_budget(ancestors@.len()),
                old(self)@.referenced() ==> self@.referenced(),
                pb@.absolute,
                sched.next_pid() == old(sched).next_pid(),
                sched.spawned() == old(sched).spawned(),
                woken == old(sched).triggered(),
                old(self)@.node_ancestors(node_id) == IoResultPure::Success(Some(chain)),
                target == old(self)@.names_along(chain),
                target.post == self@.names_along(ancestors@).post,
                target.events == sched.triggered().skip(woken.len() as int) + self@.names_along(
                    ancestors@,
                ).events,
                woken.len() <= sched.triggered().len(),
                sched.triggered().subrange(0, woken.len() as int) == woken,
                target.outcome == (match self@.names_along(ancestors@).outcome {
                    IoResultPure::Success(names) => IoResultPure::Success(pb@.components + names),
                    other => other,
                }),
            decreases ancestors@.len(),
        {
            let ghost before = self@;
            let ghost before_chain = ancestors@;
            let ghost since = sched.triggered().skip(woken.len() as int);
            let parent_id = match ancestors.pop() {
                Some(parent_id) => parent_id,
                None => {
                    return None;
                },
            };
            let child_id = ancestors[ancestors.len() - 1];
            assert(ancestors@ =~= before_chain.drop_last());
            let children = match self.get_children(parent_id).consume_events(sched) {
                IoResultPure::Success(children) => children,
                _ => {
                    // path blocked by non-resolving node (possibly an attachment)
                    proof {
                        let listed = before.get_children(parent_id);
                        assert(sched.triggered() =~= woken + (since + listed.events));
                        assert(old(sched).triggered() + target.events =~= sched.triggered());
                    }
                    return None;
                },
            };
            proof {
                let listed = before.get_children(parent_id);
                lemma_growth(before, self@, self@, 1, 0);
                assert(sched.triggered() =~= woken + (since + listed.events));
                assert(sched.triggered().skip(woken.len() as int) =~= since + listed.events);
                assert(sched.triggered().subrange(0, woken.len() as int) =~= woken);
                let rest = self@.names_along(ancestors@);
                assert(since + (listed.events + rest.events) =~= (since + listed.events)
                    + rest.events);
            }
            proof {
                listing_ids(children_view(children@)).index_of_first_ensures(child_id);
            }
            match find_name_of(&children, child_id) {
                Some(name) => {
                    let ghost names_before = pb@.components;
                    pb.push(name.as_str());
                    proof {
                        let i = listing_ids(children_view(children@)).index_of_first(
                            child_id,
                        ).unwrap();
                        assert(children_view(children@)[i].1 == name@);
                        match self@.names_along(ancestors@).outcome {
                            IoResultPure::Success(names) => {
                                assert(names_before + (seq![name@] + names) =~= pb@.components
                                    + names);
                            },
                            _ => {},
                        }
                    }
                },
                None => {
                    proof {
                        assert(old(sched).triggered() + target.events =~= sched.triggered());
                    }
                    return None;
                },
            }
        }
        proof {
            assert(pb@.components + Seq::<Seq<char>>::empty() =~= pb@.components);
            assert(sched.triggered() =~= woken + sched.triggered().skip(woken.len() as int));
            assert(sched.triggered().skip(woken.len() as int) + Seq::<ExplicitEventId>::empty()
                =~= sched.triggered().skip(woken.len() as int));
        }
        Some(pb)
    }

    /// Whether a process has a table of descriptors.
    pub fn has_process(&self, pid: ProcessId) -> (b: bool)
        requires
            self.wf(),
        ensures
            b == self@.descriptors.contains_key(pid),
    {
        self.descriptors.contains_key(pid)
    }

    /// How many descriptors a process holds.
    pub fn descriptor_count(&self, pid: ProcessId) -> (n: Option<usize>)
        requires
            self.wf(),
        ensures
            match n {
                Some(n) => self@.descriptors.contains_key(pid) && n
                    == self@.descriptors[pid].order.len(),
                None => !self@.descriptors.contains_key(pid),
            },
    {
        match self.descriptors.get(pid) {
            Some(held) => {
                assert(self.descriptors@[pid].wf());
                Some(held.descriptors.len())
            },
            None => None,
        }
    }

    /// How many nodes there are.
    pub fn len(&self) -> (n: usize)
        requires
            self.wf(),
        ensures
            self@.nodes.dom().finite(),
            n == self@.nodes.dom().len(),
    {
        proof {
            self.lemma_node_count();
        }
        self.nodes.len()
    }

    /// Whether every counter can be advanced `n` more times.
    pub fn has_budget(&self, n: u64) -> (b: bool)
        requires
            self.wf(),
        ensures
            b == self@.has_budget(n as nat),
    {
        if self.next_node_id.as_u64() > u64::MAX - n || self.next_kernel_fd.as_u64() > u64::MAX - n
            || !self.events.has_room_for(n) {
            return false;
        }
        let mut i: usize = 0;
        while i < self.nodes.len()
            invariant
                self.wf(),
                i <= self.nodes.spec_len(),
                forall|k: int|
                    0 <= k < i ==> (#[trigger] self.nodes.values()[k])@.refcount + n <= u64::MAX,
            decreases self.nodes.spec_len() - i,
        {
            if self.nodes.value_at(i).refcount() > u64::MAX - n {
                proof {
                    lemma_table_entries(&self.nodes, i as int);
                    assert(self@.nodes.contains_key(self.nodes.keys()[i as int]));
                }
                return false;
            }
            i += 1;
        }
        let mut j: usize = 0;
        while j < self.descriptors.len()
            invariant
                self.wf(),
                j <= self.descriptors.spec_len(),
                forall|k: int|
                    0 <= k < j ==> (#[trigger] self.descriptors.values()[k])@.next_fd + n
                        <= u64::MAX,
            decreases self.descriptors.spec_len() - j,
        {
            if self.descriptors.value_at(j).next_fd.as_u64() > u64::MAX - n {
                proof {
                    lemma_table_entries(&self.descriptors, j as int);
                    assert(self@.descriptors.contains_key(self.descriptors.keys()[j as int]));
                }
                return false;
            }
            j += 1;
        }
        proof {
            assert forall|id: NodeId| #[trigger] self@.nodes.contains_key(id) implies self@.nodes[id].refcount
                + n <= u64::MAX by {
                let k = self.nodes.keys().index_of(id);
                lemma_table_entries(&self.nodes, k);
            }
            assert forall|pid: ProcessId| #[trigger]
                self@.descriptors.contains_key(pid) implies self@.descriptors[pid].next_fd + n
                <= u64::MAX by {
                let k = self.descriptors.keys().index_of(pid);
                lemma_table_entries(&self.descriptors, k);
            }
        }
        true
    }

    /// Whether every node has a reference.
    pub fn is_referenced(&self) -> (b: bool)
        requires
            self.wf(),
        ensures
            b == self@.referenced(),
    {
        let mut i: usize = 0;
        while i < self.nodes.len()
            invariant
                self.wf(),
                i <= self.nodes.spec_len(),
                forall|k: int| 0 <= k < i ==> (#[trigger] self.nodes.values()[k])@.refcount > 0,
            decreases self.nodes.spec_len() - i,
        {
            if self.nodes.value_at(i).refcount() == 0 {
                proof {
                    lemma_table_entries(&self.nodes, i as int);
                    assert(self@.nodes.contains_key(self.nodes.keys()[i as int]));
                }
                return false;
            }
            i += 1;
        }
        proof {
            assert forall|id: NodeId| #[trigger] self@.nodes.contains_key(id) implies self@.nodes[id].refcount
                > 0 by {
                let k = self.nodes.keys().index_of(id);
                lemma_table_entries(&self.nodes, k);
            }
        }
        true
    }
}

/// What lies below a number lies below every greater one.
pub proof fn lemma_minted_below_grows(file: FileOpsView, next: u64, later: u64)
    requires
        file.minted_below(next),
        next <= later,
    ensures
        file.minted_below(later),
{
}

/// Listing a node, or looking a child up, leaves the descriptors and the
/// next node id as they are, and removes no node.
pub proof fn lemma_listing_keeps_tables(v: VfsView, id: NodeId, name: Seq<char>)
    ensures
        v.get_children(id).post.descriptors == v.descriptors,
        v.get_children(id).post.next_node_id == v.next_node_id,
        v.get_children(id).post.nodes.dom() == v.nodes.dom(),
        v.has_child(id, name).post == v.get_children(id).post,
        v.get_child(id, name).post == v.get_children(id).post,
{
    assert(v.get_children(id).post.nodes.dom() =~= v.nodes.dom());
}

/// A modification of a branch leaves the descriptors and the next node id
/// as they are, and removes no node.
pub proof fn lemma_modify_keeps_tables(
    v: VfsView,
    id: NodeId,
    modification: crate::filesystem::wire::ModificationView,
)
    ensures
        v.modify(id, modification).post.descriptors == v.descriptors,
        v.modify(id, modification).post.next_node_id == v.next_node_id,
        v.modify(id, modification).post.next_event == v.next_event,
        v.modify(id, modification).post.nodes.dom() == v.nodes.dom(),
{
    assert(v.modify(id, modification).post.nodes.dom() =~= v.nodes.dom());
}

/// Taking a node id and linking it mints no event, unless the parent is
/// served by a manager; either way what admits a builder before admits it
/// after.
pub proof fn lemma_link_keeps_event_counter(v: VfsView, parent: NodeId, name: Seq<char>)
    requires
        v.wf(),
        v.has_budget(2),
    ensures
        forall|builder: BuilderView| v.admits(builder) ==> #[trigger] v.link_new(
            parent,
            name,
        ).post.admits(builder),
{
    let post = v.link_new(parent, name).post;
    lemma_listing_keeps_tables(v, parent, name);
    lemma_modify_keeps_tables(
        v.has_child(parent, name).post,
        parent,
        crate::filesystem::wire::ModificationView::Add(v.next_node_id, name),
    );
    crate::filesystem::node::lemma_node_id_of_value(v.next_node_id, NodeId::of(v.next_node_id));
    assert(v.next_event <= post.next_event) by {
        lemma_listing_mints(v, parent);
    }
    assert forall|builder: BuilderView| v.admits(builder) implies #[trigger] post.admits(
        builder,
    ) by {
        match builder {
            BuilderView::Ready(node) => {
                lemma_minted_below_grows(node.data, v.next_event, post.next_event);
            },
            _ => {},
        }
    }
}

/// Listing a node never takes the event counter back.
pub proof fn lemma_listing_mints(v: VfsView, id: NodeId)
    requires
        v.wf(),
        v.has_budget(1),
    ensures
        v.next_event <= v.get_children(id).post.next_event <= v.next_event + 1,
{
    if v.nodes.contains_key(id) {
        let fc = v.kernel_fc();
        lemma_read_all_keeps_invariants(v.nodes[id].data, fc, v.next_event, Seq::empty());
    }
}

/// Walking a path never takes the event counter back.
pub proof fn lemma_resolve_mints(v: VfsView, names: Seq<Seq<char>>)
    requires
        v.wf(),
        v.has_budget(names.len()),
    ensures
        v.next_event <= v.resolve(names).post.next_event,
        v.resolve(names).post.nodes.dom() == v.nodes.dom(),
        v.resolve(names).post.descriptors == v.descriptors,
{
    lemma_resolve_from_mints(v, root_id(), names);
}

/// Walking down from a node never takes the event counter back, keeps what
/// holds of the filesystem, and neither makes nor removes a node.
pub proof fn lemma_resolve_from_mints(v: VfsView, cursor: NodeId, names: Seq<Seq<char>>)
    requires
        v.wf(),
        v.has_budget(names.len()),
    ensures
        v.next_event <= v.resolve_from(cursor, names).post.next_event,
        v.resolve_from(cursor, names).post.nodes.dom() == v.nodes.dom(),
        v.resolve_from(cursor, names).post.descriptors == v.descriptors,
        v.resolve_from(cursor, names).post.wf(),
    decreases names.len(),
{
    if names.len() > 0 {
        let first = v.get_child(cursor, names[0]);
        lemma_listing_keeps_tables(v, cursor, names[0]);
        lemma_listing_mints(v, cursor);
        lemma_listing_keeps_wf(v, cursor);
        match first.outcome {
            IoResultPure::Success(child) => {
                lemma_resolve_from_mints(first.post, child, names.skip(1));
            },
            _ => {},
        }
    }
}

/// Listing a node keeps what holds of the filesystem, within the budget.
pub proof fn lemma_listing_keeps_wf(v: VfsView, id: NodeId)
    requires
        v.wf(),
        v.has_budget(1),
    ensures
        v.get_children(id).post.wf(),
        forall|n: nat| v.has_budget(n + 1) ==> v.get_children(id).post.has_budget(n),
{
    let post = v.get_children(id).post;
    if v.nodes.contains_key(id) && v.nodes[id].data.leafness() != Leafness::Leaf {
        let fc = v.kernel_fc();
        let data = v.nodes[id].data;
        lemma_read_all_keeps_invariants(data, fc, v.next_event, Seq::empty());
        lemma_read_all_keeps_identity(data, fc, v.next_event, Seq::empty());
        let all = read_all(data, fc, v.next_event, Seq::empty());
        crate::filesystem::file::lemma_file_steps_keep_identity(all.post, fc, 0, Seq::empty(), 0);
        crate::filesystem::file::lemma_file_write_close_keep_invariants(all.post, fc, Seq::empty());
        if data.pid().is_some() || data.leafness() == Leafness::InternalBranch {
            if data.leafness() == Leafness::Branch {
                assert(data.stream_clients() =~= Set::<FileClientId>::empty());
                assert(all.post.stream_clients() =~= Set::<FileClientId>::empty());
            }
            assert(post.nodes =~= v.nodes.insert(id, post.nodes[id]));
            lemma_node_update_keeps_wf(v, post, id);
            assert(v.grew_by(post, 1));
            lemma_growth(v, post, post, 1, 0);
        } else {
            assert(post.nodes =~= v.nodes);
            lemma_growth_of_counters(v, post, 1);
            lemma_growth(v, post, post, 1, 0);
        }
    } else {
        lemma_growth(v, v, v, 0, 0);
        lemma_growth_of_counters(v, v, 1);
        lemma_growth(v, v, v, 1, 0);
    }
}

/// Where only counters have advanced, the filesystem has grown by as much
/// as they have.
pub proof fn lemma_growth_of_counters(pre: VfsView, post: VfsView, n: nat)
    requires
        post.nodes == pre.nodes,
        post.descriptors == pre.descriptors,
        post.next_node_id <= pre.next_node_id + n,
        post.next_kernel_fd <= pre.next_kernel_fd + n,
        post.next_event <= pre.next_event + n,
    ensures
        pre.grew_by(post, n),
        pre.wf() && pre.next_node_id <= post.next_node_id && pre.next_event <= post.next_event
            ==> post.wf(),
{
    if pre.wf() && pre.next_node_id <= post.next_node_id && pre.next_event <= post.next_event {
        assert forall|id: NodeId| #[trigger] post.nodes.contains_key(id) implies ({
            &&& id.value() < post.next_node_id
            &&& post.nodes[id].data.wf()
            &&& post.nodes[id].data.minted_below(post.next_event)
            &&& forall|c: FileClientId| #[trigger]
                post.nodes[id].data.stream_clients().contains(c) ==> c.process.is_some()
            &&& post.nodes[id].data matches FileOpsView::Attached(a)
                ==> a.manager.process.is_some()
        }) by {
            assert(pre.nodes.contains_key(id));
        }
    }
}

/// A node that was made is there.
pub proof fn lemma_created_node_exists(
    v: VfsView,
    parent: NodeId,
    name: Seq<char>,
    builder: BuilderView,
)
    ensures
        v.create_node_with(parent, name, builder).outcome matches IoResultPure::Success((id, _))
            ==> v.create_node_with(parent, name, builder).post.nodes.contains_key(id),
{
}

/// Removing a node leaves the processes as they are.
pub proof fn lemma_remove_keeps_processes(v: VfsView, id: NodeId)
    ensures
        v.remove_node(id).descriptors == v.descriptors,
{
    let without = VfsView { nodes: v.nodes.remove(id), ..v };
    match v.nodes[id].parent {
        Some(parent) => {
            lemma_modify_keeps_tables(
                without,
                parent,
                crate::filesystem::wire::ModificationView::Remove(id.value()),
            );
        },
        None => {},
    }
}

/// Closing a node leaves the processes as they are.
pub proof fn lemma_close_keeps_processes(v: VfsView, fc: FileClientId, id: NodeId)
    ensures
        v.close_removed(fc, id).descriptors == v.descriptors,
{
    if v.nodes.contains_key(id) {
        let closed = VfsView { nodes: v.nodes.insert(id, v.nodes[id].closed(fc)), ..v };
        lemma_remove_keeps_processes(closed, id);
    }
}

/// Reading a file by its path, or loading an image, leaves the processes
/// as they are.
pub proof fn lemma_read_file_keeps_tables(v: VfsView, names: Seq<Seq<char>>)
    requires
        v.wf(),
        v.has_budget(names.len() + 1),
    ensures
        v.read_file(names).post.descriptors == v.descriptors,
        v.load_module(names).post == v.read_file(names).post,
{
    lemma_resolve_mints(v, names);
}

/// Writing to a node through a descriptor of the kernel leaves the
/// processes as they are.
pub proof fn lemma_temp_write_keeps_processes(v: VfsView, id: NodeId, data: Seq<u8>)
    ensures
        v.temp_write(id, data).post.descriptors == v.descriptors,
{
}

/// The path of a node at the top of the tree.
fn top_level(name: &str) -> (path: Path)
    ensures
        path@.absolute,
        path@.components == seq![name@],
{
    let mut path = Path::root();
    path.push(name);
    assert(path@.components =~= seq![name@]);
    path
}

/// The path of a device.
fn device(name: &str) -> (path: Path)
    ensures
        path@.absolute,
        path@.components == seq!["dev"@, name@],
{
    let mut path = Path::root();
    path.push("dev");
    path.push(name);
    assert(path@.components =~= seq!["dev"@, name@]);
    path
}

/// A new branch for the kernel to keep.
fn new_branch() -> (branch: FileOps)
    ensures
        branch.wf(),
        branch@ == empty_branch(),
{
    FileOps::InternalBranch(InternalBranch::new())
}

/// Makes the tree that is there when the system starts.
pub fn create_fs(fs: &mut VirtualFS) -> (result: IoResult<()>)
    requires
        old(fs).wf(),
        old(fs)@.has_budget(BOOT_BUDGET as nat),
    ensures
        final(fs).wf(),
        final(fs)@ == old(fs)@.create_all(boot_layout(), 0).post,
        matches_step(result, old(fs)@.create_all(boot_layout(), 0)),
        old(fs)@.referenced() ==> final(fs)@.referenced(),
        old(fs)@.grew_by(final(fs)@, BOOT_BUDGET as nat),
        old(fs)@ == crate::filesystem::boot::bare() ==> result == IoResult::Success(()) && final(fs)@
            == crate::filesystem::boot::boot_tree(),
{
    let mut layout: Vec<(Path, FileOps)> = Vec::new();
    proof {
        reveal_strlit("bin");
        reveal_strlit("cfg");
        reveal_strlit("dev");
        reveal_strlit("mnt");
        reveal_strlit("prc");
        reveal_strlit("srv");
        reveal_strlit("null");
        reveal_strlit("zero");
        reveal_strlit("test");
        reveal_strlit("console");
        reveal_strlit("nic");
        reveal_strlit("nic_mac");
        assert("bin"@ =~= seq!['b', 'i', 'n']);
        assert("cfg"@ =~= seq!['c', 'f', 'g']);
        assert("dev"@ =~= seq!['d', 'e', 'v']);
        assert("mnt"@ =~= seq!['m', 'n', 't']);
        assert("prc"@ =~= seq!['p', 'r', 'c']);
        assert("srv"@ =~= seq!['s', 'r', 'v']);
        assert("null"@ =~= seq!['n', 'u', 'l', 'l']);
        assert("zero"@ =~= seq!['z', 'e', 'r', 'o']);
        assert("test"@ =~= seq!['t', 'e', 's', 't']);
        assert("console"@ =~= seq!['c', 'o', 'n', 's', 'o', 'l', 'e']);
        assert("nic"@ =~= seq!['n', 'i', 'c']);
        assert("nic_mac"@ =~= seq!['n', 'i', 'c', '_', 'm', 'a', 'c']);
    }
    // Create top-level fs hierarchy
    layout.push((top_level("bin"), new_branch()));  // Binaries
    layout.push((top_level("cfg"), new_branch()));  // System configuration
    layout.push((top_level("dev"), new_branch()));  // Device files
    layout.push((top_level("mnt"), new_branch()));  // Fs mount points
    layout.push((top_level("prc"), new_branch()));  // Processes
    layout.push((top_level("srv"), new_branch()));  // Service endpoints

    // Insert special files
    layout.push((device("null"), FileOps::NullDevice));
    layout.push((device("zero"), FileOps::ZeroDevice));
    layout.push((device("test"), FileOps::Device(DeviceKind::Test)));

    // Kernel console
    layout.push((device("console"), FileOps::Device(DeviceKind::Console)));

    // NIC interface
    layout.push((device("nic"), FileOps::Device(DeviceKind::Nic)));
    layout.push((device("nic_mac"), FileOps::Device(DeviceKind::NicMac)));

    proof {
        let plan = layout_view(layout@);
        assert(plan.len() == 12);
        assert(plan[0].0 =~= boot_layout()[0].0);
        assert(plan[1].0 =~= boot_layout()[1].0);
        assert(plan[2].0 =~= boot_layout()[2].0);
        assert(plan[3].0 =~= boot_layout()[3].0);
        assert(plan[4].0 =~= boot_layout()[4].0);
        assert(plan[5].0 =~= boot_layout()[5].0);
        assert(plan[6].0 =~= boot_layout()[6].0);
        assert(plan[7].0 =~= boot_layout()[7].0);
        assert(plan[8].0 =~= boot_layout()[8].0);
        assert(plan[9].0 =~= boot_layout()[9].0);
        assert(plan[10].0 =~= boot_layout()[10].0);
        assert(plan[11].0 =~= boot_layout()[11].0);
        assert(plan =~= boot_layout());
        crate::filesystem::boot::lemma_boot_tree();
    }
    fs.create_all(layout)
}

/// Makes the tree that is there when the system starts, in a filesystem
/// that was just created.
pub fn init(fs: &mut VirtualFS) -> (result: IoResult<()>)
    requires
        old(fs).wf(),
        old(fs)@.has_budget(BOOT_BUDGET as nat),
    ensures
        final(fs).wf(),
        final(fs)@ == old(fs)@.create_all(boot_layout(), 0).post,
        matches_step(result, old(fs)@.create_all(boot_layout(), 0)),
        old(fs)@.referenced() ==> final(fs)@.referenced(),
        old(fs)@ == crate::filesystem::boot::bare() ==> result == IoResult::Success(()) && final(fs)@
            == crate::filesystem::boot::boot_tree(),
{
    create_fs(fs)
}

/// A way up of so many steps passes at most one node more.
pub proof fn lemma_ancestry_is_short(v: VfsView, id: NodeId, fuel: nat)
    ensures
        v.ancestry(id, fuel) matches Ancestry::Top(chain) ==> 0 < chain.len() <= fuel + 1,
    decreases fuel,
{
    if v.nodes.contains_key(id) {
        match v.nodes[id].parent {
            Some(parent) => {
                if fuel > 0 {
                    lemma_ancestry_is_short(v, parent, (fuel - 1) as nat);
                }
            },
            None => {},
        }
    }
}

/// Writing to a branch that the kernel keeps asks for no wakeup.
pub proof fn lemma_branch_write_is_silent(file: FileOpsView, fc: FileClientId, data: Seq<u8>)
    requires
        file is Internal,
    ensures
        write_all_to(file, fc, data).events == Seq::<ExplicitEventId>::empty(),
        write_all_to(file, fc, data).post is Internal,
    decreases data.len(),
{
    if data.len() > 0 {
        let step = file.write(fc, data);
        match step.result.pure() {
            IoResultPure::Success(count) => {
                if 0 < count <= data.len() {
                    lemma_branch_write_is_silent(step.post, fc, data.skip(count as int));
                    let rest = write_all_to(step.post, fc, data.skip(count as int));
                    assert(step.result.events() + rest.events =~= Seq::<ExplicitEventId>::empty());
                }
            },
            _ => {},
        }
    }
}

/// A modification of a branch asks for no wakeup.
pub proof fn lemma_modify_is_silent(
    v: VfsView,
    id: NodeId,
    modification: crate::filesystem::wire::ModificationView,
)
    ensures
        v.modify(id, modification).events == Seq::<ExplicitEventId>::empty(),
{
    if v.nodes.contains_key(id) && v.nodes[id].data is Internal {
        let fc = v.kernel_fc();
        let data = crate::filesystem::wire::modification_frame(modification);
        lemma_branch_write_is_silent(v.nodes[id].data, fc, data);
        let all = write_all_to(v.nodes[id].data, fc, data);
        assert(all.post.close(fc).result.events() + all.events =~= Seq::<ExplicitEventId>::empty());
    }
}

} // verus!
