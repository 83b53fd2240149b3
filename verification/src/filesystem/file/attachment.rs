//! Attachments: nodes that a user process serves.
//!
//! The process that attaches becomes the manager of the node. Every other
//! opener is a client. A client's read is parked until the manager has
//! picked the request up and written an answer; a client's close is
//! reported to the manager. This file holds the protocol as a state machine
//! over plain values, what is proved of it, and the executable attachment
//! that follows it step by step.

use vstd::prelude::*;
use vstd::bytes::{lemma_auto_spec_u64_to_from_le_bytes, spec_u64_to_le_bytes};
use std::collections::VecDeque;
use crate::abi::FileDescriptor;
use crate::filesystem::FileClientId;
use crate::filesystem::file::{
    chunk,
    filled,
    ByteStreams,
    CloseAction,
    CloseStep,
    Leafness,
    ReadStep,
    Trigger,
    WriteStep,
};
use crate::filesystem::result::{ErrorCode, IoResult, IoResultPure};
use crate::filesystem::wire::{
    request_frame,
    request_to_bytes,
    response_from_bytes,
    response_parse,
    FileOperation,
    Request,
    ResponseView,
    Sender,
};
use crate::multitasking::waitfor::{EventCounter, ExplicitEventId, FdWaitFlag, WaitFor};
use crate::process::ProcessId;
use crate::table::{lemma_table_entries, Table};

verus! {

/// How a client is named on the wire: the process id, zero for the kernel,
/// and the descriptor.
pub open spec fn sender_of(fc: FileClientId) -> Sender {
    Sender {
        pid: match fc.process {
            Some(pid) => pid.value(),
            None => 0,
        },
        f: fc.fd.value(),
    }
}

/// The client that a sender names.
pub open spec fn client_of(sender: Sender) -> FileClientId {
    FileClientId {
        process: if sender.pid == 0 {
            None
        } else {
            Some(ProcessId::of(sender.pid))
        },
        fd: FileDescriptor::of(sender.f),
    }
}

/// The state of an attachment, as plain values.
pub struct AttachmentView {
    /// The client that serves the node.
    pub manager: FileClientId,
    /// Whether the node is a leaf. Fixed when the node is attached.
    pub is_leaf: bool,
    /// `None` while the manager has something to read. Otherwise the event
    /// that the manager is parked on.
    pub flag: Option<ExplicitEventId>,
    /// Reads that the manager has not picked up yet, oldest first, each with
    /// the event that its client is parked on.
    pub pending: Seq<(FileClientId, ExplicitEventId)>,
    /// How many bytes each client with a pending read has asked for.
    pub wanted: Map<FileClientId, u64>,
    /// Reads that the manager has picked up and not answered yet.
    pub in_progress: Map<FileClientId, ExplicitEventId>,
    /// Answers that clients have still to read.
    pub completed: Map<FileClientId, Seq<u8>>,
    /// Closes that the manager has not been told of yet, oldest first.
    pub closed: Seq<FileClientId>,
}

impl AttachmentView {
    /// An attachment that nobody has used yet. Its manager will park on
    /// `flag`.
    pub open spec fn fresh(manager: FileClientId, is_leaf: bool, flag: ExplicitEventId) -> Self {
        AttachmentView {
            manager,
            is_leaf,
            flag: Some(flag),
            pending: Seq::empty(),
            wanted: Map::empty(),
            in_progress: Map::empty(),
            completed: Map::empty(),
            closed: Seq::empty(),
        }
    }

    /// The clients of the pending reads, oldest first.
    pub open spec fn pending_clients(self) -> Seq<FileClientId> {
        Seq::new(self.pending.len(), |i: int| self.pending[i].0)
    }

    /// The events of the pending reads, oldest first.
    pub open spec fn pending_events(self) -> Seq<ExplicitEventId> {
        Seq::new(self.pending.len(), |i: int| self.pending[i].1)
    }

    /// Whether the manager has something to read.
    pub open spec fn has_pending_input(self) -> bool {
        self.pending.len() > 0 || self.closed.len() > 0
    }

    /// Whether the pending read of `a` is older than that of `b`.
    pub open spec fn stands_before(self, a: FileClientId, b: FileClientId) -> bool {
        exists|x: int, y: int|
            0 <= x < y < self.pending.len() && (#[trigger] self.pending[x]).0 == a && (
            #[trigger] self.pending[y]).0 == b
    }

    /// Whether some client is parked on `event`.
    pub open spec fn outstanding(self, event: ExplicitEventId) -> bool {
        ||| self.pending_events().contains(event)
        ||| exists|fc: FileClientId| #[trigger]
            self.in_progress.contains_key(fc) && self.in_progress[fc] == event
    }

    /// No client stands in more than one of the pending, in-progress and
    /// completed reads (nor twice among the pending ones).
    pub open spec fn one_place_per_client(self) -> bool {
        &&& self.pending_clients().no_duplicates()
        &&& forall|i: int|
            0 <= i < self.pending.len() ==> !self.in_progress.contains_key(
                #[trigger] self.pending[i].0,
            ) && !self.completed.contains_key(self.pending[i].0)
        &&& forall|fc: FileClientId| #[trigger]
            self.in_progress.contains_key(fc) ==> !self.completed.contains_key(fc)
    }

    /// The manager's flag is available exactly while a read or a close waits
    /// for the manager.
    pub open spec fn flag_follows_input(self) -> bool {
        self.flag.is_none() <==> self.has_pending_input()
    }

    /// No event is in use twice: not by two clients, and not by a client and
    /// the manager.
    pub open spec fn one_event_per_wait(self) -> bool {
        &&& self.pending_events().no_duplicates()
        &&& forall|a: FileClientId, b: FileClientId|
            #![trigger self.in_progress.contains_key(a), self.in_progress.contains_key(b)]
            self.in_progress.contains_key(a) && self.in_progress.contains_key(b) && a != b
                ==> self.in_progress[a] != self.in_progress[b]
        &&& forall|i: int, fc: FileClientId|
            #![trigger self.pending[i], self.in_progress.contains_key(fc)]
            0 <= i < self.pending.len() && self.in_progress.contains_key(fc) ==> self.pending[i].1
                != self.in_progress[fc]
        &&& self.flag matches Some(e) ==> !self.outstanding(e)
    }

    /// What holds of an attachment between any two operations.
    pub open spec fn wf(self) -> bool {
        &&& self.one_place_per_client()
        &&& self.flag_follows_input()
        &&& self.one_event_per_wait()
    }

    /// Every event in the attachment has a number below `next`.
    pub open spec fn minted_below(self, next: u64) -> bool {
        &&& self.flag matches Some(e) ==> e.0 < next
        &&& forall|i: int| 0 <= i < self.pending.len() ==> (#[trigger] self.pending[i]).1.0 < next
        &&& forall|fc: FileClientId| #[trigger]
            self.in_progress.contains_key(fc) ==> self.in_progress[fc].0 < next
    }

    /// A result that comes with a wakeup of the manager, where the manager
    /// is parked.
    pub open spec fn waking<T>(self, result: IoResult<T>) -> IoResult<T> {
        match self.flag {
            Some(e) => IoResult::TriggerEvent(e, Box::new(result)),
            None => result,
        }
    }

    /// The read of a client into a buffer of `capacity` bytes, where the
    /// next event to mint has the number `next`.
    pub open spec fn client_read(self, fc: FileClientId, capacity: nat, next: u64) -> ReadStep<AttachmentView> {
        if self.completed.contains_key(fc) {
            let answer = self.completed[fc];
            let n = chunk(capacity as int, answer.len() as int);
            ReadStep {
                post: AttachmentView {
                    completed: self.completed.insert(fc, answer.subrange(n, answer.len() as int)),
                    ..self
                },
                minted: 0,
                result: IoResult::Success(n as usize),
                data: answer.subrange(0, n),
            }
        } else if self.pending_clients().contains(fc) {
            let event = self.pending[self.pending_clients().index_of(fc)].1;
            ReadStep {
                post: self,
                minted: 0,
                result: IoResult::RepeatAfter(WaitFor::Event(event)),
                data: Seq::empty(),
            }
        } else if self.in_progress.contains_key(fc) {
            ReadStep {
                post: self,
                minted: 0,
                result: IoResult::RepeatAfter(WaitFor::Event(self.in_progress[fc])),
                data: Seq::empty(),
            }
        } else {
            let event = ExplicitEventId(next);
            ReadStep {
                post: AttachmentView {
                    pending: self.pending.push((fc, event)),
                    wanted: self.wanted.insert(fc, capacity as u64),
                    flag: None,
                    ..self
                },
                minted: 1,
                result: self.waking(IoResult::RepeatAfter(WaitFor::Event(event))),
                data: Seq::empty(),
            }
        }
    }

    /// The delivery of `request` to the manager, where `popped` is the state
    /// without the entry that the request is about.
    pub open spec fn deliver(
        self,
        request: Request,
        popped: AttachmentView,
        capacity: nat,
        next: u64,
    ) -> ReadStep<AttachmentView> {
        let frame = request_frame(request);
        if frame.len() > capacity {
            ReadStep {
                post: self,
                minted: 0,
                result: IoResult::Error(ErrorCode::fs_protocol),
                data: Seq::empty(),
            }
        } else if popped.has_pending_input() {
            ReadStep {
                post: popped,
                minted: 0,
                result: IoResult::Success(frame.len() as usize),
                data: frame,
            }
        } else {
            ReadStep {
                post: AttachmentView { flag: Some(ExplicitEventId(next)), ..popped },
                minted: 1,
                result: IoResult::Success(frame.len() as usize),
                data: frame,
            }
        }
    }

    /// How many bytes the pending read of `client` has asked for.
    pub open spec fn length_wanted(self, client: FileClientId) -> u64 {
        if self.wanted.contains_key(client) {
            self.wanted[client]
        } else {
            0
        }
    }

    /// The read of the manager into a buffer of `capacity` bytes: the oldest
    /// close, else the oldest pending read, else a wait.
    pub open spec fn manager_read(self, capacity: nat, next: u64) -> ReadStep<AttachmentView> {
        if self.closed.len() > 0 {
            self.deliver(
                Request { sender: sender_of(self.closed[0]), data: FileOperation::Close },
                AttachmentView { closed: self.closed.drop_first(), ..self },
                capacity,
                next,
            )
        } else if self.pending.len() > 0 {
            self.deliver(
                Request {
                    sender: sender_of(self.pending[0].0),
                    data: FileOperation::Read(self.length_wanted(self.pending[0].0)),
                },
                AttachmentView {
                    pending: self.pending.drop_first(),
                    wanted: self.wanted.remove(self.pending[0].0),
                    in_progress: self.in_progress.insert(self.pending[0].0, self.pending[0].1),
                    ..self
                },
                capacity,
                next,
            )
        } else {
            ReadStep {
                post: self,
                minted: 0,
                result: IoResult::RepeatAfter(
                    match self.flag {
                        Some(e) => WaitFor::Event(e),
                        None => WaitFor::Ready,
                    },
                ),
                data: Seq::empty(),
            }
        }
    }

    /// A read by `fc`.
    pub open spec fn read(self, fc: FileClientId, capacity: nat, next: u64) -> ReadStep<AttachmentView> {
        if fc == self.manager {
            self.manager_read(capacity, next)
        } else {
            self.client_read(fc, capacity, next)
        }
    }

    /// The manager's answer to the read of `client`.
    pub open spec fn complete_read(self, client: FileClientId, data: Seq<u8>, consumed: nat) -> WriteStep<AttachmentView> {
        if self.in_progress.contains_key(client) {
            WriteStep {
                post: AttachmentView {
                    in_progress: self.in_progress.remove(client),
                    completed: self.completed.insert(client, data),
                    ..self
                },
                result: IoResult::TriggerEvent(
                    self.in_progress[client],
                    Box::new(IoResult::Success(consumed as usize)),
                ),
            }
        } else {
            WriteStep { post: self, result: IoResult::Error(ErrorCode::fs_protocol) }
        }
    }

    /// A write of `bytes` by `fc`. The manager writes one whole response;
    /// nobody else writes.
    pub open spec fn write(self, fc: FileClientId, bytes: Seq<u8>) -> WriteStep<AttachmentView> {
        if fc == self.manager {
            match response_parse(bytes) {
                Some((response, rest)) => self.complete_read(
                    client_of(response.sender),
                    response.data,
                    (bytes.len() - rest) as nat,
                ),
                None => WriteStep { post: self, result: IoResult::Error(ErrorCode::fs_protocol) },
            }
        } else {
            WriteStep { post: self, result: IoResult::Error(ErrorCode::fs_unsupported) }
        }
    }

    /// The pending reads without that of `fc`.
    pub open spec fn pending_without(self, fc: FileClientId) -> Seq<(FileClientId, ExplicitEventId)> {
        if self.pending_clients().contains(fc) {
            self.pending.remove(self.pending_clients().index_of(fc))
        } else {
            self.pending
        }
    }

    /// A close by `fc`. The manager's close asks for the node to be
    /// destroyed. A client's close forgets the client's read and is queued
    /// for the manager.
    pub open spec fn close(self, fc: FileClientId) -> CloseStep<AttachmentView> {
        if fc == self.manager {
            CloseStep { post: self, result: IoResult::Success(CloseAction::Destroy) }
        } else {
            CloseStep {
                post: AttachmentView {
                    pending: self.pending_without(fc),
                    wanted: self.wanted.remove(fc),
                    in_progress: self.in_progress.remove(fc),
                    completed: self.completed.remove(fc),
                    closed: self.closed.push(fc),
                    flag: None,
                    ..self
                },
                result: self.waking(IoResult::Success(CloseAction::Normal)),
            }
        }
    }
}

/// A new attachment satisfies the invariants.
pub proof fn lemma_fresh_is_wf(
    manager: FileClientId,
    is_leaf: bool,
    flag: ExplicitEventId,
    next: u64,
)
    requires
        flag.0 < next,
    ensures
        AttachmentView::fresh(manager, is_leaf, flag).wf(),
        AttachmentView::fresh(manager, is_leaf, flag).minted_below(next),
{
}

/// A read keeps the invariants: afterwards, too, every client stands in at
/// most one place, the manager's flag is available exactly while input
/// waits, and no event is in use twice.
pub proof fn lemma_read_keeps_invariants(
    s: AttachmentView,
    fc: FileClientId,
    capacity: nat,
    next: u64,
)
    requires
        s.wf(),
        s.minted_below(next),
        next < u64::MAX,
    ensures
        s.read(fc, capacity, next).post.wf(),
        s.read(fc, capacity, next).post.minted_below(
            (next + s.read(fc, capacity, next).minted) as u64,
        ),
        s.read(fc, capacity, next).minted <= 1,
{
    let step = s.read(fc, capacity, next);
    let post = step.post;
    if fc == s.manager {
        if s.closed.len() > 0 {
            let popped = AttachmentView { closed: s.closed.drop_first(), ..s };
            assert(popped.pending_clients() =~= s.pending_clients());
            assert(popped.pending_events() =~= s.pending_events());
            assert(post.pending_clients() =~= s.pending_clients());
            assert(post.pending_events() =~= s.pending_events());
            assert(post.pending =~= s.pending);
            assert(post.in_progress =~= s.in_progress);
            if post.flag is Some && post.flag != s.flag {
                let e = post.flag.unwrap();
                assert(!post.outstanding(e));
            }
        } else if s.pending.len() > 0 {
            let c = s.pending[0].0;
            let e = s.pending[0].1;
            let popped = AttachmentView {
                pending: s.pending.drop_first(),
                in_progress: s.in_progress.insert(c, e),
                ..s
            };
            lemma_popped_is_consistent(s);
            let frame = request_frame(
                Request { sender: sender_of(c), data: FileOperation::Read(s.length_wanted(c)) },
            );
            if frame.len() <= capacity {
                assert(post.pending =~= popped.pending);
                assert(post.in_progress =~= popped.in_progress);
                assert(post.pending_clients() =~= popped.pending_clients());
                assert(post.pending_events() =~= popped.pending_events());
                if !popped.has_pending_input() {
                    let fresh = ExplicitEventId(next);
                    assert(!popped.pending_events().contains(fresh));
                    assert(!post.outstanding(fresh));
                }
            }
        }
    } else {
        if s.completed.contains_key(fc) {
            assert(post.pending_clients() =~= s.pending_clients());
            assert(post.pending_events() =~= s.pending_events());
        } else if s.pending_clients().contains(fc) {
        } else if s.in_progress.contains_key(fc) {
        } else {
            let event = ExplicitEventId(next);
            assert(post.pending_clients() =~= s.pending_clients().push(fc));
            assert(post.pending_events() =~= s.pending_events().push(event));
            assert(!s.pending_events().contains(event)) by {
                if s.pending_events().contains(event) {
                    let i = choose|i: int|
                        0 <= i < s.pending_events().len() && s.pending_events()[i] == event;
                    assert(s.pending[i].1.0 < next);
                }
            }
            assert forall|i: int, j: int|
                0 <= i < post.pending_clients().len() && 0 <= j < post.pending_clients().len() && i
                    != j implies post.pending_clients()[i] != post.pending_clients()[j] by {
                if i < s.pending.len() {
                    assert(s.pending_clients()[i] == s.pending[i].0);
                }
                if j < s.pending.len() {
                    assert(s.pending_clients()[j] == s.pending[j].0);
                }
            }
            assert forall|i: int, j: int|
                0 <= i < post.pending_events().len() && 0 <= j < post.pending_events().len() && i
                    != j implies post.pending_events()[i] != post.pending_events()[j] by {
                if i < s.pending.len() {
                    assert(s.pending_events()[i] == s.pending[i].1);
                }
                if j < s.pending.len() {
                    assert(s.pending_events()[j] == s.pending[j].1);
                }
            }
            assert forall|i: int| 0 <= i < post.pending.len() implies !post.in_progress.contains_key(
                #[trigger] post.pending[i].0,
            ) && !post.completed.contains_key(post.pending[i].0) by {
                if i < s.pending.len() {
                    assert(post.pending[i] == s.pending[i]);
                }
            }
            assert forall|i: int, c: FileClientId|
                #![trigger post.pending[i], post.in_progress.contains_key(c)]
                0 <= i < post.pending.len() && post.in_progress.contains_key(c) implies post.pending[i].1
                != post.in_progress[c] by {
                if i < s.pending.len() {
                    assert(post.pending[i] == s.pending[i]);
                }
            }
            assert forall|i: int| 0 <= i < post.pending.len() implies (#[trigger] post.pending[i]).1.0
                < next + 1 by {
                if i < s.pending.len() {
                    assert(post.pending[i] == s.pending[i]);
                }
            }
        }
    }
}

/// Taking the oldest pending read into progress keeps every client in one
/// place and every event in one use.
proof fn lemma_popped_is_consistent(s: AttachmentView)
    requires
        s.wf(),
        s.pending.len() > 0,
    ensures
        ({
            let popped = AttachmentView {
                pending: s.pending.drop_first(),
                in_progress: s.in_progress.insert(s.pending[0].0, s.pending[0].1),
                ..s
            };
            &&& popped.one_place_per_client()
            &&& popped.pending_events().no_duplicates()
            &&& forall|a: FileClientId, b: FileClientId|
                #![trigger popped.in_progress.contains_key(a), popped.in_progress.contains_key(b)]
                popped.in_progress.contains_key(a) && popped.in_progress.contains_key(b) && a != b
                    ==> popped.in_progress[a] != popped.in_progress[b]
            &&& forall|i: int, fc: FileClientId|
                #![trigger popped.pending[i], popped.in_progress.contains_key(fc)]
                0 <= i < popped.pending.len() && popped.in_progress.contains_key(fc)
                    ==> popped.pending[i].1 != popped.in_progress[fc]
            &&& forall|e: ExplicitEventId| popped.outstanding(e) ==> s.outstanding(e)
        }),
{
    let c = s.pending[0].0;
    let e = s.pending[0].1;
    let popped = AttachmentView {
        pending: s.pending.drop_first(),
        in_progress: s.in_progress.insert(c, e),
        ..s
    };
    assert forall|i: int, j: int|
        0 <= i < popped.pending_clients().len() && 0 <= j < popped.pending_clients().len() && i
            != j implies popped.pending_clients()[i] != popped.pending_clients()[j] by {
        assert(s.pending_clients()[i + 1] == popped.pending_clients()[i]);
        assert(s.pending_clients()[j + 1] == popped.pending_clients()[j]);
    }
    assert forall|i: int, j: int|
        0 <= i < popped.pending_events().len() && 0 <= j < popped.pending_events().len() && i
            != j implies popped.pending_events()[i] != popped.pending_events()[j] by {
        assert(s.pending_events()[i + 1] == popped.pending_events()[i]);
        assert(s.pending_events()[j + 1] == popped.pending_events()[j]);
    }
    assert forall|i: int| 0 <= i < popped.pending.len() implies !popped.in_progress.contains_key(
        #[trigger] popped.pending[i].0,
    ) && !popped.completed.contains_key(popped.pending[i].0) by {
        assert(popped.pending[i] == s.pending[i + 1]);
        assert(s.pending_clients()[i + 1] == s.pending[i + 1].0);
        assert(s.pending_clients()[0] == c);
    }
    assert forall|fc: FileClientId| #[trigger]
        popped.in_progress.contains_key(fc) implies !popped.completed.contains_key(fc) by {
        if fc == c {
            assert(s.pending[0].0 == c);
        }
    }
    assert forall|a: FileClientId, b: FileClientId|
        #![trigger popped.in_progress.contains_key(a), popped.in_progress.contains_key(b)]
        popped.in_progress.contains_key(a) && popped.in_progress.contains_key(b) && a
            != b implies popped.in_progress[a] != popped.in_progress[b] by {
        if a == c {
            assert(s.in_progress.contains_key(b));
            assert(s.pending[0].1 != s.in_progress[b]);
        } else if b == c {
            assert(s.in_progress.contains_key(a));
            assert(s.pending[0].1 != s.in_progress[a]);
        }
    }
    assert forall|i: int, fc: FileClientId|
        #![trigger popped.pending[i], popped.in_progress.contains_key(fc)]
        0 <= i < popped.pending.len() && popped.in_progress.contains_key(fc) implies popped.pending[i].1
        != popped.in_progress[fc] by {
        assert(popped.pending[i] == s.pending[i + 1]);
        if fc == c {
            assert(s.pending_events()[i + 1] == s.pending[i + 1].1);
            assert(s.pending_events()[0] == e);
        } else {
            assert(s.in_progress.contains_key(fc));
        }
    }
    assert forall|ev: ExplicitEventId| popped.outstanding(ev) implies s.outstanding(ev) by {
        if popped.pending_events().contains(ev) {
            let i = choose|i: int|
                0 <= i < popped.pending_events().len() && popped.pending_events()[i] == ev;
            assert(s.pending_events()[i + 1] == ev);
        } else {
            let fc = choose|fc: FileClientId| #[trigger]
                popped.in_progress.contains_key(fc) && popped.in_progress[fc] == ev;
            if fc == c {
                assert(s.pending_events()[0] == ev);
            } else {
                assert(s.in_progress.contains_key(fc));
            }
        }
    }
}

/// A write keeps the invariants, and mints nothing.
pub proof fn lemma_write_keeps_invariants(s: AttachmentView, fc: FileClientId, bytes: Seq<u8>)
    requires
        s.wf(),
    ensures
        s.write(fc, bytes).post.wf(),
        forall|next: u64| s.minted_below(next) ==> s.write(fc, bytes).post.minted_below(next),
{
    let post = s.write(fc, bytes).post;
    if post != s {
        let client = client_of(response_parse(bytes).unwrap().0.sender);
        assert(post.pending =~= s.pending);
        assert(post.pending_clients() =~= s.pending_clients());
        assert(post.pending_events() =~= s.pending_events());
        assert forall|i: int| 0 <= i < post.pending.len() implies !post.in_progress.contains_key(
            #[trigger] post.pending[i].0,
        ) && !post.completed.contains_key(post.pending[i].0) by {
            assert(!s.in_progress.contains_key(s.pending[i].0));
        }
        assert forall|e: ExplicitEventId| post.outstanding(e) implies s.outstanding(e) by {
            if !post.pending_events().contains(e) {
                let c = choose|c: FileClientId| #[trigger]
                    post.in_progress.contains_key(c) && post.in_progress[c] == e;
                assert(s.in_progress.contains_key(c));
            }
        }
    }
}

/// A close keeps the invariants, and mints nothing.
pub proof fn lemma_close_keeps_invariants(s: AttachmentView, fc: FileClientId)
    requires
        s.wf(),
    ensures
        s.close(fc).post.wf(),
        forall|next: u64| s.minted_below(next) ==> s.close(fc).post.minted_below(next),
{
    let post = s.close(fc).post;
    if fc != s.manager {
        lemma_pending_without(s, fc);
        assert forall|i: int| 0 <= i < post.pending.len() implies !post.in_progress.contains_key(
            #[trigger] post.pending[i].0,
        ) && !post.completed.contains_key(post.pending[i].0) by {
            assert(s.pending.contains(post.pending[i]));
            let j = choose|j: int| 0 <= j < s.pending.len() && s.pending[j] == post.pending[i];
            assert(!s.in_progress.contains_key(s.pending[j].0));
        }
        assert forall|i: int, c: FileClientId|
            #![trigger post.pending[i], post.in_progress.contains_key(c)]
            0 <= i < post.pending.len() && post.in_progress.contains_key(c) implies post.pending[i].1
            != post.in_progress[c] by {
            assert(s.pending.contains(post.pending[i]));
            let j = choose|j: int| 0 <= j < s.pending.len() && s.pending[j] == post.pending[i];
            assert(s.in_progress.contains_key(c));
            assert(s.pending[j].1 != s.in_progress[c]);
        }
        assert forall|next: u64| s.minted_below(next) implies post.minted_below(next) by {
            assert forall|i: int| 0 <= i < post.pending.len() implies (
            #[trigger] post.pending[i]).1.0 < next by {
                assert(s.pending.contains(post.pending[i]));
                let j = choose|j: int| 0 <= j < s.pending.len() && s.pending[j] == post.pending[i];
                assert(s.pending[j].1.0 < next);
            }
        }
        assert(post.closed.len() > 0);
    }
}

/// Without the read of `fc`, the pending reads are the others, in the order
/// they had.
pub proof fn lemma_pending_without(s: AttachmentView, fc: FileClientId)
    requires
        s.pending_clients().no_duplicates(),
        s.pending_events().no_duplicates(),
    ensures
        ({
            let rest = s.pending_without(fc);
            let post = AttachmentView { pending: rest, ..s };
            &&& post.pending_clients().no_duplicates()
            &&& post.pending_events().no_duplicates()
            &&& !post.pending_clients().contains(fc)
            &&& forall|i: int| 0 <= i < rest.len() ==> s.pending.contains(#[trigger] rest[i])
            &&& forall|j: int|
                0 <= j < s.pending.len() && s.pending[j].0 != fc ==> rest.contains(
                    #[trigger] s.pending[j],
                )
            &&& forall|a: FileClientId, b: FileClientId| #[trigger]
                post.stands_before(a, b) ==> s.stands_before(a, b)
        }),
{
    let rest = s.pending_without(fc);
    let post = AttachmentView { pending: rest, ..s };
    if s.pending_clients().contains(fc) {
        let k = s.pending_clients().index_of(fc);
        s.pending_clients().index_of_first_ensures(fc);
        assert(s.pending_clients()[k] == fc);
        assert forall|i: int| 0 <= i < rest.len() implies rest[i] == s.pending[if i < k {
            i
        } else {
            i + 1
        }] by {}
        assert forall|i: int| 0 <= i < rest.len() implies s.pending.contains(
            #[trigger] rest[i],
        ) by {
            let j = if i < k {
                i
            } else {
                i + 1
            };
            assert(s.pending[j] == rest[i]);
        }
        assert forall|i: int, j: int|
            0 <= i < post.pending_clients().len() && 0 <= j < post.pending_clients().len() && i
                != j implies post.pending_clients()[i] != post.pending_clients()[j] by {
            let i2 = if i < k {
                i
            } else {
                i + 1
            };
            let j2 = if j < k {
                j
            } else {
                j + 1
            };
            assert(s.pending_clients()[i2] == post.pending_clients()[i]);
            assert(s.pending_clients()[j2] == post.pending_clients()[j]);
        }
        assert forall|i: int, j: int|
            0 <= i < post.pending_events().len() && 0 <= j < post.pending_events().len() && i
                != j implies post.pending_events()[i] != post.pending_events()[j] by {
            let i2 = if i < k {
                i
            } else {
                i + 1
            };
            let j2 = if j < k {
                j
            } else {
                j + 1
            };
            assert(s.pending_events()[i2] == post.pending_events()[i]);
            assert(s.pending_events()[j2] == post.pending_events()[j]);
        }
        assert(!post.pending_clients().contains(fc)) by {
            if post.pending_clients().contains(fc) {
                let i = choose|i: int|
                    0 <= i < post.pending_clients().len() && post.pending_clients()[i] == fc;
                let i2 = if i < k {
                    i
                } else {
                    i + 1
                };
                assert(s.pending_clients()[i2] == fc);
            }
        }
        assert forall|j: int| 0 <= j < s.pending.len() && s.pending[j].0 != fc implies rest.contains(
            #[trigger] s.pending[j],
        ) by {
            assert(s.pending_clients()[j] == s.pending[j].0);
            let i = if j < k {
                j
            } else {
                j - 1
            };
            assert(rest[i] == s.pending[j]);
        }
        assert forall|a: FileClientId, b: FileClientId| #[trigger]
            post.stands_before(a, b) implies s.stands_before(a, b) by {
            let (x, y) = choose|x: int, y: int|
                0 <= x < y < rest.len() && (#[trigger] rest[x]).0 == a && (#[trigger] rest[y]).0
                    == b;
            let x2 = if x < k {
                x
            } else {
                x + 1
            };
            let y2 = if y < k {
                y
            } else {
                y + 1
            };
            assert(s.pending[x2] == rest[x] && s.pending[y2] == rest[y]);
        }
    } else {
        assert forall|j: int| 0 <= j < s.pending.len() && s.pending[j].0 != fc implies rest.contains(
            #[trigger] s.pending[j],
        ) by {
            assert(rest[j] == s.pending[j]);
        }
    }
}

/// A request for a read takes 25 bytes, one for a close 17.
pub proof fn lemma_request_frame_len(request: Request)
    ensures
        request_frame(request).len() == match request.data {
            FileOperation::Read(_) => 25nat,
            FileOperation::Close => 17nat,
        },
{
    lemma_auto_spec_u64_to_from_le_bytes();
}

/// Reads reach the manager in the order in which they first arrived.
///
/// The read of a client that is not known yet goes behind all pending
/// reads. Once no close waits, the manager is handed the oldest pending
/// read. And whatever a read does, two reads that stay pending keep their
/// order.
pub proof fn lemma_reads_served_in_arrival_order(
    s: AttachmentView,
    fc: FileClientId,
    capacity: nat,
    next: u64,
)
    requires
        s.wf(),
    ensures
        fc != s.manager && !s.completed.contains_key(fc) && !s.pending_clients().contains(fc)
            && !s.in_progress.contains_key(fc) ==> s.read(fc, capacity, next).post.pending
            == s.pending.push((fc, ExplicitEventId(next))),
        fc == s.manager && s.closed.len() == 0 && s.pending.len() > 0 && capacity >= 25 ==> {
            &&& s.read(fc, capacity, next).data == request_frame(
                Request {
                    sender: sender_of(s.pending[0].0),
                    data: FileOperation::Read(s.length_wanted(s.pending[0].0)),
                },
            )
            &&& s.read(fc, capacity, next).post.pending == s.pending.drop_first()
            &&& s.read(fc, capacity, next).post.in_progress.contains_key(s.pending[0].0)
        },
        forall|a: FileClientId, b: FileClientId| #[trigger]
            s.read(fc, capacity, next).post.stands_before(a, b) ==> s.stands_before(a, b) || (b
                == fc && !s.pending_clients().contains(fc)),
{
    let post = s.read(fc, capacity, next).post;
    lemma_request_frame_len(
        Request {
            sender: sender_of(s.pending[0].0),
            data: FileOperation::Read(s.length_wanted(s.pending[0].0)),
        },
    );
    assert forall|a: FileClientId, b: FileClientId| #[trigger]
        post.stands_before(a, b) implies s.stands_before(a, b) || (b == fc
        && !s.pending_clients().contains(fc)) by {
        let (x, y) = choose|x: int, y: int|
            0 <= x < y < post.pending.len() && (#[trigger] post.pending[x]).0 == a && (
            #[trigger] post.pending[y]).0 == b;
        if post.pending == s.pending {
            assert(s.pending[x].0 == a && s.pending[y].0 == b);
        } else if post.pending == s.pending.drop_first() {
            assert(s.pending[x + 1].0 == a && s.pending[y + 1].0 == b);
        } else {
            assert(post.pending == s.pending.push((fc, ExplicitEventId(next))));
            if y < s.pending.len() {
                assert(s.pending[x].0 == a && s.pending[y].0 == b);
            }
        }
    }
}

/// Neither a write nor a close changes the order of the reads that stay
/// pending, and neither adds a pending read.
pub proof fn lemma_pending_order_is_kept(s: AttachmentView, fc: FileClientId, bytes: Seq<u8>)
    requires
        s.wf(),
    ensures
        s.write(fc, bytes).post.pending == s.pending,
        forall|a: FileClientId, b: FileClientId| #[trigger]
            s.close(fc).post.stands_before(a, b) ==> s.stands_before(a, b),
{
    if fc != s.manager {
        lemma_pending_without(s, fc);
        let rest = s.pending_without(fc);
        let mid = AttachmentView { pending: rest, ..s };
        assert forall|a: FileClientId, b: FileClientId| #[trigger]
            s.close(fc).post.stands_before(a, b) implies s.stands_before(a, b) by {
            let (x, y) = choose|x: int, y: int|
                0 <= x < y < rest.len() && (#[trigger] rest[x]).0 == a && (#[trigger] rest[y]).0
                    == b;
            assert(mid.pending[x].0 == a && mid.pending[y].0 == b);
            assert(mid.stands_before(a, b));
        }
    }
}

/// A read that made no progress can be issued again.
///
/// A read that returns `RepeatAfter` has moved no data. Issued again, with
/// whatever buffer, it returns the same wait, asks for no wakeup, mints no
/// event and leaves the attachment as it is: the client keeps its place.
pub proof fn lemma_parked_read_repeats(
    s: AttachmentView,
    fc: FileClientId,
    capacity: nat,
    next: u64,
    capacity_again: nat,
    next_again: u64,
)
    requires
        s.wf(),
        s.read(fc, capacity, next).result.pure() is RepeatAfter,
    ensures
        s.read(fc, capacity, next).data.len() == 0,
        s.read(fc, capacity, next).post.completed == s.completed,
        ({
            let parked = s.read(fc, capacity, next);
            let again = parked.post.read(fc, capacity_again, next_again);
            &&& IoResultPure::<usize>::RepeatAfter(again.result->RepeatAfter_0)
                == parked.result.pure()
            &&& again.result is RepeatAfter
            &&& again.post == parked.post
            &&& again.minted == 0
            &&& again.data.len() == 0
        }),
{
    let parked = s.read(fc, capacity, next);
    let post = parked.post;
    reveal_with_fuel(IoResult::pure, 3);
    if fc == s.manager {
        assert(!s.has_pending_input());
    } else {
        if s.completed.contains_key(fc) {
        } else if s.pending_clients().contains(fc) {
        } else if s.in_progress.contains_key(fc) {
        } else {
            let event = ExplicitEventId(next);
            assert(post.pending_clients() =~= s.pending_clients().push(fc));
            let last = s.pending.len() as int;
            assert(post.pending_clients()[last] == fc);
            assert(post.pending_clients().contains(fc));
            post.pending_clients().index_of_first_ensures(fc);
            let k = post.pending_clients().index_of(fc);
            if k < last {
                assert(s.pending_clients()[k] == fc);
            }
            assert(k == last);
            assert(post.pending[k].1 == event);
        }
    }
}

/// A read that was answered succeeds when it is issued again.
///
/// When the manager writes a response for a client whose read is in
/// progress, the write wakes that client, through the event the client is
/// parked on and through no other. The client's next read returns the data
/// of the response from its start, as much as fits the buffer.
pub proof fn lemma_answered_read_succeeds(
    s: AttachmentView,
    client: FileClientId,
    bytes: Seq<u8>,
    capacity: nat,
    next: u64,
)
    requires
        s.wf(),
        client != s.manager,
        s.in_progress.contains_key(client),
        response_parse(bytes) matches Some((response, rest)) && client_of(response.sender)
            == client,
    ensures
        ({
            let answer = response_parse(bytes).unwrap().0.data;
            let written = s.write(s.manager, bytes);
            let woken = written.post.read(client, capacity, next);
            &&& written.result.events() == seq![s.in_progress[client]]
            &&& written.result.pure() is Success
            &&& !written.post.outstanding(s.in_progress[client])
            &&& woken.result == IoResult::Success(
                chunk(capacity as int, answer.len() as int) as usize,
            )
            &&& woken.data == answer.subrange(0, chunk(capacity as int, answer.len() as int))
        }),
{
    let written = s.write(s.manager, bytes);
    let post = written.post;
    let e = s.in_progress[client];
    assert(written.result.events() =~= seq![e]) by {
        reveal_with_fuel(IoResult::events, 3);
    }
    assert(written.result.pure() is Success) by {
        reveal_with_fuel(IoResult::pure, 3);
    }
    assert(post.pending_events() =~= s.pending_events());
    if post.outstanding(e) {
        if post.pending_events().contains(e) {
            let i = choose|i: int| 0 <= i < s.pending_events().len() && s.pending_events()[i] == e;
            assert(s.pending[i].1 != s.in_progress[client]);
        } else {
            let c = choose|c: FileClientId| #[trigger]
                post.in_progress.contains_key(c) && post.in_progress[c] == e;
            assert(s.in_progress.contains_key(c) && s.in_progress.contains_key(client));
        }
    }
}

/// No event is triggered twice.
///
/// The only operation that wakes a parked client is the write that answers
/// its read: it triggers the client's event, which is then in use no more.
/// A read or a close triggers at most the manager's event, on which no
/// client is parked. No operation brings an event back into use: what is in
/// use afterwards was in use before, or is the one event a read has minted,
/// which was never in use.
pub proof fn lemma_events_fire_once(
    s: AttachmentView,
    fc: FileClientId,
    capacity: nat,
    bytes: Seq<u8>,
    next: u64,
)
    requires
        s.wf(),
        s.minted_below(next),
    ensures
        !s.outstanding(ExplicitEventId(next)),
        forall|e: ExplicitEventId| #[trigger]
            s.read(fc, capacity, next).post.outstanding(e) ==> s.outstanding(e) || e
                == ExplicitEventId(next),
        forall|e: ExplicitEventId| #[trigger]
            s.read(fc, capacity, next).result.events().contains(e) ==> s.flag == Some(e)
                && !s.outstanding(e) && !s.read(fc, capacity, next).post.outstanding(e),
        forall|e: ExplicitEventId| #[trigger]
            s.write(fc, bytes).post.outstanding(e) ==> s.outstanding(e),
        forall|e: ExplicitEventId| #[trigger]
            s.write(fc, bytes).result.events().contains(e) ==> s.outstanding(e) && !s.write(
                fc,
                bytes,
            ).post.outstanding(e),
        forall|e: ExplicitEventId| #[trigger]
            s.close(fc).post.outstanding(e) ==> s.outstanding(e),
        forall|e: ExplicitEventId| #[trigger]
            s.close(fc).result.events().contains(e) ==> s.flag == Some(e) && !s.outstanding(e)
                && !s.close(fc).post.outstanding(e),
{
    let fresh = ExplicitEventId(next);
    assert(!s.outstanding(fresh)) by {
        if s.pending_events().contains(fresh) {
            let i = choose|i: int|
                0 <= i < s.pending_events().len() && s.pending_events()[i] == fresh;
            assert(s.pending[i].1.0 < next);
        }
    }
    reveal_with_fuel(IoResult::events, 3);
    // reads
    let read = s.read(fc, capacity, next);
    assert forall|e: ExplicitEventId| #[trigger] read.post.outstanding(e) implies s.outstanding(e)
        || e == fresh by {
        if fc == s.manager {
            if s.closed.len() > 0 {
                assert(read.post.pending =~= s.pending);
                assert(read.post.pending_events() =~= s.pending_events());
                assert(read.post.in_progress =~= s.in_progress);
            } else if s.pending.len() > 0 {
                lemma_popped_is_consistent(s);
                let popped = AttachmentView {
                    pending: s.pending.drop_first(),
                    in_progress: s.in_progress.insert(s.pending[0].0, s.pending[0].1),
                    ..s
                };
                if read.post != s {
                    assert(read.post.pending_events() =~= popped.pending_events());
                    assert(read.post.in_progress =~= popped.in_progress);
                    assert(popped.outstanding(e));
                }
            }
        } else {
            if read.post.pending != s.pending {
                assert(read.post.pending_events() =~= s.pending_events().push(fresh));
                if read.post.pending_events().contains(e) {
                    let i = choose|i: int|
                        0 <= i < read.post.pending_events().len() && read.post.pending_events()[i]
                            == e;
                    if i < s.pending.len() {
                        assert(s.pending_events()[i] == e);
                    }
                }
            } else {
                assert(read.post.pending_events() =~= s.pending_events());
            }
        }
    }
    assert forall|e: ExplicitEventId| #[trigger] read.result.events().contains(e) implies s.flag
        == Some(e) && !s.outstanding(e) && !read.post.outstanding(e) by {
        assert(fc != s.manager);
        assert(s.flag == Some(e));
        assert(e != fresh);
    }
    // writes
    let write = s.write(fc, bytes);
    assert(write.post.pending_events() =~= s.pending_events());
    assert forall|e: ExplicitEventId| #[trigger] write.post.outstanding(e) implies s.outstanding(
        e,
    ) by {
        if !write.post.pending_events().contains(e) {
            let c = choose|c: FileClientId| #[trigger]
                write.post.in_progress.contains_key(c) && write.post.in_progress[c] == e;
            assert(s.in_progress.contains_key(c));
        }
    }
    assert forall|e: ExplicitEventId| #[trigger] write.result.events().contains(e) implies s.outstanding(
    e) && !write.post.outstanding(e) by {
        let client = client_of(response_parse(bytes).unwrap().0.sender);
        assert(s.in_progress.contains_key(client));
        assert(e == s.in_progress[client]);
        if write.post.outstanding(e) {
            if write.post.pending_events().contains(e) {
                let i = choose|i: int|
                    0 <= i < s.pending_events().len() && s.pending_events()[i] == e;
                assert(s.pending[i].1 != s.in_progress[client]);
            } else {
                let c = choose|c: FileClientId| #[trigger]
                    write.post.in_progress.contains_key(c) && write.post.in_progress[c] == e;
                assert(s.in_progress.contains_key(c) && s.in_progress.contains_key(client));
            }
        }
    }
    // closes
    let close = s.close(fc);
    if fc != s.manager {
        lemma_pending_without(s, fc);
    }
    assert forall|e: ExplicitEventId| #[trigger] close.post.outstanding(e) implies s.outstanding(
        e,
    ) by {
        if close.post.pending_events().contains(e) {
            let i = choose|i: int|
                0 <= i < close.post.pending_events().len() && close.post.pending_events()[i] == e;
            assert(s.pending.contains(close.post.pending[i]));
            let j = choose|j: int| 0 <= j < s.pending.len() && s.pending[j] == close.post.pending[i];
            assert(s.pending_events()[j] == e);
        } else {
            let c = choose|c: FileClientId| #[trigger]
                close.post.in_progress.contains_key(c) && close.post.in_progress[c] == e;
            assert(s.in_progress.contains_key(c));
        }
    }
    assert forall|e: ExplicitEventId| #[trigger] close.result.events().contains(e) implies s.flag
        == Some(e) && !s.outstanding(e) && !close.post.outstanding(e) by {
        assert(s.flag == Some(e));
    }
}

/// How `fc` is named on the wire.
pub fn sender(fc: FileClientId) -> (sender: Sender)
    ensures
        sender == sender_of(fc),
{
    Sender {
        pid: match fc.process {
            Some(pid) => pid.as_u64(),
            None => 0,
        },
        f: fc.fd.as_u64(),
    }
}

/// The client that `sender` names.
pub fn client(sender: Sender) -> (fc: FileClientId)
    ensures
        fc == client_of(sender),
{
    let fd = FileDescriptor::from_u64(sender.f);
    match ProcessId::from_u64(sender.pid) {
        Some(pid) => FileClientId::process(pid, fd),
        None => FileClientId::kernel(fd),
    }
}

/// A node that a user process serves.
///
/// On a branch node the manager can also provide children. Attachments can
/// be nested: the innermost one gets the operations. When the manager lets
/// go, the node is destroyed and every client that waits on it is woken.
pub struct Attachment {
    /// The client that serves this attachment.
    manager: FileClientId,
    /// Fixed when the node is attached: the manager cannot change it.
    is_leaf: bool,
    /// Whether the manager has something to read.
    manager_pending_data: FdWaitFlag,
    /// Reads that wait for the manager to pick them up, with the events
    /// that wake their clients.
    reads_pending: VecDeque<(FileClientId, ExplicitEventId)>,
    /// How many bytes each read that waits to be picked up has asked for.
    reads_wanted: Table<FileClientId, u64>,
    /// Reads that wait for the manager to answer them, with the events that
    /// wake their clients.
    reads_in_progress: Table<FileClientId, ExplicitEventId>,
    /// Answers. A client reads its answer front to back; the entry stays,
    /// empty in the end, until the client closes the file.
    reads_completed: ByteStreams,
    /// Clients that have closed the file, to be reported to the manager.
    closed_pending: VecDeque<FileClientId>,
}

impl Attachment {
    /// The attachment as plain values.
    pub closed spec fn view(&self) -> AttachmentView {
        AttachmentView {
            manager: self.manager,
            is_leaf: self.is_leaf,
            flag: self.manager_pending_data.pending_event(),
            pending: self.reads_pending@,
            wanted: self.reads_wanted@,
            in_progress: self.reads_in_progress@,
            completed: self.reads_completed@,
            closed: self.closed_pending@,
        }
    }

    /// The tables of the attachment are in order.
    pub closed spec fn tables_wf(&self) -> bool {
        self.reads_in_progress.wf() && self.reads_completed.wf() && self.reads_wanted.wf()
    }

    /// What holds of an attachment between any two operations.
    pub open spec fn wf(&self) -> bool {
        self.tables_wf() && self@.wf()
    }

    /// A new attachment for `manager`. Nothing waits on it yet, so its
    /// manager would have to park.
    pub fn new(manager: FileClientId, is_leaf: bool, ids: &mut EventCounter) -> (attachment: Self)
        requires
            old(ids).has_room(1),
        ensures
            attachment.wf(),
            attachment@ == AttachmentView::fresh(
                manager,
                is_leaf,
                ExplicitEventId(old(ids).next_id()),
            ),
            attachment@.minted_below(final(ids).next_id()),
            final(ids).next_id() == old(ids).next_id() + 1,
    {
        let attachment = Attachment {
            manager,
            is_leaf,
            manager_pending_data: FdWaitFlag::new_unavailable(ids),
            reads_pending: VecDeque::new(),
            reads_wanted: Table::new(),
            reads_in_progress: Table::new(),
            reads_completed: ByteStreams::new(),
            closed_pending: VecDeque::new(),
        };
        proof {
            assert(attachment@ =~= AttachmentView::fresh(
                manager,
                is_leaf,
                ExplicitEventId(old(ids).next_id()),
            ));
            lemma_fresh_is_wf(manager, is_leaf, ExplicitEventId(old(ids).next_id()), ids.next_id());
        }
        attachment
    }

    /// The client that serves this attachment.
    pub fn manager(&self) -> (manager: FileClientId)
        ensures
            manager == self@.manager,
    {
        self.manager
    }

    fn has_pending_input(&self) -> (b: bool)
        ensures
            b == self@.has_pending_input(),
    {
        !(self.reads_pending.len() == 0 && self.closed_pending.len() == 0)
    }

    /// Manager: report the oldest close, if a close waits.
    fn manager_read_close(&mut self, buf: &mut [u8]) -> (action: Option<IoResult<usize>>)
        requires
            old(self).tables_wf(),
        ensures
            final(self).tables_wf(),
            old(self)@.closed.len() == 0 <==> action.is_none(),
            action.is_none() ==> final(self)@ == old(self)@ && final(buf)@ == old(buf)@,
            action matches Some(result) ==> ({
                let frame = request_frame(
                    Request { sender: sender_of(old(self)@.closed[0]), data: FileOperation::Close },
                );
                if frame.len() > old(buf)@.len() {
                    &&& result == IoResult::<usize>::Error(ErrorCode::fs_protocol)
                    &&& final(self)@ == old(self)@
                    &&& final(buf)@ == old(buf)@
                } else {
                    &&& result == IoResult::Success(frame.len() as usize)
                    &&& final(self)@ == (AttachmentView {
                        closed: old(self)@.closed.drop_first(),
                        ..old(self)@
                    })
                    &&& final(buf)@ == filled(old(buf)@, frame, frame.len() as int)
                }
            }),
    {
        if self.closed_pending.len() > 0 {
            let closed_fc = self.closed_pending[0];
            let request = Request { sender: sender(closed_fc), data: FileOperation::Close };
            let bytes = request_to_bytes(&request);
            if bytes.len() <= buf.len() {
                self.closed_pending.pop_front();
                copy_frame(&bytes, buf);
                assert(self.closed_pending@ =~= old(self)@.closed.drop_first());
                Some(IoResult::Success(bytes.len()))
            } else {
                Some(IoResult::Error(ErrorCode::fs_protocol))
            }
        } else {
            None
        }
    }

    /// Manager: pick up the oldest pending read, if a read is pending.
    fn manager_read_pending(&mut self, buf: &mut [u8]) -> (action: Option<IoResult<usize>>)
        requires
            old(self).tables_wf(),
        ensures
            final(self).tables_wf(),
            old(self)@.pending.len() == 0 <==> action.is_none(),
            action.is_none() ==> final(self)@ == old(self)@ && final(buf)@ == old(buf)@,
            action matches Some(result) ==> ({
                let frame = request_frame(
                    Request {
                        sender: sender_of(old(self)@.pending[0].0),
                        data: FileOperation::Read(
                            old(self)@.length_wanted(old(self)@.pending[0].0),
                        ),
                    },
                );
                if frame.len() > old(buf)@.len() {
                    &&& result == IoResult::<usize>::Error(ErrorCode::fs_protocol)
                    &&& final(self)@ == old(self)@
                    &&& final(buf)@ == old(buf)@
                } else {
                    &&& result == IoResult::Success(frame.len() as usize)
                    &&& final(self)@ == (AttachmentView {
                        pending: old(self)@.pending.drop_first(),
                        wanted: old(self)@.wanted.remove(old(self)@.pending[0].0),
                        in_progress: old(self)@.in_progress.insert(
                            old(self)@.pending[0].0,
                            old(self)@.pending[0].1,
                        ),
                        ..old(self)@
                    })
                    &&& final(buf)@ == filled(old(buf)@, frame, frame.len() as int)
                }
            }),
    {
        if self.reads_pending.len() > 0 {
            let (reader_fc, event_id) = self.reads_pending[0];
            let wanted = match self.reads_wanted.get(reader_fc) {
                Some(wanted) => *wanted,
                None => 0,
            };
            let request = Request { sender: sender(reader_fc), data: FileOperation::Read(wanted) };
            let bytes = request_to_bytes(&request);
            if bytes.len() <= buf.len() {
                self.reads_pending.pop_front();
                self.reads_wanted.remove(reader_fc);
                copy_frame(&bytes, buf);
                // Mark the read to be in progress
                self.reads_in_progress.insert(reader_fc, event_id);
                assert(self.reads_pending@ =~= old(self)@.pending.drop_first());
                Some(IoResult::Success(bytes.len()))
            } else {
                Some(IoResult::Error(ErrorCode::fs_protocol))
            }
        } else {
            None
        }
    }

    fn manager_read(&mut self, buf: &mut [u8], ids: &mut EventCounter) -> (result: IoResult<usize>)
        requires
            old(self).wf(),
            old(self)@.minted_below(old(ids).next_id()),
            old(ids).has_room(1),
        ensures
            final(self).tables_wf(),
            ({
                let step = old(self)@.manager_read(old(buf)@.len(), old(ids).next_id());
                &&& final(self)@ == step.post
                &&& result == step.result
                &&& final(ids).next_id() == old(ids).next_id() + step.minted
                &&& final(buf)@ == filled(old(buf)@, step.data, step.data.len() as int)
            }),
    {
        let action = match self.manager_read_close(buf) {
            Some(result) => Some(result),
            None => self.manager_read_pending(buf),
        };
        if let Some(result) = action {
            if !self.has_pending_input() {
                self.manager_pending_data.set_unavailable(ids);
            }
            assert(final(buf)@ =~= filled(
                old(buf)@,
                old(self)@.manager_read(old(buf)@.len(), old(ids).next_id()).data,
                old(self)@.manager_read(old(buf)@.len(), old(ids).next_id()).data.len() as int,
            ));
            result
        } else {
            // Nothing to read: wait until a client reads or closes
            let wait = self.manager_pending_data.expect_wait();
            assert(buf@ =~= filled(old(buf)@, Seq::<u8>::empty(), 0));
            IoResult::RepeatAfter(wait)
        }
    }

    /// The event that the pending read of `fc` waits on.
    fn find_pending(&self, fc: FileClientId) -> (found: Option<(usize, ExplicitEventId)>)
        requires
            self@.pending_clients().no_duplicates(),
        ensures
            match found {
                Some((i, event)) => self@.pending_clients().contains(fc) && i
                    == self@.pending_clients().index_of(fc) && event == self@.pending[i as int].1
                    && i < self@.pending.len(),
                None => !self@.pending_clients().contains(fc),
            },
    {
        let mut i: usize = 0;
        while i < self.reads_pending.len()
            invariant
                i <= self.reads_pending@.len(),
                self@.pending_clients().no_duplicates(),
                forall|j: int| 0 <= j < i ==> self.reads_pending@[j].0 != fc,
            decreases self.reads_pending@.len() - i,
        {
            let (pending_fc, event) = self.reads_pending[i];
            if pending_fc == fc {
                proof {
                    assert(self@.pending_clients()[i as int] == fc);
                    self@.pending_clients().index_of_first_ensures(fc);
                    let k = self@.pending_clients().index_of(fc);
                    assert(self@.pending_clients()[k] == fc);
                }
                return Some((i, event));
            }
            i += 1;
        }
        proof {
            if self@.pending_clients().contains(fc) {
                let j = choose|j: int|
                    0 <= j < self@.pending_clients().len() && self@.pending_clients()[j] == fc;
                assert(self.reads_pending@[j].0 == fc);
            }
        }
        None
    }

    pub fn leafness(&self) -> (leafness: Leafness)
        ensures
            leafness == (if self@.is_leaf {
                Leafness::Leaf
            } else {
                Leafness::Branch
            }),
    {
        if self.is_leaf {
            Leafness::Leaf
        } else {
            Leafness::Branch
        }
    }

    /// Reads from the attachment.
    ///
    /// The manager gets the next request, framed, or is told to wait. A
    /// client gets the bytes of its answer, or is parked until the manager
    /// has answered.
    pub fn read(&mut self, fc: FileClientId, buf: &mut [u8], ids: &mut EventCounter) -> (result:
        IoResult<usize>)
        requires
            old(self).wf(),
            old(self)@.minted_below(old(ids).next_id()),
            old(ids).has_room(1),
        ensures
            final(self).wf(),
            final(self)@.minted_below(final(ids).next_id()),
            ({
                let step = old(self)@.read(fc, old(buf)@.len(), old(ids).next_id());
                &&& final(self)@ == step.post
                &&& result == step.result
                &&& final(ids).next_id() == old(ids).next_id() + step.minted
                &&& final(buf)@ == filled(old(buf)@, step.data, step.data.len() as int)
            }),
    {
        proof {
            lemma_read_keeps_invariants(self@, fc, buf@.len(), ids.next_id());
        }
        if fc == self.manager {
            self.manager_read(buf, ids)
        } else {
            match self.reads_completed.read(fc, buf) {
                Some(n) => {
                    assert(final(buf)@ =~= filled(
                        old(buf)@,
                        old(self)@.completed[fc].subrange(0, n as int),
                        n as int,
                    ));
                    IoResult::Success(n)
                },
                None => {
                    assert(buf@ =~= filled(old(buf)@, Seq::<u8>::empty(), 0));
                    if let Some((_, event_id)) = self.find_pending(fc) {
                        IoResult::RepeatAfter(WaitFor::Event(event_id))
                    } else if let Some(event_id) = self.reads_in_progress.get(fc) {
                        IoResult::RepeatAfter(WaitFor::Event(*event_id))
                    } else {
                        // New read operation
                        let event_id = ids.mint();
                        self.reads_pending.push_back((fc, event_id));
                        self.reads_wanted.insert(fc, buf.len() as u64);
                        let repeat = IoResult::RepeatAfter(WaitFor::Event(event_id));
                        match self.manager_pending_data.set_available() {
                            Some(wake) => IoResult::TriggerEvent(wake, Box::new(repeat)),
                            None => repeat,
                        }
                    }
                },
            }
        }
    }

    /// What `fc` waits for before its next read: the manager for input, a
    /// client with a pending read for the manager to pick it up.
    pub fn read_waiting_for(&mut self, fc: FileClientId) -> (wait: WaitFor)
        requires
            old(self).wf(),
        ensures
            final(self)@ == old(self)@,
            final(self).wf(),
            wait == (if fc == old(self)@.manager {
                match old(self)@.flag {
                    Some(e) => WaitFor::Event(e),
                    None => WaitFor::Ready,
                }
            } else if old(self)@.pending_clients().contains(fc) {
                WaitFor::Event(
                    old(self)@.pending[old(self)@.pending_clients().index_of(fc)].1,
                )
            } else {
                WaitFor::Ready
            }),
    {
        if fc == self.manager {
            self.manager_pending_data.wait()
        } else if let Some((_, event_id)) = self.find_pending(fc) {
            WaitFor::Event(event_id)
        } else {
            WaitFor::Ready
        }
    }

    /// Takes the manager's answer to the read of `client`: `data`, of which
    /// the encoding took `consumed` bytes. The client is woken.
    pub fn complete_read(&mut self, client: FileClientId, data: Vec<u8>, consumed: usize) -> (result:
        IoResult<usize>)
        requires
            old(self).wf(),
        ensures
            final(self).wf(),
            final(self)@ == old(self)@.complete_read(client, data@, consumed as nat).post,
            result == old(self)@.complete_read(client, data@, consumed as nat).result,
            forall|next: u64|
                old(self)@.minted_below(next) ==> final(self)@.minted_below(next),
    {
        match self.reads_in_progress.remove(client) {
            Some(client_wakeup_event) => {
                self.reads_completed.put(client, data);
                proof {
                    let post = old(self)@.complete_read(client, data@, consumed as nat).post;
                    assert(self@.in_progress =~= post.in_progress);
                    assert(self@.completed =~= post.completed);
                    lemma_complete_read_keeps_invariants(old(self)@, client, data@, consumed as nat);
                }
                IoResult::TriggerEvent(client_wakeup_event, Box::new(IoResult::Success(consumed)))
            },
            None => {
                assert(self@.in_progress =~= old(self)@.in_progress);
                IoResult::Error(ErrorCode::fs_protocol)
            },
        }
    }

    /// Writes to the attachment.
    ///
    /// The manager writes the response to one request, whole. What the
    /// response holds goes to the client it names, which is woken. Bytes
    /// that are no response, or a response for a client whose read is not in
    /// progress, are a protocol error. Clients do not write.
    pub fn write(&mut self, fc: FileClientId, buf: &[u8]) -> (result: IoResult<usize>)
        requires
            old(self).wf(),
        ensures
            final(self).wf(),
            final(self)@ == old(self)@.write(fc, buf@).post,
            result == old(self)@.write(fc, buf@).result,
            forall|next: u64|
                old(self)@.minted_below(next) ==> final(self)@.minted_below(next),
    {
        if fc == self.manager {
            match response_from_bytes(buf) {
                Some((response, rest)) => {
                    let client_fc = client(response.sender);
                    self.complete_read(client_fc, response.data, buf.len() - rest)
                },
                None => IoResult::Error(ErrorCode::fs_protocol),
            }
        } else {
            IoResult::Error(ErrorCode::fs_unsupported)
        }
    }

    /// Closes the attachment for `fc`.
    ///
    /// When the manager closes, the node is to be destroyed. When a client
    /// closes, its read is forgotten and the manager is told.
    pub fn close(&mut self, fc: FileClientId) -> (result: IoResult<CloseAction>)
        requires
            old(self).wf(),
        ensures
            final(self).wf(),
            final(self)@ == old(self)@.close(fc).post,
            result == old(self)@.close(fc).result,
            forall|next: u64|
                old(self)@.minted_below(next) ==> final(self)@.minted_below(next),
    {
        proof {
            lemma_close_keeps_invariants(old(self)@, fc);
        }
        if fc == self.manager {
            return IoResult::Success(CloseAction::Destroy);
        }
        // Remove the read of this client, wherever it stands

        if let Some((i, _)) = self.find_pending(fc) {
            self.reads_pending.remove(i);
        }
        self.reads_wanted.remove(fc);
        self.reads_in_progress.remove(fc);
        self.reads_completed.remove(fc);

        // Inform the manager about close
        self.closed_pending.push_back(fc);
        let result = IoResult::Success(CloseAction::Normal);
        proof {
            let post = old(self)@.close(fc).post;
            assert(self@.pending =~= post.pending);
            assert(self@.wanted =~= post.wanted);
            assert(self@.in_progress =~= post.in_progress);
            assert(self@.completed =~= post.completed);
            assert(self@.closed =~= post.closed);
        }
        match self.manager_pending_data.set_available() {
            Some(wake) => IoResult::TriggerEvent(wake, Box::new(result)),
            None => result,
        }
    }

    /// The wakeups that the destruction of the attachment asks for: every
    /// client that is parked on it, each once.
    pub fn destroy(&mut self) -> (trigger: Trigger)
        requires
            old(self).wf(),
        ensures
            final(self)@ == old(self)@,
            final(self).wf(),
            trigger@.no_duplicates(),
            forall|e: ExplicitEventId| trigger@.contains(e) <==> old(self)@.outstanding(e),
    {
        let mut events: Vec<ExplicitEventId> = Vec::new();
        let mut i: usize = 0;
        while i < self.reads_pending.len()
            invariant
                i <= self.reads_pending@.len(),
                events@ == self@.pending_events().subrange(0, i as int),
            decreases self.reads_pending@.len() - i,
        {
            let (_, event) = self.reads_pending[i];
            events.push(event);
            i += 1;
            assert(events@ =~= self@.pending_events().subrange(0, i as int));
        }
        assert(events@ =~= self@.pending_events());
        let mut j: usize = 0;
        while j < self.reads_in_progress.len()
            invariant
                self.reads_in_progress.wf(),
                j <= self.reads_in_progress.spec_len(),
                events@ == self@.pending_events() + self.reads_in_progress.values().subrange(
                    0,
                    j as int,
                ),
            decreases self.reads_in_progress.spec_len() - j,
        {
            events.push(*self.reads_in_progress.value_at(j));
            j += 1;
            assert(events@ =~= self@.pending_events() + self.reads_in_progress.values().subrange(
                0,
                j as int,
            ));
        }
        proof {
            let values = self.reads_in_progress.values();
            let keys = self.reads_in_progress.keys();
            assert(values.subrange(0, j as int) =~= values);
            let pe = self@.pending_events();
            assert forall|a: int, b: int|
                0 <= a < events@.len() && 0 <= b < events@.len() && a != b implies events@[a]
                != events@[b] by {
                if a >= pe.len() {
                    lemma_table_entries(&self.reads_in_progress, a - pe.len());
                }
                if b >= pe.len() {
                    lemma_table_entries(&self.reads_in_progress, b - pe.len());
                }
                if a < pe.len() && b < pe.len() {
                } else if a >= pe.len() && b >= pe.len() {
                    let ka = keys[a - pe.len()];
                    let kb = keys[b - pe.len()];
                    assert(self@.in_progress.contains_key(ka));
                    assert(self@.in_progress.contains_key(kb));
                } else if a < pe.len() {
                    let kb = keys[b - pe.len()];
                    assert(self@.in_progress.contains_key(kb));
                    assert(self@.pending[a].1 != self@.in_progress[kb]);
                } else {
                    let ka = keys[a - pe.len()];
                    assert(self@.in_progress.contains_key(ka));
                    assert(self@.pending[b].1 != self@.in_progress[ka]);
                }
            }
            assert forall|e: ExplicitEventId| events@.contains(e) <==> self@.outstanding(e) by {
                if events@.contains(e) {
                    let a = choose|a: int| 0 <= a < events@.len() && events@[a] == e;
                    if a < pe.len() {
                        assert(pe[a] == e);
                    } else {
                        lemma_table_entries(&self.reads_in_progress, a - pe.len());
                        assert(self@.in_progress.contains_key(keys[a - pe.len()]));
                    }
                }
                if self@.outstanding(e) {
                    if pe.contains(e) {
                        let a = choose|a: int| 0 <= a < pe.len() && pe[a] == e;
                        assert(events@[a] == e);
                    } else {
                        let fc = choose|fc: FileClientId| #[trigger]
                            self@.in_progress.contains_key(fc) && self@.in_progress[fc] == e;
                        assert(keys.contains(fc));
                        let k = keys.index_of(fc);
                        keys.index_of_first_ensures(fc);
                        assert(events@[pe.len() + k] == e);
                    }
                }
            }
        }
        Trigger::events(events)
    }

    /// The process that serves the attachment, if a process does.
    pub fn pid(&self) -> (pid: Option<ProcessId>)
        ensures
            pid == self@.manager.process,
    {
        self.manager.process
    }
}

/// Copies a frame to the start of a buffer that has room for it.
fn copy_frame(frame: &Vec<u8>, buf: &mut [u8])
    requires
        frame@.len() <= old(buf)@.len(),
    ensures
        final(buf)@ == filled(old(buf)@, frame@, frame@.len() as int),
{
    crate::filesystem::file::copy_into(frame, buf);
}

/// An answer keeps the invariants.
pub proof fn lemma_complete_read_keeps_invariants(
    s: AttachmentView,
    client: FileClientId,
    data: Seq<u8>,
    consumed: nat,
)
    requires
        s.wf(),
    ensures
        s.complete_read(client, data, consumed).post.wf(),
        forall|next: u64|
            s.minted_below(next) ==> s.complete_read(client, data, consumed).post.minted_below(
                next,
            ),
{
    let post = s.complete_read(client, data, consumed).post;
    if post != s {
        assert(post.pending =~= s.pending);
        assert(post.pending_clients() =~= s.pending_clients());
        assert(post.pending_events() =~= s.pending_events());
        assert forall|i: int| 0 <= i < post.pending.len() implies !post.in_progress.contains_key(
            #[trigger] post.pending[i].0,
        ) && !post.completed.contains_key(post.pending[i].0) by {
            assert(!s.in_progress.contains_key(s.pending[i].0));
        }
        assert forall|e: ExplicitEventId| post.outstanding(e) implies s.outstanding(e) by {
            if !post.pending_events().contains(e) {
                let c = choose|c: FileClientId| #[trigger]
                    post.in_progress.contains_key(c) && post.in_progress[c] == e;
                assert(s.in_progress.contains_key(c));
            }
        }
    }
}

} // verus!
