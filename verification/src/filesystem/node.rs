//! Nodes of the filesystem tree.

use vstd::prelude::*;
use crate::abi::FileInfo;
use crate::filesystem::FileClientId;
use crate::filesystem::file::{filled, CloseAction, FileOps, FileOpsView, Leafness, Trigger};
use crate::filesystem::result::{IoResult, IoResultPure};
use crate::multitasking::waitfor::{EventCounter, ExplicitEventId, WaitFor};
use crate::table::{Keyed, RawKey};

verus! {

/// Identifier of a node: a nonzero 64-bit number, handed out in increasing
/// order and never reused.
#[derive(Debug, Clone, Copy, PartialEq, Eq, Hash, Structural)]
pub struct NodeId(u64);

impl NodeId {
    /// The number behind the identifier.
    pub closed spec fn value(self) -> u64 {
        self.0
    }

    /// The first node id: that of the root.
    pub fn first() -> (id: Self)
        ensures
            id.value() == 1,
    {
        NodeId(1)
    }

    /// The node id after this one.
    pub fn next(self) -> (id: Self)
        requires
            self.value() < u64::MAX,
        ensures
            id.value() == self.value() + 1,
    {
        NodeId(self.0 + 1)
    }

    /// The identifier with the given number.
    pub closed spec fn of(raw: u64) -> NodeId {
        NodeId(raw)
    }

    pub fn from_u64(raw: u64) -> (id: Self)
        ensures
            id == Self::of(raw),
    {
        NodeId(raw)
    }

    #[verifier::when_used_as_spec(value)]
    pub fn as_u64(self) -> (raw: u64)
        ensures
            raw == self.value(),
    {
        self.0
    }
}

impl Keyed for NodeId {
    open spec fn raw(self) -> RawKey {
        (None, self.value())
    }

    fn to_raw(&self) -> (raw: RawKey) {
        (None, self.0)
    }

    proof fn lemma_raw_injective(a: Self, b: Self) {
    }
}

/// A node id is the identifier of its number.
pub proof fn lemma_node_id_of_value(raw: u64, id: NodeId)
    ensures
        NodeId::of(raw).value() == raw,
        NodeId::of(id.value()) == id,
{
}

/// A node, as plain values.
pub struct NodeView {
    /// The branch that the node is linked in. `None` for the root and for
    /// nodes that are reached through descriptors only.
    pub parent: Option<NodeId>,
    /// How many references keep the node alive: one for each client that
    /// has it open, and one for a node that is to stay for good.
    pub refcount: u64,
    /// The file behind the node.
    pub data: FileOpsView,
}

impl NodeView {
    /// What closing the node for `fc` asks of the filesystem: to destroy
    /// the node where the file asks for it, or where no reference is left.
    pub open spec fn close_action(self, fc: FileClientId) -> CloseAction {
        if self.data.close(fc).result.pure() == IoResultPure::Success(CloseAction::Destroy)
            || self.refcount <= 1 {
            CloseAction::Destroy
        } else {
            CloseAction::Normal
        }
    }

    /// The node after `fc` has closed it.
    pub open spec fn closed(self, fc: FileClientId) -> NodeView {
        NodeView {
            refcount: (self.refcount - 1) as u64,
            data: self.data.close(fc).post,
            ..self
        }
    }

    /// The node after one more client has opened it.
    pub open spec fn opened(self) -> NodeView {
        NodeView { refcount: (self.refcount + 1) as u64, ..self }
    }
}

/// A node of the filesystem: a file, with the branch it is linked in and
/// the count of its references.
pub struct Node {
    parent: Option<NodeId>,
    refcount: u64,
    data: FileOps,
}

impl Node {
    /// The node as plain values.
    pub closed spec fn view(&self) -> NodeView {
        NodeView { parent: self.parent, refcount: self.refcount, data: self.data@ }
    }

    /// The file behind the node.
    pub closed spec fn ops(&self) -> FileOps {
        self.data
    }

    /// What holds of a node between any two operations.
    pub open spec fn wf(&self) -> bool {
        self.ops().wf() && self@.data.wf()
    }

    /// The view of a node shows the file behind it.
    pub proof fn lemma_view(&self)
        ensures
            self@.data == self.ops()@,
    {
    }

    /// A node that nobody refers to yet.
    pub fn new(parent: Option<NodeId>, data: FileOps) -> (node: Self)
        ensures
            node@ == (NodeView { parent, refcount: 0, data: data@ }),
            node.ops() == data,
    {
        Node { parent, refcount: 0, data }
    }

    /// The branch that the node is linked in, if it is linked.
    pub fn parent(&self) -> (parent: Option<NodeId>)
        ensures
            parent == self@.parent,
    {
        self.parent
    }

    /// The file behind the node.
    pub fn data(&self) -> (data: &FileOps)
        ensures
            *data == self.ops(),
    {
        &self.data
    }

    /// The file behind the node, to work on.
    pub fn data_mut(&mut self) -> (data: &mut FileOps)
        ensures
            *data == old(self).ops(),
            final(self).ops() == *final(data),
            final(self)@ == (NodeView { data: final(data)@, ..old(self)@ }),
    {
        &mut self.data
    }

    /// The number of references.
    pub fn refcount(&self) -> (n: u64)
        ensures
            n == self@.refcount,
    {
        self.refcount
    }

    /// Adds a reference.
    pub fn inc_ref(&mut self)
        requires
            old(self)@.refcount < u64::MAX,
        ensures
            final(self)@ == old(self)@.opened(),
            final(self).ops() == old(self).ops(),
    {
        self.refcount = self.refcount + 1;
    }

    pub fn leafness(&self) -> (leafness: Leafness)
        ensures
            leafness == self@.data.leafness(),
    {
        self.data.leafness()
    }

    pub fn fileinfo(&self) -> (info: FileInfo)
        ensures
            info.is_leaf == (self@.data.leafness() == Leafness::Leaf),
    {
        self.data.fileinfo()
    }

    /// Opens the node for `fc`: one more reference.
    pub fn open(&mut self, fc: FileClientId) -> (result: IoResult<()>)
        requires
            old(self)@.refcount < u64::MAX,
        ensures
            final(self)@ == old(self)@.opened(),
            final(self).ops() == old(self).ops(),
            result == IoResult::Success(()),
    {
        self.refcount = self.refcount + 1;
        self.data.open(fc)
    }

    /// Reads from the file behind the node.
    pub fn read(&mut self, fc: FileClientId, buf: &mut [u8], ids: &mut EventCounter) -> (result:
        IoResult<usize>)
        requires
            old(self).wf(),
            old(self)@.data.minted_below(old(ids).next_id()),
            old(ids).has_room(1),
        ensures
            final(self).wf(),
            final(self)@.data.minted_below(final(ids).next_id()),
            final(self)@.parent == old(self)@.parent,
            final(self)@.refcount == old(self)@.refcount,
            ({
                let step = old(self)@.data.read(fc, old(buf)@.len(), old(ids).next_id());
                &&& final(self)@.data == step.post
                &&& result == step.result
                &&& final(ids).next_id() == old(ids).next_id() + step.minted
                &&& final(buf)@ == filled(old(buf)@, step.data, step.data.len() as int)
            }),
    {
        self.data.read(fc, buf, ids)
    }

    /// What `fc` waits for before its next read.
    pub fn read_waiting_for(&mut self, fc: FileClientId) -> (wait: WaitFor)
        requires
            old(self).wf(),
        ensures
            final(self).wf(),
            final(self)@ == old(self)@,
            wait == old(self)@.data.read_waiting_for(fc),
    {
        self.data.read_waiting_for(fc)
    }

    /// Writes to the file behind the node.
    pub fn write(&mut self, fc: FileClientId, buf: &[u8]) -> (result: IoResult<usize>)
        requires
            old(self).wf(),
        ensures
            final(self).wf(),
            final(self)@.parent == old(self)@.parent,
            final(self)@.refcount == old(self)@.refcount,
            final(self)@.data == old(self)@.data.write(fc, buf@).post,
            result == old(self)@.data.write(fc, buf@).result,
            forall|next: u64|
                old(self)@.data.minted_below(next) ==> final(self)@.data.minted_below(next),
    {
        self.data.write(fc, buf)
    }

    /// Closes the node for `fc`: one reference less. Tells whether the node
    /// is to be destroyed, and hands on the wakeups that the file asks for.
    pub fn close(&mut self, fc: FileClientId) -> (result: IoResult<CloseAction>)
        requires
            old(self).wf(),
            old(self)@.refcount > 0,
        ensures
            final(self).wf(),
            final(self)@ == old(self)@.closed(fc),
            result.events() == old(self)@.data.close(fc).result.events(),
            result.pure() == IoResultPure::Success(old(self)@.close_action(fc)),
            forall|next: u64|
                old(self)@.data.minted_below(next) ==> final(self)@.data.minted_below(next),
    {
        proof {
            lemma_close_succeeds(self@.data, fc);
        }
        let (action, ctx) = self.data.close(fc).separate_events();
        self.refcount = self.refcount - 1;
        let destroy = match action {
            IoResultPure::Success(CloseAction::Destroy) => true,
            _ => self.refcount == 0,
        };
        let action = if destroy {
            CloseAction::Destroy
        } else {
            CloseAction::Normal
        };
        IoResult::Success(action).with_context(ctx)
    }

    /// The wakeups that the destruction of the node asks for.
    pub fn destroy(&mut self) -> (trigger: Trigger)
        requires
            old(self).wf(),
        ensures
            final(self).wf(),
            final(self)@ == old(self)@,
            trigger@.no_duplicates(),
            forall|e: ExplicitEventId| trigger@.contains(e) <==> old(self)@.data.outstanding(e),
    {
        self.data.destroy()
    }
}

/// No kind of file refuses a close.
pub proof fn lemma_close_succeeds(file: FileOpsView, fc: FileClientId)
    ensures
        file.close(fc).result.pure() is Success,
{
    reveal_with_fuel(IoResult::pure, 3);
}

} // verus!
