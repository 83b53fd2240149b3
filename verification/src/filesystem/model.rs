//! The filesystem as plain values, and what each of its operations does to
//! them.
//!
//! The executable filesystem keeps tables; here the same state is a record
//! of maps, and each operation is a function from the state before to the
//! state after, the events to trigger and the outcome. The contracts of the
//! executable operations refer to these functions.

use vstd::prelude::*;
use crate::abi::FileDescriptor;
use crate::filesystem::{read_all, write_all_to, FileClientId, ReadAllOutcome};
use crate::filesystem::file::{CloseAction, DeviceKind, FileOpsView, Leafness};
use crate::filesystem::file::process_file::ProcessFileView;
use crate::multitasking::ElfImage;
use crate::multitasking::waitfor::WaitFor;
use crate::filesystem::file::attachment::AttachmentView;
use crate::filesystem::file::internal::BranchView;
use crate::filesystem::node::{NodeId, NodeView};
use crate::filesystem::result::{ErrorCode, IoResultPure};
use crate::filesystem::wire::{
    branch_listing_parse,
    listing_parse,
    modification_frame,
    ModificationView,
};
use crate::multitasking::waitfor::ExplicitEventId;
use crate::process::ProcessId;
use crate::table::swap_removed;

verus! {

/// The descriptors of one process, as plain values.
pub struct DescriptorsView {
    /// The node of the process itself.
    pub node_id: NodeId,
    /// The node behind each descriptor that the process holds.
    pub descriptors: Map<FileDescriptor, NodeId>,
    /// The descriptors that the process holds, in the order in which the
    /// table stores them.
    pub order: Seq<FileDescriptor>,
    /// The number of the next descriptor.
    pub next_fd: u64,
}

/// The filesystem, as plain values.
pub struct VfsView {
    /// The nodes that exist.
    pub nodes: Map<NodeId, NodeView>,
    /// The descriptors of each process that runs.
    pub descriptors: Map<ProcessId, DescriptorsView>,
    /// The number of the next node.
    pub next_node_id: u64,
    /// The number of the next descriptor of the kernel.
    pub next_kernel_fd: u64,
    /// The number of the next event.
    pub next_event: u64,
}

/// What an operation does: the filesystem after it, the events that it asks
/// to trigger, in order, and its outcome.
pub struct Step<T> {
    pub post: VfsView,
    pub events: Seq<ExplicitEventId>,
    pub outcome: IoResultPure<T>,
}

/// What to put at a new node, once its id is known, as plain values.
pub enum BuilderView {
    /// This node.
    Ready(NodeView),
    /// An attachment, served by the process through a new descriptor that
    /// stands for the node.
    Attachment { manager: ProcessId, is_leaf: bool },
}

/// The node at which every absolute path starts.
pub open spec fn root_id() -> NodeId {
    NodeId::of(1)
}

/// The entries of a listing, with node ids for numbers.
pub open spec fn listing_nodes(entries: Seq<(u64, Seq<char>)>) -> Seq<(NodeId, Seq<char>)> {
    Seq::new(entries.len(), |i: int| (NodeId::of(entries[i].0), entries[i].1))
}

/// The names of a listing, in order.
pub open spec fn listing_names(entries: Seq<(NodeId, Seq<char>)>) -> Seq<Seq<char>> {
    Seq::new(entries.len(), |i: int| entries[i].1)
}

impl VfsView {
    /// What holds of the filesystem between any two operations: node ids
    /// that are in use lie below the next one; every file is in order and
    /// its events lie below the next one; no listing or result is half read
    /// by the kernel; every attachment is served by a process; and the
    /// descriptors of a process lie below its next one.
    pub open spec fn wf(self) -> bool {
        &&& forall|id: NodeId| #[trigger]
            self.nodes.contains_key(id) ==> {
                &&& id.value() < self.next_node_id
                &&& self.nodes[id].data.wf()
                &&& self.nodes[id].data.minted_below(self.next_event)
                &&& forall|fc: FileClientId| #[trigger]
                    self.nodes[id].data.stream_clients().contains(fc) ==> fc.process.is_some()
                &&& self.nodes[id].data matches FileOpsView::Attached(a)
                    ==> a.manager.process.is_some()
            }
        &&& forall|pid: ProcessId, fd: FileDescriptor|
            #![trigger self.descriptors[pid].descriptors.contains_key(fd)]
            self.descriptors.contains_key(pid) && self.descriptors[pid].descriptors.contains_key(fd)
                ==> fd.value() < self.descriptors[pid].next_fd
    }

    /// Every branch that the kernel keeps has an encoded listing that reads
    /// back as the listing.
    pub open spec fn listable(self) -> bool {
        forall|id: NodeId| #[trigger]
            self.nodes.contains_key(id) ==> (self.nodes[id].data matches FileOpsView::Internal(b)
                ==> b.readable())
    }

    /// Every node has a reference.
    pub open spec fn referenced(self) -> bool {
        forall|id: NodeId| #[trigger] self.nodes.contains_key(id) ==> self.nodes[id].refcount > 0
    }

    /// Every node but `id` has a reference.
    pub open spec fn referenced_except(self, id: NodeId) -> bool {
        forall|other: NodeId|
            other != id && #[trigger] self.nodes.contains_key(other) ==> self.nodes[other].refcount
                > 0
    }

    /// Every counter can be advanced `n` more times.
    pub open spec fn has_budget(self, n: nat) -> bool {
        &&& self.next_node_id + n <= u64::MAX
        &&& self.next_kernel_fd + n <= u64::MAX
        &&& self.next_event + n <= u64::MAX
        &&& forall|id: NodeId| #[trigger]
            self.nodes.contains_key(id) ==> self.nodes[id].refcount + n <= u64::MAX
        &&& forall|pid: ProcessId| #[trigger]
            self.descriptors.contains_key(pid) ==> self.descriptors[pid].next_fd + n <= u64::MAX
    }

    /// No counter of `post` is more than `n` ahead of where it is in `self`.
    pub open spec fn grew_by(self, post: VfsView, n: nat) -> bool {
        &&& post.next_node_id <= self.next_node_id + n
        &&& post.next_kernel_fd <= self.next_kernel_fd + n
        &&& post.next_event <= self.next_event + n
        &&& forall|id: NodeId| #[trigger]
            post.nodes.contains_key(id) ==> post.nodes[id].refcount <= (if self.nodes.contains_key(
                id,
            ) {
                self.nodes[id].refcount as int
            } else {
                0
            }) + n
        &&& forall|pid: ProcessId| #[trigger]
            post.descriptors.contains_key(pid) ==> post.descriptors[pid].next_fd <= (
            if self.descriptors.contains_key(pid) {
                self.descriptors[pid].next_fd as int
            } else {
                0
            }) + n
    }

    /// The next descriptor of the kernel, as a client.
    pub open spec fn kernel_fc(self) -> FileClientId {
        FileClientId { process: None, fd: FileDescriptor::of(self.next_kernel_fd) }
    }

    /// An operation that fails at once.
    pub open spec fn fail<T>(self, code: ErrorCode) -> Step<T> {
        Step { post: self, events: Seq::empty(), outcome: IoResultPure::Error(code) }
    }

    /// Reading all of a node through a descriptor of the kernel that is
    /// opened for the purpose and closed again.
    pub open spec fn temp_read(self, id: NodeId) -> Step<Seq<u8>>
        recommends
            self.nodes.contains_key(id),
    {
        let fc = self.kernel_fc();
        let node = self.nodes[id];
        let all = read_all(node.data, fc, self.next_event, Seq::empty());
        let closing = all.post.close(fc);
        Step {
            post: VfsView {
                nodes: self.nodes.insert(id, NodeView { data: closing.post, ..node }),
                next_kernel_fd: (self.next_kernel_fd + 1) as u64,
                next_event: (self.next_event + all.minted) as u64,
                ..self
            },
            events: closing.result.events() + (match all.outcome {
                ReadAllOutcome::Done(_) => Seq::empty(),
                ReadAllOutcome::Stopped(r) => r.events(),
            }),
            outcome: match all.outcome {
                ReadAllOutcome::Done(bytes) => IoResultPure::Success(bytes),
                ReadAllOutcome::Stopped(r) => r.pure().retyped(),
            },
        }
    }

    /// Writing all of `data` to a node through a descriptor of the kernel
    /// that is opened for the purpose and closed again.
    pub open spec fn temp_write(self, id: NodeId, data: Seq<u8>) -> Step<()>
        recommends
            self.nodes.contains_key(id),
    {
        let fc = self.kernel_fc();
        let node = self.nodes[id];
        let all = write_all_to(node.data, fc, data);
        let closing = all.post.close(fc);
        Step {
            post: VfsView {
                nodes: self.nodes.insert(id, NodeView { data: closing.post, ..node }),
                next_kernel_fd: (self.next_kernel_fd + 1) as u64,
                ..self
            },
            events: closing.result.events() + all.events,
            outcome: all.outcome,
        }
    }

    /// The nodes that the descriptors of a manager stand for: the children
    /// that a branch attachment lists. `None` where a descriptor in the
    /// listing is none of the manager's.
    pub open spec fn managed_children(self, manager: ProcessId, items: Seq<(Seq<char>, u64)>) -> Option<
        Seq<(NodeId, Seq<char>)>,
    > {
        if self.descriptors.contains_key(manager) && forall|i: int|
            0 <= i < items.len() ==> self.descriptors[manager].descriptors.contains_key(
                #[trigger] FileDescriptor::of(items[i].1),
            ) {
            Some(
                Seq::new(
                    items.len(),
                    |i: int|
                        (
                            self.descriptors[manager].descriptors[FileDescriptor::of(items[i].1)],
                            items[i].0,
                        ),
                ),
            )
        } else {
            None
        }
    }

    /// The children of a node. The kernel reads the listing of an internal
    /// branch. It asks the manager of a branch attachment, as a client of
    /// the attachment would.
    pub open spec fn get_children(self, id: NodeId) -> Step<Seq<(NodeId, Seq<char>)>> {
        if !self.nodes.contains_key(id) {
            self.fail(ErrorCode::fs_file_destroyed)
        } else {
            match self.nodes[id].data.leafness() {
                Leafness::Leaf => self.fail(ErrorCode::fs_node_is_leaf),
                Leafness::InternalBranch => {
                    let read = self.temp_read(id);
                    Step {
                        post: read.post,
                        events: read.events,
                        outcome: match read.outcome {
                            IoResultPure::Success(bytes) => match listing_parse(bytes) {
                                Some(entries) => IoResultPure::Success(listing_nodes(entries)),
                                None => IoResultPure::Error(ErrorCode::fs_protocol),
                            },
                            other => other.retyped(),
                        },
                    }
                },
                Leafness::Branch => {
                    let fc = self.kernel_fc();
                    let node = self.nodes[id];
                    let taken = VfsView {
                        next_kernel_fd: (self.next_kernel_fd + 1) as u64,
                        ..self
                    };
                    match node.data.pid() {
                        None => taken.fail(ErrorCode::fs_unsupported),
                        Some(manager) => {
                            let all = read_all(node.data, fc, self.next_event, Seq::empty());
                            let post = VfsView {
                                nodes: self.nodes.insert(id, NodeView { data: all.post, ..node }),
                                next_event: (self.next_event + all.minted) as u64,
                                ..taken
                            };
                            match all.outcome {
                                ReadAllOutcome::Stopped(r) => Step {
                                    post,
                                    events: r.events(),
                                    outcome: r.pure().retyped(),
                                },
                                ReadAllOutcome::Done(bytes) => Step {
                                    post,
                                    events: Seq::empty(),
                                    outcome: match branch_listing_parse(bytes) {
                                        Some(items) => match post.managed_children(manager, items) {
                                            Some(children) => IoResultPure::Success(children),
                                            None => IoResultPure::Error(ErrorCode::fs_protocol),
                                        },
                                        None => IoResultPure::Error(ErrorCode::fs_protocol),
                                    },
                                },
                            }
                        },
                    }
                },
            }
        }
    }

    /// The child of a node that has the given name: the first in the
    /// listing.
    pub open spec fn get_child(self, id: NodeId, name: Seq<char>) -> Step<NodeId> {
        let listed = self.get_children(id);
        Step {
            post: listed.post,
            events: listed.events,
            outcome: match listed.outcome {
                IoResultPure::Success(children) => match listing_names(children).index_of_first(
                    name,
                ) {
                    Some(i) => IoResultPure::Success(children[i].0),
                    None => IoResultPure::Error(ErrorCode::fs_node_not_found),
                },
                other => other.retyped(),
            },
        }
    }

    /// Whether a node has a child of the given name.
    pub open spec fn has_child(self, id: NodeId, name: Seq<char>) -> Step<bool> {
        let child = self.get_child(id, name);
        Step {
            post: child.post,
            events: child.events,
            outcome: match child.outcome {
                IoResultPure::Success(_) => IoResultPure::Success(true),
                IoResultPure::Error(ErrorCode::fs_node_not_found) => IoResultPure::Success(false),
                other => other.retyped(),
            },
        }
    }

    /// Writing one modification to a branch that the kernel keeps.
    pub open spec fn modify(self, parent: NodeId, modification: ModificationView) -> Step<()> {
        if !self.nodes.contains_key(parent) {
            self.fail(ErrorCode::fs_file_destroyed)
        } else {
            match self.nodes[parent].data.leafness() {
                Leafness::Leaf => self.fail(ErrorCode::fs_node_is_leaf),
                Leafness::Branch => self.fail(ErrorCode::fs_unsupported),
                Leafness::InternalBranch => self.temp_write(
                    parent,
                    modification_frame(modification),
                ),
            }
        }
    }

    /// Linking `child` under `name` in `parent`.
    pub open spec fn add_child(self, parent: NodeId, name: Seq<char>, child: NodeId) -> Step<()> {
        self.modify(parent, ModificationView::Add(child.value(), name))
    }

    /// Unlinking `child` in `parent`.
    pub open spec fn remove_child(self, parent: NodeId, child: NodeId) -> Step<()> {
        self.modify(parent, ModificationView::Remove(child.value()))
    }

    /// Walking down from `cursor` along `names`.
    pub open spec fn resolve_from(self, cursor: NodeId, names: Seq<Seq<char>>) -> Step<NodeId>
        decreases names.len(),
    {
        if names.len() == 0 {
            Step { post: self, events: Seq::empty(), outcome: IoResultPure::Success(cursor) }
        } else {
            let first = self.get_child(cursor, names[0]);
            match first.outcome {
                IoResultPure::Success(child) => {
                    let rest = first.post.resolve_from(child, names.skip(1));
                    Step { events: first.events + rest.events, ..rest }
                },
                _ => first,
            }
        }
    }

    /// The node at the end of an absolute path.
    pub open spec fn resolve(self, names: Seq<Seq<char>>) -> Step<NodeId> {
        self.resolve_from(root_id(), names)
    }

    /// Reserving the next node id for a child of `parent` under `name`, and
    /// linking it there.
    pub open spec fn link_new(self, parent: NodeId, name: Seq<char>) -> Step<NodeId> {
        let new_id = NodeId::of(self.next_node_id);
        let exists = self.has_child(parent, name);
        match exists.outcome {
            IoResultPure::Success(true) => Step {
                outcome: IoResultPure::Error(ErrorCode::fs_node_exists),
                post: exists.post,
                events: exists.events,
            },
            IoResultPure::Success(false) => {
                let linked = exists.post.add_child(parent, name, new_id);
                Step {
                    post: linked.post,
                    events: exists.events + linked.events,
                    outcome: match linked.outcome {
                        IoResultPure::Success(_) => IoResultPure::Success(new_id),
                        other => other.retyped(),
                    },
                }
            },
            other => Step {
                post: exists.post,
                events: exists.events,
                outcome: other.retyped(),
            },
        }
    }

    /// The filesystem after `pid` was given a new descriptor for `node`,
    /// and that descriptor as a client.
    pub open spec fn with_descriptor(self, pid: ProcessId, node: NodeId) -> (VfsView, FileClientId)
        recommends
            self.descriptors.contains_key(pid),
    {
        let held = self.descriptors[pid];
        let fd = FileDescriptor::of(held.next_fd);
        (
            VfsView {
                descriptors: self.descriptors.insert(
                    pid,
                    DescriptorsView {
                        descriptors: held.descriptors.insert(fd, node),
                        order: held.order.push(fd),
                        next_fd: (held.next_fd + 1) as u64,
                        ..held
                    },
                ),
                ..self
            },
            FileClientId { process: Some(pid), fd },
        )
    }

    /// The filesystem after the node `id` was made from `builder`, and the
    /// client that serves the node where the node is an attachment.
    pub open spec fn build(self, id: NodeId, parent: Option<NodeId>, builder: BuilderView) -> (
        VfsView,
        Option<FileClientId>,
    ) {
        match builder {
            BuilderView::Ready(node) => (
                VfsView {
                    nodes: self.nodes.insert(id, node),
                    next_node_id: (self.next_node_id + 1) as u64,
                    ..self
                },
                None,
            ),
            BuilderView::Attachment { manager, is_leaf } => {
                let (held, fc) = self.with_descriptor(manager, id);
                (
                    VfsView {
                        nodes: self.nodes.insert(
                            id,
                            NodeView {
                                parent,
                                refcount: 0,
                                data: FileOpsView::Attached(
                                    AttachmentView::fresh(
                                        fc,
                                        is_leaf,
                                        ExplicitEventId(self.next_event),
                                    ),
                                ),
                            },
                        ),
                        next_node_id: (self.next_node_id + 1) as u64,
                        next_event: (self.next_event + 1) as u64,
                        ..held
                    },
                    Some(fc),
                )
            },
        }
    }

    /// Making a node under `name` in `parent`: the name must be free and
    /// the parent a branch that the kernel keeps.
    pub open spec fn create_node_with(self, parent: NodeId, name: Seq<char>, builder: BuilderView) -> Step<
        (NodeId, Option<FileClientId>),
    > {
        let linked = self.link_new(parent, name);
        match linked.outcome {
            IoResultPure::Success(id) => {
                let (post, fc) = linked.post.build(id, Some(parent), builder);
                Step { post, events: linked.events, outcome: IoResultPure::Success((id, fc)) }
            },
            other => Step { post: linked.post, events: linked.events, outcome: other.retyped() },
        }
    }

    /// Making a node that is linked nowhere.
    pub open spec fn create_anon_node_with(self, builder: BuilderView) -> (
        VfsView,
        (NodeId, Option<FileClientId>),
    ) {
        let id = NodeId::of(self.next_node_id);
        let (post, fc) = self.build(id, None, builder);
        (post, (id, fc))
    }

    /// Whether a node made from `builder` can join the filesystem: a new
    /// node, to which nobody refers yet, with a file that is in order, or an
    /// attachment for a process that runs.
    pub open spec fn admits(self, builder: BuilderView) -> bool {
        match builder {
            BuilderView::Ready(node) => {
                &&& node.refcount == 0
                &&& node.data.wf()
                &&& node.data.minted_below(self.next_event)
                &&& forall|fc: FileClientId| #[trigger]
                    node.data.stream_clients().contains(fc) ==> fc.process.is_some()
                &&& node.data matches FileOpsView::Attached(a) ==> a.manager.process.is_some()
            },
            BuilderView::Attachment { manager, is_leaf } => self.descriptors.contains_key(manager),
        }
    }

    /// Whether `fc` is a descriptor that a process holds.
    pub open spec fn holds(self, fc: FileClientId) -> bool {
        fc.process matches Some(pid) && self.descriptors.contains_key(pid)
            && self.descriptors[pid].descriptors.contains_key(fc.fd)
    }

    /// The node that a descriptor stands for.
    pub open spec fn resolve_fc(self, fc: FileClientId) -> NodeId
        recommends
            self.holds(fc),
    {
        self.descriptors[fc.process.unwrap()].descriptors[fc.fd]
    }

    /// The filesystem after one more client has opened a node.
    pub open spec fn with_opened(self, id: NodeId) -> VfsView
        recommends
            self.nodes.contains_key(id),
    {
        VfsView { nodes: self.nodes.insert(id, self.nodes[id].opened()), ..self }
    }

    /// Opening the node at the end of a path for a process.
    pub open spec fn open(self, pid: ProcessId, names: Seq<Seq<char>>) -> Step<FileClientId>
        recommends
            self.descriptors.contains_key(pid),
    {
        let found = self.resolve(names);
        match found.outcome {
            IoResultPure::Success(id) => {
                let (held, fc) = found.post.with_descriptor(pid, id);
                if held.nodes.contains_key(id) {
                    Step {
                        post: held.with_opened(id),
                        events: found.events,
                        outcome: IoResultPure::Success(fc),
                    }
                } else {
                    Step {
                        post: held,
                        events: found.events,
                        outcome: IoResultPure::Error(ErrorCode::fs_file_destroyed),
                    }
                }
            },
            other => Step { post: found.post, events: found.events, outcome: other.retyped() },
        }
    }

    /// What the node at the end of a path is.
    pub open spec fn fileinfo(self, names: Seq<Seq<char>>) -> Step<bool> {
        let found = self.resolve(names);
        Step {
            post: found.post,
            events: found.events,
            outcome: match found.outcome {
                IoResultPure::Success(id) => if found.post.nodes.contains_key(id) {
                    IoResultPure::Success(
                        found.post.nodes[id].data.leafness() == Leafness::Leaf,
                    )
                } else {
                    IoResultPure::Error(ErrorCode::fs_file_destroyed)
                },
                other => other.retyped(),
            },
        }
    }

    /// Taking a node out of the filesystem, and its link out of the branch
    /// that holds it, as far as that branch is still there.
    pub open spec fn remove_node(self, id: NodeId) -> VfsView
        recommends
            self.nodes.contains_key(id),
    {
        let without = VfsView { nodes: self.nodes.remove(id), ..self };
        match self.nodes[id].parent {
            Some(parent) => without.remove_child(parent, id).post,
            None => without,
        }
    }

    /// Whether closing `node_id` for `fc` destroys the node.
    pub open spec fn close_destroys(self, fc: FileClientId, node_id: NodeId) -> bool {
        self.nodes.contains_key(node_id) && self.nodes[node_id].close_action(fc)
            == CloseAction::Destroy
    }

    /// The filesystem after `fc` has closed `node_id`. A node that is gone
    /// already is left alone. A node that is to be destroyed is removed.
    pub open spec fn close_removed(self, fc: FileClientId, node_id: NodeId) -> VfsView {
        if !self.nodes.contains_key(node_id) {
            self
        } else {
            let closed = VfsView {
                nodes: self.nodes.insert(node_id, self.nodes[node_id].closed(fc)),
                ..self
            };
            if self.close_destroys(fc, node_id) {
                closed.remove_node(node_id)
            } else {
                closed
            }
        }
    }

    /// The events that the close of `node_id` for `fc` triggers by itself.
    pub open spec fn close_events(self, fc: FileClientId, node_id: NodeId) -> Seq<ExplicitEventId> {
        if self.nodes.contains_key(node_id) {
            self.nodes[node_id].data.close(fc).result.events()
        } else {
            Seq::empty()
        }
    }

    /// Whether the close of `node_id` for `fc` destroys the node and thereby
    /// wakes the tasks parked on `event`.
    pub open spec fn close_wakes(self, fc: FileClientId, node_id: NodeId, event: ExplicitEventId) -> bool {
        self.close_destroys(fc, node_id) && self.nodes[node_id].data.close(fc).post.outstanding(
            event,
        )
    }

    /// The filesystem after a process has let go of a descriptor.
    pub open spec fn without_descriptor(self, fc: FileClientId) -> VfsView
        recommends
            self.holds(fc),
    {
        let pid = fc.process.unwrap();
        let held = self.descriptors[pid];
        VfsView {
            descriptors: self.descriptors.insert(
                pid,
                DescriptorsView {
                    descriptors: held.descriptors.remove(fc.fd),
                    order: swap_removed(held.order, held.order.index_of(fc.fd)),
                    ..held
                },
            ),
            ..self
        }
    }

    /// A read through a descriptor.
    pub open spec fn read(self, fc: FileClientId, capacity: nat) -> (Step<usize>, Seq<u8>)
        recommends
            self.holds(fc),
    {
        let id = self.resolve_fc(fc);
        if !self.nodes.contains_key(id) {
            (self.fail(ErrorCode::fs_file_destroyed), Seq::empty())
        } else {
            let step = self.nodes[id].data.read(fc, capacity, self.next_event);
            (
                Step {
                    post: VfsView {
                        nodes: self.nodes.insert(
                            id,
                            NodeView { data: step.post, ..self.nodes[id] },
                        ),
                        next_event: (self.next_event + step.minted) as u64,
                        ..self
                    },
                    events: step.result.events(),
                    outcome: step.result.pure(),
                },
                step.data,
            )
        }
    }

    /// A write through a descriptor.
    pub open spec fn write(self, fc: FileClientId, bytes: Seq<u8>) -> Step<usize>
        recommends
            self.holds(fc),
    {
        let id = self.resolve_fc(fc);
        if !self.nodes.contains_key(id) {
            self.fail(ErrorCode::fs_file_destroyed)
        } else {
            let step = self.nodes[id].data.write(fc, bytes);
            Step {
                post: VfsView {
                    nodes: self.nodes.insert(id, NodeView { data: step.post, ..self.nodes[id] }),
                    ..self
                },
                events: step.result.events(),
                outcome: step.result.pure(),
            }
        }
    }

    /// Reading all of the file at the end of a path.
    pub open spec fn read_file(self, names: Seq<Seq<char>>) -> Step<Seq<u8>> {
        let found = self.resolve(names);
        match found.outcome {
            IoResultPure::Success(id) => if found.post.nodes.contains_key(id) {
                let read = found.post.temp_read(id);
                Step { events: found.events + read.events, ..read }
            } else {
                Step {
                    post: found.post,
                    events: found.events,
                    outcome: IoResultPure::Error(ErrorCode::fs_file_destroyed),
                }
            },
            other => Step { post: found.post, events: found.events, outcome: other.retyped() },
        }
    }

    /// Loading the image at the end of a path: the bytes of the file, in
    /// whole pages.
    pub open spec fn load_module(self, names: Seq<Seq<char>>) -> Step<Seq<u8>> {
        let read = self.read_file(names);
        Step {
            outcome: match read.outcome {
                IoResultPure::Success(bytes) => if bytes.len() + ElfImage::padding(bytes.len())
                    <= usize::MAX {
                    IoResultPure::Success(ElfImage::padded(bytes))
                } else {
                    IoResultPure::Error(ErrorCode::fs_protocol)
                },
                other => other,
            },
            ..read
        }
    }

    /// Making a node at the end of a path, with a reference that keeps it
    /// for good.
    pub open spec fn create_static(self, names: Seq<Seq<char>>, data: FileOpsView) -> Step<NodeId>
        recommends
            names.len() > 0,
    {
        let found = self.resolve(names.drop_last());
        match found.outcome {
            IoResultPure::Success(parent) => {
                let made = found.post.create_node_with(
                    parent,
                    names.last(),
                    BuilderView::Ready(NodeView { parent: Some(parent), refcount: 0, data }),
                );
                match made.outcome {
                    IoResultPure::Success((id, _)) => Step {
                        post: made.post.with_opened(id),
                        events: found.events + made.events,
                        outcome: IoResultPure::Success(id),
                    },
                    other => Step {
                        post: made.post,
                        events: found.events + made.events,
                        outcome: other.retyped(),
                    },
                }
            },
            other => Step { post: found.post, events: found.events, outcome: other.retyped() },
        }
    }

    /// Attaching a process to the filesystem: under a path, or, where the
    /// path is empty, to a node of its own that is reached through the
    /// descriptor only.
    pub open spec fn attach(self, pid: ProcessId, path: Seq<char>, names: Seq<Seq<char>>, is_leaf: bool) -> Step<
        FileClientId,
    >
        recommends
            self.descriptors.contains_key(pid),
            path.len() > 0 ==> names.len() > 0,
    {
        let builder = BuilderView::Attachment { manager: pid, is_leaf };
        if path.len() > 0 {
            let found = self.resolve(names.drop_last());
            match found.outcome {
                IoResultPure::Success(parent) => {
                    let made = found.post.create_node_with(parent, names.last(), builder);
                    match made.outcome {
                        IoResultPure::Success((id, fc)) => Step {
                            post: made.post.with_opened(id),
                            events: found.events + made.events,
                            outcome: IoResultPure::Success(fc.unwrap()),
                        },
                        other => Step {
                            post: made.post,
                            events: found.events + made.events,
                            outcome: other.retyped(),
                        },
                    }
                },
                other => Step { post: found.post, events: found.events, outcome: other.retyped() },
            }
        } else {
            let (made, (id, fc)) = self.create_anon_node_with(builder);
            Step {
                post: made.with_opened(id),
                events: Seq::empty(),
                outcome: IoResultPure::Success(fc.unwrap()),
            }
        }
    }

    /// The filesystem after a process has closed a descriptor: the
    /// descriptor is gone, and the node behind it is closed.
    pub open spec fn close(self, fc: FileClientId) -> VfsView
        recommends
            self.holds(fc),
    {
        self.without_descriptor(fc).close_removed(fc, self.resolve_fc(fc))
    }

    /// The next descriptor for `node`: of the owner, where there is one,
    /// and else of the kernel.
    pub open spec fn with_owner_descriptor(self, owner: Option<ProcessId>, node: NodeId) -> (
        VfsView,
        FileClientId,
    ) {
        match owner {
            Some(pid) => self.with_descriptor(pid, node),
            None => (
                VfsView { next_kernel_fd: (self.next_kernel_fd + 1) as u64, ..self },
                self.kernel_fc(),
            ),
        }
    }

    /// Loading the image at the end of a path and opening the file for the
    /// owner of the process to be, or for the kernel.
    pub open spec fn open_executable(self, names: Seq<Seq<char>>, owner: Option<ProcessId>) -> Step<
        (Seq<u8>, FileClientId),
    >
        recommends
            owner matches Some(pid) ==> self.descriptors.contains_key(pid),
    {
        let loaded = self.load_module(names);
        match loaded.outcome {
            IoResultPure::Success(image) => {
                let found = loaded.post.resolve(names);
                match found.outcome {
                    IoResultPure::Success(file) => {
                        let (held, fc) = found.post.with_owner_descriptor(owner, file);
                        if held.nodes.contains_key(file) {
                            Step {
                                post: held.with_opened(file),
                                events: loaded.events + found.events,
                                outcome: IoResultPure::Success((image, fc)),
                            }
                        } else {
                            Step {
                                post: held,
                                events: loaded.events + found.events,
                                outcome: IoResultPure::Error(ErrorCode::fs_file_destroyed),
                            }
                        }
                    },
                    other => Step {
                        post: found.post,
                        events: loaded.events + found.events,
                        outcome: other.retyped(),
                    },
                }
            },
            other => Step { post: loaded.post, events: loaded.events, outcome: other.retyped() },
        }
    }

    /// Starting a process from the file at the end of a path, for an owner
    /// or for the kernel. The process gets the id `new_pid`.
    pub open spec fn exec(self, new_pid: ProcessId, names: Seq<Seq<char>>, owner: Option<ProcessId>) -> ExecStep
        recommends
            owner matches Some(pid) ==> self.descriptors.contains_key(pid),
    {
        let opened = self.open_executable(names, owner);
        match opened.outcome {
            IoResultPure::Success((image, fc)) => {
                let started = opened.post.register(new_pid, owner, fc);
                ExecStep {
                    post: started.post,
                    events: opened.events + started.events,
                    outcome: started.outcome,
                    spawned: Some(image),
                }
            },
            other => ExecStep {
                post: opened.post,
                events: opened.events,
                outcome: other.retyped(),
                spawned: None,
            },
        }
    }

    /// Giving a process that was started its node under `/prc` and its
    /// table of descriptors, and opening the node for the owner.
    pub open spec fn register(self, new_pid: ProcessId, owner: Option<ProcessId>, fc: FileClientId) -> Step<
        FileClientId,
    > {
        let directory = self.resolve(seq![process_directory()]);
        match directory.outcome {
            IoResultPure::Success(prc) => {
                let made = directory.post.create_node_with(
                    prc,
                    decimal(new_pid.value() as nat),
                    BuilderView::Ready(
                        NodeView {
                            parent: Some(prc),
                            refcount: 0,
                            data: FileOpsView::Process(
                                ProcessFileView {
                                    pid: new_pid,
                                    owner: fc,
                                    status: None,
                                    readers: Map::empty(),
                                },
                            ),
                        },
                    ),
                );
                match made.outcome {
                    IoResultPure::Success((node, _)) => {
                        let known = VfsView {
                            descriptors: made.post.descriptors.insert(
                                new_pid,
                                DescriptorsView {
                                    node_id: node,
                                    descriptors: Map::empty(),
                                    order: Seq::empty(),
                                    next_fd: 0,
                                },
                            ),
                            ..made.post
                        };
                        let (held, handle) = known.with_owner_descriptor(owner, node);
                        Step {
                            post: held.with_opened(node),
                            events: directory.events + made.events,
                            outcome: IoResultPure::Success(handle),
                        }
                    },
                    other => Step {
                        post: made.post,
                        events: directory.events + made.events,
                        outcome: other.retyped(),
                    },
                }
            },
            other => Step {
                post: directory.post,
                events: directory.events,
                outcome: other.retyped(),
            },
        }
    }

    /// The filesystem after the descriptors `held.order[from..]` of a
    /// process that is over were closed, one after the other.
    pub open spec fn close_all(self, pid: ProcessId, held: DescriptorsView, from: nat) -> VfsView
        decreases held.order.len() - from,
    {
        if from >= held.order.len() {
            self
        } else {
            let fd = held.order[from as int];
            self.close_removed(
                FileClientId { process: Some(pid), fd },
                held.descriptors[fd],
            ).close_all(pid, held, from + 1)
        }
    }

    /// Whether closing the descriptors `held.order[from..]` of a process
    /// that is over wakes the tasks parked on `event`.
    pub open spec fn close_all_wakes(
        self,
        pid: ProcessId,
        held: DescriptorsView,
        from: nat,
        event: ExplicitEventId,
    ) -> bool
        decreases held.order.len() - from,
    {
        if from >= held.order.len() {
            false
        } else {
            let fd = held.order[from as int];
            let fc = FileClientId { process: Some(pid), fd };
            let node = held.descriptors[fd];
            ||| self.close_events(fc, node).contains(event)
            ||| self.close_wakes(fc, node, event)
            ||| self.close_removed(fc, node).close_all_wakes(pid, held, from + 1, event)
        }
    }

    /// The filesystem without the table of a process.
    pub open spec fn without_process(self, pid: ProcessId) -> VfsView {
        VfsView { descriptors: self.descriptors.remove(pid), ..self }
    }

    /// The filesystem after a process is over, before its descriptors are
    /// closed: the table of the process is gone, and its result stands in
    /// its node, as far as the node is still there.
    pub open spec fn report(self, pid: ProcessId, status: Seq<u8>) -> Step<()>
        recommends
            self.descriptors.contains_key(pid),
    {
        let node = self.descriptors[pid].node_id;
        let gone = self.without_process(pid);
        if gone.nodes.contains_key(node) {
            gone.temp_write(node, status)
        } else {
            Step { post: gone, events: Seq::empty(), outcome: IoResultPure::Success(()) }
        }
    }

    /// The filesystem after a process is over.
    pub open spec fn on_process_over(self, pid: ProcessId, status: Seq<u8>) -> VfsView {
        if self.descriptors.contains_key(pid) {
            self.report(pid, status).post.close_all(pid, self.descriptors[pid], 0)
        } else {
            self
        }
    }

    /// Making the nodes `layout[from..]`, one after the other, each with a
    /// reference that keeps it for good. The first that cannot be made ends
    /// the work.
    pub open spec fn create_all(self, layout: Seq<(Seq<Seq<char>>, FileOpsView)>, from: nat) -> Step<()>
        decreases layout.len() - from,
    {
        if from >= layout.len() {
            Step { post: self, events: Seq::empty(), outcome: IoResultPure::Success(()) }
        } else {
            let made = self.create_static(layout[from as int].0, layout[from as int].1);
            match made.outcome {
                IoResultPure::Success(_) => {
                    let rest = made.post.create_all(layout, from + 1);
                    Step { events: made.events + rest.events, ..rest }
                },
                other => Step { post: made.post, events: made.events, outcome: other.retyped() },
            }
        }
    }

    /// The way from a node up: the node, the branch it is linked in, and
    /// so on, as far as `fuel` steps lead.
    pub open spec fn ancestry(self, id: NodeId, fuel: nat) -> Ancestry
        decreases fuel,
    {
        if !self.nodes.contains_key(id) {
            Ancestry::Missing
        } else {
            match self.nodes[id].parent {
                None => Ancestry::Top(seq![id]),
                Some(parent) => if fuel == 0 {
                    Ancestry::Endless
                } else {
                    match self.ancestry(parent, (fuel - 1) as nat) {
                        Ancestry::Top(rest) => Ancestry::Top(seq![id] + rest),
                        other => other,
                    }
                },
            }
        }
    }

    /// Node ancestry in order [node, ..., root], or `None` if not connected
    /// to root. A way that is longer than there are nodes goes in a circle
    /// and does not reach the root.
    pub open spec fn node_ancestors(self, id: NodeId) -> IoResultPure<Option<Seq<NodeId>>> {
        match self.ancestry(id, self.nodes.dom().len()) {
            Ancestry::Missing => IoResultPure::Error(ErrorCode::fs_file_destroyed),
            Ancestry::Endless => IoResultPure::Success(None),
            Ancestry::Top(chain) => IoResultPure::Success(
                if chain.last() == root_id() {
                    Some(chain)
                } else {
                    None
                },
            ),
        }
    }

    /// The names on the way down a chain of nodes, which is given from the
    /// bottom up: for each node but the topmost, the name under which the
    /// node above lists it. A failure where a node is not listed by the one
    /// above, or where the one above cannot be listed.
    pub open spec fn names_along(self, chain: Seq<NodeId>) -> Step<Seq<Seq<char>>>
        decreases chain.len(),
    {
        if chain.len() <= 1 {
            Step { post: self, events: Seq::empty(), outcome: IoResultPure::Success(Seq::empty()) }
        } else {
            let parent = chain.last();
            let child = chain[chain.len() - 2];
            let listed = self.get_children(parent);
            match listed.outcome {
                IoResultPure::Success(children) => match listing_ids(children).index_of_first(
                    child,
                ) {
                    Some(i) => {
                        let rest = listed.post.names_along(chain.drop_last());
                        Step {
                            post: rest.post,
                            events: listed.events + rest.events,
                            outcome: match rest.outcome {
                                IoResultPure::Success(names) => IoResultPure::Success(
                                    seq![children[i].1] + names,
                                ),
                                other => other,
                            },
                        }
                    },
                    None => Step {
                        post: listed.post,
                        events: listed.events,
                        outcome: IoResultPure::Error(ErrorCode::fs_node_not_found),
                    },
                },
                other => Step {
                    post: listed.post,
                    events: listed.events,
                    outcome: other.retyped(),
                },
            }
        }
    }
}

/// Where the way from a node up ends.
pub enum Ancestry {
    /// At a node that is gone.
    Missing,
    /// Nowhere within the steps that were allowed.
    Endless,
    /// At a node that is linked nowhere: these are the nodes on the way,
    /// from the bottom up.
    Top(Seq<NodeId>),
}

/// The nodes of a listing, in order.
pub open spec fn listing_ids(entries: Seq<(NodeId, Seq<char>)>) -> Seq<NodeId> {
    Seq::new(entries.len(), |i: int| entries[i].0)
}

/// What starting a process does: the filesystem after it, the events that
/// it asks to trigger, its outcome, and the image of the process where one
/// was started.
pub struct ExecStep {
    pub post: VfsView,
    pub events: Seq<ExplicitEventId>,
    pub outcome: IoResultPure<FileClientId>,
    pub spawned: Option<Seq<u8>>,
}

/// The name of the branch that holds the nodes of the processes.
pub open spec fn process_directory() -> Seq<char> {
    seq!['p', 'r', 'c']
}

/// The digit `d` as a character.
pub open spec fn digit(d: nat) -> char {
    if d == 0 {
        '0'
    } else if d == 1 {
        '1'
    } else if d == 2 {
        '2'
    } else if d == 3 {
        '3'
    } else if d == 4 {
        '4'
    } else if d == 5 {
        '5'
    } else if d == 6 {
        '6'
    } else if d == 7 {
        '7'
    } else if d == 8 {
        '8'
    } else {
        '9'
    }
}

/// The number `n` in decimal digits, without leading zeros.
pub open spec fn decimal(n: nat) -> Seq<char>
    decreases n,
{
    if n < 10 {
        seq![digit(n)]
    } else {
        decimal(n / 10).push(digit(n % 10))
    }
}

/// A branch that the kernel keeps, without children.
pub open spec fn empty_branch() -> FileOpsView {
    FileOpsView::Internal(BranchView { children: Seq::empty(), readers: Map::empty() })
}

/// The tree that is there when the system starts: the branches at the top,
/// and the devices under `/dev`.
pub open spec fn boot_layout() -> Seq<(Seq<Seq<char>>, FileOpsView)> {
    seq![
        (seq![seq!['b', 'i', 'n']], empty_branch()),
        (seq![seq!['c', 'f', 'g']], empty_branch()),
        (seq![seq!['d', 'e', 'v']], empty_branch()),
        (seq![seq!['m', 'n', 't']], empty_branch()),
        (seq![process_directory()], empty_branch()),
        (seq![seq!['s', 'r', 'v']], empty_branch()),
        (seq![seq!['d', 'e', 'v'], seq!['n', 'u', 'l', 'l']], FileOpsView::Null),
        (seq![seq!['d', 'e', 'v'], seq!['z', 'e', 'r', 'o']], FileOpsView::Zero),
        (seq![seq!['d', 'e', 'v'], seq!['t', 'e', 's', 't']], FileOpsView::Device(DeviceKind::Test)),
        (
            seq![seq!['d', 'e', 'v'], seq!['c', 'o', 'n', 's', 'o', 'l', 'e']],
            FileOpsView::Device(DeviceKind::Console),
        ),
        (seq![seq!['d', 'e', 'v'], seq!['n', 'i', 'c']], FileOpsView::Device(DeviceKind::Nic)),
        (
            seq![seq!['d', 'e', 'v'], seq!['n', 'i', 'c', '_', 'm', 'a', 'c']],
            FileOpsView::Device(DeviceKind::NicMac),
        ),
    ]
}

/// What holds of the filesystem still holds when one of its nodes has
/// moved on and counters have advanced.
pub proof fn lemma_node_update_keeps_wf(pre: VfsView, post: VfsView, id: NodeId)
    requires
        pre.wf(),
        pre.nodes.contains_key(id),
        post.nodes == pre.nodes.insert(id, post.nodes[id]),
        post.descriptors == pre.descriptors,
        pre.next_node_id <= post.next_node_id,
        pre.next_event <= post.next_event,
        post.nodes[id].data.wf(),
        post.nodes[id].data.minted_below(post.next_event),
        pre.nodes[id].data.same_file(post.nodes[id].data),
        forall|fc: FileClientId| #[trigger]
            post.nodes[id].data.stream_clients().contains(fc) ==> fc.process.is_some(),
    ensures
        post.wf(),
        pre.referenced() && post.nodes[id].refcount > 0 ==> post.referenced(),
        forall|n: nat|
            post.next_kernel_fd <= pre.next_kernel_fd + n && post.next_node_id <= pre.next_node_id
                + n && post.next_event <= pre.next_event + n && post.nodes[id].refcount
                <= pre.nodes[id].refcount + n ==> pre.grew_by(post, n),
{
    assert forall|other: NodeId| #[trigger] post.nodes.contains_key(other) implies ({
        &&& other.value() < post.next_node_id
        &&& post.nodes[other].data.wf()
        &&& post.nodes[other].data.minted_below(post.next_event)
        &&& forall|c: FileClientId| #[trigger]
            post.nodes[other].data.stream_clients().contains(c) ==> c.process.is_some()
        &&& post.nodes[other].data matches FileOpsView::Attached(a) ==> a.manager.process.is_some()
    }) by {
        assert(pre.nodes.contains_key(other));
        if other != id {
            assert(post.nodes[other] == pre.nodes[other]);
        }
    }
    assert forall|n: nat|
        post.next_kernel_fd <= pre.next_kernel_fd + n && post.next_node_id <= pre.next_node_id + n
            && post.next_event <= pre.next_event + n && post.nodes[id].refcount
            <= pre.nodes[id].refcount + n implies pre.grew_by(post, n) by {
        assert forall|other: NodeId| #[trigger] post.nodes.contains_key(other) implies post.nodes[other].refcount
            <= (if pre.nodes.contains_key(other) {
            pre.nodes[other].refcount as int
        } else {
            0
        }) + n by {
            assert(pre.nodes.contains_key(other));
            if other != id {
                assert(post.nodes[other] == pre.nodes[other]);
            }
        }
    }
    if pre.referenced() && post.nodes[id].refcount > 0 {
        assert forall|other: NodeId| #[trigger] post.nodes.contains_key(other) implies post.nodes[other].refcount
            > 0 by {
            assert(pre.nodes.contains_key(other));
            if other != id {
                assert(post.nodes[other] == pre.nodes[other]);
            }
        }
    }
}

/// Growth adds up, and a budget covers the growth it was made for.
pub proof fn lemma_growth(a: VfsView, b: VfsView, c: VfsView, m: nat, n: nat)
    requires
        a.grew_by(b, m),
    ensures
        b.grew_by(c, n) ==> a.grew_by(c, m + n),
        forall|k: nat| a.has_budget(k + m) ==> b.has_budget(k),
        forall|k: nat| m <= k ==> a.grew_by(b, k),
{
    if b.grew_by(c, n) {
        assert forall|id: NodeId| #[trigger] c.nodes.contains_key(id) implies c.nodes[id].refcount
            <= (if a.nodes.contains_key(id) {
            a.nodes[id].refcount as int
        } else {
            0
        }) + m + n by {
            if b.nodes.contains_key(id) {
            }
        }
        assert forall|pid: ProcessId| #[trigger]
            c.descriptors.contains_key(pid) implies c.descriptors[pid].next_fd <= (
        if a.descriptors.contains_key(pid) {
            a.descriptors[pid].next_fd as int
        } else {
            0
        }) + m + n by {
            if b.descriptors.contains_key(pid) {
            }
        }
    }
    assert forall|k: nat| a.has_budget(k + m) implies b.has_budget(k) by {
        assert forall|id: NodeId| #[trigger] b.nodes.contains_key(id) implies b.nodes[id].refcount
            + k <= u64::MAX by {
            if a.nodes.contains_key(id) {
            }
        }
        assert forall|pid: ProcessId| #[trigger]
            b.descriptors.contains_key(pid) implies b.descriptors[pid].next_fd + k <= u64::MAX by {
            if a.descriptors.contains_key(pid) {
            }
        }
    }
}

/// What holds of the filesystem still holds when a node was made.
pub proof fn lemma_build_keeps_wf(pre: VfsView, parent: Option<NodeId>, builder: BuilderView)
    requires
        pre.wf(),
        pre.admits(builder),
        pre.has_budget(1),
    ensures
        ({
            let id = NodeId::of(pre.next_node_id);
            let post = pre.build(id, parent, builder).0;
            &&& post.wf()
            &&& pre.grew_by(post, 1)
            &&& !pre.nodes.contains_key(id)
            &&& (pre.referenced() ==> post.referenced_except(id))
        }),
{
    let id = NodeId::of(pre.next_node_id);
    let post = pre.build(id, parent, builder).0;
    crate::filesystem::node::lemma_node_id_of_value(pre.next_node_id, id);
    assert(!pre.nodes.contains_key(id)) by {
        if pre.nodes.contains_key(id) {
            assert(id.value() < pre.next_node_id);
        }
    }
    assert forall|other: NodeId| #[trigger] post.nodes.contains_key(other) implies ({
        &&& other.value() < post.next_node_id
        &&& post.nodes[other].data.wf()
        &&& post.nodes[other].data.minted_below(post.next_event)
        &&& forall|c: FileClientId| #[trigger]
            post.nodes[other].data.stream_clients().contains(c) ==> c.process.is_some()
        &&& post.nodes[other].data matches FileOpsView::Attached(a) ==> a.manager.process.is_some()
    }) by {
        if other != id {
            assert(pre.nodes.contains_key(other));
            assert(post.nodes[other] == pre.nodes[other]);
        } else {
            match builder {
                BuilderView::Ready(node) => {},
                BuilderView::Attachment { manager, is_leaf } => {
                    let fc = pre.with_descriptor(manager, id).1;
                    crate::filesystem::file::attachment::lemma_fresh_is_wf(
                        fc,
                        is_leaf,
                        ExplicitEventId(pre.next_event),
                        post.next_event,
                    );
                },
            }
        }
    }
    assert forall|pid: ProcessId, fd: FileDescriptor|
        #![trigger post.descriptors[pid].descriptors.contains_key(fd)]
        post.descriptors.contains_key(pid) && post.descriptors[pid].descriptors.contains_key(
            fd,
        ) implies fd.value() < post.descriptors[pid].next_fd by {
        match builder {
            BuilderView::Ready(node) => {},
            BuilderView::Attachment { manager, is_leaf } => {
                if pid == manager {
                    let fresh = FileDescriptor::of(pre.descriptors[pid].next_fd);
                    crate::abi::lemma_file_descriptor_of_value(pre.descriptors[pid].next_fd, fd);
                    if fd != fresh {
                        assert(pre.descriptors[pid].descriptors.contains_key(fd));
                    }
                } else {
                    assert(pre.descriptors.contains_key(pid));
                    assert(pre.descriptors[pid].descriptors.contains_key(fd));
                }
            },
        }
    }
    assert(pre.grew_by(post, 1)) by {
        assert forall|other: NodeId| #[trigger] post.nodes.contains_key(other) implies post.nodes[other].refcount
            <= (if pre.nodes.contains_key(other) {
            pre.nodes[other].refcount as int
        } else {
            0
        }) + 1 by {
            if other != id {
                assert(pre.nodes.contains_key(other));
            } else {

            }
        }
        assert forall|pid: ProcessId| #[trigger]
            post.descriptors.contains_key(pid) implies post.descriptors[pid].next_fd <= (
        if pre.descriptors.contains_key(pid) {
            pre.descriptors[pid].next_fd as int
        } else {
            0
        }) + 1 by {
            assert(pre.descriptors.contains_key(pid));
        }
    }
    if pre.referenced() {
        assert forall|other: NodeId|
            other != id && #[trigger] post.nodes.contains_key(
                other,
            ) implies post.nodes[other].refcount > 0 by {
            assert(pre.nodes.contains_key(other));
        }
    }
}

} // verus!
