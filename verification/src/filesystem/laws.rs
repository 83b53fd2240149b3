//! What follows from the model of the filesystem, for trees that the kernel
//! keeps.
//!
//! The operations are defined by reading and writing encoded listings. The
//! lemmas here say what that comes to where no manager is involved: a
//! listing is the children of the branch, a path leads where the names lead,
//! and looking changes nothing but the count of descriptors that the kernel
//! has used.

use vstd::prelude::*;
use crate::filesystem::{
    read_all,
    FileClientId,
    ReadAll,
    ReadAllOutcome,
    VirtualFS,
    IO_BUFFER_SIZE,
};
use crate::filesystem::file::{chunk, FileOps, FileOpsView, Leafness};
use crate::filesystem::file::internal::{plain_listing, BranchView};
use crate::filesystem::file::process_file::ProcessFileView;
use crate::filesystem::write_all_to;
use crate::filesystem::wire::{modification_frame, modification_parse, ModificationView};
use crate::filesystem::model::{
    decimal,
    ExecStep,
    process_directory,
    BuilderView,
    listing_names,
    listing_nodes,
    root_id,
    DescriptorsView,
    Step,
    VfsView,
};
use crate::process::ProcessId;
use crate::filesystem::node::{lemma_node_id_of_value, NodeId, NodeView};
use crate::filesystem::result::{ErrorCode, IoResult, IoResultPure};
use crate::multitasking::waitfor::ExplicitEventId;
use crate::multitasking::ElfImage;

verus! {

/// Reading a listing to its end gives the rest of the listing, and leaves
/// the reader at the end of it.
pub proof fn lemma_read_all_of_listing(b: BranchView, fc: FileClientId, next: u64, acc: Seq<u8>)
    requires
        acc.len() + b.stream(fc).len() <= usize::MAX,
    ensures
        read_all(FileOpsView::Internal(b), fc, next, acc) == (ReadAll {
            post: FileOpsView::Internal(
                BranchView { readers: b.readers.insert(fc, Seq::empty()), ..b },
            ),
            minted: 0,
            outcome: ReadAllOutcome::Done(acc + b.stream(fc)),
        }),
    decreases b.stream(fc).len(),
{
    let stream = b.stream(fc);
    let step = b.read(fc, IO_BUFFER_SIZE as nat);
    let n = chunk(IO_BUFFER_SIZE as int, stream.len() as int);
    if stream.len() < IO_BUFFER_SIZE {
        assert(step.data =~= stream);
        assert(stream.subrange(n, stream.len() as int) =~= Seq::<u8>::empty());
    } else {
        let rest = stream.subrange(n, stream.len() as int);
        assert(step.post.stream(fc) == rest);
        lemma_read_all_of_listing(step.post, fc, next, acc + step.data);
        assert(acc + step.data + rest =~= acc + stream);
        assert(step.post.readers.insert(fc, Seq::empty()) =~= b.readers.insert(fc, Seq::empty()));
    }
}

impl VfsView {
    /// The filesystem with another state of a branch that the kernel
    /// keeps.
    pub open spec fn with_branch(self, id: NodeId, branch: BranchView) -> VfsView
        recommends
            self.nodes.contains_key(id),
    {
        VfsView {
            nodes: self.nodes.insert(
                id,
                NodeView { data: FileOpsView::Internal(branch), ..self.nodes[id] },
            ),
            ..self
        }
    }

    /// The filesystem with one more child in a branch that the kernel
    /// keeps.
    pub open spec fn with_child(self, parent: NodeId, name: Seq<char>, child: NodeId) -> VfsView
        recommends
            self.nodes.contains_key(parent),
            self.nodes[parent].data is Internal,
    {
        let branch = self.nodes[parent].data->Internal_0;
        self.with_branch(
            parent,
            BranchView { children: branch.children.push((child, name)), ..branch },
        )
    }

    /// The filesystem without the first link to a node in a branch that the
    /// kernel keeps.
    pub open spec fn without_child(self, parent: NodeId, child: NodeId) -> VfsView
        recommends
            self.nodes.contains_key(parent),
            self.nodes[parent].data is Internal,
    {
        let branch = self.nodes[parent].data->Internal_0;
        self.with_branch(
            parent,
            BranchView { children: branch.children_without(child), ..branch },
        )
    }

    /// The filesystem without a node. (Links to the node stay.)
    pub open spec fn without_node(self, id: NodeId) -> VfsView {
        VfsView { nodes: self.nodes.remove(id), ..self }
    }

    /// The filesystem after a node was taken out of it. Where the branch
    /// that holds the node is there and is kept by the kernel, the first
    /// link to the node is taken out of the branch, which costs the kernel
    /// a descriptor. Any other branch is left as it is.
    pub open spec fn collected(self, id: NodeId) -> VfsView
        recommends
            self.nodes.contains_key(id),
    {
        let without = self.without_node(id);
        match self.nodes[id].parent {
            Some(parent) => if without.nodes.contains_key(parent)
                && without.nodes[parent].data is Internal {
                without.without_child(parent, id).after_looks(1)
            } else {
                without
            },
            None => without,
        }
    }

    /// The filesystem after `fc` has closed `node_id`: the node has a
    /// reference less and its file has seen the close; where that destroys
    /// the node, the node is taken out. A node that is gone already is left
    /// alone.
    pub open spec fn after_close(self, fc: FileClientId, node_id: NodeId) -> VfsView {
        if !self.nodes.contains_key(node_id) {
            self
        } else {
            let closed = VfsView {
                nodes: self.nodes.insert(node_id, self.nodes[node_id].closed(fc)),
                ..self
            };
            if self.close_destroys(fc, node_id) {
                closed.collected(node_id)
            } else {
                closed
            }
        }
    }

    /// The filesystem after the descriptors `held.order[from..]` of a
    /// process that is over were closed, one after the other.
    pub open spec fn after_close_all(self, pid: ProcessId, held: DescriptorsView, from: nat) -> VfsView
        decreases held.order.len() - from,
    {
        if from >= held.order.len() {
            self
        } else {
            let fd = held.order[from as int];
            self.after_close(
                FileClientId { process: Some(pid), fd },
                held.descriptors[fd],
            ).after_close_all(pid, held, from + 1)
        }
    }

    /// What making a node at the end of a path, with a reference that keeps
    /// it for good, comes to where the path leads through the tree that the
    /// kernel keeps: the filesystem after it and the outcome. Where the path
    /// of the parent leads to a branch that the kernel keeps, the node is
    /// made under the next node id and linked at the end of the branch,
    /// unless the name is taken. Where the path of the parent leads
    /// nowhere, nothing is made. `None` where a manager has a say.
    pub open spec fn made_static(self, names: Seq<Seq<char>>, data: FileOpsView) -> Option<
        (VfsView, IoResultPure<NodeId>),
    >
        recommends
            names.len() > 0,
    {
        let found = self.after_lookup(names.drop_last());
        match self.lookup(names.drop_last()) {
            Some(IoResultPure::Success(parent)) => if self.nodes.contains_key(parent) {
                match self.nodes[parent].data {
                    FileOpsView::Internal(branch) => if branch.names().contains(names.last()) {
                        Some((found.after_looks(1), IoResultPure::Error(ErrorCode::fs_node_exists)))
                    } else {
                        let id = NodeId::of(self.next_node_id);
                        Some(
                            (
                                found.with_child(parent, names.last(), id).after_looks(2).build(
                                    id,
                                    Some(parent),
                                    BuilderView::Ready(
                                        NodeView { parent: Some(parent), refcount: 0, data },
                                    ),
                                ).0.with_opened(id),
                                IoResultPure::Success(id),
                            ),
                        )
                    },
                    _ => None,
                }
            } else {
                None
            },
            Some(other) => Some((found, other)),
            None => None,
        }
    }

    /// What reading all of the file at the end of a path comes to where
    /// the path leads through the tree that the kernel keeps: the kernel
    /// walks the path and reads the node at its end. `None` where the way
    /// leads through a branch that a manager serves.
    pub open spec fn read_at(self, names: Seq<Seq<char>>) -> Option<Step<Seq<u8>>> {
        let found = self.after_lookup(names);
        match self.lookup(names) {
            Some(IoResultPure::Success(id)) => Some(
                if found.nodes.contains_key(id) {
                    found.temp_read(id)
                } else {
                    found.fail(ErrorCode::fs_file_destroyed)
                },
            ),
            Some(other) => Some(
                Step { post: found, events: Seq::empty(), outcome: other.retyped() },
            ),
            None => None,
        }
    }

    /// What loading the image at the end of a path comes to where the path
    /// leads through the tree that the kernel keeps: the bytes of the
    /// file, in whole pages.
    pub open spec fn image_at(self, names: Seq<Seq<char>>) -> Option<Step<Seq<u8>>> {
        match self.read_at(names) {
            Some(read) => Some(
                Step {
                    outcome: match read.outcome {
                        IoResultPure::Success(bytes) => if bytes.len() + ElfImage::padding(bytes.len())
                            <= usize::MAX {
                            IoResultPure::Success(ElfImage::padded(bytes))
                        } else {
                            IoResultPure::Error(ErrorCode::fs_protocol)
                        },
                        other => other,
                    },
                    ..read
                },
            ),
            None => None,
        }
    }

    /// What loading an image and opening its file for the owner of the
    /// process to be, or for the kernel, comes to where the path leads
    /// through the tree that the kernel keeps, before the file is read and
    /// after it.
    pub open spec fn opened_at(self, names: Seq<Seq<char>>, owner: Option<ProcessId>) -> Option<
        Step<(Seq<u8>, FileClientId)>,
    > {
        match self.image_at(names) {
            Some(loaded) => match loaded.outcome {
                IoResultPure::Success(image) => {
                    let found = loaded.post.after_lookup(names);
                    match loaded.post.lookup(names) {
                        Some(IoResultPure::Success(file)) => {
                            let (held, fc) = found.with_owner_descriptor(owner, file);
                            Some(
                                if held.nodes.contains_key(file) {
                                    Step {
                                        post: held.with_opened(file),
                                        events: loaded.events,
                                        outcome: IoResultPure::Success((image, fc)),
                                    }
                                } else {
                                    Step {
                                        post: held,
                                        events: loaded.events,
                                        outcome: IoResultPure::Error(ErrorCode::fs_file_destroyed),
                                    }
                                },
                            )
                        },
                        Some(other) => Some(
                            Step { post: found, events: loaded.events, outcome: other.retyped() },
                        ),
                        None => None,
                    }
                },
                other => Some(
                    Step { post: loaded.post, events: loaded.events, outcome: other.retyped() },
                ),
            },
            None => None,
        }
    }

    /// What starting a process from the file at the end of a path comes to
    /// where the path leads through the tree that the kernel keeps and
    /// `/prc` is a branch of that tree: the image is loaded, the file is
    /// opened for the owner, and the process gets its node and its table
    /// of descriptors.
    pub open spec fn started(self, new_pid: ProcessId, names: Seq<Seq<char>>, owner: Option<ProcessId>) -> Option<
        ExecStep,
    > {
        match self.opened_at(names, owner) {
            Some(opened) => match opened.outcome {
                IoResultPure::Success((image, fc)) => match opened.post.registered(new_pid, owner, fc) {
                    Some((post, outcome)) => Some(
                        ExecStep { post, events: opened.events, outcome, spawned: Some(image) },
                    ),
                    None => None,
                },
                other => Some(
                    ExecStep {
                        post: opened.post,
                        events: opened.events,
                        outcome: other.retyped(),
                        spawned: None,
                    },
                ),
            },
            None => None,
        }
    }

    /// What giving a process that was started its node and its table of
    /// descriptors comes to where `/prc` is a branch that the kernel keeps:
    /// the node is linked there under the process id, written in decimal
    /// digits, the process has an empty table of descriptors, and the
    /// owner, or the kernel in its place, holds the one reference to the
    /// node. Where the name is taken or `/prc` is not there, nothing is
    /// made. `None` where `/prc` is of another kind.
    pub open spec fn registered(self, new_pid: ProcessId, owner: Option<ProcessId>, fc: FileClientId) -> Option<
        (VfsView, IoResultPure<FileClientId>),
    > {
        let way = seq![process_directory()];
        let name = decimal(new_pid.value() as nat);
        let found = self.after_lookup(way);
        match self.lookup(way) {
            Some(IoResultPure::Success(prc)) => if self.nodes.contains_key(prc) {
                match self.nodes[prc].data {
                    FileOpsView::Internal(branch) => if branch.names().contains(name) {
                        Some((found.after_looks(1), IoResultPure::Error(ErrorCode::fs_node_exists)))
                    } else {
                        let id = NodeId::of(self.next_node_id);
                        let made = found.with_child(prc, name, id).after_looks(2).build(
                            id,
                            Some(prc),
                            BuilderView::Ready(
                                NodeView {
                                    parent: Some(prc),
                                    refcount: 0,
                                    data: FileOpsView::Process(
                                        ProcessFileView {
                                            pid: new_pid,
                                            owner: fc,
                                            status: None,
                                            readers: Map::empty(),
                                        },
                                    ),
                                },
                            ),
                        ).0;
                        let known = VfsView {
                            descriptors: made.descriptors.insert(
                                new_pid,
                                DescriptorsView {
                                    node_id: id,
                                    descriptors: Map::empty(),
                                    order: Seq::empty(),
                                    next_fd: 0,
                                },
                            ),
                            ..made
                        };
                        let (held, handle) = known.with_owner_descriptor(owner, id);
                        Some((held.with_opened(id), IoResultPure::Success(handle)))
                    },
                    _ => None,
                }
            } else {
                None
            },
            Some(other) => Some((found, other.retyped())),
            None => None,
        }
    }

    /// What making the nodes `layout[from..]`, one after the other, comes
    /// to where every path leads through the tree that the kernel keeps.
    /// The first node that cannot be made ends the work.
    pub open spec fn made_all(self, layout: Seq<(Seq<Seq<char>>, FileOpsView)>, from: nat) -> Option<
        (VfsView, IoResultPure<()>),
    >
        decreases layout.len() - from,
    {
        if from >= layout.len() {
            Some((self, IoResultPure::Success(())))
        } else {
            match self.made_static(layout[from as int].0, layout[from as int].1) {
                Some((post, IoResultPure::Success(_))) => post.made_all(layout, from + 1),
                Some((post, other)) => Some((post, other.retyped())),
                None => None,
            }
        }
    }

    /// Where an absolute path leads in the tree that the kernel keeps.
    pub open spec fn lookup(self, names: Seq<Seq<char>>) -> Option<IoResultPure<NodeId>> {
        self.walk(root_id(), names)
    }

    /// The filesystem after the kernel has walked an absolute path through
    /// the tree that it keeps.
    pub open spec fn after_lookup(self, names: Seq<Seq<char>>) -> VfsView {
        self.after_looks(self.looks(root_id(), names))
    }

    /// The filesystem after the kernel has used `n` more of its
    /// descriptors.
    pub open spec fn after_looks(self, n: nat) -> VfsView {
        VfsView { next_kernel_fd: (self.next_kernel_fd + n) as u64, ..self }
    }

    /// Where the names lead from `cursor` in the tree that the kernel
    /// keeps: to a node, or to the failure at the first name that leads
    /// nowhere. `None` where the way leads through a branch that a manager
    /// serves.
    pub open spec fn walk(self, cursor: NodeId, names: Seq<Seq<char>>) -> Option<IoResultPure<NodeId>>
        decreases names.len(),
    {
        if names.len() == 0 {
            Some(IoResultPure::Success(cursor))
        } else if !self.nodes.contains_key(cursor) {
            Some(IoResultPure::Error(ErrorCode::fs_file_destroyed))
        } else {
            match self.nodes[cursor].data {
                FileOpsView::Internal(b) => match b.child_named(names[0]) {
                    Some(child) => self.walk(child, names.skip(1)),
                    None => Some(IoResultPure::Error(ErrorCode::fs_node_not_found)),
                },
                FileOpsView::Attached(a) => if a.is_leaf {
                    Some(IoResultPure::Error(ErrorCode::fs_node_is_leaf))
                } else {
                    None
                },
                _ => Some(IoResultPure::Error(ErrorCode::fs_node_is_leaf)),
            }
        }
    }

    /// How many descriptors the kernel uses on the way along `names` from
    /// `cursor`: one for each branch that it lists.
    pub open spec fn looks(self, cursor: NodeId, names: Seq<Seq<char>>) -> nat
        decreases names.len(),
    {
        if names.len() == 0 || !self.nodes.contains_key(cursor) {
            0
        } else {
            match self.nodes[cursor].data {
                FileOpsView::Internal(b) => match b.child_named(names[0]) {
                    Some(child) => 1 + self.looks(child, names.skip(1)),
                    None => 1,
                },
                _ => 0,
            }
        }
    }
}

/// Whether a modification, encoded, reads back as itself.
pub open spec fn writable(modification: ModificationView) -> bool {
    &&& modification_parse(modification_frame(modification)) == Some((modification, 0nat))
    &&& 0 < modification_frame(modification).len() <= usize::MAX
}

/// A modification of a branch that the kernel keeps changes the listing of
/// the branch as the modification says, or is refused as the branch says.
/// Either way it costs the kernel a descriptor and changes nothing else.
pub proof fn lemma_modify_is_exact(v: VfsView, id: NodeId, modification: ModificationView)
    requires
        v.wf(),
        writable(modification),
        v.nodes.contains_key(id),
        v.nodes[id].data is Internal,
    ensures
        v.modify(id, modification) == (match v.nodes[id].data->Internal_0.modified(modification) {
            Ok(branch) => Step {
                post: v.with_branch(id, branch).after_looks(1),
                events: Seq::<ExplicitEventId>::empty(),
                outcome: IoResultPure::Success(()),
            },
            Err(code) => Step {
                post: v.after_looks(1),
                events: Seq::<ExplicitEventId>::empty(),
                outcome: IoResultPure::Error(code),
            },
        }),
{
    let b = v.nodes[id].data->Internal_0;
    let fc = v.kernel_fc();
    let data = modification_frame(modification);
    assert(!b.readers.contains_key(fc)) by {
        if b.readers.contains_key(fc) {
            assert(v.nodes[id].data.stream_clients().contains(fc));
        }
    }
    let step = v.nodes[id].data.write(fc, data);
    let all = write_all_to(v.nodes[id].data, fc, data);
    reveal_with_fuel(write_all_to, 3);
    reveal_with_fuel(IoResult::pure, 2);
    reveal_with_fuel(IoResult::events, 2);
    assert(data.skip(data.len() as int).len() == 0);
    let post = v.modify(id, modification).post;
    match b.modified(modification) {
        Ok(branch) => {
            assert(all.post == FileOpsView::Internal(branch));
            assert(branch.close(fc).post.readers =~= branch.readers);
            assert(branch.close(fc).post == branch);
            assert(all.events =~= Seq::<ExplicitEventId>::empty());
            assert(post.nodes =~= v.with_branch(id, branch).after_looks(1).nodes);
        },
        Err(code) => {
            assert(all.post == FileOpsView::Internal(b));
            assert(b.close(fc).post.readers =~= b.readers);
            assert(b.close(fc).post == b);
            assert(post.nodes =~= v.nodes);
        },
    }
    assert(v.modify(id, modification).events =~= Seq::<ExplicitEventId>::empty());
}

/// The listing of a branch that the kernel keeps is its children. Listing
/// them costs the kernel a descriptor and changes nothing else.
pub proof fn lemma_listing_is_exact(v: VfsView, id: NodeId)
    requires
        v.wf(),
        v.listable(),
        v.nodes.contains_key(id),
        v.nodes[id].data is Internal,
    ensures
        v.get_children(id) == (Step {
            post: v.after_looks(1),
            events: Seq::<ExplicitEventId>::empty(),
            outcome: IoResultPure::Success(v.nodes[id].data->Internal_0.children),
        }),
{
    let b = v.nodes[id].data->Internal_0;
    let fc = v.kernel_fc();
    assert(!b.readers.contains_key(fc)) by {
        if b.readers.contains_key(fc) {
            assert(v.nodes[id].data.stream_clients().contains(fc));
        }
    }
    lemma_read_all_of_listing(b, fc, v.next_event, Seq::empty());
    let read = BranchView { readers: b.readers.insert(fc, Seq::empty()), ..b };
    assert(read.close(fc).post.readers =~= b.readers);
    assert(read.close(fc).post == b);
    assert(Seq::<u8>::empty() + b.stream(fc) =~= b.frame());
    let step = v.temp_read(id);
    assert(step.post.nodes =~= v.nodes);
    assert(step.events =~= Seq::<ExplicitEventId>::empty());
    let entries = plain_listing(b.children);
    assert(listing_nodes(entries) =~= b.children) by {
        assert forall|i: int| 0 <= i < b.children.len() implies listing_nodes(entries)[i]
            == b.children[i] by {
            lemma_node_id_of_value(b.children[i].0.value(), b.children[i].0);
        }
    }
}

/// The child of a branch that the kernel keeps is the child that its
/// listing names.
pub proof fn lemma_child_is_exact(v: VfsView, id: NodeId, name: Seq<char>)
    requires
        v.wf(),
        v.listable(),
        v.nodes.contains_key(id),
        v.nodes[id].data is Internal,
    ensures
        v.get_child(id, name) == (Step {
            post: v.after_looks(1),
            events: Seq::<ExplicitEventId>::empty(),
            outcome: match v.nodes[id].data->Internal_0.child_named(name) {
                Some(child) => IoResultPure::Success(child),
                None => IoResultPure::Error(ErrorCode::fs_node_not_found),
            },
        }),
        v.has_child(id, name) == (Step {
            post: v.after_looks(1),
            events: Seq::<ExplicitEventId>::empty(),
            outcome: IoResultPure::Success(
                v.nodes[id].data->Internal_0.names().contains(name),
            ),
        }),
{
    let b = v.nodes[id].data->Internal_0;
    lemma_listing_is_exact(v, id);
    assert(listing_names(b.children) =~= b.names());
    b.names().index_of_first_ensures(name);
    if b.names().contains(name) {
        let k = b.names().index_of(name);
        let first = b.names().index_of_first(name).unwrap();
        assert(b.names()[k] == name && b.names()[first] == name);
    }
}

/// A path through the tree that the kernel keeps leads where the names
/// lead. Finding that out costs the kernel descriptors and changes nothing
/// else.
pub proof fn lemma_resolve_is_exact(v: VfsView, cursor: NodeId, names: Seq<Seq<char>>)
    requires
        v.wf(),
        v.listable(),
        v.walk(cursor, names).is_some(),
        v.next_kernel_fd + names.len() <= u64::MAX,
    ensures
        v.resolve_from(cursor, names) == (Step {
            post: v.after_looks(v.looks(cursor, names)),
            events: Seq::<ExplicitEventId>::empty(),
            outcome: v.walk(cursor, names).unwrap(),
        }),
        v.looks(cursor, names) <= names.len(),
    decreases names.len(),
{
    if names.len() > 0 && v.nodes.contains_key(cursor) {
        match v.nodes[cursor].data {
            FileOpsView::Internal(b) => {
                lemma_child_is_exact(v, cursor, names[0]);
                match b.child_named(names[0]) {
                    Some(child) => {
                        let after = v.after_looks(1);
                        lemma_looking_changes_nothing(v, 1, child, names.skip(1));
                        lemma_resolve_is_exact(after, child, names.skip(1));
                        let rest = after.resolve_from(child, names.skip(1));
                        assert(Seq::<ExplicitEventId>::empty() + rest.events =~= rest.events);
                        assert(after.after_looks(after.looks(child, names.skip(1)))
                            == v.after_looks(v.looks(cursor, names)));
                    },
                    None => {},
                }
            },
            _ => {},
        }
    }
}

/// Descriptors that the kernel has used make no difference to where names
/// lead.
pub proof fn lemma_looking_changes_nothing(v: VfsView, n: nat, cursor: NodeId, names: Seq<Seq<char>>)
    ensures
        v.after_looks(n).walk(cursor, names) == v.walk(cursor, names),
        v.after_looks(n).looks(cursor, names) == v.looks(cursor, names),
        v.wf() && v.next_kernel_fd + n <= u64::MAX ==> v.after_looks(n).wf(),
        v.listable() ==> v.after_looks(n).listable(),
        v.looks(cursor, names) <= names.len(),
    decreases names.len(),
{
    let after = v.after_looks(n);
    if names.len() > 0 && v.nodes.contains_key(cursor) {
        match v.nodes[cursor].data {
            FileOpsView::Internal(b) => {
                match b.child_named(names[0]) {
                    Some(child) => {
                        lemma_looking_changes_nothing(v, n, child, names.skip(1));
                    },
                    None => {},
                }
            },
            _ => {},
        }
    }
    if v.wf() && v.next_kernel_fd + n <= u64::MAX {
        assert forall|id: NodeId| #[trigger] after.nodes.contains_key(id) implies ({
            &&& id.value() < after.next_node_id
            &&& after.nodes[id].data.wf()
            &&& after.nodes[id].data.minted_below(after.next_event)
            &&& forall|c: FileClientId| #[trigger]
                after.nodes[id].data.stream_clients().contains(c) ==> c.process.is_some()
            &&& after.nodes[id].data matches FileOpsView::Attached(a)
                ==> a.manager.process.is_some()
        }) by {
            assert(v.nodes.contains_key(id));
        }
    }
    if v.listable() {
        assert forall|id: NodeId| #[trigger] after.nodes.contains_key(id) implies (
        after.nodes[id].data matches FileOpsView::Internal(b) ==> b.readable()) by {
            assert(v.nodes.contains_key(id));
        }
    }
}

/// Two filesystems with the same nodes resolve a path through the tree
/// that the kernel keeps to the same outcome.
proof fn lemma_resolve_outcome(a: VfsView, v: VfsView, cursor: NodeId, names: Seq<Seq<char>>)
    requires
        v.wf(),
        v.listable(),
        a.nodes == v.nodes,
        a.next_event == v.next_event,
        v.walk(cursor, names).is_some(),
    ensures
        a.resolve_from(cursor, names).outcome == v.walk(cursor, names).unwrap(),
        a.resolve_from(cursor, names).events == Seq::<ExplicitEventId>::empty(),
        a.resolve_from(cursor, names).post.nodes == v.nodes,
        a.resolve_from(cursor, names).post.next_event == v.next_event,
    decreases names.len(),
{
    if names.len() > 0 && v.nodes.contains_key(cursor) {
        match v.nodes[cursor].data {
            FileOpsView::Internal(b) => {
                let fc = a.kernel_fc();
                assert(!b.readers.contains_key(fc)) by {
                    if b.readers.contains_key(fc) {
                        assert(v.nodes[cursor].data.stream_clients().contains(fc));
                    }
                }
                lemma_read_all_of_listing(b, fc, a.next_event, Seq::empty());
                let read = BranchView { readers: b.readers.insert(fc, Seq::empty()), ..b };
                assert(read.close(fc).post.readers =~= b.readers);
                assert(read.close(fc).post == b);
                assert(Seq::<u8>::empty() + b.stream(fc) =~= b.frame());
                let step = a.temp_read(cursor);
                assert(step.post.nodes =~= v.nodes);
                assert(step.events =~= Seq::<ExplicitEventId>::empty());
                let entries = plain_listing(b.children);
                assert(listing_nodes(entries) =~= b.children) by {
                    assert forall|i: int| 0 <= i < b.children.len() implies listing_nodes(
                        entries,
                    )[i] == b.children[i] by {
                        lemma_node_id_of_value(b.children[i].0.value(), b.children[i].0);
                    }
                }
                assert(listing_names(b.children) =~= b.names());
                b.names().index_of_first_ensures(names[0]);
                if b.names().contains(names[0]) {
                    let k = b.names().index_of(names[0]);
                    let first = b.names().index_of_first(names[0]).unwrap();
                    assert(b.names()[k] == names[0] && b.names()[first] == names[0]);
                    let child = b.child_named(names[0]).unwrap();
                    let first_step = a.get_child(cursor, names[0]);
                    lemma_resolve_outcome(first_step.post, v, child, names.skip(1));
                    let rest = first_step.post.resolve_from(child, names.skip(1));
                    assert(Seq::<ExplicitEventId>::empty() + rest.events =~= rest.events);
                }
            },
            _ => {},
        }
    }
}

/// Two successive walks along a path through the tree that the kernel
/// keeps end at the same node, or fail in the same way.
pub proof fn lemma_resolve_is_repeatable(v: VfsView, names: Seq<Seq<char>>)
    requires
        v.wf(),
        v.listable(),
        v.walk(root_id(), names).is_some(),
    ensures
        v.resolve(names).post.resolve(names).outcome == v.resolve(names).outcome,
        v.resolve(names).post.nodes == v.nodes,
        v.resolve(names).post.descriptors == v.descriptors,
{
    lemma_resolve_outcome(v, v, root_id(), names);
    let first = v.resolve(names);
    lemma_resolve_outcome(first.post, v, root_id(), names);
    lemma_resolve_keeps_descriptors(v, root_id(), names);
}

/// Walking a path leaves the processes as they are.
pub proof fn lemma_resolve_keeps_descriptors(v: VfsView, cursor: NodeId, names: Seq<Seq<char>>)
    ensures
        v.resolve_from(cursor, names).post.descriptors == v.descriptors,
    decreases names.len(),
{
    if names.len() > 0 {
        let first = v.get_child(cursor, names[0]);
        crate::filesystem::lemma_listing_keeps_tables(v, cursor, names[0]);
        match first.outcome {
            IoResultPure::Success(child) => {
                lemma_resolve_keeps_descriptors(first.post, child, names.skip(1));
            },
            _ => {},
        }
    }
}

/// Closing a node leaves no node without a reference: a node that loses
/// its last reference is removed.
pub proof fn lemma_close_keeps_references(v: VfsView, fc: FileClientId, id: NodeId)
    requires
        v.referenced(),
    ensures
        v.close_removed(fc, id).referenced(),
{
    if v.nodes.contains_key(id) {
        let closed = VfsView { nodes: v.nodes.insert(id, v.nodes[id].closed(fc)), ..v };
        let post = v.close_removed(fc, id);
        if v.close_destroys(fc, id) {
            let without = VfsView { nodes: closed.nodes.remove(id), ..closed };
            assert forall|other: NodeId| #[trigger]
                without.nodes.contains_key(other) implies without.nodes[other].refcount > 0 by {
                assert(v.nodes.contains_key(other));
            }
            match closed.nodes[id].parent {
                Some(parent) => {
                    lemma_modify_keeps_references(
                        without,
                        parent,
                        crate::filesystem::wire::ModificationView::Remove(id.value()),
                    );
                },
                None => {},
            }
        } else {
            assert forall|other: NodeId| #[trigger]
                post.nodes.contains_key(other) implies post.nodes[other].refcount > 0 by {
                if other != id {
                    assert(v.nodes.contains_key(other));
                }
            }
        }
    }
}

/// A modification of a branch changes no count of references.
pub proof fn lemma_modify_keeps_references(
    v: VfsView,
    id: NodeId,
    modification: crate::filesystem::wire::ModificationView,
)
    requires
        v.referenced(),
    ensures
        v.modify(id, modification).post.referenced(),
{
    let post = v.modify(id, modification).post;
    assert forall|other: NodeId| #[trigger] post.nodes.contains_key(other) implies post.nodes[other].refcount
        > 0 by {
        assert(v.nodes.contains_key(other));
    }
}

impl VirtualFS {
    /// In a filesystem that is in order, every branch that the kernel keeps
    /// has an encoded listing that reads back as the listing.
    pub proof fn lemma_listable(&self)
        requires
            self.wf(),
        ensures
            self@.listable(),
    {
        assert forall|id: NodeId| #[trigger] self@.nodes.contains_key(id) implies (
        self@.nodes[id].data matches FileOpsView::Internal(b) ==> b.readable()) by {
            self.lemma_node_readable(id);
        }
    }
}

} // verus!
