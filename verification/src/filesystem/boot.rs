//! The tree that is there when the system has started, node by node, and
//! the proof that making the boot layout in a new filesystem yields it.

use vstd::prelude::*;
use crate::filesystem::FileClientId;
use crate::filesystem::file::{DeviceKind, FileOpsView};
use crate::filesystem::file::internal::BranchView;
use crate::filesystem::file::process_file::ProcessFileView;
use crate::filesystem::model::{
    boot_layout,
    decimal,
    empty_branch,
    process_directory,
    root_id,
    BuilderView,
    DescriptorsView,
    VfsView,
};
use crate::filesystem::node::{lemma_node_id_of_value, NodeId, NodeView};
use crate::filesystem::result::{ErrorCode, IoResultPure};
use crate::process::ProcessId;

verus! {

/// The names of the boot layout, in the order in which the nodes are made:
/// six branches at the top, then six devices under `/dev`.
pub open spec fn boot_names() -> Seq<Seq<char>> {
    seq![
        seq!['b', 'i', 'n'],
        seq!['c', 'f', 'g'],
        seq!['d', 'e', 'v'],
        seq!['m', 'n', 't'],
        seq!['p', 'r', 'c'],
        seq!['s', 'r', 'v'],
        seq!['n', 'u', 'l', 'l'],
        seq!['z', 'e', 'r', 'o'],
        seq!['t', 'e', 's', 't'],
        seq!['c', 'o', 'n', 's', 'o', 'l', 'e'],
        seq!['n', 'i', 'c'],
        seq!['n', 'i', 'c', '_', 'm', 'a', 'c'],
    ]
}

/// The number of branches at the top.
pub open spec fn top_level() -> nat {
    6
}

/// The number of nodes in the boot layout.
pub open spec fn boot_nodes() -> nat {
    12
}

/// The node id of `/dev`.
pub open spec fn dev_id() -> NodeId {
    NodeId::of(4)
}

/// The node id of `/prc`.
pub open spec fn prc_id() -> NodeId {
    NodeId::of(6)
}

/// The file of the `k`-th node of the boot layout.
pub open spec fn boot_file(k: nat) -> FileOpsView {
    if k < top_level() {
        empty_branch()
    } else if k == 6 {
        FileOpsView::Null
    } else if k == 7 {
        FileOpsView::Zero
    } else if k == 8 {
        FileOpsView::Device(DeviceKind::Test)
    } else if k == 9 {
        FileOpsView::Device(DeviceKind::Console)
    } else if k == 10 {
        FileOpsView::Device(DeviceKind::Nic)
    } else {
        FileOpsView::Device(DeviceKind::NicMac)
    }
}

/// The path of the `k`-th node of the boot layout.
pub open spec fn boot_path(k: nat) -> Seq<Seq<char>> {
    if k < top_level() {
        seq![boot_names()[k as int]]
    } else {
        seq![boot_names()[2], boot_names()[k as int]]
    }
}

/// The children of the root when the first `k` nodes are made.
pub open spec fn boot_top(k: nat) -> Seq<(NodeId, Seq<char>)> {
    Seq::new(if k < top_level() { k } else { top_level() }, |i: int| (NodeId::of((i + 2) as u64), boot_names()[i]))
}

/// The children of `/dev` when the first `k` nodes are made.
pub open spec fn boot_devices(k: nat) -> Seq<(NodeId, Seq<char>)> {
    Seq::new(
        if k < top_level() { 0nat } else { (k - top_level()) as nat },
        |i: int| (NodeId::of((i + 8) as u64), boot_names()[i + 6]),
    )
}

/// The node with the number `n` when the first `k` nodes of the boot
/// layout are made. The root has the number 1, and the `i`-th node of the
/// layout the number `i + 2`. Every node has one reference, which keeps it
/// for good.
pub open spec fn boot_node(k: nat, n: u64) -> NodeView {
    if n == 1 {
        NodeView {
            parent: None,
            refcount: 1,
            data: FileOpsView::Internal(
                BranchView { children: boot_top(k), readers: Map::empty() },
            ),
        }
    } else if n == 4 {
        NodeView {
            parent: Some(root_id()),
            refcount: 1,
            data: FileOpsView::Internal(
                BranchView { children: boot_devices(k), readers: Map::empty() },
            ),
        }
    } else {
        NodeView {
            parent: Some(if n <= 7 { root_id() } else { dev_id() }),
            refcount: 1,
            data: boot_file((n - 2) as nat),
        }
    }
}

/// The filesystem when the first `k` nodes of the boot layout are made in
/// a new filesystem. Making a node at the top costs the kernel two
/// descriptors, making a device three.
pub open spec fn boot_progress(k: nat) -> VfsView {
    VfsView {
        nodes: Map::new(|id: NodeId| 1 <= id.value() <= k + 1, |id: NodeId| boot_node(k, id.value())),
        descriptors: Map::empty(),
        next_node_id: (k + 2) as u64,
        next_kernel_fd: (if k <= top_level() { 2 * k as int } else { 12 + 3 * (k - top_level()) }) as u64,
        next_event: 0,
    }
}

/// The tree that is there when the system has started: the root lists
/// `bin`, `cfg`, `dev`, `mnt`, `prc` and `srv`, in that order, all of them
/// branches that the kernel keeps, and `dev` lists `null`, `zero`, `test`,
/// `console`, `nic` and `nic_mac`, in that order, all of them leaves.
pub open spec fn boot_tree() -> VfsView {
    boot_progress(boot_nodes())
}

/// What tells the names of the boot layout apart: length and the first two
/// characters.
spec fn mark(name: Seq<char>) -> (nat, char, char) {
    (name.len(), name[0], name[1])
}

/// No two names of the boot layout are the same.
pub proof fn lemma_boot_names_distinct(i: int, j: int)
    requires
        0 <= i < 12,
        0 <= j < 12,
        i != j,
    ensures
        boot_names()[i] != boot_names()[j],
{
    let names = boot_names();
    assert(mark(names[0]) == (3nat, 'b', 'i'));
    assert(mark(names[1]) == (3nat, 'c', 'f'));
    assert(mark(names[2]) == (3nat, 'd', 'e'));
    assert(mark(names[3]) == (3nat, 'm', 'n'));
    assert(mark(names[4]) == (3nat, 'p', 'r'));
    assert(mark(names[5]) == (3nat, 's', 'r'));
    assert(mark(names[6]) == (4nat, 'n', 'u'));
    assert(mark(names[7]) == (4nat, 'z', 'e'));
    assert(mark(names[8]) == (4nat, 't', 'e'));
    assert(mark(names[9]) == (7nat, 'c', 'o'));
    assert(mark(names[10]) == (3nat, 'n', 'i'));
    assert(mark(names[11]) == (7nat, 'n', 'i'));
    assert(mark(names[i]) != mark(names[j]));
}

/// The boot layout, entry by entry.
pub proof fn lemma_boot_layout(k: nat)
    requires
        k < boot_nodes(),
    ensures
        boot_layout().len() == boot_nodes(),
        boot_layout()[k as int] == (boot_path(k), boot_file(k)),
{
    let layout = boot_layout();
    assert(process_directory() =~= boot_names()[4]);
    assert(layout[0].0 =~= boot_path(0));
    assert(layout[1].0 =~= boot_path(1));
    assert(layout[2].0 =~= boot_path(2));
    assert(layout[3].0 =~= boot_path(3));
    assert(layout[4].0 =~= boot_path(4));
    assert(layout[5].0 =~= boot_path(5));
    assert(layout[6].0 =~= boot_path(6));
    assert(layout[7].0 =~= boot_path(7));
    assert(layout[8].0 =~= boot_path(8));
    assert(layout[9].0 =~= boot_path(9));
    assert(layout[10].0 =~= boot_path(10));
    assert(layout[11].0 =~= boot_path(11));
}

/// The names of the root's children and of the devices while the boot
/// layout is made: the names of the layout, in order.
proof fn lemma_boot_listings(k: nat)
    requires
        k <= boot_nodes(),
    ensures
        forall|i: int|
            0 <= i < boot_top(k).len() ==> (#[trigger] boot_top(k)[i]) == (
                NodeId::of((i + 2) as u64),
                boot_names()[i],
            ),
        forall|i: int|
            0 <= i < boot_devices(k).len() ==> (#[trigger] boot_devices(k)[i]) == (
                NodeId::of((i + 8) as u64),
                boot_names()[i + 6],
            ),
        k < boot_nodes() ==> !(BranchView { children: boot_top(k), readers: Map::empty() }).names().contains(
            boot_names()[k as int],
        ),
        k < boot_nodes() ==> !(BranchView {
            children: boot_devices(k),
            readers: Map::empty(),
        }).names().contains(boot_names()[k as int]),
        k >= 3 ==> (BranchView { children: boot_top(k), readers: Map::empty() }).child_named(
            boot_names()[2],
        ) == Some(dev_id()),
        k >= 5 ==> (BranchView { children: boot_top(k), readers: Map::empty() }).child_named(
            boot_names()[4],
        ) == Some(prc_id()),
{
    let top = BranchView { children: boot_top(k), readers: Map::empty() };
    let devices = BranchView { children: boot_devices(k), readers: Map::empty() };
    if k < boot_nodes() {
        assert forall|i: int| 0 <= i < top.names().len() implies top.names()[i] != boot_names()[k as int] by {
            lemma_boot_names_distinct(i, k as int);
        }
        assert forall|i: int| 0 <= i < devices.names().len() implies devices.names()[i]
            != boot_names()[k as int] by {
            lemma_boot_names_distinct(i + 6, k as int);
        }
    }
    if k >= 3 {
        assert(top.names()[2] == boot_names()[2]);
        let at = top.names().index_of(boot_names()[2]);
        assert(top.names().contains(boot_names()[2]));
        assert(0 <= at < top.names().len() && top.names()[at] == boot_names()[2]);
        if at != 2 {
            lemma_boot_names_distinct(at, 2);
        }
    }
    if k >= 5 {
        assert(top.names()[4] == boot_names()[4]);
        let at = top.names().index_of(boot_names()[4]);
        assert(top.names().contains(boot_names()[4]));
        assert(0 <= at < top.names().len() && top.names()[at] == boot_names()[4]);
        if at != 4 {
            lemma_boot_names_distinct(at, 4);
        }
    }
}

/// Making the `k`-th node of the boot layout, where the nodes before it
/// are made, succeeds and leaves the filesystem with that node as well.
pub proof fn lemma_boot_step(k: nat)
    requires
        k < boot_nodes(),
    ensures
        boot_progress(k).made_static(boot_path(k), boot_file(k)) == Some(
            (boot_progress(k + 1), IoResultPure::Success(NodeId::of((k + 2) as u64))),
        ),
{
    let before = boot_progress(k);
    let after = boot_progress(k + 1);
    let names = boot_path(k);
    let name = boot_names()[k as int];
    let id = NodeId::of((k + 2) as u64);
    lemma_boot_listings(k);
    lemma_boot_listings(k + 1);
    lemma_node_id_of_value(1, id);
    lemma_node_id_of_value(4, id);
    lemma_node_id_of_value((k + 2) as u64, id);
    assert(names.last() == name);
    assert(before.nodes.contains_key(root_id()));
    assert(before.nodes[root_id()] == boot_node(k, 1));
    let parent = if k < top_level() { root_id() } else { dev_id() };
    if k < top_level() {
        assert(names.drop_last() =~= Seq::<Seq<char>>::empty());
        assert(before.lookup(names.drop_last()) == Some(IoResultPure::Success(root_id())));
        assert(before.looks(root_id(), names.drop_last()) == 0);
        assert(boot_top(k).push((id, name)) =~= boot_top(k + 1));
        assert(boot_devices(k) =~= boot_devices(k + 1));
    } else {
        let way = names.drop_last();
        assert(way =~= seq![boot_names()[2]]);
        assert(way.skip(1) =~= Seq::<Seq<char>>::empty());
        assert(before.walk(dev_id(), way.skip(1)) == Some(IoResultPure::Success(dev_id())));
        assert(before.looks(dev_id(), way.skip(1)) == 0);
        assert(before.walk(root_id(), way) == Some(IoResultPure::Success(dev_id())));
        assert(before.looks(root_id(), way) == 1);
        assert(before.nodes.contains_key(dev_id()));
        assert(before.nodes[dev_id()] == boot_node(k, 4));
        assert(boot_devices(k).push((id, name)) =~= boot_devices(k + 1));
        assert(boot_top(k) =~= boot_top(k + 1));
    }
    let found = before.after_lookup(names.drop_last());
    let made = found.with_child(parent, name, id).after_looks(2).build(
        id,
        Some(parent),
        BuilderView::Ready(
            NodeView { parent: Some(parent), refcount: 0, data: boot_file(k) },
        ),
    ).0.with_opened(id);
    assert(before.made_static(names, boot_file(k)) == Some((made, IoResultPure::Success(id))));
    assert forall|n: NodeId| made.nodes.contains_key(n) <==> after.nodes.contains_key(n) by {
        lemma_node_id_of_value(1, n);
        lemma_node_id_of_value(4, n);
    }
    assert forall|n: NodeId| made.nodes.contains_key(n) implies made.nodes[n] == after.nodes[n] by {
        lemma_node_id_of_value(1, n);
        lemma_node_id_of_value(4, n);
        if n == id {
            assert(made.nodes[n] == NodeView { parent: Some(parent), refcount: 1, data: boot_file(k) });
            if k == 2 {
                assert(boot_devices(3) =~= Seq::<(NodeId, Seq<char>)>::empty());
            }
        }
    }
    assert(made.nodes =~= after.nodes);
    assert(made == after);
}

/// Making the rest of the boot layout, where the first `k` nodes are made,
/// yields the boot tree.
proof fn lemma_boot_from(k: nat)
    requires
        k <= boot_nodes(),
    ensures
        boot_progress(k).made_all(boot_layout(), k) == Some((boot_tree(), IoResultPure::Success(()))),
    decreases boot_nodes() - k,
{
    if k < boot_nodes() {
        lemma_boot_layout(k);
        lemma_boot_step(k);
        lemma_boot_from(k + 1);
    } else {
        lemma_boot_layout(0);
    }
}

/// A filesystem that holds the root alone.
pub open spec fn bare() -> VfsView {
    VfsView {
        nodes: Map::empty().insert(
            root_id(),
            NodeView {
                parent: None,
                refcount: 1,
                data: FileOpsView::Internal(BranchView { children: Seq::empty(), readers: Map::empty() }),
            },
        ),
        descriptors: Map::empty(),
        next_node_id: 2,
        next_kernel_fd: 0,
        next_event: 0,
    }
}

/// Making the boot layout in a filesystem that holds the root alone
/// succeeds and yields the boot tree.
pub proof fn lemma_boot_tree()
    ensures
        bare().made_all(boot_layout(), 0) == Some((boot_tree(), IoResultPure::Success(()))),
{
    lemma_boot_from(0);
    assert(boot_top(0) =~= Seq::<(NodeId, Seq<char>)>::empty());
    assert forall|n: NodeId| boot_progress(0).nodes.contains_key(n) <==> n == root_id() by {
        lemma_node_id_of_value(1, n);
    }
    assert(boot_progress(0).nodes =~= bare().nodes);
    assert(boot_progress(0) == bare());
}

/// A process that is given its node in the boot tree, for the kernel, gets
/// the first node after those of the boot layout, under `/prc` and under
/// its process id in decimal digits, and an empty table of descriptors.
/// The kernel holds the one reference to the node. This is so however many
/// descriptors the kernel has used since the tree was made.
pub proof fn lemma_boot_registers(used: nat, new_pid: ProcessId, fc: FileClientId)
    ensures
        boot_tree().after_looks(used).registered(new_pid, None, fc) matches Some((post, outcome)) && {
            let id = NodeId::of(14);
            &&& outcome is Success
            &&& post.nodes.dom() == boot_tree().nodes.dom().insert(id)
            &&& post.nodes[prc_id()].data == FileOpsView::Internal(
                BranchView {
                    children: seq![(id, decimal(new_pid.value() as nat))],
                    readers: Map::empty(),
                },
            )
            &&& post.nodes[id] == (NodeView {
                parent: Some(prc_id()),
                refcount: 1,
                data: FileOpsView::Process(
                    ProcessFileView { pid: new_pid, owner: fc, status: None, readers: Map::empty() },
                ),
            })
            &&& post.descriptors.dom() == set![new_pid]
            &&& post.descriptors[new_pid] == (DescriptorsView {
                node_id: id,
                descriptors: Map::empty(),
                order: Seq::empty(),
                next_fd: 0,
            })
        },
{
    let tree = boot_tree().after_looks(used);
    let way = seq![process_directory()];
    let id = NodeId::of(14);
    lemma_boot_listings(12);
    lemma_node_id_of_value(1, id);
    lemma_node_id_of_value(4, id);
    lemma_node_id_of_value(6, prc_id());
    lemma_node_id_of_value(14, id);
    assert(process_directory() =~= boot_names()[4]);
    assert(tree.nodes.contains_key(root_id()));
    assert(tree.nodes[root_id()] == boot_node(12, 1));
    assert(tree.nodes.contains_key(prc_id()));
    assert(tree.nodes[prc_id()] == boot_node(12, 6));
    assert(way.skip(1) =~= Seq::<Seq<char>>::empty());
    assert(tree.walk(prc_id(), way.skip(1)) == Some(IoResultPure::Success(prc_id())));
    assert(tree.looks(prc_id(), way.skip(1)) == 0);
    assert(tree.walk(root_id(), way) == Some(IoResultPure::Success(prc_id())));
    assert(tree.looks(root_id(), way) == 1);
    let empty = BranchView { children: Seq::<(NodeId, Seq<char>)>::empty(), readers: Map::empty() };
    assert(empty.names() =~= Seq::<Seq<char>>::empty());
    assert(boot_file(4) == FileOpsView::Internal(empty));
    let post = tree.registered(new_pid, None, fc).unwrap().0;
    assert(empty.children.push((id, decimal(new_pid.value() as nat))) =~= seq![
        (id, decimal(new_pid.value() as nat)),
    ]);
    assert(post.nodes.dom() =~= boot_tree().nodes.dom().insert(id));
    assert(post.descriptors.dom() =~= set![new_pid]);
}

/// In the boot tree every name of the boot layout leads from its branch to
/// its node.
proof fn lemma_boot_children(i: nat)
    requires
        i < boot_nodes(),
    ensures
        forall|used: nat| #[trigger] boot_tree().after_looks(used).nodes == boot_tree().nodes,
        boot_tree().nodes.contains_key(root_id()),
        boot_tree().nodes.contains_key(dev_id()),
        boot_tree().nodes.contains_key(NodeId::of((i + 2) as u64)),
        boot_tree().nodes[root_id()] == boot_node(12, 1),
        boot_tree().nodes[dev_id()] == boot_node(12, 4),
        boot_tree().nodes[NodeId::of((i + 2) as u64)] == boot_node(12, (i + 2) as u64),
        i < top_level() ==> (BranchView { children: boot_top(12), readers: Map::empty() }).child_named(
            boot_names()[i as int],
        ) == Some(NodeId::of((i + 2) as u64)),
        i >= top_level() ==> (BranchView {
            children: boot_devices(12),
            readers: Map::empty(),
        }).child_named(boot_names()[i as int]) == Some(NodeId::of((i + 2) as u64)),
{
    lemma_boot_listings(12);
    lemma_node_id_of_value(1, root_id());
    lemma_node_id_of_value(4, dev_id());
    lemma_node_id_of_value((i + 2) as u64, root_id());
    let name = boot_names()[i as int];
    if i < top_level() {
        let top = BranchView { children: boot_top(12), readers: Map::empty() };
        assert(top.names()[i as int] == name);
        let at = top.names().index_of(name);
        assert(top.names().contains(name));
        assert(0 <= at < top.names().len() && top.names()[at] == name);
        if at != i {
            lemma_boot_names_distinct(at, i as int);
        }
    } else {
        let devices = BranchView { children: boot_devices(12), readers: Map::empty() };
        assert(devices.names()[i - 6] == name);
        let at = devices.names().index_of(name);
        assert(devices.names().contains(name));
        assert(0 <= at < devices.names().len() && devices.names()[at] == name);
        if at != i - 6 {
            lemma_boot_names_distinct(at + 6, i as int);
        }
    }
}

/// What the two branches of the boot tree list: the root lists `bin`,
/// `cfg`, `dev`, `mnt`, `prc` and `srv`, and `/dev` lists `null`, `zero`,
/// `test`, `console`, `nic` and `nic_mac`, each in that order and with the
/// node ids in the order in which the nodes were made.
pub proof fn lemma_boot_listing()
    ensures
        forall|used: nat| #[trigger] boot_tree().after_looks(used).nodes == boot_tree().nodes,
        boot_tree().nodes.contains_key(root_id()),
        boot_tree().nodes.contains_key(dev_id()),
        boot_tree().nodes[root_id()].data == FileOpsView::Internal(
            BranchView {
                children: seq![
                    (NodeId::of(2), boot_names()[0]),
                    (NodeId::of(3), boot_names()[1]),
                    (NodeId::of(4), boot_names()[2]),
                    (NodeId::of(5), boot_names()[3]),
                    (NodeId::of(6), boot_names()[4]),
                    (NodeId::of(7), boot_names()[5]),
                ],
                readers: Map::empty(),
            },
        ),
        boot_tree().nodes[dev_id()].data == FileOpsView::Internal(
            BranchView {
                children: seq![
                    (NodeId::of(8), boot_names()[6]),
                    (NodeId::of(9), boot_names()[7]),
                    (NodeId::of(10), boot_names()[8]),
                    (NodeId::of(11), boot_names()[9]),
                    (NodeId::of(12), boot_names()[10]),
                    (NodeId::of(13), boot_names()[11]),
                ],
                readers: Map::empty(),
            },
        ),
{
    lemma_boot_children(0);
    assert(boot_top(12) =~= seq![
        (NodeId::of(2), boot_names()[0]),
        (NodeId::of(3), boot_names()[1]),
        (NodeId::of(4), boot_names()[2]),
        (NodeId::of(5), boot_names()[3]),
        (NodeId::of(6), boot_names()[4]),
        (NodeId::of(7), boot_names()[5]),
    ]);
    assert(boot_devices(12) =~= seq![
        (NodeId::of(8), boot_names()[6]),
        (NodeId::of(9), boot_names()[7]),
        (NodeId::of(10), boot_names()[8]),
        (NodeId::of(11), boot_names()[9]),
        (NodeId::of(12), boot_names()[10]),
        (NodeId::of(13), boot_names()[11]),
    ]);
}

/// In the boot tree the path of each node of the boot layout leads to that
/// node, and finding it costs the kernel one descriptor for each name,
/// however many descriptors the kernel has used since the tree was made.
pub proof fn lemma_boot_paths(used: nat, k: nat)
    requires
        k < boot_nodes(),
    ensures
        boot_tree().after_looks(used).lookup(boot_path(k)) == Some(
            IoResultPure::Success(NodeId::of((k + 2) as u64)),
        ),
        boot_tree().after_looks(used).looks(root_id(), boot_path(k)) == boot_path(k).len(),
{
    let tree = boot_tree().after_looks(used);
    let path = boot_path(k);
    let id = NodeId::of((k + 2) as u64);
    lemma_boot_children(k);
    lemma_boot_children(2);
    if k < top_level() {
        assert(path.skip(1) =~= Seq::<Seq<char>>::empty());
        assert(tree.walk(id, path.skip(1)) == Some(IoResultPure::Success(id)));
        assert(tree.looks(id, path.skip(1)) == 0);
    } else {
        let rest = path.skip(1);
        assert(rest =~= seq![boot_names()[k as int]]);
        assert(rest.skip(1) =~= Seq::<Seq<char>>::empty());
        assert(tree.walk(id, rest.skip(1)) == Some(IoResultPure::Success(id)));
        assert(tree.looks(id, rest.skip(1)) == 0);
        assert(tree.walk(dev_id(), rest) == Some(IoResultPure::Success(id)));
        assert(tree.looks(dev_id(), rest) == 1);
    }
}

/// In the boot tree no path leads on from a device: a longer path fails
/// at the device, which is a leaf, after the kernel has listed the root
/// and `/dev`.
pub proof fn lemma_boot_devices_are_leaves(used: nat, k: nat, name: Seq<char>)
    requires
        top_level() <= k < boot_nodes(),
    ensures
        boot_tree().after_looks(used).lookup(boot_path(k).push(name)) == Some(
            IoResultPure::<NodeId>::Error(ErrorCode::fs_node_is_leaf),
        ),
        boot_tree().after_looks(used).looks(root_id(), boot_path(k).push(name)) == 2,
{
    let tree = boot_tree().after_looks(used);
    let path = boot_path(k).push(name);
    let id = NodeId::of((k + 2) as u64);
    lemma_boot_children(k);
    lemma_boot_children(2);
    lemma_node_id_of_value(1, id);
    lemma_node_id_of_value(4, id);
    let rest = path.skip(1);
    assert(rest =~= seq![boot_names()[k as int], name]);
    assert(rest.skip(1) =~= seq![name]);
    assert(tree.walk(id, rest.skip(1)) == Some(IoResultPure::<NodeId>::Error(ErrorCode::fs_node_is_leaf)));
    assert(tree.walk(dev_id(), rest) == Some(IoResultPure::<NodeId>::Error(ErrorCode::fs_node_is_leaf)));
    assert(tree.looks(id, rest.skip(1)) == 0);
    assert(tree.looks(dev_id(), rest) == 1);
}

/// In the boot tree the names of the boot layout are taken: making a node
/// at the path of one of them is refused. The walk to the branch and the
/// look at it cost the kernel descriptors, and nothing else is changed.
pub proof fn lemma_boot_names_are_taken(used: nat, k: nat, data: FileOpsView)
    requires
        k < boot_nodes(),
    ensures
        boot_tree().after_looks(used).made_static(boot_path(k), data) == Some(
            (
                boot_tree().after_looks(used).after_looks((boot_path(k).len() - 1) as nat).after_looks(1),
                IoResultPure::<NodeId>::Error(ErrorCode::fs_node_exists),
            ),
        ),
{
    let tree = boot_tree().after_looks(used);
    let path = boot_path(k);
    lemma_boot_children(k);
    lemma_boot_children(2);
    let way = path.drop_last();
    assert(path.last() == boot_names()[k as int]);
    if k < top_level() {
        assert(way =~= Seq::<Seq<char>>::empty());
        assert(tree.lookup(way) == Some(IoResultPure::Success(root_id())));
        assert(tree.looks(root_id(), way) == 0);
    } else {
        assert(way =~= seq![boot_names()[2]]);
        assert(way.skip(1) =~= Seq::<Seq<char>>::empty());
        assert(tree.walk(dev_id(), way.skip(1)) == Some(IoResultPure::Success(dev_id())));
        assert(tree.looks(dev_id(), way.skip(1)) == 0);
        assert(tree.walk(root_id(), way) == Some(IoResultPure::Success(dev_id())));
        assert(tree.looks(root_id(), way) == 1);
    }
}

} // verus!
