//! Internal branches: directories that the kernel keeps.

use vstd::prelude::*;
use crate::filesystem::FileClientId;
use crate::filesystem::file::{chunk, filled, ByteStreams, CloseAction, CloseStep, ReadStep, WriteStep};
use crate::filesystem::node::NodeId;
use crate::filesystem::result::{ErrorCode, IoResult};
use crate::filesystem::wire::{
    listing_frame,
    listing_parse,
    listing_to_bytes,
    listing_view,
    modification_from_bytes,
    modification_parse,
    InternalModification,
    ModificationView,
};

verus! {

/// The children of a branch as plain values, as they go over the wire.
pub open spec fn plain_listing(children: Seq<(NodeId, Seq<char>)>) -> Seq<(u64, Seq<char>)> {
    Seq::new(children.len(), |i: int| (children[i].0.value(), children[i].1))
}

/// The state of an internal branch, as plain values.
pub struct BranchView {
    /// The children, in the order in which they were linked: node and name.
    pub children: Seq<(NodeId, Seq<char>)>,
    /// What each client that has begun to read the listing has still to
    /// read of it.
    pub readers: Map<FileClientId, Seq<u8>>,
}

impl BranchView {
    /// The names of the children, in order.
    pub open spec fn names(self) -> Seq<Seq<char>> {
        Seq::new(self.children.len(), |i: int| self.children[i].1)
    }

    /// The nodes of the children, in order.
    pub open spec fn nodes(self) -> Seq<NodeId> {
        Seq::new(self.children.len(), |i: int| self.children[i].0)
    }

    /// No two children have the same name.
    pub open spec fn wf(self) -> bool {
        self.names().no_duplicates()
    }

    /// The encoded listing reads back as the listing, and is no longer than
    /// a vector can be.
    pub open spec fn readable(self) -> bool {
        &&& listing_parse(self.frame()) == Some(plain_listing(self.children))
        &&& self.frame().len() <= usize::MAX
    }

    /// The child of the given name.
    pub open spec fn child_named(self, name: Seq<char>) -> Option<NodeId> {
        if self.names().contains(name) {
            Some(self.children[self.names().index_of(name)].0)
        } else {
            None
        }
    }

    /// The listing, encoded.
    pub open spec fn frame(self) -> Seq<u8> {
        listing_frame(plain_listing(self.children))
    }

    /// What `fc` has still to read: the rest of the listing it has begun
    /// to read, or the listing as it is now.
    pub open spec fn stream(self, fc: FileClientId) -> Seq<u8> {
        if self.readers.contains_key(fc) {
            self.readers[fc]
        } else {
            self.frame()
        }
    }

    /// A read by `fc` into a buffer of `capacity` bytes: the next bytes of
    /// the listing.
    pub open spec fn read(self, fc: FileClientId, capacity: nat) -> ReadStep<BranchView> {
        let stream = self.stream(fc);
        let n = chunk(capacity as int, stream.len() as int);
        ReadStep {
            post: BranchView {
                readers: self.readers.insert(fc, stream.subrange(n, stream.len() as int)),
                ..self
            },
            minted: 0,
            result: IoResult::Success(n as usize),
            data: stream.subrange(0, n),
        }
    }

    /// The children without the first link to `node`.
    pub open spec fn children_without(self, node: NodeId) -> Seq<(NodeId, Seq<char>)> {
        match self.nodes().index_of_first(node) {
            Some(i) => self.children.remove(i),
            None => self.children,
        }
    }

    /// The branch after a modification, or why the modification is refused:
    /// a name that is taken is not linked again.
    pub open spec fn modified(self, modification: ModificationView) -> Result<BranchView, ErrorCode> {
        match modification {
            ModificationView::Add(node, name) => if self.names().contains(name) {
                Err(ErrorCode::fs_node_exists)
            } else {
                Ok(BranchView { children: self.children.push((NodeId::of(node), name)), ..self })
            },
            ModificationView::Remove(node) => Ok(
                BranchView { children: self.children_without(NodeId::of(node)), ..self },
            ),
        }
    }

    /// A write of `bytes`: one modification, applied to the listing. A name
    /// that is taken is not linked again.
    pub open spec fn write(self, bytes: Seq<u8>) -> WriteStep<BranchView> {
        match modification_parse(bytes) {
            Some((ModificationView::Add(node, name), rest)) => {
                if self.names().contains(name) {
                    WriteStep { post: self, result: IoResult::Error(ErrorCode::fs_node_exists) }
                } else {
                    WriteStep {
                        post: BranchView {
                            children: self.children.push((NodeId::of(node), name)),
                            ..self
                        },
                        result: IoResult::Success((bytes.len() - rest) as usize),
                    }
                }
            },
            Some((ModificationView::Remove(node), rest)) => WriteStep {
                post: BranchView { children: self.children_without(NodeId::of(node)), ..self },
                result: IoResult::Success((bytes.len() - rest) as usize),
            },
            None => WriteStep { post: self, result: IoResult::Error(ErrorCode::fs_protocol) },
        }
    }

    /// A close by `fc`: the client's place in the listing is forgotten.
    pub open spec fn close(self, fc: FileClientId) -> CloseStep<BranchView> {
        CloseStep {
            post: BranchView { readers: self.readers.remove(fc), ..self },
            result: IoResult::Success(CloseAction::Normal),
        }
    }
}

/// A write keeps the names of a branch distinct.
pub proof fn lemma_write_keeps_names_distinct(s: BranchView, bytes: Seq<u8>)
    requires
        s.wf(),
    ensures
        s.write(bytes).post.wf(),
{
    let post = s.write(bytes).post;
    if post.children != s.children {
        match modification_parse(bytes) {
            Some((ModificationView::Add(node, name), rest)) => {
                assert(post.names() =~= s.names().push(name));
                assert forall|i: int, j: int|
                    0 <= i < post.names().len() && 0 <= j < post.names().len() && i
                        != j implies post.names()[i] != post.names()[j] by {
                    if i < s.names().len() && j < s.names().len() {
                        assert(s.names()[i] != s.names()[j]);
                    } else if i < s.names().len() {
                        assert(s.names()[i] == post.names()[i]);
                    } else {
                        assert(s.names()[j] == post.names()[j]);
                    }
                }
            },
            Some((ModificationView::Remove(node), rest)) => {
                s.nodes().index_of_first_ensures(NodeId::of(node));
                let k = s.nodes().index_of_first(NodeId::of(node)).unwrap();
                assert forall|i: int, j: int|
                    0 <= i < post.names().len() && 0 <= j < post.names().len() && i
                        != j implies post.names()[i] != post.names()[j] by {
                    let i2 = if i < k {
                        i
                    } else {
                        i + 1
                    };
                    let j2 = if j < k {
                        j
                    } else {
                        j + 1
                    };
                    assert(s.names()[i2] == post.names()[i]);
                    assert(s.names()[j2] == post.names()[j]);
                }
            },
            None => {},
        }
    }
}

/// A directory whose listing the kernel keeps.
///
/// Its listing is read as bytes and changed by writing modifications.
pub struct InternalBranch {
    children: Vec<(NodeId, String)>,
    /// The listing, encoded: kept ready for whoever reads it next.
    encoded: Vec<u8>,
    readers: ByteStreams,
}

impl InternalBranch {
    /// The branch as plain values.
    pub closed spec fn view(&self) -> BranchView {
        BranchView {
            children: Seq::new(
                self.children@.len(),
                |i: int| (self.children@[i].0, self.children@[i].1@),
            ),
            readers: self.readers@,
        }
    }

    /// The table of readers is in order, and the encoded listing is that
    /// of the children and reads back as such.
    pub closed spec fn tables_wf(&self) -> bool {
        &&& self.readers.wf()
        &&& self.encoded@ == self@.frame()
        &&& self@.readable()
    }

    /// What holds of a branch between any two operations.
    pub open spec fn wf(&self) -> bool {
        self.tables_wf() && self@.wf()
    }

    /// The encoded listing of a branch reads back as the listing.
    pub proof fn lemma_readable(&self)
        requires
            self.wf(),
        ensures
            self@.readable(),
    {
    }

    /// A branch without children.
    pub fn new() -> (branch: Self)
        ensures
            branch.wf(),
            branch@.children == Seq::<(NodeId, Seq<char>)>::empty(),
            branch@.readers == Map::<FileClientId, Seq<u8>>::empty(),
    {
        let children: Vec<(NodeId, String)> = Vec::new();
        let encoded = listing_to_bytes(&children);
        let branch = InternalBranch { children, encoded, readers: ByteStreams::new() };
        assert(branch@.children =~= Seq::<(NodeId, Seq<char>)>::empty());
        assert(listing_view(branch.children@) =~= plain_listing(branch@.children));
        assert(branch.encoded.len() == branch.encoded@.len());
        branch
    }

    /// Reads the next bytes of the listing.
    pub fn read(&mut self, fc: FileClientId, buf: &mut [u8]) -> (result: IoResult<usize>)
        requires
            old(self).wf(),
        ensures
            final(self).wf(),
            final(self)@ == old(self)@.read(fc, old(buf)@.len()).post,
            result == old(self)@.read(fc, old(buf)@.len()).result,
            final(buf)@ == filled(
                old(buf)@,
                old(self)@.read(fc, old(buf)@.len()).data,
                old(self)@.read(fc, old(buf)@.len()).data.len() as int,
            ),
    {
        if !self.readers.contains(fc) {
            self.readers.put(fc, self.encoded.clone());
        }
        let ghost stream = old(self)@.stream(fc);
        let n = match self.readers.read(fc, buf) {
            Some(n) => n,
            None => 0,
        };
        assert(self@.readers =~= old(self)@.read(fc, old(buf)@.len()).post.readers);
        assert(self@.children =~= old(self)@.children);
        assert(final(buf)@ =~= filled(old(buf)@, stream.subrange(0, n as int), n as int));
        IoResult::Success(n)
    }

    /// The place of the first child with the given name.
    fn find_name(&self, name: &String) -> (found: Option<usize>)
        requires
            self@.wf(),
        ensures
            match found {
                Some(i) => self@.names().contains(name@) && i == self@.names().index_of(name@),
                None => !self@.names().contains(name@),
            },
    {
        let mut i: usize = 0;
        while i < self.children.len()
            invariant
                i <= self.children@.len(),
                self@.wf(),
                forall|j: int| 0 <= j < i ==> self.children@[j].1@ != name@,
            decreases self.children@.len() - i,
        {
            if self.children[i].1 == *name {
                proof {
                    assert(self@.names()[i as int] == name@);
                    self@.names().index_of_first_ensures(name@);
                    let k = self@.names().index_of(name@);
                    assert(self@.names()[k] == name@);
                }
                return Some(i);
            }
            i += 1;
        }
        proof {
            if self@.names().contains(name@) {
                let j = choose|j: int| 0 <= j < self@.names().len() && self@.names()[j] == name@;
                assert(self.children@[j].1@ == name@);
            }
        }
        None
    }

    /// The place of the first link to the given node.
    fn find_node(&self, node: NodeId) -> (found: Option<usize>)
        ensures
            match found {
                Some(i) => self@.nodes().contains(node) && i < self@.children.len()
                    && self@.children.remove(i as int) == self@.children_without(node),
                None => !self@.nodes().contains(node) && self@.children
                    == self@.children_without(node),
            },
    {
        let mut i: usize = 0;
        while i < self.children.len()
            invariant
                i <= self.children@.len(),
                forall|j: int| 0 <= j < i ==> self.children@[j].0 != node,
            decreases self.children@.len() - i,
        {
            if self.children[i].0 == node {
                proof {
                    assert(self@.nodes()[i as int] == node);
                    self@.nodes().index_of_first_ensures(node);
                    let k = self@.nodes().index_of_first(node).unwrap();
                    if k < i {
                        assert(self.children@[k].0 == node);
                    }
                }
                return Some(i);
            }
            i += 1;
        }
        proof {
            if self@.nodes().contains(node) {
                let j = choose|j: int| 0 <= j < self@.nodes().len() && self@.nodes()[j] == node;
                assert(self.children@[j].0 == node);
            }
            self@.nodes().index_of_first_ensures(node);
        }
        None
    }

    /// Applies one modification, written as bytes, to the listing.
    pub fn write(&mut self, buf: &[u8]) -> (result: IoResult<usize>)
        requires
            old(self).wf(),
        ensures
            final(self).wf(),
            final(self)@ == old(self)@.write(buf@).post,
            result == old(self)@.write(buf@).result,
    {
        proof {
            lemma_write_keeps_names_distinct(self@, buf@);
        }
        match modification_from_bytes(buf) {
            Some((InternalModification::Add(node, name), rest)) => {
                if self.find_name(&name).is_some() {
                    IoResult::Error(ErrorCode::fs_node_exists)
                } else {
                    proof {
                        crate::filesystem::node::lemma_node_id_of_value(node.value(), node);
                    }
                    self.children.push((node, name));
                    assert(self@.children =~= old(self)@.children.push((node, name@)));
                    self.encoded = listing_to_bytes(&self.children);
                    assert(listing_view(self.children@) =~= plain_listing(self@.children));
                    assert(self.encoded.len() == self.encoded@.len());
                    IoResult::Success(buf.len() - rest)
                }
            },
            Some((InternalModification::Remove(node), rest)) => {
                proof {
                    crate::filesystem::node::lemma_node_id_of_value(node.value(), node);
                }
                if let Some(i) = self.find_node(node) {
                    self.children.remove(i);
                    assert(self@.children =~= old(self)@.children.remove(i as int));
                    self.encoded = listing_to_bytes(&self.children);
                    assert(listing_view(self.children@) =~= plain_listing(self@.children));
                    assert(self.encoded.len() == self.encoded@.len());
                }
                IoResult::Success(buf.len() - rest)
            },
            None => IoResult::Error(ErrorCode::fs_protocol),
        }
    }

    /// Forgets how far `fc` has read.
    pub fn close(&mut self, fc: FileClientId) -> (result: IoResult<CloseAction>)
        requires
            old(self).wf(),
        ensures
            final(self).wf(),
            final(self)@ == old(self)@.close(fc).post,
            result == old(self)@.close(fc).result,
    {
        self.readers.remove(fc);
        assert(self@.children =~= old(self)@.children);
        IoResult::Success(CloseAction::Normal)
    }
}

} // verus!
