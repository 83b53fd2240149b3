//! The wire formats, as pinecone writes and reads them.
//!
//! Every message that crosses a file is pinecone's encoding of a plain value:
//! integers are little-endian and of fixed width, a tuple or struct is its
//! fields one after the other, and an enum is the index of the variant as a
//! varint followed by the variant's fields.
//!
//! Lengths are varints of the width of `usize`; what is said here of
//! encodings is said for machines on which `usize` has 64 bits, as it has
//! on the machine that the kernel is for.
//!
//! The functions of this module that call pinecone are trusted: their
//! contracts say what pinecone does and are not proved.

use vstd::prelude::*;
use vstd::bytes::spec_u64_to_le_bytes;
use crate::filesystem::node::NodeId;

verus! {

/// What a manager is asked to do for a client.
#[derive(Debug, Clone, Copy, PartialEq, Eq, Structural)]
pub enum FileOperation {
    /// The client wants to read up to this many bytes.
    Read(u64),
    /// The client has closed the file.
    Close,
}

/// The client that a message is about: its process id (zero for the kernel)
/// and its file descriptor.
#[derive(Debug, Clone, Copy, PartialEq, Eq, Structural)]
pub struct Sender {
    pub pid: u64,
    pub f: u64,
}

/// A message from an attachment to its manager.
#[derive(Debug, Clone, Copy, PartialEq, Eq, Structural)]
pub struct Request {
    pub sender: Sender,
    pub data: FileOperation,
}

/// A message from a manager to its attachment: the data that answers the
/// read of one client.
#[derive(Debug)]
pub struct Response {
    pub sender: Sender,
    pub data: Vec<u8>,
}

/// A change to the listing of an internal branch.
#[derive(Debug)]
pub enum InternalModification {
    /// Link the node under the name.
    Add(NodeId, String),
    /// Unlink the node.
    Remove(NodeId),
}

/// A [`Response`] as a plain value.
pub struct ResponseView {
    pub sender: Sender,
    pub data: Seq<u8>,
}

impl Response {
    pub open spec fn view(&self) -> ResponseView {
        ResponseView { sender: self.sender, data: self.data@ }
    }
}

/// An [`InternalModification`] as a plain value.
pub enum ModificationView {
    Add(u64, Seq<char>),
    Remove(u64),
}

impl InternalModification {
    pub open spec fn view(&self) -> ModificationView {
        match self {
            InternalModification::Add(id, name) => ModificationView::Add(id.value(), name@),
            InternalModification::Remove(id) => ModificationView::Remove(id.value()),
        }
    }
}

/// The entries of a listing as plain values.
pub open spec fn listing_view(entries: Seq<(NodeId, String)>) -> Seq<(u64, Seq<char>)> {
    Seq::new(entries.len(), |i: int| (entries[i].0.value(), entries[i].1@))
}

/// The encoding of a [`Request`]: the sender's process id and descriptor in
/// eight bytes each, then one byte that tells the operation, then, for a
/// read, the requested length in eight bytes.
pub open spec fn request_frame(request: Request) -> Seq<u8> {
    spec_u64_to_le_bytes(request.sender.pid) + spec_u64_to_le_bytes(request.sender.f) + (
    match request.data {
        FileOperation::Read(len) => seq![0u8] + spec_u64_to_le_bytes(len),
        FileOperation::Close => seq![1u8],
    })
}

/// What `pinecone::take_from_bytes` makes of bytes that are to hold a
/// [`Response`]: the response and the number of bytes that follow it, or
/// `None` where the bytes do not start with a response.
pub uninterp spec fn response_parse(bytes: Seq<u8>) -> Option<(ResponseView, nat)>;

/// What `pinecone::to_vec` makes of the listing of an internal branch.
pub uninterp spec fn listing_frame(entries: Seq<(u64, Seq<char>)>) -> Seq<u8>;

/// What `pinecone::from_bytes` makes of bytes that are to hold the listing
/// of an internal branch, or `None` where they do not start with one.
pub uninterp spec fn listing_parse(bytes: Seq<u8>) -> Option<Seq<(u64, Seq<char>)>>;

/// What `pinecone::to_vec` makes of an [`InternalModification`].
pub uninterp spec fn modification_frame(modification: ModificationView) -> Seq<u8>;

/// What `pinecone::take_from_bytes` makes of bytes that are to hold an
/// [`InternalModification`]: the modification and the number of bytes that
/// follow it, or `None` where the bytes do not start with one.
pub uninterp spec fn modification_parse(bytes: Seq<u8>) -> Option<(ModificationView, nat)>;

/// What `pinecone::from_bytes` makes of bytes that are to hold the listing
/// that the manager of a branch attachment sends: names, each with the
/// manager's descriptor of the child. `None` where they do not start with
/// such a listing.
pub uninterp spec fn branch_listing_parse(bytes: Seq<u8>) -> Option<Seq<(Seq<char>, u64)>>;

/// `pinecone::to_vec` on a request: sender as a pair of `u64`, operation as
/// a `Result` whose `Ok` is variant 0 with the length and whose `Err` is
/// variant 1 without fields. pinecone writes each `u64` as eight
/// little-endian bytes and each variant index as a one-byte varint, and
/// cannot fail on these types.
#[verifier::external_body]
pub(crate) fn request_to_bytes(request: &Request) -> (bytes: Vec<u8>)
    ensures
        bytes@ == request_frame(*request),
{
    let data: Result<u64, ()> = match request.data {
        FileOperation::Read(len) => Ok(len),
        FileOperation::Close => Err(()),
    };
    match pinecone::to_vec(&((request.sender.pid, request.sender.f), data)) {
        Ok(bytes) => bytes,
        Err(_) => Vec::new(),
    }
}

/// `pinecone::take_from_bytes` for a response: a pair of `u64` and a byte
/// vector. The bytes left over are a suffix of the input, so there are no
/// more of them than there are bytes in the input.
#[verifier::external_body]
pub(crate) fn response_from_bytes(bytes: &[u8]) -> (parsed: Option<(Response, usize)>)
    ensures
        match parsed {
            Some((response, rest)) => response_parse(bytes@) == Some((response@, rest as nat))
                && rest <= bytes@.len(),
            None => response_parse(bytes@).is_none(),
        },
{
    match pinecone::take_from_bytes::<((u64, u64), Vec<u8>)>(bytes) {
        Ok((((pid, f), data), rest)) => Some((Response { sender: Sender { pid, f }, data }, rest.len())),
        Err(_) => None,
    }
}

/// `pinecone::to_vec` on a listing: a vector of pairs of `u64` and string.
/// pinecone cannot fail on these types, and `pinecone::from_bytes` reads
/// back what `to_vec` wrote.
#[verifier::external_body]
pub(crate) fn listing_to_bytes(entries: &Vec<(NodeId, String)>) -> (bytes: Vec<u8>)
    ensures
        bytes@ == listing_frame(listing_view(entries@)),
        listing_parse(bytes@) == Some(listing_view(entries@)),
{
    let plain: Vec<(u64, &str)> = entries.iter().map(|e| (e.0.as_u64(), e.1.as_str())).collect();
    match pinecone::to_vec(&plain) {
        Ok(bytes) => bytes,
        Err(_) => Vec::new(),
    }
}

/// `pinecone::from_bytes` for a listing: a vector of pairs of `u64` and
/// string.
#[verifier::external_body]
pub(crate) fn listing_from_bytes(bytes: &[u8]) -> (parsed: Option<Vec<(NodeId, String)>>)
    ensures
        match parsed {
            Some(entries) => listing_parse(bytes@) == Some(listing_view(entries@)),
            None => listing_parse(bytes@).is_none(),
        },
{
    match pinecone::from_bytes::<Vec<(u64, String)>>(bytes) {
        Ok(plain) => Some(plain.into_iter().map(|e| (NodeId::from_u64(e.0), e.1)).collect()),
        Err(_) => None,
    }
}

/// `pinecone::to_vec` on a modification: a `Result` whose `Ok` is variant 0
/// with node id and name and whose `Err` is variant 1 with the node id.
/// pinecone cannot fail on these types, writes the index of the variant
/// first, so that there is at least one byte, and `pinecone::take_from_bytes`
/// reads back what `to_vec` wrote and leaves nothing over.
#[verifier::external_body]
pub(crate) fn modification_to_bytes(modification: &InternalModification) -> (bytes: Vec<u8>)
    ensures
        bytes@ == modification_frame(modification@),
        bytes@.len() > 0,
        modification_parse(bytes@) == Some((modification@, 0nat)),
{
    let plain: Result<(u64, &str), u64> = match modification {
        InternalModification::Add(id, name) => Ok((id.as_u64(), name.as_str())),
        InternalModification::Remove(id) => Err(id.as_u64()),
    };
    match pinecone::to_vec(&plain) {
        Ok(bytes) => bytes,
        Err(_) => Vec::new(),
    }
}

/// `pinecone::take_from_bytes` for a modification. The bytes left over are
/// a suffix of the input, so there are no more of them than there are bytes
/// in the input.
#[verifier::external_body]
pub(crate) fn modification_from_bytes(bytes: &[u8]) -> (parsed: Option<
    (InternalModification, usize),
>)
    ensures
        match parsed {
            Some((modification, rest)) => modification_parse(bytes@) == Some(
                (modification@, rest as nat),
            ) && rest <= bytes@.len(),
            None => modification_parse(bytes@).is_none(),
        },
{
    match pinecone::take_from_bytes::<Result<(u64, String), u64>>(bytes) {
        Ok((Ok((id, name)), rest)) => Some(
            (InternalModification::Add(NodeId::from_u64(id), name), rest.len()),
        ),
        Ok((Err(id), rest)) => Some((InternalModification::Remove(NodeId::from_u64(id)), rest.len())),
        Err(_) => None,
    }
}

/// The entries of a branch listing as plain values.
pub open spec fn branch_listing_view(entries: Seq<(String, u64)>) -> Seq<(Seq<char>, u64)> {
    Seq::new(entries.len(), |i: int| (entries[i].0@, entries[i].1))
}

/// `pinecone::from_bytes` for the listing of a branch attachment: a vector
/// of pairs of string and `u64`.
#[verifier::external_body]
pub(crate) fn branch_listing_from_bytes(bytes: &[u8]) -> (parsed: Option<Vec<(String, u64)>>)
    ensures
        match parsed {
            Some(entries) => branch_listing_parse(bytes@) == Some(branch_listing_view(entries@)),
            None => branch_listing_parse(bytes@).is_none(),
        },
{
    match pinecone::from_bytes::<Vec<(String, u64)>>(bytes) {
        Ok(entries) => Some(entries),
        Err(_) => None,
    }
}

} // verus!
