//! The types that the kernel shares with user space.

use vstd::prelude::*;
use crate::table::{Keyed, RawKey};

verus! {

/// A file descriptor: a number by which one process, or the kernel, names a
/// file it has opened. Each owner counts its descriptors up from zero and
/// never uses one twice.
#[derive(Debug, Clone, Copy, PartialEq, Eq, Hash, Structural)]
pub struct FileDescriptor(u64);

impl FileDescriptor {
    /// The number behind the descriptor.
    pub closed spec fn value(self) -> u64 {
        self.0
    }

    /// The descriptor with the given number.
    pub closed spec fn of(raw: u64) -> FileDescriptor {
        FileDescriptor(raw)
    }

    pub fn from_u64(raw: u64) -> (fd: Self)
        ensures
            fd == Self::of(raw),
    {
        FileDescriptor(raw)
    }

    #[verifier::when_used_as_spec(value)]
    pub fn as_u64(self) -> (raw: u64)
        ensures
            raw == self.value(),
    {
        self.0
    }

    /// The descriptor after this one.
    pub fn next(self) -> (fd: Self)
        requires
            self.value() < u64::MAX,
        ensures
            fd.value() == self.value() + 1,
    {
        FileDescriptor(self.0 + 1)
    }
}

impl Keyed for FileDescriptor {
    open spec fn raw(self) -> RawKey {
        (None, self.value())
    }

    fn to_raw(&self) -> (raw: RawKey) {
        (None, self.0)
    }

    proof fn lemma_raw_injective(a: Self, b: Self) {
    }
}

/// Two descriptors with the same number are the same descriptor.
pub proof fn lemma_file_descriptor_by_value(a: FileDescriptor, b: FileDescriptor)
    requires
        a.value() == b.value(),
    ensures
        a == b,
{
}

/// A descriptor is the descriptor of its number.
pub proof fn lemma_file_descriptor_of_value(raw: u64, fd: FileDescriptor)
    ensures
        FileDescriptor::of(raw).value() == raw,
        FileDescriptor::of(fd.value()) == fd,
{
}

/// What `fileinfo` tells about a file.
#[derive(Debug, Clone, Copy, PartialEq, Eq, Structural)]
pub struct FileInfo {
    /// Whether the file is a leaf: one that has no children.
    pub is_leaf: bool,
}

} // verus!
