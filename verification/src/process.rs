//! Process identifiers.

use vstd::prelude::*;
use crate::table::{Keyed, RawKey};

verus! {

/// Identifier of a process: a nonzero 64-bit number, handed out in
/// increasing order and never reused.
///
/// Zero is never a process id, so an optional process id still fits in one
/// machine word, and zero can stand for "no process" on the wire.
#[derive(Debug, Clone, Copy, PartialEq, Eq, Hash, Structural)]
pub struct ProcessId(u64);

impl ProcessId {
    /// The number behind the identifier.
    pub closed spec fn value(self) -> u64 {
        self.0
    }

    /// The identifier with the given number.
    pub closed spec fn of(raw: u64) -> ProcessId {
        ProcessId(raw)
    }

    #[verifier::type_invariant]
    spec fn nonzero(self) -> bool {
        self.0 != 0
    }

    /// The first process id.
    pub fn first() -> (pid: Self)
        ensures
            pid.value() == 1,
    {
        ProcessId(1)
    }

    /// The process id after this one. Only the process scheduler mints ids.
    pub fn next(self) -> (pid: Self)
        requires
            self.value() < u64::MAX,
        ensures
            pid.value() == self.value() + 1,
    {
        ProcessId(self.0 + 1)
    }

    /// The process id with the given number, if the number is a process id.
    pub fn from_u64(raw: u64) -> (pid: Option<Self>)
        ensures
            raw == 0 <==> pid.is_none(),
            pid matches Some(p) ==> p == Self::of(raw),
    {
        if raw == 0 {
            None
        } else {
            Some(ProcessId(raw))
        }
    }

    #[verifier::when_used_as_spec(value)]
    pub fn as_u64(self) -> (raw: u64)
        ensures
            raw == self.value(),
            raw != 0,
    {
        proof {
            use_type_invariant(self);
        }
        self.0
    }
}

impl Keyed for ProcessId {
    open spec fn raw(self) -> RawKey {
        (None, self.value())
    }

    fn to_raw(&self) -> (raw: RawKey) {
        (None, self.0)
    }

    proof fn lemma_raw_injective(a: Self, b: Self) {
    }
}

/// Two process ids with the same number are the same process id.
pub proof fn lemma_process_id_by_value(a: ProcessId, b: ProcessId)
    requires
        a.value() == b.value(),
    ensures
        a == b,
{
}

} // verus!
