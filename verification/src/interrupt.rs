//! What the handlers of exceptions and interrupts decide.
//!
//! The handlers themselves are entered by the processor and talk to the
//! hardware. What they have to work out from the numbers they are given is
//! here.

use vstd::prelude::*;

verus! {

/// The table that a selector of a segment that is not present points into.
#[derive(Debug, Clone, Copy, PartialEq, Eq, Structural)]
pub enum SegmentNotPresentTable {
    GDT,
    IDT,
    LDT,
}

/// The error code of a "segment not present" exception, taken apart.
#[derive(Debug, Clone, Copy, PartialEq, Eq, Structural)]
pub struct SegmentNotPresent {
    /// Whether the exception came from outside the processor.
    pub external: bool,
    /// The table that the selector points into.
    pub table: SegmentNotPresentTable,
    /// The index of the selector in that table.
    pub index: u64,
}

/// Takes the error code of a "segment not present" exception apart: bit 0
/// tells whether the cause is external, bits 1 and 2 tell the table, and
/// bits 3 to 15 are the index.
pub fn exception_snp(error_code: u64) -> (decoded: SegmentNotPresent)
    ensures
        decoded.external == (error_code & 0b1 == 1),
        decoded.table == (if (error_code & 0b110) >> 1 == 0b00 {
            SegmentNotPresentTable::GDT
        } else if (error_code & 0b110) >> 1 == 0b10 {
            SegmentNotPresentTable::LDT
        } else {
            SegmentNotPresentTable::IDT
        }),
        decoded.index == (error_code & 0xFFFF) >> 3,
        decoded.index < 0x2000,
{
    let table = (error_code & 0b110) >> 1;
    let index = (error_code & 0xFFFF) >> 3;
    assert((error_code & 0xFFFF) >> 3 < 0x2000) by (bit_vector);
    SegmentNotPresent {
        external: error_code & 0b1 == 1,
        table: if table == 0b00 {
            SegmentNotPresentTable::GDT
        } else if table == 0b10 {
            SegmentNotPresentTable::LDT
        } else {
            SegmentNotPresentTable::IDT
        },
        index,
    }
}

/// Page Fault error codes
#[derive(Debug, Clone, Copy, PartialEq, Eq, Structural)]
pub struct PageFaultErrorCode {
    pub protection_violation: bool,
    pub caused_by_write: bool,
    pub user_mode: bool,
    pub malformed_table: bool,
    pub instruction_fetch: bool,
}

/// The bits of a page fault error code that have a meaning.
pub const PAGE_FAULT_BITS: u64 = 0b11111;

impl PageFaultErrorCode {
    /// The flags that the bits stand for. `None` where a bit is set that
    /// has no meaning.
    pub fn from_bits(bits: u64) -> (flags: Option<Self>)
        ensures
            flags.is_some() <==> bits & !PAGE_FAULT_BITS == 0,
            flags matches Some(f) ==> {
                &&& f.protection_violation == (bits & (1u64 << 0) != 0)
                &&& f.caused_by_write == (bits & (1u64 << 1) != 0)
                &&& f.user_mode == (bits & (1u64 << 2) != 0)
                &&& f.malformed_table == (bits & (1u64 << 3) != 0)
                &&& f.instruction_fetch == (bits & (1u64 << 4) != 0)
            },
    {
        if bits & !PAGE_FAULT_BITS != 0 {
            None
        } else {
            Some(
                PageFaultErrorCode {
                    protection_violation: bits & (1u64 << 0) != 0,
                    caused_by_write: bits & (1u64 << 1) != 0,
                    user_mode: bits & (1u64 << 2) != 0,
                    malformed_table: bits & (1u64 << 3) != 0,
                    instruction_fetch: bits & (1u64 << 4) != 0,
                },
            )
        }
    }
}

/// What the handler of a possibly spurious interrupt tells the interrupt
/// controllers.
#[derive(Debug, Clone, Copy, PartialEq, Eq, Structural)]
pub enum EndOfInterrupt {
    /// The interrupt is real: acknowledge it under this vector.
    Notify(u8),
    /// The interrupt of the secondary controller is spurious: acknowledge
    /// it to the primary controller only.
    NotifyPrimary,
    /// The interrupt of the primary controller is spurious: nothing to
    /// acknowledge.
    Ignore,
}

/// (Possibly) spurious interrupt for the primary PIC: real exactly if bit
/// 7 of the in-service register is set.
pub fn exception_irq7(isr: u16) -> (eoi: EndOfInterrupt)
    ensures
        eoi == (if isr & (1u16 << 7) != 0 {
            EndOfInterrupt::Notify(0x27)
        } else {
            EndOfInterrupt::Ignore
        }),
{
    if isr & (1u16 << 7) != 0 {
        EndOfInterrupt::Notify(0x27)
    } else {
        EndOfInterrupt::Ignore
    }
}

/// (Possibly) spurious interrupt for the secondary PIC: real exactly if bit
/// 15 of the in-service register is set.
pub fn exception_irq15(isr: u16) -> (eoi: EndOfInterrupt)
    ensures
        eoi == (if isr & (1u16 << 15) != 0 {
            EndOfInterrupt::Notify(0x2f)
        } else {
            EndOfInterrupt::NotifyPrimary
        }),
{
    if isr & (1u16 << 15) != 0 {
        EndOfInterrupt::Notify(0x2f)
    } else {
        EndOfInterrupt::NotifyPrimary
    }
}

/// What a system call hands back to its caller.
#[derive(Debug, Clone, Copy, PartialEq, Eq, Structural)]
pub struct SyscallResult {
    pub success: u64,
    pub result: u64,
}

/// The value in the first register that tells the entry code that the call
/// does not return now: the scheduler has taken over.
pub const NO_RETURN: u64 = 2;

/// The registers with which a system call comes back: the success flag and
/// the value, or, where the caller was parked, the sentinel alone.
pub fn syscall(result: Option<SyscallResult>) -> (registers: (u64, Option<u64>))
    ensures
        registers == (match result {
            Some(r) => (r.success, Some(r.result)),
            None => (NO_RETURN, None),
        }),
{
    match result {
        Some(r) => (r.success, Some(r.result)),
        None => (NO_RETURN, None),
    }
}

} // verus!
