//! Symmetric multiprocessing: which core this is, and how the other cores
//! are brought up.
//!
//! The cores are started one at a time. For each, the first core parks the
//! top of a new stack in a shared word, sends the wakeup signal and waits
//! for the new core to take the stack, which clears the word. A core that
//! has not taken its stack when the polls are used up is given up.

use vstd::prelude::*;

verus! {

/// Processor (ACPI) id
#[derive(Debug, Clone, Copy, PartialEq, Eq, Hash, Structural)]
pub struct ProcessorId(pub u8);

/// The id of the core that runs this code: what the APIC says, where the
/// APIC is enabled, and else the first.
pub fn current_processor_id(apic: Option<ProcessorId>) -> (id: ProcessorId)
    ensures
        id == (match apic {
            Some(id) => id,
            None => ProcessorId(0),
        }),
{
    match apic {
        Some(id) => id,
        None => ProcessorId(0),
    }
}

/// If current core is BSP
pub fn is_bsp(apic: Option<ProcessorId>) -> (bsp: bool)
    ensures
        bsp == (match apic {
            Some(id) => id.0 == 0,
            None => true,
        }),
{
    match apic {
        Some(id) => id.0 == 0,
        None => true,
    }
}

/// Below this address no stack can lie: a core takes no stack whose top is
/// not above it.
pub const LOWEST_STACK: u64 = 0xa000;

/// How often the first core looks whether a new core has taken its stack.
pub const START_POLLS: u32 = 50_000;

/// How long the first core sleeps between two looks, in nanoseconds.
pub const START_POLL_INTERVAL: u64 = 200_000;

/// What the cores share while the others are brought up.
#[derive(Debug)]
pub struct ApState {
    /// The top of the stack for the core that is being started, or zero
    /// where no stack is on offer.
    free_stack: u64,
    /// Number of AP cores that have completed initialization
    ready_count: u64,
}

/// What the first core does next while it waits for a new core.
#[derive(Debug, Clone, Copy, PartialEq, Eq, Structural)]
pub enum StartStep {
    /// The new core is online.
    Online,
    /// Sleep for so many nanoseconds, then look again.
    Sleep(u64),
    /// The new core did not come up in time.
    TimedOut,
}

impl ApState {
    /// The stack on offer, or zero.
    pub closed spec fn free_stack(&self) -> u64 {
        self.free_stack
    }

    /// The number of cores that are ready.
    pub closed spec fn ready_count(&self) -> u64 {
        self.ready_count
    }

    /// No stack on offer, no core ready.
    pub fn new() -> (state: Self)
        ensures
            state.free_stack() == 0,
            state.ready_count() == 0,
    {
        ApState { free_stack: 0, ready_count: 0 }
    }

    /// Whether a stack can be offered: none is on offer.
    pub fn can_offer(&self) -> (b: bool)
        ensures
            b == (self.free_stack() == 0),
    {
        self.free_stack == 0
    }

    /// Whether a stack is on offer that a core can take: one whose top lies
    /// where a stack can lie.
    pub fn has_stack(&self) -> (b: bool)
        ensures
            b == (self.free_stack() > LOWEST_STACK),
    {
        self.free_stack > LOWEST_STACK
    }

    /// Whether one more core can be counted as ready.
    pub fn can_mark_ready(&self) -> (b: bool)
        ensures
            b == (self.ready_count() < u64::MAX),
    {
        self.ready_count < u64::MAX
    }
}

/// Offers the stack for the core that is started next: whatever top the
/// allocator gave. Must not be executed in parallel.
pub fn start_one(state: &mut ApState, stack_top: u64)
    requires
        old(state).free_stack() == 0,
    ensures
        final(state).free_stack() == stack_top,
        final(state).ready_count() == old(state).ready_count(),
{
    state.free_stack = stack_top;
}

/// What the first core does after its `polls`-th look at the stack on
/// offer: the new core is online once it has taken the stack; until then
/// the first core sleeps and looks again, [`START_POLLS`] times at most.
pub fn start_one_poll(state: &ApState, polls: u32) -> (step: StartStep)
    ensures
        step == (if state.free_stack() == 0 {
            StartStep::Online
        } else if polls >= START_POLLS {
            StartStep::TimedOut
        } else {
            StartStep::Sleep(START_POLL_INTERVAL)
        }),
{
    if state.free_stack == 0 {
        StartStep::Online
    } else if polls >= START_POLLS {
        StartStep::TimedOut
    } else {
        StartStep::Sleep(START_POLL_INTERVAL)
    }
}

/// New stack pointer from the stack on offer, which is taken off offer.
/// Must not be called without a stack on offer.
pub fn ap_take_stack(state: &mut ApState) -> (stack_top: u64)
    requires
        old(state).free_stack() > LOWEST_STACK,
    ensures
        stack_top == old(state).free_stack(),
        final(state).free_stack() == 0,
        final(state).ready_count() == old(state).ready_count(),
{
    let value = state.free_stack;
    state.free_stack = 0;
    value
}

/// Called by the AP once it has finished initialization
pub fn ap_mark_ready(state: &mut ApState)
    requires
        old(state).ready_count() < u64::MAX,
    ensures
        final(state).ready_count() == old(state).ready_count() + 1,
        final(state).free_stack() == old(state).free_stack(),
{
    state.ready_count = state.ready_count + 1;
}

/// Whether all cores are ready: every core but the first, which does the
/// starting, has marked itself.
pub fn start_all(state: &ApState, cores: u64) -> (done: bool)
    ensures
        done == (cores == 0 || state.ready_count() >= cores - 1),
{
    cores == 0 || state.ready_count >= cores - 1
}

/// The time after which a core that does not come up is given up, in
/// nanoseconds: ten seconds.
pub proof fn lemma_start_timeout()
    ensures
        START_POLLS * START_POLL_INTERVAL == 10_000_000_000,
{
}

} // verus!
