//! Wakeup tokens and wait conditions.

use vstd::prelude::*;
use crate::process::ProcessId;

verus! {

/// A one-shot wakeup token, unique over the life of the system.
#[derive(Debug, Clone, Copy, PartialEq, Eq, Hash, Structural)]
pub struct ExplicitEventId(pub u64);

/// A point of the monotonic system clock.
#[derive(Debug, Clone, Copy, PartialEq, Eq, Hash, Structural)]
pub struct Instant {
    pub sec: u64,
    pub nsec: u32,
}

/// The source of wakeup tokens: a counter that only grows, so that no token
/// is handed out twice.
#[derive(Debug)]
pub struct EventCounter {
    next: u64,
}

impl EventCounter {
    /// The number of the next token.
    pub closed spec fn next_id(&self) -> u64 {
        self.next
    }

    /// Whether `n` more tokens can be minted.
    pub open spec fn has_room(&self, n: nat) -> bool {
        self.next_id() + n <= u64::MAX
    }

    /// Whether `event` was minted by this counter at some earlier point.
    pub open spec fn minted(&self, event: ExplicitEventId) -> bool {
        event.0 < self.next_id()
    }

    pub fn new() -> (counter: Self)
        ensures
            counter.next_id() == 0,
    {
        EventCounter { next: 0 }
    }

    /// Whether `n` more tokens can be minted.
    pub fn has_room_for(&self, n: u64) -> (b: bool)
        ensures
            b == self.has_room(n as nat),
    {
        self.next <= u64::MAX - n
    }

    /// Whether one more token can be minted.
    pub fn can_mint(&self) -> (b: bool)
        ensures
            b == self.has_room(1),
    {
        self.next < u64::MAX
    }

    /// Mints a token that no earlier call has returned.
    pub fn mint(&mut self) -> (event: ExplicitEventId)
        requires
            old(self).has_room(1),
        ensures
            event.0 == old(self).next_id(),
            final(self).next_id() == old(self).next_id() + 1,
    {
        let event = ExplicitEventId(self.next);
        self.next = self.next + 1;
        event
    }
}

/// What a parked task waits for.
#[derive(Debug)]
pub enum WaitFor {
    /// Nothing: the task is ready now.
    Ready,
    /// Until the event is triggered.
    Event(ExplicitEventId),
    /// Until the clock reaches the instant.
    Time(Instant),
    /// Until the process is over.
    Process(ProcessId),
    /// Until the first of these is over.
    FirstOf(Vec<WaitFor>),
}

/// A condition that a task can wait on again and again, such as "this file
/// has input".
///
/// While the condition holds the flag is available. While it does not, the
/// flag holds the event that will be triggered when it next becomes
/// available.
#[derive(Debug)]
pub struct FdWaitFlag {
    event: Option<ExplicitEventId>,
}

impl FdWaitFlag {
    /// The event that waiters are parked on; `None` while the flag is
    /// available.
    pub closed spec fn pending_event(&self) -> Option<ExplicitEventId> {
        self.event
    }

    pub open spec fn is_available(&self) -> bool {
        self.pending_event().is_none()
    }

    /// A flag whose condition holds.
    pub fn new_available() -> (flag: Self)
        ensures
            flag.is_available(),
    {
        FdWaitFlag { event: None }
    }

    /// A flag whose condition does not hold yet.
    pub fn new_unavailable(ids: &mut EventCounter) -> (flag: Self)
        requires
            old(ids).has_room(1),
        ensures
            flag.pending_event() == Some(ExplicitEventId(old(ids).next_id())),
            final(ids).next_id() == old(ids).next_id() + 1,
    {
        let event = ids.mint();
        FdWaitFlag { event: Some(event) }
    }

    /// Marks the condition as holding. Returns the event that waiters are
    /// parked on, which the caller must have triggered.
    pub fn set_available(&mut self) -> (wake: Option<ExplicitEventId>)
        ensures
            wake == old(self).pending_event(),
            final(self).is_available(),
    {
        let wake = self.event;
        self.event = None;
        wake
    }

    /// Marks the condition as no longer holding.
    pub fn set_unavailable(&mut self, ids: &mut EventCounter)
        requires
            old(self).is_available() ==> old(ids).has_room(1),
        ensures
            !final(self).is_available(),
            old(self).pending_event() matches Some(e) ==> final(self).pending_event() == Some(e)
                && final(ids).next_id() == old(ids).next_id(),
            old(self).is_available() ==> final(self).pending_event() == Some(
                ExplicitEventId(old(ids).next_id()),
            ) && final(ids).next_id() == old(ids).next_id() + 1,
    {
        if self.event.is_none() {
            let event = ids.mint();
            self.event = Some(event);
        }
    }

    /// What to wait for until the condition holds.
    pub fn wait(&self) -> (wait: WaitFor)
        ensures
            match self.pending_event() {
                Some(e) => wait == WaitFor::Event(e),
                None => wait == WaitFor::Ready,
            },
    {
        match self.event {
            Some(e) => WaitFor::Event(e),
            None => WaitFor::Ready,
        }
    }

    /// What to wait for, for a caller that knows the condition does not hold.
    pub fn expect_wait(&self) -> (wait: WaitFor)
        requires
            !self.is_available(),
        ensures
            wait == WaitFor::Event(self.pending_event().unwrap()),
    {
        match self.event {
            Some(e) => WaitFor::Event(e),
            None => WaitFor::Ready,
        }
    }
}

} // verus!
