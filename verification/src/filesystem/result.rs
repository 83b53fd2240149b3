//! What a file operation returns.

use vstd::prelude::*;
use crate::multitasking::waitfor::{ExplicitEventId, WaitFor};
use crate::multitasking::Scheduler;

verus! {

/// Why a file operation failed.
#[allow(non_camel_case_types)]
#[derive(Debug, Clone, Copy, PartialEq, Eq, Hash, Structural)]
pub enum ErrorCode {
    /// No node stands at some component of the path.
    fs_node_not_found,
    /// A sibling of that name exists already.
    fs_node_exists,
    /// The operation needs a branch, and the node is a leaf.
    fs_node_is_leaf,
    /// The node was collected while a descriptor still referred to it.
    fs_file_destroyed,
    /// A protocol message is malformed, or does not fit the buffer.
    fs_protocol,
    /// The file does not take writes from this client.
    fs_readonly,
    /// The file has no such operation.
    fs_unsupported,
}

/// The outcome of an operation, once its events are taken off.
#[derive(Debug)]
pub enum IoResultPure<T> {
    Success(T),
    Error(ErrorCode),
    /// Nothing was done: park until the wait is over, then repeat the call.
    RepeatAfter(WaitFor),
}

/// The events that a chain of operations asks the scheduler to trigger, in
/// the order in which they came up.
#[derive(Debug)]
pub struct IoContext {
    events: Vec<ExplicitEventId>,
}

impl IoContext {
    pub closed spec fn view(&self) -> Seq<ExplicitEventId> {
        self.events@
    }

    pub fn new() -> (ctx: Self)
        ensures
            ctx@ == Seq::<ExplicitEventId>::empty(),
    {
        IoContext { events: Vec::new() }
    }

    pub fn is_empty(&self) -> (b: bool)
        ensures
            b == (self@.len() == 0),
    {
        self.events.len() == 0
    }

    /// Adds one event after those that are there.
    pub fn push(&mut self, event: ExplicitEventId)
        ensures
            final(self)@ == old(self)@.push(event),
    {
        self.events.push(event);
    }

    /// Adds the events of `other` after those that are there.
    pub fn consume(&mut self, other: IoContext)
        ensures
            final(self)@ == old(self)@ + other@,
    {
        let mut other = other;
        self.events.append(&mut other.events);
    }

    /// Asks the scheduler to trigger every event, in order.
    pub fn flush(self, sched: &mut Scheduler)
        ensures
            final(sched).triggered() == old(sched).triggered() + self@,
            final(sched).next_pid() == old(sched).next_pid(),
            final(sched).spawned() == old(sched).spawned(),
    {
        let mut i: usize = 0;
        while i < self.events.len()
            invariant
                i <= self.events@.len(),
                sched.triggered() == old(sched).triggered() + self.events@.subrange(0, i as int),
                sched.next_pid() == old(sched).next_pid(),
                sched.spawned() == old(sched).spawned(),
            decreases self.events@.len() - i,
        {
            sched.trigger(self.events[i]);
            i += 1;
            assert(self.events@.subrange(0, i as int) =~= self.events@.subrange(0, i - 1).push(
                self.events@[i - 1],
            ));
        }
        assert(self.events@.subrange(0, i as int) =~= self.events@);
    }

    /// The events, in order.
    pub fn into_events(self) -> (events: Vec<ExplicitEventId>)
        ensures
            events@ == self@,
    {
        self.events
    }
}

/// What every file operation returns.
#[derive(Debug)]
pub enum IoResult<T> {
    Success(T),
    Error(ErrorCode),
    /// Nothing was done: park until the wait is over, then repeat the call.
    RepeatAfter(WaitFor),
    /// The inner result is the outcome, and before it is handed on the
    /// scheduler must wake every task that is parked on the event.
    TriggerEvent(ExplicitEventId, Box<IoResult<T>>),
}

impl<T> IoResult<T> {
    /// The events to trigger, outermost first.
    pub open spec fn events(self) -> Seq<ExplicitEventId>
        decreases self,
    {
        match self {
            IoResult::TriggerEvent(e, inner) => seq![e] + inner.events(),
            _ => Seq::empty(),
        }
    }

    /// The outcome under the events.
    pub open spec fn pure(self) -> IoResultPure<T>
        decreases self,
    {
        match self {
            IoResult::Success(v) => IoResultPure::Success(v),
            IoResult::Error(code) => IoResultPure::Error(code),
            IoResult::RepeatAfter(w) => IoResultPure::RepeatAfter(w),
            IoResult::TriggerEvent(_, inner) => inner.pure(),
        }
    }

    pub fn success(value: T) -> (r: Self)
        ensures
            r == IoResult::Success(value),
    {
        IoResult::Success(value)
    }

    pub fn error(code: ErrorCode) -> (r: Self)
        ensures
            r == IoResult::<T>::Error(code),
    {
        IoResult::Error(code)
    }

    pub fn is_success(&self) -> (b: bool)
        ensures
            b == (self.pure() is Success),
        decreases self,
    {
        match self {
            IoResult::Success(_) => true,
            IoResult::Error(_) => false,
            IoResult::RepeatAfter(_) => false,
            IoResult::TriggerEvent(_, inner) => inner.is_success(),
        }
    }

    /// Splits the result into its outcome and its events.
    pub fn separate_events(self) -> (r: (IoResultPure<T>, IoContext))
        ensures
            r.0 == self.pure(),
            r.1@ == self.events(),
        decreases self,
    {
        match self {
            IoResult::Success(v) => (IoResultPure::Success(v), IoContext::new()),
            IoResult::Error(code) => (IoResultPure::Error(code), IoContext::new()),
            IoResult::RepeatAfter(w) => (IoResultPure::RepeatAfter(w), IoContext::new()),
            IoResult::TriggerEvent(e, inner) => {
                let (pure, rest) = (*inner).separate_events();
                let mut ctx = IoContext::new();
                ctx.push(e);
                ctx.consume(rest);
                (pure, ctx)
            },
        }
    }

    /// The same outcome, with the events of `ctx` to be triggered before
    /// those of the result itself.
    pub fn with_context(self, ctx: IoContext) -> (r: Self)
        ensures
            r.pure() == self.pure(),
            r.events() == ctx@ + self.events(),
    {
        let events = ctx.into_events();
        let mut r = self;
        let mut i = events.len();
        while i > 0
            invariant
                i <= events@.len(),
                r.pure() == self.pure(),
                r.events() == events@.subrange(i as int, events@.len() as int) + self.events(),
            decreases i,
        {
            i -= 1;
            r = IoResult::TriggerEvent(events[i], Box::new(r));
            assert(r.events() =~= events@.subrange(i as int, events@.len() as int)
                + self.events());
        }
        assert(events@.subrange(0, events@.len() as int) =~= events@);
        r
    }
}

impl<T> IoResult<T> {
    /// A failure with its events, as the result of an operation of another
    /// type.
    pub fn retype<U>(self) -> (r: IoResult<U>)
        ensures
            r.pure() == self.pure().retyped::<U>(),
            r.events() == self.events(),
    {
        let (pure, ctx) = self.separate_events();
        pure.retype().with_context(ctx)
    }

    /// Hands the events to the scheduler, on success and on failure alike,
    /// and returns the outcome.
    pub fn consume_events(self, sched: &mut Scheduler) -> (r: IoResultPure<T>)
        ensures
            r == self.pure(),
            final(sched).triggered() == old(sched).triggered() + self.events(),
            final(sched).next_pid() == old(sched).next_pid(),
            final(sched).spawned() == old(sched).spawned(),
    {
        let (pure, ctx) = self.separate_events();
        ctx.flush(sched);
        pure
    }
}

impl<T> IoResultPure<T> {
    /// A failure, as the outcome of an operation of another type. (A
    /// success has no counterpart, and is turned into a protocol error.)
    pub open spec fn retyped<U>(self) -> IoResultPure<U> {
        match self {
            IoResultPure::Success(_) => IoResultPure::Error(ErrorCode::fs_protocol),
            IoResultPure::Error(code) => IoResultPure::Error(code),
            IoResultPure::RepeatAfter(w) => IoResultPure::RepeatAfter(w),
        }
    }

    /// A failure, as the outcome of an operation of another type.
    pub fn retype<U>(self) -> (r: IoResultPure<U>)
        ensures
            r == self.retyped::<U>(),
    {
        match self {
            IoResultPure::Success(_) => IoResultPure::Error(ErrorCode::fs_protocol),
            IoResultPure::Error(code) => IoResultPure::Error(code),
            IoResultPure::RepeatAfter(w) => IoResultPure::RepeatAfter(w),
        }
    }

    /// The outcome as a result without events.
    pub fn into_result(self) -> (r: IoResult<T>)
        ensures
            r.pure() == self,
            r.events() == Seq::<ExplicitEventId>::empty(),
    {
        match self {
            IoResultPure::Success(v) => IoResult::Success(v),
            IoResultPure::Error(code) => IoResult::Error(code),
            IoResultPure::RepeatAfter(w) => IoResult::RepeatAfter(w),
        }
    }

    /// The outcome as a result that triggers the events of `ctx`.
    pub fn with_context(self, ctx: IoContext) -> (r: IoResult<T>)
        ensures
            r.pure() == self,
            r.events() == ctx@,
    {
        self.into_result().with_context(ctx)
    }
}

} // verus!
