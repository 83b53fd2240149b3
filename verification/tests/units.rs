use vfs_core::abi::FileDescriptor;
use vfs_core::filesystem::file::attachment::{client, sender, Attachment};
use vfs_core::filesystem::file::internal::InternalBranch;
use vfs_core::filesystem::file::process_file::ProcessFile;
use vfs_core::filesystem::file::{CloseAction, DeviceKind, FileOps, Leafness, Trigger};
use vfs_core::filesystem::node::{Node, NodeId};
use vfs_core::filesystem::path::Path;
use vfs_core::filesystem::result::{ErrorCode, IoContext, IoResult, IoResultPure};
use vfs_core::filesystem::wire::Sender;
use vfs_core::filesystem::{decimal_string, find_child, find_name_of, read_to_end, write_all, FileClientId};
use vfs_core::interrupt::{
    exception_irq15, exception_irq7, exception_snp, syscall, EndOfInterrupt, PageFaultErrorCode,
    SegmentNotPresentTable, SyscallResult, NO_RETURN,
};
use vfs_core::multitasking::waitfor::{EventCounter, ExplicitEventId, FdWaitFlag, Instant, WaitFor};
use vfs_core::multitasking::{ElfImage, Scheduler, PAGE_SIZE_BYTES};
use vfs_core::process::ProcessId;
use vfs_core::smp::{
    ap_mark_ready, ap_take_stack, current_processor_id, is_bsp, start_all, start_one,
    start_one_poll, ApState, ProcessorId, StartStep, START_POLLS,
};
use vfs_core::time::{busy_sleep_until, settle, sleep_ms, SystemClock};

fn process_client(pid: u64, fd: u64) -> FileClientId {
    FileClientId::process(ProcessId::from_u64(pid).unwrap(), FileDescriptor::from_u64(fd))
}

fn events<T>(result: IoResult<T>) -> (IoResultPure<T>, Vec<ExplicitEventId>) {
    let (pure, ctx) = result.separate_events();
    (pure, ctx.into_events())
}

#[test]
fn process_ids_are_nonzero_and_count_up() {
    assert!(ProcessId::from_u64(0).is_none());
    let first = ProcessId::first();
    assert_eq!(first.as_u64(), 1);
    assert_eq!(first.next().as_u64(), 2);
    assert_eq!(ProcessId::from_u64(7).unwrap().as_u64(), 7);
    assert_eq!(NodeId::first().as_u64(), 1);
    assert_eq!(NodeId::first().next(), NodeId::from_u64(2));
    assert_eq!(FileDescriptor::from_u64(4).next().as_u64(), 5);
}

#[test]
fn senders_name_clients_on_the_wire() {
    let fc = process_client(3, 9);
    assert_eq!(sender(fc), Sender { pid: 3, f: 9 });
    assert_eq!(client(Sender { pid: 3, f: 9 }), fc);
    let kernel = FileClientId::kernel(FileDescriptor::from_u64(5));
    assert_eq!(sender(kernel), Sender { pid: 0, f: 5 });
    assert_eq!(client(Sender { pid: 0, f: 5 }), kernel);
}

#[test]
fn paths_split_at_slashes() {
    let path = Path::new("/dev//null/");
    assert!(path.is_absolute());
    assert_eq!(path.len(), 2);
    assert_eq!(path.component(0), "dev");
    assert_eq!(path.component(1), "null");
    assert_eq!(path.file_name().map(|s| s.as_str()), Some("null"));
    let parent = path.parent().unwrap();
    assert!(parent.is_absolute());
    assert_eq!(parent.len(), 1);
    assert_eq!(parent.component(0), "dev");

    let root = Path::new("/");
    assert!(root.is_absolute());
    assert_eq!(root.len(), 0);
    assert!(root.parent().is_none());
    assert!(root.file_name().is_none());

    let relative = Path::new("a/b");
    assert!(!relative.is_absolute());
    assert_eq!(relative.len(), 2);
    assert!(!Path::new("").is_absolute());
    assert_eq!(Path::new("").len(), 0);

    let mut grown = Path::root();
    grown.push("srv");
    grown.push("echo");
    let copy = grown.to_path_buf();
    assert_eq!(copy.len(), 2);
    assert_eq!(copy.component(1), "echo");
    assert_eq!(Path::new("/ä/ö").component(1), "ö");
}

#[test]
fn numbers_are_named_in_decimal() {
    assert_eq!(decimal_string(0), "0");
    assert_eq!(decimal_string(7), "7");
    assert_eq!(decimal_string(10), "10");
    assert_eq!(decimal_string(1203), "1203");
    assert_eq!(decimal_string(u64::MAX), "18446744073709551615");
}

#[test]
fn listings_are_searched_from_the_front() {
    let children = vec![
        (NodeId::from_u64(4), "a".to_string()),
        (NodeId::from_u64(5), "b".to_string()),
        (NodeId::from_u64(6), "a".to_string()),
        (NodeId::from_u64(5), "c".to_string()),
    ];
    assert_eq!(find_child(&children, "a"), Some(NodeId::from_u64(4)));
    assert_eq!(find_child(&children, "c"), Some(NodeId::from_u64(5)));
    assert_eq!(find_child(&children, "d"), None);
    assert_eq!(find_name_of(&children, NodeId::from_u64(5)), Some("b".to_string()));
    assert_eq!(find_name_of(&children, NodeId::from_u64(9)), None);
}

#[test]
fn results_carry_their_events_in_order() {
    let e = |n| ExplicitEventId(n);
    let result: IoResult<u8> = IoResult::TriggerEvent(
        e(1),
        Box::new(IoResult::TriggerEvent(e(2), Box::new(IoResult::Success(9)))),
    );
    assert!(result.is_success());
    let mut ctx = IoContext::new();
    assert!(ctx.is_empty());
    ctx.push(e(7));
    let mut more = IoContext::new();
    more.push(e(8));
    ctx.consume(more);
    let (pure, all) = events(result.with_context(ctx));
    assert!(matches!(pure, IoResultPure::Success(9)));
    assert_eq!(all, vec![e(7), e(8), e(1), e(2)]);

    let failed: IoResult<u8> = IoResult::TriggerEvent(
        e(3),
        Box::new(IoResult::error(ErrorCode::fs_node_not_found)),
    );
    assert!(!failed.is_success());
    let mut sched = Scheduler::new();
    sched.trigger(e(0));
    assert!(matches!(
        failed.consume_events(&mut sched),
        IoResultPure::Error(ErrorCode::fs_node_not_found)
    ));
    assert_eq!(sched.take_triggered(), vec![e(0), e(3)]);
    assert!(sched.take_triggered().is_empty());

    let parked: IoResult<u8> = IoResult::RepeatAfter(WaitFor::Event(e(4)));
    let retyped: IoResult<String> = parked.retype();
    assert!(matches!(retyped, IoResult::RepeatAfter(WaitFor::Event(ev)) if ev == e(4)));
    let success: IoResult<u8> = IoResult::success(1);
    assert!(matches!(
        success.retype::<String>(),
        IoResult::Error(ErrorCode::fs_protocol)
    ));
    let pure: IoResultPure<u8> = IoResultPure::Error(ErrorCode::fs_readonly);
    assert!(matches!(pure.into_result(), IoResult::Error(ErrorCode::fs_readonly)));
    Trigger::events(vec![e(5), e(6)]).run(&mut sched);
    Trigger::empty().run(&mut sched);
    assert_eq!(sched.take_triggered(), vec![e(5), e(6)]);
}

#[test]
fn wait_flag_hands_out_its_event_once() {
    let mut ids = EventCounter::new();
    assert!(ids.can_mint());
    let mut flag = FdWaitFlag::new_unavailable(&mut ids);
    assert!(matches!(flag.wait(), WaitFor::Event(ExplicitEventId(0))));
    assert!(matches!(flag.expect_wait(), WaitFor::Event(ExplicitEventId(0))));
    assert_eq!(flag.set_available(), Some(ExplicitEventId(0)));
    assert_eq!(flag.set_available(), None);
    assert!(matches!(flag.wait(), WaitFor::Ready));
    flag.set_unavailable(&mut ids);
    assert!(matches!(flag.wait(), WaitFor::Event(ExplicitEventId(1))));
    flag.set_unavailable(&mut ids);
    assert!(matches!(flag.wait(), WaitFor::Event(ExplicitEventId(1))));
    assert_eq!(ids.mint(), ExplicitEventId(2));
    let ready = FdWaitFlag::new_available();
    assert!(matches!(ready.wait(), WaitFor::Ready));
}

#[test]
fn images_are_padded_to_whole_pages() {
    let empty = ElfImage::new(Vec::new()).unwrap();
    assert_eq!(empty.size_pages(), 0);
    let one = ElfImage::new(vec![1, 2, 3]).unwrap();
    assert_eq!(one.size_pages(), 1);
    assert_eq!(one.as_bytes().len(), PAGE_SIZE_BYTES);
    assert_eq!(&one.as_bytes()[..4], &[1, 2, 3, 0]);
    assert!(one.as_bytes()[3..].iter().all(|b| *b == 0));
    let exact = ElfImage::new(vec![7; PAGE_SIZE_BYTES]).unwrap();
    assert_eq!(exact.size_pages(), 1);
    let more = ElfImage::new(vec![7; PAGE_SIZE_BYTES + 1]).unwrap();
    assert_eq!(more.size_pages(), 2);
    assert_eq!(more.as_bytes()[PAGE_SIZE_BYTES], 7);
    assert_eq!(more.as_bytes()[PAGE_SIZE_BYTES + 1], 0);
}

#[test]
fn scheduler_numbers_processes_from_one() {
    let mut sched = Scheduler::new();
    assert!(sched.can_spawn());
    let first = sched.spawn(ElfImage::new(vec![1]).unwrap());
    let second = sched.spawn(ElfImage::new(Vec::new()).unwrap());
    assert_eq!(first, ProcessId::first());
    assert_eq!(second, ProcessId::first().next());
    let spawned = sched.take_spawned();
    assert_eq!(spawned.len(), 2);
    assert_eq!(spawned[0].0, first);
    assert_eq!(spawned[0].1.size_pages(), 1);
    assert!(sched.take_spawned().is_empty());
}

#[test]
fn clock_carries_nanoseconds_into_seconds() {
    let mut clock = SystemClock::new();
    assert_eq!(clock.now(), Instant { sec: 0, nsec: 0 });
    assert!(clock.can_tick(999_999_999));
    assert_eq!(clock.tick(999_999_999), Instant { sec: 0, nsec: 999_999_999 });
    assert_eq!(clock.tick(1), Instant { sec: 1, nsec: 0 });
    assert_eq!(clock.tick(1_000_000_000), Instant { sec: 2, nsec: 0 });
    assert_eq!(clock.tick(400_000_000), Instant { sec: 2, nsec: 400_000_000 });
    assert_eq!(clock.tick(700_000_000), Instant { sec: 3, nsec: 100_000_000 });
    assert_eq!(clock.now(), Instant { sec: 3, nsec: 100_000_000 });
    assert!(!clock.can_tick(1_000_000_001));
    assert!(SystemClock::at(Instant { sec: 1, nsec: 1_000_000_000 }).is_none());
    let late = SystemClock::at(Instant { sec: u64::MAX, nsec: 5 }).unwrap();
    assert!(!late.can_tick(1));
    assert_eq!(vfs_core::time::init().now(), Instant { sec: 0, nsec: 0 });
}

#[test]
fn readers_of_the_clock_look_again_across_a_tick() {
    let a = Instant { sec: 4, nsec: 999_999_000 };
    let b = Instant { sec: 4, nsec: 999_999_500 };
    let c = Instant { sec: 5, nsec: 100 };
    assert_eq!(settle(a, b), Some(b));
    assert_eq!(settle(a, a), Some(a));
    assert_eq!(settle(b, a), None);
    assert_eq!(settle(b, c), None);
    assert_eq!(settle(c, c), Some(c));
}

#[test]
fn sleeps_end_at_their_instant() {
    let now = Instant { sec: 10, nsec: 900_000_000 };
    assert_eq!(sleep_ms(now, 0), Some(now));
    assert_eq!(sleep_ms(now, 100), Some(Instant { sec: 11, nsec: 0 }));
    assert_eq!(sleep_ms(now, 1_250), Some(Instant { sec: 12, nsec: 150_000_000 }));
    assert_eq!(sleep_ms(Instant { sec: u64::MAX, nsec: 0 }, 1_000), None);
    assert_eq!(
        sleep_ms(Instant { sec: u64::MAX, nsec: 0 }, 999),
        Some(Instant { sec: u64::MAX, nsec: 999_000_000 })
    );
    let until = Instant { sec: 11, nsec: 0 };
    assert!(!busy_sleep_until(now, until));
    assert!(busy_sleep_until(until, until));
    assert!(busy_sleep_until(Instant { sec: 11, nsec: 1 }, until));
    assert!(busy_sleep_until(Instant { sec: 12, nsec: 0 }, now));
    assert!(!busy_sleep_until(Instant { sec: 10, nsec: 999_999_999 }, until));
}

#[test]
fn cores_are_told_apart_by_the_apic() {
    assert_eq!(current_processor_id(None), ProcessorId(0));
    assert_eq!(current_processor_id(Some(ProcessorId(3))), ProcessorId(3));
    assert!(is_bsp(None));
    assert!(is_bsp(Some(ProcessorId(0))));
    assert!(!is_bsp(Some(ProcessorId(1))));
}

#[test]
fn a_core_comes_up_by_taking_its_stack() {
    let mut state = ApState::new();
    assert!(!state.has_stack());
    assert!(state.can_offer());
    assert!(matches!(start_one_poll(&state, 0), StartStep::Online));
    start_one(&mut state, 0x20_0000);
    assert!(state.has_stack());
    assert!(!state.can_offer());
    assert_eq!(start_one_poll(&state, 0), StartStep::Sleep(200_000));
    assert_eq!(start_one_poll(&state, START_POLLS - 1), StartStep::Sleep(200_000));
    assert_eq!(start_one_poll(&state, START_POLLS), StartStep::TimedOut);
    assert_eq!(START_POLLS, 50_000);
    assert_eq!(ap_take_stack(&mut state), 0x20_0000);
    assert!(!state.has_stack());
    assert_eq!(start_one_poll(&state, START_POLLS), StartStep::Online);

    // Any top can be offered; only one that can be a stack's can be taken.
    assert!(state.can_offer());
    start_one(&mut state, 0x5000);
    assert!(!state.can_offer());
    assert!(!state.has_stack());
    assert_eq!(start_one_poll(&state, 1), StartStep::Sleep(200_000));

    assert!(start_all(&state, 0));
    assert!(start_all(&state, 1));
    assert!(!start_all(&state, 3));
    assert!(state.can_mark_ready());
    ap_mark_ready(&mut state);
    assert!(!start_all(&state, 3));
    ap_mark_ready(&mut state);
    assert!(start_all(&state, 3));
}

#[test]
fn segment_not_present_codes_are_taken_apart() {
    let gdt = exception_snp(0b1000_0000_1000);
    assert!(!gdt.external);
    assert_eq!(gdt.table, SegmentNotPresentTable::GDT);
    assert_eq!(gdt.index, 0x101);
    let idt = exception_snp(0b0011);
    assert!(idt.external);
    assert_eq!(idt.table, SegmentNotPresentTable::IDT);
    assert_eq!(idt.index, 0);
    assert_eq!(exception_snp(0b0100).table, SegmentNotPresentTable::LDT);
    assert_eq!(exception_snp(0b0110).table, SegmentNotPresentTable::IDT);
    assert_eq!(exception_snp(0xffff_ffff_ffff_fff8).index, 0x1fff);
}

#[test]
fn page_fault_bits_are_flags() {
    assert_eq!(
        PageFaultErrorCode::from_bits(0),
        Some(PageFaultErrorCode {
            protection_violation: false,
            caused_by_write: false,
            user_mode: false,
            malformed_table: false,
            instruction_fetch: false,
        })
    );
    let flags = PageFaultErrorCode::from_bits(0b10110).unwrap();
    assert!(!flags.protection_violation);
    assert!(flags.caused_by_write);
    assert!(flags.user_mode);
    assert!(!flags.malformed_table);
    assert!(flags.instruction_fetch);
    assert!(PageFaultErrorCode::from_bits(0b11111).is_some());
    assert!(PageFaultErrorCode::from_bits(0b100000).is_none());
    assert!(PageFaultErrorCode::from_bits(1 << 63).is_none());
}

#[test]
fn spurious_interrupts_are_not_acknowledged_as_real() {
    assert_eq!(exception_irq7(1 << 7), EndOfInterrupt::Notify(0x27));
    assert_eq!(exception_irq7(!(1 << 7)), EndOfInterrupt::Ignore);
    assert_eq!(exception_irq15(1 << 15), EndOfInterrupt::Notify(0x2f));
    assert_eq!(exception_irq15(0x7fff), EndOfInterrupt::NotifyPrimary);
}

#[test]
fn system_calls_come_back_with_two_words_or_the_sentinel() {
    assert_eq!(
        syscall(Some(SyscallResult { success: 1, result: 42 })),
        (1, Some(42))
    );
    assert_eq!(
        syscall(Some(SyscallResult { success: 0, result: 7 })),
        (0, Some(7))
    );
    assert_eq!(syscall(None), (NO_RETURN, None));
    assert_eq!(NO_RETURN, 2);
}

#[test]
fn attachment_follows_the_protocol() {
    let mut ids = EventCounter::new();
    let manager = process_client(1, 0);
    let a = process_client(2, 0);
    let b = process_client(2, 1);
    let mut attachment = Attachment::new(manager, false, &mut ids);
    assert_eq!(attachment.manager(), manager);
    assert_eq!(attachment.leafness(), Leafness::Branch);
    assert_eq!(attachment.pid(), manager.process);
    let flag = ExplicitEventId(0);

    // The first read wakes the manager, later ones do not.
    let mut buf = [0u8; 40];
    let (first, woken) = events(attachment.read(a, &mut buf[..10], &mut ids));
    assert!(matches!(first, IoResultPure::RepeatAfter(WaitFor::Event(ExplicitEventId(1)))));
    assert_eq!(woken, vec![flag]);
    let (second, woken) = events(attachment.read(b, &mut buf[..20], &mut ids));
    assert!(matches!(second, IoResultPure::RepeatAfter(WaitFor::Event(ExplicitEventId(2)))));
    assert!(woken.is_empty());
    assert!(matches!(attachment.read_waiting_for(b), WaitFor::Event(ExplicitEventId(2))));
    assert!(matches!(attachment.read_waiting_for(manager), WaitFor::Ready));

    // Destroying now would wake both clients, each once.
    let mut all: Vec<u64> = attachment.destroy().into_events().iter().map(|e| e.0).collect();
    all.sort();
    assert_eq!(all, vec![1, 2]);

    // The manager picks both up, and then has to wait on a new event.
    let (picked, _) = events(attachment.read(manager, &mut buf, &mut ids));
    assert!(matches!(picked, IoResultPure::Success(25)));
    let request: ((u64, u64), Result<u64, ()>) = pinecone::from_bytes(&buf[..25]).unwrap();
    assert_eq!(request, ((2, 0), Ok(10)));
    assert!(matches!(attachment.read_waiting_for(a), WaitFor::Ready));
    let (picked, _) = events(attachment.read(manager, &mut buf, &mut ids));
    assert!(matches!(picked, IoResultPure::Success(25)));
    let request: ((u64, u64), Result<u64, ()>) = pinecone::from_bytes(&buf[..25]).unwrap();
    assert_eq!(request, ((2, 1), Ok(20)));
    let (parked, woken) = events(attachment.read(manager, &mut buf, &mut ids));
    assert!(matches!(parked, IoResultPure::RepeatAfter(WaitFor::Event(ExplicitEventId(3)))));
    assert!(woken.is_empty());

    // Answers come in any order.
    let answer = pinecone::to_vec(&((2u64, 1u64), vec![9u8, 8, 7])).unwrap();
    let (written, woken) = events(attachment.write(manager, &answer));
    assert!(matches!(written, IoResultPure::Success(n) if n == answer.len()));
    assert_eq!(woken, vec![ExplicitEventId(2)]);
    let (again, woken) = events(attachment.write(manager, &answer));
    assert!(matches!(again, IoResultPure::Error(ErrorCode::fs_protocol)));
    assert!(woken.is_empty());
    let (read, _) = events(attachment.read(b, &mut buf[..2], &mut ids));
    assert!(matches!(read, IoResultPure::Success(2)));
    assert_eq!(&buf[..2], &[9, 8]);
    let (still, _) = events(attachment.read(a, &mut buf, &mut ids));
    assert!(matches!(still, IoResultPure::RepeatAfter(WaitFor::Event(ExplicitEventId(1)))));

    // A close forgets the read and is reported to the manager.
    let (closed, woken) = events(attachment.close(a));
    assert!(matches!(closed, IoResultPure::Success(CloseAction::Normal)));
    assert_eq!(woken, vec![ExplicitEventId(3)]);
    assert!(attachment.destroy().into_events().is_empty());
    let (report, _) = events(attachment.read(manager, &mut buf, &mut ids));
    assert!(matches!(report, IoResultPure::Success(17)));
    let request: ((u64, u64), Result<u64, ()>) = pinecone::from_bytes(&buf[..17]).unwrap();
    assert_eq!(request, ((2, 0), Err(())));
    let answer = pinecone::to_vec(&((2u64, 0u64), vec![1u8])).unwrap();
    let (late, _) = events(attachment.write(manager, &answer));
    assert!(matches!(late, IoResultPure::Error(ErrorCode::fs_protocol)));

    let (end, woken) = events(attachment.close(manager));
    assert!(matches!(end, IoResultPure::Success(CloseAction::Destroy)));
    assert!(woken.is_empty());
}

#[test]
fn kernel_clients_are_named_with_process_zero() {
    let mut ids = EventCounter::new();
    let manager = process_client(1, 0);
    let kernel = FileClientId::kernel(FileDescriptor::from_u64(6));
    let mut attachment = Attachment::new(manager, true, &mut ids);
    assert_eq!(attachment.leafness(), Leafness::Leaf);
    let mut buf = [0u8; 32];
    let (parked, _) = events(attachment.read(kernel, &mut buf, &mut ids));
    assert!(matches!(parked, IoResultPure::RepeatAfter(_)));
    let (picked, _) = events(attachment.read(manager, &mut buf, &mut ids));
    assert!(matches!(picked, IoResultPure::Success(25)));
    let request: ((u64, u64), Result<u64, ()>) = pinecone::from_bytes(&buf[..25]).unwrap();
    assert_eq!(request, ((0, 6), Ok(32)));
    let answer = pinecone::to_vec(&((0u64, 6u64), vec![5u8])).unwrap();
    let (written, _) = events(attachment.write(manager, &answer));
    assert!(matches!(written, IoResultPure::Success(_)));
    let (read, _) = events(attachment.read(kernel, &mut buf, &mut ids));
    assert!(matches!(read, IoResultPure::Success(1)));
    assert_eq!(buf[0], 5);
}

#[test]
fn internal_branch_takes_modifications_and_lists_them() {
    let mut branch = InternalBranch::new();
    let reader = process_client(1, 0);
    let add = |id: u64, name: &str| pinecone::to_vec(&Ok::<(u64, &str), u64>((id, name))).unwrap();
    let remove = |id: u64| pinecone::to_vec(&Err::<(u64, &str), u64>(id)).unwrap();
    let list = |branch: &mut InternalBranch, fc: FileClientId| -> Vec<(u64, String)> {
        let mut buf = [0u8; 256];
        let n = match branch.read(fc, &mut buf) {
            IoResult::Success(n) => n,
            other => panic!("{:?}", other),
        };
        assert!(matches!(branch.close(fc), IoResult::Success(CloseAction::Normal)));
        pinecone::from_bytes(&buf[..n]).unwrap()
    };
    assert!(list(&mut branch, reader).is_empty());
    let first = add(4, "a");
    assert!(matches!(branch.write(&first), IoResult::Success(n) if n == first.len()));
    let second = add(5, "b");
    assert!(matches!(branch.write(&second), IoResult::Success(_)));
    assert!(matches!(
        branch.write(&add(6, "a")),
        IoResult::Error(ErrorCode::fs_node_exists)
    ));
    assert!(matches!(branch.write(&[9, 9]), IoResult::Error(ErrorCode::fs_protocol)));
    assert_eq!(
        list(&mut branch, reader),
        vec![(4, "a".to_string()), (5, "b".to_string())]
    );
    // One modification per write: what follows it is left for the next.
    let mut two = remove(4);
    let one = two.len();
    two.extend(add(7, "c"));
    assert!(matches!(branch.write(&two), IoResult::Success(n) if n == one));
    assert_eq!(list(&mut branch, reader), vec![(5, "b".to_string())]);
    assert!(matches!(branch.write(&remove(9)), IoResult::Success(_)));
    assert_eq!(list(&mut branch, reader), vec![(5, "b".to_string())]);
}

#[test]
fn a_listing_that_was_begun_is_read_on_as_it_was() {
    let mut branch = InternalBranch::new();
    let reader = process_client(1, 0);
    let other = process_client(1, 1);
    let add = |id: u64, name: &str| pinecone::to_vec(&Ok::<(u64, &str), u64>((id, name))).unwrap();
    assert!(matches!(branch.write(&add(4, "abc")), IoResult::Success(_)));
    let mut head = [0u8; 4];
    assert!(matches!(branch.read(reader, &mut head), IoResult::Success(4)));
    assert!(matches!(branch.write(&add(5, "d")), IoResult::Success(_)));
    let mut tail = [0u8; 64];
    let n = match branch.read(reader, &mut tail) {
        IoResult::Success(n) => n,
        other => panic!("{:?}", other),
    };
    let mut whole = head.to_vec();
    whole.extend(&tail[..n]);
    let old: Vec<(u64, String)> = pinecone::from_bytes(&whole).unwrap();
    assert_eq!(old, vec![(4, "abc".to_string())]);
    assert!(matches!(branch.read(reader, &mut tail), IoResult::Success(0)));
    let n = match branch.read(other, &mut tail) {
        IoResult::Success(n) => n,
        other => panic!("{:?}", other),
    };
    let new: Vec<(u64, String)> = pinecone::from_bytes(&tail[..n]).unwrap();
    assert_eq!(new.len(), 2);
}

#[test]
fn process_file_gives_the_result_once_it_is_there() {
    let pid = ProcessId::from_u64(4).unwrap();
    let owner = process_client(1, 2);
    let kernel = FileClientId::kernel(FileDescriptor::from_u64(0));
    let mut file = ProcessFile::new(pid, owner);
    assert_eq!(file.pid(), pid);
    assert!(!file.is_over());
    let mut buf = [0u8; 4];
    assert!(matches!(
        file.read(owner, &mut buf),
        IoResult::RepeatAfter(WaitFor::Process(p)) if p == pid
    ));
    assert!(matches!(
        file.write(owner, &[1, 2]),
        IoResult::Error(ErrorCode::fs_readonly)
    ));
    assert!(matches!(file.write(kernel, &[1, 2, 3, 4, 5]), IoResult::Success(5)));
    assert!(file.is_over());
    assert!(matches!(
        file.write(kernel, &[6]),
        IoResult::Error(ErrorCode::fs_readonly)
    ));
    assert!(matches!(file.read(owner, &mut buf), IoResult::Success(4)));
    assert_eq!(buf, [1, 2, 3, 4]);
    assert!(matches!(file.read(owner, &mut buf), IoResult::Success(1)));
    assert_eq!(buf[0], 5);
    assert!(matches!(file.read(owner, &mut buf), IoResult::Success(0)));
    assert!(matches!(file.close(owner), IoResult::Success(CloseAction::Normal)));
    assert!(matches!(file.read(owner, &mut buf), IoResult::Success(4)));
}

#[test]
fn nodes_count_their_references() {
    let fc = process_client(1, 0);
    let mut node = Node::new(Some(NodeId::first()), FileOps::NullDevice);
    assert_eq!(node.refcount(), 0);
    assert_eq!(node.parent(), Some(NodeId::first()));
    assert_eq!(node.leafness(), Leafness::Leaf);
    assert!(node.fileinfo().is_leaf);
    node.inc_ref();
    assert!(matches!(node.open(fc), IoResult::Success(())));
    assert_eq!(node.refcount(), 2);
    assert!(matches!(node.close(fc), IoResult::Success(CloseAction::Normal)));
    assert!(matches!(node.close(fc), IoResult::Success(CloseAction::Destroy)));
    assert_eq!(node.refcount(), 0);
    let mut device = Node::new(None, FileOps::Device(DeviceKind::Nic));
    assert!(matches!(
        device.write(fc, &[1]),
        IoResult::Error(ErrorCode::fs_unsupported)
    ));
    assert!(matches!(device.read_waiting_for(fc), WaitFor::Ready));
}

#[test]
fn whole_files_are_read_and_written_through_a_small_buffer() {
    let mut ids = EventCounter::new();
    let kernel = FileClientId::kernel(FileDescriptor::from_u64(0));
    let mut file = FileOps::ProcessFile(ProcessFile::new(ProcessId::first(), kernel));
    let data: Vec<u8> = (0..10_000u32).map(|i| (i % 251) as u8).collect();
    assert!(matches!(write_all(&mut file, kernel, &data), IoResult::Success(())));
    match read_to_end(&mut file, kernel, &mut ids) {
        IoResult::Success(read) => assert_eq!(read, data),
        other => panic!("{:?}", other.is_success()),
    }
    let mut exact = FileOps::ProcessFile(ProcessFile::new(ProcessId::first(), kernel));
    let data = vec![3u8; 8192];
    assert!(matches!(write_all(&mut exact, kernel, &data), IoResult::Success(())));
    match read_to_end(&mut exact, kernel, &mut ids) {
        IoResult::Success(read) => assert_eq!(read, data),
        other => panic!("{:?}", other.is_success()),
    }
    let mut null = FileOps::NullDevice;
    assert!(matches!(write_all(&mut null, kernel, &[1, 2, 3]), IoResult::Success(())));
    assert!(matches!(read_to_end(&mut null, kernel, &mut ids), IoResult::Success(v) if v.is_empty()));
    let mut zero = FileOps::ZeroDevice;
    assert!(matches!(
        write_all(&mut zero, kernel, &[1]),
        IoResult::Error(ErrorCode::fs_readonly)
    ));
    assert!(matches!(write_all(&mut zero, kernel, &[]), IoResult::Success(())));
}
