use vfs_core::abi::FileDescriptor;
use vfs_core::filesystem::file::{FileOps, Leafness};
use vfs_core::filesystem::node::NodeId;
use vfs_core::filesystem::path::Path;
use vfs_core::filesystem::result::{ErrorCode, IoResult, IoResultPure};
use vfs_core::filesystem::{init, FileClientId, VirtualFS};
use vfs_core::multitasking::waitfor::{EventCounter, WaitFor};
use vfs_core::multitasking::Scheduler;
use vfs_core::process::ProcessId;

type RequestWire = ((u64, u64), Result<u64, ()>);

fn booted() -> VirtualFS {
    let mut fs = VirtualFS::new();
    let booted = init(&mut fs);
    assert!(matches!(booted, IoResult::Success(())));
    fs
}

/// A booted filesystem with an empty executable at `/bin/x`, and two
/// processes started from it by the kernel.
fn with_two_processes() -> (VirtualFS, Scheduler, ProcessId, ProcessId) {
    let mut fs = booted();
    let mut sched = Scheduler::new();
    let made = fs.create_static(&Path::new("/bin/x"), FileOps::NullDevice);
    assert!(matches!(made, IoResult::Success(_)));
    let first = ProcessId::first();
    let second = first.next();
    assert!(matches!(
        fs.kernel_exec(&mut sched, "/bin/x"),
        IoResult::Success(_)
    ));
    assert!(matches!(
        fs.kernel_exec(&mut sched, "/bin/x"),
        IoResult::Success(_)
    ));
    let spawned = sched.take_spawned();
    assert_eq!(spawned.len(), 2);
    assert_eq!(spawned[0].0, first);
    assert_eq!(spawned[1].0, second);
    (fs, sched, first, second)
}

fn names(children: &[(NodeId, String)]) -> Vec<&str> {
    children.iter().map(|c| c.1.as_str()).collect()
}

fn listing(fs: &mut VirtualFS, path: &str) -> Vec<(NodeId, String)> {
    let node = match fs.resolve(&Path::new(path)) {
        IoResult::Success(node) => node,
        other => panic!("{} does not resolve: {:?}", path, other),
    };
    match fs.get_children(node) {
        IoResult::Success(children) => children,
        other => panic!("{} has no listing: {:?}", path, other),
    }
}

#[test]
fn boot_tree_lists_top_level_in_insertion_order() {
    let mut fs = booted();
    let children = match fs.get_children(NodeId::first()) {
        IoResult::Success(children) => children,
        other => panic!("no listing: {:?}", other),
    };
    assert_eq!(names(&children), vec!["bin", "cfg", "dev", "mnt", "prc", "srv"]);
}

#[test]
fn boot_tree_lists_devices() {
    let mut fs = booted();
    let children = listing(&mut fs, "/dev");
    assert_eq!(
        names(&children),
        vec!["null", "zero", "test", "console", "nic", "nic_mac"]
    );
}

#[test]
fn duplicate_creation_is_rejected() {
    let mut fs = booted();
    let again = fs.create_static_branch(&Path::new("/dev"));
    assert!(matches!(again, IoResult::Error(ErrorCode::fs_node_exists)));
    assert_eq!(listing(&mut fs, "/").len(), 6);
}

#[test]
fn leaf_has_no_children() {
    let mut fs = booted();
    let null = match fs.resolve(&Path::new("/dev/null")) {
        IoResult::Success(node) => node,
        other => panic!("{:?}", other),
    };
    assert!(matches!(
        fs.get_children(null),
        IoResult::Error(ErrorCode::fs_node_is_leaf)
    ));
    assert!(matches!(
        fs.resolve(&Path::new("/dev/null/x")),
        IoResult::Error(ErrorCode::fs_node_is_leaf)
    ));
}

#[test]
fn missing_component_is_not_found() {
    let mut fs = booted();
    assert!(matches!(
        fs.resolve(&Path::new("/dev/nothing")),
        IoResult::Error(ErrorCode::fs_node_not_found)
    ));
    assert!(matches!(
        fs.resolve(&Path::new("/nothing/null")),
        IoResult::Error(ErrorCode::fs_node_not_found)
    ));
}

#[test]
fn resolve_is_repeatable() {
    let mut fs = booted();
    let first = match fs.resolve(&Path::new("/dev/zero")) {
        IoResult::Success(node) => node,
        other => panic!("{:?}", other),
    };
    let second = match fs.resolve(&Path::new("/dev//zero/")) {
        IoResult::Success(node) => node,
        other => panic!("{:?}", other),
    };
    assert_eq!(first, second);
    assert!(matches!(
        fs.resolve(&Path::new("/")),
        IoResult::Success(root) if root == NodeId::first()
    ));
}

#[test]
fn fileinfo_tells_leaves_from_branches() {
    let mut fs = booted();
    match fs.fileinfo("/dev") {
        IoResult::Success(info) => assert!(!info.is_leaf),
        other => panic!("{:?}", other),
    }
    match fs.fileinfo("/dev/null") {
        IoResult::Success(info) => assert!(info.is_leaf),
        other => panic!("{:?}", other),
    }
}

#[test]
fn null_device_reads_empty_and_swallows_writes() {
    let (mut fs, mut sched, pid, _) = with_two_processes();
    let fc = match fs.open(&mut sched, pid, "/dev/null") {
        IoResultPure::Success(fc) => fc,
        other => panic!("{:?}", other),
    };
    let mut buf = [7u8; 8];
    assert!(matches!(
        fs.read(&mut sched, fc, &mut buf),
        IoResultPure::Success(0)
    ));
    assert_eq!(buf, [7u8; 8]);
    assert!(matches!(
        fs.write(&mut sched, fc, &[1, 2, 3]),
        IoResultPure::Success(3)
    ));
}

#[test]
fn zero_device_fills_the_buffer_and_takes_no_writes() {
    let (mut fs, mut sched, pid, _) = with_two_processes();
    let fc = match fs.open(&mut sched, pid, "/dev/zero") {
        IoResultPure::Success(fc) => fc,
        other => panic!("{:?}", other),
    };
    let mut buf = [7u8; 8];
    assert!(matches!(
        fs.read(&mut sched, fc, &mut buf),
        IoResultPure::Success(8)
    ));
    assert_eq!(buf, [0u8; 8]);
    assert!(matches!(
        fs.write(&mut sched, fc, &[1]),
        IoResultPure::Error(ErrorCode::fs_readonly)
    ));
}

#[test]
fn device_nodes_leave_io_to_the_drivers() {
    let (mut fs, mut sched, pid, _) = with_two_processes();
    let fc = match fs.open(&mut sched, pid, "/dev/console") {
        IoResultPure::Success(fc) => fc,
        other => panic!("{:?}", other),
    };
    let mut buf = [0u8; 4];
    assert!(matches!(
        fs.read(&mut sched, fc, &mut buf),
        IoResultPure::Error(ErrorCode::fs_unsupported)
    ));
    assert!(matches!(
        fs.get_pid(fc),
        IoResultPure::Error(ErrorCode::fs_unsupported)
    ));
}

#[test]
fn descriptors_count_up_per_process() {
    let (mut fs, mut sched, first, second) = with_two_processes();
    let a = match fs.open(&mut sched, first, "/dev/null") {
        IoResultPure::Success(fc) => fc,
        other => panic!("{:?}", other),
    };
    let b = match fs.open(&mut sched, first, "/dev/null") {
        IoResultPure::Success(fc) => fc,
        other => panic!("{:?}", other),
    };
    let c = match fs.open(&mut sched, second, "/dev/null") {
        IoResultPure::Success(fc) => fc,
        other => panic!("{:?}", other),
    };
    assert_eq!(a.process, Some(first));
    assert_eq!(a.fd.as_u64(), 0);
    assert_eq!(b.fd.as_u64(), 1);
    assert_eq!(c.process, Some(second));
    assert_eq!(c.fd.as_u64(), 0);
    assert!(fs.holds(a) && fs.holds(b) && fs.holds(c));
    assert!(matches!(fs.close(&mut sched, a), IoResultPure::Success(())));
    assert!(!fs.holds(a));
    assert!(fs.holds(b));
}

#[test]
fn echo_attachment() {
    let (mut fs, mut sched, manager, client) = with_two_processes();
    let fc_m = match fs.attach(&mut sched, manager, "/srv/echo", true) {
        IoResultPure::Success(fc) => fc,
        other => panic!("{:?}", other),
    };
    match fs.fileinfo("/srv/echo") {
        IoResult::Success(info) => assert!(info.is_leaf),
        other => panic!("{:?}", other),
    }
    assert!(matches!(fs.get_pid(fc_m), IoResultPure::Success(pid) if pid == manager));
    let fc_c = match fs.open(&mut sched, client, "/srv/echo") {
        IoResultPure::Success(fc) => fc,
        other => panic!("{:?}", other),
    };
    sched.take_triggered();

    // The client is parked, and the manager's flag is raised.
    let mut buf16 = [0u8; 16];
    let e1 = match fs.read(&mut sched, fc_c, &mut buf16) {
        IoResultPure::RepeatAfter(WaitFor::Event(e)) => e,
        other => panic!("{:?}", other),
    };
    assert_eq!(buf16, [0u8; 16]);
    assert_eq!(sched.take_triggered().len(), 1);
    assert!(matches!(
        fs.read_waiting_for(&mut sched, fc_c),
        IoResultPure::Success(WaitFor::Event(e)) if e == e1
    ));
    assert!(matches!(
        fs.read_waiting_for(&mut sched, fc_m),
        IoResultPure::Success(WaitFor::Ready)
    ));

    // The manager gets the request.
    let mut buf64 = [0u8; 64];
    let n = match fs.read(&mut sched, fc_m, &mut buf64) {
        IoResultPure::Success(n) => n,
        other => panic!("{:?}", other),
    };
    assert_eq!(n, 25);
    let request: RequestWire = pinecone::from_bytes(&buf64[..n]).unwrap();
    assert_eq!(request, ((client.as_u64(), fc_c.fd.as_u64()), Ok(16)));

    // Nothing more for the manager: it has to wait.
    assert!(matches!(
        fs.read(&mut sched, fc_m, &mut buf64),
        IoResultPure::RepeatAfter(WaitFor::Event(_))
    ));

    // The manager answers, which wakes the client.
    let response =
        pinecone::to_vec(&((client.as_u64(), fc_c.fd.as_u64()), b"hello".to_vec())).unwrap();
    assert!(matches!(
        fs.write(&mut sched, fc_m, &response),
        IoResultPure::Success(n) if n == response.len()
    ));
    assert_eq!(sched.take_triggered(), vec![e1]);

    // The client reads the answer, in two parts.
    let mut buf3 = [0u8; 3];
    assert!(matches!(
        fs.read(&mut sched, fc_c, &mut buf3),
        IoResultPure::Success(3)
    ));
    assert_eq!(&buf3, b"hel");
    assert!(matches!(
        fs.read(&mut sched, fc_c, &mut buf16),
        IoResultPure::Success(2)
    ));
    assert_eq!(&buf16[..2], b"lo");
    assert!(matches!(
        fs.read(&mut sched, fc_c, &mut buf16),
        IoResultPure::Success(0)
    ));
    assert!(sched.take_triggered().is_empty());
}

#[test]
fn close_propagation() {
    let (mut fs, mut sched, manager, client) = with_two_processes();
    let fc_m = match fs.attach(&mut sched, manager, "/srv/echo", true) {
        IoResultPure::Success(fc) => fc,
        other => panic!("{:?}", other),
    };
    let fc_c = match fs.open(&mut sched, client, "/srv/echo") {
        IoResultPure::Success(fc) => fc,
        other => panic!("{:?}", other),
    };
    let waiting = match fs.read_waiting_for(&mut sched, fc_m) {
        IoResultPure::Success(WaitFor::Event(e)) => e,
        other => panic!("{:?}", other),
    };
    sched.take_triggered();

    assert!(matches!(fs.close(&mut sched, fc_c), IoResultPure::Success(())));
    assert_eq!(sched.take_triggered(), vec![waiting]);

    let mut buf = [0u8; 64];
    let n = match fs.read(&mut sched, fc_m, &mut buf) {
        IoResultPure::Success(n) => n,
        other => panic!("{:?}", other),
    };
    assert_eq!(n, 17);
    let request: RequestWire = pinecone::from_bytes(&buf[..n]).unwrap();
    assert_eq!(request, ((client.as_u64(), fc_c.fd.as_u64()), Err(())));

    assert!(matches!(fs.close(&mut sched, fc_m), IoResultPure::Success(())));
    assert!(matches!(
        fs.resolve(&Path::new("/srv/echo")),
        IoResult::Error(ErrorCode::fs_node_not_found)
    ));
    assert!(listing(&mut fs, "/srv").is_empty());
}

#[test]
fn destroyed_attachment_wakes_its_clients() {
    let (mut fs, mut sched, manager, client) = with_two_processes();
    let fc_m = match fs.attach(&mut sched, manager, "/srv/echo", true) {
        IoResultPure::Success(fc) => fc,
        other => panic!("{:?}", other),
    };
    let fc_c = match fs.open(&mut sched, client, "/srv/echo") {
        IoResultPure::Success(fc) => fc,
        other => panic!("{:?}", other),
    };
    let mut buf = [0u8; 8];
    let event = match fs.read(&mut sched, fc_c, &mut buf) {
        IoResultPure::RepeatAfter(WaitFor::Event(e)) => e,
        other => panic!("{:?}", other),
    };
    sched.take_triggered();
    assert!(matches!(fs.close(&mut sched, fc_m), IoResultPure::Success(())));
    assert_eq!(sched.take_triggered(), vec![event]);
    assert!(matches!(
        fs.read(&mut sched, fc_c, &mut buf),
        IoResultPure::Error(ErrorCode::fs_file_destroyed)
    ));
}

#[test]
fn manager_gets_reads_in_arrival_order_after_closes() {
    let (mut fs, mut sched, manager, client) = with_two_processes();
    let fc_m = match fs.attach(&mut sched, manager, "/srv/echo", true) {
        IoResultPure::Success(fc) => fc,
        other => panic!("{:?}", other),
    };
    let mut clients = Vec::new();
    for _ in 0..3 {
        match fs.open(&mut sched, client, "/srv/echo") {
            IoResultPure::Success(fc) => clients.push(fc),
            other => panic!("{:?}", other),
        }
    }
    let mut buf = [0u8; 32];
    for fc in [clients[1], clients[0]] {
        assert!(matches!(
            fs.read(&mut sched, fc, &mut buf),
            IoResultPure::RepeatAfter(WaitFor::Event(_))
        ));
    }
    assert!(matches!(
        fs.close(&mut sched, clients[2]),
        IoResultPure::Success(())
    ));
    let mut seen = Vec::new();
    for _ in 0..3 {
        let n = match fs.read(&mut sched, fc_m, &mut buf) {
            IoResultPure::Success(n) => n,
            other => panic!("{:?}", other),
        };
        let request: RequestWire = pinecone::from_bytes(&buf[..n]).unwrap();
        seen.push(request);
    }
    let pid = client.as_u64();
    assert_eq!(
        seen,
        vec![
            ((pid, clients[2].fd.as_u64()), Err(())),
            ((pid, clients[1].fd.as_u64()), Ok(32)),
            ((pid, clients[0].fd.as_u64()), Ok(32)),
        ]
    );
}

#[test]
fn parked_read_keeps_its_place_when_repeated() {
    let (mut fs, mut sched, manager, client) = with_two_processes();
    let fc_m = match fs.attach(&mut sched, manager, "/srv/echo", true) {
        IoResultPure::Success(fc) => fc,
        other => panic!("{:?}", other),
    };
    let a = match fs.open(&mut sched, client, "/srv/echo") {
        IoResultPure::Success(fc) => fc,
        other => panic!("{:?}", other),
    };
    let b = match fs.open(&mut sched, client, "/srv/echo") {
        IoResultPure::Success(fc) => fc,
        other => panic!("{:?}", other),
    };
    let mut buf = [0u8; 32];
    let first = match fs.read(&mut sched, a, &mut buf) {
        IoResultPure::RepeatAfter(WaitFor::Event(e)) => e,
        other => panic!("{:?}", other),
    };
    assert!(matches!(
        fs.read(&mut sched, b, &mut buf),
        IoResultPure::RepeatAfter(WaitFor::Event(_))
    ));
    sched.take_triggered();
    // Repeated before the answer: the same wait, no wakeup, no new request.
    assert!(matches!(
        fs.read(&mut sched, a, &mut buf),
        IoResultPure::RepeatAfter(WaitFor::Event(e)) if e == first
    ));
    assert!(sched.take_triggered().is_empty());
    let n = match fs.read(&mut sched, fc_m, &mut buf) {
        IoResultPure::Success(n) => n,
        other => panic!("{:?}", other),
    };
    let request: RequestWire = pinecone::from_bytes(&buf[..n]).unwrap();
    assert_eq!(request.0 .1, a.fd.as_u64());
    // Repeated while the manager works on it: still the same wait.
    assert!(matches!(
        fs.read(&mut sched, a, &mut buf),
        IoResultPure::RepeatAfter(WaitFor::Event(e)) if e == first
    ));
    let n = match fs.read(&mut sched, fc_m, &mut buf) {
        IoResultPure::Success(n) => n,
        other => panic!("{:?}", other),
    };
    let request: RequestWire = pinecone::from_bytes(&buf[..n]).unwrap();
    assert_eq!(request.0 .1, b.fd.as_u64());
    assert!(matches!(
        fs.read(&mut sched, fc_m, &mut buf),
        IoResultPure::RepeatAfter(WaitFor::Event(_))
    ));
}

#[test]
fn manager_protocol_errors_are_codes() {
    let (mut fs, mut sched, manager, client) = with_two_processes();
    let fc_m = match fs.attach(&mut sched, manager, "/srv/echo", true) {
        IoResultPure::Success(fc) => fc,
        other => panic!("{:?}", other),
    };
    let fc_c = match fs.open(&mut sched, client, "/srv/echo") {
        IoResultPure::Success(fc) => fc,
        other => panic!("{:?}", other),
    };
    // Bytes that are no response.
    assert!(matches!(
        fs.write(&mut sched, fc_m, &[1, 2, 3]),
        IoResultPure::Error(ErrorCode::fs_protocol)
    ));
    // A response for a client whose read is not in progress.
    let response = pinecone::to_vec(&((client.as_u64(), fc_c.fd.as_u64()), vec![1u8])).unwrap();
    assert!(matches!(
        fs.write(&mut sched, fc_m, &response),
        IoResultPure::Error(ErrorCode::fs_protocol)
    ));
    // A client does not write.
    assert!(matches!(
        fs.write(&mut sched, fc_c, &response),
        IoResultPure::Error(ErrorCode::fs_unsupported)
    ));
    // A request that does not fit the manager's buffer stays pending.
    let mut buf = [0u8; 32];
    assert!(matches!(
        fs.read(&mut sched, fc_c, &mut buf),
        IoResultPure::RepeatAfter(_)
    ));
    let mut small = [0u8; 24];
    assert!(matches!(
        fs.read(&mut sched, fc_m, &mut small),
        IoResultPure::Error(ErrorCode::fs_protocol)
    ));
    assert!(matches!(
        fs.read(&mut sched, fc_m, &mut buf),
        IoResultPure::Success(25)
    ));
}

#[test]
fn attachment_below_a_leaf_or_a_taken_name_fails() {
    let (mut fs, mut sched, manager, _) = with_two_processes();
    assert!(matches!(
        fs.attach(&mut sched, manager, "/dev/null/x", true),
        IoResultPure::Error(ErrorCode::fs_node_is_leaf)
    ));
    assert!(matches!(
        fs.attach(&mut sched, manager, "/dev/null", true),
        IoResultPure::Error(ErrorCode::fs_node_exists)
    ));
    assert!(matches!(
        fs.attach(&mut sched, manager, "/srv/a", false),
        IoResultPure::Success(_)
    ));
    // What a branch attachment holds is for its manager to say.
    assert!(matches!(
        fs.attach(&mut sched, manager, "/srv/a/b", true),
        IoResultPure::RepeatAfter(WaitFor::Event(_))
    ));
}

#[test]
fn anonymous_attachment_is_reached_through_its_descriptor_only() {
    let (mut fs, mut sched, manager, _) = with_two_processes();
    let before = listing(&mut fs, "/srv").len();
    let fc = match fs.attach(&mut sched, manager, "", false) {
        IoResultPure::Success(fc) => fc,
        other => panic!("{:?}", other),
    };
    assert_eq!(listing(&mut fs, "/srv").len(), before);
    let node = match fs.resolve_fc(fc) {
        IoResultPure::Success(node) => node,
        other => panic!("{:?}", other),
    };
    match fs.node(node) {
        IoResultPure::Success(node) => {
            assert_eq!(node.parent(), None);
            assert_eq!(node.leafness(), Leafness::Branch);
            assert_eq!(node.refcount(), 1);
        }
        _ => panic!("the node of the attachment is gone"),
    }
}

#[test]
fn process_lifecycle() {
    let (mut fs, mut sched, owner, _) = with_two_processes();
    let third = ProcessId::first().next().next();
    let handle = match fs.exec(&mut sched, owner, "/bin/x") {
        IoResultPure::Success(fc) => fc,
        other => panic!("{:?}", other),
    };
    assert_eq!(handle.process, Some(owner));
    let spawned = sched.take_spawned();
    assert_eq!(spawned.len(), 1);
    assert_eq!(spawned[0].0, third);
    assert!(spawned[0].1.as_bytes().is_empty());
    assert_eq!(names(&listing(&mut fs, "/prc")), vec!["1", "2", "3"]);
    assert!(matches!(fs.get_pid(handle), IoResultPure::Success(pid) if pid == third));

    let mut buf = [0u8; 32];
    assert!(matches!(
        fs.read(&mut sched, handle, &mut buf),
        IoResultPure::RepeatAfter(WaitFor::Process(pid)) if pid == third
    ));

    // The process gets a file of its own open, then ends with code 7.
    let held = match fs.open(&mut sched, third, "/dev/null") {
        IoResultPure::Success(fc) => fc,
        other => panic!("{:?}", other),
    };
    let status = pinecone::to_vec(&Ok::<u64, ()>(7)).unwrap();
    fs.on_process_over(&mut sched, third, &status);
    assert!(!fs.holds(held));

    let n = match fs.read(&mut sched, handle, &mut buf) {
        IoResultPure::Success(n) => n,
        other => panic!("{:?}", other),
    };
    let result: Result<u64, ()> = pinecone::from_bytes(&buf[..n]).unwrap();
    assert_eq!(result, Ok(7));

    // The file of the process goes away with its last reader.
    assert!(matches!(fs.close(&mut sched, handle), IoResultPure::Success(())));
    assert_eq!(names(&listing(&mut fs, "/prc")), vec!["1", "2"]);
}

#[test]
fn process_over_destroys_what_the_process_served() {
    let (mut fs, mut sched, manager, client) = with_two_processes();
    assert!(matches!(
        fs.attach(&mut sched, manager, "/srv/echo", true),
        IoResultPure::Success(_)
    ));
    let fc_c = match fs.open(&mut sched, client, "/srv/echo") {
        IoResultPure::Success(fc) => fc,
        other => panic!("{:?}", other),
    };
    let mut buf = [0u8; 8];
    let event = match fs.read(&mut sched, fc_c, &mut buf) {
        IoResultPure::RepeatAfter(WaitFor::Event(e)) => e,
        other => panic!("{:?}", other),
    };
    sched.take_triggered();
    fs.on_process_over(&mut sched, manager, &[0, 0, 0, 0, 0, 0, 0, 0, 0]);
    assert_eq!(sched.take_triggered(), vec![event]);
    assert!(matches!(
        fs.read(&mut sched, fc_c, &mut buf),
        IoResultPure::Error(ErrorCode::fs_file_destroyed)
    ));
    assert!(listing(&mut fs, "/srv").is_empty());
    // A second report for the same process changes nothing.
    fs.on_process_over(&mut sched, manager, &[1]);
    assert!(sched.take_triggered().is_empty());
}

#[test]
fn exec_of_a_missing_file_starts_nothing() {
    let (mut fs, mut sched, owner, _) = with_two_processes();
    assert!(matches!(
        fs.exec(&mut sched, owner, "/bin/nothing"),
        IoResultPure::Error(ErrorCode::fs_node_not_found)
    ));
    assert!(sched.take_spawned().is_empty());
    assert_eq!(names(&listing(&mut fs, "/prc")), vec!["1", "2"]);
}

#[test]
fn load_module_pads_to_whole_pages() {
    let mut fs = booted();
    match fs.load_module("/dev/null") {
        IoResult::Success(image) => {
            assert_eq!(image.size_pages(), 0);
            assert!(image.as_bytes().is_empty());
        }
        other => panic!("{:?}", other),
    }
    assert!(matches!(
        fs.load_module("/dev/console"),
        IoResult::Error(ErrorCode::fs_unsupported)
    ));
}

#[test]
fn read_file_of_a_branch_gives_its_listing() {
    let mut fs = booted();
    let bytes = match fs.read_file("/dev") {
        IoResult::Success(bytes) => bytes,
        other => panic!("{:?}", other),
    };
    let parsed: Vec<(u64, String)> = pinecone::from_bytes(&bytes).unwrap();
    let names: Vec<&str> = parsed.iter().map(|e| e.1.as_str()).collect();
    assert_eq!(names, vec!["null", "zero", "test", "console", "nic", "nic_mac"]);
}

#[test]
fn kernel_descriptors_count_up() {
    let mut fs = VirtualFS::new();
    let a = fs.take_kernel_fc();
    let b = fs.take_kernel_fc();
    assert!(a.is_kernel() && b.is_kernel());
    assert_eq!(a, FileClientId::kernel(FileDescriptor::from_u64(0)));
    assert_eq!(b.fd.as_u64(), 1);
    assert!(!FileClientId::process(ProcessId::first(), a.fd).is_kernel());
}

#[test]
fn long_listing_is_read_in_parts() {
    let mut fs = booted();
    let mut expected = Vec::new();
    for i in 0..400u32 {
        let name = format!("a-rather-long-name-for-entry-{}", i);
        let path = format!("/mnt/{}", name);
        assert!(matches!(
            fs.create_static(&Path::new(&path), FileOps::NullDevice),
            IoResult::Success(_)
        ));
        expected.push(name);
    }
    let children = listing(&mut fs, "/mnt");
    assert!(pinecone::to_vec(&children.iter().map(|c| (c.0.as_u64(), c.1.as_str())).collect::<Vec<_>>()).unwrap().len() > 2 * 4096);
    assert_eq!(names(&children), expected.iter().map(|s| s.as_str()).collect::<Vec<_>>());
}

#[test]
fn branch_attachment_lists_what_its_manager_serves() {
    let (mut fs, mut sched, manager, _) = with_two_processes();
    let fc_m = match fs.attach(&mut sched, manager, "/srv/dir", false) {
        IoResultPure::Success(fc) => fc,
        other => panic!("{:?}", other),
    };
    let flag = match fs.read_waiting_for(&mut sched, fc_m) {
        IoResultPure::Success(WaitFor::Event(e)) => e,
        other => panic!("{:?}", other),
    };
    // A second attachment, so that the filesystem has minted one event more.
    assert!(matches!(
        fs.attach(&mut sched, manager, "/srv/other", true),
        IoResultPure::Success(_)
    ));
    let child = match fs.attach(&mut sched, manager, "", true) {
        IoResultPure::Success(fc) => fc,
        other => panic!("{:?}", other),
    };
    let child_node = match fs.resolve_fc(child) {
        IoResultPure::Success(node) => node,
        other => panic!("{:?}", other),
    };
    let dir = match fs.resolve(&Path::new("/srv/dir")) {
        IoResult::Success(node) => node,
        other => panic!("{:?}", other),
    };

    // The kernel asks as the client that its next listing will come from.
    let next = FileClientId::kernel(FileDescriptor::from_u64(
        fs.take_kernel_fc().fd.as_u64() + 1,
    ));
    let mut ids = EventCounter::new();
    while ids.mint().0 < flag.0 {}
    let mut buf = [0u8; 64];
    match fs.node_mut(dir) {
        IoResultPure::Success(node) => {
            assert!(matches!(
                node.read(next, &mut buf, &mut ids),
                IoResult::TriggerEvent(e, _) if e == flag
            ));
        }
        _ => panic!("the attachment is gone"),
    }
    let n = match fs.read(&mut sched, fc_m, &mut buf) {
        IoResultPure::Success(n) => n,
        other => panic!("{:?}", other),
    };
    let request: RequestWire = pinecone::from_bytes(&buf[..n]).unwrap();
    assert_eq!(request, ((0, next.fd.as_u64()), Ok(64)));
    let listing = pinecone::to_vec(&vec![("child", child.fd.as_u64())]).unwrap();
    let response = pinecone::to_vec(&((0u64, next.fd.as_u64()), listing)).unwrap();
    assert!(matches!(
        fs.write(&mut sched, fc_m, &response),
        IoResultPure::Success(_)
    ));

    match fs.get_children(dir) {
        IoResult::Success(children) => {
            assert_eq!(children, vec![(child_node, "child".to_string())]);
        }
        other => panic!("{:?}", other),
    }
    // The next listing is a new request, for which the caller has to wait.
    assert!(matches!(
        fs.resolve(&Path::new("/srv/dir/child")),
        IoResult::TriggerEvent(_, _)
    ));
}

#[test]
fn debug_path_of_a_node_follows_its_links() {
    let mut fs = booted();
    let mut sched = Scheduler::new();
    let zero = match fs.resolve(&Path::new("/dev/zero")) {
        IoResult::Success(node) => node,
        other => panic!("{:?}", other),
    };
    match fs.node_ancestors(zero) {
        IoResultPure::Success(Some(chain)) => {
            assert_eq!(chain.len(), 3);
            assert_eq!(chain[0], zero);
            assert_eq!(chain[2], NodeId::first());
        }
        _ => panic!("/dev/zero hangs in the air"),
    }
    match fs.debug_node_id_to_path(&mut sched, zero) {
        Some(path) => {
            assert!(path.is_absolute());
            assert_eq!(path.len(), 2);
            assert_eq!(path.component(0), "dev");
            assert_eq!(path.component(1), "zero");
        }
        None => panic!("/dev/zero has no path"),
    }
    match fs.debug_node_id_to_path(&mut sched, NodeId::first()) {
        Some(path) => assert_eq!(path.len(), 0),
        None => panic!("the root has no path"),
    }
    assert!(matches!(
        fs.node_ancestors(NodeId::from_u64(999)),
        IoResultPure::Error(ErrorCode::fs_file_destroyed)
    ));
    assert!(fs.debug_node_id_to_path(&mut sched, NodeId::from_u64(999)).is_none());

    // A node that is linked nowhere is not connected to the root.
    let (mut fs, mut sched, manager, _) = with_two_processes();
    let anon = match fs.attach(&mut sched, manager, "", true) {
        IoResultPure::Success(fc) => fc,
        other => panic!("{:?}", other),
    };
    let node = match fs.resolve_fc(anon) {
        IoResultPure::Success(node) => node,
        other => panic!("{:?}", other),
    };
    assert!(matches!(fs.node_ancestors(node), IoResultPure::Success(None)));
    assert!(fs.debug_node_id_to_path(&mut sched, node).is_none());
}

#[test]
fn invariants_can_be_tested_at_run_time() {
    let (mut fs, mut sched, manager, client) = with_two_processes();
    assert!(fs.is_referenced());
    assert!(fs.has_budget(1_000));
    assert!(!fs.has_budget(u64::MAX));
    assert!(fs.has_process(manager));
    assert!(!fs.has_process(ProcessId::from_u64(77).unwrap()));
    assert_eq!(fs.descriptor_count(client), Some(0));
    let before = fs.len();
    let fc = match fs.attach(&mut sched, manager, "/srv/echo", true) {
        IoResultPure::Success(fc) => fc,
        other => panic!("{:?}", other),
    };
    assert_eq!(fs.len(), before + 1);
    assert_eq!(fs.descriptor_count(manager), Some(1));
    assert!(fs.is_referenced());
    assert!(matches!(fs.close(&mut sched, fc), IoResultPure::Success(())));
    assert_eq!(fs.len(), before);
    assert!(fs.is_referenced());
}

#[test]
fn boot_nodes_are_numbered_in_the_order_in_which_they_are_made() {
    let mut fs = booted();
    let top = listing(&mut fs, "/");
    let ids: Vec<NodeId> = top.iter().map(|c| c.0).collect();
    let expected: Vec<NodeId> = (2..=7).map(NodeId::from_u64).collect();
    assert_eq!(ids, expected);
    let devices = listing(&mut fs, "/dev");
    let ids: Vec<NodeId> = devices.iter().map(|c| c.0).collect();
    let expected: Vec<NodeId> = (8..=13).map(NodeId::from_u64).collect();
    assert_eq!(ids, expected);
}

#[test]
fn a_started_process_gets_the_next_node_under_prc() {
    let mut fs = booted();
    let mut sched = Scheduler::new();
    assert!(matches!(
        fs.kernel_exec(&mut sched, "/dev/null"),
        IoResult::Success(_)
    ));
    let processes = listing(&mut fs, "/prc");
    assert_eq!(processes.len(), 1);
    assert_eq!(processes[0].0, NodeId::from_u64(14));
    assert_eq!(processes[0].1, "1");
    assert_eq!(sched.take_spawned().len(), 1);
}
