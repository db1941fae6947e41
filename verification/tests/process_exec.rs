use lib::elf::{prepare_process_elf, ElfError};
use lib::memory::pmm::PhysicalMemoryManager;
use lib::process::scheduler::Scheduler;
use lib::process::table::{insert_process_record, take_process_exit_request, ProcessSystem};
use lib::process::{Process, ProcessExitStatus, ProcessFault, ProcessId, ProcessState};

fn exit_request(code: i32, kind: i32) -> Option<(i32, ProcessExitStatus)> {
    let mut sys = ProcessSystem::new();
    sys.current_pid = 7;
    sys.exit_requested = true;
    sys.exit_code = code;
    sys.exit_kind = kind;
    let r = take_process_exit_request(&mut sys);
    assert!(!sys.exit_requested);
    r
}

#[test]
fn exit_request_reports_the_exit_code() {
    assert_eq!(exit_request(3, 0), Some((3, ProcessExitStatus::Exited(3))));
}

#[test]
fn exit_request_reports_each_fault_kind() {
    assert_eq!(exit_request(-1, 1).map(|r| r.1), Some(ProcessExitStatus::Fault(ProcessFault::PageFault)));
    assert_eq!(exit_request(-1, 2).map(|r| r.1), Some(ProcessExitStatus::Fault(ProcessFault::GeneralProtection)));
    assert_eq!(exit_request(-1, 3).map(|r| r.1), Some(ProcessExitStatus::Fault(ProcessFault::InvalidOpcode)));
    assert_eq!(exit_request(-1, 4).map(|r| r.1), Some(ProcessExitStatus::Fault(ProcessFault::DivideByZero)));
    assert_eq!(exit_request(-1, 99).map(|r| r.1), Some(ProcessExitStatus::Fault(ProcessFault::Unknown)));
}

#[test]
fn no_exit_request_gives_nothing() {
    let mut sys = ProcessSystem::new();
    assert_eq!(take_process_exit_request(&mut sys), None);
}

fn elf_header(entry: u64) -> Vec<u8> {
    let mut d = vec![0u8; 64];
    d[0] = 0x7F;
    d[1] = b'E';
    d[2] = b'L';
    d[3] = b'F';
    d[4] = 2;
    d[5] = 1;
    d[6] = 1;
    d[16] = 2;
    d[18] = 0x3E;
    d[24..32].copy_from_slice(&entry.to_le_bytes());
    d[52] = 64;
    d[54] = 56;
    d
}

#[test]
fn exec_of_a_bad_image_reports_its_error() {
    let mut sys = ProcessSystem::new();
    let mut pmm = PhysicalMemoryManager::new(0x10_0000, 0x40_0000, vec![0u8; 256]);
    let argv = vec![b"prog".to_vec()];
    let r = prepare_process_elf(&mut sys, ProcessId(5), &[1, 2, 3], &argv, &mut pmm);
    assert!(matches!(r, Err(ElfError::InvalidMagic)));
    let mut bad_class = elf_header(0x40_1000);
    bad_class[4] = 1;
    let r = prepare_process_elf(&mut sys, ProcessId(5), &bad_class, &argv, &mut pmm);
    assert!(matches!(r, Err(ElfError::InvalidClass)));
}

#[test]
fn exec_into_a_missing_process_fails() {
    let mut sys = ProcessSystem::new();
    let mut pmm = PhysicalMemoryManager::new(0x10_0000, 0x40_0000, vec![0u8; 256]);
    let argv = vec![b"prog".to_vec()];
    let r = prepare_process_elf(&mut sys, ProcessId(5), &elf_header(0x40_1000), &argv, &mut pmm);
    assert!(matches!(r, Err(ElfError::InvalidProgramHeader)));
    assert!(sys.table.is_empty());
}

#[test]
fn exec_sets_the_entry_registers_and_queues_the_process() {
    let mut sys = ProcessSystem::new();
    sys.scheduler = Some(Scheduler::new());
    let mut pmm = PhysicalMemoryManager::new(0x10_0000, 0x40_0000, vec![0u8; 256]);
    let pid = ProcessId(5);
    let process = Process::new_user(pid, &mut pmm).ok().unwrap();
    insert_process_record(&mut sys, pid, None, String::from("/app/prog"), ProcessState::Prepared, true, false, Some(process));
    let argv = vec![b"prog".to_vec(), b"-v".to_vec()];
    let img = prepare_process_elf(&mut sys, pid, &elf_header(0x40_1000), &argv, &mut pmm).ok().unwrap();
    let rec = &sys.table[0];
    assert_eq!(rec.state, ProcessState::Ready);
    let p = rec.process.as_ref().unwrap();
    assert_eq!(p.context.rip, 0x40_1000);
    assert_eq!(p.context.rflags, 0x202);
    assert_eq!(p.context.rsp, img.stack.rsp);
    assert_eq!(p.context.rsp % 16, 8);
    assert_eq!(p.context.rdi, 2);
    assert_eq!(p.context.rsi, img.stack.argv);
    assert_eq!(p.context.rdx, img.stack.envp);
    assert_eq!(sys.scheduler.as_ref().unwrap().ready_queue, vec![pid]);
}

#[test]
fn messages_come_out_in_the_order_sent() {
    let mut m = lib::ipc::IpcManager::new();
    let t = ProcessId(9);
    for k in 0..3u32 {
        let msg = lib::ipc::Message::new(ProcessId(1), lib::ipc::MessageType::WindowClose { window_id: k });
        assert!(m.send_message(t, msg, true).is_ok());
    }
    assert!(m.has_messages(t));
    for k in 0..3u32 {
        match m.receive_message(t).map(|msg| msg.msg_type) {
            Some(lib::ipc::MessageType::WindowClose { window_id }) => assert_eq!(window_id, k),
            _ => panic!("expected message {}", k),
        }
    }
    assert!(m.receive_message(t).is_none());
    let msg = lib::ipc::Message::new(ProcessId(1), lib::ipc::MessageType::WindowClose { window_id: 0 });
    assert!(matches!(m.send_message(ProcessId(10), msg, false), Err(lib::ipc::IpcError::InvalidTarget)));
}

#[test]
fn freeing_an_allocated_frame_restores_the_pool() {
    let mut pmm = PhysicalMemoryManager::new(0x10_0000, 0x40_0000, vec![0u8; 256]);
    let before = pmm.available_memory();
    let a = pmm.alloc_frame().unwrap();
    assert_eq!(a.0, 0x10_0000);
    assert_eq!(pmm.available_memory(), before - 4096);
    let b = pmm.alloc_frame().unwrap();
    assert_eq!(b.0, 0x10_1000);
    pmm.free_frame(a);
    assert_eq!(pmm.available_memory(), before - 4096);
    pmm.free_frame(a);
    assert_eq!(pmm.available_memory(), before - 4096);
    assert_eq!(pmm.alloc_frame().unwrap().0, 0x10_0000);
}
