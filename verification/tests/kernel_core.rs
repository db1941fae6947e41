use lib::drivers::keyboard::KeyboardState;
use lib::fs::memfs::{init_root, MemFs};
use lib::gui::boot_text::status_scheme;
use lib::memory::heap::{HeapInner, KernelAllocator};
use lib::memory::pmm::PhysicalMemoryManager;
use lib::gui::renderer::Framebuffer;
use lib::fs::vfs::{normalize_path, FileStat, FileType, VfsError, VirtualFileSystem};
use lib::handle::{HandleError, HandleObject, HandleTable};
use lib::process::{FdEntry, Process, ProcessId};
use lib::terminal::{completions_of, decode_key, terminal_key, KeyEvent, TerminalAction, TerminalState};

fn press(state: &mut TerminalState, line: &str) {
    for b in line.bytes() {
        terminal_key(state, KeyEvent::Char(b));
    }
}

fn run_line(state: &mut TerminalState, line: &str) -> Vec<u8> {
    press(state, line);
    match terminal_key(state, KeyEvent::Char(b'\n')) {
        TerminalAction::Run(l) => l,
        _ => panic!("enter must run the line"),
    }
}

#[test]
fn handle_numbers_count_up_from_one() {
    let mut t = HandleTable::new();
    assert_eq!(t.insert(HandleObject::Endpoint(ProcessId(7)), 0xFFFF_FFFF), 1);
    assert_eq!(t.rights(1), Ok(0x7F));
    assert_eq!(t.insert(HandleObject::Display, 0x20), 2);
    assert_eq!(t.rights(3), Err(HandleError::BadHandle));
}

#[test]
fn kernel_process_descriptors_start_at_three() {
    let mut p = Process::new_kernel(ProcessId(1));
    assert_eq!(p.allocate_fd(FdEntry::stdin()), Ok(3));
    assert_eq!(p.allocate_fd(FdEntry::stdin()), Ok(4));
    assert!(p.get_fd(3).is_some());
}

#[test]
fn normalizing_twice_changes_nothing() {
    let once = normalize_path("a/../b/./c//", "/home/user").unwrap();
    assert_eq!(once, b"/home/user/b/c".to_vec());
    let text = String::from_utf8(once.clone()).unwrap();
    assert_eq!(normalize_path(&text, "/elsewhere").unwrap(), once);
    assert_eq!(normalize_path("/x/y/..", "/a").unwrap(), normalize_path("/x/y/..", "/b/c").unwrap());
}

#[test]
fn terminal_typing_and_erasing() {
    let mut s = TerminalState::new();
    match terminal_key(&mut s, KeyEvent::Char(b'l')) {
        TerminalAction::Echo(b) => assert_eq!(b, b'l'),
        _ => panic!("a printable byte is echoed"),
    }
    terminal_key(&mut s, KeyEvent::Char(b's'));
    assert_eq!(s.input, b"ls".to_vec());
    assert!(matches!(terminal_key(&mut s, KeyEvent::Backspace), TerminalAction::Erase));
    assert_eq!(s.input, b"l".to_vec());
    terminal_key(&mut s, KeyEvent::Backspace);
    assert!(matches!(terminal_key(&mut s, KeyEvent::Backspace), TerminalAction::Nothing));
}

#[test]
fn terminal_line_is_capped() {
    let mut s = TerminalState::new();
    for _ in 0..255 {
        terminal_key(&mut s, KeyEvent::Char(b'x'));
    }
    assert_eq!(s.input.len(), 255);
    assert!(matches!(terminal_key(&mut s, KeyEvent::Char(b'y')), TerminalAction::Nothing));
    assert_eq!(s.input.len(), 255);
}

#[test]
fn terminal_history_walk() {
    let mut s = TerminalState::new();
    assert_eq!(run_line(&mut s, "ls"), b"ls".to_vec());
    assert_eq!(run_line(&mut s, "pwd"), b"pwd".to_vec());
    assert_eq!(run_line(&mut s, ""), Vec::<u8>::new());
    assert_eq!(s.history.len(), 2);
    match terminal_key(&mut s, KeyEvent::Up) {
        TerminalAction::Replace(n, t) => {
            assert_eq!(n, 0);
            assert_eq!(t, b"pwd".to_vec());
        },
        _ => panic!("up loads the newest line"),
    }
    terminal_key(&mut s, KeyEvent::Up);
    assert_eq!(s.input, b"ls".to_vec());
    terminal_key(&mut s, KeyEvent::Up);
    assert_eq!(s.input, b"ls".to_vec());
    terminal_key(&mut s, KeyEvent::Down);
    assert_eq!(s.input, b"pwd".to_vec());
    match terminal_key(&mut s, KeyEvent::Down) {
        TerminalAction::Replace(n, t) => {
            assert_eq!(n, 3);
            assert!(t.is_empty());
        },
        _ => panic!("down past the newest clears the line"),
    }
    assert!(s.input.is_empty());
    assert!(s.position.is_none());
}

#[test]
fn terminal_history_keeps_fifty_slots() {
    let mut s = TerminalState::new();
    for i in 0..50 {
        run_line(&mut s, &format!("c{}", i));
    }
    assert_eq!(s.history.len(), 50);
    run_line(&mut s, "late");
    assert_eq!(s.history.len(), 50);
    assert_eq!(s.history[0], b"late".to_vec());
    assert_eq!(s.history[49], b"c49".to_vec());
}

#[test]
fn terminal_tab_completion() {
    let mut s = TerminalState::new();
    press(&mut s, "mk");
    match terminal_key(&mut s, KeyEvent::Char(b'\t')) {
        TerminalAction::Replace(n, t) => {
            assert_eq!(n, 2);
            assert_eq!(t, b"mkdir".to_vec());
        },
        _ => panic!("a single match completes"),
    }
    assert_eq!(s.input, b"mkdir".to_vec());
    let mut s = TerminalState::new();
    press(&mut s, "c");
    match terminal_key(&mut s, KeyEvent::Char(b'\t')) {
        TerminalAction::ShowMatches(m) => assert_eq!(m, vec![b"cd".to_vec(), b"cat".to_vec()]),
        _ => panic!("several matches are listed"),
    }
    assert_eq!(s.input, b"c".to_vec());
    let mut s = TerminalState::new();
    press(&mut s, "zz");
    assert!(matches!(terminal_key(&mut s, KeyEvent::Char(b'\t')), TerminalAction::Nothing));
    assert_eq!(completions_of(b"").len(), 20);
    assert_eq!(completions_of(b"sh"), vec![b"shutdown".to_vec()]);
}

#[test]
fn scancodes_become_keys() {
    let kb = KeyboardState::new();
    assert!(matches!(decode_key(&kb, 0x48), Some(KeyEvent::Up)));
    assert!(matches!(decode_key(&kb, 0x50), Some(KeyEvent::Down)));
    assert!(matches!(decode_key(&kb, 0x0E), Some(KeyEvent::Backspace)));
    assert!(matches!(decode_key(&kb, 0x1E), Some(KeyEvent::Char(b'a'))));
    assert!(matches!(decode_key(&kb, 0x1C), Some(KeyEvent::Char(b'\n'))));
    assert!(decode_key(&kb, 0x9E).is_none());
    assert!(decode_key(&kb, 0x4B).is_none());
}

#[test]
fn root_file_system_holds_programs_and_assets() {
    static ICON: [u8; 3] = [1, 2, 3];
    let early: [(&str, &[u8]); 1] = [("/app/elf_demo", b"\x7fELF")];
    let late: [(&str, &[u8]); 1] = [("/app/calc", b"calc")];
    let assets: [(&str, &'static [u8]); 1] = [("/assets/icons/a.bin", &ICON)];
    let mut vfs: VirtualFileSystem<MemFs> = init_root(&early, &["/assets/icons"], &assets, &late).unwrap();
    assert_eq!(vfs.stat_at("/", "/app/elf_demo"), Ok(FileStat { file_type: FileType::File, size: 4 }));
    assert_eq!(vfs.stat_at("/", "/app/calc"), Ok(FileStat { file_type: FileType::File, size: 4 }));
    assert_eq!(vfs.stat_at("/", "/assets/icons"), Ok(FileStat { file_type: FileType::Directory, size: 0 }));
    assert_eq!(vfs.stat_at("/", "/assets/icons/a.bin"), Ok(FileStat { file_type: FileType::File, size: 3 }));
    assert_eq!(vfs.stat_at("/", "/app/none"), Err(VfsError::NotFound));
}

#[test]
fn boot_status_line_colours_bracketed_words() {
    let mut fb = Framebuffer::new(64, 10, 256).unwrap();
    fb.draw_colored_text(0, 0, "[OK] go", status_scheme());
    assert_eq!(fb.read_pixel(1, 0), 0x00ff00);
    assert_eq!(fb.read_pixel(6, 1), 0x00ff00);
    assert_eq!(fb.read_pixel(30, 2), 0xffffff);
    assert_eq!(fb.read_pixel(0, 0), 0);
}

#[test]
fn boot_error_and_log_fonts() {
    let mut fb = Framebuffer::new(64, 10, 256).unwrap();
    fb.draw_error_text_old(0, 0, "!");
    assert_eq!(fb.read_pixel(2, 0), 0xdc322f);
    let mut fb = Framebuffer::new(64, 10, 256).unwrap();
    fb.draw_text_direct(0, 0, "_x", 0x123456);
    assert_eq!(fb.read_pixel(0, 6), 0x123456);
    for px in 6..11 {
        for py in 0..8 {
            assert_eq!(fb.read_pixel(px, py), 0);
        }
    }
}

#[test]
fn heap_first_fit_split_and_merge() {
    let mut h = HeapInner::new();
    h.add_bootstrap(0x1000, 0x1000);
    assert_eq!(h.alloc_from_free_list(24, 8), Some(0x1010));
    assert_eq!(h.free_list, vec![(0x1028, 0xFD8)]);
    assert_eq!(h.headers, vec![(0x1010, (0x1000, 0x28))]);
    assert_eq!(h.alloc_from_free_list(0x2000, 8), None);
    assert_eq!(h.alloc_from_free_list(1, 64), Some(0x1040));
    assert_eq!(h.free_list, vec![(0x1048, 0x1000 - 0x48)]);
    h.dealloc(0x1010);
    assert_eq!(h.free_list, vec![(0x1000, 0x28), (0x1048, 0x1000 - 0x48)]);
    h.dealloc(0x1040);
    assert_eq!(h.free_list, vec![(0x1000, 0x1000)]);
    let st = h.stats();
    assert_eq!((st.total_bytes, st.free_bytes, st.used_bytes, st.free_blocks), (0x1000, 0x1000, 0, 1));
}

#[test]
fn heap_small_tail_goes_with_the_block() {
    let mut h = HeapInner::new();
    h.add_bootstrap(0x2000, 0x30);
    assert_eq!(h.alloc_from_free_list(24, 8), Some(0x2010));
    assert!(h.free_list.is_empty());
    assert_eq!(h.headers, vec![(0x2010, (0x2000, 0x30))]);
}

#[test]
fn kernel_allocator_grows_from_the_frame_pool() {
    let mut pmm = PhysicalMemoryManager::new(0x10_0000, 0x40_0000, vec![0u8; 256]);
    let mut a = KernelAllocator::new();
    a.init(0x1000, 0x100);
    assert_eq!(a.allocate(0x20, 8, &mut pmm, 0), Some(0x1010));
    let big = a.allocate(0x1000, 8, &mut pmm, 0);
    assert_eq!(big, Some(0x10_0010));
    assert_eq!(a.stats().total_bytes, 0x100 + 0x10_0000);
    a.dealloc(0);
    a.dealloc(0x1010);
}
