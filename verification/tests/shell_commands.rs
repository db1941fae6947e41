use lib::command::{
    exec_target, finish_exec_argv, foreground_step, is_whitespace_char, last_path_segment, parse_exec_argv, read_vfs_file,
    resolve_exec_path, split_words, stdin_step, ExecInputResult, ExecRunError, ForegroundAction, ForegroundEvent,
};
use lib::fs::memfs::MemFs;
use lib::fs::vfs::{FileStat, FileType, VfsError, VirtualFileSystem};
use lib::process::{ProcessExit, ProcessExitStatus, ProcessId};
use lib::shell::{hex_dump, parse_command, run_command, write_u64, CommandKind, ShellOutcome};
use lib::text::{find_gt, find_pair, starts_with_str, str_eq, trim_str};

fn mounted_vfs() -> VirtualFileSystem<MemFs> {
    let mut vfs = VirtualFileSystem::new();
    let mut fs = MemFs::new();
    fs.add_file("app/hello", b"\x7fELF".to_vec());
    fs.add_file("tmp/note.txt", b"hi there".to_vec());
    assert!(vfs.mount("/", fs).is_ok());
    vfs
}

fn run(line: &str, vfs: &mut VirtualFileSystem<MemFs>, cwd: &mut String) -> (ShellOutcome, String) {
    let mut out = Vec::new();
    let r = run_command(&mut out, cwd, line, vfs, true);
    (r, String::from_utf8(out).unwrap())
}

#[test]
fn trim_handles_unicode_white_space() {
    assert_eq!(trim_str("  \t ls /tmp \u{3000}\n"), "ls /tmp");
    assert_eq!(trim_str("\u{a0}x\u{2009}"), "x");
    assert_eq!(trim_str("   "), "");
    assert!(is_whitespace_char('\u{85}'));
    assert!(!is_whitespace_char('x'));
}

#[test]
fn string_helpers() {
    assert!(str_eq("abc", "abc"));
    assert!(!str_eq("abc", "abd"));
    assert!(starts_with_str("exec foo", "exec "));
    assert!(!starts_with_str("ex", "exec"));
    assert_eq!(find_pair("a > b >> c"), Some(6));
    assert_eq!(find_gt("a > b"), Some(2));
    assert_eq!(find_pair("a > b"), None);
}

#[test]
fn parse_simple_commands() {
    assert_eq!(parse_command("   ").kind, CommandKind::Empty);
    assert_eq!(parse_command(" clear ").kind, CommandKind::Clear);
    assert_eq!(parse_command("exit").kind, CommandKind::Exit);
    assert_eq!(parse_command("uname -a").kind, CommandKind::UnameAll);
    assert_eq!(parse_command("ps aux").kind, CommandKind::PsAux);
    assert_eq!(parse_command("shutdown").kind, CommandKind::Poweroff);
    assert_eq!(parse_command("mkdir").kind, CommandKind::NotFound);
    assert_eq!(parse_command("lsx").kind, CommandKind::NotFound);
}

#[test]
fn parse_arguments() {
    let c = parse_command("ls");
    assert_eq!(c.kind, CommandKind::Ls);
    assert_eq!(c.arg, ".");
    let c = parse_command("cd");
    assert_eq!(c.kind, CommandKind::Cd);
    assert_eq!(c.arg, "/");
    let c = parse_command("exec   hello  a b ");
    assert_eq!(c.kind, CommandKind::Exec);
    assert_eq!(c.arg, "hello  a b");
    let c = parse_command("blkread 3 4");
    assert_eq!(c.kind, CommandKind::Blkread);
    assert_eq!(c.arg, "3 4");
    let c = parse_command("mkdir   new ");
    assert_eq!(c.kind, CommandKind::Mkdir);
    assert_eq!(c.arg, "new");
}

#[test]
fn parse_echo_redirections() {
    let c = parse_command("echo hello world");
    assert_eq!(c.kind, CommandKind::Echo);
    assert_eq!(c.arg, "hello world");
    let c = parse_command("echo some text >> /tmp/log ");
    assert_eq!(c.kind, CommandKind::EchoTo);
    assert_eq!(c.arg, "some text");
    assert_eq!(c.target, "/tmp/log");
    assert!(c.append);
    let c = parse_command("echo x> f");
    assert_eq!(c.kind, CommandKind::EchoTo);
    assert_eq!(c.arg, "x");
    assert_eq!(c.target, "f");
    assert!(!c.append);
}

#[test]
fn run_static_and_outcomes() {
    let mut vfs = mounted_vfs();
    let mut cwd = String::from("/");
    let (r, out) = run("uname", &mut vfs, &mut cwd);
    assert!(matches!(r, ShellOutcome::Handled));
    assert_eq!(out, "Dunit OS\n");
    let (r, out) = run("clear", &mut vfs, &mut cwd);
    assert!(matches!(r, ShellOutcome::Clear));
    assert_eq!(out, "");
    let (r, _) = run("exec hello 1", &mut vfs, &mut cwd);
    match r {
        ShellOutcome::Exec(a) => assert_eq!(a, "hello 1"),
        _ => panic!("expected exec"),
    }
    let (r, _) = run("lspci", &mut vfs, &mut cwd);
    assert!(matches!(r, ShellOutcome::Report(CommandKind::Lspci, _)));
    let (r, out) = run("frobnicate", &mut vfs, &mut cwd);
    assert!(matches!(r, ShellOutcome::NotFound));
    assert_eq!(out, "");
    let (_, out) = run("help", &mut vfs, &mut cwd);
    assert!(out.starts_with("Available commands:\n  help       - Show this help\n"));
}

#[test]
fn run_file_commands() {
    let mut vfs = mounted_vfs();
    let mut cwd = String::from("/");
    let (_, out) = run("pwd", &mut vfs, &mut cwd);
    assert_eq!(out, "/\n");
    let (_, out) = run("cd /tmp", &mut vfs, &mut cwd);
    assert_eq!(out, "");
    assert_eq!(cwd, "/tmp");
    let (_, out) = run("cat note.txt", &mut vfs, &mut cwd);
    assert_eq!(out, "hi there\n");
    let (_, out) = run("echo more > out.txt", &mut vfs, &mut cwd);
    assert_eq!(out, "");
    let (_, out) = run("echo again >> out.txt", &mut vfs, &mut cwd);
    assert_eq!(out, "");
    let (_, out) = run("cat out.txt", &mut vfs, &mut cwd);
    assert_eq!(out, "more\nagain\n\n");
    let (_, out) = run("cd note.txt", &mut vfs, &mut cwd);
    assert_eq!(out, "cd: not a directory\n");
    let (_, out) = run("mkdir", &mut vfs, &mut cwd);
    assert_eq!(out, "");
    let (_, out) = run("rm ", &mut vfs, &mut cwd);
    assert_eq!(out, "");
    let (_, out) = run("touch note.txt", &mut vfs, &mut cwd);
    assert_eq!(out, "");
    assert_eq!(vfs.open_file_count(), 0);
}

#[test]
fn run_without_file_system() {
    let mut vfs = mounted_vfs();
    let mut cwd = String::from("/");
    let mut out = Vec::new();
    let _ = run_command(&mut out, &mut cwd, "ls", &mut vfs, false);
    assert_eq!(String::from_utf8(out).unwrap(), "ls: VFS not initialized\n");
    let mut out = Vec::new();
    let _ = run_command(&mut out, &mut cwd, "echo a > b", &mut vfs, false);
    assert_eq!(String::from_utf8(out).unwrap(), "echo: VFS not initialized\n");
    let mut out = Vec::new();
    let _ = run_command(&mut out, &mut cwd, "echo a >", &mut vfs, false);
    assert_eq!(String::from_utf8(out).unwrap(), "echo: missing output file\n");
}

#[test]
fn missing_operand_messages() {
    let mut vfs = mounted_vfs();
    let mut cwd = String::from("/");
    let mut out = Vec::new();
    let _ = run_command(&mut out, &mut cwd, "cat  \t", &mut vfs, true);
    assert_eq!(String::from_utf8(out).unwrap(), "");
    let mut out = Vec::new();
    let _ = run_command(&mut out, &mut cwd, "touch   /tmp/x ", &mut vfs, true);
    assert_eq!(String::from_utf8(out).unwrap(), "");
}

#[test]
fn hex_dump_lines() {
    let mut out = Vec::new();
    let data: Vec<u8> = (0u8..18).map(|b| b + 0x3e).collect();
    hex_dump(&mut out, &data);
    let text = String::from_utf8(out).unwrap();
    assert_eq!(
        text,
        "0000: 3e 3f 40 41 42 43 44 45 46 47 48 49 4a 4b 4c 4d  >?@ABCDEFGHIJKLM\n0010: 4e 4f  NO\n"
    );
    let mut out = Vec::new();
    hex_dump(&mut out, &[0x00, 0x20, 0x7f]);
    assert_eq!(String::from_utf8(out).unwrap(), "0000: 00 20 7f  . .\n");
    let mut out = Vec::new();
    hex_dump(&mut out, &[]);
    assert!(out.is_empty());
}

#[test]
fn decimal_writer() {
    let mut out = Vec::new();
    write_u64(&mut out, 0);
    write_u64(&mut out, 18446744073709551615);
    assert_eq!(out, b"018446744073709551615".to_vec());
}

#[test]
fn split_words_of_a_line() {
    let w = split_words("  run\ta  b\u{2003}c ");
    assert_eq!(w, vec![b"run".to_vec(), b"a".to_vec(), b"b".to_vec(), b"c".to_vec()]);
    assert!(split_words(" \t ").is_empty());
}

#[test]
fn last_segment_of_paths() {
    assert_eq!(last_path_segment(b"/app/hello"), Some(b"hello".to_vec()));
    assert_eq!(last_path_segment(b"/app/dir//"), Some(b"dir".to_vec()));
    assert_eq!(last_path_segment(b"///"), None);
    assert_eq!(last_path_segment(b""), None);
}

#[test]
fn exec_target_decisions() {
    let file = FileStat { file_type: FileType::File, size: 3 };
    let dir = FileStat { file_type: FileType::Directory, size: 0 };
    assert_eq!(exec_target(b"/a".to_vec(), Ok(file)), Ok(b"/a".to_vec()));
    assert_eq!(exec_target(b"/a".to_vec(), Ok(dir)), Err(VfsError::IsADirectory));
    assert_eq!(exec_target(b"/a".to_vec(), Err(VfsError::NotFound)), Err(VfsError::NotFound));
}

#[test]
fn resolve_and_parse_exec() {
    let mut vfs = mounted_vfs();
    assert_eq!(resolve_exec_path(&mut vfs, "/", "hello"), Ok(b"/app/hello".to_vec()));
    assert_eq!(resolve_exec_path(&mut vfs, "/app", "./hello"), Ok(b"/app/hello".to_vec()));
    assert_eq!(resolve_exec_path(&mut vfs, "/", "missing"), Err(VfsError::NotFound));
    assert_eq!(resolve_exec_path(&mut vfs, "/", "/tmp"), Err(VfsError::IsADirectory));
    match parse_exec_argv(&mut vfs, " /app/hello  x y", "/") {
        Ok((path, argv)) => {
            assert_eq!(path, b"/app/hello".to_vec());
            assert_eq!(argv, vec![b"hello".to_vec(), b"x".to_vec(), b"y".to_vec()]);
        },
        Err(_) => panic!("expected a program"),
    }
    assert!(matches!(parse_exec_argv(&mut vfs, "   ", "/"), Err(ExecRunError::MissingPath)));
    match parse_exec_argv(&mut vfs, "nothere", "/") {
        Err(ExecRunError::Vfs(shown, e)) => {
            assert_eq!(shown, b"/app/nothere".to_vec());
            assert_eq!(e, VfsError::NotFound);
        },
        _ => panic!("expected a lookup failure"),
    }
}

#[test]
fn finish_argv_rewrites_first_word() {
    let r = finish_exec_argv(vec![b"hello".to_vec(), b"1".to_vec()], Ok(b"/app/hello".to_vec()));
    match r {
        Ok((p, v)) => {
            assert_eq!(p, b"/app/hello".to_vec());
            assert_eq!(v, vec![b"hello".to_vec(), b"1".to_vec()]);
        },
        Err(_) => panic!("expected success"),
    }
    match finish_exec_argv(vec![b"x/y".to_vec()], Err(VfsError::InvalidPath)) {
        Err(ExecRunError::Vfs(shown, VfsError::InvalidPath)) => assert_eq!(shown, b"x/y".to_vec()),
        _ => panic!("expected the word itself"),
    }
}

#[test]
fn read_whole_file() {
    let mut vfs = mounted_vfs();
    assert_eq!(read_vfs_file(&mut vfs, "/tmp", "note.txt"), Ok(b"hi there".to_vec()));
    assert_eq!(read_vfs_file(&mut vfs, "/", "nope"), Err(VfsError::NotFound));
    assert_eq!(vfs.open_file_count(), 0);
}

#[test]
fn foreground_loop_decisions() {
    let exit = ProcessExit { pid: ProcessId(7), status: ProcessExitStatus::Exited(0) };
    assert_eq!(foreground_step(ForegroundEvent::Exited(exit)), ForegroundAction::Finish(exit));
    assert_eq!(foreground_step(ForegroundEvent::Failed), ForegroundAction::Fail);
    let ev = |runnable, blocked, stdin_waiting| ForegroundEvent::SchedulerUnavailable { runnable, blocked, stdin_waiting };
    assert_eq!(foreground_step(ev(false, false, true)), ForegroundAction::Fail);
    assert_eq!(foreground_step(ev(true, true, true)), ForegroundAction::WaitForInterrupt);
    assert_eq!(foreground_step(ev(true, false, true)), ForegroundAction::CollectStdin);
    assert_eq!(foreground_step(ev(true, false, false)), ForegroundAction::Retry);
    assert!(stdin_step(ExecInputResult::Provided).is_none());
    assert!(matches!(stdin_step(ExecInputResult::Interrupted), Some(ExecRunError::Interrupted)));
    assert!(matches!(stdin_step(ExecInputResult::Unsupported), Some(ExecRunError::StdinUnsupported)));
}

#[test]
fn echo_writes_and_appends_then_rm_removes() {
    let mut vfs = mounted_vfs();
    let mut cwd = String::from("/");
    let (_, text) = run("echo hello > /tmp/x.txt", &mut vfs, &mut cwd);
    assert_eq!(text, "");
    assert_eq!(read_vfs_file(&mut vfs, "/", "/tmp/x.txt"), Ok(b"hello\n".to_vec()));
    let (_, text) = run("echo more >> /tmp/x.txt", &mut vfs, &mut cwd);
    assert_eq!(text, "");
    assert_eq!(read_vfs_file(&mut vfs, "/", "/tmp/x.txt"), Ok(b"hello\nmore\n".to_vec()));
    let (_, text) = run("echo again > /tmp/x.txt", &mut vfs, &mut cwd);
    assert_eq!(text, "");
    assert_eq!(read_vfs_file(&mut vfs, "/", "/tmp/x.txt"), Ok(b"again\n".to_vec()));
    let (_, text) = run("cat /tmp/x.txt", &mut vfs, &mut cwd);
    assert_eq!(text, "again\n\n");
    let (_, text) = run("rm /tmp/x.txt", &mut vfs, &mut cwd);
    assert_eq!(text, "");
    assert_eq!(vfs.stat_at("/", "/tmp/x.txt"), Err(VfsError::NotFound));
}

#[test]
fn ls_prints_the_listing() {
    let mut vfs = mounted_vfs();
    let mut cwd = String::from("/");
    let (_, text) = run("ls /tmp", &mut vfs, &mut cwd);
    assert_eq!(text, "note.txt\n");
    let (_, text) = run("ls /app", &mut vfs, &mut cwd);
    assert_eq!(text, "hello\n");
}

#[test]
fn cat_of_a_large_file_comes_in_chunks() {
    let mut vfs = VirtualFileSystem::new();
    let mut fs = MemFs::new();
    let big: Vec<u8> = (0..1200u32).map(|i| b'a' + (i % 26) as u8).collect();
    fs.add_file("tmp/big", big.clone());
    fs.add_file("tmp/bin", vec![0xff, 0xfe]);
    assert!(vfs.mount("/", fs).is_ok());
    let mut cwd = String::from("/");
    let (_, text) = run("cat /tmp/big", &mut vfs, &mut cwd);
    let mut expected = String::from_utf8(big).unwrap();
    expected.push('\n');
    assert_eq!(text, expected);
    let (_, text) = run("cat /tmp/bin", &mut vfs, &mut cwd);
    assert_eq!(text, "<binary>\n");
}
