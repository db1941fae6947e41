//! Running a program from a command line: splitting the line into words,
//! resolving the program's path, and the decisions of the foreground loop.
use vstd::prelude::*;
use vstd::string::{StringSliceAdditionalSpecFns, StrSliceExecFns};
use crate::fs::vfs::{FileHandle, FileStat, FileSystem, FileType, HandleModel, OpenFlags, VfsError, VirtualFileSystem, normalized_path, read_part, relative_path, lemma_read_flags};
use crate::process::{ProcessExit, ProcessId};

verus! {

/// Unicode `White_Space`, the set `char::is_whitespace` tests.
pub open spec fn is_ws(c: char) -> bool {
    let u = c as u32;
    ||| 9 <= u <= 13
    ||| u == 32
    ||| u == 0x85
    ||| u == 0xA0
    ||| u == 0x1680
    ||| 0x2000 <= u <= 0x200A
    ||| u == 0x2028
    ||| u == 0x2029
    ||| u == 0x202F
    ||| u == 0x205F
    ||| u == 0x3000
}

pub fn is_whitespace_char(c: char) -> (r: bool)
    ensures
        r == is_ws(c),
{
    let u = c as u32;
    (9 <= u && u <= 13) || u == 32 || u == 0x85 || u == 0xA0 || u == 0x1680
        || (0x2000 <= u && u <= 0x200A) || u == 0x2028 || u == 0x2029 || u == 0x202F
        || u == 0x205F || u == 0x3000
}

/// Splitting a prefix of a line: the words it completed, as character
/// ranges, and where the word still open at its end started.
pub open spec fn split_state(p: Seq<char>) -> (Seq<(int, int)>, Option<int>)
    decreases p.len(),
{
    if p.len() == 0 {
        (Seq::empty(), None)
    } else {
        let (done, open) = split_state(p.drop_last());
        let k = p.len() - 1;
        if is_ws(p.last()) {
            match open {
                Some(st) => (done.push((st, k)), None),
                None => (done, None),
            }
        } else {
            match open {
                Some(st) => (done, Some(st)),
                None => (done, Some(k)),
            }
        }
    }
}

/// The character ranges of the whitespace-separated words of `s`, in order.
pub open spec fn word_spans(s: Seq<char>) -> Seq<(int, int)> {
    let (done, open) = split_state(s);
    match open {
        Some(st) => done.push((st, s.len() as int)),
        None => done,
    }
}

/// The whitespace-separated words of `s`.
pub open spec fn words(s: Seq<char>) -> Seq<Seq<char>> {
    word_spans(s).map_values(|w: (int, int)| s.subrange(w.0, w.1))
}

/// The character ranges of the words of `line`.
pub fn split_spans(line: &str) -> (r: Vec<(usize, usize)>)
    ensures
        r@.len() == word_spans(line@).len(),
        forall|i: int| 0 <= i < r@.len() ==> (#[trigger] r@[i]).0 as int == word_spans(line@)[i].0
            && r@[i].1 as int == word_spans(line@)[i].1 && r@[i].0 < r@[i].1 <= line@.len(),
{
    let n = line.unicode_len();
    let mut out: Vec<(usize, usize)> = Vec::new();
    let mut open: Option<usize> = None;
    let mut i: usize = 0;
    proof {
        assert(line@.take(0) =~= Seq::<char>::empty());
    }
    while i < n
        invariant
            n == line@.len(),
            i <= n,
            ({
                let (done, op) = split_state(line@.take(i as int));
                &&& out@.len() == done.len()
                &&& forall|k: int| 0 <= k < out@.len() ==> (#[trigger] out@[k]).0 as int == done[k].0
                    && out@[k].1 as int == done[k].1 && out@[k].0 < out@[k].1 <= i
                &&& match op {
                    Some(st) => open == Some(st as usize) && 0 <= st < i,
                    None => open is None,
                }
            }),
        decreases n - i,
    {
        let c = line.get_char(i);
        let ghost p = line@.take(i as int + 1);
        proof {
            assert(p.drop_last() =~= line@.take(i as int));
            assert(p.last() == c);
        }
        if is_whitespace_char(c) {
            match open {
                Some(st) => {
                    out.push((st, i));
                    open = None;
                },
                None => {},
            }
        } else {
            match open {
                Some(_) => {},
                None => {
                    open = Some(i);
                },
            }
        }
        i = i + 1;
    }
    proof {
        assert(line@.take(n as int) =~= line@);
    }
    match open {
        Some(st) => {
            out.push((st, n));
        },
        None => {},
    }
    out
}

/// The words of `line`, each as its UTF-8 bytes.
pub fn split_words(line: &str) -> (r: Vec<Vec<u8>>)
    ensures
        r@.len() == words(line@).len(),
        forall|i: int| 0 <= i < r@.len() ==> (#[trigger] r@[i])@ == vstd::utf8::encode_utf8(words(line@)[i]),
{
    let spans = split_spans(line);
    let mut out: Vec<Vec<u8>> = Vec::new();
    let mut k: usize = 0;
    while k < spans.len()
        invariant
            k <= spans@.len(),
            spans@.len() == word_spans(line@).len(),
            forall|i: int| 0 <= i < spans@.len() ==> (#[trigger] spans@[i]).0 as int == word_spans(line@)[i].0
                && spans@[i].1 as int == word_spans(line@)[i].1 && spans@[i].0 < spans@[i].1 <= line@.len(),
            out@.len() == k,
            forall|i: int| 0 <= i < k ==> (#[trigger] out@[i])@ == vstd::utf8::encode_utf8(words(line@)[i]),
        decreases spans@.len() - k,
    {
        let (a, b) = spans[k];
        let w = line.substring_char(a, b);
        out.push(vstd::slice::slice_to_vec(w.as_bytes()));
        k = k + 1;
    }
    out
}

/// Why a program could not be run.
pub enum ExecRunError {
    MissingPath,
    Vfs(Vec<u8>, VfsError),
    ProcessCreate,
    ElfLaunch,
    Interrupted,
    StdinUnsupported,
}

/// What a terminal did when the running program asked for input.
#[derive(Debug, Clone, Copy, PartialEq, Eq, Structural)]
pub enum ExecInputResult {
    Provided,
    Interrupted,
    Unsupported,
}

/// A source of standard input for a program run in the foreground.
pub trait ExecInput {
    fn collect_stdin(&mut self, pid: ProcessId) -> ExecInputResult;
}

/// A foreground with no input: every request is unsupported.
pub struct NoExecInput;

impl ExecInput for NoExecInput {
    fn collect_stdin(&mut self, pid: ProcessId) -> (r: ExecInputResult)
        ensures
            r == ExecInputResult::Unsupported,
    {
        ExecInputResult::Unsupported
    }
}

/// `/app/`, where bare program names are looked up.
pub open spec fn app_dir() -> Seq<char> {
    seq!['/', 'a', 'p', 'p', '/']
}

/// `/app/` as bytes.
pub open spec fn app_dir_bytes() -> Seq<u8> {
    seq![47u8, 97u8, 112u8, 112u8, 47u8]
}

/// Whether `b` holds a slash.
pub fn has_slash(b: &[u8]) -> (r: bool)
    ensures
        r == b@.contains(47u8),
{
    let mut i: usize = 0;
    while i < b.len()
        invariant
            i <= b@.len(),
            forall|k: int| 0 <= k < i ==> b@[k] != 47u8,
        decreases b@.len() - i,
    {
        if b[i] == 47u8 {
            return true;
        }
        i = i + 1;
    }
    false
}

/// The answer for a candidate program path, given what `stat` said of it:
/// a directory cannot be run, a failed `stat` is passed on.
pub fn exec_target(candidate: Vec<u8>, stat: Result<FileStat, VfsError>) -> (r: Result<Vec<u8>, VfsError>)
    ensures
        exec_answer(r, exec_outcome(candidate@, stat)),
        stat matches Ok(st) && st.file_type == FileType::Directory ==> r == Err::<Vec<u8>, VfsError>(VfsError::IsADirectory),
        stat matches Ok(st) && st.file_type != FileType::Directory ==> r == Ok::<Vec<u8>, VfsError>(candidate),
        stat matches Err(e) ==> r == Err::<Vec<u8>, VfsError>(e),
{
    match stat {
        Ok(st) => {
            if st.file_type == FileType::Directory {
                Err(VfsError::IsADirectory)
            } else {
                Ok(candidate)
            }
        },
        Err(e) => Err(e),
    }
}

/// What a program lookup of `candidate` gives for the `stat` answer: a
/// directory is refused, any other existing node is the program.
pub open spec fn exec_outcome(candidate: Seq<u8>, stat: Result<FileStat, VfsError>) -> Result<Seq<u8>, VfsError> {
    match stat {
        Ok(st) => if st.file_type == FileType::Directory { Err(VfsError::IsADirectory) } else { Ok(candidate) },
        Err(e) => Err(e),
    }
}

/// `r` is the lookup outcome `expected`.
pub open spec fn exec_answer(r: Result<Vec<u8>, VfsError>, expected: Result<Seq<u8>, VfsError>) -> bool {
    match expected {
        Ok(c) => r matches Ok(v) && v@ == c,
        Err(e) => r == Err::<Vec<u8>, VfsError>(e),
    }
}

/// What resolving the program name `path` against `cwd` gives in `vfs`: a
/// name with a slash is normalized against `cwd`, a bare name is looked up
/// in `/app/`; either must exist and not be a directory.
pub open spec fn exec_resolution<F: FileSystem>(vfs: VirtualFileSystem<F>, path: Seq<char>, cwd: Seq<u8>) -> Result<Seq<u8>, VfsError> {
    let b = vstd::utf8::encode_utf8(path);
    if b.contains(47u8) {
        match normalized_path(b, cwd) {
            None => Err(VfsError::InvalidPath),
            Some(p) => exec_outcome(p, vfs.stat_model_at(b, cwd)),
        }
    } else {
        let c = vstd::utf8::encode_utf8(app_dir() + path);
        exec_outcome(c, vfs.stat_model_at(c, "/".spec_bytes()))
    }
}

/// The absolute path of the program `path` names: a path with a slash is
/// normalized against `cwd`, a bare name is looked up in `/app/`. Either
/// must exist and not be a directory; what the root file system answers to
/// `stat` decides that (see `exec_target`).
pub fn resolve_exec_path<F: FileSystem>(vfs: &mut VirtualFileSystem<F>, cwd: &str, path: &str) -> (r: Result<Vec<u8>, VfsError>)
    requires
        old(vfs).wf(),
    ensures
        final(vfs).wf(),
        final(vfs).same_stats(&*old(vfs)),
        final(vfs).root_fs is Some == old(vfs).root_fs is Some,
        old(vfs).root_fs is Some ==> forall|q: Seq<u8>| #[trigger] final(vfs).root_fs->0.content_model(q) == old(vfs).root_fs->0.content_model(q),
        old(vfs).root_fs is Some ==> forall|h: FileHandle| #[trigger] final(vfs).root_fs->0.handle_model(h) == old(vfs).root_fs->0.handle_model(h),
        final(vfs).open_files == old(vfs).open_files,
        final(vfs).next_fd == old(vfs).next_fd,
        path.spec_bytes().contains(47u8) ==> {
            &&& normalized_path(path.spec_bytes(), cwd.spec_bytes()) is None ==> r == Err::<Vec<u8>, VfsError>(VfsError::InvalidPath)
            &&& normalized_path(path.spec_bytes(), cwd.spec_bytes()) is Some && old(vfs).root_fs is None ==> r == Err::<Vec<u8>, VfsError>(VfsError::NotFound)
            &&& r matches Ok(v) ==> normalized_path(path.spec_bytes(), cwd.spec_bytes()) == Some(v@)
        },
        !path.spec_bytes().contains(47u8) ==> {
            &&& old(vfs).root_fs is None ==> r is Err
            &&& r matches Ok(v) ==> v@ == vstd::utf8::encode_utf8(app_dir() + path@)
        },
        path.spec_bytes().contains(47u8) && normalized_path(path.spec_bytes(), cwd.spec_bytes()) is Some ==>
            exec_answer(r, exec_outcome(normalized_path(path.spec_bytes(), cwd.spec_bytes())->0,
                old(vfs).stat_model_at(path.spec_bytes(), cwd.spec_bytes()))),
        !path.spec_bytes().contains(47u8) ==> {
            let candidate = vstd::utf8::encode_utf8(app_dir() + path@);
            exec_answer(r, exec_outcome(candidate, old(vfs).stat_model_at(candidate, "/".spec_bytes())))
        },
        exec_answer(r, exec_resolution(*old(vfs), path@, cwd.spec_bytes())),
{
    if has_slash(path.as_bytes()) {
        let normalized = match vfs.normalize_at(cwd, path) {
            Ok(v) => v,
            Err(e) => return Err(e),
        };
        let stat = vfs.stat_at(cwd, path);
        return exec_target(normalized, stat);
    }
    let mut candidate = String::from_str("/app/");
    candidate.append(path);
    proof {
        reveal_strlit("/app/");
        assert(candidate@ == app_dir() + path@);
    }
    let cs = candidate.as_str();
    let stat = vfs.stat_at("/", cs);
    let bytes = vstd::slice::slice_to_vec(cs.as_bytes());
    proof {
        assert(cs.spec_bytes() == bytes@);
    }
    exec_target(bytes, stat)
}

/// One past the last byte of `n` that is not a slash (0 when there is none).
pub open spec fn segment_end(n: Seq<u8>) -> int
    decreases n.len(),
{
    if n.len() == 0 {
        0
    } else if n.last() != 47u8 {
        n.len() as int
    } else {
        segment_end(n.drop_last())
    }
}

/// Where the last slash-free run of `n` starts.
pub open spec fn segment_start(n: Seq<u8>) -> int
    decreases n.len(),
{
    if n.len() == 0 {
        0
    } else if n.last() == 47u8 {
        n.len() as int
    } else {
        segment_start(n.drop_last())
    }
}

/// The last non-empty slash-separated part of `n`, if it has one.
pub open spec fn last_segment(n: Seq<u8>) -> Option<Seq<u8>> {
    let e = segment_end(n);
    if e == 0 {
        None
    } else {
        Some(n.subrange(segment_start(n.take(e)), e))
    }
}

proof fn lemma_segment_bounds(n: Seq<u8>)
    ensures
        0 <= segment_end(n) <= n.len(),
        0 <= segment_start(n) <= n.len(),
    decreases n.len(),
{
    if n.len() > 0 {
        lemma_segment_bounds(n.drop_last());
    }
}

/// The last non-empty slash-separated part of `n`.
pub fn last_path_segment(n: &[u8]) -> (r: Option<Vec<u8>>)
    ensures
        last_segment(n@) matches Some(s) ==> (r matches Some(v) && v@ == s),
        last_segment(n@) is None ==> r is None,
{
    let mut e: usize = n.len();
    proof {
        assert(n@.take(n@.len() as int) =~= n@);
    }
    while e > 0 && n[e - 1] == 47u8
        invariant
            e <= n@.len(),
            segment_end(n@) == segment_end(n@.take(e as int)),
        decreases e,
    {
        proof {
            assert(n@.take(e as int).drop_last() =~= n@.take(e as int - 1));
        }
        e = e - 1;
    }
    proof {
        if e > 0 {
            assert(n@.take(e as int).last() == n@[e as int - 1]);
        }
    }
    if e == 0 {
        return None;
    }
    let mut st: usize = e;
    let ghost t = n@.take(e as int);
    proof {
        assert(t.take(e as int) =~= t);
    }
    while st > 0 && n[st - 1] != 47u8
        invariant
            st <= e <= n@.len(),
            t == n@.take(e as int),
            segment_start(t) == segment_start(t.take(st as int)),
        decreases st,
    {
        proof {
            assert(t.take(st as int).drop_last() =~= t.take(st as int - 1));
            assert(t.take(st as int).last() == n@[st as int - 1]);
        }
        st = st - 1;
    }
    proof {
        if st > 0 {
            assert(t.take(st as int).last() == n@[st as int - 1]);
        }
        lemma_segment_bounds(t.take(st as int));
    }
    let mut out: Vec<u8> = Vec::new();
    let mut i: usize = st;
    while i < e
        invariant
            st <= i <= e <= n@.len(),
            out@ == n@.subrange(st as int, i as int),
        decreases e - i,
    {
        out.push(n[i]);
        proof {
            assert(out@ =~= n@.subrange(st as int, i as int + 1));
        }
        i = i + 1;
    }
    Some(out)
}

/// The path shown when a program cannot be found: the word itself when it
/// has a slash, else the word under `/app/`.
pub open spec fn shown_path(word: Seq<u8>) -> Seq<u8> {
    if word.contains(47u8) { word } else { app_dir_bytes() + word }
}

/// The argument vector run for `argv` once `path` resolved: the first word
/// is replaced by the last part of the path.
pub open spec fn final_argv(argv: Seq<Seq<u8>>, path: Seq<u8>) -> Seq<Seq<u8>> {
    match last_segment(path) {
        Some(s) => argv.update(0, s),
        None => argv,
    }
}

/// The views of a list of byte strings.
pub open spec fn byte_views(v: Seq<Vec<u8>>) -> Seq<Seq<u8>> {
    v.map_values(|x: Vec<u8>| x@)
}

/// Finishes an argument vector given how its first word resolved.
pub fn finish_exec_argv(argv: Vec<Vec<u8>>, resolved: Result<Vec<u8>, VfsError>) -> (r: Result<(Vec<u8>, Vec<Vec<u8>>), ExecRunError>)
    requires
        argv@.len() > 0,
    ensures
        resolved matches Err(e) ==> (r matches Err(ExecRunError::Vfs(shown, e2)) && e2 == e && shown@ == shown_path(argv@[0]@)),
        resolved matches Ok(p) ==> (r matches Ok((q, v)) && q@ == p@ && byte_views(v@) == final_argv(byte_views(argv@), p@)),
{
    let mut argv = argv;
    match resolved {
        Err(e) => {
            let first = argv[0].as_slice();
            let mut shown: Vec<u8> = Vec::new();
            if !has_slash(first) {
                shown.push(47u8);
                shown.push(97u8);
                shown.push(112u8);
                shown.push(112u8);
                shown.push(47u8);
            }
            let ghost pre = shown@;
            let mut i: usize = 0;
            while i < first.len()
                invariant
                    i <= first@.len(),
                    shown@ == pre + first@.subrange(0, i as int),
                decreases first@.len() - i,
            {
                shown.push(first[i]);
                proof {
                    assert(shown@ =~= pre + first@.subrange(0, i as int + 1));
                }
                i = i + 1;
            }
            proof {
                assert(first@.subrange(0, first@.len() as int) =~= first@);
                assert(shown@ =~= shown_path(argv@[0]@));
            }
            Err(ExecRunError::Vfs(shown, e))
        },
        Ok(path) => {
            let ghost before = argv@;
            match last_path_segment(path.as_slice()) {
                Some(seg) => {
                    argv.set(0, seg);
                    proof {
                        assert(byte_views(argv@) =~= byte_views(before).update(0, last_segment(path@)->0));
                    }
                },
                None => {},
            }
            Ok((path, argv))
        },
    }
}

/// The words of `s`, each as its UTF-8 bytes.
pub open spec fn encoded_words(s: Seq<char>) -> Seq<Seq<u8>> {
    words(s).map_values(|w: Seq<char>| vstd::utf8::encode_utf8(w))
}

/// Splits `command_line` into words and resolves the first as a program:
/// the program's absolute path and the argument vector to run it with.
pub fn parse_exec_argv<F: FileSystem>(vfs: &mut VirtualFileSystem<F>, command_line: &str, cwd: &str) -> (r: Result<(Vec<u8>, Vec<Vec<u8>>), ExecRunError>)
    requires
        old(vfs).wf(),
    ensures
        final(vfs).wf(),
        final(vfs).same_stats(&*old(vfs)),
        final(vfs).root_fs is Some == old(vfs).root_fs is Some,
        old(vfs).root_fs is Some ==> forall|q: Seq<u8>| #[trigger] final(vfs).root_fs->0.content_model(q) == old(vfs).root_fs->0.content_model(q),
        old(vfs).root_fs is Some ==> forall|h: FileHandle| #[trigger] final(vfs).root_fs->0.handle_model(h) == old(vfs).root_fs->0.handle_model(h),
        final(vfs).open_files == old(vfs).open_files,
        final(vfs).next_fd == old(vfs).next_fd,
        words(command_line@).len() == 0 ==> r matches Err(ExecRunError::MissingPath),
        words(command_line@).len() > 0 ==> {
            let w = encoded_words(command_line@);
            let outcome = exec_resolution(*old(vfs), words(command_line@)[0], cwd.spec_bytes());
            &&& !(r matches Err(ExecRunError::MissingPath))
            &&& outcome matches Ok(p) ==> (r matches Ok((q, argv)) && q@ == p && byte_views(argv@) == final_argv(w, p))
            &&& outcome matches Err(e) ==> (r matches Err(ExecRunError::Vfs(shown, e2)) && e2 == e && shown@ == shown_path(w[0]))
            &&& r matches Err(ExecRunError::Vfs(shown, _)) ==> shown@ == shown_path(w[0])
            &&& r matches Ok((p, argv)) ==> byte_views(argv@) == final_argv(w, p@)
                && (w[0].contains(47u8) ==> normalized_path(w[0], cwd.spec_bytes()) == Some(p@))
                && (!w[0].contains(47u8) ==> p@ == vstd::utf8::encode_utf8(app_dir() + words(command_line@)[0]))
        },
{
    let spans = split_spans(command_line);
    if spans.len() == 0 {
        return Err(ExecRunError::MissingPath);
    }
    let argv = split_words(command_line);
    let (a, b) = spans[0];
    let requested = command_line.substring_char(a, b);
    proof {
        assert(requested@ == words(command_line@)[0]);
        assert(byte_views(argv@) =~= encoded_words(command_line@));
    }
    let resolved = resolve_exec_path(vfs, cwd, requested);
    proof {
        assert(encoded_words(command_line@)[0] == requested.spec_bytes());
    }
    finish_exec_argv(argv, resolved)
}

/// Reads the whole file at `path` (relative to `cwd`) through a descriptor
/// that is closed again whatever happens.
pub fn read_vfs_file<F: FileSystem>(vfs: &mut VirtualFileSystem<F>, cwd: &str, path: &str) -> (r: Result<Vec<u8>, VfsError>)
    requires
        old(vfs).wf(),
        old(vfs).next_fd < u32::MAX,
    ensures
        final(vfs).wf(),
        final(vfs).files() == old(vfs).files(),
        normalized_path(path.spec_bytes(), cwd.spec_bytes()) is None ==> r == Err::<Vec<u8>, VfsError>(VfsError::InvalidPath),
        normalized_path(path.spec_bytes(), cwd.spec_bytes()) is Some && old(vfs).root_fs is None ==>
            r == Err::<Vec<u8>, VfsError>(VfsError::NotFound),
        normalized_path(path.spec_bytes(), cwd.spec_bytes()) is Some && old(vfs).root_fs is Some ==> ({
            let fs0 = old(vfs).root_fs->0;
            let k = F::path_key(relative_path(path.spec_bytes(), cwd.spec_bytes()));
            &&& final(vfs).root_fs is Some
            &&& forall|q: Seq<u8>| fs0.content_model(q) is Some ==> #[trigger] final(vfs).root_fs->0.content_model(q) == fs0.content_model(q)
            &&& (fs0.content_model(k) is Some && fs0.handle_model(fs0.next_handle_model()) is None) ==> {
                let c = fs0.content_model(k)->Some_0;
                &&& r matches Ok(d) ==> d@ == c
                &&& c.len() <= usize::MAX ==> r is Ok
            }
        }),
{
    let ghost rel = relative_path(path.spec_bytes(), cwd.spec_bytes());
    let ghost k = F::path_key(rel);
    let ghost fs0 = vfs.root_fs->0;
    let ghost track = normalized_path(path.spec_bytes(), cwd.spec_bytes()) is Some && vfs.root_fs is Some
        && fs0.content_model(k) is Some && fs0.handle_model(fs0.next_handle_model()) is None;
    let ghost c = fs0.content_model(k)->Some_0;
    proof {
        lemma_read_flags();
    }
    let fd = match vfs.open_at(cwd, path, OpenFlags::flag_read()) {
        Ok(fd) => fd,
        Err(e) => return Err(e),
    };
    let ghost h = vfs.files()[fd];
    let mut data: Vec<u8> = Vec::new();
    let mut buf: Vec<u8> = vec![0u8; 512];
    loop
        invariant
            vfs.wf(),
            vfs.files().contains_key(fd),
            vfs.files().remove(fd) == old(vfs).files(),
            vfs.files()[fd] == h,
            buf@.len() == 512,
            normalized_path(path.spec_bytes(), cwd.spec_bytes()) is Some,
            old(vfs).root_fs is Some,
            vfs.root_fs is Some,
            forall|q: Seq<u8>| fs0.content_model(q) is Some ==> #[trigger] vfs.root_fs->0.content_model(q) == fs0.content_model(q),
            fs0 == old(vfs).root_fs->0,
            rel == relative_path(path.spec_bytes(), cwd.spec_bytes()),
            k == F::path_key(rel),
            track == (fs0.content_model(k) is Some && fs0.handle_model(fs0.next_handle_model()) is None),
            c == fs0.content_model(k)->Some_0,
            track ==> {
                &&& c == fs0.content_model(k)->Some_0
                &&& vfs.root_fs->0.handle_model(h) == Some(HandleModel { path: k, offset: data@.len() as usize, append: false, read: true, write: false })
                &&& data@.len() <= c.len()
                &&& data@ == c.subrange(0, data@.len() as int)
            },
        ensures
            vfs.wf(),
            vfs.files().contains_key(fd),
            vfs.files().remove(fd) == old(vfs).files(),
            vfs.root_fs is Some,
            forall|q: Seq<u8>| fs0.content_model(q) is Some ==> #[trigger] vfs.root_fs->0.content_model(q) == fs0.content_model(q),
            track ==> data@ == c,
        decreases usize::MAX - data@.len(),
    {
        let ghost a = vfs.root_fs->0;
        let ghost d = read_part(c, data@.len() as int, 512);
        proof {
            if track {
                assert(fs0.content_model(k) is Some);
                assert(a.content_model(k) == fs0.content_model(k));
                assert(a.content_model(k) == Some(c));
                assert(d.len() <= c.len() - data@.len());
            }
        }
        match vfs.read(fd, buf.as_mut_slice()) {
            Ok(n) => {
                if n == 0 {
                    proof {
                        if track {
                            assert(a.content_model(k) == Some(c));
                            assert(d.len() == 0);
                            assert(data@ =~= c);
                        }
                    }
                    break;
                }
                if n > buf.len() || n > usize::MAX - data.len() {
                    proof {
                        if track && c.len() <= usize::MAX {
                            assert(n == d.len());
                            assert(false);
                        }
                    }
                    let _ = vfs.close(fd);
                    return Err(VfsError::IoError);
                }
                let mut i: usize = 0;
                let ghost start = data@.len();
                let ghost d0 = data@;
                while i < n
                    invariant
                        i <= n <= buf@.len(),
                        start + n <= usize::MAX,
                        data@.len() == start + i,
                        data@ == d0 + buf@.subrange(0, i as int),
                        d0.len() == start,
                    decreases n - i,
                {
                    data.push(buf[i]);
                    proof {
                        assert(data@ =~= d0 + buf@.subrange(0, i as int + 1));
                    }
                    i = i + 1;
                }
                proof {
                    if track {
                        assert(a.content_model(k) == Some(c));
                        assert(n == d.len());
                        assert(buf@.subrange(0, n as int) =~= d);
                        assert(d =~= c.subrange(start as int, start + n));
                        assert(data@ =~= c.subrange(0, data@.len() as int));
                    }
                }
            },
            Err(e) => {
                proof {
                    if track {
                        assert(false);
                    }
                }
                let _ = vfs.close(fd);
                return Err(e);
            },
        }
    }
    let _ = vfs.close(fd);
    Ok(data)
}

/// What the foreground loop saw when it tried to run the program.
pub enum ForegroundEvent {
    /// The program finished.
    Exited(ProcessExit),
    /// No scheduler ran it; the flags say what state it is in.
    SchedulerUnavailable { runnable: bool, blocked: bool, stdin_waiting: bool },
    /// Entering the program failed otherwise.
    Failed,
}

/// What the foreground loop does next.
#[derive(Debug, Clone, Copy, PartialEq, Eq, Structural)]
pub enum ForegroundAction {
    Finish(ProcessExit),
    WaitForInterrupt,
    CollectStdin,
    Retry,
    Fail,
}

/// One turn of the foreground loop: a finished program ends it; a blocked
/// one waits for an interrupt; a runnable one waiting on the terminal gets
/// input collected; any other runnable one is entered again; everything
/// else is a launch failure.
pub fn foreground_step(ev: ForegroundEvent) -> (r: ForegroundAction)
    ensures
        ev matches ForegroundEvent::Exited(x) ==> r == ForegroundAction::Finish(x),
        ev matches ForegroundEvent::Failed ==> r == ForegroundAction::Fail,
        ev matches ForegroundEvent::SchedulerUnavailable { runnable, blocked, stdin_waiting } ==> r == (
            if !runnable && !blocked { ForegroundAction::Fail }
            else if blocked { ForegroundAction::WaitForInterrupt }
            else if stdin_waiting { ForegroundAction::CollectStdin }
            else { ForegroundAction::Retry }),
{
    match ev {
        ForegroundEvent::Exited(x) => ForegroundAction::Finish(x),
        ForegroundEvent::Failed => ForegroundAction::Fail,
        ForegroundEvent::SchedulerUnavailable { runnable, blocked, stdin_waiting } => {
            if !runnable && !blocked {
                ForegroundAction::Fail
            } else if blocked {
                ForegroundAction::WaitForInterrupt
            } else if stdin_waiting {
                ForegroundAction::CollectStdin
            } else {
                ForegroundAction::Retry
            }
        },
    }
}

/// What follows a request for input: provided input lets the program run
/// on; otherwise the run ends with the matching error.
pub fn stdin_step(r: ExecInputResult) -> (e: Option<ExecRunError>)
    ensures
        r == ExecInputResult::Provided ==> e is None,
        r == ExecInputResult::Interrupted ==> e matches Some(ExecRunError::Interrupted),
        r == ExecInputResult::Unsupported ==> e matches Some(ExecRunError::StdinUnsupported),
{
    match r {
        ExecInputResult::Provided => None,
        ExecInputResult::Interrupted => Some(ExecRunError::Interrupted),
        ExecInputResult::Unsupported => Some(ExecRunError::StdinUnsupported),
    }
}

} // verus!
