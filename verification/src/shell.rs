//! Text the terminal shell prints: decimal and hexadecimal numbers, error
//! messages, and hex dumps, appended to an output buffer.
use vstd::prelude::*;
use vstd::string::StringSliceAdditionalSpecFns;
use vstd::arithmetic::div_mod::lemma_div_denominator;
use crate::fs::memfs::entry_matches;
use crate::fs::vfs::{VfsError, DirEntry, FileStat, FileSystem, FileType, HandleModel, listed, cut_name, OpenFlags, VirtualFileSystem, entry_text, normalized_path, relative_path, read_part, lemma_read_flags, OPEN_WRITE, OPEN_APPEND};
use vstd::string::{StrSliceExecFns, StringExecFns};
use crate::text::{trim, trim_start, trim_end, starts, find_pair_from, find_gt_from, str_eq, starts_with_str,
    skip_chars, take_chars, trim_str, trim_start_str, trim_end_str, find_pair, find_gt};

verus! {

/// The ASCII digit of `d < 10`.
pub open spec fn digit(d: int) -> u8 {
    (48 + d) as u8
}

/// The decimal digits of `v`, without leading zeros ("0" for zero).
pub open spec fn decimal(v: nat) -> Seq<u8>
    decreases v,
{
    if v < 10 { seq![digit(v as int)] } else { decimal(v / 10) + seq![digit((v % 10) as int)] }
}

/// Appends the decimal digits of `value`.
pub fn write_u64(out: &mut Vec<u8>, value: u64)
    ensures
        final(out)@ == old(out)@ + decimal(value as nat),
    decreases value,
{
    if value >= 10 {
        write_u64(out, value / 10);
    }
    out.push(48u8 + (value % 10) as u8);
    assert(out@ =~= old(out)@ + decimal(value as nat));
}

/// Appends the decimal digits of `value`.
pub fn write_u32(out: &mut Vec<u8>, value: u32)
    ensures
        final(out)@ == old(out)@ + decimal(value as nat),
{
    write_u64(out, value as u64);
}

/// Appends the decimal digits of `value`.
pub fn write_usize(out: &mut Vec<u8>, value: usize)
    ensures
        final(out)@ == old(out)@ + decimal(value as nat),
{
    write_u64(out, value as u64);
}

/// The text of a signed value: a minus sign before the magnitude.
pub open spec fn signed_decimal(v: int) -> Seq<u8> {
    if v < 0 { seq![45u8] + decimal((-v) as nat) } else { decimal(v as nat) }
}

/// Appends the decimal text of `value`.
pub fn write_i32(out: &mut Vec<u8>, value: i32)
    ensures
        final(out)@ == old(out)@ + signed_decimal(value as int),
{
    if value < 0 {
        out.push(45u8);
        let magnitude: u32 = if value == i32::MIN { 0x8000_0000 } else { (-value) as u32 };
        write_u32(out, magnitude);
        assert(out@ =~= old(out)@ + signed_decimal(value as int));
    } else {
        write_u32(out, value as u32);
    }
}

/// The lower-case hex digit of `n < 16`.
pub open spec fn hex_char(n: int) -> u8 {
    if n < 10 { (48 + n) as u8 } else { (97 + n - 10) as u8 }
}

pub open spec fn pow16(k: int) -> int
    decreases k,
{
    if k <= 0 { 1 } else { 16 * pow16(k - 1) }
}

/// The last `count` hex digits of `v`, most significant first.
pub open spec fn hex_fixed(v: u64, count: int) -> Seq<u8> {
    Seq::new(count as nat, |i: int| hex_char((v as int / pow16(count - 1 - i)) % 16))
}

proof fn lemma_pow16_pos(k: int)
    ensures
        pow16(k) > 0,
    decreases k,
{
    if k > 0 {
        lemma_pow16_pos(k - 1);
    }
}

/// Appends the last `min(digits, 16)` hex digits of `value`.
pub fn write_hex_digits(out: &mut Vec<u8>, value: u64, digits: usize)
    ensures
        final(out)@ == old(out)@ + hex_fixed(value, if digits < 16 { digits as int } else { 16 }),
{
    let count = if digits < 16 { digits } else { 16 };
    let mut buf = [0u8; 16];
    let mut v = value;
    let mut index = count;
    while index > 0
        invariant
            count <= 16,
            index <= count,
            v == value as int / pow16((count - index) as int),
            forall|k: int| index <= k < count ==> buf@[k] == hex_fixed(value, count as int)[k],
        decreases index,
    {
        proof {
            lemma_pow16_pos((count - index) as int);
            lemma_div_denominator(value as int, pow16((count - index) as int), 16);
            assert(pow16((count - index) as int + 1) == 16 * pow16((count - index) as int));
            assert(pow16((count - index) as int) * 16 == 16 * pow16((count - index) as int)) by (nonlinear_arith);
        }
        index = index - 1;
        let nibble = (v % 16) as u8;
        buf[index] = if nibble < 10 { 48u8 + nibble } else { 97u8 + nibble - 10 };
        v = v / 16;
    }
    let mut k: usize = 0;
    let ghost base = out@;
    while k < count
        invariant
            count <= 16,
            k <= count,
            forall|j: int| 0 <= j < count ==> buf@[j] == hex_fixed(value, count as int)[j],
            out@ == base + hex_fixed(value, count as int).subrange(0, k as int),
        decreases count - k,
    {
        out.push(buf[k]);
        assert(out@ =~= base + hex_fixed(value, count as int).subrange(0, k + 1));
        k = k + 1;
    }
    assert(hex_fixed(value, count as int).subrange(0, count as int) =~= hex_fixed(value, count as int));
}

/// Appends `0x` and the last `min(digits, 16)` hex digits of `value`.
pub fn write_hex_fixed(out: &mut Vec<u8>, value: u64, digits: usize)
    ensures
        final(out)@ == old(out)@ + seq![48u8, 120u8] + hex_fixed(value, if digits < 16 { digits as int } else { 16 }),
{
    out.push(48u8);
    out.push(120u8);
    let ghost mid = out@;
    write_hex_digits(out, value, digits);
    assert(out@ =~= old(out)@ + seq![48u8, 120u8] + hex_fixed(value, if digits < 16 { digits as int } else { 16 }));
}

/// The shell's message for a file-system error.
pub open spec fn vfs_error_text(e: VfsError) -> &'static str {
    match e {
        VfsError::NotFound => "file not found",
        VfsError::PermissionDenied => "permission denied",
        VfsError::InvalidDescriptor => "invalid descriptor",
        VfsError::AlreadyExists => "already exists",
        VfsError::NotADirectory => "not a directory",
        VfsError::IsADirectory => "is a directory",
        VfsError::InvalidPath => "invalid path",
        VfsError::Unsupported => "unsupported",
        VfsError::IoError => "I/O error",
    }
}

/// The shell's message for a file-system error.
pub fn vfs_error_str(error: VfsError) -> (r: &'static str)
    ensures
        r@ == vfs_error_text(error)@,
{
    match error {
        VfsError::NotFound => "file not found",
        VfsError::PermissionDenied => "permission denied",
        VfsError::InvalidDescriptor => "invalid descriptor",
        VfsError::AlreadyExists => "already exists",
        VfsError::NotADirectory => "not a directory",
        VfsError::IsADirectory => "is a directory",
        VfsError::InvalidPath => "invalid path",
        VfsError::Unsupported => "unsupported",
        VfsError::IoError => "I/O error",
    }
}

fn push_str(out: &mut Vec<u8>, s: &str)
    ensures
        final(out)@ == old(out)@ + s.spec_bytes(),
{
    crate::storage::gpt::push_all(out, s.as_bytes());
}

/// Appends `command: message` and a newline for a file-system error.
pub fn write_vfs_error(out: &mut Vec<u8>, command: &str, error: VfsError)
    ensures
        final(out)@ == old(out)@ + command.spec_bytes() + ": ".spec_bytes() + vfs_error_text(error).spec_bytes() + seq![10u8],
{
    push_str(out, command);
    push_str(out, ": ");
    push_str(out, vfs_error_str(error));
    out.push(10u8);
}

/// The value of a string of decimal digits, if it has one that fits.
pub open spec fn decimal_value(s: Seq<u8>) -> Option<int>
    decreases s.len(),
{
    if s.len() == 0 {
        Some(0)
    } else {
        match decimal_value(s.drop_last()) {
            Some(v) => if 48 <= s.last() <= 57 && v * 10 + (s.last() - 48) <= u64::MAX {
                Some(v * 10 + (s.last() - 48))
            } else {
                None
            },
            None => None,
        }
    }
}

/// Parses a non-empty string of ASCII digits that fits in a `u64`.
pub fn parse_u64(text: &str) -> (r: Option<u64>)
    ensures
        text.spec_bytes().len() == 0 ==> r is None,
        text.spec_bytes().len() > 0 ==> r == (match decimal_value(text.spec_bytes()) {
            Some(v) => Some(v as u64),
            None => None::<u64>,
        }),
{
    let b = text.as_bytes();
    if b.len() == 0 {
        return None;
    }
    let mut value: u64 = 0;
    let mut i: usize = 0;
    while i < b.len()
        invariant
            b@ == text.spec_bytes(),
            b@.len() > 0,
            i <= b@.len(),
            decimal_value(b@.subrange(0, i as int)) == Some(value as int),
        decreases b.len() - i,
    {
        let byte = b[i];
        proof {
            assert(b@.subrange(0, i + 1).drop_last() =~= b@.subrange(0, i as int));
        }
        if byte < 48 || byte > 57 {
            proof {
                lemma_decimal_none_extends(b@, i as int + 1);
            }
            return None;
        }
        if value > (u64::MAX - (byte - 48) as u64) / 10 {
            proof {
                assert(value * 10 + (byte - 48) > u64::MAX) by (nonlinear_arith)
                    requires
                        value > (u64::MAX - (byte - 48) as u64) / 10,
                        byte >= 48;
                lemma_decimal_none_extends(b@, i as int + 1);
            }
            return None;
        }
        assert(value * 10 + (byte - 48) <= u64::MAX) by (nonlinear_arith)
            requires
                value <= (u64::MAX - (byte - 48) as u64) / 10,
                byte >= 48,
                byte <= 57;
        value = value * 10 + (byte - 48) as u64;
        i = i + 1;
    }
    assert(b@.subrange(0, b@.len() as int) =~= b@);
    Some(value)
}

/// Once a prefix has no value, no longer prefix has one.
proof fn lemma_decimal_none_extends(s: Seq<u8>, k: int)
    requires
        0 < k <= s.len(),
        decimal_value(s.subrange(0, k)) is None,
    ensures
        decimal_value(s) is None,
    decreases s.len() - k,
{
    if k < s.len() {
        assert(s.subrange(0, k + 1).drop_last() =~= s.subrange(0, k));
        lemma_decimal_none_extends(s, k + 1);
    } else {
        assert(s.subrange(0, k) =~= s);
    }
}

/// How a dumped byte is shown: printable ASCII and space as is, others `.`.
pub open spec fn dump_char(b: u8) -> u8 {
    if 0x20 <= b <= 0x7E { b } else { 46u8 }
}

/// One line of a hex dump of `data` from `off`: offset, bytes, text.
pub open spec fn dump_line(data: Seq<u8>, off: int) -> Seq<u8> {
    let n = if data.len() - off < 16 { data.len() - off } else { 16 };
    hex_fixed(off as u64, 4) + seq![58u8, 32u8]
        + Seq::new((3 * n) as nat, |j: int| if j % 3 == 2 { 32u8 } else { hex_fixed(data[off + j / 3] as u64, 2)[j % 3] })
        + seq![32u8] + Seq::new(n as nat, |j: int| dump_char(data[off + j])) + seq![10u8]
}

/// The hex dump of `data` from line offset `off` on.
pub open spec fn dump_from(data: Seq<u8>, off: int) -> Seq<u8>
    decreases (if off < data.len() { data.len() - off } else { 0 }),
{
    if off >= data.len() || off < 0 { Seq::empty() } else { dump_line(data, off) + dump_from(data, off + 16) }
}

proof fn lemma_div3(i: int, r: int)
    requires
        0 <= i,
        0 <= r < 3,
    ensures
        (3 * i + r) / 3 == i,
        (3 * i + r) % 3 == r,
{
    assert((3 * i + r) / 3 == i && (3 * i + r) % 3 == r) by (nonlinear_arith)
        requires 0 <= i, 0 <= r < 3;
}

/// The hex-and-text middle of one dump line for `n` bytes from `off`.
pub open spec fn dump_hex(data: Seq<u8>, off: int, n: int) -> Seq<u8> {
    Seq::new((3 * n) as nat, |j: int| if j % 3 == 2 { 32u8 } else { hex_fixed(data[off + j / 3] as u64, 2)[j % 3] })
}

/// Appends one line of the dump of `data` from `off`.
fn dump_one_line(out: &mut Vec<u8>, data: &[u8], off: usize)
    requires
        off < data@.len(),
    ensures
        final(out)@ == old(out)@ + dump_line(data@, off as int),
{
    let len = data.len();
    let n: usize = if len - off < 16 { len - off } else { 16 };
    let mut line: Vec<u8> = Vec::new();
    write_hex_digits(&mut line, off as u64, 4);
    line.push(58u8);
    line.push(32u8);
    let ghost head = line@;
    let mut idx: usize = 0;
    proof {
        assert(dump_hex(data@, off as int, 0) =~= Seq::<u8>::empty());
        assert(line@ =~= head + dump_hex(data@, off as int, 0));
    }
    while idx < n
        invariant
            n <= 16,
            len == data@.len(),
            off + n <= data@.len(),
            idx <= n,
            line@ == head + dump_hex(data@, off as int, idx as int),
        decreases n - idx,
    {
        let ghost before = line@;
        let mut two: Vec<u8> = Vec::new();
        write_hex_digits(&mut two, data[off + idx] as u64, 2);
        line.push(two[0]);
        line.push(two[1]);
        line.push(32u8);
        proof {
            let h = hex_fixed(data@[off as int + idx as int] as u64, 2);
            assert(two@ =~= h);
            assert forall|j: int| 0 <= j < 3 * (idx as int + 1) implies
                #[trigger] dump_hex(data@, off as int, idx as int + 1)[j] == (dump_hex(data@, off as int, idx as int) + seq![h[0], h[1], 32u8])[j] by {
                if j < 3 * idx {
                    assert(dump_hex(data@, off as int, idx as int)[j] == dump_hex(data@, off as int, idx as int + 1)[j]);
                } else {
                    lemma_div3(idx as int, j - 3 * idx);
                    assert(j == 3 * idx + (j - 3 * idx));
                }
            }
            assert(dump_hex(data@, off as int, idx as int + 1) =~= dump_hex(data@, off as int, idx as int) + seq![h[0], h[1], 32u8]);
            assert(line@ =~= head + dump_hex(data@, off as int, idx as int + 1));
        }
        idx = idx + 1;
    }
    line.push(32u8);
    let ghost mid = line@;
    let mut k: usize = 0;
    while k < n
        invariant
            n <= 16,
            len == data@.len(),
            off + n <= data@.len(),
            k <= n,
            line@ == mid + Seq::new(k as nat, |j: int| dump_char(data@[off + j])),
        decreases n - k,
    {
        let b = data[off + k];
        if 0x20u8 <= b && b <= 0x7Eu8 {
            line.push(b);
        } else {
            line.push(46u8);
        }
        proof {
            assert(line@ =~= mid + Seq::new((k + 1) as nat, |j: int| dump_char(data@[off + j])));
        }
        k = k + 1;
    }
    line.push(10u8);
    proof {
        assert(line@ =~= dump_line(data@, off as int));
    }
    crate::storage::gpt::push_all(out, line.as_slice());
}

/// Appends the hex dump of `data`: sixteen bytes a line, each line the
/// offset, the bytes in hex and the bytes as text.
pub fn hex_dump(out: &mut Vec<u8>, data: &[u8])
    ensures
        final(out)@ == old(out)@ + dump_from(data@, 0),
{
    let mut off: usize = 0;
    proof {
        assert(old(out)@ + dump_from(data@, 0) =~= out@ + dump_from(data@, 0));
    }
    while off < data.len()
        invariant
            off <= data@.len() + 15,
            old(out)@ + dump_from(data@, 0) == out@ + dump_from(data@, off as int),
        decreases data@.len() + 16 - off,
    {
        let ghost before = out@;
        dump_one_line(out, data, off);
        proof {
            assert(dump_from(data@, off as int) == dump_line(data@, off as int) + dump_from(data@, off as int + 16));
            assert(before + dump_from(data@, off as int) =~= out@ + dump_from(data@, off as int + 16));
        }
        if data.len() - off <= 16 {
            proof {
                assert(dump_from(data@, off as int + 16) == Seq::<u8>::empty());
                assert(out@ + dump_from(data@, off as int + 16) =~= out@);
                assert(old(out)@ + dump_from(data@, 0) == out@);
            }
            return;
        }
        off = off + 16;
    }
    proof {
        assert(dump_from(data@, off as int) == Seq::<u8>::empty());
        assert(out@ + dump_from(data@, off as int) =~= out@);
    }
}

/// Which command a line asks for.
#[derive(Debug, Clone, Copy, PartialEq, Eq, Structural)]
pub enum CommandKind {
    Empty,
    Clear,
    Exit,
    Exec,
    Dufetch,
    Pwd,
    Ls,
    Cd,
    Mkdir,
    Touch,
    Cat,
    Rm,
    Tree,
    Echo,
    EchoTo,
    Help,
    Uname,
    UnameAll,
    Date,
    Whoami,
    Uptime,
    Free,
    Ps,
    PsAux,
    Lspci,
    Devs,
    Blk,
    Usb,
    Top,
    Poweroff,
    Blkread,
    NotFound,
}

/// A parsed command line: the command, its argument (a path, the program
/// line, or the echoed text), the file `echo` writes to, and whether it
/// appends.
pub struct ParsedCommand {
    pub kind: CommandKind,
    pub arg: String,
    pub target: String,
    pub append: bool,
}

/// A path argument, `dflt` when none is given.
pub open spec fn or_default(p: Seq<char>, dflt: Seq<char>) -> Seq<char> {
    if p.len() == 0 { dflt } else { p }
}

/// Whether `t` is the word `w` alone or `w` followed by a space.
pub open spec fn word_cmd(t: Seq<char>, w: Seq<char>, ws: Seq<char>) -> bool {
    t == w || starts(t, ws)
}

/// What `echo` does with `text`: write to the file after `>>` (appending)
/// or `>`, else print it.
pub open spec fn echo_spec(text: Seq<char>) -> (CommandKind, Seq<char>, Seq<char>, bool) {
    match find_pair_from(text, 0) {
        Some(i) => (CommandKind::EchoTo, trim_end(text.take(i)), trim(text.skip(i + 2)), true),
        None => match find_gt_from(text, 0) {
            Some(i) => (CommandKind::EchoTo, trim_end(text.take(i)), trim(text.skip(i + 1)), false),
            None => (CommandKind::Echo, text, Seq::empty(), false),
        },
    }
}

/// The command named by the trimmed line `t`, with its arguments.
pub open spec fn parse_spec(t: Seq<char>) -> (CommandKind, Seq<char>, Seq<char>, bool) {
    let none = Seq::<char>::empty();
    if t.len() == 0 { (CommandKind::Empty, none, none, false) }
    else if t == "clear"@ { (CommandKind::Clear, none, none, false) }
    else if t == "exit"@ { (CommandKind::Exit, none, none, false) }
    else if word_cmd(t, "exec"@, "exec "@) { (CommandKind::Exec, trim(t.skip("exec"@.len() as int)), none, false) }
    else if t == "dufetch"@ { (CommandKind::Dufetch, none, none, false) }
    else if t == "pwd"@ { (CommandKind::Pwd, none, none, false) }
    else if word_cmd(t, "ls"@, "ls "@) { (CommandKind::Ls, or_default(trim(t.skip("ls"@.len() as int)), "."@), none, false) }
    else if word_cmd(t, "cd"@, "cd "@) { (CommandKind::Cd, or_default(trim(t.skip("cd"@.len() as int)), "/"@), none, false) }
    else if starts(t, "mkdir "@) { (CommandKind::Mkdir, trim(t.skip("mkdir "@.len() as int)), none, false) }
    else if starts(t, "touch "@) { (CommandKind::Touch, trim(t.skip("touch "@.len() as int)), none, false) }
    else if starts(t, "cat "@) { (CommandKind::Cat, trim(t.skip("cat "@.len() as int)), none, false) }
    else if starts(t, "rm "@) { (CommandKind::Rm, trim(t.skip("rm "@.len() as int)), none, false) }
    else if word_cmd(t, "tree"@, "tree "@) { (CommandKind::Tree, or_default(trim(t.skip("tree"@.len() as int)), "."@), none, false) }
    else if word_cmd(t, "echo"@, "echo "@) { echo_spec(trim_start(t.skip("echo"@.len() as int))) }
    else if t == "help"@ { (CommandKind::Help, none, none, false) }
    else if t == "uname"@ { (CommandKind::Uname, none, none, false) }
    else if t == "uname -a"@ { (CommandKind::UnameAll, none, none, false) }
    else if t == "date"@ { (CommandKind::Date, none, none, false) }
    else if t == "whoami"@ { (CommandKind::Whoami, none, none, false) }
    else if t == "uptime"@ { (CommandKind::Uptime, none, none, false) }
    else if t == "free"@ { (CommandKind::Free, none, none, false) }
    else if t == "ps"@ { (CommandKind::Ps, none, none, false) }
    else if t == "ps aux"@ { (CommandKind::PsAux, none, none, false) }
    else if t == "lspci"@ { (CommandKind::Lspci, none, none, false) }
    else if t == "devs"@ { (CommandKind::Devs, none, none, false) }
    else if t == "blk"@ { (CommandKind::Blk, none, none, false) }
    else if t == "usb"@ { (CommandKind::Usb, none, none, false) }
    else if t == "top"@ { (CommandKind::Top, none, none, false) }
    else if t == "poweroff"@ || t == "shutdown"@ { (CommandKind::Poweroff, none, none, false) }
    else if t == "blkread"@ { (CommandKind::Blkread, none, none, false) }
    else if starts(t, "blkread "@) { (CommandKind::Blkread, t.skip("blkread "@.len() as int), none, false) }
    else { (CommandKind::NotFound, none, none, false) }
}

/// The parts of a parsed command as a tuple of views.
pub open spec fn parsed_view(c: ParsedCommand) -> (CommandKind, Seq<char>, Seq<char>, bool) {
    (c.kind, c.arg@, c.target@, c.append)
}

fn simple(kind: CommandKind) -> (r: ParsedCommand)
    ensures
        parsed_view(r) == (kind, Seq::<char>::empty(), Seq::<char>::empty(), false),
{
    let r = ParsedCommand { kind, arg: String::new(), target: String::new(), append: false };
    r
}

fn with_arg(kind: CommandKind, arg: &str) -> (r: ParsedCommand)
    ensures
        parsed_view(r) == (kind, arg@, Seq::<char>::empty(), false),
{
    ParsedCommand { kind, arg: String::from_str(arg), target: String::new(), append: false }
}

/// `p`, or `dflt` when it is empty.
fn arg_or<'a>(p: &'a str, dflt: &'a str) -> (r: &'a str)
    ensures
        r@ == or_default(p@, dflt@),
{
    if p.unicode_len() == 0 { dflt } else { p }
}

/// The trimmed rest of `t` after its first `k` characters.
fn rest_trimmed<'a>(t: &'a str, k: usize) -> (r: &'a str)
    requires
        k <= t@.len(),
    ensures
        r@ == trim(t@.skip(k as int)),
{
    trim_str(skip_chars(t, k))
}

fn parse_echo(text: &str) -> (r: ParsedCommand)
    ensures
        parsed_view(r) == echo_spec(text@),
{
    let _n = text.unicode_len();
    match find_pair(text) {
        Some(i) => {
            let value = trim_end_str(take_chars(text, i));
            let path = trim_str(skip_chars(text, i + 2));
            ParsedCommand { kind: CommandKind::EchoTo, arg: String::from_str(value), target: String::from_str(path), append: true }
        },
        None => match find_gt(text) {
            Some(i) => {
                let value = trim_end_str(take_chars(text, i));
                let path = trim_str(skip_chars(text, i + 1));
                ParsedCommand { kind: CommandKind::EchoTo, arg: String::from_str(value), target: String::from_str(path), append: false }
            },
            None => with_arg(CommandKind::Echo, text),
        },
    }
}

/// Whether `t` is `w` alone or `w` followed by a space.
fn is_word_cmd(t: &str, w: &str, ws: &str) -> (r: bool)
    ensures
        r == word_cmd(t@, w@, ws@),
{
    str_eq(t, w) || starts_with_str(t, ws)
}

/// Parses a command line: the line is trimmed, then matched against the
/// commands in a fixed order.
pub fn parse_command(line: &str) -> (r: ParsedCommand)
    ensures
        parsed_view(r) == parse_spec(trim(line@)),
{
    let t = trim_str(line);
    if t.unicode_len() == 0 {
        return simple(CommandKind::Empty);
    }
    if str_eq(t, "clear") { return simple(CommandKind::Clear); }
    if str_eq(t, "exit") { return simple(CommandKind::Exit); }
    if is_word_cmd(t, "exec", "exec ") {
        proof {
            reveal_strlit("exec");
            reveal_strlit("exec ");
        }
        return with_arg(CommandKind::Exec, rest_trimmed(t, "exec".unicode_len()));
    }
    if str_eq(t, "dufetch") { return simple(CommandKind::Dufetch); }
    if str_eq(t, "pwd") { return simple(CommandKind::Pwd); }
    if is_word_cmd(t, "ls", "ls ") {
        proof {
            reveal_strlit("ls");
            reveal_strlit("ls ");
        }
        return with_arg(CommandKind::Ls, arg_or(rest_trimmed(t, "ls".unicode_len()), "."));
    }
    if is_word_cmd(t, "cd", "cd ") {
        proof {
            reveal_strlit("cd");
            reveal_strlit("cd ");
        }
        return with_arg(CommandKind::Cd, arg_or(rest_trimmed(t, "cd".unicode_len()), "/"));
    }
    if starts_with_str(t, "mkdir ") { return with_arg(CommandKind::Mkdir, rest_trimmed(t, "mkdir ".unicode_len())); }
    if starts_with_str(t, "touch ") { return with_arg(CommandKind::Touch, rest_trimmed(t, "touch ".unicode_len())); }
    if starts_with_str(t, "cat ") { return with_arg(CommandKind::Cat, rest_trimmed(t, "cat ".unicode_len())); }
    if starts_with_str(t, "rm ") { return with_arg(CommandKind::Rm, rest_trimmed(t, "rm ".unicode_len())); }
    if is_word_cmd(t, "tree", "tree ") {
        proof {
            reveal_strlit("tree");
            reveal_strlit("tree ");
        }
        return with_arg(CommandKind::Tree, arg_or(rest_trimmed(t, "tree".unicode_len()), "."));
    }
    if is_word_cmd(t, "echo", "echo ") {
        proof {
            reveal_strlit("echo");
            reveal_strlit("echo ");
        }
        return parse_echo(trim_start_str(skip_chars(t, "echo".unicode_len())));
    }
    if str_eq(t, "help") { return simple(CommandKind::Help); }
    if str_eq(t, "uname") { return simple(CommandKind::Uname); }
    if str_eq(t, "uname -a") { return simple(CommandKind::UnameAll); }
    if str_eq(t, "date") { return simple(CommandKind::Date); }
    if str_eq(t, "whoami") { return simple(CommandKind::Whoami); }
    if str_eq(t, "uptime") { return simple(CommandKind::Uptime); }
    if str_eq(t, "free") { return simple(CommandKind::Free); }
    if str_eq(t, "ps") { return simple(CommandKind::Ps); }
    if str_eq(t, "ps aux") { return simple(CommandKind::PsAux); }
    if str_eq(t, "lspci") { return simple(CommandKind::Lspci); }
    if str_eq(t, "devs") { return simple(CommandKind::Devs); }
    if str_eq(t, "blk") { return simple(CommandKind::Blk); }
    if str_eq(t, "usb") { return simple(CommandKind::Usb); }
    if str_eq(t, "top") { return simple(CommandKind::Top); }
    if str_eq(t, "poweroff") || str_eq(t, "shutdown") { return simple(CommandKind::Poweroff); }
    if str_eq(t, "blkread") { return simple(CommandKind::Blkread); }
    if starts_with_str(t, "blkread ") {
        return with_arg(CommandKind::Blkread, skip_chars(t, "blkread ".unicode_len()));
    }
    simple(CommandKind::NotFound)
}

/// What the terminal does after a command line.
pub enum ShellOutcome {
    Handled,
    Clear,
    Exit,
    Exec(String),
    NotFound,
    /// A command answered from the machine's own state (devices, memory,
    /// processes), with its argument; the caller prints the answer.
    Report(CommandKind, String),
}

/// The commands answered from the machine's own state.
pub open spec fn is_report(k: CommandKind) -> bool {
    ||| k == CommandKind::Dufetch
    ||| k == CommandKind::Free
    ||| k == CommandKind::Ps
    ||| k == CommandKind::PsAux
    ||| k == CommandKind::Lspci
    ||| k == CommandKind::Devs
    ||| k == CommandKind::Blk
    ||| k == CommandKind::Usb
    ||| k == CommandKind::Blkread
}

pub const HELP_TEXT: &'static str = "Available commands:\n  help       - Show this help\n  dufetch    - Show Dunit OS system summary\n  ls         - List files\n  pwd        - Print working directory\n  cd         - Change directory\n  mkdir      - Create directory\n  touch      - Create file\n  cat        - Display file contents\n  echo       - Print text (supports > and >>)\n  rm         - Remove file\n  tree       - Show directory tree\n  clear      - Clear the screen\n  exec       - Execute a program (GUI apps open a window)\n  devs       - Show registered devices\n  blk        - Show block devices\n  blkread    - Read a block device sector\n  lspci      - Show PCI devices\n  usb        - Show USB/xHCI driver status\n  ps         - Show process table records\n  ps aux     - Show detailed process table records\n  uname      - System name (uname -a for details)\n  date       - RTC status\n  whoami     - Current user\n  uptime     - Uptime status\n  free       - Memory status\n  top        - Scheduler status\n  exit       - Exit the terminal\n  poweroff   - Shutdown status\n";

/// The fixed reply of a command that only prints text.
pub open spec fn static_text(k: CommandKind) -> Option<Seq<char>> {
    match k {
        CommandKind::Help => Some(HELP_TEXT@),
        CommandKind::Uname => Some("Dunit OS\n"@),
        CommandKind::UnameAll => Some("Dunit OS 1.0.0 Green Tea x86_64 kernel=monolithic-rust-hal\n"@),
        CommandKind::Date => Some("date: RTC unavailable\n"@),
        CommandKind::Whoami => Some("root (kernel terminal)\n"@),
        CommandKind::Uptime => Some("uptime unavailable: timer tick source is not active in terminal mode\n"@),
        CommandKind::Top => Some("top unavailable: scheduler not active\n"@),
        CommandKind::Poweroff => Some("shutdown not implemented: ACPI/QEMU shutdown device unavailable\n"@),
        _ => None,
    }
}

fn write_static(out: &mut Vec<u8>, k: CommandKind)
    requires
        static_text(k) is Some,
    ensures
        final(out)@ == old(out)@ + vstd::utf8::encode_utf8(static_text(k)->0),
{
    match k {
        CommandKind::Help => push_str(out, HELP_TEXT),
        CommandKind::Uname => push_str(out, "Dunit OS\n"),
        CommandKind::UnameAll => push_str(out, "Dunit OS 1.0.0 Green Tea x86_64 kernel=monolithic-rust-hal\n"),
        CommandKind::Date => push_str(out, "date: RTC unavailable\n"),
        CommandKind::Whoami => push_str(out, "root (kernel terminal)\n"),
        CommandKind::Uptime => push_str(out, "uptime unavailable: timer tick source is not active in terminal mode\n"),
        CommandKind::Top => push_str(out, "top unavailable: scheduler not active\n"),
        _ => push_str(out, "shutdown not implemented: ACPI/QEMU shutdown device unavailable\n"),
    }
}

/// The names of `es` separated by two spaces.
pub open spec fn joined_names(es: Seq<DirEntry>) -> Seq<u8>
    decreases es.len(),
{
    if es.len() == 0 {
        Seq::empty()
    } else if es.len() == 1 {
        entry_text(es[0])
    } else {
        joined_names(es.drop_last()) + seq![32u8, 32u8] + entry_text(es.last())
    }
}

/// Appends the names of the first `count` entries (at most all of them) on
/// one line.
pub fn write_listing(out: &mut Vec<u8>, entries: &[DirEntry], count: usize)
    ensures
        final(out)@ == old(out)@ + joined_names(entries@.take(if count < entries@.len() { count as int } else { entries@.len() as int })) + seq![10u8],
{
    let n = if count < entries.len() { count } else { entries.len() };
    let mut i: usize = 0;
    proof {
        assert(entries@.take(0) =~= Seq::<DirEntry>::empty());
        assert(out@ =~= old(out)@ + joined_names(entries@.take(0)));
    }
    while i < n
        invariant
            n <= entries@.len(),
            i <= n,
            out@ == old(out)@ + joined_names(entries@.take(i as int)),
        decreases n - i,
    {
        let ghost before = out@;
        if i > 0 {
            out.push(32u8);
            out.push(32u8);
        }
        let name = entries[i].name();
        crate::storage::gpt::push_all(out, name.as_slice());
        proof {
            let t = entries@.take(i as int + 1);
            assert(t.drop_last() =~= entries@.take(i as int));
            assert(t.last() == entries@[i as int]);
            if i > 0 {
                assert(out@ =~= old(out)@ + joined_names(t));
            } else {
                assert(out@ =~= old(out)@ + joined_names(t));
            }
        }
        i = i + 1;
    }
    out.push(10u8);
}

/// The line printed for a file-system error of `command`.
pub open spec fn err_line(command: Seq<u8>, e: VfsError) -> Seq<u8> {
    command + ": ".spec_bytes() + vfs_error_text(e).spec_bytes() + seq![10u8]
}

/// Whether `out` is `old` with `tail` appended, for some `tail`.
pub open spec fn extends(out: Seq<u8>, old: Seq<u8>) -> bool {
    old.len() <= out.len() && out.subrange(0, old.len() as int) == old
}

proof fn lemma_extends_append(a: Seq<u8>, o: Seq<u8>, t: Seq<u8>)
    requires
        extends(a, o),
    ensures
        extends(a + t, o),
{
    assert((a + t).subrange(0, o.len() as int) =~= a.subrange(0, o.len() as int));
}

proof fn lemma_extends_trans(a: Seq<u8>, b: Seq<u8>, c: Seq<u8>)
    requires
        extends(a, b),
        extends(b, c),
    ensures
        extends(a, c),
{
    assert(a.subrange(0, c.len() as int) =~= b.subrange(0, c.len() as int));
}

proof fn lemma_extends_refl(a: Seq<u8>)
    ensures
        extends(a, a),
{
    assert(a.subrange(0, a.len() as int) =~= a);
}

/// A fresh table of 32 empty directory entries.
fn entry_buffer() -> (r: Vec<DirEntry>)
    ensures
        r@.len() == 32,
{
    let mut v: Vec<DirEntry> = Vec::new();
    let mut i: usize = 0;
    while i < 32
        invariant
            i <= 32,
            v@.len() == i,
        decreases 32 - i,
    {
        v.push(DirEntry::empty());
        i = i + 1;
    }
    v
}

/// How `ls` shows a listed name: as text when it is UTF-8.
pub open spec fn name_text(n: Seq<u8>) -> Seq<u8> {
    if vstd::utf8::valid_utf8(n) { n } else { "<invalid>".spec_bytes() }
}

/// The names of listing `l` (each cut to 64 bytes) separated by two spaces.
pub open spec fn listing_text(l: Seq<(Seq<u8>, FileType)>) -> Seq<u8>
    decreases l.len(),
{
    if l.len() == 0 {
        Seq::empty()
    } else if l.len() == 1 {
        name_text(cut_name(l[0].0))
    } else {
        listing_text(l.drop_last()) + seq![32u8, 32u8] + name_text(cut_name(l.last().0))
    }
}

proof fn lemma_listing_text(es: Seq<DirEntry>, l: Seq<(Seq<u8>, FileType)>, n: int)
    requires
        0 <= n <= es.len(),
        n <= l.len(),
        listed(es, l, n),
    ensures
        joined_names(es.take(n)) == listing_text(l.take(n)),
    decreases n,
{
    if n > 0 {
        assert forall|j: int| 0 <= j < n - 1 implies entry_matches(#[trigger] es[j], l[j]) by {
            assert(entry_matches(es[j], l[j]));
        }
        lemma_listing_text(es, l, n - 1);
        assert(es.take(n).drop_last() =~= es.take(n - 1));
        assert(l.take(n).drop_last() =~= l.take(n - 1));
        assert(entry_matches(es[n - 1], l[n - 1]));
        if n == 1 {
            assert(es.take(n - 1).len() == 0);
        }
    }
}

/// `ls`: the names under `path`, or the error.
fn cmd_ls<F: FileSystem>(out: &mut Vec<u8>, vfs: &mut VirtualFileSystem<F>, cwd: &str, path: &str)
    requires
        old(vfs).wf(),
    ensures
        final(vfs).wf(),
        final(vfs).open_files == old(vfs).open_files,
        final(vfs).next_fd == old(vfs).next_fd,
        normalized_path(path.spec_bytes(), cwd.spec_bytes()) is None ==>
            final(out)@ == old(out)@ + err_line("ls".spec_bytes(), VfsError::InvalidPath),
        normalized_path(path.spec_bytes(), cwd.spec_bytes()) is Some && old(vfs).root_fs is None ==>
            final(out)@ == old(out)@ + err_line("ls".spec_bytes(), VfsError::NotFound),
        (exists|es: Seq<DirEntry>| es.len() <= 32 && #[trigger] joined_names(es) + seq![10u8] == final(out)@.subrange(old(out)@.len() as int, final(out)@.len() as int))
            || (exists|e: VfsError| final(out)@ == old(out)@ + #[trigger] err_line("ls".spec_bytes(), e)),
        extends(final(out)@, old(out)@),
        normalized_path(path.spec_bytes(), cwd.spec_bytes()) is Some && old(vfs).root_fs is Some ==> ({
            let l = old(vfs).root_fs->0.listing_model(relative_path(path.spec_bytes(), cwd.spec_bytes()));
            &&& l is None ==> exists|e: VfsError| final(out)@ == old(out)@ + #[trigger] err_line("ls".spec_bytes(), e)
            &&& l matches Some(l) ==> final(out)@ == old(out)@ + ls_output(l)
        }),
{
    let mut entries = entry_buffer();
    match vfs.readdir_into_at(cwd, path, entries.as_mut_slice()) {
        Ok(count) => {
            let ghost o = out@;
            write_listing(out, entries.as_slice(), count);
            proof {
                let es = entries@.take(if count < entries@.len() { count as int } else { entries@.len() as int });
                assert(out@.subrange(o.len() as int, out@.len() as int) =~= joined_names(es) + seq![10u8]);
                assert(out@.subrange(0, o.len() as int) =~= o);
                let rel = relative_path(path.spec_bytes(), cwd.spec_bytes());
                if normalized_path(path.spec_bytes(), cwd.spec_bytes()) is Some && old(vfs).root_fs is Some {
                    let lm = old(vfs).root_fs->0.listing_model(rel);
                    if lm is Some {
                        let l = lm->Some_0;
                        let n = if l.len() < 32 { l.len() as int } else { 32 };
                        assert(count == n);
                        lemma_listing_text(entries@, l, n);
                    }
                }
            }
        },
        Err(e) => {
            write_vfs_error(out, "ls", e);
            proof {
                assert(out@ =~= old(out)@ + err_line("ls".spec_bytes(), e));
                assert(out@.subrange(0, old(out)@.len() as int) =~= old(out)@);
            }
        },
    }
}

/// What `cd path` does from `cwd0` with output `out0`, given what `stat`
/// answers in `v`: a directory becomes the working directory; anything
/// else is reported and the working directory stays.
pub open spec fn cd_done<F: FileSystem>(v: &VirtualFileSystem<F>, path: Seq<u8>, cwd0: Seq<char>, out0: Seq<u8>, out1: Seq<u8>, cwd1: Seq<char>) -> bool {
    let st = v.stat_model_at(path, vstd::utf8::encode_utf8(cwd0));
    let p = normalized_path(path, vstd::utf8::encode_utf8(cwd0))->0;
    &&& (st matches Ok(f) && f.file_type == FileType::Directory && vstd::utf8::valid_utf8(p)) ==>
        out1 == out0 && cwd1 == vstd::utf8::decode_utf8(p)
    &&& (st matches Ok(f) && f.file_type == FileType::Directory && !vstd::utf8::valid_utf8(p)) ==>
        out1 == out0 + err_line("cd".spec_bytes(), VfsError::IoError) && cwd1 == cwd0
    &&& (st matches Ok(f) && f.file_type != FileType::Directory) ==>
        out1 == out0 + "cd: not a directory\n".spec_bytes() && cwd1 == cwd0
    &&& (st matches Err(e) ==> out1 == out0 + err_line("cd".spec_bytes(), e) && cwd1 == cwd0)
}

/// What `touch path` does, given what `stat` answers in `v0`: an existing
/// file is left alone, another node is reported, a missing one is created
/// (or the refusal reported).
pub open spec fn touch_done<F: FileSystem>(v0: &VirtualFileSystem<F>, v1: &VirtualFileSystem<F>, path: Seq<u8>, cwd: Seq<u8>, out0: Seq<u8>, out1: Seq<u8>) -> bool {
    let st = v0.stat_model_at(path, cwd);
    &&& (st matches Ok(f) && f.file_type == FileType::File) ==> out1 == out0 && v1.same_stats(v0)
    &&& (st matches Ok(f) && f.file_type != FileType::File) ==>
        out1 == out0 + "touch: not a file\n".spec_bytes() && v1.same_stats(v0)
    &&& st == Err::<FileStat, VfsError>(VfsError::NotFound) ==>
        (out1 == out0 && v1.stat_model_at(path, cwd) == Ok::<FileStat, VfsError>(FileStat { file_type: FileType::File, size: 0 }))
        || (exists|e: VfsError| out1 == out0 + #[trigger] err_line("touch".spec_bytes(), e) && v1.same_stats(v0))
    &&& (st matches Err(e) ==> (e != VfsError::NotFound ==> out1 == out0 + err_line("touch".spec_bytes(), e) && v1.same_stats(v0)))
}

/// Whether a file-system command of `line` reaches the file system.
pub open spec fn fs_active(line: Seq<char>, ready: bool) -> bool {
    is_fs_command(cmd_kind(line)) && !(needs_operand(cmd_kind(line)) && cmd_arg(line).len() == 0) && ready
}

/// `cd`: moves to `path` when it names a directory.
fn cmd_cd<F: FileSystem>(out: &mut Vec<u8>, vfs: &mut VirtualFileSystem<F>, cwd: &mut String, path: &str)
    requires
        old(vfs).wf(),
    ensures
        final(vfs).wf(),
        final(vfs).open_files == old(vfs).open_files,
        final(vfs).next_fd == old(vfs).next_fd,
        normalized_path(path.spec_bytes(), vstd::utf8::encode_utf8(old(cwd)@)) is None ==>
            final(out)@ == old(out)@ + err_line("cd".spec_bytes(), VfsError::InvalidPath) && final(cwd)@ == old(cwd)@,
        normalized_path(path.spec_bytes(), vstd::utf8::encode_utf8(old(cwd)@)) is Some && old(vfs).root_fs is None ==>
            final(out)@ == old(out)@ + err_line("cd".spec_bytes(), VfsError::NotFound) && final(cwd)@ == old(cwd)@,
        (final(out)@ == old(out)@
            && (normalized_path(path.spec_bytes(), vstd::utf8::encode_utf8(old(cwd)@)) matches Some(p)
                && vstd::utf8::valid_utf8(p) && final(cwd)@ == vstd::utf8::decode_utf8(p)))
        || (final(cwd)@ == old(cwd)@ && (final(out)@ == old(out)@ + "cd: not a directory\n".spec_bytes()
            || exists|e: VfsError| final(out)@ == old(out)@ + #[trigger] err_line("cd".spec_bytes(), e))),
        final(vfs).same_stats(&*old(vfs)),
        cd_done(&*old(vfs), path.spec_bytes(), old(cwd)@, old(out)@, final(out)@, final(cwd)@),
{
    let st = vfs.stat_at(cwd.as_str(), path);
    match st {
        Ok(stat) => {
            if stat.file_type == FileType::Directory {
                match vfs.normalize_at(cwd.as_str(), path) {
                    Ok(v) => {
                        match crate::text::str_from_utf8(v.as_slice()) {
                            Some(t) => {
                                *cwd = String::from_str(t);
                            },
                            None => {
                                write_vfs_error(out, "cd", VfsError::IoError);
                                proof {
                                    assert(out@ =~= old(out)@ + err_line("cd".spec_bytes(), VfsError::IoError));
                                }
                            },
                        }
                    },
                    Err(e) => {
                        write_vfs_error(out, "cd", e);
                        proof {
                            assert(out@ =~= old(out)@ + err_line("cd".spec_bytes(), e));
                        }
                    },
                }
            } else {
                push_str(out, "cd: not a directory\n");
            }
        },
        Err(e) => {
            write_vfs_error(out, "cd", e);
            proof {
                assert(out@ =~= old(out)@ + err_line("cd".spec_bytes(), e));
            }
        },
    }
}

/// `touch`: creates `path` unless a file is there already.
fn cmd_touch<F: FileSystem>(out: &mut Vec<u8>, vfs: &mut VirtualFileSystem<F>, cwd: &str, path: &str)
    requires
        old(vfs).wf(),
    ensures
        final(vfs).wf(),
        final(vfs).open_files == old(vfs).open_files,
        final(vfs).next_fd == old(vfs).next_fd,
        normalized_path(path.spec_bytes(), cwd.spec_bytes()) is None ==>
            final(out)@ == old(out)@ + err_line("touch".spec_bytes(), VfsError::InvalidPath),
        normalized_path(path.spec_bytes(), cwd.spec_bytes()) is Some && old(vfs).root_fs is None ==>
            final(out)@ == old(out)@ + err_line("touch".spec_bytes(), VfsError::NotFound),
        final(out)@ == old(out)@ || final(out)@ == old(out)@ + "touch: not a file\n".spec_bytes()
            || exists|e: VfsError| final(out)@ == old(out)@ + #[trigger] err_line("touch".spec_bytes(), e),
        touch_done(&*old(vfs), &*final(vfs), path.spec_bytes(), cwd.spec_bytes(), old(out)@, final(out)@),
{
    match vfs.stat_at(cwd, path) {
        Ok(stat) => {
            if stat.file_type != FileType::File {
                push_str(out, "touch: not a file\n");
            }
        },
        Err(VfsError::NotFound) => {
            match vfs.create_at(cwd, path) {
                Ok(()) => {},
                Err(e) => {
                    write_vfs_error(out, "touch", e);
                    proof {
                        assert(out@ =~= old(out)@ + err_line("touch".spec_bytes(), e));
                    }
                },
            }
        },
        Err(e) => {
            write_vfs_error(out, "touch", e);
            proof {
                assert(out@ =~= old(out)@ + err_line("touch".spec_bytes(), e));
            }
        },
    }
}

/// What `cat` prints for one chunk of a file: the chunk when it is
/// UTF-8 text, `<binary>` otherwise.
pub open spec fn cat_piece(d: Seq<u8>) -> Seq<u8> {
    if vstd::utf8::valid_utf8(d) { d } else { "<binary>".spec_bytes() }
}

/// What `cat` prints for the bytes `c`, 512 at a time (before its final
/// newline).
pub open spec fn cat_text(c: Seq<u8>) -> Seq<u8>
    decreases c.len(),
{
    if c.len() == 0 {
        Seq::empty()
    } else if c.len() < 512 {
        cat_piece(c)
    } else {
        cat_piece(c.subrange(0, 512)) + cat_text(c.subrange(512, c.len() as int))
    }
}

proof fn lemma_cat_text_step(c: Seq<u8>)
    requires
        c.len() > 0,
    ensures
        c.len() < 512 ==> cat_text(c) == cat_piece(c.subrange(0, c.len() as int)),
        c.len() >= 512 ==> cat_text(c) == cat_piece(c.subrange(0, 512)) + cat_text(c.subrange(512, c.len() as int)),
{
    assert(c.subrange(0, c.len() as int) =~= c);
}

/// `cat`: the file's text, 512 bytes at a time, then a newline; a chunk that
/// is not UTF-8 shows as `<binary>`.
fn cmd_cat<F: FileSystem>(out: &mut Vec<u8>, vfs: &mut VirtualFileSystem<F>, cwd: &str, path: &str)
    requires
        old(vfs).wf(),
        old(vfs).next_fd < u32::MAX,
    ensures
        final(vfs).wf(),
        final(vfs).files() == old(vfs).files(),
        normalized_path(path.spec_bytes(), cwd.spec_bytes()) is None ==>
            final(out)@ == old(out)@ + err_line("cat".spec_bytes(), VfsError::InvalidPath),
        normalized_path(path.spec_bytes(), cwd.spec_bytes()) is Some && old(vfs).root_fs is None ==>
            final(out)@ == old(out)@ + err_line("cat".spec_bytes(), VfsError::NotFound),
        extends(final(out)@, old(out)@),
        final(out)@.len() > old(out)@.len(),
        final(out)@.last() == 10u8,
        normalized_path(path.spec_bytes(), cwd.spec_bytes()) is Some && old(vfs).root_fs is Some ==> ({
            let fs0 = old(vfs).root_fs->0;
            let k = F::path_key(relative_path(path.spec_bytes(), cwd.spec_bytes()));
            &&& final(vfs).root_fs is Some
            &&& forall|q: Seq<u8>| fs0.content_model(q) is Some ==> #[trigger] final(vfs).root_fs->0.content_model(q) == fs0.content_model(q)
            &&& (fs0.content_model(k) is Some && fs0.handle_model(fs0.next_handle_model()) is None
                && fs0.content_model(k)->Some_0.len() <= usize::MAX) ==>
                final(out)@ == old(out)@ + cat_text(fs0.content_model(k)->Some_0) + seq![10u8]
        }),
{
    let ghost rel = relative_path(path.spec_bytes(), cwd.spec_bytes());
    let ghost k = F::path_key(rel);
    let ghost fs0 = vfs.root_fs->0;
    let ghost track = normalized_path(path.spec_bytes(), cwd.spec_bytes()) is Some && vfs.root_fs is Some
        && fs0.content_model(k) is Some && fs0.handle_model(fs0.next_handle_model()) is None
        && fs0.content_model(k)->Some_0.len() <= usize::MAX;
    let ghost c = fs0.content_model(k)->Some_0;
    proof {
        lemma_read_flags();
    }
    let fd = match vfs.open_at(cwd, path, OpenFlags::flag_read()) {
        Ok(fd) => fd,
        Err(e) => {
            write_vfs_error(out, "cat", e);
            proof {
                assert(out@ =~= old(out)@ + err_line("cat".spec_bytes(), e));
                assert(out@.subrange(0, old(out)@.len() as int) =~= old(out)@);
            }
            return;
        },
    };
    let ghost h = vfs.files()[fd];
    let ghost mut off: int = 0;
    let mut buf: Vec<u8> = vec![0u8; 512];
    let mut rounds: usize = 0;
    proof {
        assert(out@.subrange(0, old(out)@.len() as int) =~= old(out)@);
        assert(c.subrange(0, c.len() as int) =~= c);
    }
    loop
        invariant_except_break
            track ==> {
                &&& vfs.root_fs->0.handle_model(h) == Some(HandleModel { path: k, offset: off as usize, append: false, read: true, write: false })
                &&& 0 <= off <= c.len()
                &&& off == 512 * rounds
                &&& old(out)@ + cat_text(c) == out@ + cat_text(c.subrange(off, c.len() as int))
            },
        invariant
            vfs.wf(),
            vfs.files().contains_key(fd),
            vfs.files().remove(fd) == old(vfs).files(),
            vfs.files()[fd] == h,
            buf@.len() == 512,
            extends(out@, old(out)@),
            normalized_path(path.spec_bytes(), cwd.spec_bytes()) is Some,
            old(vfs).root_fs is Some,
            vfs.root_fs is Some,
            fs0 == old(vfs).root_fs->0,
            rel == relative_path(path.spec_bytes(), cwd.spec_bytes()),
            k == F::path_key(rel),
            track == (fs0.content_model(k) is Some && fs0.handle_model(fs0.next_handle_model()) is None
                && fs0.content_model(k)->Some_0.len() <= usize::MAX),
            c == fs0.content_model(k)->Some_0,
            forall|q: Seq<u8>| fs0.content_model(q) is Some ==> #[trigger] vfs.root_fs->0.content_model(q) == fs0.content_model(q),
        ensures
            vfs.wf(),
            vfs.files().contains_key(fd),
            vfs.files().remove(fd) == old(vfs).files(),
            extends(out@, old(out)@),
            vfs.root_fs is Some,
            forall|q: Seq<u8>| fs0.content_model(q) is Some ==> #[trigger] vfs.root_fs->0.content_model(q) == fs0.content_model(q),
            track ==> out@ == old(out)@ + cat_text(c),
        decreases usize::MAX - rounds,
    {
        if rounds == usize::MAX {
            proof {
                if track {
                    assert(512 * rounds > usize::MAX);
                }
            }
            break;
        }
        rounds = rounds + 1;
        let ghost a = vfs.root_fs->0;
        let ghost d = read_part(c, off, 512);
        proof {
            if track {
                assert(a.content_model(k) == Some(c));
            }
        }
        match vfs.read(fd, buf.as_mut_slice()) {
            Ok(n) => {
                if n == 0 {
                    proof {
                        if track {
                            assert(d.len() == 0);
                            assert(off == c.len());
                            assert(c.subrange(off, c.len() as int) =~= Seq::<u8>::empty());
                            assert(out@ =~= old(out)@ + cat_text(c));
                        }
                    }
                    break;
                }
                if n > buf.len() {
                    proof {
                        if track {
                            assert(false);
                        }
                    }
                    let ghost o = out@;
                    write_vfs_error(out, "cat", VfsError::IoError);
                    proof {
                        lemma_extends_append(o, old(out)@, err_line("cat".spec_bytes(), VfsError::IoError));
                        assert(out@ =~= o + err_line("cat".spec_bytes(), VfsError::IoError));
                    }
                    break;
                }
                let mut part: Vec<u8> = Vec::new();
                let mut i: usize = 0;
                while i < n
                    invariant
                        i <= n <= buf@.len(),
                        part@ == buf@.subrange(0, i as int),
                    decreases n - i,
                {
                    part.push(buf[i]);
                    proof {
                        assert(part@ =~= buf@.subrange(0, i as int + 1));
                    }
                    i = i + 1;
                }
                let ghost o = out@;
                match crate::text::str_from_utf8(part.as_slice()) {
                    Some(_) => {
                        crate::storage::gpt::push_all(out, part.as_slice());
                        proof {
                            lemma_extends_append(o, old(out)@, part@);
                        }
                    },
                    None => {
                        push_str(out, "<binary>");
                        proof {
                            lemma_extends_append(o, old(out)@, "<binary>".spec_bytes());
                        }
                    },
                }
                proof {
                    if track {
                        let rest = c.subrange(off, c.len() as int);
                        assert(n == d.len());
                        assert(part@ =~= d);
                        assert(d =~= rest.subrange(0, n as int));
                        assert(out@ == o + cat_piece(d));
                        lemma_cat_text_step(rest);
                        if n == 512 {
                            assert(rest.subrange(512, rest.len() as int) =~= c.subrange(off + 512, c.len() as int));
                        } else {
                            assert(n < 512);
                        }
                        off = off + n;
                    }
                }
                if n < buf.len() {
                    proof {
                        if track {
                            assert(out@ == old(out)@ + cat_text(c));
                        }
                    }
                    break;
                }
            },
            Err(e) => {
                proof {
                    if track {
                        assert(false);
                    }
                }
                let ghost o = out@;
                write_vfs_error(out, "cat", e);
                proof {
                    lemma_extends_append(o, old(out)@, err_line("cat".spec_bytes(), e));
                    assert(out@ =~= o + err_line("cat".spec_bytes(), e));
                }
                break;
            },
        }
    }
    let _ = vfs.close(fd);
    let ghost o = out@;
    out.push(10u8);
    proof {
        lemma_extends_append(o, old(out)@, seq![10u8]);
        assert(out@ =~= o + seq![10u8]);
    }
}

/// Whether `s` ends with a slash.
fn ends_with_slash(s: &str) -> (r: bool)
    ensures
        r == (s@.len() > 0 && s@.last() == '/'),
{
    let n = s.unicode_len();
    n > 0 && s.get_char(n - 1) == '/'
}

/// Prints the tree below `path`, two spaces of indent per level, at most
/// sixteen levels deep; directories are marked with a trailing slash.
fn tree_path<F: FileSystem>(out: &mut Vec<u8>, vfs: &mut VirtualFileSystem<F>, path: &str, depth: usize)
    requires
        old(vfs).wf(),
        depth <= 17,
    ensures
        final(vfs).wf(),
        final(vfs).open_files == old(vfs).open_files,
        final(vfs).next_fd == old(vfs).next_fd,
        depth > 16 ==> final(out)@ == old(out)@,
        depth <= 16 && normalized_path(path.spec_bytes(), "/".spec_bytes()) is None ==>
            final(out)@ == old(out)@ + err_line("tree".spec_bytes(), VfsError::InvalidPath),
        depth <= 16 && normalized_path(path.spec_bytes(), "/".spec_bytes()) is Some && old(vfs).root_fs is None ==>
            final(out)@ == old(out)@ + err_line("tree".spec_bytes(), VfsError::NotFound),
        extends(final(out)@, old(out)@),
    decreases 17 - depth,
{
    proof {
        lemma_extends_refl(out@);
    }
    if depth > 16 {
        return;
    }
    let mut entries = entry_buffer();
    match vfs.readdir_into_at("/", path, entries.as_mut_slice()) {
        Ok(count) => {
            let n = if count < entries.len() { count } else { entries.len() };
            let mut i: usize = 0;
            while i < n
                invariant
                    vfs.wf(),
                    vfs.open_files == old(vfs).open_files,
                    vfs.next_fd == old(vfs).next_fd,
                    n <= entries@.len(),
                    i <= n,
                    depth <= 16,
                    extends(out@, old(out)@),
                decreases n - i,
            {
                let entry = entries[i];
                let mut d: usize = 0;
                while d < depth
                    invariant
                        d <= depth,
                        extends(out@, old(out)@),
                    decreases depth - d,
                {
                    let ghost o = out@;
                    push_str(out, "  ");
                    proof {
                        lemma_extends_append(o, old(out)@, "  ".spec_bytes());
                    }
                    d = d + 1;
                }
                let name = entry.name();
                let ghost o1 = out@;
                crate::storage::gpt::push_all(out, name.as_slice());
                proof {
                    lemma_extends_append(o1, old(out)@, name@);
                }
                if entry.file_type == FileType::Directory {
                    let ghost o2 = out@;
                    push_str(out, "/");
                    proof {
                        lemma_extends_append(o2, old(out)@, "/".spec_bytes());
                    }
                }
                let ghost o3 = out@;
                out.push(10u8);
                proof {
                    lemma_extends_append(o3, old(out)@, seq![10u8]);
                    assert(out@ =~= o3 + seq![10u8]);
                }
                if entry.file_type == FileType::Directory {
                    match crate::text::str_from_utf8(name.as_slice()) {
                        Some(text) => {
                            let mut child = String::from_str(path);
                            if !ends_with_slash(path) {
                                child.append("/");
                            }
                            child.append(text);
                            let ghost o4 = out@;
                            tree_path(out, vfs, child.as_str(), depth + 1);
                            proof {
                                lemma_extends_trans(out@, o4, old(out)@);
                            }
                        },
                        None => {},
                    }
                }
                i = i + 1;
            }
        },
        Err(e) => {
            write_vfs_error(out, "tree", e);
            proof {
                assert(out@ =~= old(out)@ + err_line("tree".spec_bytes(), e));
                lemma_extends_append(old(out)@, old(out)@, err_line("tree".spec_bytes(), e));
            }
        },
    }
}

/// `tree`: the normalized root, then the tree below it.
fn cmd_tree<F: FileSystem>(out: &mut Vec<u8>, vfs: &mut VirtualFileSystem<F>, cwd: &str, path: &str)
    requires
        old(vfs).wf(),
    ensures
        final(vfs).wf(),
        final(vfs).open_files == old(vfs).open_files,
        final(vfs).next_fd == old(vfs).next_fd,
        normalized_path(path.spec_bytes(), cwd.spec_bytes()) is None ==>
            final(out)@ == old(out)@ + err_line("tree".spec_bytes(), VfsError::InvalidPath),
        normalized_path(path.spec_bytes(), cwd.spec_bytes()) matches Some(p) ==> {
            &&& vstd::utf8::valid_utf8(p) ==> extends(final(out)@, old(out)@ + p + seq![10u8])
            &&& !vstd::utf8::valid_utf8(p) ==> final(out)@ == old(out)@ + err_line("tree".spec_bytes(), VfsError::IoError)
        },
{
    match vfs.normalize_at(cwd, path) {
        Ok(root) => {
            match crate::text::str_from_utf8(root.as_slice()) {
                Some(text) => {
                    crate::storage::gpt::push_all(out, root.as_slice());
                    out.push(10u8);
                    let ghost o = out@;
                    proof {
                        assert(o =~= old(out)@ + root@ + seq![10u8]);
                    }
                    tree_path(out, vfs, text, 1);
                },
                None => {
                    write_vfs_error(out, "tree", VfsError::IoError);
                    proof {
                        assert(out@ =~= old(out)@ + err_line("tree".spec_bytes(), VfsError::IoError));
                    }
                },
            }
        },
        Err(e) => {
            write_vfs_error(out, "tree", e);
            proof {
                assert(out@ =~= old(out)@ + err_line("tree".spec_bytes(), e));
            }
        },
    }
}

/// What `echo text > file` (or `>> file` with `append`) leaves in a file
/// that held `old` (nothing when it was created): the text and a newline,
/// after the old bytes when appending.
pub open spec fn echo_content(old: Option<Seq<u8>>, text: Seq<u8>, append: bool) -> Seq<u8> {
    let line = text + seq![10u8];
    if append && old is Some { old->Some_0 + line } else { line }
}

/// Writing at the end of `c` appends.
proof fn lemma_write_at_end(c: Seq<u8>, data: Seq<u8>)
    ensures
        crate::fs::memfs::write_into(c, c.len() as int, data) == c + data,
        crate::fs::memfs::write_into(Seq::<u8>::empty(), 0, data) == data,
{
    assert(crate::fs::memfs::write_into(c, c.len() as int, data) =~= c + data);
    assert(crate::fs::memfs::write_into(Seq::<u8>::empty(), 0, data) =~= data);
}

/// What writing alone, or appending, asks for.
proof fn lemma_write_flags()
    ensures
        crate::fs::vfs::flags_valid(OPEN_WRITE),
        crate::fs::vfs::flags_valid(OPEN_WRITE | OPEN_APPEND),
        !crate::fs::vfs::flag_set(OPEN_WRITE, crate::fs::vfs::OPEN_TRUNC),
        !crate::fs::vfs::flag_set(OPEN_WRITE | OPEN_APPEND, crate::fs::vfs::OPEN_TRUNC),
        !crate::fs::vfs::flag_set(OPEN_WRITE, OPEN_APPEND),
        crate::fs::vfs::flag_set(OPEN_WRITE | OPEN_APPEND, OPEN_APPEND),
        crate::fs::vfs::flag_set(OPEN_WRITE, OPEN_WRITE),
        crate::fs::vfs::flag_set(OPEN_WRITE | OPEN_APPEND, OPEN_WRITE),
{
    assert(2u32 & !31u32 == 0 && (2u32 | 16u32) & !31u32 == 0 && 2u32 & 2u32 == 2u32 && (2u32 | 16u32) & 2u32 == 2u32
        && 2u32 & 8u32 != 8u32 && (2u32 | 16u32) & 8u32 != 8u32 && 2u32 & 16u32 != 16u32 && (2u32 | 16u32) & 16u32 == 16u32
        && 2u32 & 1u32 != 1u32 && (2u32 | 16u32) & 1u32 != 1u32) by (bit_vector);
}

/// `echo text > path` and `echo text >> path`: makes sure `path` is a file,
/// empties it unless appending, and writes `text` and a newline to it.
#[verifier::spinoff_prover]
#[verifier::rlimit(60)]
fn write_file<F: FileSystem>(out: &mut Vec<u8>, vfs: &mut VirtualFileSystem<F>, ready: bool, cwd: &str, path: &str, text: &str, append: bool)
    requires
        old(vfs).wf(),
        old(vfs).next_fd < u32::MAX,
    ensures
        final(vfs).wf(),
        final(vfs).files() == old(vfs).files(),
        path@.len() == 0 ==> final(out)@ == old(out)@ + "echo: missing output file\n".spec_bytes(),
        path@.len() != 0 && !ready ==> final(out)@ == old(out)@ + "echo: VFS not initialized\n".spec_bytes(),
        path@.len() != 0 && ready && normalized_path(path.spec_bytes(), cwd.spec_bytes()) is Some && old(vfs).root_fs is Some ==> ({
            let fs0 = old(vfs).root_fs->0;
            let rel = relative_path(path.spec_bytes(), cwd.spec_bytes());
            let k = F::path_key(rel);
            &&& final(vfs).root_fs is Some
            &&& (final(out)@ == old(out)@ && fs0.handle_model(fs0.next_handle_model()) is None
                && (fs0.content_model(k) is Some || fs0.stat_model(rel) == Err::<FileStat, VfsError>(VfsError::NotFound)))
                ==> final(vfs).root_fs->0.content_model(k) == Some(echo_content(fs0.content_model(k), text.spec_bytes(), append))
        }),
{
    if path.unicode_len() == 0 {
        push_str(out, "echo: missing output file\n");
        return;
    }
    if !ready {
        push_str(out, "echo: VFS not initialized\n");
        return;
    }
    let ghost fs0 = vfs.root_fs->0;
    let ghost rel = relative_path(path.spec_bytes(), cwd.spec_bytes());
    let ghost k = F::path_key(rel);
    let ghost live = normalized_path(path.spec_bytes(), cwd.spec_bytes()) is Some && vfs.root_fs is Some;
    let ghost fresh = fs0.handle_model(fs0.next_handle_model()) is None;
    proof {
        lemma_write_flags();
    }
    match vfs.stat_at(cwd, path) {
        Ok(stat) => {
            if stat.file_type == FileType::Directory {
                push_str(out, "echo: is a directory\n");
                proof {
                    reveal_strlit("echo: is a directory\n");
                    assert(out@.len() > old(out)@.len());
                }
                return;
            }
        },
        Err(VfsError::NotFound) => {
            match vfs.create_at(cwd, path) {
                Ok(()) => {},
                Err(e) => {
                    write_vfs_error(out, "echo", e);
                    return;
                },
            }
        },
        Err(e) => {
            write_vfs_error(out, "echo", e);
            return;
        },
    }
    let ghost s2 = vfs.root_fs->0;
    proof {
        if live && (fs0.content_model(k) is Some || fs0.stat_model(rel) == Err::<FileStat, VfsError>(VfsError::NotFound)) {
            assert(s2.content_model(k) is Some);
            assert(append ==> s2.content_model(k) == Some(if fs0.content_model(k) is Some { fs0.content_model(k)->Some_0 } else { Seq::<u8>::empty() }));
        }
    }
    if !append {
        match vfs.truncate_at(cwd, path) {
            Ok(()) => {},
            Err(e) => {
                write_vfs_error(out, "echo", e);
                return;
            },
        }
    }
    let ghost s3 = vfs.root_fs->0;
    let flags = if append { OpenFlags::from_bits(OPEN_WRITE | OPEN_APPEND) } else { OpenFlags::flag_write() };
    match vfs.open_at(cwd, path, flags) {
        Ok(fd) => {
            let ghost hh = vfs.files()[fd];
            let ghost s4 = vfs.root_fs->0;
            let mut data = vstd::slice::slice_to_vec(text.as_bytes());
            data.push(10u8);
            match vfs.write(fd, data.as_slice()) {
                Ok(_) => {
                    let ghost s5 = vfs.root_fs->0;
                    let _ = vfs.close(fd);
                    proof {
                        if live && fresh && (fs0.content_model(k) is Some || fs0.stat_model(rel) == Err::<FileStat, VfsError>(VfsError::NotFound)) {
                            let c = s3.content_model(k)->Some_0;
                            assert(s3.content_model(k) is Some);
                            assert(s3.handle_model(hh) is None);
                            assert(s4.content_model(k) == Some(c));
                            lemma_write_at_end(c, data@);
                            if append {
                                assert(c == (if fs0.content_model(k) is Some { fs0.content_model(k)->Some_0 } else { Seq::<u8>::empty() }));
                            } else {
                                assert(c == Seq::<u8>::empty());
                            }
                            assert(data@ == text.spec_bytes() + seq![10u8]);
                            assert(s5.content_model(k) == Some(echo_content(fs0.content_model(k), text.spec_bytes(), append)));
                        }
                    }
                },
                Err(e) => {
                    write_vfs_error(out, "echo", e);
                    let _ = vfs.close(fd);
                },
            }
        },
        Err(e) => write_vfs_error(out, "echo", e),
    }
}

/// The command a line asks for.
pub open spec fn cmd_kind(line: Seq<char>) -> CommandKind {
    parse_spec(trim(line)).0
}

/// The argument of the command a line asks for.
pub open spec fn cmd_arg(line: Seq<char>) -> Seq<char> {
    parse_spec(trim(line)).1
}

/// The file `echo` writes to, for a line that asks for that.
pub open spec fn cmd_target(line: Seq<char>) -> Seq<char> {
    parse_spec(trim(line)).2
}

/// Whether an `echo` line appends (`>>`).
pub open spec fn cmd_append(line: Seq<char>) -> bool {
    parse_spec(trim(line)).3
}

/// What `ls` prints for a directory listed as `l`: at most 32 names, then
/// a newline.
pub open spec fn ls_output(l: Seq<(Seq<u8>, FileType)>) -> Seq<u8> {
    listing_text(l.take(if l.len() < 32 { l.len() as int } else { 32 })) + seq![10u8]
}

/// The commands that work on files, and so need the file system.
pub open spec fn is_fs_command(k: CommandKind) -> bool {
    ||| k == CommandKind::Ls
    ||| k == CommandKind::Cd
    ||| k == CommandKind::Mkdir
    ||| k == CommandKind::Touch
    ||| k == CommandKind::Cat
    ||| k == CommandKind::Rm
    ||| k == CommandKind::Tree
}

/// The name a command goes by in its messages.
pub open spec fn command_name(k: CommandKind) -> Seq<char> {
    match k {
        CommandKind::Ls => "ls"@,
        CommandKind::Cd => "cd"@,
        CommandKind::Mkdir => "mkdir"@,
        CommandKind::Touch => "touch"@,
        CommandKind::Cat => "cat"@,
        CommandKind::Rm => "rm"@,
        _ => "tree"@,
    }
}

/// Whether a command needs an operand and says so when it has none.
pub open spec fn needs_operand(k: CommandKind) -> bool {
    k == CommandKind::Mkdir || k == CommandKind::Touch || k == CommandKind::Cat || k == CommandKind::Rm
}

fn fs_command_name(k: CommandKind) -> (r: &'static str)
    ensures
        r@ == command_name(k),
{
    match k {
        CommandKind::Ls => "ls",
        CommandKind::Cd => "cd",
        CommandKind::Mkdir => "mkdir",
        CommandKind::Touch => "touch",
        CommandKind::Cat => "cat",
        CommandKind::Rm => "rm",
        _ => "tree",
    }
}

/// Runs one command line. What it prints goes to `out`; `cd` changes `cwd`.
/// `ready` says whether the file system is up. Lines for commands that
/// report on the machine come back as `Report` for the caller to answer.
pub fn run_command<F: FileSystem>(out: &mut Vec<u8>, cwd: &mut String, line: &str, vfs: &mut VirtualFileSystem<F>, ready: bool) -> (r: ShellOutcome)
    requires
        old(vfs).wf(),
        old(vfs).next_fd < u32::MAX,
    ensures
        final(vfs).wf(),
        final(vfs).files() == old(vfs).files(),
        cmd_kind(line@) == CommandKind::Empty ==> r is Handled && final(out)@ == old(out)@,
        cmd_kind(line@) == CommandKind::Clear ==> r is Clear && final(out)@ == old(out)@,
        cmd_kind(line@) == CommandKind::Exit ==> r is Exit && final(out)@ == old(out)@,
        cmd_kind(line@) == CommandKind::Exec ==> (r matches ShellOutcome::Exec(a) && a@ == cmd_arg(line@)) && final(out)@ == old(out)@,
        cmd_kind(line@) == CommandKind::NotFound ==> r is NotFound && final(out)@ == old(out)@,
        is_report(cmd_kind(line@)) ==> (r matches ShellOutcome::Report(k2, a) && k2 == cmd_kind(line@) && a@ == cmd_arg(line@))
            && final(out)@ == old(out)@,
        !is_report(cmd_kind(line@)) && cmd_kind(line@) != CommandKind::Exec && cmd_kind(line@) != CommandKind::Clear
            && cmd_kind(line@) != CommandKind::Exit && cmd_kind(line@) != CommandKind::NotFound ==> r is Handled,
        static_text(cmd_kind(line@)) matches Some(t) ==> final(out)@ == old(out)@ + vstd::utf8::encode_utf8(t),
        cmd_kind(line@) == CommandKind::Pwd ==> final(out)@ == old(out)@ + vstd::utf8::encode_utf8(old(cwd)@) + seq![10u8],
        cmd_kind(line@) == CommandKind::Echo ==> final(out)@ == old(out)@ + vstd::utf8::encode_utf8(cmd_arg(line@)) + seq![10u8],
        needs_operand(cmd_kind(line@)) && cmd_arg(line@).len() == 0 ==> final(out)@ == old(out)@
            + vstd::utf8::encode_utf8(command_name(cmd_kind(line@))) + ": missing operand\n".spec_bytes(),
        is_fs_command(cmd_kind(line@)) && !(needs_operand(cmd_kind(line@)) && cmd_arg(line@).len() == 0) && !ready ==>
            final(out)@ == old(out)@ + vstd::utf8::encode_utf8(command_name(cmd_kind(line@))) + ": VFS not initialized\n".spec_bytes(),
        cmd_kind(line@) == CommandKind::EchoTo && cmd_target(line@).len() == 0 ==>
            final(out)@ == old(out)@ + "echo: missing output file\n".spec_bytes(),
        cmd_kind(line@) == CommandKind::EchoTo && cmd_target(line@).len() != 0 && !ready ==>
            final(out)@ == old(out)@ + "echo: VFS not initialized\n".spec_bytes(),
        cmd_kind(line@) != CommandKind::Cd ==> final(cwd)@ == old(cwd)@,
        fs_active(line@, ready) && cmd_kind(line@) == CommandKind::Cd ==>
            cd_done(&*old(vfs), vstd::utf8::encode_utf8(cmd_arg(line@)), old(cwd)@, old(out)@, final(out)@, final(cwd)@),
        fs_active(line@, ready) && cmd_kind(line@) == CommandKind::Touch ==>
            touch_done(&*old(vfs), &*final(vfs), vstd::utf8::encode_utf8(cmd_arg(line@)), vstd::utf8::encode_utf8(old(cwd)@), old(out)@, final(out)@),
        fs_active(line@, ready) && cmd_kind(line@) == CommandKind::Mkdir ==>
            (final(out)@ == old(out)@ && final(vfs).stat_model_at(vstd::utf8::encode_utf8(cmd_arg(line@)), vstd::utf8::encode_utf8(old(cwd)@))
                == Ok::<FileStat, VfsError>(FileStat { file_type: FileType::Directory, size: 0 }))
            || (exists|e: VfsError| final(out)@ == old(out)@ + #[trigger] err_line("mkdir".spec_bytes(), e) && final(vfs).same_stats(&*old(vfs))),
        fs_active(line@, ready) && cmd_kind(line@) == CommandKind::Rm ==>
            (final(out)@ == old(out)@ && old(vfs).stat_model_at(vstd::utf8::encode_utf8(cmd_arg(line@)), vstd::utf8::encode_utf8(old(cwd)@)) is Ok
                && final(vfs).stat_model_at(vstd::utf8::encode_utf8(cmd_arg(line@)), vstd::utf8::encode_utf8(old(cwd)@))
                    == Err::<FileStat, VfsError>(VfsError::NotFound))
            || (exists|e: VfsError| final(out)@ == old(out)@ + #[trigger] err_line("rm".spec_bytes(), e) && final(vfs).same_stats(&*old(vfs))),
        ({
            let a = vstd::utf8::encode_utf8(cmd_arg(line@));
            let c = vstd::utf8::encode_utf8(old(cwd)@);
            let rel = relative_path(a, c);
            fs_active(line@, ready) && cmd_kind(line@) == CommandKind::Ls && normalized_path(a, c) is Some && old(vfs).root_fs is Some ==> {
                let l = old(vfs).root_fs->0.listing_model(rel);
                &&& l is None ==> exists|e: VfsError| final(out)@ == old(out)@ + #[trigger] err_line("ls".spec_bytes(), e)
                &&& l matches Some(l) ==> final(out)@ == old(out)@ + ls_output(l)
            }
        }),
        ({
            let a = vstd::utf8::encode_utf8(cmd_arg(line@));
            let c = vstd::utf8::encode_utf8(old(cwd)@);
            let fs0 = old(vfs).root_fs->0;
            let k = F::path_key(relative_path(a, c));
            (fs_active(line@, ready) && cmd_kind(line@) == CommandKind::Cat && normalized_path(a, c) is Some && old(vfs).root_fs is Some
                && fs0.content_model(k) is Some && fs0.handle_model(fs0.next_handle_model()) is None
                && fs0.content_model(k)->Some_0.len() <= usize::MAX)
                ==> final(out)@ == old(out)@ + cat_text(fs0.content_model(k)->Some_0) + seq![10u8]
        }),
        ({
            let t = vstd::utf8::encode_utf8(cmd_target(line@));
            let c = vstd::utf8::encode_utf8(old(cwd)@);
            let fs0 = old(vfs).root_fs->0;
            let rel = relative_path(t, c);
            let k = F::path_key(rel);
            (cmd_kind(line@) == CommandKind::EchoTo && cmd_target(line@).len() != 0 && ready && normalized_path(t, c) is Some
                && old(vfs).root_fs is Some && final(out)@ == old(out)@ && fs0.handle_model(fs0.next_handle_model()) is None
                && (fs0.content_model(k) is Some || fs0.stat_model(rel) == Err::<FileStat, VfsError>(VfsError::NotFound)))
                ==> final(vfs).root_fs is Some && final(vfs).root_fs->0.content_model(k)
                    == Some(echo_content(fs0.content_model(k), vstd::utf8::encode_utf8(cmd_arg(line@)), cmd_append(line@)))
        }),
{
    let cmd = parse_command(line);
    let k = cmd.kind;
    match k {
        CommandKind::Empty => ShellOutcome::Handled,
        CommandKind::Clear => ShellOutcome::Clear,
        CommandKind::Exit => ShellOutcome::Exit,
        CommandKind::Exec => ShellOutcome::Exec(cmd.arg),
        CommandKind::NotFound => ShellOutcome::NotFound,
        CommandKind::Dufetch | CommandKind::Free | CommandKind::Ps | CommandKind::PsAux | CommandKind::Lspci
        | CommandKind::Devs | CommandKind::Blk | CommandKind::Usb | CommandKind::Blkread => ShellOutcome::Report(k, cmd.arg),
        CommandKind::Help | CommandKind::Uname | CommandKind::UnameAll | CommandKind::Date | CommandKind::Whoami
        | CommandKind::Uptime | CommandKind::Top | CommandKind::Poweroff => {
            write_static(out, k);
            ShellOutcome::Handled
        },
        CommandKind::Pwd => {
            push_str(out, cwd.as_str());
            out.push(10u8);
            ShellOutcome::Handled
        },
        CommandKind::Echo => {
            push_str(out, cmd.arg.as_str());
            out.push(10u8);
            ShellOutcome::Handled
        },
        CommandKind::EchoTo => {
            write_file(out, vfs, ready, cwd.as_str(), cmd.target.as_str(), cmd.arg.as_str(), cmd.append);
            ShellOutcome::Handled
        },
        _ => {
            let name = fs_command_name(k);
            let arg = cmd.arg.as_str();
            if (k == CommandKind::Mkdir || k == CommandKind::Touch || k == CommandKind::Cat || k == CommandKind::Rm)
                && arg.unicode_len() == 0 {
                push_str(out, name);
                push_str(out, ": missing operand\n");
                return ShellOutcome::Handled;
            }
            if !ready {
                push_str(out, name);
                push_str(out, ": VFS not initialized\n");
                return ShellOutcome::Handled;
            }
            match k {
                CommandKind::Ls => cmd_ls(out, vfs, cwd.as_str(), arg),
                CommandKind::Cd => cmd_cd(out, vfs, cwd, arg),
                CommandKind::Mkdir => {
                    match vfs.mkdir_at(cwd.as_str(), arg) {
                        Ok(()) => {},
                        Err(e) => {
                            write_vfs_error(out, "mkdir", e);
                            proof {
                                assert(out@ =~= old(out)@ + err_line("mkdir".spec_bytes(), e));
                            }
                        },
                    }
                },
                CommandKind::Touch => cmd_touch(out, vfs, cwd.as_str(), arg),
                CommandKind::Cat => cmd_cat(out, vfs, cwd.as_str(), arg),
                CommandKind::Rm => {
                    match vfs.remove_at(cwd.as_str(), arg) {
                        Ok(()) => {},
                        Err(e) => {
                            write_vfs_error(out, "rm", e);
                            proof {
                                assert(out@ =~= old(out)@ + err_line("rm".spec_bytes(), e));
                            }
                        },
                    }
                },
                _ => cmd_tree(out, vfs, cwd.as_str(), arg),
            }
            ShellOutcome::Handled
        },
    }
}

/// A directory command given no operand works on the current directory:
/// a line that is `ls` or `tree` alone, whatever white space surrounds it,
/// asks for that command on ".".
pub proof fn law_default_operand(line: Seq<char>)
    requires
        trim(line) == "tree"@ || trim(line) == "ls"@,
    ensures
        cmd_arg(line) == "."@,
        trim(line) == "tree"@ ==> cmd_kind(line) == CommandKind::Tree,
        trim(line) == "ls"@ ==> cmd_kind(line) == CommandKind::Ls,
{
    reveal_strlit("clear");
    reveal_strlit("exit");
    reveal_strlit("exec");
    reveal_strlit("exec ");
    reveal_strlit("dufetch");
    reveal_strlit("pwd");
    reveal_strlit("ls");
    reveal_strlit("ls ");
    reveal_strlit("cd");
    reveal_strlit("cd ");
    reveal_strlit("mkdir ");
    reveal_strlit("touch ");
    reveal_strlit("cat ");
    reveal_strlit("rm ");
    reveal_strlit("tree");
    reveal_strlit("tree ");
    reveal_strlit(".");
    let t = trim(line);
    if t == "tree"@ {
        assert(t =~= seq!['t', 'r', 'e', 'e']);
        assert(t.take(3) =~= seq!['t', 'r', 'e']);
        assert(t.take(4) =~= t);
        assert(!starts(t, "ls "@) && !starts(t, "cd "@) && !starts(t, "rm "@) && !starts(t, "cat "@) && !starts(t, "exec "@));
        assert(t.skip(4).len() == 0);
        assert(trim(t.skip(4)) =~= Seq::<char>::empty());
    } else {
        assert(t.skip(2).len() == 0);
        assert(trim(t.skip(2)) =~= Seq::<char>::empty());
    }
}

/// `cd` with no operand goes to the root: a line that is `cd` alone,
/// whatever white space surrounds it, asks for `cd` to "/".
pub proof fn law_cd_home(line: Seq<char>)
    requires
        trim(line) == "cd"@,
    ensures
        cmd_kind(line) == CommandKind::Cd,
        cmd_arg(line) == "/"@,
{
    reveal_strlit("clear");
    reveal_strlit("exit");
    reveal_strlit("exec");
    reveal_strlit("exec ");
    reveal_strlit("dufetch");
    reveal_strlit("pwd");
    reveal_strlit("ls");
    reveal_strlit("ls ");
    reveal_strlit("cd");
    reveal_strlit("cd ");
    reveal_strlit("/");
    let t = trim(line);
    assert(t =~= seq!['c', 'd']);
    assert(!starts(t, "ls "@) && !starts(t, "exec "@));
    assert(trim(t.skip(2)) =~= Seq::<char>::empty());
}

} // verus!
