//! `dufetch`: the system summary beside (or below) the logo, as a list of
//! text and colour operations for a terminal to replay.
use vstd::prelude::*;
use vstd::string::{StringSliceAdditionalSpecFns, StrSliceExecFns};
use crate::shell::{decimal, write_u64};
use crate::text::{trim, trim_str};

verus! {

pub const LOGO_WIDTH: usize = 80;
pub const COLOR_DARK_GREEN: u32 = 0x2f7a4e;
pub const COLOR_SAGE: u32 = 0x9bb59c;
pub const COLOR_SOFT_WHITE: u32 = 0xfffdf1;
pub const COLOR_MUTED: u32 = 0xa9bda8;

/// One thing done to a terminal: print bytes, set the text colour, or go
/// back to the default colour.
pub enum SinkOp {
    Text(Vec<u8>),
    Color(u32),
    Reset,
}

/// An operation as a tuple: its tag, its bytes, its colour.
pub open spec fn op_view(o: SinkOp) -> (u8, Seq<u8>, u32) {
    match o {
        SinkOp::Text(b) => (0u8, b@, 0u32),
        SinkOp::Color(c) => (1u8, Seq::empty(), c),
        SinkOp::Reset => (2u8, Seq::empty(), 0u32),
    }
}

pub open spec fn ops_view(v: Seq<SinkOp>) -> Seq<(u8, Seq<u8>, u32)> {
    v.map_values(|o: SinkOp| op_view(o))
}

pub open spec fn text_op(b: Seq<u8>) -> (u8, Seq<u8>, u32) {
    (0u8, b, 0u32)
}

pub open spec fn color_op(c: u32) -> (u8, Seq<u8>, u32) {
    (1u8, Seq::empty(), c)
}

pub open spec fn reset_op() -> (u8, Seq<u8>, u32) {
    (2u8, Seq::empty(), 0u32)
}

/// The colour a logo character is drawn in.
pub open spec fn logo_color(c: char) -> u32 {
    if c == '@' || c == '%' {
        COLOR_SOFT_WHITE
    } else if c == '*' || c == '+' {
        COLOR_SAGE
    } else if c == '=' || c == '-' || c == ':' || c == '.' {
        COLOR_DARK_GREEN
    } else {
        COLOR_MUTED
    }
}

fn logo_color_of(c: char) -> (r: u32)
    ensures
        r == logo_color(c),
{
    if c == '@' || c == '%' {
        COLOR_SOFT_WHITE
    } else if c == '*' || c == '+' {
        COLOR_SAGE
    } else if c == '=' || c == '-' || c == ':' || c == '.' {
        COLOR_DARK_GREEN
    } else {
        COLOR_MUTED
    }
}

/// Each character of `t` in its colour.
pub open spec fn colored_chars(t: Seq<char>) -> Seq<(u8, Seq<u8>, u32)>
    decreases t.len(),
{
    if t.len() == 0 {
        Seq::empty()
    } else {
        colored_chars(t.drop_last()) + seq![color_op(logo_color(t.last())), text_op(vstd::utf8::encode_utf8(seq![t.last()]))]
    }
}

/// `n` single spaces.
pub open spec fn spaces(n: int) -> Seq<(u8, Seq<u8>, u32)> {
    Seq::new(if n > 0 { n as nat } else { 0 }, |i: int| text_op(" ".spec_bytes()))
}

/// A logo line in its colours, padded with spaces to `width` bytes.
pub open spec fn padded(t: Seq<char>, width: int) -> Seq<(u8, Seq<u8>, u32)> {
    colored_chars(t) + spaces(width - vstd::utf8::encode_utf8(t).len()) + seq![reset_op()]
}

/// A label in dark green followed by a value in white.
pub open spec fn info(label: Seq<u8>, value: Seq<u8>) -> Seq<(u8, Seq<u8>, u32)> {
    seq![color_op(COLOR_DARK_GREEN), text_op(label), reset_op(), color_op(COLOR_SOFT_WHITE), text_op(value), reset_op()]
}

fn push_text(ops: &mut Vec<SinkOp>, s: &str)
    ensures
        ops_view(final(ops)@) == ops_view(old(ops)@).push(text_op(s.spec_bytes())),
{
    ops.push(SinkOp::Text(vstd::slice::slice_to_vec(s.as_bytes())));
    proof {
        assert(ops_view(ops@) =~= ops_view(old(ops)@).push(text_op(s.spec_bytes())));
    }
}

fn push_bytes(ops: &mut Vec<SinkOp>, b: Vec<u8>)
    ensures
        ops_view(final(ops)@) == ops_view(old(ops)@).push(text_op(b@)),
{
    let ghost bv = b@;
    ops.push(SinkOp::Text(b));
    proof {
        assert(ops_view(ops@) =~= ops_view(old(ops)@).push(text_op(bv)));
    }
}

fn push_color(ops: &mut Vec<SinkOp>, c: u32)
    ensures
        ops_view(final(ops)@) == ops_view(old(ops)@).push(color_op(c)),
{
    ops.push(SinkOp::Color(c));
    proof {
        assert(ops_view(ops@) =~= ops_view(old(ops)@).push(color_op(c)));
    }
}

fn push_reset(ops: &mut Vec<SinkOp>)
    ensures
        ops_view(final(ops)@) == ops_view(old(ops)@).push(reset_op()),
{
    ops.push(SinkOp::Reset);
    proof {
        assert(ops_view(ops@) =~= ops_view(old(ops)@).push(reset_op()));
    }
}

/// Appends a label in dark green and a value in white.
pub fn write_info(ops: &mut Vec<SinkOp>, label: &str, value: &str)
    ensures
        ops_view(final(ops)@) == ops_view(old(ops)@) + info(label.spec_bytes(), value.spec_bytes()),
{
    push_color(ops, COLOR_DARK_GREEN);
    push_text(ops, label);
    push_reset(ops);
    push_color(ops, COLOR_SOFT_WHITE);
    push_text(ops, value);
    push_reset(ops);
    proof {
        assert(ops_view(ops@) =~= ops_view(old(ops)@) + info(label.spec_bytes(), value.spec_bytes()));
    }
}

/// Appends a logo line, each character in its colour, padded to `width`.
pub fn write_padded(ops: &mut Vec<SinkOp>, text: &str, width: usize)
    ensures
        ops_view(final(ops)@) == ops_view(old(ops)@) + padded(text@, width as int),
{
    let n = text.unicode_len();
    let mut i: usize = 0;
    proof {
        assert(text@.take(0) =~= Seq::<char>::empty());
        assert(ops_view(ops@) =~= ops_view(old(ops)@) + colored_chars(text@.take(0)));
    }
    while i < n
        invariant
            n == text@.len(),
            i <= n,
            ops_view(ops@) == ops_view(old(ops)@) + colored_chars(text@.take(i as int)),
        decreases n - i,
    {
        let c = text.get_char(i);
        push_color(ops, logo_color_of(c));
        let one = text.substring_char(i, i + 1);
        push_text(ops, one);
        proof {
            let t = text@.take(i as int + 1);
            assert(t.drop_last() =~= text@.take(i as int));
            assert(one@ =~= seq![c]);
            assert(ops_view(ops@) =~= ops_view(old(ops)@) + colored_chars(t));
        }
        i = i + 1;
    }
    proof {
        assert(text@.take(n as int) =~= text@);
    }
    let mut written = text.as_bytes().len();
    let ghost mid = ops_view(ops@);
    proof {
        assert(spaces(0) =~= Seq::<(u8, Seq<u8>, u32)>::empty());
        assert(ops_view(ops@) =~= mid + spaces(0));
    }
    let ghost start = written as int;
    while written < width
        invariant
            start <= written,
            start == vstd::utf8::encode_utf8(text@).len(),
            written <= width || written == start,
            ops_view(ops@) == mid + spaces(written - start),
        decreases width - written,
    {
        push_text(ops, " ");
        proof {
            assert(spaces(written - start + 1) =~= spaces(written - start).push(text_op(" ".spec_bytes())));
        }
        written = written + 1;
    }
    push_reset(ops);
    proof {
        if start < width {
            assert(written == width);
        }
        assert(spaces(written - start) =~= spaces(width - start));
        assert(ops_view(ops@) =~= ops_view(old(ops)@) + padded(text@, width as int));
    }
}

/// Splitting a prefix of a text into lines: the finished lines as ranges
/// (without their `\n`, nor a `\r` before it) and where the open line starts.
pub open spec fn lines_state(p: Seq<char>) -> (Seq<(int, int)>, int)
    decreases p.len(),
{
    if p.len() == 0 {
        (Seq::empty(), 0)
    } else {
        let (done, st) = lines_state(p.drop_last());
        let k = p.len() - 1;
        if p.last() == '\n' {
            let e = if k > st && p[k - 1] == '\r' { k - 1 } else { k };
            (done.push((st, e)), p.len() as int)
        } else {
            (done, st)
        }
    }
}

/// The line ranges of `s`, as `str::lines` gives them: a last line without
/// a newline counts when it is not empty.
pub open spec fn line_spans(s: Seq<char>) -> Seq<(int, int)> {
    let (done, st) = lines_state(s);
    if st < s.len() { done.push((st, s.len() as int)) } else { done }
}

/// The lines of `s`.
pub open spec fn text_lines(s: Seq<char>) -> Seq<Seq<char>> {
    line_spans(s).map_values(|w: (int, int)| s.subrange(w.0, w.1))
}

proof fn lemma_lines_state_bounds(p: Seq<char>)
    ensures
        0 <= lines_state(p).1 <= p.len(),
        forall|i: int| 0 <= i < lines_state(p).0.len() ==> 0 <= (#[trigger] lines_state(p).0[i]).0 <= lines_state(p).0[i].1 <= lines_state(p).1,
    decreases p.len(),
{
    if p.len() > 0 {
        lemma_lines_state_bounds(p.drop_last());
    }
}

/// The lines of `text`, each as a `&str` range.
pub fn lines_of(text: &str) -> (r: Vec<(usize, usize)>)
    ensures
        r@.len() == line_spans(text@).len(),
        forall|i: int| 0 <= i < r@.len() ==> (#[trigger] r@[i]).0 as int == line_spans(text@)[i].0
            && r@[i].1 as int == line_spans(text@)[i].1 && r@[i].0 <= r@[i].1 <= text@.len(),
{
    let n = text.unicode_len();
    let mut out: Vec<(usize, usize)> = Vec::new();
    let mut st: usize = 0;
    let mut i: usize = 0;
    proof {
        assert(text@.take(0) =~= Seq::<char>::empty());
    }
    while i < n
        invariant
            n == text@.len(),
            i <= n,
            lines_state(text@.take(i as int)).1 == st as int,
            st <= i,
            out@.len() == lines_state(text@.take(i as int)).0.len(),
            forall|k: int| 0 <= k < out@.len() ==> (#[trigger] out@[k]).0 as int == lines_state(text@.take(i as int)).0[k].0
                && out@[k].1 as int == lines_state(text@.take(i as int)).0[k].1 && out@[k].0 <= out@[k].1 <= i,
        decreases n - i,
    {
        let c = text.get_char(i);
        let ghost p = text@.take(i as int + 1);
        proof {
            assert(p.drop_last() =~= text@.take(i as int));
            assert(p.last() == c);
            lemma_lines_state_bounds(text@.take(i as int));
        }
        if c == '\n' {
            let e = if i > st && text.get_char(i - 1) == '\r' { i - 1 } else { i };
            proof {
                if i > st {
                    assert(p[i as int - 1] == text@[i as int - 1]);
                }
            }
            out.push((st, e));
            st = i + 1;
        }
        i = i + 1;
    }
    proof {
        assert(text@.take(n as int) =~= text@);
    }
    if st < n {
        out.push((st, n));
    }
    out
}

/// What stands right of logo line `idx`: the title, one summary entry, or
/// the colour swatches.
pub open spec fn line_extra(idx: int, pid: u64, cwd: Seq<u8>, used_kib: usize, total_kib: usize) -> Seq<(u8, Seq<u8>, u32)> {
    if idx == 3 {
        seq![color_op(COLOR_SOFT_WHITE), text_op("Dunit OS".spec_bytes()), reset_op()]
    } else if idx == 4 {
        info("OS: ".spec_bytes(), "Dunit OS".spec_bytes())
    } else if idx == 5 {
        info("Kernel: ".spec_bytes(), "1.0.0 Green Tea".spec_bytes())
    } else if idx == 6 {
        info("Arch: ".spec_bytes(), "x86_64".spec_bytes())
    } else if idx == 7 {
        info("Mode: ".spec_bytes(), "Terminal".spec_bytes())
    } else if idx == 8 {
        info("Shell: ".spec_bytes(), "Dunit Terminal".spec_bytes())
    } else if idx == 9 {
        info("FS: ".spec_bytes(), "MemFS over VFS".spec_bytes())
    } else if idx == 10 {
        info("PID: ".spec_bytes(), decimal(pid as nat))
    } else if idx == 11 {
        info("CWD: ".spec_bytes(), cwd)
    } else if idx == 12 {
        info("Memory: ".spec_bytes(), memory_text(used_kib, total_kib))
    } else if idx == 13 {
        info("Display: ".spec_bytes(), "Framebuffer".spec_bytes())
    } else if idx == 15 {
        seq![color_op(COLOR_DARK_GREEN), text_op("green".spec_bytes()), reset_op(), text_op("  ".spec_bytes()),
            color_op(COLOR_SAGE), text_op("sage".spec_bytes()), reset_op(), text_op("  ".spec_bytes()),
            color_op(COLOR_SOFT_WHITE), text_op("white".spec_bytes()), reset_op()]
    } else {
        Seq::empty()
    }
}

/// `used KiB / total KiB`, or `available` when the total is unknown (zero).
pub open spec fn memory_text(used_kib: usize, total_kib: usize) -> Seq<u8> {
    if total_kib > 0 {
        decimal(used_kib as nat) + " KiB / ".spec_bytes() + decimal(total_kib as nat) + " KiB".spec_bytes()
    } else {
        "available".spec_bytes()
    }
}

/// Kibibytes in use: the total less what is available, not below zero.
pub open spec fn used_kib(available_bytes: usize, total_bytes: usize) -> usize {
    let a = available_bytes / 1024;
    let t = total_bytes / 1024;
    if t >= a { (t - a) as usize } else { 0 }
}

fn memory_value(used: usize, total: usize) -> (r: Vec<u8>)
    ensures
        r@ == memory_text(used, total),
{
    let mut v: Vec<u8> = Vec::new();
    if total > 0 {
        write_u64(&mut v, used as u64);
        crate::storage::gpt::push_all(&mut v, " KiB / ".as_bytes());
        write_u64(&mut v, total as u64);
        crate::storage::gpt::push_all(&mut v, " KiB".as_bytes());
    } else {
        crate::storage::gpt::push_all(&mut v, "available".as_bytes());
    }
    v
}

fn write_line_extra(ops: &mut Vec<SinkOp>, idx: usize, pid: u64, cwd: &str, used: usize, total: usize)
    ensures
        ops_view(final(ops)@) == ops_view(old(ops)@) + line_extra(idx as int, pid, cwd.spec_bytes(), used, total),
{
    if idx == 3 {
        push_color(ops, COLOR_SOFT_WHITE);
        push_text(ops, "Dunit OS");
        push_reset(ops);
        proof {
            assert(ops_view(ops@) =~= ops_view(old(ops)@) + line_extra(idx as int, pid, cwd.spec_bytes(), used, total));
        }
    } else if idx == 4 {
        write_info(ops, "OS: ", "Dunit OS");
    } else if idx == 5 {
        write_info(ops, "Kernel: ", "1.0.0 Green Tea");
    } else if idx == 6 {
        write_info(ops, "Arch: ", "x86_64");
    } else if idx == 7 {
        write_info(ops, "Mode: ", "Terminal");
    } else if idx == 8 {
        write_info(ops, "Shell: ", "Dunit Terminal");
    } else if idx == 9 {
        write_info(ops, "FS: ", "MemFS over VFS");
    } else if idx == 10 {
        let mut v: Vec<u8> = Vec::new();
        write_u64(&mut v, pid);
        push_color(ops, COLOR_DARK_GREEN);
        push_text(ops, "PID: ");
        push_reset(ops);
        push_color(ops, COLOR_SOFT_WHITE);
        push_bytes(ops, v);
        push_reset(ops);
        proof {
            assert(ops_view(ops@) =~= ops_view(old(ops)@) + line_extra(idx as int, pid, cwd.spec_bytes(), used, total));
        }
    } else if idx == 11 {
        write_info(ops, "CWD: ", cwd);
    } else if idx == 12 {
        let v = memory_value(used, total);
        push_color(ops, COLOR_DARK_GREEN);
        push_text(ops, "Memory: ");
        push_reset(ops);
        push_color(ops, COLOR_SOFT_WHITE);
        push_bytes(ops, v);
        push_reset(ops);
        proof {
            assert(ops_view(ops@) =~= ops_view(old(ops)@) + line_extra(idx as int, pid, cwd.spec_bytes(), used, total));
        }
    } else if idx == 13 {
        write_info(ops, "Display: ", "Framebuffer");
    } else if idx == 15 {
        push_color(ops, COLOR_DARK_GREEN);
        push_text(ops, "green");
        push_reset(ops);
        push_text(ops, "  ");
        push_color(ops, COLOR_SAGE);
        push_text(ops, "sage");
        push_reset(ops);
        push_text(ops, "  ");
        push_color(ops, COLOR_SOFT_WHITE);
        push_text(ops, "white");
        push_reset(ops);
        proof {
            assert(ops_view(ops@) =~= ops_view(old(ops)@) + line_extra(idx as int, pid, cwd.spec_bytes(), used, total));
        }
    } else {
        proof {
            assert(ops_view(ops@) =~= ops_view(old(ops)@) + line_extra(idx as int, pid, cwd.spec_bytes(), used, total));
        }
    }
}

/// The side-by-side summary for `lines` (the logo's lines) up to line `n`.
pub open spec fn side_by_side(lines: Seq<Seq<char>>, n: int, pid: u64, cwd: Seq<u8>, used: usize, total: usize) -> Seq<(u8, Seq<u8>, u32)>
    decreases n,
{
    if n <= 0 {
        Seq::empty()
    } else {
        side_by_side(lines, n - 1, pid, cwd, used, total) + padded(lines[n - 1], LOGO_WIDTH as int)
            + seq![text_op("  ".spec_bytes())] + line_extra(n - 1, pid, cwd, used, total) + seq![text_op("\n".spec_bytes())]
    }
}

/// `dufetch` in the text terminal: each logo line padded to the logo width,
/// with the system summary to its right.
pub fn run(ops: &mut Vec<SinkOp>, logo: &str, cwd: &str, pid: u64, available_bytes: usize, total_bytes: usize)
    ensures
        ({
            let lines = text_lines(logo@);
            ops_view(final(ops)@) == ops_view(old(ops)@) + side_by_side(lines, lines.len() as int, pid, cwd.spec_bytes(),
                used_kib(available_bytes, total_bytes), (total_bytes / 1024) as usize)
        }),
{
    let avail = available_bytes / 1024;
    let total = total_bytes / 1024;
    let used = if total >= avail { total - avail } else { 0 };
    let spans = lines_of(logo);
    let ghost lines = text_lines(logo@);
    let mut idx: usize = 0;
    while idx < spans.len()
        invariant
            spans@.len() == line_spans(logo@).len(),
            forall|i: int| 0 <= i < spans@.len() ==> (#[trigger] spans@[i]).0 as int == line_spans(logo@)[i].0
                && spans@[i].1 as int == line_spans(logo@)[i].1 && spans@[i].0 <= spans@[i].1 <= logo@.len(),
            lines == text_lines(logo@),
            idx <= spans@.len(),
            used == used_kib(available_bytes, total_bytes),
            total == (total_bytes / 1024) as usize,
            ops_view(ops@) == ops_view(old(ops)@) + side_by_side(lines, idx as int, pid, cwd.spec_bytes(), used, total),
        decreases spans@.len() - idx,
    {
        let (a, b) = spans[idx];
        let line = logo.substring_char(a, b);
        let ghost before = ops_view(ops@);
        write_padded(ops, line, LOGO_WIDTH);
        push_text(ops, "  ");
        write_line_extra(ops, idx, pid, cwd, used, total);
        push_text(ops, "\n");
        proof {
            assert(line@ == lines[idx as int]);
            assert(ops_view(ops@) =~= ops_view(old(ops)@) + side_by_side(lines, idx as int + 1, pid, cwd.spec_bytes(), used, total));
        }
        idx = idx + 1;
    }
}

/// The first line at or after `i` that is not blank.
pub open spec fn first_content_from(lines: Seq<Seq<char>>, i: int) -> int
    decreases lines.len() - i,
{
    if i < 0 || i >= lines.len() {
        lines.len() as int
    } else if trim(lines[i]).len() != 0 {
        i
    } else {
        first_content_from(lines, i + 1)
    }
}

/// Logo lines `from..n`, each in sage on a line of its own.
pub open spec fn stacked_logo(lines: Seq<Seq<char>>, from: int, n: int) -> Seq<(u8, Seq<u8>, u32)>
    decreases n - from,
{
    if n <= from {
        Seq::empty()
    } else {
        stacked_logo(lines, from, n - 1) + seq![color_op(COLOR_SAGE), text_op(vstd::utf8::encode_utf8(lines[n - 1])), reset_op(),
            text_op("\n".spec_bytes())]
    }
}

/// The summary lines under the logo in the narrow layout.
pub open spec fn stacked_info(pid: u64, cwd: Seq<u8>, used: usize, total: usize) -> Seq<(u8, Seq<u8>, u32)> {
    let nl = seq![text_op("\n".spec_bytes())];
    nl + info("OS: ".spec_bytes(), "Dunit OS".spec_bytes()) + nl
        + info("Kernel: ".spec_bytes(), "1.0.0 Green Tea".spec_bytes()) + nl
        + info("Arch: ".spec_bytes(), "x86_64".spec_bytes()) + nl
        + info("Mode: ".spec_bytes(), "GUI".spec_bytes()) + nl
        + info("Shell: ".spec_bytes(), "Dunit GUI Terminal".spec_bytes()) + nl
        + info("FS: ".spec_bytes(), "MemFS over VFS".spec_bytes()) + nl
        + info("PID: ".spec_bytes(), decimal(pid as nat)) + nl
        + info("CWD: ".spec_bytes(), cwd) + nl
        + info("Memory: ".spec_bytes(), memory_text(used, total)) + nl
        + info("Display: ".spec_bytes(), "Framebuffer".spec_bytes()) + nl
}

fn write_stacked_info(ops: &mut Vec<SinkOp>, pid: u64, cwd: &str, used: usize, total: usize)
    ensures
        ops_view(final(ops)@) == ops_view(old(ops)@) + stacked_info(pid, cwd.spec_bytes(), used, total),
{
    let ghost mid = ops_view(old(ops)@);
    push_text(ops, "\n");
    write_info(ops, "OS: ", "Dunit OS");
    push_text(ops, "\n");
    write_info(ops, "Kernel: ", "1.0.0 Green Tea");
    push_text(ops, "\n");
    write_info(ops, "Arch: ", "x86_64");
    push_text(ops, "\n");
    write_info(ops, "Mode: ", "GUI");
    push_text(ops, "\n");
    write_info(ops, "Shell: ", "Dunit GUI Terminal");
    push_text(ops, "\n");
    write_info(ops, "FS: ", "MemFS over VFS");
    push_text(ops, "\n");
    let mut v: Vec<u8> = Vec::new();
    write_u64(&mut v, pid);
    push_color(ops, COLOR_DARK_GREEN);
    push_text(ops, "PID: ");
    push_reset(ops);
    push_color(ops, COLOR_SOFT_WHITE);
    push_bytes(ops, v);
    push_reset(ops);
    push_text(ops, "\n");
    write_info(ops, "CWD: ", cwd);
    push_text(ops, "\n");
    let m = memory_value(used, total);
    push_color(ops, COLOR_DARK_GREEN);
    push_text(ops, "Memory: ");
    push_reset(ops);
    push_color(ops, COLOR_SOFT_WHITE);
    push_bytes(ops, m);
    push_reset(ops);
    push_text(ops, "\n");
    write_info(ops, "Display: ", "Framebuffer");
    push_text(ops, "\n");
    proof {
        assert(ops_view(ops@) =~= mid + stacked_info(pid, cwd.spec_bytes(), used, total));
    }
}

/// `dufetch` in a narrow window: the logo without its leading blank lines,
/// then the summary below it.
pub fn run_stacked(ops: &mut Vec<SinkOp>, logo: &str, cwd: &str, pid: u64, available_bytes: usize, total_bytes: usize)
    ensures
        ({
            let lines = text_lines(logo@);
            let used = used_kib(available_bytes, total_bytes);
            let total = (total_bytes / 1024) as usize;
            ops_view(final(ops)@) == ops_view(old(ops)@) + stacked_logo(lines, first_content_from(lines, 0), lines.len() as int)
                + stacked_info(pid, cwd.spec_bytes(), used, total)
        }),
{
    let avail = available_bytes / 1024;
    let total = total_bytes / 1024;
    let used = if total >= avail { total - avail } else { 0 };
    let spans = lines_of(logo);
    let ghost lines = text_lines(logo@);
    let mut idx: usize = 0;
    while idx < spans.len()
        invariant
            spans@.len() == line_spans(logo@).len(),
            forall|i: int| 0 <= i < spans@.len() ==> (#[trigger] spans@[i]).0 as int == line_spans(logo@)[i].0
                && spans@[i].1 as int == line_spans(logo@)[i].1 && spans@[i].0 <= spans@[i].1 <= logo@.len(),
            lines == text_lines(logo@),
            idx <= spans@.len(),
            first_content_from(lines, 0) == first_content_from(lines, idx as int),
            ops_view(ops@) == ops_view(old(ops)@),
        ensures
            idx <= spans@.len(),
            first_content_from(lines, 0) == idx as int,
            ops_view(ops@) == ops_view(old(ops)@),
        decreases spans@.len() - idx,
    {
        let (a, b) = spans[idx];
        let line = logo.substring_char(a, b);
        proof {
            assert(line@ == lines[idx as int]);
        }
        if trim_str(line).unicode_len() != 0 {
            break;
        }
        idx = idx + 1;
    }
    let ghost first = idx as int;
    proof {
        assert(first_content_from(lines, 0) == first);
        assert(stacked_logo(lines, first, first) =~= Seq::<(u8, Seq<u8>, u32)>::empty());
    }
    while idx < spans.len()
        invariant
            spans@.len() == line_spans(logo@).len(),
            forall|i: int| 0 <= i < spans@.len() ==> (#[trigger] spans@[i]).0 as int == line_spans(logo@)[i].0
                && spans@[i].1 as int == line_spans(logo@)[i].1 && spans@[i].0 <= spans@[i].1 <= logo@.len(),
            lines == text_lines(logo@),
            first <= idx <= spans@.len(),
            ops_view(ops@) == ops_view(old(ops)@) + stacked_logo(lines, first, idx as int),
        decreases spans@.len() - idx,
    {
        let (a, b) = spans[idx];
        let line = logo.substring_char(a, b);
        push_color(ops, COLOR_SAGE);
        push_text(ops, line);
        push_reset(ops);
        push_text(ops, "\n");
        proof {
            assert(line@ == lines[idx as int]);
            assert(ops_view(ops@) =~= ops_view(old(ops)@) + stacked_logo(lines, first, idx as int + 1));
        }
        idx = idx + 1;
    }
    write_stacked_info(ops, pid, cwd, used, total);
}

} // verus!
