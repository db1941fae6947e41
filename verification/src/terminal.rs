//! Line editing of the kernel terminal: typing, erasing, walking the command
//! history with the arrow keys, completing command names with tab, and
//! handing a finished line over to be run.
use vstd::prelude::*;
use vstd::string::StringSliceAdditionalSpecFns;
use crate::drivers::keyboard::{KeyboardState, SpecialKey, scancode_to_char, scancode_to_special_key, special_key_of, char_of, letter_row, row_start, law_letter_keys, key_row, shifted_key_row, key_row_start, law_key_rows};
use crate::shell::{CommandKind, cmd_kind};
use crate::text::trim;
use crate::command::is_ws;

verus! {

/// Longest line the terminal accepts.
pub const MAX_INPUT: usize = 255;
/// Number of remembered lines.
pub const HISTORY_SLOTS: usize = 50;
/// Number of command names tab completes.
pub const COMPLETION_WORDS: usize = 20;

/// A key press as the terminal sees it.
pub enum KeyEvent {
    Up,
    Down,
    Backspace,
    /// A character key: its byte.
    Char(u8),
}

/// What the screen must show after a key.
pub enum TerminalAction {
    /// Nothing changes on screen.
    Nothing,
    /// The byte was appended to the line.
    Echo(u8),
    /// The last byte of the line was erased.
    Erase,
    /// The shown line (this many bytes) is erased and the text written.
    Replace(usize, Vec<u8>),
    /// The candidate command names are listed, then the prompt and the line.
    ShowMatches(Vec<Vec<u8>>),
    /// The line is finished and is to be run.
    Run(Vec<u8>),
}

/// The line being edited, the remembered lines (oldest first) and the
/// history entry shown, if any.
pub struct TerminalState {
    pub input: Vec<u8>,
    pub history: Vec<Vec<u8>>,
    pub position: Option<usize>,
}

/// The names tab completes, in the order they are listed.
pub open spec fn completion_word(i: int) -> Seq<char> {
    if i == 0 { "help"@ } else if i == 1 { "dufetch"@ } else if i == 2 { "ls"@ } else if i == 3 { "pwd"@ }
    else if i == 4 { "cd"@ } else if i == 5 { "mkdir"@ } else if i == 6 { "touch"@ } else if i == 7 { "cat"@ }
    else if i == 8 { "echo"@ } else if i == 9 { "exec"@ } else if i == 10 { "ps"@ } else if i == 11 { "top"@ }
    else if i == 12 { "uname"@ } else if i == 13 { "date"@ } else if i == 14 { "whoami"@ } else if i == 15 { "uptime"@ }
    else if i == 16 { "free"@ } else if i == 17 { "exit"@ } else if i == 18 { "poweroff"@ } else { "shutdown"@ }
}

/// The names tab completes, as bytes.
pub open spec fn completion_words() -> Seq<Seq<u8>> {
    Seq::new(COMPLETION_WORDS as nat, |i: int| vstd::utf8::encode_utf8(completion_word(i)))
}

/// Whether `p` is a prefix of `w`.
pub open spec fn is_prefix(p: Seq<u8>, w: Seq<u8>) -> bool {
    p.len() <= w.len() && w.subrange(0, p.len() as int) == p
}

/// The text completion works on: the line when it is valid UTF-8, else
/// nothing.
pub open spec fn completion_text(input: Seq<u8>) -> Seq<u8> {
    if vstd::utf8::valid_utf8(input) { input } else { Seq::empty() }
}

/// The command names that start with the line, in list order.
pub open spec fn completions(input: Seq<u8>) -> Seq<Seq<u8>> {
    completion_words().filter(|w: Seq<u8>| is_prefix(completion_text(input), w))
}

/// The history after a finished non-empty `line`: appended while there is
/// room; once all slots are used it takes the first slot.
pub open spec fn history_after(h: Seq<Seq<u8>>, line: Seq<u8>) -> Seq<Seq<u8>> {
    if h.len() < HISTORY_SLOTS { h.push(line) } else { h.update(0, line) }
}

/// The history entry `Up` moves to from `position`.
pub open spec fn up_position(h: Seq<Seq<u8>>, position: Option<usize>) -> int {
    match position {
        None => h.len() - 1,
        Some(p) => if p > 0 { p - 1 } else { 0 },
    }
}

/// The key of a scancode: releases and other keys give none.
pub open spec fn key_of(scancode: u8, shifted: bool) -> Option<KeyEvent> {
    if scancode >= 0x80 {
        None
    } else {
        match special_key_of(scancode) {
            Some(SpecialKey::UpArrow) => Some(KeyEvent::Up),
            Some(SpecialKey::DownArrow) => Some(KeyEvent::Down),
            Some(_) => None,
            None => if scancode == 0x0E {
                Some(KeyEvent::Backspace)
            } else {
                match char_of(scancode, shifted) {
                    Some(c) => Some(KeyEvent::Char(c as u32 as u8)),
                    None => None,
                }
            },
        }
    }
}

impl TerminalState {
    /// The history has at most its slots and the position names an entry.
    pub open spec fn wf(&self) -> bool {
        &&& self.history@.len() <= HISTORY_SLOTS
        &&& (self.position matches Some(p) ==> p < self.history@.len())
    }

    /// The remembered lines as bytes.
    pub open spec fn lines(&self) -> Seq<Seq<u8>> {
        self.history@.map_values(|v: Vec<u8>| v@)
    }

    /// An empty line and no history.
    pub fn new() -> (r: Self)
        ensures
            r.wf(),
            r.input@.len() == 0,
            r.lines().len() == 0,
            r.position is None,
    {
        TerminalState { input: Vec::new(), history: Vec::new(), position: None }
    }
}

/// The key of a scancode, under the keyboard's shift state.
pub fn decode_key(kb: &KeyboardState, scancode: u8) -> (r: Option<KeyEvent>)
    ensures
        r == key_of(scancode, kb.shift_down),
{
    if scancode >= 0x80 {
        return None;
    }
    match scancode_to_special_key(scancode) {
        Some(SpecialKey::UpArrow) => Some(KeyEvent::Up),
        Some(SpecialKey::DownArrow) => Some(KeyEvent::Down),
        Some(_) => None,
        None => {
            if scancode == 0x0E {
                Some(KeyEvent::Backspace)
            } else {
                match scancode_to_char(kb, scancode) {
                    Some(c) => Some(KeyEvent::Char(c as u32 as u8)),
                    None => None,
                }
            }
        },
    }
}

fn completion_word_str(i: usize) -> (r: &'static str)
    requires
        i < COMPLETION_WORDS,
    ensures
        r@ == completion_word(i as int),
{
    match i {
        0 => "help", 1 => "dufetch", 2 => "ls", 3 => "pwd", 4 => "cd", 5 => "mkdir", 6 => "touch", 7 => "cat",
        8 => "echo", 9 => "exec", 10 => "ps", 11 => "top", 12 => "uname", 13 => "date", 14 => "whoami",
        15 => "uptime", 16 => "free", 17 => "exit", 18 => "poweroff", _ => "shutdown",
    }
}

/// Whether `p` is a prefix of `w`.
fn prefix_of(p: &[u8], w: &[u8]) -> (r: bool)
    ensures
        r == is_prefix(p@, w@),
{
    if p.len() > w.len() {
        return false;
    }
    let mut i: usize = 0;
    while i < p.len()
        invariant
            p@.len() <= w@.len(),
            i <= p@.len(),
            forall|j: int| 0 <= j < i ==> p@[j] == w@[j],
        decreases p@.len() - i,
    {
        if p[i] != w[i] {
            proof {
                assert(w@.subrange(0, p@.len() as int)[i as int] != p@[i as int]);
            }
            return false;
        }
        i = i + 1;
    }
    proof {
        assert(w@.subrange(0, p@.len() as int) =~= p@);
    }
    true
}

/// The command names that start with the line, in list order.
pub fn completions_of(input: &[u8]) -> (r: Vec<Vec<u8>>)
    ensures
        r@.map_values(|v: Vec<u8>| v@) == completions(input@),
{
    let text: &[u8] = match crate::text::str_from_utf8(input) {
        Some(_) => input,
        None => &[],
    };
    proof {
        if !vstd::utf8::valid_utf8(input@) {
            assert(text@ =~= Seq::<u8>::empty());
        }
    }
    let ghost pred = |w: Seq<u8>| is_prefix(completion_text(input@), w);
    let ghost words = completion_words();
    let mut out: Vec<Vec<u8>> = Vec::new();
    let mut i: usize = 0;
    while i < COMPLETION_WORDS
        invariant
            i <= COMPLETION_WORDS,
            text@ == completion_text(input@),
            pred == (|w: Seq<u8>| is_prefix(completion_text(input@), w)),
            words == completion_words(),
            out@.map_values(|v: Vec<u8>| v@) == words.subrange(0, i as int).filter(pred),
        decreases COMPLETION_WORDS - i,
    {
        let w = completion_word_str(i);
        let wb = w.as_bytes();
        proof {
            assert(wb@ == words[i as int]);
            let s = words.subrange(0, i as int + 1);
            assert(s.drop_last() =~= words.subrange(0, i as int));
            reveal_with_fuel(Seq::filter, 1);
        }
        if prefix_of(text, wb) {
            let ghost before = out@.map_values(|v: Vec<u8>| v@);
            out.push(vstd::slice::slice_to_vec(wb));
            proof {
                assert(out@.map_values(|v: Vec<u8>| v@) =~= before.push(words[i as int]));
            }
        }
        i = i + 1;
    }
    proof {
        assert(words.subrange(0, COMPLETION_WORDS as int) =~= words);
    }
    out
}

/// Handles one key on the terminal line: a byte is appended while the line
/// is shorter than `MAX_INPUT`; backspace drops the last byte; up and down
/// walk the history; tab completes a name when exactly one matches and
/// lists them when several do; enter hands the line over, remembering it
/// when it is not empty.
pub fn terminal_key(state: &mut TerminalState, key: KeyEvent) -> (action: TerminalAction)
    requires
        old(state).wf(),
    ensures
        final(state).wf(),
        ({
            let h = old(state).lines();
            let line = old(state).input@;
            match key {
                KeyEvent::Up => if h.len() == 0 {
                    action is Nothing && *final(state) == *old(state)
                } else {
                    let k = up_position(h, old(state).position);
                    &&& final(state).position == Some(k as usize)
                    &&& final(state).input@ == h[k]
                    &&& final(state).lines() == h
                    &&& action matches TerminalAction::Replace(n, t) && n == line.len() && t@ == h[k]
                },
                KeyEvent::Down => match old(state).position {
                    None => action is Nothing && *final(state) == *old(state),
                    Some(p) => {
                        &&& final(state).lines() == h
                        &&& p + 1 < h.len() ==> final(state).position == Some((p + 1) as usize)
                            && final(state).input@ == h[p + 1]
                            && (action matches TerminalAction::Replace(n, t) && n == line.len() && t@ == h[p + 1])
                        &&& p + 1 >= h.len() ==> final(state).position is None && final(state).input@.len() == 0
                            && (action matches TerminalAction::Replace(n, t) && n == line.len() && t@.len() == 0)
                    },
                },
                KeyEvent::Backspace => if line.len() == 0 {
                    action is Nothing && *final(state) == *old(state)
                } else {
                    action is Erase && final(state).input@ == line.drop_last() && final(state).lines() == h
                        && final(state).position == old(state).position
                },
                KeyEvent::Char(b) => if b == 10u8 {
                    &&& (action matches TerminalAction::Run(l) && l@ == line)
                    &&& final(state).input@.len() == 0
                    &&& line.len() > 0 ==> final(state).lines() == history_after(h, line) && final(state).position is None
                    &&& line.len() == 0 ==> final(state).lines() == h && final(state).position == old(state).position
                } else if b == 9u8 {
                    let c = completions(line);
                    &&& final(state).lines() == h
                    &&& final(state).position == old(state).position
                    &&& c.len() == 1 ==> final(state).input@ == c[0]
                        && (action matches TerminalAction::Replace(n, t) && n == line.len() && t@ == c[0])
                    &&& c.len() > 1 ==> final(state).input@ == line
                        && (action matches TerminalAction::ShowMatches(m) && m@.map_values(|v: Vec<u8>| v@) == c)
                    &&& c.len() == 0 ==> action is Nothing && final(state).input@ == line
                } else if line.len() < MAX_INPUT {
                    action == TerminalAction::Echo(b) && final(state).input@ == line.push(b)
                        && final(state).lines() == h && final(state).position == old(state).position
                } else {
                    action is Nothing && *final(state) == *old(state)
                },
            }
        }),
{
    match key {
        KeyEvent::Up => {
            let n = state.history.len();
            if n == 0 {
                return TerminalAction::Nothing;
            }
            let k: usize = match state.position {
                None => n - 1,
                Some(p) => if p > 0 { p - 1 } else { 0 },
            };
            let erased = state.input.len();
            state.position = Some(k);
            state.input = vstd::slice::slice_to_vec(state.history[k].as_slice());
            TerminalAction::Replace(erased, vstd::slice::slice_to_vec(state.input.as_slice()))
        },
        KeyEvent::Down => {
            let p = match state.position {
                None => return TerminalAction::Nothing,
                Some(p) => p,
            };
            let erased = state.input.len();
            if p + 1 < state.history.len() {
                state.position = Some(p + 1);
                state.input = vstd::slice::slice_to_vec(state.history[p + 1].as_slice());
                TerminalAction::Replace(erased, vstd::slice::slice_to_vec(state.input.as_slice()))
            } else {
                state.position = None;
                state.input = Vec::new();
                TerminalAction::Replace(erased, Vec::new())
            }
        },
        KeyEvent::Backspace => {
            if state.input.len() == 0 {
                return TerminalAction::Nothing;
            }
            state.input.pop();
            TerminalAction::Erase
        },
        KeyEvent::Char(b) => {
            if b == 10u8 {
                let line = vstd::slice::slice_to_vec(state.input.as_slice());
                if state.input.len() > 0 {
                    let ghost h0 = state.lines();
                    let entry = vstd::slice::slice_to_vec(state.input.as_slice());
                    if state.history.len() < HISTORY_SLOTS {
                        state.history.push(entry);
                        proof {
                            assert(state.lines() =~= h0.push(line@));
                        }
                    } else {
                        state.history.set(0, entry);
                        proof {
                            assert(state.lines() =~= h0.update(0, line@));
                        }
                    }
                    state.position = None;
                }
                state.input = Vec::new();
                TerminalAction::Run(line)
            } else if b == 9u8 {
                let c = completions_of(state.input.as_slice());
                if c.len() == 1 {
                    let erased = state.input.len();
                    proof {
                        assert(c@[0]@ == c@.map_values(|v: Vec<u8>| v@)[0]);
                    }
                    state.input = vstd::slice::slice_to_vec(c[0].as_slice());
                    TerminalAction::Replace(erased, vstd::slice::slice_to_vec(c[0].as_slice()))
                } else if c.len() > 1 {
                    TerminalAction::ShowMatches(c)
                } else {
                    TerminalAction::Nothing
                }
            } else if state.input.len() < MAX_INPUT {
                state.input.push(b);
                TerminalAction::Echo(b)
            } else {
                TerminalAction::Nothing
            }
        },
    }
}

/// A letter key pressed at the terminal is the letter printed on it: the
/// byte of the lower-case letter with Shift up, of the upper-case one with
/// Shift down.
pub proof fn law_letter_key_events(row: int, i: int)
    requires
        0 <= row < 3,
        0 <= i < letter_row(row).len(),
    ensures
        key_of((row_start(row) + i) as u8, false) == Some(KeyEvent::Char(letter_row(row)[i] as u32 as u8)),
        key_of((row_start(row) + i) as u8, true) == Some(KeyEvent::Char((letter_row(row)[i] as u32 - 32) as u8)),
{
    law_letter_keys(row, i);
    let sc = (row_start(row) + i) as u8;
    assert(0x10 <= sc <= 0x32 && sc != 0x0E);
    assert(special_key_of(sc) is None);
}

/// A character key pressed at the terminal is the byte of what is printed
/// on it: the lower symbol with Shift up, the upper with Shift down.
pub proof fn law_key_row_events(row: int, i: int)
    requires
        0 <= row < 4,
        0 <= i < key_row(row).len(),
    ensures
        key_of((key_row_start(row) + i) as u8, false) == Some(KeyEvent::Char(key_row(row)[i] as u32 as u8)),
        key_of((key_row_start(row) + i) as u8, true) == Some(KeyEvent::Char(shifted_key_row(row)[i] as u32 as u8)),
{
    law_key_rows(row, i);
    let sc = (key_row_start(row) + i) as u8;
    assert(0x02 <= sc <= 0x35 && sc != 0x0E);
    assert(special_key_of(sc) is None);
}

/// Trimming a word that neither begins nor ends with white space leaves it.
proof fn lemma_trim_word(w: Seq<char>)
    requires
        w.len() > 0,
        !is_ws(w[0]),
        !is_ws(w.last()),
    ensures
        trim(w) == w,
{
}

/// Every name tab completion offers is a command the shell runs: typed
/// alone, or, for the commands that need an operand, followed by one.
#[verifier::rlimit(100)]
pub proof fn law_completions_are_commands(i: int)
    requires
        0 <= i < COMPLETION_WORDS,
    ensures
        cmd_kind(completion_word(i)) != CommandKind::NotFound
            || cmd_kind(completion_word(i) + " x"@) != CommandKind::NotFound,
{
    reveal_strlit("clear");
    reveal_strlit("exit");
    reveal_strlit("exec");
    reveal_strlit("exec ");
    reveal_strlit("dufetch");
    reveal_strlit("pwd");
    reveal_strlit("ls");
    reveal_strlit("ls ");
    reveal_strlit("cd");
    reveal_strlit("cd ");
    reveal_strlit("mkdir ");
    reveal_strlit("touch ");
    reveal_strlit("cat ");
    reveal_strlit("rm ");
    reveal_strlit("tree");
    reveal_strlit("tree ");
    reveal_strlit("echo");
    reveal_strlit("echo ");
    reveal_strlit("help");
    reveal_strlit("uname");
    reveal_strlit("uname -a");
    reveal_strlit("date");
    reveal_strlit("whoami");
    reveal_strlit("uptime");
    reveal_strlit("free");
    reveal_strlit("ps");
    reveal_strlit("ps aux");
    reveal_strlit("lspci");
    reveal_strlit("devs");
    reveal_strlit("blk");
    reveal_strlit("usb");
    reveal_strlit("top");
    reveal_strlit("poweroff");
    reveal_strlit("shutdown");
    reveal_strlit("blkread");
    reveal_strlit("blkread ");
    reveal_strlit(" x");
    reveal_strlit("mkdir");
    reveal_strlit("touch");
    reveal_strlit("cat");
    if i == 0 {
        lemma_trim_word("help"@);
        assert(cmd_kind("help"@) != CommandKind::NotFound);
    } else if i == 1 {
        lemma_trim_word("dufetch"@);
        assert(cmd_kind("dufetch"@) != CommandKind::NotFound);
    } else if i == 2 {
        lemma_trim_word("ls"@);
        assert(cmd_kind("ls"@) != CommandKind::NotFound);
    } else if i == 3 {
        lemma_trim_word("pwd"@);
        assert(cmd_kind("pwd"@) != CommandKind::NotFound);
    } else if i == 4 {
        lemma_trim_word("cd"@);
        assert(cmd_kind("cd"@) != CommandKind::NotFound);
    } else if i == 5 {
        let t = "mkdir"@ + " x"@;
        assert(t =~= seq!['m', 'k', 'd', 'i', 'r', ' ', 'x']);
        lemma_trim_word(t);
        assert(t.take(6) =~= "mkdir "@);
        assert(cmd_kind(t) != CommandKind::NotFound);
    } else if i == 6 {
        let t = "touch"@ + " x"@;
        assert(t =~= seq!['t', 'o', 'u', 'c', 'h', ' ', 'x']);
        lemma_trim_word(t);
        assert(t.take(6) =~= "touch "@);
        assert(cmd_kind(t) != CommandKind::NotFound);
    } else if i == 7 {
        let t = "cat"@ + " x"@;
        assert(t =~= seq!['c', 'a', 't', ' ', 'x']);
        lemma_trim_word(t);
        assert(t.take(4) =~= "cat "@);
        assert(cmd_kind(t) != CommandKind::NotFound);
    } else if i == 8 {
        lemma_trim_word("echo"@);
        assert(cmd_kind("echo"@) != CommandKind::NotFound);
    } else if i == 9 {
        lemma_trim_word("exec"@);
        assert(cmd_kind("exec"@) != CommandKind::NotFound);
    } else if i == 10 {
        lemma_trim_word("ps"@);
        assert(cmd_kind("ps"@) != CommandKind::NotFound);
    } else if i == 11 {
        lemma_trim_word("top"@);
        assert(cmd_kind("top"@) != CommandKind::NotFound);
    } else if i == 12 {
        lemma_trim_word("uname"@);
        assert(cmd_kind("uname"@) != CommandKind::NotFound);
    } else if i == 13 {
        lemma_trim_word("date"@);
        assert(cmd_kind("date"@) != CommandKind::NotFound);
    } else if i == 14 {
        lemma_trim_word("whoami"@);
        assert(cmd_kind("whoami"@) != CommandKind::NotFound);
    } else if i == 15 {
        lemma_trim_word("uptime"@);
        assert(cmd_kind("uptime"@) != CommandKind::NotFound);
    } else if i == 16 {
        lemma_trim_word("free"@);
        assert(cmd_kind("free"@) != CommandKind::NotFound);
    } else if i == 17 {
        lemma_trim_word("exit"@);
        assert(cmd_kind("exit"@) != CommandKind::NotFound);
    } else if i == 18 {
        lemma_trim_word("poweroff"@);
        assert(cmd_kind("poweroff"@) != CommandKind::NotFound);
    } else if i == 19 {
        lemma_trim_word("shutdown"@);
        assert(cmd_kind("shutdown"@) != CommandKind::NotFound);
    }
}

} // verus!
