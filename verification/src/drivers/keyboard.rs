//! PS/2 set-1 keyboard decoding: a scancode ring fed by the interrupt handler,
//! modifier tracking and the US layout.
use vstd::prelude::*;

verus! {

/// Capacity of the scancode ring; one slot stays free to tell full from empty.
pub const SCANCODE_BUFFER_LEN: usize = 64;

/// The ring of raw scancodes and the modifier keys currently held.
pub struct KeyboardState {
    pub buffer: [u8; 64],
    pub read: usize,
    pub write: usize,
    pub shift_down: bool,
    pub ctrl_down: bool,
    pub alt_down: bool,
    pub super_down: bool,
    /// The previous byte was the `0xE0` extension prefix.
    pub ext_pending: bool,
}

/// Cursor keys decoded from their scancodes.
#[derive(Debug, Clone, Copy, PartialEq, Eq, Structural)]
pub enum SpecialKey {
    UpArrow,
    DownArrow,
    LeftArrow,
    RightArrow,
}

impl KeyboardState {
    /// Both cursors inside the ring.
    pub open spec fn wf(&self) -> bool {
        &&& self.read < 64
        &&& self.write < 64
    }

    /// Number of scancodes waiting in the ring.
    pub open spec fn pending_len(&self) -> int {
        (self.write - self.read + 64) % 64
    }

    /// The scancodes waiting in the ring, oldest first.
    pub open spec fn pending(&self) -> Seq<u8> {
        Seq::new(self.pending_len() as nat, |i: int| self.buffer@[(self.read + i) % 64])
    }

    /// An empty ring with no modifier held.
    pub fn new() -> (kb: Self)
        ensures
            kb.wf(),
            kb.pending().len() == 0,
            !kb.shift_down && !kb.ctrl_down && !kb.alt_down && !kb.super_down && !kb.ext_pending,
    {
        KeyboardState {
            buffer: [0u8; 64],
            read: 0,
            write: 0,
            shift_down: false,
            ctrl_down: false,
            alt_down: false,
            super_down: false,
            ext_pending: false,
        }
    }
}

/// The modifier flags (shift, ctrl, alt, super, extension prefix pending)
/// after the interrupt handler has seen `scancode`. Super only comes as an
/// extended code, so its make and break codes count only after `0xE0`.
pub open spec fn modifiers_after(kb: KeyboardState, scancode: u8) -> (bool, bool, bool, bool, bool) {
    let ext = kb.ext_pending;
    let s = kb.shift_down;
    let c = kb.ctrl_down;
    let a = kb.alt_down;
    let g = kb.super_down;
    if scancode == 0xE0 {
        (s, c, a, g, true)
    } else if scancode == 0x2A || scancode == 0x36 {
        (true, c, a, g, false)
    } else if scancode == 0xAA || scancode == 0xB6 {
        (false, c, a, g, false)
    } else if scancode == 0x1D {
        (s, true, a, g, false)
    } else if scancode == 0x9D {
        (s, false, a, g, false)
    } else if scancode == 0x38 {
        (s, c, true, g, false)
    } else if scancode == 0xB8 {
        (s, c, false, g, false)
    } else if (scancode == 0x5B || scancode == 0x5C) && ext {
        (s, c, a, true, false)
    } else if (scancode == 0xDB || scancode == 0xDC) && ext {
        (s, c, a, false, false)
    } else {
        (s, c, a, g, false)
    }
}

fn update_modifiers(kb: &mut KeyboardState, scancode: u8)
    ensures
        (final(kb).shift_down, final(kb).ctrl_down, final(kb).alt_down, final(kb).super_down,
            final(kb).ext_pending) == modifiers_after(*old(kb), scancode),
        final(kb).buffer == old(kb).buffer,
        final(kb).read == old(kb).read,
        final(kb).write == old(kb).write,
{
    let ext = kb.ext_pending;
    kb.ext_pending = false;
    if scancode == 0xE0 {
        kb.ext_pending = true;
    } else if scancode == 0x2A || scancode == 0x36 {
        kb.shift_down = true;
    } else if scancode == 0xAA || scancode == 0xB6 {
        kb.shift_down = false;
    } else if scancode == 0x1D {
        kb.ctrl_down = true;
    } else if scancode == 0x9D {
        kb.ctrl_down = false;
    } else if scancode == 0x38 {
        kb.alt_down = true;
    } else if scancode == 0xB8 {
        kb.alt_down = false;
    } else if (scancode == 0x5B || scancode == 0x5C) && ext {
        kb.super_down = true;
    } else if (scancode == 0xDB || scancode == 0xDC) && ext {
        kb.super_down = false;
    }
}

fn ring_push(kb: &mut KeyboardState, scancode: u8)
    requires
        old(kb).wf(),
    ensures
        final(kb).wf(),
        old(kb).pending_len() < 63 ==> final(kb).pending() == old(kb).pending().push(scancode),
        old(kb).pending_len() >= 63 ==> final(kb).pending() == old(kb).pending(),
        final(kb).shift_down == old(kb).shift_down,
        final(kb).ctrl_down == old(kb).ctrl_down,
        final(kb).alt_down == old(kb).alt_down,
        final(kb).super_down == old(kb).super_down,
        final(kb).ext_pending == old(kb).ext_pending,
{
    let ghost before = kb.pending();
    let next_write = (kb.write + 1) % SCANCODE_BUFFER_LEN;
    if next_write != kb.read {
        let index = kb.write;
        kb.buffer[index] = scancode;
        kb.write = next_write;
        assert(kb.pending() =~= before.push(scancode));
    } else {
        assert(kb.pending() =~= before);
    }
}

/// Records one scancode from the interrupt handler: updates the modifier
/// flags and appends the byte to the ring unless the ring is full (then the
/// byte is dropped).
pub fn push_scancode(kb: &mut KeyboardState, scancode: u8)
    requires
        old(kb).wf(),
    ensures
        final(kb).wf(),
        (final(kb).shift_down, final(kb).ctrl_down, final(kb).alt_down, final(kb).super_down,
            final(kb).ext_pending) == modifiers_after(*old(kb), scancode),
        old(kb).pending_len() < 63 ==> final(kb).pending() == old(kb).pending().push(scancode),
        old(kb).pending_len() >= 63 ==> final(kb).pending() == old(kb).pending(),
{
    update_modifiers(kb, scancode);
    ring_push(kb, scancode);
}

/// Takes the oldest scancode from the ring, if any.
pub fn read_scancode(kb: &mut KeyboardState) -> (r: Option<u8>)
    requires
        old(kb).wf(),
    ensures
        final(kb).wf(),
        old(kb).pending().len() == 0 ==> r.is_none() && *final(kb) == *old(kb),
        old(kb).pending().len() > 0 ==> r == Some(old(kb).pending()[0])
            && final(kb).pending() == old(kb).pending().drop_first(),
        final(kb).shift_down == old(kb).shift_down,
        final(kb).ctrl_down == old(kb).ctrl_down,
        final(kb).alt_down == old(kb).alt_down,
        final(kb).super_down == old(kb).super_down,
        final(kb).ext_pending == old(kb).ext_pending,
{
    if kb.read != kb.write {
        let ghost before = kb.pending();
        let index = kb.read;
        let scancode = kb.buffer[index];
        kb.read = (index + 1) % SCANCODE_BUFFER_LEN;
        assert(kb.pending() =~= before.drop_first());
        Some(scancode)
    } else {
        None
    }
}

/// The modifier mask: bit 0 Shift, bit 1 Ctrl, bit 2 Alt, bit 3 Super.
pub open spec fn modifier_mask_of(shift: bool, ctrl: bool, alt: bool, sup: bool) -> int {
    (if shift { 1int } else { 0 }) + (if ctrl { 2int } else { 0 }) + (if alt { 4int } else { 0 })
        + (if sup { 8int } else { 0 })
}

/// The modifier keys held right now, as a bit mask.
pub fn modifier_mask(kb: &KeyboardState) -> (m: u8)
    ensures
        m == modifier_mask_of(kb.shift_down, kb.ctrl_down, kb.alt_down, kb.super_down),
{
    let mut m: u8 = 0;
    if kb.shift_down {
        m = m + 1;
    }
    if kb.ctrl_down {
        m = m + 2;
    }
    if kb.alt_down {
        m = m + 4;
    }
    if kb.super_down {
        m = m + 8;
    }
    m
}

/// The cursor key that `scancode` presses, if it is one.
pub open spec fn special_key_of(scancode: u8) -> Option<SpecialKey> {
    if scancode == 0x48 {
        Some(SpecialKey::UpArrow)
    } else if scancode == 0x50 {
        Some(SpecialKey::DownArrow)
    } else if scancode == 0x4B {
        Some(SpecialKey::LeftArrow)
    } else if scancode == 0x4D {
        Some(SpecialKey::RightArrow)
    } else {
        None
    }
}

/// Decodes the cursor keys.
pub fn scancode_to_special_key(scancode: u8) -> (k: Option<SpecialKey>)
    ensures
        k == special_key_of(scancode),
{
    if scancode == 0x48 {
        Some(SpecialKey::UpArrow)
    } else if scancode == 0x50 {
        Some(SpecialKey::DownArrow)
    } else if scancode == 0x4B {
        Some(SpecialKey::LeftArrow)
    } else if scancode == 0x4D {
        Some(SpecialKey::RightArrow)
    } else {
        None
    }
}

/// The US layout: for each make code that types something, the character
/// without and with Shift.
pub open spec fn us_layout(scancode: u8) -> Option<(char, char)> {
    match scancode {
        0x02 => Some(('1', '!')),
        0x03 => Some(('2', '@')),
        0x04 => Some(('3', '#')),
        0x05 => Some(('4', '$')),
        0x06 => Some(('5', '%')),
        0x07 => Some(('6', '^')),
        0x08 => Some(('7', '&')),
        0x09 => Some(('8', '*')),
        0x0A => Some(('9', '(')),
        0x0B => Some(('0', ')')),
        0x0C => Some(('-', '_')),
        0x0D => Some(('=', '+')),
        0x10 => Some(('q', 'Q')),
        0x11 => Some(('w', 'W')),
        0x12 => Some(('e', 'E')),
        0x13 => Some(('r', 'R')),
        0x14 => Some(('t', 'T')),
        0x15 => Some(('y', 'Y')),
        0x16 => Some(('u', 'U')),
        0x17 => Some(('i', 'I')),
        0x18 => Some(('o', 'O')),
        0x19 => Some(('p', 'P')),
        0x1A => Some(('[', '{')),
        0x1B => Some((']', '}')),
        0x1E => Some(('a', 'A')),
        0x1F => Some(('s', 'S')),
        0x20 => Some(('d', 'D')),
        0x21 => Some(('f', 'F')),
        0x22 => Some(('g', 'G')),
        0x23 => Some(('h', 'H')),
        0x24 => Some(('j', 'J')),
        0x25 => Some(('k', 'K')),
        0x26 => Some(('l', 'L')),
        0x27 => Some((';', ':')),
        0x28 => Some(('\'', '"')),
        0x2B => Some(('\\', '|')),
        0x2C => Some(('z', 'Z')),
        0x2D => Some(('x', 'X')),
        0x2E => Some(('c', 'C')),
        0x2F => Some(('v', 'V')),
        0x30 => Some(('b', 'B')),
        0x31 => Some(('n', 'N')),
        0x32 => Some(('m', 'M')),
        0x33 => Some((',', '<')),
        0x34 => Some(('.', '>')),
        0x35 => Some(('/', '?')),
        0x39 => Some((' ', ' ')),
        0x1C => Some(('\n', '\n')),
        0x0F => Some(('\t', '\t')),
        _ => None,
    }
}

/// The character that a make code types with Shift up or down.
pub open spec fn char_of(scancode: u8, shifted: bool) -> Option<char> {
    match us_layout(scancode) {
        Some(pair) => Some(if shifted { pair.1 } else { pair.0 }),
        None => None,
    }
}

fn layout_entry(scancode: u8) -> (r: Option<(char, char)>)
    ensures
        r == us_layout(scancode),
{
    match scancode {
        0x02 => Some(('1', '!')),
        0x03 => Some(('2', '@')),
        0x04 => Some(('3', '#')),
        0x05 => Some(('4', '$')),
        0x06 => Some(('5', '%')),
        0x07 => Some(('6', '^')),
        0x08 => Some(('7', '&')),
        0x09 => Some(('8', '*')),
        0x0A => Some(('9', '(')),
        0x0B => Some(('0', ')')),
        0x0C => Some(('-', '_')),
        0x0D => Some(('=', '+')),
        0x10 => Some(('q', 'Q')),
        0x11 => Some(('w', 'W')),
        0x12 => Some(('e', 'E')),
        0x13 => Some(('r', 'R')),
        0x14 => Some(('t', 'T')),
        0x15 => Some(('y', 'Y')),
        0x16 => Some(('u', 'U')),
        0x17 => Some(('i', 'I')),
        0x18 => Some(('o', 'O')),
        0x19 => Some(('p', 'P')),
        0x1A => Some(('[', '{')),
        0x1B => Some((']', '}')),
        0x1E => Some(('a', 'A')),
        0x1F => Some(('s', 'S')),
        0x20 => Some(('d', 'D')),
        0x21 => Some(('f', 'F')),
        0x22 => Some(('g', 'G')),
        0x23 => Some(('h', 'H')),
        0x24 => Some(('j', 'J')),
        0x25 => Some(('k', 'K')),
        0x26 => Some(('l', 'L')),
        0x27 => Some((';', ':')),
        0x28 => Some(('\'', '"')),
        0x2B => Some(('\\', '|')),
        0x2C => Some(('z', 'Z')),
        0x2D => Some(('x', 'X')),
        0x2E => Some(('c', 'C')),
        0x2F => Some(('v', 'V')),
        0x30 => Some(('b', 'B')),
        0x31 => Some(('n', 'N')),
        0x32 => Some(('m', 'M')),
        0x33 => Some((',', '<')),
        0x34 => Some(('.', '>')),
        0x35 => Some(('/', '?')),
        0x39 => Some((' ', ' ')),
        0x1C => Some(('\n', '\n')),
        0x0F => Some(('\t', '\t')),
        _ => None,
    }
}

/// Translates a make code to the character it types under the current Shift
/// state; `None` for keys that type nothing.
pub fn scancode_to_char(kb: &KeyboardState, scancode: u8) -> (c: Option<char>)
    ensures
        c == char_of(scancode, kb.shift_down),
{
    let shifted = kb.shift_down;
    match layout_entry(scancode) {
        Some(pair) => Some(if shifted { pair.1 } else { pair.0 }),
        None => None,
    }
}

/// The letters of the three letter rows of a US keyboard, left to right,
/// top row first.
pub open spec fn letter_row(row: int) -> Seq<char> {
    if row == 0 { seq!['q', 'w', 'e', 'r', 't', 'y', 'u', 'i', 'o', 'p'] } else if row == 1 { seq!['a', 's', 'd', 'f', 'g', 'h', 'j', 'k', 'l'] } else { seq!['z', 'x', 'c', 'v', 'b', 'n', 'm'] }
}

/// The make code of the leftmost letter key of each row.
pub open spec fn row_start(row: int) -> int {
    if row == 0 { 0x10 } else if row == 1 { 0x1E } else { 0x2C }
}

/// Each letter key types the letter printed on it: along each row the make
/// codes count up from the leftmost key, and a letter key types its letter
/// in lower case with Shift up and the same letter in upper case (32 code
/// points lower) with Shift down.
pub proof fn law_letter_keys(row: int, i: int)
    requires
        0 <= row < 3,
        0 <= i < letter_row(row).len(),
    ensures
        char_of((row_start(row) + i) as u8, false) == Some(letter_row(row)[i]),
        char_of((row_start(row) + i) as u8, true) matches Some(c) && c as u32 + 32 == letter_row(row)[i] as u32,
{
    if row == 0 {
        if i == 0 {
            assert(letter_row(row)[i] == 'q');
        } else if i == 1 {
            assert(letter_row(row)[i] == 'w');
        } else if i == 2 {
            assert(letter_row(row)[i] == 'e');
        } else if i == 3 {
            assert(letter_row(row)[i] == 'r');
        } else if i == 4 {
            assert(letter_row(row)[i] == 't');
        } else if i == 5 {
            assert(letter_row(row)[i] == 'y');
        } else if i == 6 {
            assert(letter_row(row)[i] == 'u');
        } else if i == 7 {
            assert(letter_row(row)[i] == 'i');
        } else if i == 8 {
            assert(letter_row(row)[i] == 'o');
        } else if i == 9 {
            assert(letter_row(row)[i] == 'p');
        }
    } else if row == 1 {
        if i == 0 {
            assert(letter_row(row)[i] == 'a');
        } else if i == 1 {
            assert(letter_row(row)[i] == 's');
        } else if i == 2 {
            assert(letter_row(row)[i] == 'd');
        } else if i == 3 {
            assert(letter_row(row)[i] == 'f');
        } else if i == 4 {
            assert(letter_row(row)[i] == 'g');
        } else if i == 5 {
            assert(letter_row(row)[i] == 'h');
        } else if i == 6 {
            assert(letter_row(row)[i] == 'j');
        } else if i == 7 {
            assert(letter_row(row)[i] == 'k');
        } else if i == 8 {
            assert(letter_row(row)[i] == 'l');
        }
    } else if row == 2 {
        if i == 0 {
            assert(letter_row(row)[i] == 'z');
        } else if i == 1 {
            assert(letter_row(row)[i] == 'x');
        } else if i == 2 {
            assert(letter_row(row)[i] == 'c');
        } else if i == 3 {
            assert(letter_row(row)[i] == 'v');
        } else if i == 4 {
            assert(letter_row(row)[i] == 'b');
        } else if i == 5 {
            assert(letter_row(row)[i] == 'n');
        } else if i == 6 {
            assert(letter_row(row)[i] == 'm');
        }
    }
}

/// The four rows of character keys of a US keyboard, left to right, top
/// row first, as they type with Shift up.
pub open spec fn key_row(row: int) -> Seq<char> {
    if row == 0 { seq!['1', '2', '3', '4', '5', '6', '7', '8', '9', '0', '-', '='] } else if row == 1 { seq!['q', 'w', 'e', 'r', 't', 'y', 'u', 'i', 'o', 'p', '[', ']'] } else if row == 2 { seq!['a', 's', 'd', 'f', 'g', 'h', 'j', 'k', 'l', ';', '\''] } else { seq!['z', 'x', 'c', 'v', 'b', 'n', 'm', ',', '.', '/'] }
}

/// The same rows as they type with Shift down.
pub open spec fn shifted_key_row(row: int) -> Seq<char> {
    if row == 0 { seq!['!', '@', '#', '$', '%', '^', '&', '*', '(', ')', '_', '+'] } else if row == 1 { seq!['Q', 'W', 'E', 'R', 'T', 'Y', 'U', 'I', 'O', 'P', '{', '}'] } else if row == 2 { seq!['A', 'S', 'D', 'F', 'G', 'H', 'J', 'K', 'L', ':', '"'] } else { seq!['Z', 'X', 'C', 'V', 'B', 'N', 'M', '<', '>', '?'] }
}

/// The make code of the leftmost key of each character row.
pub open spec fn key_row_start(row: int) -> int {
    if row == 0 { 0x02 } else if row == 1 { 0x10 } else if row == 2 { 0x1E } else { 0x2C }
}

/// Each character key types what is printed on it: along each row the make
/// codes count up from the leftmost key, which types the row's characters
/// in order, the lower symbol with Shift up and the upper with Shift down.
pub proof fn law_key_rows(row: int, i: int)
    requires
        0 <= row < 4,
        0 <= i < key_row(row).len(),
    ensures
        key_row(row).len() == shifted_key_row(row).len(),
        char_of((key_row_start(row) + i) as u8, false) == Some(key_row(row)[i]),
        char_of((key_row_start(row) + i) as u8, true) == Some(shifted_key_row(row)[i]),
{
    if row == 0 {
        if i == 0 {
            assert(key_row(row)[i] == '1' && shifted_key_row(row)[i] == '!');
        } else if i == 1 {
            assert(key_row(row)[i] == '2' && shifted_key_row(row)[i] == '@');
        } else if i == 2 {
            assert(key_row(row)[i] == '3' && shifted_key_row(row)[i] == '#');
        } else if i == 3 {
            assert(key_row(row)[i] == '4' && shifted_key_row(row)[i] == '$');
        } else if i == 4 {
            assert(key_row(row)[i] == '5' && shifted_key_row(row)[i] == '%');
        } else if i == 5 {
            assert(key_row(row)[i] == '6' && shifted_key_row(row)[i] == '^');
        } else if i == 6 {
            assert(key_row(row)[i] == '7' && shifted_key_row(row)[i] == '&');
        } else if i == 7 {
            assert(key_row(row)[i] == '8' && shifted_key_row(row)[i] == '*');
        } else if i == 8 {
            assert(key_row(row)[i] == '9' && shifted_key_row(row)[i] == '(');
        } else if i == 9 {
            assert(key_row(row)[i] == '0' && shifted_key_row(row)[i] == ')');
        } else if i == 10 {
            assert(key_row(row)[i] == '-' && shifted_key_row(row)[i] == '_');
        } else if i == 11 {
            assert(key_row(row)[i] == '=' && shifted_key_row(row)[i] == '+');
        }
    } else if row == 1 {
        if i == 0 {
            assert(key_row(row)[i] == 'q' && shifted_key_row(row)[i] == 'Q');
        } else if i == 1 {
            assert(key_row(row)[i] == 'w' && shifted_key_row(row)[i] == 'W');
        } else if i == 2 {
            assert(key_row(row)[i] == 'e' && shifted_key_row(row)[i] == 'E');
        } else if i == 3 {
            assert(key_row(row)[i] == 'r' && shifted_key_row(row)[i] == 'R');
        } else if i == 4 {
            assert(key_row(row)[i] == 't' && shifted_key_row(row)[i] == 'T');
        } else if i == 5 {
            assert(key_row(row)[i] == 'y' && shifted_key_row(row)[i] == 'Y');
        } else if i == 6 {
            assert(key_row(row)[i] == 'u' && shifted_key_row(row)[i] == 'U');
        } else if i == 7 {
            assert(key_row(row)[i] == 'i' && shifted_key_row(row)[i] == 'I');
        } else if i == 8 {
            assert(key_row(row)[i] == 'o' && shifted_key_row(row)[i] == 'O');
        } else if i == 9 {
            assert(key_row(row)[i] == 'p' && shifted_key_row(row)[i] == 'P');
        } else if i == 10 {
            assert(key_row(row)[i] == '[' && shifted_key_row(row)[i] == '{');
        } else if i == 11 {
            assert(key_row(row)[i] == ']' && shifted_key_row(row)[i] == '}');
        }
    } else if row == 2 {
        if i == 0 {
            assert(key_row(row)[i] == 'a' && shifted_key_row(row)[i] == 'A');
        } else if i == 1 {
            assert(key_row(row)[i] == 's' && shifted_key_row(row)[i] == 'S');
        } else if i == 2 {
            assert(key_row(row)[i] == 'd' && shifted_key_row(row)[i] == 'D');
        } else if i == 3 {
            assert(key_row(row)[i] == 'f' && shifted_key_row(row)[i] == 'F');
        } else if i == 4 {
            assert(key_row(row)[i] == 'g' && shifted_key_row(row)[i] == 'G');
        } else if i == 5 {
            assert(key_row(row)[i] == 'h' && shifted_key_row(row)[i] == 'H');
        } else if i == 6 {
            assert(key_row(row)[i] == 'j' && shifted_key_row(row)[i] == 'J');
        } else if i == 7 {
            assert(key_row(row)[i] == 'k' && shifted_key_row(row)[i] == 'K');
        } else if i == 8 {
            assert(key_row(row)[i] == 'l' && shifted_key_row(row)[i] == 'L');
        } else if i == 9 {
            assert(key_row(row)[i] == ';' && shifted_key_row(row)[i] == ':');
        } else if i == 10 {
            assert(key_row(row)[i] == '\'' && shifted_key_row(row)[i] == '"');
        }
    } else if row == 3 {
        if i == 0 {
            assert(key_row(row)[i] == 'z' && shifted_key_row(row)[i] == 'Z');
        } else if i == 1 {
            assert(key_row(row)[i] == 'x' && shifted_key_row(row)[i] == 'X');
        } else if i == 2 {
            assert(key_row(row)[i] == 'c' && shifted_key_row(row)[i] == 'C');
        } else if i == 3 {
            assert(key_row(row)[i] == 'v' && shifted_key_row(row)[i] == 'V');
        } else if i == 4 {
            assert(key_row(row)[i] == 'b' && shifted_key_row(row)[i] == 'B');
        } else if i == 5 {
            assert(key_row(row)[i] == 'n' && shifted_key_row(row)[i] == 'N');
        } else if i == 6 {
            assert(key_row(row)[i] == 'm' && shifted_key_row(row)[i] == 'M');
        } else if i == 7 {
            assert(key_row(row)[i] == ',' && shifted_key_row(row)[i] == '<');
        } else if i == 8 {
            assert(key_row(row)[i] == '.' && shifted_key_row(row)[i] == '>');
        } else if i == 9 {
            assert(key_row(row)[i] == '/' && shifted_key_row(row)[i] == '?');
        }
    }
}

/// The keys off the character rows: the space bar types a space, Enter a
/// line feed, Tab a tab, whatever Shift does; the backslash key types `\`
/// and `|`.
pub proof fn law_other_keys(shifted: bool)
    ensures
        char_of(0x39, shifted) == Some(' '),
        char_of(0x1C, shifted) == Some('\n'),
        char_of(0x0F, shifted) == Some('\t'),
        char_of(0x2B, false) == Some('\\') && char_of(0x2B, true) == Some('|'),
{
}

} // verus!
