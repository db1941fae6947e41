//! Text drawing of the boot screen: the early log font and the status
//! lines, whose bracketed words are drawn in an accent colour.
use vstd::prelude::*;
use vstd::string::StringSliceAdditionalSpecFns;
use crate::gui::renderer::Framebuffer;

verus! {

/// The three boot-screen fonts: the early log, the status lines and the
/// error lines.
#[derive(Clone, Copy, PartialEq, Eq, Structural)]
pub enum BootFont {
    Log,
    Status,
    Error,
}

/// Colours and font of a status line: bracketed words in `accent`, the rest
/// in `plain`.
#[derive(Clone, Copy)]
pub struct TextScheme {
    pub accent: u32,
    pub plain: u32,
    pub font: BootFont,
}

/// The columns of the status-line glyph of `ch` (blank when it has none).
pub open spec fn status_glyph(ch: u8) -> Seq<u8> {
    match ch {
        65u8 => seq![0x7Cu8, 0x12u8, 0x11u8, 0x12u8, 0x7Cu8],
        66u8 => seq![0x7Fu8, 0x49u8, 0x49u8, 0x49u8, 0x36u8],
        67u8 => seq![0x3Eu8, 0x41u8, 0x41u8, 0x41u8, 0x22u8],
        68u8 => seq![0x7Fu8, 0x41u8, 0x41u8, 0x22u8, 0x1Cu8],
        69u8 => seq![0x7Fu8, 0x49u8, 0x49u8, 0x49u8, 0x41u8],
        70u8 => seq![0x7Fu8, 0x09u8, 0x09u8, 0x09u8, 0x01u8],
        71u8 => seq![0x3Eu8, 0x41u8, 0x49u8, 0x49u8, 0x7Au8],
        72u8 => seq![0x7Fu8, 0x08u8, 0x08u8, 0x08u8, 0x7Fu8],
        73u8 => seq![0x00u8, 0x41u8, 0x7Fu8, 0x41u8, 0x00u8],
        75u8 => seq![0x7Fu8, 0x08u8, 0x14u8, 0x22u8, 0x41u8],
        76u8 => seq![0x7Fu8, 0x40u8, 0x40u8, 0x40u8, 0x40u8],
        77u8 => seq![0x7Fu8, 0x02u8, 0x0Cu8, 0x02u8, 0x7Fu8],
        78u8 => seq![0x7Fu8, 0x04u8, 0x08u8, 0x10u8, 0x7Fu8],
        79u8 => seq![0x3Eu8, 0x41u8, 0x41u8, 0x41u8, 0x3Eu8],
        80u8 => seq![0x7Fu8, 0x09u8, 0x09u8, 0x09u8, 0x06u8],
        82u8 => seq![0x7Fu8, 0x09u8, 0x19u8, 0x29u8, 0x46u8],
        83u8 => seq![0x46u8, 0x49u8, 0x49u8, 0x49u8, 0x31u8],
        84u8 => seq![0x01u8, 0x01u8, 0x7Fu8, 0x01u8, 0x01u8],
        86u8 => seq![0x1Fu8, 0x20u8, 0x40u8, 0x20u8, 0x1Fu8],
        87u8 => seq![0x3Fu8, 0x40u8, 0x38u8, 0x40u8, 0x3Fu8],
        97u8 => seq![0x20u8, 0x54u8, 0x54u8, 0x54u8, 0x78u8],
        98u8 => seq![0x7Fu8, 0x48u8, 0x44u8, 0x44u8, 0x38u8],
        99u8 => seq![0x38u8, 0x44u8, 0x44u8, 0x44u8, 0x20u8],
        100u8 => seq![0x38u8, 0x44u8, 0x44u8, 0x48u8, 0x7Fu8],
        101u8 => seq![0x38u8, 0x54u8, 0x54u8, 0x54u8, 0x18u8],
        102u8 => seq![0x08u8, 0x7Eu8, 0x09u8, 0x01u8, 0x02u8],
        103u8 => seq![0x0Cu8, 0x52u8, 0x52u8, 0x52u8, 0x3Eu8],
        104u8 => seq![0x7Fu8, 0x08u8, 0x04u8, 0x04u8, 0x78u8],
        105u8 => seq![0x00u8, 0x44u8, 0x7Du8, 0x40u8, 0x00u8],
        107u8 => seq![0x7Fu8, 0x10u8, 0x28u8, 0x44u8, 0x00u8],
        108u8 => seq![0x00u8, 0x41u8, 0x7Fu8, 0x40u8, 0x00u8],
        109u8 => seq![0x7Cu8, 0x04u8, 0x18u8, 0x04u8, 0x78u8],
        110u8 => seq![0x7Cu8, 0x08u8, 0x04u8, 0x04u8, 0x78u8],
        111u8 => seq![0x38u8, 0x44u8, 0x44u8, 0x44u8, 0x38u8],
        112u8 => seq![0x7Cu8, 0x14u8, 0x14u8, 0x14u8, 0x08u8],
        114u8 => seq![0x7Cu8, 0x08u8, 0x04u8, 0x04u8, 0x08u8],
        115u8 => seq![0x48u8, 0x54u8, 0x54u8, 0x54u8, 0x20u8],
        116u8 => seq![0x04u8, 0x3Fu8, 0x44u8, 0x40u8, 0x20u8],
        117u8 => seq![0x3Cu8, 0x40u8, 0x40u8, 0x20u8, 0x7Cu8],
        118u8 => seq![0x1Cu8, 0x20u8, 0x40u8, 0x20u8, 0x1Cu8],
        119u8 => seq![0x3Cu8, 0x40u8, 0x30u8, 0x40u8, 0x3Cu8],
        121u8 => seq![0x0Cu8, 0x50u8, 0x50u8, 0x50u8, 0x3Cu8],
        122u8 => seq![0x44u8, 0x64u8, 0x54u8, 0x4Cu8, 0x44u8],
        48u8 => seq![0x3Eu8, 0x51u8, 0x49u8, 0x45u8, 0x3Eu8],
        49u8 => seq![0x00u8, 0x42u8, 0x7Fu8, 0x40u8, 0x00u8],
        50u8 => seq![0x42u8, 0x61u8, 0x51u8, 0x49u8, 0x46u8],
        51u8 => seq![0x21u8, 0x41u8, 0x45u8, 0x4Bu8, 0x31u8],
        52u8 => seq![0x18u8, 0x14u8, 0x12u8, 0x7Fu8, 0x10u8],
        53u8 => seq![0x27u8, 0x45u8, 0x45u8, 0x45u8, 0x39u8],
        54u8 => seq![0x3Cu8, 0x4Au8, 0x49u8, 0x49u8, 0x30u8],
        55u8 => seq![0x01u8, 0x71u8, 0x09u8, 0x05u8, 0x03u8],
        56u8 => seq![0x36u8, 0x49u8, 0x49u8, 0x49u8, 0x36u8],
        57u8 => seq![0x06u8, 0x49u8, 0x49u8, 0x29u8, 0x1Eu8],
        32u8 => seq![0x00u8, 0x00u8, 0x00u8, 0x00u8, 0x00u8],
        45u8 => seq![0x08u8, 0x08u8, 0x08u8, 0x08u8, 0x08u8],
        46u8 => seq![0x00u8, 0x60u8, 0x60u8, 0x00u8, 0x00u8],
        91u8 => seq![0x00u8, 0x7Fu8, 0x41u8, 0x41u8, 0x00u8],
        93u8 => seq![0x00u8, 0x41u8, 0x41u8, 0x7Fu8, 0x00u8],
        58u8 => seq![0x00u8, 0x36u8, 0x36u8, 0x00u8, 0x00u8],
        47u8 => seq![0x20u8, 0x10u8, 0x08u8, 0x04u8, 0x02u8],
        40u8 => seq![0x00u8, 0x1Cu8, 0x22u8, 0x41u8, 0x00u8],
        41u8 => seq![0x00u8, 0x41u8, 0x22u8, 0x1Cu8, 0x00u8],
        120u8 => seq![0x44u8, 0x28u8, 0x10u8, 0x28u8, 0x44u8],
        _ => seq![0u8, 0u8, 0u8, 0u8, 0u8],
    }
}

/// The bytes the early log font leaves blank although the status font has
/// them.
pub open spec fn log_blank(ch: u8) -> bool {
    ch == 86u8 || ch == 87u8 || ch == 122u8 || ch == 46u8 || ch == 47u8 || ch == 40u8 || ch == 41u8 || ch == 120u8
}

/// The columns of the glyph of `ch` in `font`.
pub open spec fn boot_glyph(font: BootFont, ch: u8) -> Seq<u8> {
    match font {
        BootFont::Status => status_glyph(ch),
        BootFont::Error => if ch == 33u8 { seq![0x00u8, 0x00u8, 0x5Fu8, 0x00u8, 0x00u8] } else { status_glyph(ch) },
        BootFont::Log => if ch == 95u8 {
            seq![0x40u8, 0x40u8, 0x40u8, 0x40u8, 0x40u8]
        } else if log_blank(ch) {
            seq![0u8, 0u8, 0u8, 0u8, 0u8]
        } else {
            status_glyph(ch)
        },
    }
}

fn status_cols(ch: u8) -> (r: [u8; 5])
    ensures
        r@ == status_glyph(ch),
{
    let r: [u8; 5] = match ch {
        65u8 => [0x7Cu8, 0x12u8, 0x11u8, 0x12u8, 0x7Cu8],
        66u8 => [0x7Fu8, 0x49u8, 0x49u8, 0x49u8, 0x36u8],
        67u8 => [0x3Eu8, 0x41u8, 0x41u8, 0x41u8, 0x22u8],
        68u8 => [0x7Fu8, 0x41u8, 0x41u8, 0x22u8, 0x1Cu8],
        69u8 => [0x7Fu8, 0x49u8, 0x49u8, 0x49u8, 0x41u8],
        70u8 => [0x7Fu8, 0x09u8, 0x09u8, 0x09u8, 0x01u8],
        71u8 => [0x3Eu8, 0x41u8, 0x49u8, 0x49u8, 0x7Au8],
        72u8 => [0x7Fu8, 0x08u8, 0x08u8, 0x08u8, 0x7Fu8],
        73u8 => [0x00u8, 0x41u8, 0x7Fu8, 0x41u8, 0x00u8],
        75u8 => [0x7Fu8, 0x08u8, 0x14u8, 0x22u8, 0x41u8],
        76u8 => [0x7Fu8, 0x40u8, 0x40u8, 0x40u8, 0x40u8],
        77u8 => [0x7Fu8, 0x02u8, 0x0Cu8, 0x02u8, 0x7Fu8],
        78u8 => [0x7Fu8, 0x04u8, 0x08u8, 0x10u8, 0x7Fu8],
        79u8 => [0x3Eu8, 0x41u8, 0x41u8, 0x41u8, 0x3Eu8],
        80u8 => [0x7Fu8, 0x09u8, 0x09u8, 0x09u8, 0x06u8],
        82u8 => [0x7Fu8, 0x09u8, 0x19u8, 0x29u8, 0x46u8],
        83u8 => [0x46u8, 0x49u8, 0x49u8, 0x49u8, 0x31u8],
        84u8 => [0x01u8, 0x01u8, 0x7Fu8, 0x01u8, 0x01u8],
        86u8 => [0x1Fu8, 0x20u8, 0x40u8, 0x20u8, 0x1Fu8],
        87u8 => [0x3Fu8, 0x40u8, 0x38u8, 0x40u8, 0x3Fu8],
        97u8 => [0x20u8, 0x54u8, 0x54u8, 0x54u8, 0x78u8],
        98u8 => [0x7Fu8, 0x48u8, 0x44u8, 0x44u8, 0x38u8],
        99u8 => [0x38u8, 0x44u8, 0x44u8, 0x44u8, 0x20u8],
        100u8 => [0x38u8, 0x44u8, 0x44u8, 0x48u8, 0x7Fu8],
        101u8 => [0x38u8, 0x54u8, 0x54u8, 0x54u8, 0x18u8],
        102u8 => [0x08u8, 0x7Eu8, 0x09u8, 0x01u8, 0x02u8],
        103u8 => [0x0Cu8, 0x52u8, 0x52u8, 0x52u8, 0x3Eu8],
        104u8 => [0x7Fu8, 0x08u8, 0x04u8, 0x04u8, 0x78u8],
        105u8 => [0x00u8, 0x44u8, 0x7Du8, 0x40u8, 0x00u8],
        107u8 => [0x7Fu8, 0x10u8, 0x28u8, 0x44u8, 0x00u8],
        108u8 => [0x00u8, 0x41u8, 0x7Fu8, 0x40u8, 0x00u8],
        109u8 => [0x7Cu8, 0x04u8, 0x18u8, 0x04u8, 0x78u8],
        110u8 => [0x7Cu8, 0x08u8, 0x04u8, 0x04u8, 0x78u8],
        111u8 => [0x38u8, 0x44u8, 0x44u8, 0x44u8, 0x38u8],
        112u8 => [0x7Cu8, 0x14u8, 0x14u8, 0x14u8, 0x08u8],
        114u8 => [0x7Cu8, 0x08u8, 0x04u8, 0x04u8, 0x08u8],
        115u8 => [0x48u8, 0x54u8, 0x54u8, 0x54u8, 0x20u8],
        116u8 => [0x04u8, 0x3Fu8, 0x44u8, 0x40u8, 0x20u8],
        117u8 => [0x3Cu8, 0x40u8, 0x40u8, 0x20u8, 0x7Cu8],
        118u8 => [0x1Cu8, 0x20u8, 0x40u8, 0x20u8, 0x1Cu8],
        119u8 => [0x3Cu8, 0x40u8, 0x30u8, 0x40u8, 0x3Cu8],
        121u8 => [0x0Cu8, 0x50u8, 0x50u8, 0x50u8, 0x3Cu8],
        122u8 => [0x44u8, 0x64u8, 0x54u8, 0x4Cu8, 0x44u8],
        48u8 => [0x3Eu8, 0x51u8, 0x49u8, 0x45u8, 0x3Eu8],
        49u8 => [0x00u8, 0x42u8, 0x7Fu8, 0x40u8, 0x00u8],
        50u8 => [0x42u8, 0x61u8, 0x51u8, 0x49u8, 0x46u8],
        51u8 => [0x21u8, 0x41u8, 0x45u8, 0x4Bu8, 0x31u8],
        52u8 => [0x18u8, 0x14u8, 0x12u8, 0x7Fu8, 0x10u8],
        53u8 => [0x27u8, 0x45u8, 0x45u8, 0x45u8, 0x39u8],
        54u8 => [0x3Cu8, 0x4Au8, 0x49u8, 0x49u8, 0x30u8],
        55u8 => [0x01u8, 0x71u8, 0x09u8, 0x05u8, 0x03u8],
        56u8 => [0x36u8, 0x49u8, 0x49u8, 0x49u8, 0x36u8],
        57u8 => [0x06u8, 0x49u8, 0x49u8, 0x29u8, 0x1Eu8],
        32u8 => [0x00u8, 0x00u8, 0x00u8, 0x00u8, 0x00u8],
        45u8 => [0x08u8, 0x08u8, 0x08u8, 0x08u8, 0x08u8],
        46u8 => [0x00u8, 0x60u8, 0x60u8, 0x00u8, 0x00u8],
        91u8 => [0x00u8, 0x7Fu8, 0x41u8, 0x41u8, 0x00u8],
        93u8 => [0x00u8, 0x41u8, 0x41u8, 0x7Fu8, 0x00u8],
        58u8 => [0x00u8, 0x36u8, 0x36u8, 0x00u8, 0x00u8],
        47u8 => [0x20u8, 0x10u8, 0x08u8, 0x04u8, 0x02u8],
        40u8 => [0x00u8, 0x1Cu8, 0x22u8, 0x41u8, 0x00u8],
        41u8 => [0x00u8, 0x41u8, 0x22u8, 0x1Cu8, 0x00u8],
        120u8 => [0x44u8, 0x28u8, 0x10u8, 0x28u8, 0x44u8],
        _ => [0u8, 0u8, 0u8, 0u8, 0u8],
    };
    proof {
        assert(r@ =~= status_glyph(ch));
    }
    r
}

/// The glyph columns of `ch` in `font`.
pub fn boot_glyph_cols(font: BootFont, ch: u8) -> (r: [u8; 5])
    ensures
        r@ == boot_glyph(font, ch),
{
    match font {
        BootFont::Status => status_cols(ch),
        BootFont::Error => {
            if ch == 33u8 {
                let r: [u8; 5] = [0x00u8, 0x00u8, 0x5Fu8, 0x00u8, 0x00u8];
                proof {
                    assert(r@ =~= boot_glyph(font, ch));
                }
                r
            } else {
                status_cols(ch)
            }
        },
        BootFont::Log => {
            if ch == 95u8 {
                let r: [u8; 5] = [0x40u8, 0x40u8, 0x40u8, 0x40u8, 0x40u8];
                proof {
                    assert(r@ =~= boot_glyph(font, ch));
                }
                r
            } else if ch == 86u8 || ch == 87u8 || ch == 122u8 || ch == 46u8 || ch == 47u8 || ch == 40u8 || ch == 41u8 || ch == 120u8 {
                let r: [u8; 5] = [0u8, 0u8, 0u8, 0u8, 0u8];
                proof {
                    assert(r@ =~= boot_glyph(font, ch));
                }
                r
            } else {
                status_cols(ch)
            }
        },
    }
}

/// Whether glyph columns `cols` drawn at `(x, y)` have a dot at `(px, py)`.
pub open spec fn cols_cover(cols: Seq<u8>, x: int, y: int, px: int, py: int) -> bool {
    0 <= px - x < 5 && 0 <= py - y < 8 && (cols[px - x] >> ((py - y) as u8)) & 1u8 != 0u8
}

/// `(in_bracket, bracket_content)` after the first `n` bytes of `text`: a
/// `[` opens a bracket, a `]` closes it, and the first space after a `[`
/// ends the bracketed word.
pub open spec fn bracket_state(text: Seq<u8>, n: int) -> (bool, bool)
    decreases n,
{
    if n <= 0 {
        (false, false)
    } else {
        let (ib, bc) = bracket_state(text, n - 1);
        let ch = text[n - 1];
        if ch == 91u8 {
            (true, true)
        } else if ch == 93u8 {
            (false, bc)
        } else if ch == 32u8 && bc {
            (ib, false)
        } else {
            (ib, bc)
        }
    }
}

/// The colour of byte `k` of `text`: the accent inside a bracket, on the
/// word after `[` and on the brackets themselves; plain elsewhere.
pub open spec fn char_color(scheme: TextScheme, text: Seq<u8>, k: int) -> u32 {
    let (ib, bc) = bracket_state(text, k + 1);
    if ib || bc || text[k] == 91u8 || text[k] == 93u8 { scheme.accent } else { scheme.plain }
}

/// Whether byte `k` of `text`, drawn six columns a byte from `(x, y)`, has
/// a dot at `(px, py)`.
pub open spec fn char_covers(font: BootFont, x: int, y: int, text: Seq<u8>, k: int, px: int, py: int) -> bool {
    cols_cover(boot_glyph(font, text[k]), x + 6 * k, y, px, py)
}

/// The pixel at `(px, py)` after the first `n` bytes of `text` are drawn
/// from `(x, y)` over `old`.
pub open spec fn text_pixel(scheme: TextScheme, x: int, y: int, text: Seq<u8>, n: int, px: int, py: int, old: u32) -> u32 {
    if exists|k: int| 0 <= k < n && #[trigger] char_covers(scheme.font, x, y, text, k, px, py) {
        char_color(scheme, text, choose|k: int| 0 <= k < n && #[trigger] char_covers(scheme.font, x, y, text, k, px, py))
    } else {
        old
    }
}

proof fn lemma_cover_unique(font: BootFont, x: int, y: int, text: Seq<u8>, j: int, k: int, px: int, py: int)
    requires
        char_covers(font, x, y, text, j, px, py),
        char_covers(font, x, y, text, k, px, py),
    ensures
        j == k,
{
}

/// The colours of the boot status lines: bracketed words green, the rest
/// white.
pub fn status_scheme() -> (r: TextScheme)
    ensures
        r == (TextScheme { accent: 0x00ff00, plain: 0xffffff, font: BootFont::Status }),
{
    TextScheme { accent: 0x00ff00, plain: 0xffffff, font: BootFont::Status }
}

/// The colours of the boot error lines: bracketed words bright red, the
/// rest a darker red.
pub fn error_scheme() -> (r: TextScheme)
    ensures
        r == (TextScheme { accent: 0xff0000, plain: 0xdc322f, font: BootFont::Error }),
{
    TextScheme { accent: 0xff0000, plain: 0xdc322f, font: BootFont::Error }
}

impl Framebuffer {
    /// Draws glyph columns `cols` with the top-left corner at `(x, y)`.
    fn draw_cols(&mut self, x: usize, y: usize, cols: [u8; 5], color: u32)
        requires
            old(self).wf(),
            x + 4 <= usize::MAX,
            y + 7 <= usize::MAX,
        ensures
            final(self).wf(),
            final(self).same_shape(old(self)),
            forall|px: int, py: int| 0 <= px < old(self).pitch_pixels && 0 <= py < old(self).height ==>
                #[trigger] final(self).pixel(px, py) == if cols_cover(cols@, x as int, y as int, px, py) && px < old(self).width && py < old(self).height {
                    color
                } else {
                    old(self).pixel(px, py)
                },
    {
        let mut dx: usize = 0;
        while dx < 5
            invariant
                self.wf(),
                self.same_shape(old(self)),
                dx <= 5,
                x + 4 <= usize::MAX,
                y + 7 <= usize::MAX,
                forall|px: int, py: int| 0 <= px < old(self).pitch_pixels && 0 <= py < old(self).height ==>
                    #[trigger] self.pixel(px, py) == if cols_cover(cols@, x as int, y as int, px, py) && px - x < dx && px < old(self).width && py < old(self).height {
                        color
                    } else {
                        old(self).pixel(px, py)
                    },
            decreases 5 - dx,
        {
            let col = cols[dx];
            let mut dy: usize = 0;
            while dy < 8
                invariant
                    self.wf(),
                    self.same_shape(old(self)),
                    col == cols@[dx as int],
                    dx < 5,
                    dy <= 8,
                    x + 4 <= usize::MAX,
                    y + 7 <= usize::MAX,
                    forall|px: int, py: int| 0 <= px < old(self).pitch_pixels && 0 <= py < old(self).height ==>
                        #[trigger] self.pixel(px, py) == if cols_cover(cols@, x as int, y as int, px, py)
                            && (px - x < dx || (px - x == dx && py - y < dy)) && px < old(self).width && py < old(self).height {
                            color
                        } else {
                            old(self).pixel(px, py)
                        },
                decreases 8 - dy,
            {
                let d8 = dy as u8;
                if ((col >> d8) & 1u8) != 0u8 {
                    self.put_pixel(x + dx, y + dy, color);
                }
                dy = dy + 1;
            }
            dx = dx + 1;
        }
    }

    /// Draws a boot status line from `(x, y)`, six columns a byte, in the
    /// font of `scheme`: bracketed words in its accent colour, the rest in
    /// its plain colour. Dots off the screen are dropped.
    pub fn draw_colored_text(&mut self, x: usize, y: usize, text: &str, scheme: TextScheme)
        requires
            old(self).wf(),
            text.spec_bytes().len() == 0 || x + 6 * (text.spec_bytes().len() - 1) + 4 <= usize::MAX,
            y + 7 <= usize::MAX,
        ensures
            final(self).wf(),
            final(self).same_shape(old(self)),
            forall|px: int, py: int| 0 <= px < old(self).pitch_pixels && 0 <= py < old(self).height ==>
                #[trigger] final(self).pixel(px, py) == if px < old(self).width && py < old(self).height {
                    text_pixel(scheme, x as int, y as int, text.spec_bytes(), text.spec_bytes().len() as int, px, py, old(self).pixel(px, py))
                } else {
                    old(self).pixel(px, py)
                },
    {
        let bytes = text.as_bytes();
        let n = bytes.len();
        let mut in_bracket = false;
        let mut bracket_content = false;
        let mut k: usize = 0;
        while k < n
            invariant
                self.wf(),
                self.same_shape(old(self)),
                n == bytes@.len(),
                bytes@ == text.spec_bytes(),
                k <= n,
                n == 0 || x + 6 * (n - 1) + 4 <= usize::MAX,
                y + 7 <= usize::MAX,
                (in_bracket, bracket_content) == bracket_state(bytes@, k as int),
                forall|px: int, py: int| 0 <= px < old(self).pitch_pixels && 0 <= py < old(self).height ==>
                    #[trigger] self.pixel(px, py) == if px < old(self).width && py < old(self).height {
                        text_pixel(scheme, x as int, y as int, bytes@, k as int, px, py, old(self).pixel(px, py))
                    } else {
                        old(self).pixel(px, py)
                    },
            decreases n - k,
        {
            let ch = bytes[k];
            if ch == 91u8 {
                in_bracket = true;
                bracket_content = true;
            } else if ch == 93u8 {
                in_bracket = false;
            } else if ch == 32u8 && bracket_content {
                bracket_content = false;
            }
            let color = if in_bracket || bracket_content || ch == 91u8 || ch == 93u8 { scheme.accent } else { scheme.plain };
            proof {
                assert(color == char_color(scheme, bytes@, k as int));
            }
            let cols = boot_glyph_cols(scheme.font, ch);
            let gx = x + 6 * k;
            self.draw_cols(gx, y, cols, color);
            proof {
                let t = bytes@;
                assert forall|px: int, py: int| 0 <= px < old(self).pitch_pixels && 0 <= py < old(self).height implies
                    #[trigger] self.pixel(px, py) == if px < old(self).width && py < old(self).height {
                        text_pixel(scheme, x as int, y as int, t, k as int + 1, px, py, old(self).pixel(px, py))
                    } else {
                        old(self).pixel(px, py)
                    } by {
                    if char_covers(scheme.font, x as int, y as int, t, k as int, px, py) {
                        assert(cols_cover(cols@, gx as int, y as int, px, py));
                        let j = choose|j: int| 0 <= j < k + 1 && #[trigger] char_covers(scheme.font, x as int, y as int, t, j, px, py);
                        lemma_cover_unique(scheme.font, x as int, y as int, t, j, k as int, px, py);
                        if exists|j2: int| 0 <= j2 < k && #[trigger] char_covers(scheme.font, x as int, y as int, t, j2, px, py) {
                            let j2 = choose|j2: int| 0 <= j2 < k && #[trigger] char_covers(scheme.font, x as int, y as int, t, j2, px, py);
                            lemma_cover_unique(scheme.font, x as int, y as int, t, j2, k as int, px, py);
                        }
                    } else {
                        assert(!cols_cover(cols@, gx as int, y as int, px, py));
                        if exists|j: int| 0 <= j < k + 1 && #[trigger] char_covers(scheme.font, x as int, y as int, t, j, px, py) {
                            let j = choose|j: int| 0 <= j < k + 1 && #[trigger] char_covers(scheme.font, x as int, y as int, t, j, px, py);
                            assert(j < k);
                            let j2 = choose|j2: int| 0 <= j2 < k && #[trigger] char_covers(scheme.font, x as int, y as int, t, j2, px, py);
                            lemma_cover_unique(scheme.font, x as int, y as int, t, j, j2, px, py);
                        }
                    }
                }
            }
            k = k + 1;
        }
    }

    /// Draws an early log line in one colour with the early log font.
    pub fn draw_text_direct(&mut self, x: usize, y: usize, text: &str, color: u32)
        requires
            old(self).wf(),
            text.spec_bytes().len() == 0 || x + 6 * (text.spec_bytes().len() - 1) + 4 <= usize::MAX,
            y + 7 <= usize::MAX,
        ensures
            final(self).wf(),
            final(self).same_shape(old(self)),
            forall|px: int, py: int| 0 <= px < old(self).pitch_pixels && 0 <= py < old(self).height ==>
                #[trigger] final(self).pixel(px, py) == if px < old(self).width && py < old(self).height
                    && exists|k: int| 0 <= k < text.spec_bytes().len() && #[trigger] char_covers(BootFont::Log, x as int, y as int, text.spec_bytes(), k, px, py) {
                    color
                } else {
                    old(self).pixel(px, py)
                },
    {
        self.draw_colored_text(x, y, text, TextScheme { accent: color, plain: color, font: BootFont::Log });
    }

    /// Draws a boot error line: bracketed words bright red, the rest a
    /// darker red, in the error font.
    pub fn draw_error_text_old(&mut self, x: usize, y: usize, text: &str)
        requires
            old(self).wf(),
            text.spec_bytes().len() == 0 || x + 6 * (text.spec_bytes().len() - 1) + 4 <= usize::MAX,
            y + 7 <= usize::MAX,
        ensures
            final(self).wf(),
            final(self).same_shape(old(self)),
            forall|px: int, py: int| 0 <= px < old(self).pitch_pixels && 0 <= py < old(self).height ==>
                #[trigger] final(self).pixel(px, py) == if px < old(self).width && py < old(self).height {
                    text_pixel(TextScheme { accent: 0xff0000, plain: 0xdc322f, font: BootFont::Error }, x as int, y as int,
                        text.spec_bytes(), text.spec_bytes().len() as int, px, py, old(self).pixel(px, py))
                } else {
                    old(self).pixel(px, py)
                },
    {
        let scheme = error_scheme();
        self.draw_colored_text(x, y, text, scheme);
    }
}

} // verus!
