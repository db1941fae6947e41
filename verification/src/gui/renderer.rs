//! Rectangles, a pixel buffer with fills, outlines and text in a 5x8 font,
//! a back buffer copied to the screen, and a bounded list of damaged areas.
use vstd::prelude::*;
use vstd::string::StringSliceAdditionalSpecFns;

verus! {

pub open spec fn min_u(a: usize, b: usize) -> usize {
    if a <= b { a } else { b }
}

pub open spec fn max_u(a: usize, b: usize) -> usize {
    if a >= b { a } else { b }
}

pub open spec fn sat_add(a: usize, b: usize) -> usize {
    if a + b > usize::MAX { usize::MAX } else { (a + b) as usize }
}

pub open spec fn sat_sub(a: usize, b: usize) -> usize {
    if a >= b { (a - b) as usize } else { 0 }
}

#[derive(Clone, Copy, Debug, PartialEq, Eq, Structural)]
pub struct Rect {
    pub x: usize,
    pub y: usize,
    pub width: usize,
    pub height: usize,
}

impl Rect {
    pub open spec fn spec_right(self) -> usize {
        sat_add(self.x, self.width)
    }

    pub open spec fn spec_bottom(self) -> usize {
        sat_add(self.y, self.height)
    }

    /// Whether the point `(px, py)` lies inside.
    pub open spec fn contains(self, px: int, py: int) -> bool {
        self.x <= px < self.spec_right() && self.y <= py < self.spec_bottom()
    }

    /// The part inside a `width` x `height` screen, if any is.
    pub open spec fn spec_clipped(self, width: usize, height: usize) -> Option<Rect> {
        let x0 = min_u(self.x, width);
        let y0 = min_u(self.y, height);
        let x1 = min_u(self.spec_right(), width);
        let y1 = min_u(self.spec_bottom(), height);
        if x1 <= x0 || y1 <= y0 {
            None
        } else {
            Some(Rect { x: x0, y: y0, width: (x1 - x0) as usize, height: (y1 - y0) as usize })
        }
    }

    /// The smallest rectangle holding both.
    pub open spec fn spec_union(self, other: Rect) -> Rect {
        let x0 = min_u(self.x, other.x);
        let y0 = min_u(self.y, other.y);
        let x1 = max_u(self.spec_right(), other.spec_right());
        let y1 = max_u(self.spec_bottom(), other.spec_bottom());
        Rect { x: x0, y: y0, width: sat_sub(x1, x0), height: sat_sub(y1, y0) }
    }

    pub fn new(x: usize, y: usize, width: usize, height: usize) -> (r: Self)
        ensures
            r == (Rect { x, y, width, height }),
    {
        Rect { x, y, width, height }
    }

    /// The first column right of the rectangle, saturating.
    pub fn right(self) -> (r: usize)
        ensures
            r == self.spec_right(),
    {
        if self.x > usize::MAX - self.width { usize::MAX } else { self.x + self.width }
    }

    /// The first row below the rectangle, saturating.
    pub fn bottom(self) -> (r: usize)
        ensures
            r == self.spec_bottom(),
    {
        if self.y > usize::MAX - self.height { usize::MAX } else { self.y + self.height }
    }

    pub fn clipped(self, width: usize, height: usize) -> (r: Option<Self>)
        ensures
            r == self.spec_clipped(width, height),
    {
        let x0 = if self.x < width { self.x } else { width };
        let y0 = if self.y < height { self.y } else { height };
        let r = self.right();
        let b = self.bottom();
        let x1 = if r < width { r } else { width };
        let y1 = if b < height { b } else { height };
        if x1 <= x0 || y1 <= y0 {
            return None;
        }
        Some(Rect::new(x0, y0, x1 - x0, y1 - y0))
    }

    pub fn union(self, other: Self) -> (r: Self)
        ensures
            r == self.spec_union(other),
    {
        let x0 = if self.x < other.x { self.x } else { other.x };
        let y0 = if self.y < other.y { self.y } else { other.y };
        let r1 = self.right();
        let r2 = other.right();
        let b1 = self.bottom();
        let b2 = other.bottom();
        let x1 = if r1 > r2 { r1 } else { r2 };
        let y1 = if b1 > b2 { b1 } else { b2 };
        let w = if x1 >= x0 { x1 - x0 } else { 0 };
        let h = if y1 >= y0 { y1 - y0 } else { 0 };
        Rect::new(x0, y0, w, h)
    }
}

/// A clipped rectangle lies inside the screen and inside the rectangle.
pub proof fn lemma_clipped_inside(r: Rect, width: usize, height: usize, px: int, py: int)
    requires
        r.spec_clipped(width, height) matches Some(c) && c.contains(px, py),
    ensures
        r.contains(px, py),
        0 <= px < width,
        0 <= py < height,
{
}

/// A point of either rectangle lies in their union.
pub proof fn lemma_union_covers(a: Rect, b: Rect, px: int, py: int)
    requires
        a.contains(px, py) || b.contains(px, py),
    ensures
        a.spec_union(b).contains(px, py),
{
}

/// A linear pixel buffer of `height` rows of `pitch_pixels` pixels, of which
/// the first `width` of each row are visible.
pub struct Framebuffer {
    pub pixels: Vec<u32>,
    pub width: usize,
    pub height: usize,
    pub pitch_pixels: usize,
}

proof fn lemma_row_index(y: int, x: int, pitch: int, height: int)
    requires
        0 <= y < height,
        0 <= x < pitch,
    ensures
        0 <= y * pitch + x < height * pitch,
{
    assert(0 <= y * pitch + x < height * pitch) by (nonlinear_arith)
        requires 0 <= y < height, 0 <= x < pitch;
}

proof fn lemma_index_unique(y1: int, x1: int, y2: int, x2: int, pitch: int)
    requires
        0 <= x1 < pitch,
        0 <= x2 < pitch,
        0 <= y1,
        0 <= y2,
        y1 * pitch + x1 == y2 * pitch + x2,
    ensures
        y1 == y2 && x1 == x2,
{
    assert(y1 == y2 && x1 == x2) by (nonlinear_arith)
        requires 0 <= x1 < pitch, 0 <= x2 < pitch, 0 <= y1, 0 <= y2, y1 * pitch + x1 == y2 * pitch + x2;
}

impl Framebuffer {
    pub open spec fn wf(&self) -> bool {
        &&& self.width <= self.pitch_pixels
        &&& self.pixels@.len() == self.height * self.pitch_pixels
    }

    /// The pixel at column `x` of row `y`.
    pub open spec fn pixel(&self, x: int, y: int) -> u32 {
        self.pixels@[y * self.pitch_pixels + x]
    }

    /// Whether `other` has the same shape.
    pub open spec fn same_shape(&self, other: &Framebuffer) -> bool {
        &&& self.width == other.width
        &&& self.height == other.height
        &&& self.pitch_pixels == other.pitch_pixels
        &&& self.pixels@.len() == other.pixels@.len()
    }

    /// A black buffer; `pitch_bytes / 4` pixels a row (at least `width`).
    pub fn new(width: usize, height: usize, pitch_bytes: usize) -> (r: Option<Self>)
        ensures
            r matches Some(fb) ==> fb.wf() && fb.width == width && fb.height == height && fb.pitch_pixels == pitch_bytes / 4
                && forall|x: int, y: int| 0 <= x < fb.pitch_pixels && 0 <= y < height ==> fb.pixel(x, y) == 0,
            r is None <==> (pitch_bytes / 4 < width || height as int * (pitch_bytes / 4) > usize::MAX),
    {
        let pitch = pitch_bytes / 4;
        if pitch < width {
            return None;
        }
        let total = match height.checked_mul(pitch) {
            Some(t) => t,
            None => return None,
        };
        let pixels: Vec<u32> = vec![0u32; total];
        let fb = Framebuffer { pixels, width, height, pitch_pixels: pitch };
        proof {
            assert forall|x: int, y: int| 0 <= x < fb.pitch_pixels && 0 <= y < height implies fb.pixel(x, y) == 0 by {
                lemma_row_index(y, x, pitch as int, height as int);
            }
        }
        Some(fb)
    }

    pub fn width(&self) -> (r: usize)
        ensures
            r == self.width,
    {
        self.width
    }

    pub fn height(&self) -> (r: usize)
        ensures
            r == self.height,
    {
        self.height
    }

    /// Sets one visible pixel; points off the screen are ignored.
    pub fn put_pixel(&mut self, x: usize, y: usize, color: u32)
        requires
            old(self).wf(),
        ensures
            final(self).wf(),
            final(self).same_shape(old(self)),
            forall|px: int, py: int| 0 <= px < old(self).pitch_pixels && 0 <= py < old(self).height ==>
                #[trigger] final(self).pixel(px, py) == if px == x && py == y && x < old(self).width && y < old(self).height {
                    color
                } else {
                    old(self).pixel(px, py)
                },
    {
        if x < self.width && y < self.height {
            proof {
                lemma_row_index(y as int, x as int, self.pitch_pixels as int, self.height as int);
            }
            let _n = self.pixels.len();
            let i = y * self.pitch_pixels + x;
            self.pixels.set(i, color);
            proof {
                assert forall|px: int, py: int| 0 <= px < old(self).pitch_pixels && 0 <= py < old(self).height implies
                    #[trigger] self.pixel(px, py) == if px == x && py == y { color } else { old(self).pixel(px, py) } by {
                    lemma_row_index(py, px, self.pitch_pixels as int, self.height as int);
                    if py * self.pitch_pixels + px == i {
                        lemma_index_unique(py, px, y as int, x as int, self.pitch_pixels as int);
                    }
                }
            }
        }
    }

    /// The pixel at `(x, y)`, or black off the screen.
    pub fn read_pixel(&self, x: usize, y: usize) -> (r: u32)
        requires
            self.wf(),
        ensures
            r == if x < self.width && y < self.height { self.pixel(x as int, y as int) } else { 0 },
    {
        if x < self.width && y < self.height {
            proof {
                lemma_row_index(y as int, x as int, self.pitch_pixels as int, self.height as int);
            }
            let _n = self.pixels.len();
            self.pixels[y * self.pitch_pixels + x]
        } else {
            0
        }
    }

    /// Fills the visible part of `rect` with `color`.
    pub fn fill_rect(&mut self, rect: Rect, color: u32)
        requires
            old(self).wf(),
        ensures
            final(self).wf(),
            final(self).same_shape(old(self)),
            forall|px: int, py: int| 0 <= px < old(self).pitch_pixels && 0 <= py < old(self).height ==>
                #[trigger] final(self).pixel(px, py) == if rect.contains(px, py) && px < old(self).width && py < old(self).height {
                    color
                } else {
                    old(self).pixel(px, py)
                },
    {
        let c = match rect.clipped(self.width, self.height) {
            Some(c) => c,
            None => {
                return;
            },
        };
        let bottom = c.bottom();
        let right = c.right();
        let mut y = c.y;
        while y < bottom
            invariant
                self.wf(),
                self.same_shape(old(self)),
                rect.spec_clipped(old(self).width, old(self).height) == Some(c),
                bottom == c.spec_bottom(),
                right == c.spec_right(),
                c.y <= y <= bottom,
                forall|px: int, py: int| 0 <= px < old(self).pitch_pixels && 0 <= py < old(self).height ==>
                    #[trigger] self.pixel(px, py) == if c.contains(px, py) && py < y { color } else { old(self).pixel(px, py) },
            decreases bottom - y,
        {
            let mut x = c.x;
            while x < right
                invariant
                    self.wf(),
                    self.same_shape(old(self)),
                    rect.spec_clipped(old(self).width, old(self).height) == Some(c),
                    bottom == c.spec_bottom(),
                    right == c.spec_right(),
                    c.y <= y < bottom,
                    c.x <= x <= right,
                    forall|px: int, py: int| 0 <= px < old(self).pitch_pixels && 0 <= py < old(self).height ==>
                        #[trigger] self.pixel(px, py) == if c.contains(px, py) && (py < y || (py == y && px < x)) { color } else { old(self).pixel(px, py) },
                decreases right - x,
            {
                self.put_pixel(x, y, color);
                x = x + 1;
            }
            y = y + 1;
        }
        proof {
            assert forall|px: int, py: int| 0 <= px < old(self).pitch_pixels && 0 <= py < old(self).height implies
                #[trigger] self.pixel(px, py) == if rect.contains(px, py) && px < old(self).width && py < old(self).height {
                    color
                } else {
                    old(self).pixel(px, py)
                } by {
                if c.contains(px, py) {
                    lemma_clipped_inside(rect, old(self).width, old(self).height, px, py);
                }
            }
        }
    }
}

/// The columns of the 5x8 glyph for byte `ch`, bit `dy` of column `dx` set
/// where the glyph has a dot in row `dy`; unknown bytes are blank.
pub open spec fn glyph(ch: u8) -> Seq<u8> {
    match ch {
        65u8 => seq![0x7Cu8, 0x12u8, 0x11u8, 0x12u8, 0x7Cu8],
        66u8 => seq![0x7Fu8, 0x49u8, 0x49u8, 0x49u8, 0x36u8],
        67u8 => seq![0x3Eu8, 0x41u8, 0x41u8, 0x41u8, 0x22u8],
        68u8 => seq![0x7Fu8, 0x41u8, 0x41u8, 0x22u8, 0x1Cu8],
        69u8 => seq![0x7Fu8, 0x49u8, 0x49u8, 0x49u8, 0x41u8],
        70u8 => seq![0x7Fu8, 0x09u8, 0x09u8, 0x09u8, 0x01u8],
        71u8 => seq![0x3Eu8, 0x41u8, 0x49u8, 0x49u8, 0x7Au8],
        72u8 => seq![0x7Fu8, 0x08u8, 0x08u8, 0x08u8, 0x7Fu8],
        73u8 => seq![0x00u8, 0x41u8, 0x7Fu8, 0x41u8, 0x00u8],
        74u8 => seq![0x20u8, 0x40u8, 0x41u8, 0x3Fu8, 0x01u8],
        75u8 => seq![0x7Fu8, 0x08u8, 0x14u8, 0x22u8, 0x41u8],
        76u8 => seq![0x7Fu8, 0x40u8, 0x40u8, 0x40u8, 0x40u8],
        77u8 => seq![0x7Fu8, 0x02u8, 0x0Cu8, 0x02u8, 0x7Fu8],
        78u8 => seq![0x7Fu8, 0x04u8, 0x08u8, 0x10u8, 0x7Fu8],
        79u8 => seq![0x3Eu8, 0x41u8, 0x41u8, 0x41u8, 0x3Eu8],
        80u8 => seq![0x7Fu8, 0x09u8, 0x09u8, 0x09u8, 0x06u8],
        82u8 => seq![0x7Fu8, 0x09u8, 0x19u8, 0x29u8, 0x46u8],
        83u8 => seq![0x46u8, 0x49u8, 0x49u8, 0x49u8, 0x31u8],
        84u8 => seq![0x01u8, 0x01u8, 0x7Fu8, 0x01u8, 0x01u8],
        85u8 => seq![0x3Fu8, 0x40u8, 0x40u8, 0x40u8, 0x3Fu8],
        86u8 => seq![0x1Fu8, 0x20u8, 0x40u8, 0x20u8, 0x1Fu8],
        87u8 => seq![0x3Fu8, 0x40u8, 0x38u8, 0x40u8, 0x3Fu8],
        88u8 => seq![0x63u8, 0x14u8, 0x08u8, 0x14u8, 0x63u8],
        89u8 => seq![0x07u8, 0x08u8, 0x70u8, 0x08u8, 0x07u8],
        90u8 => seq![0x61u8, 0x51u8, 0x49u8, 0x45u8, 0x43u8],
        97u8 => seq![0x20u8, 0x54u8, 0x54u8, 0x54u8, 0x78u8],
        98u8 => seq![0x7Fu8, 0x48u8, 0x44u8, 0x44u8, 0x38u8],
        99u8 => seq![0x38u8, 0x44u8, 0x44u8, 0x44u8, 0x20u8],
        100u8 => seq![0x38u8, 0x44u8, 0x44u8, 0x48u8, 0x7Fu8],
        101u8 => seq![0x38u8, 0x54u8, 0x54u8, 0x54u8, 0x18u8],
        102u8 => seq![0x08u8, 0x7Eu8, 0x09u8, 0x01u8, 0x02u8],
        103u8 => seq![0x0Cu8, 0x52u8, 0x52u8, 0x52u8, 0x3Eu8],
        104u8 => seq![0x7Fu8, 0x08u8, 0x04u8, 0x04u8, 0x78u8],
        105u8 => seq![0x00u8, 0x44u8, 0x7Du8, 0x40u8, 0x00u8],
        106u8 => seq![0x20u8, 0x40u8, 0x44u8, 0x3Du8, 0x00u8],
        107u8 => seq![0x7Fu8, 0x10u8, 0x28u8, 0x44u8, 0x00u8],
        108u8 => seq![0x00u8, 0x41u8, 0x7Fu8, 0x40u8, 0x00u8],
        109u8 => seq![0x7Cu8, 0x04u8, 0x18u8, 0x04u8, 0x78u8],
        110u8 => seq![0x7Cu8, 0x08u8, 0x04u8, 0x04u8, 0x78u8],
        111u8 => seq![0x38u8, 0x44u8, 0x44u8, 0x44u8, 0x38u8],
        112u8 => seq![0x7Cu8, 0x14u8, 0x14u8, 0x14u8, 0x08u8],
        113u8 => seq![0x08u8, 0x14u8, 0x14u8, 0x18u8, 0x7Cu8],
        114u8 => seq![0x7Cu8, 0x08u8, 0x04u8, 0x04u8, 0x08u8],
        115u8 => seq![0x48u8, 0x54u8, 0x54u8, 0x54u8, 0x20u8],
        116u8 => seq![0x04u8, 0x3Fu8, 0x44u8, 0x40u8, 0x20u8],
        117u8 => seq![0x3Cu8, 0x40u8, 0x40u8, 0x20u8, 0x7Cu8],
        118u8 => seq![0x1Cu8, 0x20u8, 0x40u8, 0x20u8, 0x1Cu8],
        119u8 => seq![0x3Cu8, 0x40u8, 0x30u8, 0x40u8, 0x3Cu8],
        120u8 => seq![0x44u8, 0x28u8, 0x10u8, 0x28u8, 0x44u8],
        121u8 => seq![0x0Cu8, 0x50u8, 0x50u8, 0x50u8, 0x3Cu8],
        122u8 => seq![0x44u8, 0x64u8, 0x54u8, 0x4Cu8, 0x44u8],
        48u8 => seq![0x3Eu8, 0x51u8, 0x49u8, 0x45u8, 0x3Eu8],
        49u8 => seq![0x00u8, 0x42u8, 0x7Fu8, 0x40u8, 0x00u8],
        50u8 => seq![0x42u8, 0x61u8, 0x51u8, 0x49u8, 0x46u8],
        51u8 => seq![0x21u8, 0x41u8, 0x45u8, 0x4Bu8, 0x31u8],
        52u8 => seq![0x18u8, 0x14u8, 0x12u8, 0x7Fu8, 0x10u8],
        53u8 => seq![0x27u8, 0x45u8, 0x45u8, 0x45u8, 0x39u8],
        54u8 => seq![0x3Cu8, 0x4Au8, 0x49u8, 0x49u8, 0x30u8],
        55u8 => seq![0x01u8, 0x71u8, 0x09u8, 0x05u8, 0x03u8],
        56u8 => seq![0x36u8, 0x49u8, 0x49u8, 0x49u8, 0x36u8],
        57u8 => seq![0x06u8, 0x49u8, 0x49u8, 0x29u8, 0x1Eu8],
        32u8 => seq![0x00u8, 0x00u8, 0x00u8, 0x00u8, 0x00u8],
        46u8 => seq![0x00u8, 0x60u8, 0x60u8, 0x00u8, 0x00u8],
        58u8 => seq![0x00u8, 0x36u8, 0x36u8, 0x00u8, 0x00u8],
        45u8 => seq![0x08u8, 0x08u8, 0x08u8, 0x08u8, 0x08u8],
        47u8 => seq![0x20u8, 0x10u8, 0x08u8, 0x04u8, 0x02u8],
        37u8 => seq![0x62u8, 0x64u8, 0x08u8, 0x13u8, 0x23u8],
        95u8 => seq![0x40u8, 0x40u8, 0x40u8, 0x40u8, 0x40u8],
        62u8 => seq![0x41u8, 0x22u8, 0x14u8, 0x08u8, 0x00u8],
        _ => seq![0u8, 0u8, 0u8, 0u8, 0u8],
    }
}

pub fn glyph_5x8(ch: u8) -> (r: [u8; 5])
    ensures
        r@ == glyph(ch),
{
    let r: [u8; 5] = match ch {
        65u8 => [0x7Cu8, 0x12u8, 0x11u8, 0x12u8, 0x7Cu8],
        66u8 => [0x7Fu8, 0x49u8, 0x49u8, 0x49u8, 0x36u8],
        67u8 => [0x3Eu8, 0x41u8, 0x41u8, 0x41u8, 0x22u8],
        68u8 => [0x7Fu8, 0x41u8, 0x41u8, 0x22u8, 0x1Cu8],
        69u8 => [0x7Fu8, 0x49u8, 0x49u8, 0x49u8, 0x41u8],
        70u8 => [0x7Fu8, 0x09u8, 0x09u8, 0x09u8, 0x01u8],
        71u8 => [0x3Eu8, 0x41u8, 0x49u8, 0x49u8, 0x7Au8],
        72u8 => [0x7Fu8, 0x08u8, 0x08u8, 0x08u8, 0x7Fu8],
        73u8 => [0x00u8, 0x41u8, 0x7Fu8, 0x41u8, 0x00u8],
        74u8 => [0x20u8, 0x40u8, 0x41u8, 0x3Fu8, 0x01u8],
        75u8 => [0x7Fu8, 0x08u8, 0x14u8, 0x22u8, 0x41u8],
        76u8 => [0x7Fu8, 0x40u8, 0x40u8, 0x40u8, 0x40u8],
        77u8 => [0x7Fu8, 0x02u8, 0x0Cu8, 0x02u8, 0x7Fu8],
        78u8 => [0x7Fu8, 0x04u8, 0x08u8, 0x10u8, 0x7Fu8],
        79u8 => [0x3Eu8, 0x41u8, 0x41u8, 0x41u8, 0x3Eu8],
        80u8 => [0x7Fu8, 0x09u8, 0x09u8, 0x09u8, 0x06u8],
        82u8 => [0x7Fu8, 0x09u8, 0x19u8, 0x29u8, 0x46u8],
        83u8 => [0x46u8, 0x49u8, 0x49u8, 0x49u8, 0x31u8],
        84u8 => [0x01u8, 0x01u8, 0x7Fu8, 0x01u8, 0x01u8],
        85u8 => [0x3Fu8, 0x40u8, 0x40u8, 0x40u8, 0x3Fu8],
        86u8 => [0x1Fu8, 0x20u8, 0x40u8, 0x20u8, 0x1Fu8],
        87u8 => [0x3Fu8, 0x40u8, 0x38u8, 0x40u8, 0x3Fu8],
        88u8 => [0x63u8, 0x14u8, 0x08u8, 0x14u8, 0x63u8],
        89u8 => [0x07u8, 0x08u8, 0x70u8, 0x08u8, 0x07u8],
        90u8 => [0x61u8, 0x51u8, 0x49u8, 0x45u8, 0x43u8],
        97u8 => [0x20u8, 0x54u8, 0x54u8, 0x54u8, 0x78u8],
        98u8 => [0x7Fu8, 0x48u8, 0x44u8, 0x44u8, 0x38u8],
        99u8 => [0x38u8, 0x44u8, 0x44u8, 0x44u8, 0x20u8],
        100u8 => [0x38u8, 0x44u8, 0x44u8, 0x48u8, 0x7Fu8],
        101u8 => [0x38u8, 0x54u8, 0x54u8, 0x54u8, 0x18u8],
        102u8 => [0x08u8, 0x7Eu8, 0x09u8, 0x01u8, 0x02u8],
        103u8 => [0x0Cu8, 0x52u8, 0x52u8, 0x52u8, 0x3Eu8],
        104u8 => [0x7Fu8, 0x08u8, 0x04u8, 0x04u8, 0x78u8],
        105u8 => [0x00u8, 0x44u8, 0x7Du8, 0x40u8, 0x00u8],
        106u8 => [0x20u8, 0x40u8, 0x44u8, 0x3Du8, 0x00u8],
        107u8 => [0x7Fu8, 0x10u8, 0x28u8, 0x44u8, 0x00u8],
        108u8 => [0x00u8, 0x41u8, 0x7Fu8, 0x40u8, 0x00u8],
        109u8 => [0x7Cu8, 0x04u8, 0x18u8, 0x04u8, 0x78u8],
        110u8 => [0x7Cu8, 0x08u8, 0x04u8, 0x04u8, 0x78u8],
        111u8 => [0x38u8, 0x44u8, 0x44u8, 0x44u8, 0x38u8],
        112u8 => [0x7Cu8, 0x14u8, 0x14u8, 0x14u8, 0x08u8],
        113u8 => [0x08u8, 0x14u8, 0x14u8, 0x18u8, 0x7Cu8],
        114u8 => [0x7Cu8, 0x08u8, 0x04u8, 0x04u8, 0x08u8],
        115u8 => [0x48u8, 0x54u8, 0x54u8, 0x54u8, 0x20u8],
        116u8 => [0x04u8, 0x3Fu8, 0x44u8, 0x40u8, 0x20u8],
        117u8 => [0x3Cu8, 0x40u8, 0x40u8, 0x20u8, 0x7Cu8],
        118u8 => [0x1Cu8, 0x20u8, 0x40u8, 0x20u8, 0x1Cu8],
        119u8 => [0x3Cu8, 0x40u8, 0x30u8, 0x40u8, 0x3Cu8],
        120u8 => [0x44u8, 0x28u8, 0x10u8, 0x28u8, 0x44u8],
        121u8 => [0x0Cu8, 0x50u8, 0x50u8, 0x50u8, 0x3Cu8],
        122u8 => [0x44u8, 0x64u8, 0x54u8, 0x4Cu8, 0x44u8],
        48u8 => [0x3Eu8, 0x51u8, 0x49u8, 0x45u8, 0x3Eu8],
        49u8 => [0x00u8, 0x42u8, 0x7Fu8, 0x40u8, 0x00u8],
        50u8 => [0x42u8, 0x61u8, 0x51u8, 0x49u8, 0x46u8],
        51u8 => [0x21u8, 0x41u8, 0x45u8, 0x4Bu8, 0x31u8],
        52u8 => [0x18u8, 0x14u8, 0x12u8, 0x7Fu8, 0x10u8],
        53u8 => [0x27u8, 0x45u8, 0x45u8, 0x45u8, 0x39u8],
        54u8 => [0x3Cu8, 0x4Au8, 0x49u8, 0x49u8, 0x30u8],
        55u8 => [0x01u8, 0x71u8, 0x09u8, 0x05u8, 0x03u8],
        56u8 => [0x36u8, 0x49u8, 0x49u8, 0x49u8, 0x36u8],
        57u8 => [0x06u8, 0x49u8, 0x49u8, 0x29u8, 0x1Eu8],
        32u8 => [0x00u8, 0x00u8, 0x00u8, 0x00u8, 0x00u8],
        46u8 => [0x00u8, 0x60u8, 0x60u8, 0x00u8, 0x00u8],
        58u8 => [0x00u8, 0x36u8, 0x36u8, 0x00u8, 0x00u8],
        45u8 => [0x08u8, 0x08u8, 0x08u8, 0x08u8, 0x08u8],
        47u8 => [0x20u8, 0x10u8, 0x08u8, 0x04u8, 0x02u8],
        37u8 => [0x62u8, 0x64u8, 0x08u8, 0x13u8, 0x23u8],
        95u8 => [0x40u8, 0x40u8, 0x40u8, 0x40u8, 0x40u8],
        62u8 => [0x41u8, 0x22u8, 0x14u8, 0x08u8, 0x00u8],
        _ => [0u8, 0u8, 0u8, 0u8, 0u8],
    };
    proof {
        assert(r@ =~= glyph(ch));
    }
    r
}

/// Whether glyph `ch` has a dot at column `dx`, row `dy`.
pub open spec fn glyph_bit(ch: u8, dx: int, dy: int) -> bool {
    0 <= dx < 5 && 0 <= dy < 8 && (glyph(ch)[dx] >> (dy as u8)) & 1u8 != 0u8
}

/// Whether glyph `ch` drawn at `(x, y)` has a dot at `(px, py)`.
pub open spec fn glyph_covers(x: int, y: int, ch: u8, px: int, py: int) -> bool {
    glyph_bit(ch, px - x, py - y)
}

/// Whether `text` drawn at `(x, y)`, six columns a byte, has a dot at
/// `(px, py)`.
pub open spec fn text_covers(x: int, y: int, text: Seq<u8>, n: int, px: int, py: int) -> bool {
    exists|k: int| 0 <= k < n && #[trigger] glyph_covers(x + 6 * k, y, text[k], px, py)
}

impl Framebuffer {
    /// Outlines `rect` one pixel wide.
    pub fn stroke_rect(&mut self, rect: Rect, color: u32)
        requires
            old(self).wf(),
        ensures
            final(self).wf(),
            final(self).same_shape(old(self)),
            rect.width == 0 || rect.height == 0 ==> final(self).pixels@ == old(self).pixels@,
            rect.width != 0 && rect.height != 0 ==> forall|px: int, py: int| 0 <= px < old(self).pitch_pixels && 0 <= py < old(self).height ==>
                #[trigger] final(self).pixel(px, py) == if px < old(self).width && py < old(self).height && (
                    Rect { x: rect.x, y: rect.y, width: rect.width, height: 1 }.contains(px, py)
                    || Rect { x: rect.x, y: sat_sub(rect.spec_bottom(), 1), width: rect.width, height: 1 }.contains(px, py)
                    || Rect { x: rect.x, y: rect.y, width: 1, height: rect.height }.contains(px, py)
                    || Rect { x: sat_sub(rect.spec_right(), 1), y: rect.y, width: 1, height: rect.height }.contains(px, py)) {
                    color
                } else {
                    old(self).pixel(px, py)
                },
    {
        if rect.width == 0 || rect.height == 0 {
            return;
        }
        let b = rect.bottom();
        let r = rect.right();
        let by = if b >= 1 { b - 1 } else { 0 };
        let rx = if r >= 1 { r - 1 } else { 0 };
        self.fill_rect(Rect::new(rect.x, rect.y, rect.width, 1), color);
        self.fill_rect(Rect::new(rect.x, by, rect.width, 1), color);
        self.fill_rect(Rect::new(rect.x, rect.y, 1, rect.height), color);
        self.fill_rect(Rect::new(rx, rect.y, 1, rect.height), color);
    }

    /// Draws the glyph of `ch` with its top-left corner at `(x, y)`.
    pub fn draw_glyph(&mut self, x: usize, y: usize, ch: u8, color: u32)
        requires
            old(self).wf(),
            x + 4 <= usize::MAX,
            y + 7 <= usize::MAX,
        ensures
            final(self).wf(),
            final(self).same_shape(old(self)),
            forall|px: int, py: int| 0 <= px < old(self).pitch_pixels && 0 <= py < old(self).height ==>
                #[trigger] final(self).pixel(px, py) == if glyph_covers(x as int, y as int, ch, px, py) && px < old(self).width && py < old(self).height {
                    color
                } else {
                    old(self).pixel(px, py)
                },
    {
        let g = glyph_5x8(ch);
        let mut dx: usize = 0;
        while dx < 5
            invariant
                self.wf(),
                self.same_shape(old(self)),
                g@ == glyph(ch),
                dx <= 5,
                x + 4 <= usize::MAX,
                y + 7 <= usize::MAX,
                forall|px: int, py: int| 0 <= px < old(self).pitch_pixels && 0 <= py < old(self).height ==>
                    #[trigger] self.pixel(px, py) == if glyph_covers(x as int, y as int, ch, px, py) && px - x < dx && px < old(self).width && py < old(self).height {
                        color
                    } else {
                        old(self).pixel(px, py)
                    },
            decreases 5 - dx,
        {
            let col = g[dx];
            let mut dy: usize = 0;
            while dy < 8
                invariant
                    self.wf(),
                    self.same_shape(old(self)),
                    g@ == glyph(ch),
                    col == glyph(ch)[dx as int],
                    dx < 5,
                    dy <= 8,
                    x + 4 <= usize::MAX,
                    y + 7 <= usize::MAX,
                    forall|px: int, py: int| 0 <= px < old(self).pitch_pixels && 0 <= py < old(self).height ==>
                        #[trigger] self.pixel(px, py) == if glyph_covers(x as int, y as int, ch, px, py)
                            && (px - x < dx || (px - x == dx && py - y < dy)) && px < old(self).width && py < old(self).height {
                            color
                        } else {
                            old(self).pixel(px, py)
                        },
                decreases 8 - dy,
            {
                let d8 = dy as u8;
                if ((col >> d8) & 1u8) != 0u8 {
                    self.put_pixel(x + dx, y + dy, color);
                }
                dy = dy + 1;
            }
            dx = dx + 1;
        }
    }

    /// Draws the bytes of `text` left to right from `(x, y)`, six columns a
    /// byte.
    pub fn draw_text(&mut self, x: usize, y: usize, text: &str, color: u32)
        requires
            old(self).wf(),
            text.spec_bytes().len() == 0 || x + 6 * (text.spec_bytes().len() - 1) + 4 <= usize::MAX,
            y + 7 <= usize::MAX,
        ensures
            final(self).wf(),
            final(self).same_shape(old(self)),
            forall|px: int, py: int| 0 <= px < old(self).pitch_pixels && 0 <= py < old(self).height ==>
                #[trigger] final(self).pixel(px, py) == if text_covers(x as int, y as int, text.spec_bytes(), text.spec_bytes().len() as int, px, py)
                    && px < old(self).width && py < old(self).height {
                    color
                } else {
                    old(self).pixel(px, py)
                },
    {
        let bytes = text.as_bytes();
        let n = bytes.len();
        let mut k: usize = 0;
        while k < n
            invariant
                self.wf(),
                self.same_shape(old(self)),
                n == bytes@.len(),
                bytes@ == text.spec_bytes(),
                n == text.spec_bytes().len(),
                k <= n,
                n == 0 || x + 6 * (n - 1) + 4 <= usize::MAX,
                y + 7 <= usize::MAX,
                forall|px: int, py: int| 0 <= px < old(self).pitch_pixels && 0 <= py < old(self).height ==>
                    #[trigger] self.pixel(px, py) == if text_covers(x as int, y as int, bytes@, k as int, px, py)
                        && px < old(self).width && py < old(self).height {
                        color
                    } else {
                        old(self).pixel(px, py)
                    },
            decreases n - k,
        {
            let gx = x + 6 * k;
            let ghost mid = *self;
            self.draw_glyph(gx, y, bytes[k], color);
            proof {
                assert forall|px: int, py: int| 0 <= px < old(self).pitch_pixels && 0 <= py < old(self).height implies
                    #[trigger] self.pixel(px, py) == if text_covers(x as int, y as int, bytes@, k as int + 1, px, py)
                        && px < old(self).width && py < old(self).height {
                        color
                    } else {
                        old(self).pixel(px, py)
                    } by {
                    if glyph_covers(gx as int, y as int, bytes@[k as int], px, py) {
                        assert(text_covers(x as int, y as int, bytes@, k as int + 1, px, py));
                    } else if text_covers(x as int, y as int, bytes@, k as int + 1, px, py) {
                        let j = choose|j: int| 0 <= j < k + 1 && #[trigger] glyph_covers(x + 6 * j, y as int, bytes@[j], px, py);
                        assert(text_covers(x as int, y as int, bytes@, k as int, px, py));
                    } else {
                        assert(!text_covers(x as int, y as int, bytes@, k as int, px, py));
                    }
                }
            }
            k = k + 1;
        }
    }
}

pub const MAX_BACKBUFFER_WIDTH: usize = 1920;
pub const MAX_BACKBUFFER_HEIGHT: usize = 1080;

/// An off-screen canvas the size of the screen, copied to it on demand.
pub struct BackBuffer {
    pub canvas: Framebuffer,
}

impl BackBuffer {
    /// A black canvas of `width` x `height`, for sizes up to 1920 x 1080.
    pub fn init(width: usize, height: usize) -> (r: Option<Self>)
        ensures
            r is None <==> (width == 0 || height == 0 || width > MAX_BACKBUFFER_WIDTH || height > MAX_BACKBUFFER_HEIGHT),
            r matches Some(b) ==> b.canvas.wf() && b.canvas.width == width && b.canvas.height == height
                && b.canvas.pitch_pixels == width
                && forall|x: int, y: int| 0 <= x < width && 0 <= y < height ==> b.canvas.pixel(x, y) == 0,
    {
        if width == 0 || height == 0 || width > MAX_BACKBUFFER_WIDTH || height > MAX_BACKBUFFER_HEIGHT {
            return None;
        }
        proof {
            assert(height as int * width <= 1080 * 1920) by (nonlinear_arith)
                requires height <= 1080, width <= 1920;
        }
        match Framebuffer::new(width, height, width * 4) {
            Some(canvas) => Some(BackBuffer { canvas }),
            None => None,
        }
    }

    /// The canvas to draw on.
    pub fn canvas(&mut self) -> (r: &mut Framebuffer)
        ensures
            *r == old(self).canvas,
            final(self).canvas == *final(r),
    {
        &mut self.canvas
    }

    /// Copies the visible part of `rect` from the canvas to `front`.
    pub fn present_rect(&self, front: &mut Framebuffer, rect: Rect)
        requires
            self.canvas.wf(),
            old(front).wf(),
            old(front).width >= self.canvas.width,
            old(front).height >= self.canvas.height,
        ensures
            final(front).wf(),
            final(front).same_shape(old(front)),
            forall|px: int, py: int| 0 <= px < old(front).pitch_pixels && 0 <= py < old(front).height ==>
                #[trigger] final(front).pixel(px, py) == if rect.contains(px, py) && px < self.canvas.width && py < self.canvas.height {
                    self.canvas.pixel(px, py)
                } else {
                    old(front).pixel(px, py)
                },
    {
        let c = match rect.clipped(self.canvas.width, self.canvas.height) {
            Some(c) => c,
            None => {
                return;
            },
        };
        let bottom = c.bottom();
        let right = c.right();
        let mut y = c.y;
        while y < bottom
            invariant
                self.canvas.wf(),
                front.wf(),
                front.same_shape(old(front)),
                old(front).width >= self.canvas.width,
                old(front).height >= self.canvas.height,
                rect.spec_clipped(self.canvas.width, self.canvas.height) == Some(c),
                bottom == c.spec_bottom(),
                right == c.spec_right(),
                c.y <= y <= bottom,
                forall|px: int, py: int| 0 <= px < old(front).pitch_pixels && 0 <= py < old(front).height ==>
                    #[trigger] front.pixel(px, py) == if c.contains(px, py) && py < y { self.canvas.pixel(px, py) } else { old(front).pixel(px, py) },
            decreases bottom - y,
        {
            let mut x = c.x;
            while x < right
                invariant
                    self.canvas.wf(),
                    front.wf(),
                    front.same_shape(old(front)),
                    old(front).width >= self.canvas.width,
                    old(front).height >= self.canvas.height,
                    rect.spec_clipped(self.canvas.width, self.canvas.height) == Some(c),
                    bottom == c.spec_bottom(),
                    right == c.spec_right(),
                    c.y <= y < bottom,
                    c.x <= x <= right,
                    forall|px: int, py: int| 0 <= px < old(front).pitch_pixels && 0 <= py < old(front).height ==>
                        #[trigger] front.pixel(px, py) == if c.contains(px, py) && (py < y || (py == y && px < x)) {
                            self.canvas.pixel(px, py)
                        } else {
                            old(front).pixel(px, py)
                        },
                decreases right - x,
            {
                proof {
                    lemma_clipped_inside(rect, self.canvas.width, self.canvas.height, x as int, y as int);
                }
                let v = self.canvas.read_pixel(x, y);
                front.put_pixel(x, y, v);
                x = x + 1;
            }
            y = y + 1;
        }
        proof {
            assert forall|px: int, py: int| 0 <= px < old(front).pitch_pixels && 0 <= py < old(front).height implies
                #[trigger] front.pixel(px, py) == if rect.contains(px, py) && px < self.canvas.width && py < self.canvas.height {
                    self.canvas.pixel(px, py)
                } else {
                    old(front).pixel(px, py)
                } by {
                if c.contains(px, py) {
                    lemma_clipped_inside(rect, self.canvas.width, self.canvas.height, px, py);
                }
            }
        }
    }

    /// Copies the whole canvas to `front`.
    pub fn present_full(&self, front: &mut Framebuffer)
        requires
            self.canvas.wf(),
            old(front).wf(),
            old(front).width >= self.canvas.width,
            old(front).height >= self.canvas.height,
        ensures
            final(front).wf(),
            final(front).same_shape(old(front)),
            forall|px: int, py: int| 0 <= px < old(front).pitch_pixels && 0 <= py < old(front).height ==>
                #[trigger] final(front).pixel(px, py) == if px < self.canvas.width && py < self.canvas.height {
                    self.canvas.pixel(px, py)
                } else {
                    old(front).pixel(px, py)
                },
    {
        self.present_rect(front, Rect::new(0, 0, self.canvas.width, self.canvas.height));
    }
}

pub const MAX_DAMAGE_RECTS: usize = 16;

/// Areas of the screen to redraw: up to sixteen rectangles; past that they
/// are merged into one and the tracker remembers it overflowed.
pub struct DamageTracker {
    pub rects: Vec<Rect>,
    pub len: usize,
    pub overflow: bool,
}

impl DamageTracker {
    pub open spec fn wf(&self) -> bool {
        &&& self.rects@.len() == MAX_DAMAGE_RECTS
        &&& self.len <= MAX_DAMAGE_RECTS
    }

    /// The tracked rectangles.
    pub open spec fn marked(&self) -> Seq<Rect> {
        self.rects@.take(self.len as int)
    }

    pub fn new() -> (r: Self)
        ensures
            r.wf(),
            r.marked().len() == 0,
            !r.overflow,
    {
        let mut rects: Vec<Rect> = Vec::new();
        let mut i: usize = 0;
        while i < MAX_DAMAGE_RECTS
            invariant
                i <= MAX_DAMAGE_RECTS,
                rects@.len() == i,
            decreases MAX_DAMAGE_RECTS - i,
        {
            rects.push(Rect::new(0, 0, 0, 0));
            i = i + 1;
        }
        DamageTracker { rects, len: 0, overflow: false }
    }

    /// Records `rect`; empty rectangles are ignored, and a full list is
    /// collapsed into the union of its first entry and `rect`.
    pub fn mark(&mut self, rect: Rect)
        requires
            old(self).wf(),
        ensures
            final(self).wf(),
            rect.width == 0 || rect.height == 0 ==> final(self).marked() == old(self).marked() && final(self).overflow == old(self).overflow,
            rect.width != 0 && rect.height != 0 && old(self).len < MAX_DAMAGE_RECTS ==>
                final(self).marked() == old(self).marked().push(rect) && final(self).overflow == old(self).overflow,
            rect.width != 0 && rect.height != 0 && old(self).len >= MAX_DAMAGE_RECTS ==>
                final(self).marked() == seq![old(self).rects@[0].spec_union(rect)] && final(self).overflow,
    {
        if rect.width == 0 || rect.height == 0 {
            return;
        }
        if self.len < MAX_DAMAGE_RECTS {
            self.rects.set(self.len, rect);
            self.len = self.len + 1;
            proof {
                assert(self.marked() =~= old(self).marked().push(rect));
            }
        } else {
            self.overflow = true;
            let u = self.rects[0].union(rect);
            self.rects.set(0, u);
            self.len = 1;
            proof {
                assert(self.marked() =~= seq![old(self).rects@[0].spec_union(rect)]);
            }
        }
    }

    /// Forgets every rectangle and the overflow.
    pub fn clear(&mut self)
        requires
            old(self).wf(),
        ensures
            final(self).wf(),
            final(self).marked().len() == 0,
            !final(self).overflow,
    {
        self.len = 0;
        self.overflow = false;
    }

    pub fn is_empty(&self) -> (r: bool)
        ensures
            r == (self.len == 0),
    {
        self.len == 0
    }

    /// The tracked rectangles, oldest first.
    pub fn rects(&self) -> (r: &[Rect])
        requires
            self.wf(),
        ensures
            r@ == self.marked(),
    {
        vstd::slice::slice_subrange(self.rects.as_slice(), 0, self.len)
    }

    pub fn overflowed(&self) -> (r: bool)
        ensures
            r == self.overflow,
    {
        self.overflow
    }
}

} // verus!
