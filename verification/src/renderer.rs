//! The frame that shows the particles, painted in software.
//!
//! A frame is a grid of pixels in blue, green, red, opacity order, with the opacity multiplied
//! in. Discs are drawn with additive blending: where they overlap, their light adds up, to full
//! strength at most. Between frames only the rectangle that the previous frame touched is cleared.
use vstd::prelude::*;

use crate::arithmetic::{Arithmetic, Model, Operation};
use crate::binary32::{Binary32, ONE, ZERO};
use crate::particles::Color;

verus! {

/// The pattern of 0.5: the offset of a pixel's centre.
pub const HALF: u32 = 0x3f00_0000;

/// The pattern of 2.
pub const TWO: u32 = 0x4000_0000;

/// The pattern of 3.
pub const THREE: u32 = 0x4040_0000;

/// The pattern of 255: a channel's full strength.
pub const FULL: u32 = 0x437f_0000;

/// The pattern of 0.55: the distance, in sizes, from which nothing shows.
pub const OUTER_EDGE: u32 = 0x3f0c_cccd;

/// The pattern of 0.10: the distance, in sizes, up to which a particle shows in full.
pub const INNER_EDGE: u32 = 0x3dcc_cccd;

/// The pattern of 0.001: the strength up to which a pixel is left alone.
pub const FAINT: u32 = 0x3a83_126f;

/// A disc to paint.
#[derive(Clone, Copy, Debug)]
pub struct Instance {
    /// The centre, in pixels.
    pub pos: [Binary32; 2],
    /// The diameter, in pixels.
    pub size: Binary32,
    /// Red, green, blue and opacity, with the opacity multiplied in.
    pub color: [Binary32; 4],
}

/// One pixel.
#[derive(Clone, Copy, Debug, PartialEq, Eq, Structural)]
pub struct Pixel {
    pub b: u8,
    pub g: u8,
    pub r: u8,
    pub a: u8,
}

impl Pixel {
    /// No channel is stronger than the opacity.
    pub open spec fn premultiplied(self) -> bool {
        self.b <= self.a && self.g <= self.a && self.r <= self.a
    }
}

/// The pixels from `min_x`, `min_y` up to, and without, `max_x`, `max_y`.
#[derive(Clone, Copy, Debug, PartialEq, Eq, Structural)]
pub struct Rect {
    pub min_x: u32,
    pub min_y: u32,
    pub max_x: u32,
    pub max_y: u32,
}

/// A pixel that shows nothing.
#[verifier::allow_in_spec]
pub fn blank() -> (p: Pixel)
    returns
        (Pixel { b: 0, g: 0, r: 0, a: 0 }),
{
    Pixel { b: 0, g: 0, r: 0, a: 0 }
}

impl Rect {
    /// The pixel at `x`, `y` lies in the rectangle.
    pub open spec fn contains(self, x: int, y: int) -> bool {
        self.min_x <= x < self.max_x && self.min_y <= y < self.max_y
    }

    /// The rectangle holds no pixel.
    pub open spec fn empty(self) -> bool {
        self.min_x >= self.max_x || self.min_y >= self.max_y
    }

    /// The smallest rectangle around both.
    pub open spec fn joined(self, other: Rect) -> Rect {
        Rect {
            min_x: if self.min_x <= other.min_x {
                self.min_x
            } else {
                other.min_x
            },
            min_y: if self.min_y <= other.min_y {
                self.min_y
            } else {
                other.min_y
            },
            max_x: if self.max_x >= other.max_x {
                self.max_x
            } else {
                other.max_x
            },
            max_y: if self.max_y >= other.max_y {
                self.max_y
            } else {
                other.max_y
            },
        }
    }

    /// Whether the rectangle holds no pixel.
    pub fn is_empty(&self) -> (r: bool)
        ensures
            r == self.empty(),
    {
        self.min_x >= self.max_x || self.min_y >= self.max_y
    }

    /// The smallest rectangle around both.
    pub fn join(&self, other: &Rect) -> (r: Rect)
        ensures
            r == self.joined(*other),
    {
        Rect {
            min_x: if self.min_x <= other.min_x {
                self.min_x
            } else {
                other.min_x
            },
            min_y: if self.min_y <= other.min_y {
                self.min_y
            } else {
                other.min_y
            },
            max_x: if self.max_x >= other.max_x {
                self.max_x
            } else {
                other.max_x
            },
            max_y: if self.max_y >= other.max_y {
                self.max_y
            } else {
                other.max_y
            },
        }
    }
}

impl Instance {
    /// The disc has a place and a size, and channels between none and full.
    pub open spec fn drawable(self) -> bool {
        &&& self.pos[0].is_finite()
        &&& self.pos[1].is_finite()
        &&& self.size.is_finite()
        &&& self.size.scaled() > 0
        &&& self.color[0].is_finite() && 0 <= self.color[0].scaled() <= Binary32::unit()
        &&& self.color[1].is_finite() && 0 <= self.color[1].scaled() <= Binary32::unit()
        &&& self.color[2].is_finite() && 0 <= self.color[2].scaled() <= Binary32::unit()
        &&& self.color[3].is_finite() && 0 <= self.color[3].scaled() <= Binary32::unit()
    }

    /// The disc has a place and a size, and a color that can be blended.
    pub open spec fn paintable(self) -> bool {
        &&& self.pos[0].is_finite()
        &&& self.pos[1].is_finite()
        &&& self.size.is_finite()
        &&& self.size.scaled() > 0
        &&& (Color {
            r: self.color[0],
            g: self.color[1],
            b: self.color[2],
            a: self.color[3],
        }).premultiplied()
    }

    /// A disc of the given place, size and color.
    pub fn new(pos: [Binary32; 2], size: Binary32, color_premul: Color) -> (i: Self)
        ensures
            i.pos == pos,
            i.size == size,
            i.color@ == seq![color_premul.r, color_premul.g, color_premul.b, color_premul.a],
    {
        Instance {
            pos,
            size,
            color: [color_premul.r, color_premul.g, color_premul.b, color_premul.a],
        }
    }
}

impl Model {
    /// The first pixel that a disc reaches along an axis.
    pub open spec fn span_start(self, centre: Binary32, size: Binary32) -> u32 {
        let start = self.sub(centre, self.div(size, Binary32::from_bits(TWO))).larger(
            Binary32::from_bits(ZERO),
        ).floor_nat();
        if start <= u32::MAX {
            start as u32
        } else {
            u32::MAX
        }
    }

    /// The pixel after the last one that a disc reaches along an axis of `extent` pixels.
    pub open spec fn span_end(self, centre: Binary32, size: Binary32, extent: u32) -> u32 {
        let end = self.add(centre, self.div(size, Binary32::from_bits(TWO))).smaller(
            self.unsigned(extent as u64),
        ).ceil_nat();
        if end <= extent {
            end as u32
        } else {
            extent
        }
    }

    /// The pixels of a frame that a disc may reach.
    pub open spec fn footprint(self, i: Instance, width: u32, height: u32) -> Rect {
        Rect {
            min_x: self.span_start(i.pos[0], i.size),
            min_y: self.span_start(i.pos[1], i.size),
            max_x: self.span_end(i.pos[0], i.size, width),
            max_y: self.span_end(i.pos[1], i.size, height),
        }
    }

    /// The distance along an axis from a disc's centre to the centre of a pixel.
    pub open spec fn offset(self, place: int, centre: Binary32) -> Binary32 {
        self.sub(self.add(self.unsigned(place as u64), Binary32::from_bits(HALF)), centre)
    }

    /// The distance from a disc's centre to the centre of a pixel, in sizes of the disc.
    pub open spec fn distance(self, i: Instance, x: int, y: int) -> Binary32 {
        let dx = self.offset(x, i.pos[0]);
        let dy = self.offset(y, i.pos[1]);
        self.div(self.sqrt(self.add(self.mul(dx, dx), self.mul(dy, dy))), i.size)
    }

    /// The strength of a disc at a distance: full inside, none outside, smooth between.
    pub open spec fn falloff(self, d: Binary32) -> Binary32 {
        if Binary32::from_bits(OUTER_EDGE).at_most(d) {
            Binary32::from_bits(ZERO)
        } else if d.at_most(Binary32::from_bits(INNER_EDGE)) {
            Binary32::from_bits(ONE)
        } else {
            let t = self.div(
                self.sub(d, Binary32::from_bits(OUTER_EDGE)),
                self.sub(Binary32::from_bits(INNER_EDGE), Binary32::from_bits(OUTER_EDGE)),
            );
            self.mul(
                self.mul(t, t),
                self.sub(Binary32::from_bits(THREE), self.mul(Binary32::from_bits(TWO), t)),
            )
        }
    }

    /// A pixel's channel with light of strength `c` added, up to full strength.
    pub open spec fn lit(self, c: Binary32, under: u8) -> u8 {
        let below = self.div(self.unsigned(under as u64), Binary32::from_bits(FULL));
        let level = self.mul(
            self.add(c, below).clamped(Binary32::from_bits(ZERO), Binary32::from_bits(ONE)),
            Binary32::from_bits(FULL),
        ).floor_nat();
        if level <= 255 {
            level as u8
        } else {
            255
        }
    }

    /// A pixel with the light of a disc of strength `soft` added.
    pub open spec fn blended(self, color: [Binary32; 4], soft: Binary32, under: Pixel) -> Pixel {
        Pixel {
            b: self.lit(self.mul(color[2], soft), under.b),
            g: self.lit(self.mul(color[1], soft), under.g),
            r: self.lit(self.mul(color[0], soft), under.r),
            a: self.lit(self.mul(color[3], soft), under.a),
        }
    }

    /// A pixel with the light of a disc added.
    pub open spec fn shaded(self, i: Instance, x: int, y: int, under: Pixel) -> Pixel {
        let soft = self.falloff(self.distance(i, x, y));
        if soft.at_most(Binary32::from_bits(FAINT)) {
            under
        } else {
            self.blended(i.color, soft, under)
        }
    }

    /// The pixel at `x`, `y` of a frame on which the discs are painted in their order.
    pub open spec fn painted(
        self,
        instances: Seq<Instance>,
        width: u32,
        height: u32,
        x: int,
        y: int,
    ) -> Pixel
        decreases instances.len(),
    {
        if instances.len() == 0 {
            blank()
        } else {
            let under = self.painted(instances.drop_last(), width, height, x, y);
            if self.footprint(instances.last(), width, height).contains(x, y) {
                self.shaded(instances.last(), x, y, under)
            } else {
                under
            }
        }
    }

    /// The smallest rectangle around the pixels that the discs may reach.
    pub open spec fn touched(
        self,
        instances: Seq<Instance>,
        width: u32,
        height: u32,
    ) -> Option<Rect>
        decreases instances.len(),
    {
        if instances.len() == 0 {
            None
        } else {
            let rest = self.touched(instances.drop_last(), width, height);
            let r = self.footprint(instances.last(), width, height);
            if r.empty() {
                rest
            } else {
                match rest {
                    None => Some(r),
                    Some(q) => Some(q.joined(r)),
                }
            }
        }
    }
}

/// The index of a pixel's first byte.
pub open spec fn pixel_index(width: int, x: int, y: int) -> int {
    (y * width + x) * 4
}

/// The pixel at `x`, `y` of a frame of bytes.
pub open spec fn pixel_of(bytes: Seq<u8>, width: int, x: int, y: int) -> Pixel {
    let i = pixel_index(width, x, y);
    Pixel { b: bytes[i], g: bytes[i + 1], r: bytes[i + 2], a: bytes[i + 3] }
}

/// A pixel's bytes lie inside the frame.
proof fn lemma_pixel_inside(width: int, height: int, x: int, y: int)
    requires
        0 <= x < width,
        0 <= y < height,
    ensures
        0 <= pixel_index(width, x, y),
        pixel_index(width, x, y) + 4 <= width * height * 4,
        0 <= y * width * 4 <= pixel_index(width, x, y),
        pixel_index(width, x, y) == y * width * 4 + x * 4,
{
    assert(0 <= y * width && y * width + width <= width * height) by (nonlinear_arith)
        requires
            0 <= y < height,
            0 < width,
    ;
}

/// The bytes of two pixels do not overlap.
proof fn lemma_pixels_apart(width: int, x: int, y: int, u: int, v: int)
    requires
        0 <= x < width,
        0 <= u < width,
        x != u || y != v,
    ensures
        pixel_index(width, x, y) + 4 <= pixel_index(width, u, v) || pixel_index(width, u, v) + 4
            <= pixel_index(width, x, y),
{
    if y < v {
        assert(y * width + width <= v * width) by (nonlinear_arith)
            requires
                y < v,
                0 < width,
        ;
    } else if v < y {
        assert(v * width + width <= y * width) by (nonlinear_arith)
            requires
                v < y,
                0 < width,
        ;
    }
}

/// The index of a pixel's first byte in a frame of `len` bytes.
fn index(len: usize, width: u32, height: u32, x: u32, y: u32) -> (i: usize)
    requires
        x < width,
        y < height,
        len == width * height * 4,
    ensures
        i == pixel_index(width as int, x as int, y as int),
        i + 4 <= len,
{
    proof {
        lemma_pixel_inside(width as int, height as int, x as int, y as int);
    }
    assert(y * width * 4 == y * (width * 4)) by (nonlinear_arith);
    assert(width * 4 <= width * height * 4) by (nonlinear_arith)
        requires
            height >= 1,
            width >= 0,
    ;
    (y as usize) * ((width as usize) * 4) + (x as usize) * 4
}

/// Reads the pixel at `x`, `y`.
fn get(bytes: &Vec<u8>, width: u32, height: u32, x: u32, y: u32) -> (p: Pixel)
    requires
        x < width,
        y < height,
        bytes@.len() == width * height * 4,
    ensures
        p == pixel_of(bytes@, width as int, x as int, y as int),
{
    let i: usize = index(bytes.len(), width, height, x, y);
    Pixel { b: bytes[i], g: bytes[i + 1], r: bytes[i + 2], a: bytes[i + 3] }
}

/// Writes the pixel at `x`, `y`.
fn put(bytes: &mut Vec<u8>, width: u32, height: u32, x: u32, y: u32, p: Pixel)
    requires
        x < width,
        y < height,
        old(bytes)@.len() == width * height * 4,
    ensures
        final(bytes)@.len() == old(bytes)@.len(),
        forall|u: int, v: int|
            0 <= u < width && 0 <= v < height ==> #[trigger] pixel_of(
                final(bytes)@,
                width as int,
                u,
                v,
            ) == (if u == x && v == y {
                p
            } else {
                pixel_of(old(bytes)@, width as int, u, v)
            }),
{
    let i: usize = index(bytes.len(), width, height, x, y);
    bytes.set(i, p.b);
    bytes.set(i + 1, p.g);
    bytes.set(i + 2, p.r);
    bytes.set(i + 3, p.a);
    proof {
        assert forall|u: int, v: int| 0 <= u < width && 0 <= v < height implies #[trigger] pixel_of(
            bytes@,
            width as int,
            u,
            v,
        ) == (if u == x && v == y {
            p
        } else {
            pixel_of(old(bytes)@, width as int, u, v)
        }) by {
            lemma_pixel_inside(width as int, height as int, u, v);
            if u != x || v != y {
                lemma_pixels_apart(width as int, x as int, y as int, u, v);
            }
        }
    }
}

/// Blanks the pixels of `r`.
fn clear(bytes: &mut Vec<u8>, width: u32, height: u32, r: Rect)
    requires
        r.max_x <= width,
        r.max_y <= height,
        old(bytes)@.len() == width * height * 4,
    ensures
        final(bytes)@.len() == old(bytes)@.len(),
        forall|u: int, v: int|
            0 <= u < width && 0 <= v < height ==> #[trigger] pixel_of(
                final(bytes)@,
                width as int,
                u,
                v,
            ) == (if r.contains(u, v) {
                blank()
            } else {
                pixel_of(old(bytes)@, width as int, u, v)
            }),
{
    let mut y: u32 = r.min_y;
    while y < r.max_y
        invariant
            r.max_x <= width,
            r.max_y <= height,
            r.min_y <= y,
            bytes@.len() == old(bytes)@.len() == width * height * 4,
            forall|u: int, v: int|
                0 <= u < width && 0 <= v < height ==> #[trigger] pixel_of(
                    bytes@,
                    width as int,
                    u,
                    v,
                ) == (if r.contains(u, v) && v < y {
                    blank()
                } else {
                    pixel_of(old(bytes)@, width as int, u, v)
                }),
        decreases r.max_y - y,
    {
        let mut x: u32 = r.min_x;
        while x < r.max_x
            invariant
                r.max_x <= width,
                r.max_y <= height,
                r.min_x <= x,
                r.min_y <= y < r.max_y,
                bytes@.len() == old(bytes)@.len() == width * height * 4,
                forall|u: int, v: int|
                    0 <= u < width && 0 <= v < height ==> #[trigger] pixel_of(
                        bytes@,
                        width as int,
                        u,
                        v,
                    ) == (if r.contains(u, v) && (v < y || v == y && u < x) {
                        blank()
                    } else {
                        pixel_of(old(bytes)@, width as int, u, v)
                    }),
            decreases r.max_x - x,
        {
            put(bytes, width, height, x, y, blank());
            x = x + 1;
        }
        y = y + 1;
    }
}

impl<F: Fn(Operation) -> Binary32> Arithmetic<F> {
    /// The first pixel that a disc reaches along an axis.
    fn span_start(&self, centre: Binary32, size: Binary32) -> (r: u32)
        requires
            self.total(),
        ensures
            forall|m: Model| #[trigger] self.modelled_by(m) ==> r == m.span_start(centre, size),
    {
        let radius = self.div(size, Binary32::from_bits(TWO));
        let start = self.sub(centre, radius).max(Binary32::from_bits(ZERO));
        start.floor_to(u32::MAX as u64) as u32
    }

    /// The pixel after the last one that a disc reaches along an axis of `extent` pixels.
    fn span_end(&self, centre: Binary32, size: Binary32, extent: u32) -> (r: u32)
        requires
            self.total(),
        ensures
            r <= extent,
            forall|m: Model| #[trigger]
                self.modelled_by(m) ==> r == m.span_end(centre, size, extent),
    {
        let radius = self.div(size, Binary32::from_bits(TWO));
        let end = self.add(centre, radius).min(self.unsigned(extent as u64));
        end.ceil_to(extent as u64) as u32
    }

    /// The pixels of a frame that a disc may reach.
    fn footprint(&self, i: &Instance, width: u32, height: u32) -> (r: Rect)
        requires
            self.total(),
        ensures
            r.max_x <= width,
            r.max_y <= height,
            forall|m: Model| #[trigger]
                self.modelled_by(m) ==> r == m.footprint(*i, width, height),
    {
        Rect {
            min_x: self.span_start(i.pos[0], i.size),
            min_y: self.span_start(i.pos[1], i.size),
            max_x: self.span_end(i.pos[0], i.size, width),
            max_y: self.span_end(i.pos[1], i.size, height),
        }
    }

    /// The distance along an axis from a disc's centre to the centre of a pixel.
    fn offset(&self, place: u32, centre: Binary32) -> (r: Binary32)
        requires
            self.total(),
        ensures
            forall|m: Model| #[trigger]
                self.modelled_by(m) ==> r == m.offset(place as int, centre),
    {
        self.sub(self.add(self.unsigned(place as u64), Binary32::from_bits(HALF)), centre)
    }

    /// The distance from a disc's centre to the centre of a pixel, in sizes of the disc.
    fn distance(&self, i: &Instance, x: u32, y: u32) -> (r: Binary32)
        requires
            self.total(),
        ensures
            forall|m: Model| #[trigger]
                self.modelled_by(m) ==> r == m.distance(*i, x as int, y as int),
    {
        let dy = self.offset(y, i.pos[1]);
        let dy2 = self.mul(dy, dy);
        let dx = self.offset(x, i.pos[0]);
        let dist = self.sqrt(self.add(self.mul(dx, dx), dy2));
        self.div(dist, i.size)
    }

    /// The strength of a disc at a distance.
    fn falloff(&self, d: Binary32) -> (r: Binary32)
        requires
            self.total(),
        ensures
            forall|m: Model| #[trigger] self.modelled_by(m) ==> r == m.falloff(d),
    {
        let outer = Binary32::from_bits(OUTER_EDGE);
        let inner = Binary32::from_bits(INNER_EDGE);
        if outer.le(d) {
            Binary32::from_bits(ZERO)
        } else if d.le(inner) {
            Binary32::from_bits(ONE)
        } else {
            let t = self.div(self.sub(d, outer), self.sub(inner, outer));
            self.mul(
                self.mul(t, t),
                self.sub(Binary32::from_bits(THREE), self.mul(Binary32::from_bits(TWO), t)),
            )
        }
    }

    /// A pixel's channel with light of strength `c` added, up to full strength.
    fn light(&self, c: Binary32, under: u8) -> (r: u8)
        requires
            self.total(),
        ensures
            forall|m: Model| #[trigger] self.modelled_by(m) ==> r == m.lit(c, under),
    {
        let zero = Binary32::from_bits(ZERO);
        let one = Binary32::from_bits(ONE);
        let full = Binary32::from_bits(FULL);
        let below = self.div(self.unsigned(under as u64), full);
        let level = self.mul(self.add(c, below).clamp(zero, one), full);
        level.floor_to(255) as u8
    }

    /// A pixel with the light of a disc added.
    fn shade(&self, i: &Instance, x: u32, y: u32, under: Pixel) -> (p: Pixel)
        requires
            self.total(),
        ensures
            forall|m: Model| #[trigger]
                self.modelled_by(m) ==> p == m.shaded(*i, x as int, y as int, under),
    {
        let soft = self.falloff(self.distance(i, x, y));
        if soft.le(Binary32::from_bits(FAINT)) {
            under
        } else {
            let a = self.mul(i.color[3], soft);
            let r = self.mul(i.color[0], soft);
            let g = self.mul(i.color[1], soft);
            let b = self.mul(i.color[2], soft);
            Pixel {
                b: self.light(b, under.b),
                g: self.light(g, under.g),
                r: self.light(r, under.r),
                a: self.light(a, under.a),
            }
        }
    }

    /// Paints a disc on the pixels of `r`.
    fn paint(&self, bytes: &mut Vec<u8>, width: u32, height: u32, i: &Instance, r: Rect)
        requires
            self.total(),
            r.max_x <= width,
            r.max_y <= height,
            old(bytes)@.len() == width * height * 4,
        ensures
            final(bytes)@.len() == old(bytes)@.len(),
            forall|u: int, v: int|
                0 <= u < width && 0 <= v < height && !r.contains(u, v) ==> #[trigger] pixel_of(
                    final(bytes)@,
                    width as int,
                    u,
                    v,
                ) == pixel_of(old(bytes)@, width as int, u, v),
            forall|m: Model, u: int, v: int|
                #![trigger self.modelled_by(m), pixel_of(final(bytes)@, width as int, u, v)]
                self.modelled_by(m) && 0 <= u < width && 0 <= v < height && r.contains(u, v)
                    ==> pixel_of(final(bytes)@, width as int, u, v) == m.shaded(
                    *i,
                    u,
                    v,
                    pixel_of(old(bytes)@, width as int, u, v),
                ),
    {
        let mut y: u32 = r.min_y;
        while y < r.max_y
            invariant
                self.total(),
                r.max_x <= width,
                r.max_y <= height,
                r.min_y <= y,
                bytes@.len() == old(bytes)@.len() == width * height * 4,
                forall|u: int, v: int|
                    0 <= u < width && 0 <= v < height && !(r.contains(u, v) && v < y)
                        ==> #[trigger] pixel_of(bytes@, width as int, u, v) == pixel_of(
                        old(bytes)@,
                        width as int,
                        u,
                        v,
                    ),
                forall|m: Model, u: int, v: int|
                    #![trigger self.modelled_by(m), pixel_of(bytes@, width as int, u, v)]
                    self.modelled_by(m) && 0 <= u < width && 0 <= v < height && r.contains(u, v)
                        && v < y ==> pixel_of(bytes@, width as int, u, v) == m.shaded(
                        *i,
                        u,
                        v,
                        pixel_of(old(bytes)@, width as int, u, v),
                    ),
            decreases r.max_y - y,
        {
            let mut x: u32 = r.min_x;
            while x < r.max_x
                invariant
                    self.total(),
                    r.max_x <= width,
                    r.max_y <= height,
                    r.min_x <= x,
                    r.min_y <= y < r.max_y,
                    bytes@.len() == old(bytes)@.len() == width * height * 4,
                    forall|u: int, v: int|
                        0 <= u < width && 0 <= v < height && !(r.contains(u, v) && (v < y || v == y
                            && u < x)) ==> #[trigger] pixel_of(bytes@, width as int, u, v)
                            == pixel_of(old(bytes)@, width as int, u, v),
                    forall|m: Model, u: int, v: int|
                        #![trigger self.modelled_by(m), pixel_of(bytes@, width as int, u, v)]
                        self.modelled_by(m) && 0 <= u < width && 0 <= v < height && r.contains(u, v)
                            && (v < y || v == y && u < x) ==> pixel_of(bytes@, width as int, u, v)
                            == m.shaded(*i, u, v, pixel_of(old(bytes)@, width as int, u, v)),
                decreases r.max_x - x,
            {
                let under = get(bytes, width, height, x, y);
                let p = self.shade(i, x, y, under);
                put(bytes, width, height, x, y, p);
                x = x + 1;
            }
            y = y + 1;
        }
    }
}

/// At least one.
pub open spec fn positive(n: u32) -> u32 {
    if n == 0 {
        1
    } else {
        n
    }
}

/// The bytes of a frame with the given sides, each taken as at least one pixel.
pub open spec fn frame_len(width: u32, height: u32) -> int {
    positive(width) * positive(height) * 4
}

/// Whether the bytes of a frame with the given sides can be held in memory.
pub fn frame_fits(width: u32, height: u32) -> (r: bool)
    ensures
        r == (frame_len(width, height) <= isize::MAX),
{
    let columns: u128 = if width == 0 {
        1
    } else {
        width as u128
    };
    let rows: u128 = if height == 0 {
        1
    } else {
        height as u128
    };
    assert(columns * rows <= 0xffff_ffff * 0xffff_ffff) by (nonlinear_arith)
        requires
            columns <= 0xffff_ffff,
            rows <= 0xffff_ffff,
    ;
    columns * rows * 4 <= isize::MAX as u128
}

/// A blank frame of bytes.
fn blank_frame(width: u32, height: u32) -> (bytes: Vec<u8>)
    requires
        width >= 1,
        height >= 1,
        width * height * 4 <= isize::MAX,
    ensures
        bytes@ == Seq::new((width * height * 4) as nat, |i: int| 0u8),
{
    assert(width * 4 <= width * height * 4) by (nonlinear_arith)
        requires
            height >= 1,
            width >= 1,
    ;
    assert((width * 4) * height == width * height * 4) by (nonlinear_arith);
    let bytes = vec![0u8; (width as usize) * 4 * (height as usize)];
    assert(bytes@ =~= Seq::new((width * height * 4) as nat, |i: int| 0u8));
    bytes
}

/// Paints frames, and remembers what the last one touched.
pub struct Renderer {
    width: u32,
    height: u32,
    compact_buffer: Vec<u8>,
    was_empty: bool,
    dirty_rect: Option<Rect>,
}

impl Renderer {
    /// The pixels per row.
    pub closed spec fn columns(&self) -> u32 {
        self.width
    }

    /// The rows.
    pub closed spec fn rows(&self) -> u32 {
        self.height
    }

    /// The frame, row by row.
    pub closed spec fn bytes(&self) -> Seq<u8> {
        self.compact_buffer@
    }

    /// The last frame showed nothing.
    pub closed spec fn idle(&self) -> bool {
        self.was_empty
    }

    /// The rectangle that the last frame touched.
    pub closed spec fn dirty(&self) -> Option<Rect> {
        self.dirty_rect
    }

    /// The pixel at `x`, `y`.
    pub open spec fn pixel(&self, x: int, y: int) -> Pixel {
        pixel_of(self.bytes(), self.columns() as int, x, y)
    }

    /// The pixel at `x`, `y` lies in the rectangle that the last frame touched.
    pub open spec fn touched(&self, x: int, y: int) -> bool {
        match self.dirty() {
            Some(r) => r.contains(x, y),
            None => false,
        }
    }

    /// The frame has at least one pixel and all its bytes, what was touched lies inside it, and
    /// what was not touched is blank.
    pub open spec fn wf(&self) -> bool {
        &&& self.columns() >= 1
        &&& self.rows() >= 1
        &&& self.bytes().len() == self.columns() * self.rows() * 4
        &&& self.dirty() matches Some(r) ==> !r.empty() && r.max_x <= self.columns() && r.max_y
            <= self.rows()
        &&& self.idle() ==> self.dirty() is None
        &&& forall|x: int, y: int|
            0 <= x < self.columns() && 0 <= y < self.rows() && !self.touched(x, y)
                ==> #[trigger] self.pixel(x, y) == blank()
    }

    /// The frame has the given sides, is blank, and nothing was painted on it yet.
    pub open spec fn fresh(&self, width: u32, height: u32) -> bool {
        &&& self.columns() == positive(width)
        &&& self.rows() == positive(height)
        &&& self.bytes() == Seq::new(frame_len(width, height) as nat, |i: int| 0u8)
        &&& !self.idle()
        &&& self.dirty() is None
    }

    /// `after` is this frame given new sides.
    pub open spec fn resized(&self, width: u32, height: u32, after: Renderer) -> bool {
        if self.columns() == positive(width) && self.rows() == positive(height) {
            after == *self
        } else {
            after.fresh(width, height)
        }
    }

    /// A frame of the discs is to be shown: it has discs, or the last one had.
    pub open spec fn worth_showing(&self, instances: Seq<Instance>) -> bool {
        instances.len() > 0 || !self.idle()
    }

    /// The frame shows the discs, painted in their order, and nothing else.
    pub open spec fn shows(&self, m: Model, instances: Seq<Instance>) -> bool {
        forall|x: int, y: int|
            0 <= x < self.columns() && 0 <= y < self.rows() ==> #[trigger] self.pixel(x, y)
                == m.painted(instances, self.columns(), self.rows(), x, y)
    }

    /// A blank frame of the given sides, each at least one pixel.
    pub fn new(width: u32, height: u32) -> (r: Self)
        requires
            frame_len(width, height) <= isize::MAX,
        ensures
            r.wf(),
            r.fresh(width, height),
    {
        let width = if width == 0 {
            1
        } else {
            width
        };
        let height = if height == 0 {
            1
        } else {
            height
        };
        let r = Renderer {
            width,
            height,
            compact_buffer: blank_frame(width, height),
            was_empty: false,
            dirty_rect: None,
        };
        proof {
            r.lemma_blank();
        }
        r
    }

    /// A frame of zeros shows nothing.
    proof fn lemma_blank(&self)
        requires
            self.columns() >= 1,
            self.rows() >= 1,
            self.bytes() == Seq::new((self.columns() * self.rows() * 4) as nat, |i: int| 0u8),
        ensures
            forall|x: int, y: int|
                0 <= x < self.columns() && 0 <= y < self.rows() ==> #[trigger] self.pixel(x, y)
                    == blank(),
    {
        assert forall|x: int, y: int|
            0 <= x < self.columns() && 0 <= y < self.rows() implies #[trigger] self.pixel(x, y)
            == blank() by {
            lemma_pixel_inside(self.columns() as int, self.rows() as int, x, y);
        }
    }

    /// Gives the frame new sides, each at least one pixel. A frame of these sides stays as it is,
    /// any other starts blank.
    pub fn resize(&mut self, width: u32, height: u32)
        requires
            old(self).wf(),
            frame_len(width, height) <= isize::MAX,
        ensures
            final(self).wf(),
            old(self).resized(width, height, *final(self)),
    {
        let width = if width == 0 {
            1
        } else {
            width
        };
        let height = if height == 0 {
            1
        } else {
            height
        };
        if self.width == width && self.height == height {
            return;
        }
        self.width = width;
        self.height = height;
        self.compact_buffer = blank_frame(width, height);
        self.was_empty = false;
        self.dirty_rect = None;
        proof {
            self.lemma_blank();
        }
    }

    /// Paints the discs in their order on an otherwise blank frame. Returns whether the frame is
    /// to be shown: a frame without discs right after another one is not.
    pub fn render<F: Fn(Operation) -> Binary32>(
        &mut self,
        instances: &[Instance],
        ops: &Arithmetic<F>,
    ) -> (show: bool)
        requires
            old(self).wf(),
            ops.total(),
        ensures
            final(self).wf(),
            final(self).columns() == old(self).columns(),
            final(self).rows() == old(self).rows(),
            show == old(self).worth_showing(instances@),
            show == (instances@.len() > 0 || !old(self).idle()),
            !show ==> *final(self) == *old(self),
            final(self).idle() == (instances@.len() == 0),
            forall|m: Model| #[trigger]
                ops.modelled_by(m) ==> final(self).shows(m, instances@),
            forall|m: Model| #[trigger]
                ops.modelled_by(m) ==> final(self).dirty() == m.touched(
                    instances@,
                    final(self).columns(),
                    final(self).rows(),
                ),
    {
        if instances.len() == 0 && self.was_empty {
            return false;
        }
        let ghost before = *self;
        self.was_empty = instances.len() == 0;
        if let Some(r) = self.dirty_rect {
            clear(&mut self.compact_buffer, self.width, self.height, r);
        }
        self.dirty_rect = None;
        proof {
            assert forall|x: int, y: int|
                0 <= x < self.columns() && 0 <= y < self.rows() implies #[trigger] self.pixel(x, y)
                == blank() by {
                assert(!before.touched(x, y) ==> before.pixel(x, y) == blank());
            }
        }
        let mut n: usize = 0;
        assert(instances@.take(0) =~= Seq::empty());
        while n < instances.len()
            invariant
                self.wf(),
                ops.total(),
                self.columns() == old(self).columns(),
                self.rows() == old(self).rows(),
                self.idle() == (instances@.len() == 0),
                n <= instances@.len(),
                forall|m: Model, x: int, y: int|
                    #![trigger ops.modelled_by(m), self.pixel(x, y)]
                    ops.modelled_by(m) && 0 <= x < self.columns() && 0 <= y < self.rows()
                        ==> self.pixel(x, y) == m.painted(
                        instances@.take(n as int),
                        self.columns(),
                        self.rows(),
                        x,
                        y,
                    ),
                forall|m: Model| #[trigger]
                    ops.modelled_by(m) ==> self.dirty() == m.touched(
                        instances@.take(n as int),
                        self.columns(),
                        self.rows(),
                    ),
            decreases instances@.len() - n,
        {
            let ghost prior = *self;
            let i = &instances[n];
            let r = ops.footprint(i, self.width, self.height);
            if !r.is_empty() {
                self.dirty_rect = match self.dirty_rect {
                    None => Some(r),
                    Some(q) => Some(q.join(&r)),
                };
                ops.paint(&mut self.compact_buffer, self.width, self.height, i, r);
            }
            proof {
                assert forall|x: int, y: int|
                    0 <= x < self.columns() && 0 <= y < self.rows() && !r.contains(
                        x,
                        y,
                    ) implies #[trigger] self.pixel(x, y) == prior.pixel(x, y) by {}
                assert forall|m: Model, x: int, y: int|
                    #![trigger ops.modelled_by(m), self.pixel(x, y)]
                    ops.modelled_by(m) && 0 <= x < self.columns() && 0 <= y < self.rows()
                        && r.contains(x, y) implies self.pixel(x, y) == m.shaded(
                    *i,
                    x,
                    y,
                    prior.pixel(x, y),
                ) by {}
                assert(instances@.take(n + 1).drop_last() =~= instances@.take(n as int));
                assert(instances@.take(n + 1).last() == *i);
            }
            n = n + 1;
        }
        assert(instances@.take(n as int) =~= instances@);
        true
    }

    /// The pixels per row.
    pub fn width(&self) -> (r: u32)
        ensures
            r == self.columns(),
    {
        self.width
    }

    /// The rows.
    pub fn height(&self) -> (r: u32)
        ensures
            r == self.rows(),
    {
        self.height
    }

    /// The frame, row by row, four bytes to a pixel.
    pub fn frame(&self) -> (r: &[u8])
        ensures
            r@ == self.bytes(),
    {
        self.compact_buffer.as_slice()
    }
}

/// What a frame shows does not depend on the frames before it: two frames of the same sides that
/// show the same discs are the same, byte by byte.
pub proof fn law_frames_have_no_memory(
    a: Renderer,
    b: Renderer,
    m: Model,
    instances: Seq<Instance>,
)
    requires
        a.wf(),
        b.wf(),
        a.columns() == b.columns(),
        a.rows() == b.rows(),
        a.shows(m, instances),
        b.shows(m, instances),
    ensures
        a.bytes() == b.bytes(),
{
    let w = a.columns() as int;
    let h = a.rows() as int;
    assert forall|i: int| 0 <= i < a.bytes().len() implies a.bytes()[i] == b.bytes()[i] by {
        let k = i / 4;
        let x = k % w;
        let y = k / w;
        vstd::arithmetic::div_mod::lemma_fundamental_div_mod(k, w);
        assert(w * y == y * w) by (nonlinear_arith);
        assert(0 <= x < w && 0 <= y);
        assert(y < h) by (nonlinear_arith)
            requires
                k == y * w + x,
                0 <= x,
                0 < w,
                k < w * h,
        ;
        assert(a.pixel(x, y) == b.pixel(x, y));
        assert(pixel_index(w, x, y) == k * 4);
    }
    assert(a.bytes() =~= b.bytes());
}

/// Whatever lies outside the rectangle that a list of discs touches stays blank, so clearing that
/// rectangle clears the frame.
pub proof fn law_touched_covers_painted(
    m: Model,
    instances: Seq<Instance>,
    width: u32,
    height: u32,
    x: int,
    y: int,
)
    requires
        !(m.touched(instances, width, height) matches Some(r) && r.contains(x, y)),
    ensures
        m.painted(instances, width, height, x, y) == blank(),
    decreases instances.len(),
{
    if instances.len() > 0 {
        law_touched_covers_painted(m, instances.drop_last(), width, height, x, y);
    }
}

/// What a list of discs touches lies inside the frame.
pub proof fn law_touched_is_inside(
    m: Model,
    instances: Seq<Instance>,
    width: u32,
    height: u32,
)
    ensures
        m.touched(instances, width, height) matches Some(r) ==> !r.empty() && r.max_x <= width
            && r.max_y <= height,
    decreases instances.len(),
{
    if instances.len() > 0 {
        law_touched_is_inside(m, instances.drop_last(), width, height);
    }
}

/// A frame without discs is shown once: not again after itself, but after any other frame, and
/// after the frame was given new sides.
pub proof fn law_blank_frames_are_shown_once(
    last: Renderer,
    instances: Seq<Instance>,
    width: u32,
    height: u32,
    resized: Renderer,
)
    requires
        last.idle() == (instances.len() == 0),
        last.resized(width, height, resized),
    ensures
        last.worth_showing(Seq::empty()) == (instances.len() > 0),
        resized != last ==> resized.worth_showing(Seq::empty()),
{
}

/// A frame that is given the same sides twice stays as it was after the first time.
pub proof fn law_resizing_settles(a: Renderer, b: Renderer, c: Renderer, width: u32, height: u32)
    requires
        a.resized(width, height, b),
        b.resized(width, height, c),
    ensures
        c == b,
{
}

/// A frame is to be shown exactly when it has discs or the one before had.
pub proof fn law_shown_frames(r: Renderer, instances: Seq<Instance>)
    ensures
        r.worth_showing(instances) <==> instances.len() > 0 || !r.idle(),
{
}

/// A frame has four bytes for each pixel, and at least one pixel.
pub proof fn law_frame_bytes(width: u32, height: u32)
    ensures
        frame_len(width, height) == 4 * vstd::math::max(width as int, 1) * vstd::math::max(
            height as int,
            1,
        ),
{
    let w = positive(width) as int;
    let h = positive(height) as int;
    assert(w * h * 4 == 4 * w * h) by (nonlinear_arith);
}

/// A frame that is given new sides has exactly these, each at least one pixel; unless it had them
/// already, it is blank and to be shown.
pub proof fn law_resized_frames(a: Renderer, width: u32, height: u32, b: Renderer)
    requires
        a.resized(width, height, b),
    ensures
        b.columns() == vstd::math::max(width as int, 1),
        b.rows() == vstd::math::max(height as int, 1),
        b == a || (forall|i: int| 0 <= i < b.bytes().len() ==> b.bytes()[i] == 0) && !b.idle()
            && b.dirty() is None && b.bytes().len() == frame_len(width, height),
        a.columns() == b.columns() && a.rows() == b.rows() ==> b == a,
{
}

/// A new frame has the given sides, each at least one pixel, and is blank.
pub proof fn law_new_frames(r: Renderer, width: u32, height: u32)
    requires
        r.fresh(width, height),
    ensures
        r.columns() == vstd::math::max(width as int, 1),
        r.rows() == vstd::math::max(height as int, 1),
        r.bytes().len() == 4 * r.columns() * r.rows(),
        forall|i: int| 0 <= i < r.bytes().len() ==> r.bytes()[i] == 0,
        !r.idle(),
{
    law_frame_bytes(width, height);
}

/// At least one is the number itself, unless that is none.
pub proof fn law_at_least_one(n: u32)
    ensures
        positive(n) == vstd::math::max(n as int, 1),
{
}

} // verus!
