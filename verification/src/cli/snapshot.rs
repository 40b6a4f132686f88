//! A thumbnail of a cloud, with no GPU and no browser: a z-buffer, two by two
//! splats, the file's own RGB when it has any and a ramp when it does not.
//!
//! The projection is floating point and belongs to the program. What a
//! projected point does to the picture is decided here.

use crate::bytes::{le16, u16_at};
use vstd::prelude::*;

verus! {

/// How far to shift a source's u16 colour channels down to bytes.
///
/// One decision for the whole cloud, taken only once every point has been seen:
/// a source whose widest channel fits in a byte was never 16-bit.
pub fn narrow_shift(has_color: bool, max_channel: u16) -> (shift: u32)
    ensures
        shift == if has_color && max_channel > 255 {
            8u32
        } else {
            0u32
        },
{
    if has_color && max_channel > 255 {
        8
    } else {
        0
    }
}

/// The side of the image: what was asked for, within bounds.
pub fn image_size(asked: u32) -> (size: u32)
    ensures
        size == if asked < 16 {
            16u32
        } else if asked > 4096 {
            4096u32
        } else {
            asked
        },
{
    if asked < 16 {
        16
    } else if asked > 4096 {
        4096
    } else {
        asked
    }
}

/// The point record that a thumbnail is drawn from: one with RGB where any
/// source has it.
pub fn record_format(any_color: bool) -> (format: u8)
    ensures
        format == if any_color {
            7u8
        } else {
            6u8
        },
{
    if any_color {
        7
    } else {
        6
    }
}

/// One point of this many is drawn.
pub open spec fn stride_of(point_count: u64, points: u64) -> u64 {
    let wanted = if points == 0 {
        1u64
    } else {
        points
    };
    if point_count / wanted == 0 {
        1
    } else {
        point_count / wanted
    }
}

/// One point of this many is drawn.
pub fn keep_every(point_count: u64, points: u64) -> (n: u64)
    ensures
        n == stride_of(point_count, points),
        n >= 1,
{
    let wanted: u64 = if points == 0 {
        1
    } else {
        points
    };
    let n: u64 = point_count / wanted;
    if n == 0 {
        1
    } else {
        n
    }
}

/// Whether the point that is the `seen`th, counted from one, is drawn where one
/// of `every` is.
pub fn keeps(seen: u64, every: u64) -> (r: bool)
    requires
        every >= 1,
    ensures
        r == (seen % every == 0),
{
    if every == 1 {
        assert(seen % 1 == 0);
        return true;
    }
    seen % every == 0
}

/// Where a depth, given as the bit pattern of a single-precision number, stands
/// among all depths. Not a number stands nowhere, and the two zeros stand
/// together.
pub open spec fn depth_rank(bits: u32) -> Option<int> {
    if 0x7f80_0000 < bits < 0x8000_0000 || bits > 0xff80_0000 {
        None
    } else if bits < 0x8000_0000 {
        Some(bits as int)
    } else {
        Some(0x8000_0000 - bits)
    }
}

/// Where a depth stands among all depths.
pub fn depth_key(bits: u32) -> (key: Option<i64>)
    ensures
        match key {
            Some(k) => depth_rank(bits) == Some(k as int),
            None => depth_rank(bits) is None,
        },
{
    if (0x7f80_0000 < bits && bits < 0x8000_0000) || bits > 0xff80_0000 {
        None
    } else if bits < 0x8000_0000 {
        Some(bits as i64)
    } else {
        Some(0x8000_0000 - bits as i64)
    }
}

/// What a pixel of an empty picture has for a depth: minus infinity.
pub const FARTHEST: i64 = -0x7f80_0000;

/// One pixel.
#[derive(Debug, Clone, Copy)]
pub struct Pixel {
    /// Where the nearest point so far stands.
    pub depth: i64,
    /// Its colour, at the source's width.
    pub color: [u16; 3],
    /// Whether any point was drawn here.
    pub hit: bool,
}

/// The picture, until every point has been seen.
#[derive(Debug)]
pub struct Raster {
    size: usize,
    has_color: bool,
    max_channel: u16,
    pixels: Vec<Pixel>,
}

/// A picture as values.
pub struct Picture {
    pub size: nat,
    pub has_color: bool,
    pub max_channel: u16,
    pub pixels: Seq<Pixel>,
}

impl View for Raster {
    type V = Picture;

    closed spec fn view(&self) -> Picture {
        Picture {
            size: self.size as nat,
            has_color: self.has_color,
            max_channel: self.max_channel,
            pixels: self.pixels@,
        }
    }
}

/// Whether a point that falls on a pixel covers another.
pub open spec fn covers(size: nat, px: int, py: int, at: int) -> bool {
    let (x, y) = (at % size as int, at / size as int);
    px <= x <= px + 1 && py <= y <= py + 1
}

/// A pixel after a point of some depth and colour covered it.
pub open spec fn covered(old: Pixel, rank: Option<int>, color: [u16; 3]) -> Pixel {
    match rank {
        Some(k) if k > old.depth => Pixel { depth: k as i64, color, hit: true },
        _ => old,
    }
}

/// Whether every channel of a colour is at most a value.
pub open spec fn channels_within(color: [u16; 3], max: u16) -> bool {
    color[0] <= max && color[1] <= max && color[2] <= max
}

/// The widest of some channels and a value.
pub open spec fn widest(max: u16, color: [u16; 3]) -> u16 {
    let a = if color[0] > max {
        color[0]
    } else {
        max
    };
    let b = if color[1] > a {
        color[1]
    } else {
        a
    };
    if color[2] > b {
        color[2]
    } else {
        b
    }
}

impl Picture {
    /// What holds of every picture: a pixel for each place, and no channel wider
    /// than the widest that was seen, or than a byte where there is no colour.
    pub open spec fn valid(self) -> bool {
        &&& 16 <= self.size <= 4096
        &&& self.pixels.len() == self.size * self.size
        &&& forall|at: int|
            0 <= at < self.pixels.len() ==> channels_within(
                (#[trigger] self.pixels[at]).color,
                if self.has_color {
                    self.max_channel
                } else {
                    255
                },
            )
    }

    /// The four bytes of a pixel in the finished picture.
    pub open spec fn byte(self, at: int, k: int) -> u8 {
        let p = self.pixels[at];
        if !p.hit {
            0
        } else if k == 3 {
            255
        } else if self.has_color && self.max_channel > 255 {
            (p.color[k] / 256) as u8
        } else {
            p.color[k] as u8
        }
    }

    /// The finished picture, four bytes for each pixel.
    pub open spec fn rgba(self) -> Seq<u8> {
        Seq::new((4 * self.pixels.len()) as nat, |i: int| self.byte(i / 4, i % 4))
    }
}

/// A source whose channels all fit in a byte keeps every one of them: no pixel
/// of its picture is darkened.
pub proof fn byte_channels_are_kept(p: Picture, at: int, k: int)
    requires
        p.valid(),
        p.has_color,
        p.max_channel <= 255,
        0 <= at < p.pixels.len(),
        p.pixels[at].hit,
        0 <= k < 3,
    ensures
        p.rgba()[4 * at + k] == p.pixels[at].color[k],
{
    assert((4 * at + k) / 4 == at && (4 * at + k) % 4 == k);
    assert(channels_within(p.pixels[at].color, p.max_channel));
}

/// The colour channels of a record.
pub fn record_color(record: &[u8], at: usize) -> (color: [u16; 3])
    requires
        at + 6 <= record@.len(),
    ensures
        color[0] == le16(record@, at as int),
        color[1] == le16(record@, at + 2),
        color[2] == le16(record@, at + 4),
{
    let n: usize = record.len();
    [u16_at(record, at), u16_at(record, at + 2), u16_at(record, at + 4)]
}

impl Raster {
    /// An empty picture of a side within bounds.
    pub fn new(asked: u32, has_color: bool) -> (r: Self)
        ensures
            r@.valid(),
            r@.size == if asked < 16 {
                16
            } else if asked > 4096 {
                4096
            } else {
                asked as nat
            },
            r@.has_color == has_color,
            r@.max_channel == 0,
            forall|at: int|
                0 <= at < r@.pixels.len() ==> #[trigger] r@.pixels[at] == (Pixel {
                    depth: FARTHEST,
                    color: [0, 0, 0],
                    hit: false,
                }),
    {
        let size: usize = image_size(asked) as usize;
        assert(size * size <= 4096 * 4096) by (nonlinear_arith)
            requires
                size <= 4096,
        ;
        let n: usize = size * size;
        let mut pixels: Vec<Pixel> = Vec::new();
        while pixels.len() < n
            invariant
                pixels.len() <= n,
                forall|at: int|
                    0 <= at < pixels@.len() ==> #[trigger] pixels@[at] == (Pixel {
                        depth: FARTHEST,
                        color: [0, 0, 0],
                        hit: false,
                    }),
            decreases n - pixels.len(),
        {
            pixels.push(Pixel { depth: FARTHEST, color: [0, 0, 0], hit: false });
        }
        Raster { size, has_color, max_channel: 0, pixels }
    }

    /// Draws one point: two by two pixels from the one it falls on, each only
    /// where the point is nearer than what is there. Larger depth is closer.
    #[verifier::rlimit(40)]
    pub fn plot(&mut self, px: i64, py: i64, depth_bits: u32, color: [u16; 3])
        requires
            old(self)@.valid(),
            !old(self)@.has_color ==> channels_within(color, 255),
        ensures
            final(self)@.valid(),
            final(self)@.size == old(self)@.size,
            final(self)@.has_color == old(self)@.has_color,
            final(self)@.max_channel == if old(self)@.has_color {
                widest(old(self)@.max_channel, color)
            } else {
                old(self)@.max_channel
            },
            final(self)@.pixels.len() == old(self)@.pixels.len(),
            forall|at: int|
                0 <= at < final(self)@.pixels.len() ==> #[trigger] final(self)@.pixels[at]
                    == if covers(old(self)@.size, px as int, py as int, at) {
                    covered(old(self)@.pixels[at], depth_rank(depth_bits), color)
                } else {
                    old(self)@.pixels[at]
                },
    {
        if self.has_color {
            if color[0] > self.max_channel {
                self.max_channel = color[0];
            }
            if color[1] > self.max_channel {
                self.max_channel = color[1];
            }
            if color[2] > self.max_channel {
                self.max_channel = color[2];
            }
        }
        let ghost start = old(self)@;
        let size: usize = self.size;
        let key = match depth_key(depth_bits) {
            Some(k) => k,
            None => {
                return ;
            },
        };
        let mut d: usize = 0;
        while d < 4
            invariant
                d <= 4,
                size == self.size,
                start.valid(),
                start.size == size,
                self.pixels@.len() == start.pixels.len(),
                self.has_color == start.has_color,
                self.max_channel == if start.has_color {
                    widest(start.max_channel, color)
                } else {
                    start.max_channel
                },
                depth_rank(depth_bits) == Some(key as int),
                forall|at: int|
                    0 <= at < self.pixels@.len() ==> #[trigger] self.pixels@[at] == if covers(
                        size as nat,
                        px as int,
                        py as int,
                        at,
                    ) && 2 * (at / size as int - py) + (at % size as int - px) < d {
                        covered(start.pixels[at], Some(key as int), color)
                    } else {
                        start.pixels[at]
                    },
            decreases 4 - d,
        {
            let dx: i64 = (d % 2) as i64;
            let dy: i64 = (d / 2) as i64;
            if px >= -1 && py >= -1 && px < size as i64 && py < size as i64 {
                let (x, y): (i64, i64) = (px + dx, py + dy);
                if x >= 0 && y >= 0 && x < size as i64 && y < size as i64 {
                    let (ux, uy): (usize, usize) = (x as usize, y as usize);
                    proof {
                        lemma_place(size as int, ux as int, uy as int);
                    }
                    let at: usize = uy * size + ux;
                    if key > self.pixels[at].depth {
                        self.pixels.set(at, Pixel { depth: key, color, hit: true });
                    }
                }
            }
            proof {
                assert forall|at: int| 0 <= at < self.pixels@.len() implies #[trigger] self.pixels@[at]
                    == if covers(size as nat, px as int, py as int, at) && 2 * (at / size as int
                    - py) + (at % size as int - px) < d + 1 {
                    covered(start.pixels[at], Some(key as int), color)
                } else {
                    start.pixels[at]
                } by {
                    lemma_back(size as int, at);
                }
            }
            d = d + 1;
        }
    }

    /// The finished picture, four bytes for each pixel.
    pub fn finish(&self) -> (rgba: Vec<u8>)
        requires
            self@.valid(),
        ensures
            rgba@ == self@.rgba(),
    {
        let shift: u32 = narrow_shift(self.has_color, self.max_channel);
        let mut rgba: Vec<u8> = Vec::new();
        let mut at: usize = 0;
        while at < self.pixels.len()
            invariant
                at <= self.pixels.len(),
                self@.valid(),
                shift == if self.has_color && self.max_channel > 255 {
                    8u32
                } else {
                    0u32
                },
                rgba@.len() == 4 * at,
                forall|i: int| 0 <= i < 4 * at ==> #[trigger] rgba@[i] == self@.byte(i / 4, i % 4),
            decreases self.pixels.len() - at,
        {
            let p = self.pixels[at];
            assert(channels_within(
                self@.pixels[at as int].color,
                if self@.has_color {
                    self@.max_channel
                } else {
                    255
                },
            ));
            if p.hit {
                rgba.push(narrowed(p.color[0], shift));
                rgba.push(narrowed(p.color[1], shift));
                rgba.push(narrowed(p.color[2], shift));
                rgba.push(255);
            } else {
                rgba.push(0);
                rgba.push(0);
                rgba.push(0);
                rgba.push(0);
            }
            at = at + 1;
        }
        rgba
    }

    /// The finished picture as a PNG file.
    pub fn encode(&self) -> (r: Result<Vec<u8>, String>)
        requires
            self@.valid(),
        ensures
            match r {
                Ok(bytes) => png_image(self@.size, self@.rgba()) == Ok::<Seq<u8>, Seq<char>>(bytes@),
                Err(why) => png_image(self@.size, self@.rgba()) == Err::<Seq<u8>, Seq<char>>(why@),
            },
    {
        let rgba = self.finish();
        encode_png(self.size as u32, rgba.as_slice())
    }
}

proof fn lemma_place(size: int, x: int, y: int)
    requires
        0 <= x < size,
        0 <= y < size,
        size <= 4096,
    ensures
        0 <= y * size + x < size * size,
        (y * size + x) / size == y,
        (y * size + x) % size == x,
        0 <= y * size <= 4096 * 4096,
{
    vstd::arithmetic::div_mod::lemma_fundamental_div_mod_converse(y * size + x, size, y, x);
    assert(0 <= y * size + x < size * size && y * size <= 4096 * 4096 && y * size >= 0)
        by (nonlinear_arith)
        requires
            0 <= x < size,
            0 <= y < size,
            size <= 4096,
    ;
}

proof fn lemma_back(size: int, at: int)
    requires
        0 <= at < size * size,
        size > 0,
    ensures
        (at / size) * size + at % size == at,
        0 <= at % size < size,
        0 <= at / size < size,
{
    vstd::arithmetic::div_mod::lemma_fundamental_div_mod(at, size);
    assert(size * (at / size) == (at / size) * size) by (nonlinear_arith);
    vstd::arithmetic::div_mod::lemma_multiply_divide_lt(at, size, size);
    vstd::arithmetic::div_mod::lemma_div_pos_is_pos(at, size);
}

fn narrowed(channel: u16, shift: u32) -> (b: u8)
    requires
        shift == 8 || (shift == 0 && channel <= 255),
    ensures
        shift == 8 ==> b == (channel / 256) as u8,
        shift == 0 ==> b == channel as u8,
{
    if shift == 8 {
        (channel / 256) as u8
    } else {
        channel as u8
    }
}

/// What the PNG encoder makes of a square picture of some side: the bytes of a
/// file, or why it made none.
pub uninterp spec fn png_image(size: nat, rgba: Seq<u8>) -> Result<Seq<u8>, Seq<char>>;

/// Calls `png::Encoder` on a square picture of eight-bit RGBA: its header, then
/// all of its rows, then the end of the file, written to memory. Claims only
/// that what comes back, the file or the error's text, is a function of the
/// side and the pixels.
#[verifier::external_body]
fn encode_png(size: u32, rgba: &[u8]) -> (r: Result<Vec<u8>, String>)
    requires
        size <= 4096,
    ensures
        match r {
            Ok(bytes) => png_image(size as nat, rgba@) == Ok::<Seq<u8>, Seq<char>>(bytes@),
            Err(why) => png_image(size as nat, rgba@) == Err::<Seq<u8>, Seq<char>>(why@),
        },
{
    let mut out: Vec<u8> = Vec::new();
    let mut encoder = png::Encoder::new(&mut out, size, size);
    encoder.set_color(png::ColorType::Rgba);
    encoder.set_depth(png::BitDepth::Eight);
    let mut writer = encoder.write_header().map_err(|e| e.to_string())?;
    writer.write_image_data(rgba).map_err(|e| e.to_string())?;
    writer.finish().map_err(|e| e.to_string())?;
    Ok(out)
}

} // verus!
