use vstd::prelude::*;
use vstd::arithmetic::div_mod::{lemma_div_is_ordered, lemma_fundamental_div_mod_converse};
use crate::scalar::abs_val;

verus! {

/// A 24-bit pixel: one byte for each of the red, green and blue channels.
/// A value type with no identity beyond its value.
#[derive(Clone, Copy, Debug, PartialEq, Eq, Structural)]
pub struct Pixel {
    pub red: u8,
    pub green: u8,
    pub blue: u8,
}

impl Pixel {
    /// Creates a new pixel from its red, green and blue channels.
    pub fn new(red: u8, green: u8, blue: u8) -> (r: Pixel)
        ensures
            r == (Pixel { red, green, blue }),
    {
        Pixel { red, green, blue }
    }

    /// Sets the pixel's color from red, green and blue channels.
    pub fn set_rgb(&mut self, red: u8, green: u8, blue: u8)
        ensures
            *final(self) == (Pixel { red, green, blue }),
    {
        self.red = red;
        self.green = green;
        self.blue = blue;
    }

    /// The black pixel.
    pub fn black() -> (r: Pixel)
        ensures
            r == (Pixel { red: 0, green: 0, blue: 0 }),
    {
        Pixel { red: 0, green: 0, blue: 0 }
    }

    /// The white pixel.
    pub fn white() -> (r: Pixel)
        ensures
            r == (Pixel { red: 255, green: 255, blue: 255 }),
    {
        Pixel { red: 255, green: 255, blue: 255 }
    }

    /// The pure red pixel.
    pub fn red() -> (r: Pixel)
        ensures
            r == (Pixel { red: 255, green: 0, blue: 0 }),
    {
        Pixel { red: 255, green: 0, blue: 0 }
    }

    /// The pure green pixel.
    pub fn green() -> (r: Pixel)
        ensures
            r == (Pixel { red: 0, green: 255, blue: 0 }),
    {
        Pixel { red: 0, green: 255, blue: 0 }
    }

    /// The pure blue pixel.
    pub fn blue() -> (r: Pixel)
        ensures
            r == (Pixel { red: 0, green: 0, blue: 255 }),
    {
        Pixel { red: 0, green: 0, blue: 255 }
    }
}

/// The ways a grid operation can fail.
#[derive(Clone, Copy, Debug, PartialEq, Eq, Structural)]
pub enum BitMapError {
    /// Non-rectangular pixel data was supplied to grid construction.
    ShapeError,
    /// A pixel access lay outside the grid bounds.
    IndexOutOfRange,
}

/// The nested sequence of pixel columns a vector of pixel vectors holds.
pub open spec fn pixel_columns(data: Seq<Vec<Pixel>>) -> Seq<Seq<Pixel>> {
    Seq::new(data.len() as nat, |i: int| data[i]@)
}

/// Whether a nested sequence of pixel columns is rectangular: every
/// column as long as the first.
pub open spec fn rectangular(cols: Seq<Seq<Pixel>>) -> bool {
    forall|i: int| 0 <= i < cols.len() ==> #[trigger] cols[i].len() == cols[0].len()
}

/// The two bytes of a 16-bit value, least significant byte first.
pub open spec fn le16(x: u16) -> Seq<u8> {
    seq![(x % 256) as u8, ((x / 256) % 256) as u8]
}

/// The four bytes of a 32-bit value, least significant byte first.
pub open spec fn le32(x: u32) -> Seq<u8> {
    seq![
        (x % 256) as u8,
        ((x / 256) % 256) as u8,
        ((x / 65536) % 256) as u8,
        ((x / 16777216) % 256) as u8,
    ]
}

/// The value held by a 32-bit little-endian field starting at byte `i`.
pub open spec fn read_le32(s: Seq<u8>, i: int) -> int {
    s[i] + 256 * (s[i + 1] + 256 * (s[i + 2] + 256 * s[i + 3]))
}

/// How many bytes must be added to a run of `current` bytes to reach a
/// multiple of `align`.
pub open spec fn pad_len(current: int, align: int) -> int {
    if current % align == 0 {
        0
    } else {
        align - current % align
    }
}

/// `n` zero bytes.
pub open spec fn zero_bytes(n: int) -> Seq<u8> {
    Seq::new(if n >= 0 {
        n as nat
    } else {
        0
    }, |i: int| 0u8)
}

/// The 14 file-header bytes: the signature bytes of 'B' and 'M', the
/// 32-bit file size field, a reserved zero field, and the offset 54 to
/// the pixel data, all little endian.
pub open spec fn file_header_bytes(size: u32) -> Seq<u8> {
    seq![66u8, 77u8] + le32(size) + le32(0) + le32(54)
}

/// The 40 info-header bytes: its own length 40, the width and the height,
/// one plane and 24 bits per pixel as 16-bit fields, no compression, zero
/// image size, a resolution of 100 in each axis, and zero color counts.
pub open spec fn info_header_bytes(width: u32, height: u32) -> Seq<u8> {
    le32(40) + le32(width) + le32(height) + le16(1) + le16(24) + le32(0) + le32(0) + le32(100)
        + le32(100) + le32(0) + le32(0)
}

/// The blue, green and red bytes of the first `upto` pixels of row `y`,
/// left to right.
pub open spec fn row_bytes(cols: Seq<Seq<Pixel>>, y: int, upto: int) -> Seq<u8>
    decreases upto,
{
    if upto <= 0 {
        Seq::empty()
    } else {
        row_bytes(cols, y, upto - 1)
            + seq![cols[upto - 1][y].blue, cols[upto - 1][y].green, cols[upto - 1][y].red]
    }
}

/// One full row `y` of a grid `w` pixels wide: its pixel bytes, padded
/// with zero bytes to a four-byte boundary.
pub open spec fn padded_row_bytes(cols: Seq<Seq<Pixel>>, w: int, y: int) -> Seq<u8> {
    row_bytes(cols, y, w) + zero_bytes(pad_len(3 * w, 4))
}

/// The pixel data of the bottom `k` rows, stored bottom row first: row
/// `k - 1`, then `k - 2`, down to row `0`.
pub open spec fn rows_bytes(cols: Seq<Seq<Pixel>>, w: int, k: int) -> Seq<u8>
    decreases k,
{
    if k <= 0 {
        Seq::empty()
    } else {
        padded_row_bytes(cols, w, k - 1) + rows_bytes(cols, w, k - 1)
    }
}

/// Every byte of the bitmap file that encodes a grid. The file size field
/// counts `54 + 3*width*height`: the headers and the pixel bytes, but not
/// the row padding — a quirk of the encoded layout that is kept
/// deliberately.
pub open spec fn bmp_file_bytes(cols: Seq<Seq<Pixel>>, w: u32, h: u32) -> Seq<u8> {
    file_header_bytes((54 + 3 * w * h) as u32) + info_header_bytes(w, h) + rows_bytes(
        cols,
        w as int,
        h as int,
    )
}

/// Converts a 16-bit value to its two bytes, least significant first.
pub fn u16_to_u8(x: u16) -> (r: Vec<u8>)
    ensures
        r@ == le16(x),
{
    let r = vec![(x % 256) as u8, (x / 256 % 256) as u8];
    proof {
        assert(r@ =~= le16(x));
    }
    r
}

/// Converts a 32-bit value to its four bytes, least significant first.
pub fn u32_to_u8(x: u32) -> (r: Vec<u8>)
    ensures
        r@ == le32(x),
{
    let r = vec![
        (x % 256) as u8,
        (x / 256 % 256) as u8,
        (x / (256 * 256) % 256) as u8,
        (x / (256 * 256 * 256) % 256) as u8,
    ];
    proof {
        assert(r@ =~= le32(x));
    }
    r
}

/// The number of bytes to add to a run of `current` bytes to reach a
/// multiple of `offset`.
pub fn offset_to(current: usize, offset: usize) -> (r: usize)
    requires
        offset > 0,
    ensures
        r == pad_len(current as int, offset as int),
        r < offset,
{
    if current % offset == 0 {
        0
    } else {
        offset - (current % offset)
    }
}

/// A rectangular in-memory grid of pixels, stored as `width` columns of
/// `height` pixels each, indexed by `(x, y)` with `x` a column and `y` a
/// row.
#[derive(Debug)]
pub struct BitMap {
    width: u32,
    height: u32,
    data: Vec<Vec<Pixel>>,
}

impl BitMap {
    /// The columns of pixels the grid holds.
    pub closed spec fn pixels(self) -> Seq<Seq<Pixel>> {
        Seq::new(self.data@.len() as nat, |i: int| self.data@[i]@)
    }

    /// The grid's width in pixels.
    pub closed spec fn spec_width(self) -> u32 {
        self.width
    }

    /// The grid's height in pixels.
    pub closed spec fn spec_height(self) -> u32 {
        self.height
    }

    /// The grid is well formed: `width` columns, each of exactly `height`
    /// pixels.
    pub open spec fn wf(self) -> bool {
        &&& self.pixels().len() == self.spec_width()
        &&& forall|x: int|
            0 <= x < self.spec_width() ==> #[trigger] self.pixels()[x].len()
                == self.spec_height()
    }

    /// The pixel in column `x`, row `y`.
    pub open spec fn pixel(self, x: int, y: int) -> Pixel {
        self.pixels()[x][y]
    }

    /// Builds a grid out of a nested vector of pixel columns. Fails with
    /// `ShapeError` when some column is not as long as the first; an empty
    /// outer vector gives the valid zero-width, zero-height grid.
    pub fn new(data: Vec<Vec<Pixel>>) -> (r: Result<BitMap, BitMapError>)
        requires
            data@.len() <= u32::MAX,
            data@.len() > 0 ==> data@[0]@.len() <= u32::MAX,
        ensures
            match r {
                Ok(bm) => {
                    &&& rectangular(pixel_columns(data@))
                    &&& bm.wf()
                    &&& bm.pixels() == pixel_columns(data@)
                    &&& bm.spec_width() == data@.len()
                    &&& bm.spec_height() == if data@.len() == 0 {
                        0int
                    } else {
                        data@[0]@.len() as int
                    }
                },
                Err(e) => {
                    &&& e == BitMapError::ShapeError
                    &&& !rectangular(pixel_columns(data@))
                },
            },
    {
        let w = data.len();
        if w == 0 {
            let bm = BitMap { data, width: 0, height: 0 };
            proof {
                assert(bm.pixels().len() == 0);
            }
            return Ok(bm);
        }
        let h = data[0].len();
        let mut i: usize = 1;
        while i < w
            invariant
                1 <= i <= w,
                w == data@.len() <= u32::MAX,
                h == data@[0]@.len() <= u32::MAX,
                forall|j: int| 0 <= j < i ==> #[trigger] data@[j]@.len() == h,
            decreases w - i,
        {
            if data[i].len() != h {
                proof {
                    assert(pixel_columns(data@)[i as int].len() != pixel_columns(
                        data@,
                    )[0].len());
                }
                return Err(BitMapError::ShapeError);
            }
            i += 1;
        }
        let bm = BitMap { data, width: w as u32, height: h as u32 };
        Ok(bm)
    }

    /// Creates a grid of the given size with every cell set to `color`.
    pub fn new_blank(color: Pixel, width: u32, height: u32) -> (r: BitMap)
        ensures
            r.wf(),
            r.spec_width() == width,
            r.spec_height() == height,
            forall|x: int, y: int|
                0 <= x < width && 0 <= y < height ==> r.pixel(x, y) == color,
    {
        let mut data: Vec<Vec<Pixel>> = Vec::new();
        let mut x: u32 = 0;
        while x < width
            invariant
                x <= width,
                data@.len() == x,
                forall|i: int| 0 <= i < x ==> #[trigger] data@[i]@.len() == height,
                forall|i: int, j: int|
                    0 <= i < x && 0 <= j < height ==> #[trigger] data@[i]@[j] == color,
            decreases width - x,
        {
            let mut col: Vec<Pixel> = Vec::new();
            let mut y: u32 = 0;
            while y < height
                invariant
                    y <= height,
                    col@.len() == y,
                    forall|j: int| 0 <= j < y ==> #[trigger] col@[j] == color,
                decreases height - y,
            {
                col.push(color);
                y += 1;
            }
            data.push(col);
            x += 1;
        }
        BitMap { data, width, height }
    }

    /// Creates a grid of the given size whose cell `(x, y)` holds what the
    /// generator returns for `(x, y)`.
    pub fn new_from_generator<F: Fn(u32, u32) -> Pixel>(
        gen: &F,
        width: u32,
        height: u32,
    ) -> (r: BitMap)
        requires
            forall|x: u32, y: u32|
                x < width && y < height ==> #[trigger] call_requires(*gen, (x, y)),
        ensures
            r.wf(),
            r.spec_width() == width,
            r.spec_height() == height,
            forall|x: u32, y: u32|
                x < width && y < height ==> call_ensures(
                    *gen,
                    (x, y),
                    #[trigger] r.pixel(x as int, y as int),
                ),
    {
        let mut bitmap = Self::new_blank(Pixel::white(), width, height);
        let mut x: u32 = 0;
        while x < width
            invariant
                x <= width,
                bitmap.wf(),
                bitmap.spec_width() == width,
                bitmap.spec_height() == height,
                forall|i: u32, j: u32|
                    i < width && j < height ==> #[trigger] call_requires(*gen, (i, j)),
                forall|i: u32, j: u32|
                    i < x && j < height ==> call_ensures(
                        *gen,
                        (i, j),
                        #[trigger] bitmap.pixel(i as int, j as int),
                    ),
            decreases width - x,
        {
            let mut y: u32 = 0;
            while y < height
                invariant
                    x < width,
                    y <= height,
                    bitmap.wf(),
                    bitmap.spec_width() == width,
                    bitmap.spec_height() == height,
                    forall|i: u32, j: u32|
                        i < width && j < height ==> #[trigger] call_requires(*gen, (i, j)),
                    forall|i: u32, j: u32|
                        i < x && j < height ==> call_ensures(
                            *gen,
                            (i, j),
                            #[trigger] bitmap.pixel(i as int, j as int),
                        ),
                    forall|j: u32|
                        j < y ==> call_ensures(
                            *gen,
                            (x, j),
                            #[trigger] bitmap.pixel(x as int, j as int),
                        ),
                decreases height - y,
            {
                let p = gen(x, y);
                proof {
                    assert(bitmap.data@.len() == width);
                    assert(bitmap.pixels()[x as int].len() == height);
                }
                let ghost prev = bitmap;
                bitmap.data[x as usize][y as usize] = p;
                proof {
                    assert(bitmap.pixels() =~= prev.pixels().update(
                        x as int,
                        prev.pixels()[x as int].update(y as int, p),
                    ));
                    assert forall|i: u32, j: u32| i < x && j < height implies call_ensures(
                        *gen,
                        (i, j),
                        #[trigger] bitmap.pixel(i as int, j as int),
                    ) by {
                        assert(bitmap.pixel(i as int, j as int) == prev.pixel(
                            i as int,
                            j as int,
                        ));
                    }
                    assert forall|j: u32| j < y + 1 implies call_ensures(
                        *gen,
                        (x, j),
                        #[trigger] bitmap.pixel(x as int, j as int),
                    ) by {
                        if j < y {
                            assert(bitmap.pixel(x as int, j as int) == prev.pixel(
                                x as int,
                                j as int,
                            ));
                        } else {
                            assert(bitmap.pixel(x as int, j as int) == p);
                        }
                    }
                }
                y += 1;
            }
            x += 1;
        }
        bitmap
    }

    /// Draws a single-pixel-wide line from `p1` to `p2` in the given
    /// color: one step per pixel of the dominant axis, the other
    /// coordinate linearly interpolated and rounded to the nearest pixel
    /// (ties away from zero). Both endpoints must lie inside the grid.
    /// Every pixel not on the line keeps its old color.
    pub fn draw_line(&mut self, p1: (u32, u32), p2: (u32, u32), color: Pixel)
        requires
            old(self).wf(),
            p1.0 < old(self).spec_width(),
            p1.1 < old(self).spec_height(),
            p2.0 < old(self).spec_width(),
            p2.1 < old(self).spec_height(),
        ensures
            final(self).wf(),
            final(self).spec_width() == old(self).spec_width(),
            final(self).spec_height() == old(self).spec_height(),
            forall|x: int, y: int|
                0 <= x < old(self).spec_width() && 0 <= y < old(self).spec_height()
                    ==> #[trigger] final(self).pixel(x, y) == (if on_line(p1, p2, x, y) {
                    color
                } else {
                    old(self).pixel(x, y)
                }),
    {
        let ghost w = old(self).spec_width() as int;
        let ghost h = old(self).spec_height() as int;
        let (x1, y1) = p1;
        let (x2, y2) = p2;
        let dx_abs = if x1 >= x2 {
            x1 - x2
        } else {
            x2 - x1
        };
        let dy_abs = if y1 >= y2 {
            y1 - y2
        } else {
            y2 - y1
        };
        proof {
            assert(dx_abs == abs_val(p1.0 - p2.0));
            assert(dy_abs == abs_val(p1.1 - p2.1));
        }
        if dx_abs > dy_abs {
            let (s_x, s_y, f_x, f_y) = if x1 < x2 {
                (x1, y1, x2, y2)
            } else {
                (x2, y2, x1, y1)
            };
            let den: i128 = (f_x - s_x) as i128;
            let dy: i128 = f_y as i128 - s_y as i128;
            let mut x = s_x;
            while x <= f_x
                invariant
                    self.wf(),
                    self.spec_width() == w,
                    self.spec_height() == h,
                    s_x <= x <= f_x + 1,
                    s_x < w,
                    f_x < w,
                    s_y < h,
                    f_y < h,
                    den == f_x - s_x,
                    den > 0,
                    dy == f_y - s_y,
                    abs_val(p1.0 - p2.0) > abs_val(p1.1 - p2.1),
                    (s_x as int, s_y as int, f_x as int, f_y as int) == (if p1.0 < p2.0 {
                        (p1.0 as int, p1.1 as int, p2.0 as int, p2.1 as int)
                    } else {
                        (p2.0 as int, p2.1 as int, p1.0 as int, p1.1 as int)
                    }),
                    forall|px: int, py: int|
                        0 <= px < w && 0 <= py < h ==> #[trigger] self.pixel(px, py) == (
                        if on_line(p1, p2, px, py) && px < x {
                            color
                        } else {
                            old(self).pixel(px, py)
                        }),
                decreases f_x + 1 - x,
            {
                proof {
                    lemma_interp_num_bounds((x - s_x) as int, dy as int, den as int);
                }
                let num: i128 = (x - s_x) as i128 * dy;
                proof {
                    if dy >= 0 {
                        lemma_round_div_bounds(num as int, den as int, dy as int);
                    } else {
                        lemma_round_div_bounds(-num as int, den as int, -dy as int);
                    }
                }
                let q = round_div_exec(num, den);
                proof {
                    assert(q == round_div(((x - s_x) as int) * (dy as int), den as int));
                    lemma_round_div_delta_range(num as int, den as int, dy as int);
                    assert(0 <= (s_y as int) + (q as int) && (s_y as int) + (q as int)
                        < 0x100000000);
                }
                let yy = (s_y as i128 + q) as u32;
                let ghost prev = *self;
                let _painted = self.set_pixel(x, yy, color);
                proof {
                    assert(yy as int == s_y + round_div((x - s_x) * (f_y - s_y), f_x - s_x));
                    assert forall|px: int, py: int| 0 <= px < w && 0 <= py < h implies #[trigger] self.pixel(px, py) == (if on_line(p1, p2, px, py) && px < x + 1 {
                        color
                    } else {
                        old(self).pixel(px, py)
                    }) by {
                        assert(self.pixels() == prev.pixels().update(
                            x as int,
                            prev.pixels()[x as int].update(yy as int, color),
                        ));
                        if px == x as int {
                            assert(on_line(p1, p2, px, py) <==> py == yy as int);
                            if py == yy as int {
                                assert(self.pixel(px, py) == color);
                            } else {
                                assert(self.pixel(px, py) == prev.pixel(px, py));
                            }
                        } else {
                            assert(self.pixel(px, py) == prev.pixel(px, py));
                            assert(on_line(p1, p2, px, py) && px < x + 1 <==> on_line(
                                p1,
                                p2,
                                px,
                                py,
                            ) && px < x);
                        }
                    }
                }
                x += 1;
            }
            proof {
                assert forall|px: int, py: int|
                    on_line(p1, p2, px, py) implies px < x as int by {}
            }
        } else {
            let (s_x, s_y, f_x, f_y) = if y1 < y2 {
                (x1, y1, x2, y2)
            } else {
                (x2, y2, x1, y1)
            };
            let den: i128 = (f_y - s_y) as i128;
            let dx: i128 = f_x as i128 - s_x as i128;
            let mut y = s_y;
            while y <= f_y
                invariant
                    self.wf(),
                    self.spec_width() == w,
                    self.spec_height() == h,
                    s_y <= y <= f_y + 1,
                    s_x < w,
                    f_x < w,
                    s_y < h,
                    f_y < h,
                    den == f_y - s_y,
                    den >= 0,
                    dx == f_x - s_x,
                    abs_val(p1.0 - p2.0) <= abs_val(p1.1 - p2.1),
                    (s_x as int, s_y as int, f_x as int, f_y as int) == (if p1.1 < p2.1 {
                        (p1.0 as int, p1.1 as int, p2.0 as int, p2.1 as int)
                    } else {
                        (p2.0 as int, p2.1 as int, p1.0 as int, p1.1 as int)
                    }),
                    forall|px: int, py: int|
                        0 <= px < w && 0 <= py < h ==> #[trigger] self.pixel(px, py) == (
                        if on_line(p1, p2, px, py) && py < y {
                            color
                        } else {
                            old(self).pixel(px, py)
                        }),
                decreases f_y + 1 - y,
            {
                let q: i128 = if f_y == s_y {
                    0
                } else {
                    proof {
                        lemma_interp_num_bounds((y - s_y) as int, dx as int, den as int);
                    }
                    let num: i128 = (y - s_y) as i128 * dx;
                    proof {
                        if dx >= 0 {
                            lemma_round_div_bounds(num as int, den as int, dx as int);
                        } else {
                            lemma_round_div_bounds(-num as int, den as int, -dx as int);
                        }
                    }
                    proof {
                        lemma_round_div_delta_range(num as int, den as int, dx as int);
                    }
                    round_div_exec(num, den)
                };
                proof {
                    assert(f_y != s_y ==> q == round_div(
                        ((y - s_y) as int) * (dx as int),
                        den as int,
                    ));
                    assert(0 <= (s_x as int) + (q as int) && (s_x as int) + (q as int)
                        < 0x100000000);
                }
                let xx = (s_x as i128 + q) as u32;
                let ghost prev = *self;
                let _painted = self.set_pixel(xx, y, color);
                proof {
                    assert(xx as int == s_x + (if f_y == s_y {
                        0int
                    } else {
                        round_div((y - s_y) * (f_x - s_x), f_y - s_y)
                    }));
                    assert forall|px: int, py: int| 0 <= px < w && 0 <= py < h implies #[trigger] self.pixel(px, py) == (if on_line(p1, p2, px, py) && py < y + 1 {
                        color
                    } else {
                        old(self).pixel(px, py)
                    }) by {
                        assert(self.pixels() == prev.pixels().update(
                            xx as int,
                            prev.pixels()[xx as int].update(y as int, color),
                        ));
                        if py == y as int {
                            assert(on_line(p1, p2, px, py) <==> px == xx as int);
                            if px == xx as int {
                                assert(self.pixel(px, py) == color);
                            } else {
                                assert(self.pixel(px, py) == prev.pixel(px, py));
                            }
                        } else {
                            assert(self.pixel(px, py) == prev.pixel(px, py));
                            assert(on_line(p1, p2, px, py) && py < y + 1 <==> on_line(
                                p1,
                                p2,
                                px,
                                py,
                            ) && py < y);
                        }
                    }
                }
                y += 1;
            }
            proof {
                assert forall|px: int, py: int|
                    on_line(p1, p2, px, py) implies py < y as int by {}
            }
        }
    }

    /// The pixel at `(x, y)`, or `IndexOutOfRange` when the coordinates
    /// lie outside the grid.
    pub fn get_pixel(&self, x: u32, y: u32) -> (r: Result<Pixel, BitMapError>)
        requires
            self.wf(),
        ensures
            match r {
                Ok(p) => {
                    &&& x < self.spec_width()
                    &&& y < self.spec_height()
                    &&& p == self.pixel(x as int, y as int)
                },
                Err(e) => {
                    &&& e == BitMapError::IndexOutOfRange
                    &&& (x >= self.spec_width() || y >= self.spec_height())
                },
            },
    {
        if x < self.width && y < self.height {
            proof {
                assert(self.data@.len() == self.spec_width());
                assert(self.pixels()[x as int].len() == self.spec_height());
            }
            Ok(self.data[x as usize][y as usize])
        } else {
            Err(BitMapError::IndexOutOfRange)
        }
    }

    /// Sets the pixel at `(x, y)` to `color`, or fails with
    /// `IndexOutOfRange`, leaving the grid unchanged, when the coordinates
    /// lie outside the grid.
    pub fn set_pixel(&mut self, x: u32, y: u32, color: Pixel) -> (r: Result<
        (),
        BitMapError,
    >)
        requires
            old(self).wf(),
        ensures
            final(self).wf(),
            final(self).spec_width() == old(self).spec_width(),
            final(self).spec_height() == old(self).spec_height(),
            match r {
                Ok(()) => {
                    &&& x < old(self).spec_width()
                    &&& y < old(self).spec_height()
                    &&& final(self).pixels() == old(self).pixels().update(
                        x as int,
                        old(self).pixels()[x as int].update(y as int, color),
                    )
                },
                Err(e) => {
                    &&& e == BitMapError::IndexOutOfRange
                    &&& (x >= old(self).spec_width() || y >= old(self).spec_height())
                    &&& *final(self) == *old(self)
                },
            },
    {
        if x < self.width && y < self.height {
            proof {
                assert(self.data@.len() == self.spec_width());
                assert(self.pixels()[x as int].len() == self.spec_height());
            }
            self.data[x as usize][y as usize] = color;
            proof {
                assert(self.pixels() =~= old(self).pixels().update(
                    x as int,
                    old(self).pixels()[x as int].update(y as int, color),
                ));
            }
            Ok(())
        } else {
            Err(BitMapError::IndexOutOfRange)
        }
    }

    /// Builds the 14 file-header bytes for a file of the given size field.
    pub fn get_header(size: u32) -> (r: Vec<u8>)
        ensures
            r@ == file_header_bytes(size),
    {
        // 66 and 77 are the ASCII codes of 'B' and 'M'.
        let mut res: Vec<u8> = vec![66, 77];
        let mut field = u32_to_u8(size);
        res.append(&mut field);
        let mut reserved = u32_to_u8(0);
        res.append(&mut reserved);
        let mut offset = u32_to_u8(54);
        res.append(&mut offset);
        proof {
            assert(res@ =~= file_header_bytes(size));
        }
        res
    }

    /// Builds the 40 info-header bytes for a grid of the given size.
    pub fn get_info_header(width: u32, height: u32) -> (r: Vec<u8>)
        ensures
            r@ == info_header_bytes(width, height),
    {
        let mut res: Vec<u8> = Vec::new();
        let mut header_len = u32_to_u8(40);
        res.append(&mut header_len);
        let mut width_field = u32_to_u8(width);
        res.append(&mut width_field);
        let mut height_field = u32_to_u8(height);
        res.append(&mut height_field);
        let mut planes = u16_to_u8(1);
        res.append(&mut planes);
        let mut bits_per_pixel = u16_to_u8(24);
        res.append(&mut bits_per_pixel);
        let mut compression = u32_to_u8(0);
        res.append(&mut compression);
        let mut image_size = u32_to_u8(0);
        res.append(&mut image_size);
        let mut x_resolution = u32_to_u8(100);
        res.append(&mut x_resolution);
        let mut y_resolution = u32_to_u8(100);
        res.append(&mut y_resolution);
        let mut colors_used = u32_to_u8(0);
        res.append(&mut colors_used);
        let mut important_colors = u32_to_u8(0);
        res.append(&mut important_colors);
        proof {
            assert(res@ =~= info_header_bytes(width, height));
        }
        res
    }

    /// Encodes the grid as the bytes of an uncompressed 24-bit bitmap
    /// file: file header, info header, then the rows bottom to top, each
    /// padded to a four-byte boundary. The file size field counts the
    /// headers and the pixel bytes but not the padding.
    pub fn encode_bmp(&self) -> (r: Vec<u8>)
        requires
            self.wf(),
            54 + 3 * (self.spec_width() as int) * (self.spec_height() as int) <= u32::MAX,
        ensures
            r@ == bmp_file_bytes(self.pixels(), self.spec_width(), self.spec_height()),
    {
        let ghost cols = self.pixels();
        let w = self.width;
        let h = self.height;
        proof {
            if h > 0 {
                assert(3 * (w as int) <= 3 * (w as int) * (h as int)) by (nonlinear_arith)
                    requires
                        (h as int) >= 1,
                        (w as int) >= 0,
                ;
            }
        }
        proof {
            assert((w as int) * (h as int) * 3 == 3 * (w as int) * (h as int))
                by (nonlinear_arith);
        }
        let size: u32 = 14 + 40 + w * h * 3;
        let mut res = BitMap::get_header(size);
        let mut info = BitMap::get_info_header(w, h);
        res.append(&mut info);
        let ghost header = res@;
        proof {
            assert(header =~= file_header_bytes(size) + info_header_bytes(w, h));
        }
        let mut y = h;
        while y > 0
            invariant
                y <= h,
                w == self.spec_width(),
                h == self.spec_height(),
                self.wf(),
                cols == self.pixels(),
                size == 54 + 3 * (w as int) * (h as int),
                h > 0 ==> 3 * (w as int) <= u32::MAX,
                header == file_header_bytes(size) + info_header_bytes(w, h),
                res@ + rows_bytes(cols, w as int, y as int) == header + rows_bytes(
                    cols,
                    w as int,
                    h as int,
                ),
            decreases y,
        {
            y -= 1;
            let ghost row_start = res@;
            let mut x: u32 = 0;
            while x < w
                invariant
                    x <= w,
                    y < h,
                    w == self.spec_width(),
                    h == self.spec_height(),
                    self.wf(),
                    cols == self.pixels(),
                    res@ == row_start + row_bytes(cols, y as int, x as int),
                decreases w - x,
            {
                proof {
                    assert(self.data@.len() == self.spec_width());
                    assert(self.pixels()[x as int].len() == self.spec_height());
                }
                let p = self.data[x as usize][y as usize];
                res.push(p.blue);
                res.push(p.green);
                res.push(p.red);
                proof {
                    assert(res@ =~= row_start + row_bytes(cols, y as int, x as int + 1));
                }
                x += 1;
            }
            let pad = offset_to((w as usize) * 3, 4);
            let mut k: usize = 0;
            while k < pad
                invariant
                    k <= pad,
                    pad == pad_len(3 * (w as int), 4),
                    res@ == row_start + row_bytes(cols, y as int, w as int) + zero_bytes(
                        k as int,
                    ),
                decreases pad - k,
            {
                res.push(0);
                proof {
                    assert(res@ =~= row_start + row_bytes(cols, y as int, w as int)
                        + zero_bytes(k as int + 1));
                }
                k += 1;
            }
            proof {
                assert(res@ =~= row_start + padded_row_bytes(cols, w as int, y as int));
                assert(rows_bytes(cols, w as int, y as int + 1) == padded_row_bytes(
                    cols,
                    w as int,
                    y as int,
                ) + rows_bytes(cols, w as int, y as int));
                assert(res@ + rows_bytes(cols, w as int, y as int) =~= row_start + rows_bytes(
                    cols,
                    w as int,
                    y as int + 1,
                ));
            }
        }
        proof {
            assert(res@ =~= res@ + rows_bytes(cols, w as int, 0));
            assert(res@ =~= bmp_file_bytes(cols, w, h));
        }
        res
    }

    /// The grid's size as `(width, height)`.
    pub fn size(&self) -> (r: (u32, u32))
        ensures
            r == (self.spec_width(), self.spec_height()),
    {
        (self.width, self.height)
    }
}

/// `num / den` rounded to the nearest integer, ties away from zero;
/// `den` must be positive.
pub open spec fn round_div(num: int, den: int) -> int {
    if num >= 0 {
        (2 * num + den) / (2 * den)
    } else {
        -((2 * -num + den) / (2 * den))
    }
}

/// A nonnegative rounded quotient stays between zero and any `bound`
/// with `num <= den * bound`.
pub proof fn lemma_round_div_bounds(num: int, den: int, bound: int)
    requires
        den > 0,
        0 <= num,
        num <= den * bound,
    ensures
        0 <= round_div(num, den) <= bound,
{
    lemma_div_is_ordered(0, 2 * num + den, 2 * den);
    assert(2 * num + den <= 2 * den * bound + den) by (nonlinear_arith)
        requires
            num <= den * bound,
    ;
    lemma_div_is_ordered(2 * num + den, 2 * den * bound + den, 2 * den);
    assert(2 * den * bound + den == (2 * den) * bound + den) by (nonlinear_arith);
    lemma_fundamental_div_mod_converse(2 * den * bound + den, 2 * den, bound, den);
}

/// The interpolation numerator `t * delta` of a line stays within the
/// bounds that stepping `t` of `den` pixels allows.
pub proof fn lemma_interp_num_bounds(t: int, delta: int, den: int)
    requires
        0 <= t <= den,
        0 < den < 0x100000000,
        -0x100000000 < delta < 0x100000000,
    ensures
        abs_val(t * delta) < 0x10000000000000000,
        delta >= 0 ==> 0 <= t * delta && t * delta <= den * delta,
        delta < 0 ==> 0 <= -(t * delta) && -(t * delta) <= den * -delta,
{
    assert(abs_val(t * delta) == t * abs_val(delta)) by (nonlinear_arith)
        requires
            t >= 0,
    ;
    assert(t * abs_val(delta) <= den * abs_val(delta)) by (nonlinear_arith)
        requires
            0 <= t <= den,
            abs_val(delta) >= 0,
    ;
    assert(den * abs_val(delta) < 0x100000000 * 0x100000000) by (nonlinear_arith)
        requires
            0 < den < 0x100000000,
            0 <= abs_val(delta) < 0x100000000,
    ;
    assert(delta >= 0 ==> t * delta == abs_val(t * delta) && den * delta == den * abs_val(
        delta,
    )) by (nonlinear_arith)
        requires
            t >= 0,
    ;
    assert(delta < 0 ==> -(t * delta) == abs_val(t * delta) && den * -delta == den * abs_val(
        delta,
    )) by (nonlinear_arith)
        requires
            t >= 0,
    ;
}

/// The rounded interpolation step stays between zero and the coordinate
/// delta, whichever sign the delta has.
pub proof fn lemma_round_div_delta_range(num: int, den: int, delta: int)
    requires
        den > 0,
        delta >= 0 ==> 0 <= num && num <= den * delta,
        delta < 0 ==> num <= 0 && -num <= den * -delta,
    ensures
        delta >= 0 ==> 0 <= round_div(num, den) <= delta,
        delta < 0 ==> delta <= round_div(num, den) <= 0,
{
    if delta >= 0 {
        lemma_round_div_bounds(num, den, delta);
    } else if num == 0 {
        lemma_fundamental_div_mod_converse(den, 2 * den, 0, den);
    } else {
        lemma_round_div_bounds(-num, den, -delta);
    }
}

/// Whether the line from `p1` to `p2` paints the pixel `(x, y)`. The
/// line steps one pixel at a time along its dominant axis (the axis of
/// the larger absolute coordinate delta, the y axis on a tie) and rounds
/// the linearly interpolated other coordinate to the nearest pixel, ties
/// away from zero; when the dominant extent carries no change of the
/// other coordinate's denominator (equal endpoint rows in the y-dominant
/// case, which forces equal endpoints), the slope is taken as zero.
pub open spec fn on_line(p1: (u32, u32), p2: (u32, u32), x: int, y: int) -> bool {
    let dx = abs_val(p1.0 - p2.0);
    let dy = abs_val(p1.1 - p2.1);
    if dx > dy {
        let (sx, sy, fx, fy) = if p1.0 < p2.0 {
            (p1.0 as int, p1.1 as int, p2.0 as int, p2.1 as int)
        } else {
            (p2.0 as int, p2.1 as int, p1.0 as int, p1.1 as int)
        };
        sx <= x <= fx && y == sy + round_div((x - sx) * (fy - sy), fx - sx)
    } else {
        let (sx, sy, fx, fy) = if p1.1 < p2.1 {
            (p1.0 as int, p1.1 as int, p2.0 as int, p2.1 as int)
        } else {
            (p2.0 as int, p2.1 as int, p1.0 as int, p1.1 as int)
        };
        sy <= y <= fy && x == sx + (if fy == sy {
            0int
        } else {
            round_div((y - sy) * (fx - sx), fy - sy)
        })
    }
}

/// `num / den` rounded to the nearest integer, ties away from zero.
fn round_div_exec(num: i128, den: i128) -> (r: i128)
    requires
        den > 0,
        den < 0x100000000,
        abs_val(num as int) < 0x10000000000000000,
    ensures
        r == round_div(num as int, den as int),
{
    let ud = den as u128;
    if num >= 0 {
        let un = num as u128;
        ((2 * un + ud) / (2 * ud)) as i128
    } else {
        let un = (-num) as u128;
        -(((2 * un + ud) / (2 * ud)) as i128)
    }
}

/// Reading a little-endian 32-bit field back gives the encoded value.
pub proof fn lemma_le32_round_trip(x: u32)
    ensures
        read_le32(le32(x), 0) == x,
{
    assert(x == x % 256 + 256 * ((x / 256) % 256) + 65536 * ((x / 65536) % 256) + 16777216 * ((x
        / 16777216) % 256)) by (bit_vector);
}

/// Re-parsing the header bytes of an encoded grid gives back its width,
/// its height, and a file size field of exactly `54 + 3*width*height` —
/// the padding bytes present in the file are not counted by that field.
pub proof fn lemma_bmp_header_round_trip(cols: Seq<Seq<Pixel>>, w: u32, h: u32)
    requires
        54 + 3 * (w as int) * (h as int) <= u32::MAX,
    ensures
        read_le32(bmp_file_bytes(cols, w, h), 2) == 54 + 3 * (w as int) * (h as int),
        read_le32(bmp_file_bytes(cols, w, h), 18) == w,
        read_le32(bmp_file_bytes(cols, w, h), 22) == h,
{
    let size = (54 + 3 * w * h) as u32;
    let bytes = bmp_file_bytes(cols, w, h);
    let fh = file_header_bytes(size);
    let ih = info_header_bytes(w, h);
    assert(fh.len() == 14);
    assert(ih.len() == 40);
    assert forall|i: int| 2 <= i < 6 implies bytes[i] == le32(size)[i - 2] by {
        assert(bytes[i] == fh[i]);
    }
    assert forall|i: int| 18 <= i < 22 implies bytes[i] == le32(w)[i - 18] by {
        assert(bytes[i] == ih[i - 14]);
    }
    assert forall|i: int| 22 <= i < 26 implies bytes[i] == le32(h)[i - 22] by {
        assert(bytes[i] == ih[i - 14]);
    }
    lemma_le32_round_trip(size);
    lemma_le32_round_trip(w);
    lemma_le32_round_trip(h);
    assert(read_le32(bytes, 2) == read_le32(le32(size), 0));
    assert(read_le32(bytes, 18) == read_le32(le32(w), 0));
    assert(read_le32(bytes, 22) == read_le32(le32(h), 0));
}

} // verus!
