//! Images of pixels, and how a grid of codels is read from one and written
//! to one, each codel a square block of pixels of one colour.

use crate::color::{color_of, Color};
use crate::grid::{lemma_index_in_bounds, PietCode};
use vstd::prelude::*;

verus! {

/// The three channels of a pixel: red, green, blue.
pub type Rgb = (u8, u8, u8);

/// What a codel of the colour `Other` is painted as: a purple that is no
/// colour of the palette.
pub const OTHER_COLOR: Rgb = (0x73, 0x26, 0xb1);

/// An image: its sides in pixels, and its pixels row by row.
#[derive(Debug, Clone, PartialEq, Eq)]
pub struct PixelImage {
    pub width: u32,
    pub height: u32,
    pub pixels: Vec<Rgb>,
}

impl PixelImage {
    /// The image holds one pixel for each coordinate.
    pub open spec fn wf(self) -> bool {
        self.pixels@.len() == self.width * self.height
    }

    /// The pixel at column `x`, row `y`.
    pub open spec fn pixel(self, x: int, y: int) -> Rgb {
        self.pixels@[y * self.width + x]
    }

    /// The pixel at column `x`, row `y`.
    pub fn get(&self, x: u32, y: u32) -> (r: Rgb)
        requires
            self.wf(),
            x < self.width,
            y < self.height,
        ensures
            r == self.pixel(x as int, y as int),
    {
        let len = self.pixels.len();
        proof {
            lemma_index_in_bounds(x as int, y as int, self.width as int, self.height as int);
        }
        self.pixels[y as usize * self.width as usize + x as usize]
    }
}

/// What a run of values that are all equal has to offer.
pub trait GetAllEqualIterator<T> {
    /// The value that every one of the values equals; `None` when there is
    /// no value or two of them differ.
    spec fn all_equal(&self) -> Option<T>;

    fn get_all_equal(&self) -> (r: Option<T>)
        ensures
            r == self.all_equal(),
    ;
}

impl GetAllEqualIterator<Rgb> for Vec<Rgb> {
    open spec fn all_equal(&self) -> Option<Rgb> {
        if self@.len() > 0 && forall|i: int| 0 <= i < self@.len() ==> #[trigger] self@[i] == self@[0] {
            Some(self@[0])
        } else {
            None
        }
    }

    fn get_all_equal(&self) -> (r: Option<Rgb>) {
        if self.len() == 0 {
            return None;
        }
        let a = self[0];
        let mut i: usize = 1;
        while i < self.len()
            invariant
                1 <= i <= self@.len(),
                a == self@[0],
                forall|k: int| 0 <= k < i ==> #[trigger] self@[k] == a,
            decreases self.len() - i,
        {
            let b = self[i];
            if !(a.0 == b.0 && a.1 == b.1 && a.2 == b.2) {
                return None;
            }
            i += 1;
        }
        Some(a)
    }
}

/// Whether every pixel of the block of `k` by `k` pixels that stands for the
/// codel at column `x`, row `y` equals `p`.
pub open spec fn block_is(img: PixelImage, k: int, x: int, y: int, p: Rgb) -> bool {
    forall|dx: int, dy: int|
        0 <= dx < k && 0 <= dy < k ==> #[trigger] img.pixel(x * k + dx, y * k + dy) == p
}

/// The colour of the codel at column `x`, row `y`, read from its block of `k`
/// by `k` pixels: the colour whose palette code every pixel of the block
/// has, and `Other` where they differ or have no code of the palette.
pub open spec fn block_color(img: PixelImage, k: int, x: int, y: int) -> Color {
    if block_is(img, k, x, y, img.pixel(x * k, y * k)) {
        color_of(img.pixel(x * k, y * k))
    } else {
        Color::Other
    }
}

/// The pixels of the block of `k` by `k` pixels at column `x`, row `y` of
/// the codel grid, row by row.
fn block_pixels(img: &PixelImage, k: u32, x: u32, y: u32) -> (r: Vec<Rgb>)
    requires
        img.wf(),
        k > 0,
        (x + 1) * k <= img.width,
        (y + 1) * k <= img.height,
    ensures
        r@.len() == k * k,
        forall|dx: int, dy: int|
            0 <= dx < k && 0 <= dy < k ==> #[trigger] r@[dy * k + dx] == img.pixel(
                x * k + dx,
                y * k + dy,
            ),
{
    let mut out: Vec<Rgb> = Vec::new();
    let mut dy: u32 = 0;
    assert(x * k + k == (x + 1) * k) by (nonlinear_arith);
    assert(y * k + k == (y + 1) * k) by (nonlinear_arith);
    assert(x * k >= 0 && y * k >= 0) by (nonlinear_arith);
    while dy < k
        invariant
            dy <= k,
            k > 0,
            img.wf(),
            x * k + k <= img.width,
            y * k + k <= img.height,
            0 <= x * k,
            0 <= y * k,
            out@.len() == dy * k,
            forall|ax: int, ay: int|
                0 <= ax < k && 0 <= ay < dy ==> #[trigger] out@[ay * k + ax] == img.pixel(
                    x * k + ax,
                    y * k + ay,
                ),
        decreases k - dy,
    {
        let mut dx: u32 = 0;
        while dx < k
            invariant
                dx <= k,
                dy < k,
                k > 0,
                img.wf(),
                x * k + k <= img.width,
                y * k + k <= img.height,
                0 <= x * k,
                0 <= y * k,
                out@.len() == dy * k + dx,
                forall|ax: int, ay: int|
                    0 <= ax < k && 0 <= ay < dy ==> #[trigger] out@[ay * k + ax] == img.pixel(
                        x * k + ax,
                        y * k + ay,
                    ),
                forall|ax: int|
                    0 <= ax < dx ==> #[trigger] out@[dy * k + ax] == img.pixel(
                        x * k + ax,
                        y * k + dy,
                    ),
            decreases k - dx,
        {
            let ghost before = out@;
            let p = img.get(x * k + dx, y * k + dy);
            out.push(p);
            proof {
                assert forall|ax: int, ay: int| 0 <= ax < k && 0 <= ay < dy implies #[trigger] out@[ay
                    * k + ax] == img.pixel(x * k + ax, y * k + ay) by {
                    lemma_index_in_bounds(ax, ay, k as int, dy as int);
                    assert(k * dy == dy * k) by (nonlinear_arith);
                    assert(ay * k + ax < before.len());
                    assert(out@[ay * k + ax] == before[ay * k + ax]);
                }
            }
            dx += 1;
        }
        proof {
            assert((dy + 1) * k == dy * k + k) by (nonlinear_arith);
            assert forall|ax: int, ay: int| 0 <= ax < k && 0 <= ay < dy + 1 implies #[trigger] out@[ay
                * k + ax] == img.pixel(x * k + ax, y * k + ay) by {
                if ay == dy {
                    assert(out@[dy * k + ax] == img.pixel(x * k + ax, y * k + dy));
                }
            }
        }
        dy += 1;
    }
    assert(out@.len() == k * k);
    out
}

/// Reads a grid of codels from an image in which each codel is a block of
/// `codel_size` by `codel_size` pixels. The sides of the image must be
/// multiples of `codel_size`, which must not be zero.
pub fn to_codels(img: &PixelImage, codel_size: u32) -> (r: Result<PietCode, String>)
    requires
        img.wf(),
        codel_size > 0,
    ensures
        r.is_ok() == (img.width % codel_size == 0 && img.height % codel_size == 0),
        match r {
            Ok(code) => {
                &&& code.spec_width() == img.width / codel_size
                &&& code.spec_height() == img.height / codel_size
                &&& forall|x: int, y: int|
                    0 <= x < code.spec_width() && 0 <= y < code.spec_height()
                        ==> #[trigger] code.cells()[y * code.spec_width() + x] == block_color(
                        *img,
                        codel_size as int,
                        x,
                        y,
                    )
            },
            Err(e) => e@ == "invalid dimensions"@,
        },
{
    if img.width % codel_size != 0 || img.height % codel_size != 0 {
        return Err("invalid dimensions".to_owned());
    }
    let width = img.width / codel_size;
    let height = img.height / codel_size;
    let k = codel_size;
    proof {
        vstd::arithmetic::div_mod::lemma_fundamental_div_mod(img.width as int, k as int);
        vstd::arithmetic::div_mod::lemma_fundamental_div_mod(img.height as int, k as int);
        assert(k * width == width * k) by (nonlinear_arith);
        assert(k * height == height * k) by (nonlinear_arith);
        assert(width * height <= img.width * img.height) by (nonlinear_arith)
            requires
                width * k == img.width,
                height * k == img.height,
                k >= 1,
                width >= 0,
                height >= 0,
        ;
    }
    let len = img.pixels.len();
    let mut code: Vec<Color> = Vec::new();
    let mut y: u32 = 0;
    while y < height
        invariant
            y <= height,
            k == codel_size,
            k > 0,
            img.wf(),
            width * k == img.width,
            height * k == img.height,
            width * height <= usize::MAX,
            code@.len() == y * width,
            forall|ax: int, ay: int|
                0 <= ax < width && 0 <= ay < y ==> #[trigger] code@[ay * width + ax] == block_color(
                    *img,
                    k as int,
                    ax,
                    ay,
                ),
        decreases height - y,
    {
        let mut x: u32 = 0;
        while x < width
            invariant
                x <= width,
                y < height,
                k == codel_size,
                k > 0,
                img.wf(),
                width * k == img.width,
                height * k == img.height,
                width * height <= usize::MAX,
                code@.len() == y * width + x,
                forall|ax: int, ay: int|
                    0 <= ax < width && 0 <= ay < y ==> #[trigger] code@[ay * width + ax]
                        == block_color(*img, k as int, ax, ay),
                forall|ax: int|
                    0 <= ax < x ==> #[trigger] code@[y * width + ax] == block_color(
                        *img,
                        k as int,
                        ax,
                        y as int,
                    ),
            decreases width - x,
        {
            proof {
                assert((x + 1) * k <= width * k) by (nonlinear_arith)
                    requires
                        x + 1 <= width,
                        k > 0,
                ;
                assert((y + 1) * k <= height * k) by (nonlinear_arith)
                    requires
                        y + 1 <= height,
                        k > 0,
                ;
                lemma_index_in_bounds(x as int, y as int, width as int, height as int);
            }
            let block = block_pixels(img, k, x, y);
            let color = match block.get_all_equal() {
                Some(px) => Color::from_rgb(px.0, px.1, px.2),
                None => Color::Other,
            };
            proof {
                assert(k * k >= 1) by (nonlinear_arith)
                    requires
                        k >= 1,
                ;
                assert(block@[0 * k + 0] == img.pixel(x * k + 0, y * k + 0));
                let first = img.pixel(x * k, y * k);
                if block.all_equal().is_some() {
                    assert forall|dx: int, dy: int| 0 <= dx < k && 0 <= dy < k implies #[trigger] img.pixel(
                        x * k + dx,
                        y * k + dy,
                    ) == first by {
                        lemma_index_in_bounds(dx, dy, k as int, k as int);
                        assert(block@[dy * k + dx] == img.pixel(x * k + dx, y * k + dy));
                    }
                } else {
                    let i = choose|i: int| 0 <= i < block@.len() && #[trigger] block@[i] != block@[0];
                    crate::assembler::buffer::lemma_row_major_split(i, k as int);
                    let dx = i % (k as int);
                    let dy = i / (k as int);
                    assert(dy < k) by (nonlinear_arith)
                        requires
                            i < k * k,
                            i == dy * k + dx,
                            0 <= dx,
                            k > 0,
                    ;
                    assert(block@[dy * k + dx] == img.pixel(x * k + dx, y * k + dy));
                }
                assert(color == block_color(*img, k as int, x as int, y as int));
            }
            let ghost before = code@;
            code.push(color);
            proof {
                assert forall|ax: int, ay: int| 0 <= ax < width && 0 <= ay < y implies #[trigger] code@[ay
                    * width + ax] == block_color(*img, k as int, ax, ay) by {
                    lemma_index_in_bounds(ax, ay, width as int, y as int);
                    assert(width * y == y * width) by (nonlinear_arith);
                    assert(ay * width + ax < before.len());
                    assert(code@[ay * width + ax] == before[ay * width + ax]);
                }
            }
            x += 1;
        }
        proof {
            assert((y + 1) * width == y * width + width) by (nonlinear_arith);
            assert forall|ax: int, ay: int| 0 <= ax < width && 0 <= ay < y + 1 implies #[trigger] code@[ay
                * width + ax] == block_color(*img, k as int, ax, ay) by {
                if ay == y {
                    assert(code@[y * width + ax] == block_color(*img, k as int, ax, y as int));
                }
            }
        }
        y += 1;
    }
    assert(code@.len() == width * height) by (nonlinear_arith)
        requires
            code@.len() == y * width,
            y == height,
    ;
    match PietCode::from_codels(width as usize, height as usize, code) {
        Some(code) => Ok(code),
        None => Err("invalid dimensions".to_owned()),
    }
}

/// What a codel of the colour `c` is painted as: its palette code, or the
/// purple that stands for `Other`.
pub open spec fn paint_of(c: Color) -> Rgb {
    match c.rgb_spec() {
        Some(rgb) => rgb,
        None => OTHER_COLOR,
    }
}

/// Writes a grid of codels as an image in which each codel is a block of
/// `codel_size` by `codel_size` pixels. The sides of the image must fit 32
/// bits, and its pixels a machine word.
pub fn to_image(code: &PietCode, codel_size: u32) -> (r: PixelImage)
    requires
        code.spec_width() * codel_size <= u32::MAX,
        code.spec_height() * codel_size <= u32::MAX,
        code.spec_width() * codel_size * (code.spec_height() * codel_size) <= usize::MAX,
    ensures
        r.wf(),
        r.width == code.spec_width() * codel_size,
        r.height == code.spec_height() * codel_size,
        forall|x: int, y: int|
            0 <= x < r.width && 0 <= y < r.height ==> #[trigger] r.pixel(x, y) == paint_of(
                code.cells()[(y / (codel_size as int)) * code.spec_width() + x / (
                codel_size as int)],
            ),
{
    let k = codel_size;
    let w = code.width();
    let h = code.height();
    if k == 0 {
        assert(w * 0 == 0 && h * 0 == 0) by (nonlinear_arith);
        return PixelImage { width: 0, height: 0, pixels: Vec::new() };
    }
    assert(w <= w * k && h <= h * k) by (nonlinear_arith)
        requires
            k >= 1,
            w >= 0,
            h >= 0,
    ;
    let width: u32 = w as u32 * k;
    let height: u32 = h as u32 * k;
    let mut pixels: Vec<Rgb> = Vec::new();
    let mut y: u32 = 0;
    while y < height
        invariant
            y <= height,
            k > 0,
            k == codel_size,
            w == code.spec_width(),
            h == code.spec_height(),
            code.cells().len() == w * h,
            width == w * k,
            height == h * k,
            width * height <= usize::MAX,
            pixels@.len() == y * width,
            forall|ax: int, ay: int|
                0 <= ax < width && 0 <= ay < y ==> #[trigger] pixels@[ay * width + ax] == paint_of(
                    code.cells()[(ay / (k as int)) * w + ax / (k as int)],
                ),
        decreases height - y,
    {
        let mut x: u32 = 0;
        while x < width
            invariant
                x <= width,
                y < height,
                k > 0,
                k == codel_size,
                w == code.spec_width(),
                h == code.spec_height(),
                code.cells().len() == w * h,
                width == w * k,
                height == h * k,
                width * height <= usize::MAX,
                pixels@.len() == y * width + x,
                forall|ax: int, ay: int|
                    0 <= ax < width && 0 <= ay < y ==> #[trigger] pixels@[ay * width + ax]
                        == paint_of(code.cells()[(ay / (k as int)) * w + ax / (k as int)]),
                forall|ax: int|
                    0 <= ax < x ==> #[trigger] pixels@[y * width + ax] == paint_of(
                        code.cells()[(y / k) * w + ax / (k as int)],
                    ),
            decreases width - x,
        {
            let cx = x / k;
            let cy = y / k;
            proof {
                vstd::arithmetic::div_mod::lemma_div_is_ordered(0, x as int, k as int);
                vstd::arithmetic::div_mod::lemma_div_is_ordered(0, y as int, k as int);
                vstd::arithmetic::div_mod::lemma_fundamental_div_mod(x as int, k as int);
                vstd::arithmetic::div_mod::lemma_fundamental_div_mod(y as int, k as int);
                vstd::arithmetic::div_mod::lemma_mod_bound(x as int, k as int);
                vstd::arithmetic::div_mod::lemma_mod_bound(y as int, k as int);
                assert(cx < w) by (nonlinear_arith)
                    requires
                        x < w * k,
                        x == k * cx + (x % k),
                        0 <= x % k,
                        k > 0,
                ;
                assert(cy < h) by (nonlinear_arith)
                    requires
                        y < h * k,
                        y == k * cy + (y % k),
                        0 <= y % k,
                        k > 0,
                ;
                lemma_index_in_bounds(x as int, y as int, width as int, height as int);
            }
            let color = match code.at(cx as usize, cy as usize) {
                Some(c) => c,
                None => Color::Other,
            };
            let rgb = match color.to_rgb() {
                Some(rgb) => rgb,
                None => OTHER_COLOR,
            };
            let ghost before = pixels@;
            pixels.push(rgb);
            proof {
                assert(code.color_at((cx as usize, cy as usize)) == Some(
                    code.cells()[cx + cy * w],
                ));
                assert(cx + cy * w == cy * w + cx);
                assert forall|ax: int, ay: int| 0 <= ax < width && 0 <= ay < y implies #[trigger] pixels@[ay
                    * width + ax] == paint_of(
                    code.cells()[(ay / (k as int)) * w + ax / (k as int)],
                ) by {
                    lemma_index_in_bounds(ax, ay, width as int, y as int);
                    assert(width * y == y * width) by (nonlinear_arith);
                    assert(ay * width + ax < before.len());
                    assert(pixels@[ay * width + ax] == before[ay * width + ax]);
                }
            }
            x += 1;
        }
        proof {
            assert((y + 1) * width == y * width + width) by (nonlinear_arith);
            assert forall|ax: int, ay: int| 0 <= ax < width && 0 <= ay < y + 1 implies #[trigger] pixels@[ay
                * width + ax] == paint_of(
                code.cells()[(ay / (k as int)) * w + ax / (k as int)],
            ) by {
                if ay == y {
                    assert(pixels@[y * width + ax] == paint_of(
                        code.cells()[(y / k) * w + ax / (k as int)],
                    ));
                }
            }
        }
        y += 1;
    }
    assert(pixels@.len() == width * height) by (nonlinear_arith)
        requires
            pixels@.len() == y * width,
            y == height,
    ;
    PixelImage { width, height, pixels }
}

} // verus!
