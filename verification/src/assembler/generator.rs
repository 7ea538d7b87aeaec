//! The code generator: lays a list of commands out as a grid of codels.

use crate::assembler::buffer::{
    lemma_blit_whole, lemma_draw_rect_wf, reports, then_draw, then_rect, Canvas, DrawError,
    PietCodeBuffer, PietCodeBufferEdit, Rect, ROW_HEIGHT,
};
use crate::assembler::optimizer::fit;
use crate::assembler::{instrs, AsmCommand, Instr, LabelId, PietAsm};
use crate::bigint::{big_to_usize, big_value};
use crate::grid::PietCode;
use std::collections::HashMap;
use vstd::string::StringSliceAdditionalSpecFns;
use crate::color::{Color, Command, Hue, Lightness};
use vstd::prelude::*;

verus! {

/// The width of a generated grid, in codels.
pub const WIDTH: usize = 100;

/// The height of the block of codels that stands for a pushed number.
pub const ROW_FILL_HEIGHT: usize = 5;

/// The colour from which the generator starts every chain of commands.
pub open spec fn control_color_spec() -> Color {
    Color::Color(Hue::Red, Lightness::Normal)
}

pub fn control_color() -> (r: Color)
    ensures
        r == control_color_spec(),
{
    Color::Color(Hue::Red, Lightness::Normal)
}

/// A small fixed drawing: its codels, and how the cursor moves past it.
#[derive(Debug)]
pub struct DrawPattern {
    /// The row of the drawing on which the track enters it.
    pub off_y: usize,
    /// How far the cursor moves to the right.
    pub step_x: usize,
    /// How many columns the drawing needs.
    pub allocation_width: usize,
    /// The colour that the track leaves the drawing with, if it leaves.
    pub last_color: Option<Color>,
    /// The codels: column, row, colour.
    pub pixels: Vec<(usize, usize, Color)>,
}

/// What a scan of a picture in text has found so far.
pub struct Scan {
    /// The column of the next character.
    pub x: int,
    /// The row of the next character.
    pub y: int,
    /// The codels found, in reading order.
    pub pixels: Seq<(usize, usize, Color)>,
    /// The row marked as the one the track enters on.
    pub start_y: Option<int>,
    /// The codel marked as the one the track leaves to.
    pub end: Option<(int, int)>,
    /// Whether every character so far was allowed where it stood.
    pub ok: bool,
}

/// The scan of the first `n` characters of `pattern`. The first column of
/// each line holds a blank, or `>` on the one line where the track enters; no
/// line is empty. After it a blank is no codel, `.` a white one, `#` a black
/// one, a small letter the colour of `colors` that it counts to, and `>`
/// marks, once, the codel that the track leaves to. Each codel lies one
/// column left of its character.
pub open spec fn scan(pattern: Seq<u8>, colors: Seq<Color>, n: nat) -> Scan
    decreases n,
{
    if n == 0 {
        Scan { x: 0, y: 0, pixels: Seq::empty(), start_y: None, end: None, ok: true }
    } else {
        let s = scan(pattern, colors, (n - 1) as nat);
        let c = pattern[n - 1];
        if c == 0x20u8 {
            Scan { x: s.x + 1, ..s }
        } else if s.x == 0 {
            if c == 0x3Eu8 && s.start_y.is_none() {
                Scan { x: 1, start_y: Some(s.y), ..s }
            } else {
                Scan { x: 1, ok: false, ..s }
            }
        } else if c == 0x3Eu8 {
            if s.end.is_none() {
                Scan { x: s.x + 1, end: Some((s.x - 1, s.y)), ..s }
            } else {
                Scan { x: s.x + 1, ok: false, ..s }
            }
        } else if c == 0x2Eu8 {
            Scan {
                x: s.x + 1,
                pixels: s.pixels.push(((s.x - 1) as usize, s.y as usize, Color::White)),
                ..s
            }
        } else if c == 0x23u8 {
            Scan {
                x: s.x + 1,
                pixels: s.pixels.push(((s.x - 1) as usize, s.y as usize, Color::Black)),
                ..s
            }
        } else if 0x61u8 <= c <= 0x7Au8 {
            if c - 0x61 < colors.len() {
                Scan {
                    x: s.x + 1,
                    pixels: s.pixels.push(((s.x - 1) as usize, s.y as usize, colors[c - 0x61])),
                    ..s
                }
            } else {
                Scan { x: s.x + 1, ok: false, ..s }
            }
        } else if c == 0x0Au8 {
            Scan { x: 0, y: s.y + 1, ..s }
        } else {
            Scan { x: s.x + 1, ok: false, ..s }
        }
    }
}

/// A scan that has met a character where it was not allowed stays failed.
pub proof fn lemma_scan_stays_failed(pattern: Seq<u8>, colors: Seq<Color>, n: nat, m: nat)
    requires
        n <= m,
        !scan(pattern, colors, n).ok,
    ensures
        !scan(pattern, colors, m).ok,
    decreases m,
{
    if n < m {
        lemma_scan_stays_failed(pattern, colors, n, (m - 1) as nat);
    }
}

/// One more than the greatest column among `pixels`; zero when there is
/// none.
pub open spec fn pixels_width(pixels: Seq<(usize, usize, Color)>) -> int
    decreases pixels.len(),
{
    if pixels.len() == 0 {
        0
    } else {
        let rest = pixels_width(pixels.drop_last());
        if pixels.last().0 + 1 > rest {
            pixels.last().0 + 1
        } else {
            rest
        }
    }
}

/// The colour of the first of `pixels` at column `x`, row `y`.
pub open spec fn pixel_color(pixels: Seq<(usize, usize, Color)>, x: int, y: int) -> Option<Color>
    decreases pixels.len(),
{
    if pixels.len() == 0 {
        None
    } else if pixels[0].0 == x && pixels[0].1 == y {
        Some(pixels[0].2)
    } else {
        pixel_color(pixels.drop_first(), x, y)
    }
}

/// Whether a scan is that of a picture that can be drawn: every character
/// was allowed, there is a codel, the track enters on the second line, and
/// where it leaves, it leaves on that line, to the right of every codel and
/// next to one.
pub open spec fn scan_draws(s: Scan) -> bool {
    &&& s.ok
    &&& s.pixels.len() > 0
    &&& s.start_y == Some(1int)
    &&& match s.end {
        Some((x, y)) => {
            &&& y == 1
            &&& pixel_color(s.pixels, x - 1, y).is_some()
            &&& forall|i: int| 0 <= i < s.pixels.len() ==> (#[trigger] s.pixels[i]).0 < x
        },
        None => true,
    }
}

/// A drawing as a mathematical value.
pub struct Stamp {
    pub step_x: usize,
    pub allocation_width: usize,
    pub last_color: Option<Color>,
    pub pixels: Seq<(usize, usize, Color)>,
}

/// The drawing that a scan describes: as wide as its codels reach, with one
/// column more to leave by where the track leaves it, and then with the
/// colour of the codel that the track leaves from.
pub open spec fn stamp_of(s: Scan) -> Stamp {
    Stamp {
        pixels: s.pixels,
        step_x: pixels_width(s.pixels) as usize,
        allocation_width: (pixels_width(s.pixels) + if s.end.is_some() {
            1int
        } else {
            0int
        }) as usize,
        last_color: match s.end {
            Some((x, y)) => pixel_color(s.pixels, x - 1, y),
            None => None,
        },
    }
}

impl View for DrawPattern {
    type V = Stamp;

    open spec fn view(&self) -> Stamp {
        Stamp {
            step_x: self.step_x,
            allocation_width: self.allocation_width,
            last_color: self.last_color,
            pixels: self.pixels@,
        }
    }
}

impl DrawPattern {
    /// The drawing moves the cursor no further than it needs columns.
    pub open spec fn wf(self) -> bool {
        self.step_x <= self.allocation_width
    }
}

impl DrawPattern {
    /// The drawing that the picture `pattern` describes, its letters standing
    /// for `colors`; `None` when the picture cannot be drawn.
    pub fn generate(pattern: &[u8], colors: Vec<Color>) -> (r: Option<DrawPattern>)
        ensures
            r.is_some() == scan_draws(scan(pattern@, colors@, pattern@.len())),
            r.is_some() ==> r.unwrap()@ == stamp_of(scan(pattern@, colors@, pattern@.len()))
                && r.unwrap().wf() && r.unwrap().off_y == 1,
    {
        let mut x: usize = 0;
        let mut y: usize = 0;
        let mut pixels: Vec<(usize, usize, Color)> = Vec::new();
        let mut start_y: Option<usize> = None;
        let mut end: Option<(usize, usize)> = None;
        let mut i: usize = 0;
        while i < pattern.len()
            invariant
                i <= pattern.len(),
                x <= i,
                y <= i,
                forall|k: int| 0 <= k < pixels@.len() ==> (#[trigger] pixels@[k]).0 < i,
                end.is_some() ==> end.unwrap().0 < i,
                ({
                    let s = scan(pattern@, colors@, i as nat);
                    &&& s.ok
                    &&& s.x == x
                    &&& s.y == y
                    &&& s.pixels == pixels@
                    &&& match start_y {
                        Some(v) => s.start_y == Some(v as int),
                        None => s.start_y.is_none(),
                    }
                    &&& match end {
                        Some((ex, ey)) => s.end == Some((ex as int, ey as int)),
                        None => s.end.is_none(),
                    }
                }),
            decreases pattern.len() - i,
        {
            let c = pattern[i];
            let ghost before = scan(pattern@, colors@, i as nat);
            let ghost after = scan(pattern@, colors@, (i + 1) as nat);
            let mut failed = false;
            if c == 0x20 {
                x += 1;
            } else if x == 0 {
                if c == 0x3E && start_y.is_none() {
                    start_y = Some(y);
                    x = 1;
                } else {
                    failed = true;
                }
            } else if c == 0x3E {
                if end.is_none() {
                    end = Some((x - 1, y));
                    x += 1;
                } else {
                    failed = true;
                }
            } else if c == 0x2E {
                pixels.push((x - 1, y, Color::White));
                x += 1;
            } else if c == 0x23 {
                pixels.push((x - 1, y, Color::Black));
                x += 1;
            } else if 0x61 <= c && c <= 0x7A {
                let idx: usize = (c - 0x61) as usize;
                if idx < colors.len() {
                    pixels.push((x - 1, y, colors[idx]));
                    x += 1;
                } else {
                    failed = true;
                }
            } else if c == 0x0A {
                x = 0;
                y += 1;
            } else {
                failed = true;
            }
            if failed {
                proof {
                    lemma_scan_stays_failed(pattern@, colors@, (i + 1) as nat, pattern@.len());
                }
                return None;
            }
            i += 1;
        }
        let ghost s = scan(pattern@, colors@, pattern@.len());
        if pixels.len() == 0 {
            return None;
        }
        match start_y {
            Some(1) => {},
            _ => {
                return None;
            },
        }
        let mut width: usize = 0;
        let mut j: usize = 0;
        while j < pixels.len()
            invariant
                j <= pixels.len(),
                width == pixels_width(pixels@.take(j as int)),
                width <= pattern.len(),
                forall|k: int| 0 <= k < j ==> (#[trigger] pixels@[k]).0 < width,
                forall|k: int|
                    0 <= k < pixels@.len() ==> (#[trigger] pixels@[k]).0 < pattern.len(),
            decreases pixels.len() - j,
        {
            proof {
                assert(pixels@.take(j + 1).drop_last() =~= pixels@.take(j as int));
            }
            if pixels[j].0 + 1 > width {
                width = pixels[j].0 + 1;
            }
            j += 1;
        }
        proof {
            assert(pixels@.take(pixels@.len() as int) =~= pixels@);
        }
        let (allocation_width, last_color) = match end {
            None => (width, None),
            Some((ex, ey)) => {
                if ey != 1 || width > ex {
                    proof {
                        if width > ex {
                            lemma_width_reached(pixels@);
                        }
                    }
                    return None;
                }
                let found = find_color(&pixels, ex, ey);
                if found.is_none() {
                    return None;
                }
                (width + 1, found)
            },
        };
        Some(DrawPattern { off_y: 1, step_x: width, last_color, allocation_width, pixels })
    }
}

/// Some codel lies in the last column that a drawing's width counts.
pub proof fn lemma_width_reached(pixels: Seq<(usize, usize, Color)>)
    requires
        pixels.len() > 0,
    ensures
        exists|i: int| 0 <= i < pixels.len() && (#[trigger] pixels[i]).0 + 1 == pixels_width(pixels),
    decreases pixels.len(),
{
    let rest = pixels.drop_last();
    if pixels.last().0 + 1 > pixels_width(rest) {
        assert(pixels[pixels.len() - 1].0 + 1 == pixels_width(pixels));
    } else {
        if rest.len() > 0 {
            lemma_width_reached(rest);
            let i = choose|i: int| 0 <= i < rest.len() && (#[trigger] rest[i]).0 + 1 == pixels_width(
                rest,
            );
            assert(pixels[i] == rest[i]);
        }
    }
}

/// The colour of the first of `pixels` that lies just left of column `x` on
/// row `y`.
fn find_color(pixels: &Vec<(usize, usize, Color)>, x: usize, y: usize) -> (r: Option<Color>)
    ensures
        r == pixel_color(pixels@, x - 1, y as int),
{
    let mut i: usize = 0;
    assert(pixels@.skip(0) =~= pixels@);
    while i < pixels.len()
        invariant
            i <= pixels.len(),
            pixel_color(pixels@, x - 1, y as int) == pixel_color(
                pixels@.skip(i as int),
                x - 1,
                y as int,
            ),
        decreases pixels.len() - i,
    {
        let (px, py, color) = pixels[i];
        proof {
            assert(pixels@.skip(i as int).drop_first() =~= pixels@.skip(i + 1));
        }
        if px < usize::MAX && px + 1 == x && py == y {
            return Some(color);
        }
        i += 1;
    }
    None
}

/// The state of a layout as a mathematical value: the canvas, the cursor, the
/// colour that the track has at the cursor, and the reserved columns.
pub struct Layout {
    pub canvas: Canvas,
    pub last_color: Option<Color>,
    pub x: usize,
    pub y: usize,
    pub jump_xs: Set<usize>,
}

/// Whether `r` reports what the layout step `want` comes to: on success the
/// layout `now`, on failure the error.
pub open spec fn tells(r: Result<(), DrawError>, want: Result<Layout, DrawError>, now: Layout) -> bool {
    match r {
        Ok(_) => want == Ok::<Layout, DrawError>(now),
        Err(e) => want == Err::<Layout, DrawError>(e),
    }
}

/// The rightmost reserved column among the `width` columns from `x` on.
pub open spec fn blocked(jump_xs: Set<usize>, x: int, width: nat) -> Option<usize>
    decreases width,
{
    if width == 0 {
        None
    } else if jump_xs.contains((x + width - 1) as usize) {
        Some((x + width - 1) as usize)
    } else {
        blocked(jump_xs, x, (width - 1) as nat)
    }
}

impl Layout {
    /// The `width` columns of the current row from the cursor on.
    pub open spec fn row_area(self, width: usize) -> Rect {
        Rect { x: self.x, y: self.y, width, height: ROW_HEIGHT }
    }

    /// Whether the `width` columns of the current row from the cursor on lie
    /// on the canvas.
    pub open spec fn fits(self, width: usize) -> bool {
        self.x + width <= self.canvas.width && self.y + ROW_HEIGHT <= self.canvas.height
    }

    /// The layout after a drawing is stamped at the cursor: the cursor moves
    /// past it and the track takes the colour it leaves with.
    pub open spec fn draw_here(self, pattern: Stamp) -> Result<Layout, DrawError> {
        if !self.fits(pattern.allocation_width) {
            Err(DrawError::OutOfBounds(self.x, self.y))
        } else {
            match self.canvas.stamp(self.row_area(pattern.allocation_width), pattern.pixels) {
                Ok(c) => Ok(
                    Layout {
                        canvas: c,
                        last_color: pattern.last_color,
                        x: (self.x + pattern.step_x) as usize,
                        ..self
                    },
                ),
                Err(e) => Err(e),
            }
        }
    }

    /// The layout after a new row is begun: the canvas grows by a row, the
    /// cursor goes to the third column of it, and, where `draw` is set, the
    /// gadget that turns the track about is drawn and the track is white.
    /// There is no room when the grown canvas would not fit a machine word.
    pub open spec fn wrap(self, draw: bool) -> Result<Layout, DrawError> {
        if self.canvas.width * (self.canvas.height + ROW_HEIGHT) > usize::MAX || self.canvas.height
            + ROW_HEIGHT > usize::MAX || self.y + ROW_HEIGHT + 3 > usize::MAX || self.x
            >= usize::MAX {
            Err(DrawError::AllocationError)
        } else {
            let grown = self.canvas.grown(ROW_HEIGHT as nat);
            if draw {
                match grown.draw_newline(self.x, (self.y + 1) as usize) {
                    Ok(c) => Ok(
                        Layout {
                            canvas: c,
                            last_color: Some(Color::White),
                            x: 2,
                            y: (self.y + ROW_HEIGHT) as usize,
                            ..self
                        },
                    ),
                    Err(e) => Err(e),
                }
            } else {
                Ok(Layout { canvas: grown, x: 2, y: (self.y + ROW_HEIGHT) as usize, ..self })
            }
        }
    }

    /// The layout with room for `width` columns at the cursor, after
    /// `attempts` attempts: a new row is begun when the columns would reach
    /// the right edge; while one of them is reserved, the track is led past
    /// the rightmost such in white and the cursor follows, which counts as an
    /// attempt. Ten attempts are the limit.
    pub open spec fn allocate(self, width: usize, attempts: nat) -> Result<Layout, DrawError>
        decreases 10 - attempts,
    {
        if attempts >= 10 || self.x + width > usize::MAX {
            Err(DrawError::AllocationError)
        } else {
            let wrapped = if self.x + width >= WIDTH {
                self.wrap(true)
            } else {
                Ok(self)
            };
            match wrapped {
                Err(e) => Err(e),
                Ok(a) => if a.x + width > usize::MAX || a.y + 2 > usize::MAX {
                    Err(DrawError::AllocationError)
                } else {
                    match blocked(a.jump_xs, a.x as int, width as nat) {
                    None => if a.fits(width) {
                        Ok(a)
                    } else {
                        Err(DrawError::OutOfBounds(a.x, a.y))
                    },
                    Some(idx) => match a.canvas.draw_rect(
                        a.x,
                        (a.y + 1) as usize,
                        (idx - a.x + 1) as nat,
                        1,
                        Color::White,
                    ) {
                        Err(e) => Err(e),
                        Ok(c) => (Layout {
                            canvas: c,
                            x: (idx + 1) as usize,
                            last_color: Some(Color::White),
                            ..a
                        }).allocate(width, attempts + 1),
                    },
                    }
                },
            }
        }
    }

    /// The layout after room is found for a drawing and it is stamped there.
    pub open spec fn draw(self, pattern: Stamp) -> Result<Layout, DrawError> {
        match self.allocate(pattern.allocation_width, 0) {
            Ok(a) => a.draw_here(pattern),
            Err(e) => Err(e),
        }
    }

    /// The layout after the cursor is moved to the column `to_x`, to which
    /// the track is led in white if it has a colour: in a new row when the
    /// column lies left of the cursor.
    pub open spec fn advance_to(self, to_x: usize) -> Result<Layout, DrawError> {
        let do_draw = self.last_color.is_some();
        let wrapped = if to_x < self.x {
            self.wrap(do_draw)
        } else {
            Ok(self)
        };
        match wrapped {
            Err(e) => Err(e),
            Ok(a) => if to_x < a.x || a.y + 2 > usize::MAX {
                Err(DrawError::OutOfBounds(to_x, a.y))
            } else if do_draw {
                match a.canvas.draw_rect(
                    a.x,
                    (a.y + 1) as usize,
                    (to_x - a.x) as nat,
                    1,
                    Color::White,
                ) {
                    Ok(c) => Ok(Layout { canvas: c, last_color: Some(Color::White), x: to_x, ..a }),
                    Err(e) => Err(e),
                }
            } else {
                Ok(Layout { x: to_x, ..a })
            },
        }
    }

    /// The layout after a white wire is drawn down the column `x` from the
    /// row `y0` to just above the row `y1`.
    pub open spec fn draw_jump(self, x: usize, y0: usize, y1: usize) -> Result<Layout, DrawError> {
        match self.canvas.draw_rect(x, y0, 1, (y1 - y0) as nat, Color::White) {
            Ok(c) => Ok(Layout { canvas: c, ..self }),
            Err(e) => Err(e),
        }
    }

    /// The layout after the codel for `command` is drawn: room for three
    /// columns is found; where the track has no program colour there, a codel
    /// of the control colour starts it; then comes the codel whose colour
    /// makes the step run `command`.
    pub open spec fn draw_command(self, command: Command) -> Result<Layout, DrawError> {
        match self.allocate(3, 0) {
            Err(e) => Err(e),
            Ok(a) => {
                let area = a.row_area(3);
                let slice = a.canvas.slice(area);
                let seeded = !(a.last_color is Some && a.last_color.unwrap() is Color);
                let base = if seeded {
                    control_color_spec()
                } else {
                    a.last_color.unwrap()
                };
                let x0: usize = if seeded {
                    1
                } else {
                    0
                };
                let first = if seeded {
                    slice.draw(0, 1, control_color_spec())
                } else {
                    Ok(slice)
                };
                let next = base.next_spec(command);
                match then_draw(first, x0, 1, next) {
                    Err(e) => Err(e),
                    Ok(c) => Ok(
                        Layout {
                            canvas: a.canvas.blit(c, area),
                            x: (a.x + x0 + 1) as usize,
                            last_color: Some(next),
                            ..a
                        },
                    ),
                }
            },
        }
    }
}

impl PietCodeBuffer {
    /// The state of the layout as a mathematical value.
    pub open spec fn layout(self) -> Layout {
        Layout {
            canvas: self.canvas(),
            last_color: self.last_color,
            x: self.x,
            y: self.y,
            jump_xs: self.jump_xs@,
        }
    }

    /// Paints a rectangle by an edit of the whole grid.
    pub fn draw_rect_whole(
        &mut self,
        left: usize,
        top: usize,
        width: usize,
        height: usize,
        color: Color,
    ) -> (r: Result<(), DrawError>)
        requires
            old(self).wf(),
            left + width <= usize::MAX,
            top + height <= usize::MAX,
        ensures
            final(self).wf(),
            final(self).same_cursor(*old(self)),
            final(self).width == old(self).width,
            final(self).height == old(self).height,
            reports(
                r,
                old(self).canvas().draw_rect(left, top, width as nat, height as nat, color),
                final(self).canvas(),
            ),
            r is Err ==> final(self).canvas() == old(self).canvas(),
    {
        let mut edit = PietCodeBufferEdit::new(self);
        let r = edit.draw_rect(left, top, width, height, color);
        proof {
            lemma_draw_rect_wf(self.canvas(), left, top, width as nat, height as nat, color);
            if r is Ok {
                lemma_blit_whole(self.canvas(), edit.canvas());
            }
        }
        edit.commit(self);
        r
    }

    /// Draws the gadget that turns the track about by an edit of the whole
    /// grid.
    pub fn draw_newline_whole(&mut self, x: usize, y: usize) -> (r: Result<(), DrawError>)
        requires
            old(self).wf(),
            x < usize::MAX,
            y + ROW_HEIGHT + 2 <= usize::MAX,
        ensures
            final(self).wf(),
            final(self).same_cursor(*old(self)),
            final(self).width == old(self).width,
            final(self).height == old(self).height,
            reports(r, old(self).canvas().draw_newline(x, y), final(self).canvas()),
            r is Err ==> final(self).canvas() == old(self).canvas(),
    {
        let mut edit = PietCodeBufferEdit::new(self);
        let r = edit.draw_newline(x, y);
        proof {
            if r is Ok {
                lemma_blit_whole(self.canvas(), edit.canvas());
            }
        }
        edit.commit(self);
        r
    }

    /// An edit of the `width` columns of the current row from the cursor on;
    /// out of bounds when they do not lie on the grid.
    pub fn allocate_here(&self, width: usize) -> (r: Result<PietCodeBufferEdit, DrawError>)
        requires
            self.wf(),
        ensures
            match r {
                Ok(edit) => {
                    &&& self.layout().fits(width)
                    &&& edit.wf()
                    &&& !edit.poisoned
                    &&& edit.area == self.layout().row_area(width)
                    &&& edit.canvas() == self.canvas().slice(edit.area)
                },
                Err(e) => !self.layout().fits(width) && e == DrawError::OutOfBounds(self.x, self.y),
            },
    {
        if self.x > self.width || width > self.width - self.x || self.y > self.height || ROW_HEIGHT
            > self.height - self.y {
            return Err(DrawError::OutOfBounds(self.x, self.y));
        }
        let area = Rect { x: self.x, y: self.y, width, height: ROW_HEIGHT };
        Ok(PietCodeBufferEdit::new_slice(self, area))
    }

    /// Stamps a drawing at the cursor and moves the cursor past it. Nothing
    /// changes when a codel of it cannot be painted.
    pub fn draw_here(&mut self, pattern: DrawPattern) -> (r: Result<(), DrawError>)
        requires
            old(self).wf(),
            pattern.wf(),
        ensures
            final(self).wf(),
            tells(r, old(self).layout().draw_here(pattern@), final(self).layout()),
            r is Err ==> final(self).layout() == old(self).layout(),
    {
        let mut edit = match self.allocate_here(pattern.allocation_width) {
            Ok(edit) => edit,
            Err(e) => {
                return Err(e);
            },
        };
        match edit.draw_pixels(&pattern.pixels) {
            Ok(_) => {},
            Err(e) => {
                return Err(e);
            },
        }
        edit.commit(self);
        self.last_color = pattern.last_color;
        self.x += pattern.step_x;
        Ok(())
    }
}

/// A blocked column lies among the columns asked about and is reserved.
pub proof fn lemma_blocked_in_range(jump_xs: Set<usize>, x: int, width: nat)
    requires
        0 <= x,
        x + width <= usize::MAX,
    ensures
        match blocked(jump_xs, x, width) {
            Some(idx) => x <= idx < x + width && jump_xs.contains(idx),
            None => forall|c: usize| x <= c < x + width ==> !jump_xs.contains(c),
        },
    decreases width,
{
    if width > 0 && !jump_xs.contains((x + width - 1) as usize) {
        lemma_blocked_in_range(jump_xs, x, (width - 1) as nat);
    }
}

impl PietCodeBuffer {
    /// The rightmost reserved column among the `width` columns from the
    /// cursor on.
    pub fn find_blocked(&self, width: usize) -> (r: Option<usize>)
        requires
            self.x + width <= usize::MAX,
        ensures
            r == blocked(self.jump_xs@, self.x as int, width as nat),
            r.is_some() ==> self.x <= r.unwrap() < self.x + width,
    {
        broadcast use vstd::std_specs::hash::group_hash_axioms;

        proof {
            lemma_blocked_in_range(self.jump_xs@, self.x as int, width as nat);
        }
        let mut w: usize = width;
        while w > 0
            invariant
                w <= width,
                self.x + width <= usize::MAX,
                blocked(self.jump_xs@, self.x as int, width as nat) == blocked(
                    self.jump_xs@,
                    self.x as int,
                    w as nat,
                ),
            decreases w,
        {
            let x = self.x + (w - 1);
            if self.jump_xs.contains(&x) {
                return Some(x);
            }
            w -= 1;
        }
        None
    }

    /// Begins a new row: the grid grows by a row and the cursor goes to the
    /// third column of it. Where `draw` is set, the gadget that turns the
    /// track about is drawn first, and the track is white after it.
    pub fn wrap(&mut self, draw: bool) -> (r: Result<(), DrawError>)
        requires
            old(self).wf(),
        ensures
            final(self).wf(),
            tells(r, old(self).layout().wrap(draw), final(self).layout()),
    {
        let grown = match self.height.checked_add(ROW_HEIGHT) {
            Some(h) => h,
            None => {
                return Err(DrawError::AllocationError);
            },
        };
        if self.width.checked_mul(grown).is_none() {
            return Err(DrawError::AllocationError);
        }
        if self.y > usize::MAX - ROW_HEIGHT - 3 || self.x == usize::MAX {
            return Err(DrawError::AllocationError);
        }
        self.reserve(ROW_HEIGHT);
        if draw {
            let x = self.x;
            let y = self.y;
            match self.draw_newline_whole(x, y + 1) {
                Ok(_) => {},
                Err(e) => {
                    return Err(e);
                },
            }
            self.last_color = Some(Color::White);
        }
        self.x = 2;
        self.y += ROW_HEIGHT;
        Ok(())
    }

    /// Finds room for `width` columns at the cursor and hands out an edit of
    /// them, with the colour that the track has there.
    pub fn allocate(&mut self, width: usize) -> (r: Result<
        (PietCodeBufferEdit, Option<Color>),
        DrawError,
    >)
        requires
            old(self).wf(),
        ensures
            final(self).wf(),
            match r {
                Ok((edit, last_color)) => {
                    &&& old(self).layout().allocate(width, 0) == Ok::<Layout, DrawError>(
                        final(self).layout(),
                    )
                    &&& final(self).layout().fits(width)
                    &&& edit.wf()
                    &&& !edit.poisoned
                    &&& edit.area == final(self).layout().row_area(width)
                    &&& edit.canvas() == final(self).canvas().slice(edit.area)
                    &&& last_color == final(self).last_color
                },
                Err(e) => old(self).layout().allocate(width, 0) == Err::<Layout, DrawError>(e),
            },
    {
        let mut attempts: usize = 0;
        loop
            invariant
                self.wf(),
                attempts <= 10,
                old(self).layout().allocate(width, 0) == self.layout().allocate(
                    width,
                    attempts as nat,
                ),
            decreases 10 - attempts,
        {
            if attempts >= 10 {
                return Err(DrawError::AllocationError);
            }
            let end = match self.x.checked_add(width) {
                Some(end) => end,
                None => {
                    return Err(DrawError::AllocationError);
                },
            };
            let ghost before = self.layout();
            if end >= WIDTH {
                match self.wrap(true) {
                    Ok(_) => {},
                    Err(e) => {
                        return Err(e);
                    },
                }
            }
            if self.x.checked_add(width).is_none() || self.y > usize::MAX - 2 {
                return Err(DrawError::AllocationError);
            }
            match self.find_blocked(width) {
                None => {
                    return match self.allocate_here(width) {
                        Ok(edit) => Ok((edit, self.last_color)),
                        Err(e) => Err(e),
                    };
                },
                Some(idx) => {
                    let x = self.x;
                    let y = self.y;
                    match self.draw_rect_whole(x, y + 1, idx - x + 1, 1, Color::White) {
                        Ok(_) => {},
                        Err(e) => {
                            return Err(e);
                        },
                    }
                    self.x = idx + 1;
                    self.last_color = Some(Color::White);
                    attempts += 1;
                },
            }
        }
    }

    /// Finds room for a drawing, stamps it there and moves the cursor past
    /// it.
    pub fn draw(&mut self, pattern: DrawPattern) -> (r: Result<(), DrawError>)
        requires
            old(self).wf(),
            pattern.wf(),
        ensures
            final(self).wf(),
            tells(r, old(self).layout().draw(pattern@), final(self).layout()),
    {
        let (mut edit, _) = match self.allocate(pattern.allocation_width) {
            Ok(v) => v,
            Err(e) => {
                return Err(e);
            },
        };
        match edit.draw_pixels(&pattern.pixels) {
            Ok(_) => {},
            Err(e) => {
                return Err(e);
            },
        }
        edit.commit(self);
        self.last_color = pattern.last_color;
        self.x += pattern.step_x;
        Ok(())
    }

    /// Moves the cursor to the column `to_x`, in a new row when the column
    /// lies left of the cursor, and leads the track there in white if it has
    /// a colour.
    pub fn advance_to(&mut self, to_x: usize) -> (r: Result<(), DrawError>)
        requires
            old(self).wf(),
        ensures
            final(self).wf(),
            tells(r, old(self).layout().advance_to(to_x), final(self).layout()),
    {
        let do_draw = self.last_color.is_some();
        if to_x < self.x {
            match self.wrap(do_draw) {
                Ok(_) => {},
                Err(e) => {
                    return Err(e);
                },
            }
        }
        if to_x < self.x || self.y > usize::MAX - 2 {
            return Err(DrawError::OutOfBounds(to_x, self.y));
        }
        let x = self.x;
        let y = self.y;
        let dist = to_x - x;
        if do_draw {
            match self.draw_rect_whole(x, y + 1, dist, 1, Color::White) {
                Ok(_) => {},
                Err(e) => {
                    return Err(e);
                },
            }
            self.last_color = Some(Color::White);
        }
        self.x += dist;
        Ok(())
    }

    /// Draws a white wire down the column `x` from the row `y0` to just above
    /// the row `y1`, which must lie below.
    pub fn draw_jump(&mut self, x: usize, y0: usize, y1: usize) -> (r: Result<(), DrawError>)
        requires
            old(self).wf(),
            y0 < y1,
            x < usize::MAX,
        ensures
            final(self).wf(),
            tells(r, old(self).layout().draw_jump(x, y0, y1), final(self).layout()),
            r is Err ==> final(self).layout() == old(self).layout(),
    {
        self.draw_rect_whole(x, y0, 1, y1 - y0, Color::White)
    }

    /// Draws the codel for `command` where there is room for it, after a
    /// codel of the control colour where the track has no program colour.
    pub fn draw_command(&mut self, cmd: Command) -> (r: Result<(), DrawError>)
        requires
            old(self).wf(),
        ensures
            final(self).wf(),
            tells(r, old(self).layout().draw_command(cmd), final(self).layout()),
    {
        let mut x: usize = 0;
        let (mut edit, last_color) = match self.allocate(3) {
            Ok(v) => v,
            Err(e) => {
                return Err(e);
            },
        };
        let color = match last_color {
            Some(Color::Color(h, l)) => Color::Color(h, l),
            _ => {
                match edit.draw_pixel(0, 1, control_color()) {
                    Ok(_) => {},
                    Err(e) => {
                        return Err(e);
                    },
                }
                x += 1;
                control_color()
            },
        };
        let color = color.next_for_command(cmd);
        match edit.draw_pixel(x, 1, color) {
            Ok(_) => {},
            Err(e) => {
                return Err(e);
            },
        }
        edit.commit(self);
        self.x += x + 1;
        self.last_color = Some(color);
        Ok(())
    }
}

/// The picture of the gadget on which a label lands.
pub open spec fn label_picture() -> Seq<u8> {
    "  #\n>...>\n #..\n   #\n".spec_bytes()
}

/// The picture of the gadget that leads a jump into the wire of its label.
pub open spec fn jump_picture() -> Seq<u8> {
    "  .\n>...#\n #..\n   #\n".spec_bytes()
}

/// The picture of the gadget that leads a conditional jump into the wire of
/// its label, or past it.
pub open spec fn branch_picture() -> Seq<u8> {
    "  .\n>..ab>\n #...\n    #\n".spec_bytes()
}

/// The picture of the gadget that joins a conditional jump to the wire of an
/// earlier one to the same label.
pub open spec fn join_picture() -> Seq<u8> {
    "   .\n>.abb>\n   b\n".spec_bytes()
}

/// The picture of the gadget that ends the program.
pub open spec fn stop_picture() -> Seq<u8> {
    "   #\n>..a#\n #aa#\n  ##\n".spec_bytes()
}

/// The drawing that a picture describes, if it can be drawn.
pub open spec fn picture_stamp(picture: Seq<u8>, colors: Seq<Color>) -> Option<Stamp> {
    if scan_draws(scan(picture, colors, picture.len())) {
        Some(stamp_of(scan(picture, colors, picture.len())))
    } else {
        None
    }
}

/// The colours of the two codels that make a conditional jump: the control
/// colour, and the colour that makes the step between them turn the pointer.
pub open spec fn branch_colors() -> Seq<Color> {
    seq![control_color_spec(), control_color_spec().next_spec(Command::Pointer)]
}

/// How far a program has been laid out: the layout, where each label landed,
/// where the wire of each label begins that was jumped to before it was
/// seen, and how many uses of each label are still to come.
pub struct Progress {
    pub layout: Layout,
    pub labels: Map<LabelId, (usize, usize)>,
    pub unmatched: Map<LabelId, (usize, usize)>,
    pub counts: Seq<usize>,
}

/// What follows a layout step that may have failed: stamping a drawing at
/// the cursor. There is no room when the drawing is none that can be drawn.
pub open spec fn and_then_draw(r: Result<Layout, DrawError>, pattern: Option<Stamp>) -> Result<
    Layout,
    DrawError,
> {
    match (r, pattern) {
        (Err(e), _) => Err(e),
        (Ok(_), None) => Err(DrawError::AllocationError),
        (Ok(a), Some(p)) => a.draw_here(p),
    }
}

impl Progress {
    /// One use of `label` less to come. When none was to come, the column
    /// `behind` columns left of the cursor is reserved no longer.
    pub open spec fn count_down(self, label: LabelId, behind: usize) -> Result<
        Progress,
        DrawError,
    > {
        if label >= self.counts.len() {
            Err(DrawError::AllocationError)
        } else if self.counts[label as int] >= 1 {
            Ok(
                Progress {
                    counts: self.counts.update(
                        label as int,
                        (self.counts[label as int] - 1) as usize,
                    ),
                    ..self
                },
            )
        } else if self.layout.x < behind {
            Err(DrawError::AllocationError)
        } else {
            Ok(
                Progress {
                    layout: Layout {
                        jump_xs: self.layout.jump_xs.remove((self.layout.x - behind) as usize),
                        ..self.layout
                    },
                    ..self
                },
            )
        }
    }

    /// The progress with another layout.
    pub open spec fn with_layout(self, r: Result<Layout, DrawError>) -> Result<Progress, DrawError> {
        match r {
            Ok(layout) => Ok(Progress { layout, ..self }),
            Err(e) => Err(e),
        }
    }

    /// After a command that the machine runs by itself: its codel is drawn.
    pub open spec fn emit_command(self, command: Command) -> Result<Progress, DrawError> {
        self.with_layout(self.layout.draw_command(command))
    }

    /// After a stop: the gadget that ends the program is drawn.
    pub open spec fn emit_stop(self) -> Result<Progress, DrawError> {
        match picture_stamp(stop_picture(), seq![control_color_spec()]) {
            Some(p) => self.with_layout(self.layout.draw(p)),
            None => Err(DrawError::AllocationError),
        }
    }

    /// After a push of `n`, which must be positive: room is found for a
    /// block of `n` codels of the control colour, five high, with what does
    /// not fill a column in a column of its own and one codel more on the
    /// track; after a white codel where the track had a colour, and before
    /// the codel whose colour makes the step a push.
    pub open spec fn emit_push(self, n: int) -> Result<Progress, DrawError> {
        let width = ((n - 1) / (ROW_FILL_HEIGHT as int)) as usize;
        let extra = ((n - 1) % (ROW_FILL_HEIGHT as int)) as usize;
        let has_color = self.layout.last_color.is_some();
        if width + 5 > usize::MAX {
            Err(DrawError::AllocationError)
        } else {
            match self.layout.allocate((width + 5) as usize, 0) {
                Err(e) => Err(e),
                Ok(a) => {
                    let area = a.row_area((width + 5) as usize);
                    let slice = a.canvas.slice(area);
                    let x0: usize = if has_color {
                        1
                    } else {
                        0
                    };
                    let r0 = if has_color {
                        slice.draw(0, 1, Color::White)
                    } else {
                        Ok(slice)
                    };
                    let r1 = then_rect(
                        r0,
                        x0,
                        1,
                        width as nat,
                        ROW_FILL_HEIGHT as nat,
                        control_color_spec(),
                    );
                    let x1 = (x0 + width) as usize;
                    let r2 = if extra > 0 {
                        then_rect(r1, x1, 1, 1, extra as nat, control_color_spec())
                    } else {
                        r1
                    };
                    let x2 = if extra > 0 {
                        (x1 + 1) as usize
                    } else {
                        x1
                    };
                    let r3 = then_draw(r2, x2, 1, control_color_spec());
                    let color = control_color_spec().next_spec(Command::Push);
                    match then_draw(r3, (x2 + 1) as usize, 1, color) {
                        Err(e) => Err(e),
                        Ok(c) => Ok(
                            Progress {
                                layout: Layout {
                                    canvas: a.canvas.blit(c, area),
                                    x: (a.x + x2 + 2) as usize,
                                    last_color: Some(color),
                                    ..a
                                },
                                ..self
                            },
                        ),
                    }
                },
            }
        }
    }
}

/// The code generator at work: the grid, and what it knows of the labels.
pub struct Generator {
    pub buffer: PietCodeBuffer,
    pub labels: HashMap<LabelId, (usize, usize)>,
    pub unmatched_jumps: HashMap<LabelId, (usize, usize)>,
    pub jump_counts: Vec<usize>,
}

/// Whether `r` reports what the step `want` of the generator comes to: on
/// success the progress `now`, on failure the error.
pub open spec fn shows(r: Result<(), DrawError>, want: Result<Progress, DrawError>, now: Progress) -> bool {
    match r {
        Ok(_) => want == Ok::<Progress, DrawError>(now),
        Err(e) => want == Err::<Progress, DrawError>(e),
    }
}

impl View for Generator {
    type V = Progress;

    open spec fn view(&self) -> Progress {
        Progress {
            layout: self.buffer.layout(),
            labels: self.labels@,
            unmatched: self.unmatched_jumps@,
            counts: self.jump_counts@,
        }
    }
}

impl Generator {
    /// The grid holds one codel for each coordinate.
    pub open spec fn wf(self) -> bool {
        self.buffer.wf()
    }

    /// Counts one use of `label` less to come, and releases the column
    /// `behind` columns left of the cursor when none was to come.
    pub fn count_down(&mut self, label: LabelId, behind: usize) -> (r: Result<(), DrawError>)
        requires
            old(self).wf(),
        ensures
            final(self).wf(),
            shows(r, old(self)@.count_down(label, behind), final(self)@),
    {
        broadcast use vstd::std_specs::hash::group_hash_axioms;

        if label >= self.jump_counts.len() {
            return Err(DrawError::AllocationError);
        }
        let count = self.jump_counts[label];
        if count >= 1 {
            self.jump_counts.set(label, count - 1);
        } else {
            if self.buffer.x < behind {
                return Err(DrawError::AllocationError);
            }
            let x = self.buffer.x - behind;
            self.buffer.jump_xs.remove(&x);
        }
        Ok(())
    }

    /// Draws the codel of a command that the machine runs by itself.
    pub fn emit_command(&mut self, command: Command) -> (r: Result<(), DrawError>)
        requires
            old(self).wf(),
        ensures
            final(self).wf(),
            shows(r, old(self)@.emit_command(command), final(self)@),
    {
        self.buffer.draw_command(command)
    }

    /// Draws the gadget that ends the program.
    pub fn emit_stop(&mut self) -> (r: Result<(), DrawError>)
        requires
            old(self).wf(),
        ensures
            final(self).wf(),
            shows(r, old(self)@.emit_stop(), final(self)@),
    {
        let mut colors: Vec<Color> = Vec::new();
        colors.push(control_color());
        assert(colors@ =~= seq![control_color_spec()]);
        match DrawPattern::generate("   #\n>..a#\n #aa#\n  ##\n".as_bytes(), colors) {
            Some(pattern) => self.buffer.draw(pattern),
            None => Err(DrawError::AllocationError),
        }
    }

    /// Draws the block of codels that pushes `num`, which must be positive.
    pub fn emit_push(&mut self, num: usize) -> (r: Result<(), DrawError>)
        requires
            old(self).wf(),
            num >= 1,
        ensures
            final(self).wf(),
            shows(r, old(self)@.emit_push(num as int), final(self)@),
    {
        let sans_dangle = num - 1;
        let width = sans_dangle / ROW_FILL_HEIGHT;
        let extra = sans_dangle % ROW_FILL_HEIGHT;
        let has_color = self.buffer.last_color.is_some();
        if width > usize::MAX - 5 {
            return Err(DrawError::AllocationError);
        }
        let (mut edit, _) = match self.buffer.allocate(width + 5) {
            Ok(v) => v,
            Err(e) => {
                return Err(e);
            },
        };
        let mut x: usize = 0;
        if has_color {
            match edit.draw_pixel(0, 1, Color::White) {
                Ok(_) => {},
                Err(e) => {
                    return Err(e);
                },
            }
            x = 1;
        }
        match edit.draw_rect(x, 1, width, ROW_FILL_HEIGHT, control_color()) {
            Ok(_) => {},
            Err(e) => {
                return Err(e);
            },
        }
        x += width;
        if extra > 0 {
            match edit.draw_rect(x, 1, 1, extra, control_color()) {
                Ok(_) => {},
                Err(e) => {
                    return Err(e);
                },
            }
            x += 1;
        }
        match edit.draw_pixel(x, 1, control_color()) {
            Ok(_) => {},
            Err(e) => {
                return Err(e);
            },
        }
        let color = control_color().next_for_command(Command::Push);
        match edit.draw_pixel(x + 1, 1, color) {
            Ok(_) => {},
            Err(e) => {
                return Err(e);
            },
        }
        edit.commit(&mut self.buffer);
        self.buffer.x += x + 2;
        self.buffer.last_color = Some(color);
        Ok(())
    }
}

impl Layout {
    /// The layout after room for `width` columns is found and the track is
    /// given the colour for `command` there: after a codel of the control
    /// colour where it had no program colour, a codel in the colour that
    /// makes the step run `command`, one more below it, and one more to its
    /// right; the cursor comes to stand on the last. Also gives the column of
    /// the first of the three.
    pub open spec fn draw_branch(self, command: Command) -> Result<(Layout, usize), DrawError> {
        match self.allocate(4, 0) {
            Err(e) => Err(e),
            Ok(a) => {
                let area = a.row_area(4);
                let slice = a.canvas.slice(area);
                let seeded = !(a.last_color is Some && a.last_color.unwrap() is Color);
                let base = if seeded {
                    control_color_spec()
                } else {
                    a.last_color.unwrap()
                };
                let x0: usize = if seeded {
                    1
                } else {
                    0
                };
                let first = if seeded {
                    slice.draw(0, 1, control_color_spec())
                } else {
                    Ok(slice)
                };
                let color = base.next_spec(command);
                let r = then_draw(first, x0, 1, color);
                let r = then_draw(r, x0, 2, color);
                match then_draw(r, (x0 + 1) as usize, 1, color) {
                    Err(e) => Err(e),
                    Ok(c) => Ok(
                        (
                            Layout {
                                canvas: a.canvas.blit(c, area),
                                x: (a.x + x0 + 2) as usize,
                                last_color: Some(color),
                                jump_xs: a.jump_xs.insert((a.x + x0) as usize),
                                ..a
                            },
                            (a.x + x0) as usize,
                        ),
                    ),
                }
            },
        }
    }

    /// The layout after the cursor is moved to the column `to_x`, a gadget is
    /// stamped there, and a wire is drawn down the column `dest` from the row
    /// `y0` to the track. There is no room when the wire would not go down.
    pub open spec fn land(self, to_x: usize, pattern: Option<Stamp>, dest: usize, y0: usize) -> Result<
        Layout,
        DrawError,
    > {
        match and_then_draw(self.advance_to(to_x), pattern) {
            Err(e) => Err(e),
            Ok(b) => if y0 >= b.y + 1 || dest >= usize::MAX {
                Err(DrawError::AllocationError)
            } else {
                b.draw_jump(dest, y0, (b.y + 1) as usize)
            },
        }
    }
}

impl Progress {
    /// After a label. Where a jump to it came before, the cursor goes two
    /// columns left of the wire of that jump, the landing gadget is stamped
    /// there and the wire drawn down to it; else the gadget is drawn where
    /// there is room. The column of the wire is reserved, and the place noted
    /// for the jumps to come.
    pub open spec fn emit_label(self, label: LabelId) -> Result<Progress, DrawError> {
        let pattern = picture_stamp(label_picture(), Seq::<Color>::empty());
        if self.unmatched.contains_key(label) {
            let (dest, y0) = self.unmatched[label];
            if dest < 2 || y0 + 2 > usize::MAX {
                Err(DrawError::AllocationError)
            } else {
                match self.layout.land((dest - 2) as usize, pattern, dest, (y0 + 2) as usize) {
                    Err(e) => Err(e),
                    Ok(c) => if c.x < 2 {
                        Err(DrawError::AllocationError)
                    } else {
                        (Progress {
                            layout: Layout {
                                jump_xs: c.jump_xs.remove((c.x - 1) as usize).insert(
                                    (c.x - 2) as usize,
                                ),
                                ..c
                            },
                            labels: self.labels.insert(
                                label,
                                ((dest - 1) as usize, (c.y + 1) as usize),
                            ),
                            ..self
                        }).count_down(label, 2)
                    },
                }
            }
        } else {
            match pattern {
                None => Err(DrawError::AllocationError),
                Some(p) => match self.layout.draw(p) {
                    Err(e) => Err(e),
                    Ok(b) => if b.x < 2 {
                        Err(DrawError::AllocationError)
                    } else {
                        (Progress {
                            layout: Layout {
                                jump_xs: b.jump_xs.insert((b.x - 2) as usize),
                                ..b
                            },
                            labels: self.labels.insert(
                                label,
                                ((b.x - 2) as usize, (b.y + 1) as usize),
                            ),
                            ..self
                        }).count_down(label, 2)
                    },
                },
            }
        }
    }

    /// After a jump. The label must have come before: the cursor goes one
    /// column left of its wire, the gadget that leads into the wire is
    /// stamped there, and the wire is drawn down to it.
    pub open spec fn emit_jump(self, label: LabelId) -> Result<Progress, DrawError> {
        if !self.labels.contains_key(label) {
            Err(DrawError::Todo)
        } else {
            let (dest, y0) = self.labels[label];
            if dest < 1 {
                Err(DrawError::AllocationError)
            } else {
                match self.layout.land(
                    (dest - 1) as usize,
                    picture_stamp(jump_picture(), Seq::<Color>::empty()),
                    dest,
                    y0,
                ) {
                    Err(e) => Err(e),
                    Ok(c) => (Progress { layout: c, ..self }).count_down(label, 3),
                }
            }
        }
    }

    /// After a conditional jump. Where the label came before, the track is
    /// led into its wire as for a jump, by a gadget that turns the pointer.
    /// Where a conditional jump to the label came before, the track is
    /// joined to the wire of that jump. Else the jump is the first to its
    /// label: the track is given the colour that turns the pointer, and the
    /// column below reserved for the wire.
    pub open spec fn emit_jump_if(self, label: LabelId) -> Result<Progress, DrawError> {
        if self.labels.contains_key(label) {
            self.branch_to_label(label, self.labels[label].0, self.labels[label].1)
        } else if self.unmatched.contains_key(label) {
            self.branch_join(label, self.unmatched[label].0, self.unmatched[label].1)
        } else {
            self.branch_first(label)
        }
    }

    /// After a conditional jump to a label that landed at the column `dest`,
    /// row `y0`.
    pub open spec fn branch_to_label(self, label: LabelId, dest: usize, y0: usize) -> Result<
        Progress,
        DrawError,
    > {
        if dest < 1 {
            Err(DrawError::AllocationError)
        } else {
            match self.layout.land(
                (dest - 1) as usize,
                picture_stamp(branch_picture(), branch_colors()),
                dest,
                y0,
            ) {
                Err(e) => Err(e),
                Ok(c) => (Progress { layout: c, ..self }).count_down(label, 3),
            }
        }
    }

    /// After a conditional jump to a label to which an earlier one left a
    /// wire at the column `dest` from the row `y0`.
    pub open spec fn branch_join(self, label: LabelId, dest: usize, y0: usize) -> Result<
        Progress,
        DrawError,
    > {
        if dest < 2 || y0 + 2 > usize::MAX {
            Err(DrawError::AllocationError)
        } else {
            match self.layout.land(
                (dest - 2) as usize,
                picture_stamp(join_picture(), branch_colors()),
                dest,
                (y0 + 2) as usize,
            ) {
                Err(e) => Err(e),
                Ok(c) => (Progress {
                    layout: c,
                    unmatched: self.unmatched.insert(label, (dest, (c.y + 1) as usize)),
                    ..self
                }).count_down(label, 3),
            }
        }
    }

    /// After a conditional jump that is the first to its label.
    pub open spec fn branch_first(self, label: LabelId) -> Result<Progress, DrawError> {
        match self.layout.draw_branch(Command::Pointer) {
            Err(e) => Err(e),
            Ok((c, column)) => (Progress {
                layout: c,
                unmatched: self.unmatched.insert(label, (column, (c.y + 1) as usize)),
                ..self
            }).count_down(label, 3),
        }
    }
}

impl PietCodeBuffer {
    /// Moves the cursor to the column `to_x`, stamps a gadget there, and
    /// draws a wire down the column `dest` from the row `y0` to the track.
    pub fn land(&mut self, to_x: usize, pattern: Option<DrawPattern>, dest: usize, y0: usize) -> (r:
        Result<(), DrawError>)
        requires
            old(self).wf(),
            pattern.is_some() ==> pattern.unwrap().wf(),
        ensures
            final(self).wf(),
            tells(
                r,
                old(self).layout().land(
                    to_x,
                    match pattern {
                        Some(p) => Some(p@),
                        None => None,
                    },
                    dest,
                    y0,
                ),
                final(self).layout(),
            ),
    {
        match self.advance_to(to_x) {
            Ok(_) => {},
            Err(e) => {
                return Err(e);
            },
        }
        let pattern = match pattern {
            Some(p) => p,
            None => {
                return Err(DrawError::AllocationError);
            },
        };
        match self.draw_here(pattern) {
            Ok(_) => {},
            Err(e) => {
                return Err(e);
            },
        }
        if y0 > self.y || dest == usize::MAX {
            return Err(DrawError::AllocationError);
        }
        let y1 = self.y + 1;
        self.draw_jump(dest, y0, y1)
    }

    /// Finds room for four columns and gives the track the colour for
    /// `command` there, in three codels; reserves the column of the first of
    /// them and returns it.
    pub fn draw_branch(&mut self, command: Command) -> (r: Result<usize, DrawError>)
        requires
            old(self).wf(),
        ensures
            final(self).wf(),
            r is Ok ==> final(self).y + ROW_HEIGHT <= final(self).height,
            match r {
                Ok(column) => old(self).layout().draw_branch(command) == Ok::<
                    (Layout, usize),
                    DrawError,
                >((final(self).layout(), column)),
                Err(e) => old(self).layout().draw_branch(command) == Err::<
                    (Layout, usize),
                    DrawError,
                >(e),
            },
    {
        broadcast use vstd::std_specs::hash::group_hash_axioms;

        let mut x: usize = 0;
        let (mut edit, last_color) = match self.allocate(4) {
            Ok(v) => v,
            Err(e) => {
                return Err(e);
            },
        };
        let color = match last_color {
            Some(Color::Color(h, l)) => Color::Color(h, l),
            _ => {
                match edit.draw_pixel(0, 1, control_color()) {
                    Ok(_) => {},
                    Err(e) => {
                        return Err(e);
                    },
                }
                x += 1;
                control_color()
            },
        };
        let color = color.next_for_command(command);
        match edit.draw_pixel(x, 1, color) {
            Ok(_) => {},
            Err(e) => {
                return Err(e);
            },
        }
        match edit.draw_pixel(x, 2, color) {
            Ok(_) => {},
            Err(e) => {
                return Err(e);
            },
        }
        match edit.draw_pixel(x + 1, 1, color) {
            Ok(_) => {},
            Err(e) => {
                return Err(e);
            },
        }
        edit.commit(self);
        let column = self.x + x;
        self.jump_xs.insert(column);
        self.x += x + 2;
        self.last_color = Some(color);
        Ok(column)
    }
}

/// The place noted for `label` in `places`, if any.
fn place_of(places: &HashMap<LabelId, (usize, usize)>, label: LabelId) -> (r: Option<(usize, usize)>)
    ensures
        r.is_some() == places@.contains_key(label),
        r.is_some() ==> r.unwrap() == places@[label],
{
    broadcast use vstd::std_specs::hash::group_hash_axioms;

    match places.get(&label) {
        Some(place) => Some(*place),
        None => None,
    }
}

impl Generator {
    /// Draws the landing of a label, and the wire to it where a jump came
    /// before.
    pub fn emit_label(&mut self, label: LabelId) -> (r: Result<(), DrawError>)
        requires
            old(self).wf(),
        ensures
            final(self).wf(),
            shows(r, old(self)@.emit_label(label), final(self)@),
    {
        broadcast use vstd::std_specs::hash::group_hash_axioms;

        let pattern = DrawPattern::generate("  #\n>...>\n #..\n   #\n".as_bytes(), Vec::new());
        match place_of(&self.unmatched_jumps, label) {
            Some((dest, y0)) => {
                if dest < 2 || y0 > usize::MAX - 2 {
                    return Err(DrawError::AllocationError);
                }
                match self.buffer.land(dest - 2, pattern, dest, y0 + 2) {
                    Ok(_) => {},
                    Err(e) => {
                        return Err(e);
                    },
                }
                if self.buffer.x < 2 {
                    return Err(DrawError::AllocationError);
                }
                let x = self.buffer.x;
                self.buffer.jump_xs.remove(&(x - 1));
                self.buffer.jump_xs.insert(x - 2);
                self.labels.insert(label, (dest - 1, self.buffer.y + 1));
            },
            None => {
                let pattern = match pattern {
                    Some(p) => p,
                    None => {
                        return Err(DrawError::AllocationError);
                    },
                };
                match self.buffer.draw(pattern) {
                    Ok(_) => {},
                    Err(e) => {
                        return Err(e);
                    },
                }
                if self.buffer.x < 2 {
                    return Err(DrawError::AllocationError);
                }
                let x = self.buffer.x;
                self.labels.insert(label, (x - 2, self.buffer.y + 1));
                self.buffer.jump_xs.insert(x - 2);
            },
        }
        self.count_down(label, 2)
    }

    /// Draws a jump to a label that came before; one to a label that comes
    /// later cannot be drawn.
    pub fn emit_jump(&mut self, label: LabelId) -> (r: Result<(), DrawError>)
        requires
            old(self).wf(),
        ensures
            final(self).wf(),
            shows(r, old(self)@.emit_jump(label), final(self)@),
    {
        match place_of(&self.labels, label) {
            Some((dest, y0)) => {
                if dest < 1 {
                    return Err(DrawError::AllocationError);
                }
                let pattern = DrawPattern::generate(
                    "  .\n>...#\n #..\n   #\n".as_bytes(),
                    Vec::new(),
                );
                match self.buffer.land(dest - 1, pattern, dest, y0) {
                    Ok(_) => {},
                    Err(e) => {
                        return Err(e);
                    },
                }
            },
            None => {
                return Err(DrawError::Todo);
            },
        }
        self.count_down(label, 3)
    }

    /// The colours of the two codels that make a conditional jump.
    fn branch_colors() -> (r: Vec<Color>)
        ensures
            r@ == branch_colors(),
    {
        let a = control_color();
        let b = a.next_for_command(Command::Pointer);
        let mut colors: Vec<Color> = Vec::new();
        colors.push(a);
        colors.push(b);
        assert(colors@ =~= branch_colors());
        colors
    }

    /// Draws a conditional jump into the wire of its label.
    fn branch_to_label(&mut self, label: LabelId, dest: usize, y0: usize) -> (r: Result<
        (),
        DrawError,
    >)
        requires
            old(self).wf(),
        ensures
            final(self).wf(),
            shows(r, old(self)@.branch_to_label(label, dest, y0), final(self)@),
    {
        if dest < 1 {
            return Err(DrawError::AllocationError);
        }
        let pattern = DrawPattern::generate(
            "  .\n>..ab>\n #...\n    #\n".as_bytes(),
            Generator::branch_colors(),
        );
        match self.buffer.land(dest - 1, pattern, dest, y0) {
            Ok(_) => {},
            Err(e) => {
                return Err(e);
            },
        }
        self.count_down(label, 3)
    }

    /// Draws a conditional jump joined to the wire of an earlier one.
    fn branch_join(&mut self, label: LabelId, dest: usize, y0: usize) -> (r: Result<(), DrawError>)
        requires
            old(self).wf(),
        ensures
            final(self).wf(),
            shows(r, old(self)@.branch_join(label, dest, y0), final(self)@),
    {
        broadcast use vstd::std_specs::hash::group_hash_axioms;

        if dest < 2 || y0 > usize::MAX - 2 {
            return Err(DrawError::AllocationError);
        }
        let pattern = DrawPattern::generate(
            "   .\n>.abb>\n   b\n".as_bytes(),
            Generator::branch_colors(),
        );
        match self.buffer.land(dest - 2, pattern, dest, y0 + 2) {
            Ok(_) => {},
            Err(e) => {
                return Err(e);
            },
        }
        self.unmatched_jumps.insert(label, (dest, self.buffer.y + 1));
        self.count_down(label, 3)
    }

    /// Draws a conditional jump that is the first to its label.
    fn branch_first(&mut self, label: LabelId) -> (r: Result<(), DrawError>)
        requires
            old(self).wf(),
        ensures
            final(self).wf(),
            shows(r, old(self)@.branch_first(label), final(self)@),
    {
        broadcast use vstd::std_specs::hash::group_hash_axioms;

        let column = match self.buffer.draw_branch(Command::Pointer) {
            Ok(column) => column,
            Err(e) => {
                return Err(e);
            },
        };
        self.unmatched_jumps.insert(label, (column, self.buffer.y + 1));
        self.count_down(label, 3)
    }

    /// Draws a conditional jump: into the wire of its label where that came
    /// before, joined to an earlier jump to the same label where one came
    /// before, and else as the first of its label.
    pub fn emit_jump_if(&mut self, label: LabelId) -> (r: Result<(), DrawError>)
        requires
            old(self).wf(),
        ensures
            final(self).wf(),
            shows(r, old(self)@.emit_jump_if(label), final(self)@),
    {
        if let Some((dest, y0)) = place_of(&self.labels, label) {
            self.branch_to_label(label, dest, y0)
        } else if let Some((dest, y0)) = place_of(&self.unmatched_jumps, label) {
            self.branch_join(label, dest, y0)
        } else {
            self.branch_first(label)
        }
    }
}

/// The command of the machine that a command of the assembly language is run
/// by, where it is run by one.
pub open spec fn command_of(c: Instr) -> Option<Command> {
    match c {
        Instr::Push(_) => Some(Command::Push),
        Instr::Pop => Some(Command::Pop),
        Instr::Add => Some(Command::Add),
        Instr::Subtract => Some(Command::Subtract),
        Instr::Multiply => Some(Command::Multiply),
        Instr::Divide => Some(Command::Divide),
        Instr::Mod => Some(Command::Mod),
        Instr::Not => Some(Command::Not),
        Instr::Greater => Some(Command::Greater),
        Instr::Duplicate => Some(Command::Duplicate),
        Instr::Roll => Some(Command::Roll),
        Instr::InNum => Some(Command::InNum),
        Instr::InChar => Some(Command::InChar),
        Instr::OutNum => Some(Command::OutNum),
        Instr::OutChar => Some(Command::OutChar),
        _ => None,
    }
}

impl AsmCommand {
    /// The command of the machine that this command is run by; `None` for a
    /// label, a jump and a stop.
    pub fn to_command(&self) -> (r: Option<Command>)
        ensures
            r == command_of(self@),
    {
        match self {
            AsmCommand::Push(_) => Some(Command::Push),
            AsmCommand::Pop => Some(Command::Pop),
            AsmCommand::Add => Some(Command::Add),
            AsmCommand::Subtract => Some(Command::Subtract),
            AsmCommand::Multiply => Some(Command::Multiply),
            AsmCommand::Divide => Some(Command::Divide),
            AsmCommand::Mod => Some(Command::Mod),
            AsmCommand::Not => Some(Command::Not),
            AsmCommand::Greater => Some(Command::Greater),
            AsmCommand::Duplicate => Some(Command::Duplicate),
            AsmCommand::Roll => Some(Command::Roll),
            AsmCommand::InNum => Some(Command::InNum),
            AsmCommand::InChar => Some(Command::InChar),
            AsmCommand::OutNum => Some(Command::OutNum),
            AsmCommand::OutChar => Some(Command::OutChar),
            _ => None,
        }
    }
}

impl Progress {
    /// After one more command is laid out.
    #[verifier::opaque]
    pub open spec fn emit(self, c: Instr) -> Result<Progress, DrawError> {
        match c {
            Instr::Label(label) => self.emit_label(label),
            Instr::Jump(label) => self.emit_jump(label),
            Instr::JumpIf(label) => self.emit_jump_if(label),
            Instr::Push(n) => self.emit_push(n),
            Instr::Stop => self.emit_stop(),
            _ => self.emit_command(command_of(c).unwrap()),
        }
    }

    /// After the first `n` commands of `s` are laid out, one after the
    /// other, or why the first that fails cannot be.
    pub open spec fn emit_all(self, s: Seq<Instr>, n: nat) -> Result<Progress, DrawError>
        decreases n,
    {
        if n == 0 {
            Ok(self)
        } else {
            match self.emit_all(s, (n - 1) as nat) {
                Ok(p) => p.emit(s[n - 1]),
                Err(e) => Err(e),
            }
        }
    }

    /// Where the generator starts: an unpainted canvas one row high, with
    /// the three codels of the control colour in its top left corner from
    /// which the track sets out, and the cursor past them.
    pub open spec fn start(counts: Seq<usize>) -> Result<Progress, DrawError> {
        let blank = Layout {
            canvas: Canvas {
                width: WIDTH as int,
                height: ROW_HEIGHT as int,
                cells: Seq::new((WIDTH * ROW_HEIGHT) as nat, |i: int| Color::Other),
            },
            last_color: None,
            x: 0,
            y: 0,
            jump_xs: Set::empty(),
        };
        match blank.allocate(3, 0) {
            Err(e) => Err(e),
            Ok(a) => {
                let area = a.row_area(3);
                let r = a.canvas.slice(area).draw(0, 0, control_color_spec());
                let r = then_draw(r, 0, 1, control_color_spec());
                match then_draw(r, 1, 1, control_color_spec()) {
                    Err(e) => Err(e),
                    Ok(c) => Ok(
                        Progress {
                            layout: Layout {
                                canvas: a.canvas.blit(c, area),
                                x: (a.x + 2) as usize,
                                last_color: Some(control_color_spec()),
                                ..a
                            },
                            labels: Map::empty(),
                            unmatched: Map::empty(),
                            counts,
                        },
                    ),
                }
            },
        }
    }
}

/// The canvas that a program is laid out as, or why it cannot be.
pub open spec fn generated(s: Seq<Instr>, counts: Seq<usize>) -> Result<Canvas, DrawError> {
    match Progress::start(counts) {
        Err(e) => Err(e),
        Ok(p) => match p.emit_all(s, s.len()) {
            Err(e) => Err(e),
            Ok(q) => Ok(q.layout.canvas),
        },
    }
}

/// Once a command fails to be laid out, the program fails the same way
/// however far it is laid out.
pub proof fn lemma_emit_error_stays(p: Progress, s: Seq<Instr>, n: nat, m: nat)
    requires
        n <= m,
        p.emit_all(s, n) is Err,
    ensures
        p.emit_all(s, m) == p.emit_all(s, n),
    decreases m,
{
    if n < m {
        lemma_emit_error_stays(p, s, n, (m - 1) as nat);
    }
}

impl Generator {
    /// A generator at its start, with the uses to come of each label.
    pub fn start(jump_counts: Vec<usize>) -> (r: Result<Generator, DrawError>)
        ensures
            match r {
                Ok(g) => g.wf() && Progress::start(jump_counts@) == Ok::<Progress, DrawError>(g@),
                Err(e) => Progress::start(jump_counts@) == Err::<Progress, DrawError>(e),
            },
    {
        let mut buffer = PietCodeBuffer::new(WIDTH, ROW_HEIGHT);
        assert(buffer.code@ =~= Seq::new((WIDTH * ROW_HEIGHT) as nat, |i: int| Color::Other));
        let (mut edit, _) = match buffer.allocate(3) {
            Ok(v) => v,
            Err(e) => {
                return Err(e);
            },
        };
        match edit.draw_pixel(0, 0, control_color()) {
            Ok(_) => {},
            Err(e) => {
                return Err(e);
            },
        }
        match edit.draw_pixel(0, 1, control_color()) {
            Ok(_) => {},
            Err(e) => {
                return Err(e);
            },
        }
        match edit.draw_pixel(1, 1, control_color()) {
            Ok(_) => {},
            Err(e) => {
                return Err(e);
            },
        }
        edit.commit(&mut buffer);
        buffer.x += 2;
        buffer.last_color = Some(control_color());
        Ok(
            Generator {
                buffer,
                labels: HashMap::new(),
                unmatched_jumps: HashMap::new(),
                jump_counts,
            },
        )
    }

    /// Lays out one more command. A push must be of a positive number that
    /// fits a machine word.
    pub fn emit(&mut self, cmd: &AsmCommand) -> (r: Result<(), DrawError>)
        requires
            old(self).wf(),
            cmd@ is Push ==> 1 <= cmd@->Push_0 <= usize::MAX,
        ensures
            final(self).wf(),
            shows(r, old(self)@.emit(cmd@), final(self)@),
    {
        reveal(Progress::emit);
        match cmd {
            AsmCommand::Label(label) => self.emit_label(*label),
            AsmCommand::Jump(label) => self.emit_jump(*label),
            AsmCommand::JumpIf(label) => self.emit_jump_if(*label),
            AsmCommand::Push(num) => {
                match big_to_usize(num) {
                    Some(n) => self.emit_push(n),
                    None => Err(DrawError::AllocationError),
                }
            },
            AsmCommand::Stop => self.emit_stop(),
            other => {
                match other.to_command() {
                    Some(command) => self.emit_command(command),
                    None => Err(DrawError::AllocationError),
                }
            },
        }
    }
}

/// Lays a program out as a grid of codels that runs it. Every push must be
/// of a positive small number, as in a sanitized program. A jump to a label
/// that comes later cannot be laid out.
pub fn generate(program: PietAsm) -> (r: Result<PietCode, DrawError>)
    requires
        forall|i: int| 0 <= i < program.instrs().len() ==> fit(#[trigger] program.instrs()[i]),
    ensures
        match r {
            Ok(code) => generated(program.instrs(), program.jump_counts@) == Ok::<
                Canvas,
                DrawError,
            >(
                Canvas {
                    width: code.spec_width() as int,
                    height: code.spec_height() as int,
                    cells: code.cells(),
                },
            ),
            Err(e) => generated(program.instrs(), program.jump_counts@) == Err::<Canvas, DrawError>(
                e,
            ),
        },
{
    let PietAsm { cmds, jump_counts } = program;
    let ghost s = instrs(cmds@);
    let mut generator = match Generator::start(jump_counts) {
        Ok(g) => g,
        Err(e) => {
            return Err(e);
        },
    };
    let ghost first = generator@;
    let mut i: usize = 0;
    while i < cmds.len()
        invariant
            i <= cmds.len(),
            s == instrs(cmds@),
            s == program.instrs(),
            Progress::start(program.jump_counts@) == Ok::<Progress, DrawError>(first),
            generator.wf(),
            forall|k: int| 0 <= k < s.len() ==> fit(#[trigger] s[k]),
            first.emit_all(s, i as nat) == Ok::<Progress, DrawError>(generator@),
        decreases cmds.len() - i,
    {
        assert(s[i as int] == cmds@[i as int]@);
        assert(fit(s[i as int]));
        match generator.emit(&cmds[i]) {
            Ok(_) => {},
            Err(e) => {
                proof {
                    assert(first.emit_all(s, (i + 1) as nat) == Err::<Progress, DrawError>(e));
                    lemma_emit_error_stays(first, s, (i + 1) as nat, s.len());
                }
                return Err(e);
            },
        }
        i += 1;
    }
    let Generator { buffer, .. } = generator;
    let PietCodeBuffer { width, height, code, .. } = buffer;
    match PietCode::from_codels(width, height, code) {
        Some(code) => Ok(code),
        None => Err(DrawError::AllocationError),
    }
}

} // verus!
