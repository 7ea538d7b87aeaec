//! The grid that the code generator paints on, and edits of it that land
//! whole or not at all.

use crate::color::Color;
use crate::grid::lemma_index_in_bounds;
use std::collections::HashSet;
use vstd::prelude::*;

verus! {

broadcast use vstd::std_specs::hash::group_hash_axioms;

/// The height of one row of the layout, in codels.
pub const ROW_HEIGHT: usize = 10;

/// Why a drawing could not be made.
#[derive(Debug, Clone, Copy, PartialEq, Eq)]
pub enum DrawError {
    /// A codel other than a black one fell outside the grid.
    OutOfBounds(usize, usize),
    /// The codel is already painted in another colour: wanted, found, where.
    ColorMismatch(Color, Color, (usize, usize)),
    /// No room could be found for a drawing.
    AllocationError,
    /// A jump to a label that comes later.
    Todo,
}

/// A rectangle of codels.
#[derive(Debug, Clone, Copy, PartialEq, Eq, Structural)]
pub struct Rect {
    pub x: usize,
    pub y: usize,
    pub width: usize,
    pub height: usize,
}

/// A grid of codels as a mathematical value: its sides, and its codels row by
/// row.
pub struct Canvas {
    pub width: int,
    pub height: int,
    pub cells: Seq<Color>,
}

impl Canvas {
    /// The canvas holds one codel for each coordinate.
    pub open spec fn wf(self) -> bool {
        0 <= self.width && 0 <= self.height && self.cells.len() == self.width * self.height
    }

    /// Whether column `x`, row `y` lies on the canvas.
    pub open spec fn holds(self, x: int, y: int) -> bool {
        0 <= x < self.width && 0 <= y < self.height
    }

    /// The colour at column `x`, row `y`.
    pub open spec fn pixel(self, x: int, y: int) -> Color
        recommends
            self.holds(x, y),
    {
        self.cells[y * self.width + x]
    }

    /// The canvas with the codel at column `x`, row `y` set to `color`; the
    /// canvas itself when that lies off it.
    pub open spec fn put(self, x: int, y: int, color: Color) -> Canvas {
        if self.holds(x, y) {
            Canvas { cells: self.cells.update(y * self.width + x, color), ..self }
        } else {
            self
        }
    }

    /// Whether the codel at column `x`, row `y` can be painted in `color`:
    /// an unpainted codel takes any colour, a painted one only its own; off
    /// the canvas only black may be painted.
    pub open spec fn check(self, x: usize, y: usize, color: Color) -> Result<(), DrawError> {
        if !self.holds(x as int, y as int) {
            if color is Black {
                Ok(())
            } else {
                Err(DrawError::OutOfBounds(x, y))
            }
        } else {
            let existing = self.pixel(x as int, y as int);
            if existing is Other || existing == color {
                Ok(())
            } else {
                Err(DrawError::ColorMismatch(color, existing, (x, y)))
            }
        }
    }

    /// The canvas after the codel at column `x`, row `y` is painted in
    /// `color`, or why it cannot be.
    pub open spec fn draw(self, x: usize, y: usize, color: Color) -> Result<Canvas, DrawError> {
        match self.check(x, y, color) {
            Ok(_) => Ok(self.put(x as int, y as int, color)),
            Err(e) => Err(e),
        }
    }

    /// The canvas after the codel at column `x`, row `y` is set to `color`
    /// whatever it held. Off the canvas only black may be painted.
    pub open spec fn overwrite(self, x: usize, y: usize, color: Color) -> Result<Canvas, DrawError> {
        if self.holds(x as int, y as int) || color is Black {
            Ok(self.put(x as int, y as int, color))
        } else {
            Err(DrawError::OutOfBounds(x, y))
        }
    }

    /// The canvas after the first `n` codels of the column `x` from the row
    /// `top` down are painted in `color`, one after the other, or why the
    /// first of them that fails cannot be.
    pub open spec fn draw_column(self, x: usize, top: usize, n: nat, color: Color) -> Result<
        Canvas,
        DrawError,
    >
        decreases n,
    {
        if n == 0 {
            Ok(self)
        } else {
            match self.draw_column(x, top, (n - 1) as nat, color) {
                Ok(c) => c.draw(x, (top + n - 1) as usize, color),
                Err(e) => Err(e),
            }
        }
    }

    /// The canvas after the first `n` columns of the rectangle with the top
    /// left corner at column `left`, row `top` and the height `height` are
    /// painted in `color`, column by column, or why the first codel that
    /// fails cannot be.
    pub open spec fn draw_rect(
        self,
        left: usize,
        top: usize,
        n: nat,
        height: nat,
        color: Color,
    ) -> Result<Canvas, DrawError>
        decreases n,
    {
        if n == 0 {
            Ok(self)
        } else {
            match self.draw_rect(left, top, (n - 1) as nat, height, color) {
                Ok(c) => c.draw_column((left + n - 1) as usize, top, height, color),
                Err(e) => Err(e),
            }
        }
    }

    /// The canvas after the first `n` of `pixels` are painted, one after the
    /// other, or why the first of them that fails cannot be.
    pub open spec fn draw_pixels(self, pixels: Seq<(usize, usize, Color)>, n: nat) -> Result<
        Canvas,
        DrawError,
    >
        decreases n,
    {
        if n == 0 {
            Ok(self)
        } else {
            match self.draw_pixels(pixels, (n - 1) as nat) {
                Ok(c) => c.draw(pixels[n - 1].0, pixels[n - 1].1, pixels[n - 1].2),
                Err(e) => Err(e),
            }
        }
    }

    /// The part of the canvas inside `area`, as a canvas of its own.
    pub open spec fn slice(self, area: Rect) -> Canvas {
        Canvas {
            width: area.width as int,
            height: area.height as int,
            cells: Seq::new(
                (area.width * area.height) as nat,
                |i: int|
                    self.pixel(
                        area.x + i % (area.width as int),
                        area.y + i / (area.width as int),
                    ),
            ),
        }
    }

    /// The canvas with `source` laid over `area`, which `source` must fill.
    pub open spec fn blit(self, source: Canvas, area: Rect) -> Canvas {
        Canvas {
            cells: Seq::new(
                self.cells.len(),
                |i: int|
                    {
                        let x = i % self.width;
                        let y = i / self.width;
                        if area.x <= x < area.x + area.width && area.y <= y < area.y
                            + area.height {
                            source.pixel(x - area.x, y - area.y)
                        } else {
                            self.cells[i]
                        }
                    },
            ),
            ..self
        }
    }
}

/// Painting keeps a canvas well formed.
pub proof fn lemma_put_wf(c: Canvas, x: int, y: int, color: Color)
    requires
        c.wf(),
    ensures
        c.put(x, y, color).wf(),
        c.put(x, y, color).width == c.width,
        c.put(x, y, color).height == c.height,
{
    if c.holds(x, y) {
        lemma_index_in_bounds(x, y, c.width, c.height);
    }
}

/// A column drawn on a well-formed canvas leaves a well-formed canvas of the
/// same size.
pub proof fn lemma_draw_column_wf(c: Canvas, x: usize, top: usize, n: nat, color: Color)
    requires
        c.wf(),
    ensures
        c.draw_column(x, top, n, color) is Ok ==> {
            let d = c.draw_column(x, top, n, color).unwrap();
            d.wf() && d.width == c.width && d.height == c.height
        },
    decreases n,
{
    if n > 0 {
        lemma_draw_column_wf(c, x, top, (n - 1) as nat, color);
        if c.draw_column(x, top, (n - 1) as nat, color) is Ok {
            let d = c.draw_column(x, top, (n - 1) as nat, color).unwrap();
            lemma_put_wf(d, x as int, (top + n - 1) as usize as int, color);
        }
    }
}

/// A rectangle drawn on a well-formed canvas leaves a well-formed canvas of
/// the same size.
pub proof fn lemma_draw_rect_wf(
    c: Canvas,
    left: usize,
    top: usize,
    n: nat,
    height: nat,
    color: Color,
)
    requires
        c.wf(),
    ensures
        c.draw_rect(left, top, n, height, color) is Ok ==> {
            let d = c.draw_rect(left, top, n, height, color).unwrap();
            d.wf() && d.width == c.width && d.height == c.height
        },
    decreases n,
{
    if n > 0 {
        lemma_draw_rect_wf(c, left, top, (n - 1) as nat, height, color);
        if c.draw_rect(left, top, (n - 1) as nat, height, color) is Ok {
            let d = c.draw_rect(left, top, (n - 1) as nat, height, color).unwrap();
            lemma_draw_column_wf(d, (left + n - 1) as usize, top, height, color);
        }
    }
}

/// A grid under construction, with the cursor of the layout.
#[derive(Debug)]
pub struct PietCodeBuffer {
    pub width: usize,
    pub height: usize,
    pub code: Vec<Color>,
    pub last_color: Option<Color>,
    pub x: usize,
    pub y: usize,
    pub jump_xs: HashSet<usize>,
}

impl PietCodeBuffer {
    /// The grid as a mathematical value.
    pub open spec fn canvas(self) -> Canvas {
        Canvas { width: self.width as int, height: self.height as int, cells: self.code@ }
    }

    /// The grid holds one codel for each coordinate.
    pub open spec fn wf(self) -> bool {
        self.canvas().wf()
    }

    /// Whether `other` has the layout state of `self`: the cursor, the last
    /// colour and the reserved columns.
    pub open spec fn same_cursor(self, other: PietCodeBuffer) -> bool {
        &&& self.last_color == other.last_color
        &&& self.x == other.x
        &&& self.y == other.y
        &&& self.jump_xs@ == other.jump_xs@
    }

    /// An unpainted grid of `width` by `height` codels, the cursor at the top
    /// left.
    pub fn new(width: usize, height: usize) -> (r: PietCodeBuffer)
        requires
            width * height <= usize::MAX,
        ensures
            r.wf(),
            r.width == width,
            r.height == height,
            forall|i: int| 0 <= i < r.code@.len() ==> r.code@[i] == Color::Other,
            r.last_color.is_none(),
            r.x == 0,
            r.y == 0,
            r.jump_xs@ == Set::<usize>::empty(),
    {
        let n = width * height;
        let mut code: Vec<Color> = Vec::new();
        while code.len() < n
            invariant
                code.len() <= n,
                forall|i: int| 0 <= i < code@.len() ==> code@[i] == Color::Other,
            decreases n - code.len(),
        {
            code.push(Color::Other);
        }
        PietCodeBuffer { width, height, code, last_color: None, x: 0, y: 0, jump_xs: HashSet::new() }
    }

    /// Adds `additional_height` unpainted rows at the bottom.
    pub fn reserve(&mut self, additional_height: usize)
        requires
            old(self).wf(),
            old(self).height + additional_height <= usize::MAX,
            old(self).width * (old(self).height + additional_height) <= usize::MAX,
        ensures
            final(self).wf(),
            final(self).width == old(self).width,
            final(self).height == old(self).height + additional_height,
            final(self).same_cursor(*old(self)),
            final(self).code@ == old(self).code@ + Seq::new(
                (old(self).width * additional_height) as nat,
                |i: int| Color::Other,
            ),
    {
        assert(self.width * (self.height + additional_height) == self.width * self.height
            + self.width * additional_height) by (nonlinear_arith);
        assert(self.width * additional_height >= 0) by (nonlinear_arith);
        let more = self.width * additional_height;
        self.height = self.height + additional_height;
        let mut i: usize = 0;
        while i < more
            invariant
                i <= more,
                self.width == old(self).width,
                self.height == old(self).height + additional_height,
                self.same_cursor(*old(self)),
                old(self).code@.len() + more <= usize::MAX,
                self.code@ == old(self).code@ + Seq::new(i as nat, |j: int| Color::Other),
            decreases more - i,
        {
            self.code.push(Color::Other);
            i += 1;
            assert(self.code@ =~= old(self).code@ + Seq::new(i as nat, |j: int| Color::Other));
        }
    }

    /// Paints the codel at column `x`, row `y`. An unpainted codel takes the
    /// colour; one that has it already stays; one of another colour is a
    /// mismatch. Off the grid only black may be painted, and is dropped.
    pub fn draw_pixel(&mut self, x: usize, y: usize, color: Color) -> (r: Result<(), DrawError>)
        requires
            old(self).wf(),
        ensures
            final(self).wf(),
            final(self).same_cursor(*old(self)),
            match r {
                Ok(_) => old(self).canvas().draw(x, y, color) == Ok::<Canvas, DrawError>(
                    final(self).canvas(),
                ),
                Err(e) => old(self).canvas().draw(x, y, color) == Err::<Canvas, DrawError>(e)
                    && final(self).canvas() == old(self).canvas(),
            },
    {
        if x >= self.width || y >= self.height {
            if matches!(color, Color::Black) {
                return Ok(());
            } else {
                return Err(DrawError::OutOfBounds(x, y));
            }
        }
        let len = self.code.len();
        proof {
            lemma_index_in_bounds(x as int, y as int, self.width as int, self.height as int);
        }
        let idx = y * self.width + x;
        let existing = self.code[idx];
        if matches!(existing, Color::Other) {
            self.code.set(idx, color);
            Ok(())
        } else if existing == color {
            assert(self.code@ =~= old(self).code@.update(idx as int, color));
            Ok(())
        } else {
            Err(DrawError::ColorMismatch(color, existing, (x, y)))
        }
    }

    /// Paints the codel at column `x`, row `y`, whatever it holds. Off the
    /// grid only black may be painted, and is dropped.
    pub fn draw_pixel_overwrite(&mut self, x: usize, y: usize, color: Color) -> (r: Result<
        (),
        DrawError,
    >)
        requires
            old(self).wf(),
        ensures
            final(self).wf(),
            final(self).same_cursor(*old(self)),
            match r {
                Ok(_) => old(self).canvas().overwrite(x, y, color) == Ok::<Canvas, DrawError>(
                    final(self).canvas(),
                ),
                Err(e) => old(self).canvas().overwrite(x, y, color) == Err::<Canvas, DrawError>(e)
                    && final(self).canvas() == old(self).canvas(),
            },
    {
        if x >= self.width || y >= self.height {
            if matches!(color, Color::Black) {
                return Ok(());
            } else {
                return Err(DrawError::OutOfBounds(x, y));
            }
        }
        let len = self.code.len();
        proof {
            lemma_index_in_bounds(x as int, y as int, self.width as int, self.height as int);
        }
        let idx = y * self.width + x;
        self.code.set(idx, color);
        Ok(())
    }
}

/// In a row-major layout of rows of `w` codels, the index of column `c` in
/// row `r` gives both back.
pub proof fn lemma_row_major(r: int, c: int, w: int)
    requires
        0 <= c < w,
        0 <= r,
    ensures
        (r * w + c) % w == c,
        (r * w + c) / w == r,
        r * w + c >= 0,
{
    vstd::arithmetic::div_mod::lemma_fundamental_div_mod_converse(r * w + c, w, r, c);
    assert(r * w >= 0) by (nonlinear_arith)
        requires
            r >= 0,
            w > 0,
    ;
}

/// An index into a row-major layout of rows of `w` codels splits into a row
/// and a column.
pub proof fn lemma_row_major_split(i: int, w: int)
    requires
        0 <= i,
        0 < w,
    ensures
        0 <= i % w < w,
        0 <= i / w,
        i == (i / w) * w + i % w,
{
    vstd::arithmetic::div_mod::lemma_fundamental_div_mod(i, w);
    vstd::arithmetic::div_mod::lemma_mod_bound(i, w);
    vstd::arithmetic::div_mod::lemma_div_pos_is_pos(i, w);
    assert(w * (i / w) == (i / w) * w) by (nonlinear_arith);
}

impl PietCodeBuffer {
    /// Whether `area` lies on the grid.
    pub open spec fn covers(self, area: Rect) -> bool {
        area.x + area.width <= self.width && area.y + area.height <= self.height
    }

    /// A copy of the part of the grid inside `area`, as a grid of its own
    /// with the cursor at its top left. `area` must lie on the grid.
    pub fn clone_slice(&self, area: Rect) -> (r: PietCodeBuffer)
        requires
            self.wf(),
            self.covers(area),
        ensures
            r.wf(),
            r.canvas() == self.canvas().slice(area),
            r.last_color.is_none(),
            r.x == 0,
            r.y == 0,
            r.jump_xs@ == Set::<usize>::empty(),
    {
        let Rect { x, y, width, height } = area;
        let ghost want = self.canvas().slice(area).cells;
        let len = self.code.len();
        assert(width * height <= self.width * self.height) by (nonlinear_arith)
            requires
                width <= self.width,
                height <= self.height,
        ;
        let mut code: Vec<Color> = Vec::new();
        let mut dy: usize = y;
        while dy < y + height
            invariant
                self.wf(),
                self.covers(area),
                area == (Rect { x, y, width, height }),
                y <= dy <= y + height,
                want == self.canvas().slice(area).cells,
                code@.len() == (dy - y) * width,
                code@ == want.take(code@.len() as int),
                width * height <= usize::MAX,
                self.width * self.height <= usize::MAX,
            decreases y + height - dy,
        {
            let mut dx: usize = x;
            while dx < x + width
                invariant
                    self.wf(),
                    self.covers(area),
                    area == (Rect { x, y, width, height }),
                    y <= dy < y + height,
                    x <= dx <= x + width,
                    want == self.canvas().slice(area).cells,
                    code@.len() == (dy - y) * width + (dx - x),
                    code@ == want.take(code@.len() as int),
                    width * height <= usize::MAX,
                    self.width * self.height <= usize::MAX,
                decreases x + width - dx,
            {
                proof {
                    lemma_index_in_bounds(
                        dx as int,
                        dy as int,
                        self.width as int,
                        self.height as int,
                    );
                    lemma_index_in_bounds(
                        (dx - x) as int,
                        (dy - y) as int,
                        width as int,
                        height as int,
                    );
                    lemma_row_major((dy - y) as int, (dx - x) as int, width as int);
                }
                let idx = dy * self.width + dx;
                code.push(self.code[idx]);
                proof {
                    let i = code@.len() - 1;
                    assert(want[i] == self.canvas().pixel(x + i % (width as int), y + i / (width as int)));
                    assert(code@ =~= want.take(code@.len() as int));
                }
                dx += 1;
            }
            dy += 1;
            assert((dy - y) * width == (dy - 1 - y) * width + width) by (nonlinear_arith)
                requires
                    dy >= y + 1,
            ;
        }
        proof {
            assert(code@.len() == width * height) by (nonlinear_arith)
                requires
                    code@.len() == (dy - y) * width,
                    dy == y + height,
            ;
            assert(code@ =~= want);
        }
        PietCodeBuffer {
            code,
            width,
            height,
            last_color: None,
            x: 0,
            y: 0,
            jump_xs: HashSet::new(),
        }
    }

    /// Lays `source` over `dest`, which must lie on the grid and which
    /// `source` must fill.
    pub fn blit(&mut self, source: PietCodeBuffer, dest: Rect)
        requires
            old(self).wf(),
            old(self).covers(dest),
            source.wf(),
            source.width == dest.width,
            source.height == dest.height,
        ensures
            final(self).wf(),
            final(self).same_cursor(*old(self)),
            final(self).canvas() == old(self).canvas().blit(source.canvas(), dest),
    {
        let Rect { x, y, width, height } = dest;
        let ghost start = self.canvas();
        let ghost want = start.blit(source.canvas(), dest);
        let len = source.code.len();
        let mut src: usize = 0;
        let mut dy: usize = y;
        while dy < y + height
            invariant
                self.wf(),
                self.same_cursor(*old(self)),
                start == old(self).canvas(),
                start.wf(),
                self.width == start.width,
                self.height == start.height,
                source.wf(),
                source.width == width,
                source.height == height,
                x + width <= self.width,
                y + height <= self.height,
                dest == (Rect { x, y, width, height }),
                y <= dy <= y + height,
                src == (dy - y) * width,
                width * height <= usize::MAX,
                blitted_to(self.canvas(), start, source.canvas(), dest, dy as int, x as int),
            decreases y + height - dy,
        {
            let mut dx: usize = x;
            while dx < x + width
                invariant
                    self.wf(),
                    self.same_cursor(*old(self)),
                    start == old(self).canvas(),
                    start.wf(),
                    self.width == start.width,
                    self.height == start.height,
                    source.wf(),
                    source.width == width,
                    source.height == height,
                    x + width <= self.width,
                    y + height <= self.height,
                    dest == (Rect { x, y, width, height }),
                    y <= dy < y + height,
                    x <= dx <= x + width,
                    src == (dy - y) * width + (dx - x),
                    width * height <= usize::MAX,
                    blitted_to(self.canvas(), start, source.canvas(), dest, dy as int, dx as int),
                decreases x + width - dx,
            {
                proof {
                    lemma_index_in_bounds(
                        (dx - x) as int,
                        (dy - y) as int,
                        width as int,
                        height as int,
                    );
                }
                let ghost before = self.canvas();
                let color = source.code[src];
                let _ = self.draw_pixel_overwrite(dx, dy, color);
                proof {
                    lemma_blit_step(
                        before,
                        self.canvas(),
                        start,
                        source.canvas(),
                        dest,
                        dy as int,
                        dx as int,
                    );
                }
                src += 1;
                dx += 1;
            }
            proof {
                lemma_blit_row(self.canvas(), start, source.canvas(), dest, dy as int);
                assert((dy + 1 - y) * width == (dy - y) * width + width) by (nonlinear_arith);
            }
            dy += 1;
        }
        proof {
            lemma_blit_done(self.canvas(), start, source.canvas(), dest);
        }
    }
}

/// Whether `now` is `start` with `source` laid over the rows of `area` above
/// the row `row` and over the columns of that row left of the column `col`.
pub open spec fn blitted_to(
    now: Canvas,
    start: Canvas,
    source: Canvas,
    area: Rect,
    row: int,
    col: int,
) -> bool {
    &&& now.width == start.width
    &&& now.height == start.height
    &&& now.cells.len() == start.cells.len()
    &&& forall|i: int|
        0 <= i < now.cells.len() ==> #[trigger] now.cells[i] == {
            let x = i % start.width;
            let y = i / start.width;
            if area.x <= x < area.x + area.width && (area.y <= y < row || (y == row && x < col)) {
                source.pixel(x - area.x, y - area.y)
            } else {
                start.cells[i]
            }
        }
}

/// One more codel laid over.
pub proof fn lemma_blit_step(
    before: Canvas,
    after: Canvas,
    start: Canvas,
    source: Canvas,
    area: Rect,
    row: int,
    col: int,
)
    requires
        start.wf(),
        blitted_to(before, start, source, area, row, col),
        area.x <= col < area.x + area.width <= start.width,
        area.y <= row < area.y + area.height <= start.height,
        after.width == before.width,
        after.height == before.height,
        after.cells == before.cells.update(
            row * start.width + col,
            source.pixel(col - area.x, row - area.y),
        ),
    ensures
        blitted_to(after, start, source, area, row, col + 1),
{
    lemma_index_in_bounds(col, row, start.width, start.height);
    lemma_row_major(row, col, start.width);
    assert forall|i: int| 0 <= i < after.cells.len() implies #[trigger] after.cells[i] == {
        let x = i % start.width;
        let y = i / start.width;
        if area.x <= x < area.x + area.width && (area.y <= y < row || (y == row && x < col + 1)) {
            source.pixel(x - area.x, y - area.y)
        } else {
            start.cells[i]
        }
    } by {
        lemma_row_major_split(i, start.width);
        assert(before.cells[i] == before.cells[i]);
        if i != row * start.width + col {
            assert(after.cells[i] == before.cells[i]);
            if i / start.width == row {
                assert(i % start.width != col);
            }
        }
    }
}

/// A row laid over in full is the start of the next.
pub proof fn lemma_blit_row(now: Canvas, start: Canvas, source: Canvas, area: Rect, row: int)
    requires
        area.y <= row,
        blitted_to(now, start, source, area, row, area.x + area.width),
    ensures
        blitted_to(now, start, source, area, row + 1, area.x as int),
{
    assert forall|i: int| 0 <= i < now.cells.len() implies #[trigger] now.cells[i] == {
        let x = i % start.width;
        let y = i / start.width;
        if area.x <= x < area.x + area.width && (area.y <= y < row + 1 || (y == row + 1 && x
            < area.x)) {
            source.pixel(x - area.x, y - area.y)
        } else {
            start.cells[i]
        }
    } by {
        let x = i % start.width;
        let y = i / start.width;
        let was = if area.x <= x < area.x + area.width && (area.y <= y < row || (y == row && x
            < area.x + area.width)) {
            source.pixel(x - area.x, y - area.y)
        } else {
            start.cells[i]
        };
        assert(now.cells[i] == was);
    }
}

/// With every row laid over, the canvas is the start with the source laid
/// over the area.
pub proof fn lemma_blit_done(now: Canvas, start: Canvas, source: Canvas, area: Rect)
    requires
        blitted_to(now, start, source, area, area.y + area.height, area.x as int),
    ensures
        now == start.blit(source, area),
{
    assert forall|i: int| 0 <= i < now.cells.len() implies now.cells[i] == start.blit(
        source,
        area,
    ).cells[i] by {
        assert(now.cells[i] == now.cells[i]);
    }
    assert(now.cells =~= start.blit(source, area).cells);
}

/// Once a codel of a column fails, the column fails the same way however far
/// it is drawn.
pub proof fn lemma_column_error_stays(c: Canvas, x: usize, top: usize, n: nat, m: nat, color: Color)
    requires
        n <= m,
        c.draw_column(x, top, n, color) is Err,
    ensures
        c.draw_column(x, top, m, color) == c.draw_column(x, top, n, color),
    decreases m,
{
    if n < m {
        lemma_column_error_stays(c, x, top, n, (m - 1) as nat, color);
    }
}

/// Once a column of a rectangle fails, the rectangle fails the same way
/// however far it is drawn.
pub proof fn lemma_rect_error_stays(
    c: Canvas,
    left: usize,
    top: usize,
    n: nat,
    m: nat,
    height: nat,
    color: Color,
)
    requires
        n <= m,
        c.draw_rect(left, top, n, height, color) is Err,
    ensures
        c.draw_rect(left, top, m, height, color) == c.draw_rect(left, top, n, height, color),
    decreases m,
{
    if n < m {
        lemma_rect_error_stays(c, left, top, n, (m - 1) as nat, height, color);
    }
}

/// The whole of a canvas, cut out, is the canvas.
pub proof fn lemma_slice_whole(c: Canvas)
    requires
        c.wf(),
        c.width <= usize::MAX,
        c.height <= usize::MAX,
    ensures
        c.slice(Rect { x: 0, y: 0, width: c.width as usize, height: c.height as usize }) == c,
{
    let area = Rect { x: 0, y: 0, width: c.width as usize, height: c.height as usize };
    assert forall|i: int| 0 <= i < c.cells.len() implies c.slice(area).cells[i] == c.cells[i] by {
        if c.width > 0 {
            lemma_row_major_split(i, c.width);
        } else {
            assert(c.width * c.height == 0) by (nonlinear_arith)
                requires
                    c.width == 0,
            ;
        }
    }
    assert(c.slice(area).cells =~= c.cells);
}

/// What follows a drawing that may have failed: painting one more codel.
pub open spec fn then_draw(r: Result<Canvas, DrawError>, x: usize, y: usize, color: Color) -> Result<
    Canvas,
    DrawError,
> {
    match r {
        Ok(c) => c.draw(x, y, color),
        Err(e) => Err(e),
    }
}

/// What follows a drawing that may have failed: setting one more codel.
pub open spec fn then_overwrite(
    r: Result<Canvas, DrawError>,
    x: usize,
    y: usize,
    color: Color,
) -> Result<Canvas, DrawError> {
    match r {
        Ok(c) => c.overwrite(x, y, color),
        Err(e) => Err(e),
    }
}

/// What follows a drawing that may have failed: painting a rectangle.
pub open spec fn then_rect(
    r: Result<Canvas, DrawError>,
    left: usize,
    top: usize,
    width: nat,
    height: nat,
    color: Color,
) -> Result<Canvas, DrawError> {
    match r {
        Ok(c) => c.draw_rect(left, top, width, height, color),
        Err(e) => Err(e),
    }
}

impl Canvas {
    /// The canvas after the gadget that turns the track about at the end of
    /// a row is drawn, its corridor going down from column `x`, row `y`.
    pub open spec fn draw_newline(self, x: usize, y: usize) -> Result<Canvas, DrawError> {
        let r = self.draw_rect(x, y, 1, 8, Color::White);
        let r = then_rect(r, 0, (y + 8) as usize, self.width as nat, 1, Color::White);
        let r = then_draw(r, (x + 1) as usize, y, Color::Black);
        let r = then_draw(r, x, (y + 9) as usize, Color::Black);
        let r = then_draw(r, 0, (y + 6) as usize, Color::Black);
        let r = then_draw(r, 2, (y + 7) as usize, Color::Black);
        let r = then_draw(r, 1, (y + 12) as usize, Color::Black);
        let r = then_rect(r, 0, (y + 7) as usize, 2, 5, Color::White);
        then_overwrite(r, 0, (y + 9) as usize, Color::Black)
    }
}

/// A group of paintings on a copy of an area of a grid. The copy is laid back
/// over the grid only if every painting succeeded.
#[derive(Debug)]
pub struct PietCodeBufferEdit {
    pub edited: PietCodeBuffer,
    pub poisoned: bool,
    pub area: Rect,
}

/// Whether `r` reports what the drawing `want` comes to: on success the
/// canvas `now`, on failure the error.
pub open spec fn reports(r: Result<(), DrawError>, want: Result<Canvas, DrawError>, now: Canvas) -> bool {
    match r {
        Ok(_) => want == Ok::<Canvas, DrawError>(now),
        Err(e) => want == Err::<Canvas, DrawError>(e),
    }
}

impl PietCodeBufferEdit {
    /// The copy is a grid of the size of the area.
    pub open spec fn wf(self) -> bool {
        &&& self.edited.wf()
        &&& self.edited.width == self.area.width
        &&& self.edited.height == self.area.height
    }

    /// The copy as a mathematical value.
    pub open spec fn canvas(self) -> Canvas {
        self.edited.canvas()
    }

    /// An edit of the whole of `pcb`.
    pub fn new(pcb: &PietCodeBuffer) -> (r: PietCodeBufferEdit)
        requires
            pcb.wf(),
        ensures
            r.wf(),
            !r.poisoned,
            r.area == (Rect { x: 0, y: 0, width: pcb.width, height: pcb.height }),
            r.canvas() == pcb.canvas(),
    {
        let area = Rect { x: 0, y: 0, width: pcb.width, height: pcb.height };
        proof {
            lemma_slice_whole(pcb.canvas());
        }
        PietCodeBufferEdit::new_slice(pcb, area)
    }

    /// An edit of the part of `pcb` inside `area`, which must lie on it.
    pub fn new_slice(pcb: &PietCodeBuffer, area: Rect) -> (r: PietCodeBufferEdit)
        requires
            pcb.wf(),
            pcb.covers(area),
        ensures
            r.wf(),
            !r.poisoned,
            r.area == area,
            r.canvas() == pcb.canvas().slice(area),
    {
        let slice = pcb.clone_slice(area);
        PietCodeBufferEdit { edited: slice, poisoned: false, area }
    }

    /// Marks the edit as failed when `res` is an error, and hands `res` on.
    pub fn poison_on_err<T>(&mut self, res: Result<T, DrawError>) -> (r: Result<T, DrawError>)
        ensures
            r == res,
            final(self).poisoned == (old(self).poisoned || res is Err),
            final(self).edited == old(self).edited,
            final(self).area == old(self).area,
    {
        match res {
            Err(e) => {
                self.poisoned = true;
                Err(e)
            },
            ok => ok,
        }
    }

    /// Paints one codel of the copy.
    pub fn draw_pixel(&mut self, x: usize, y: usize, color: Color) -> (r: Result<(), DrawError>)
        requires
            old(self).wf(),
        ensures
            final(self).wf(),
            final(self).area == old(self).area,
            final(self).poisoned == (old(self).poisoned || r is Err),
            reports(r, old(self).canvas().draw(x, y, color), final(self).canvas()),
    {
        let result = self.edited.draw_pixel(x, y, color);
        self.poison_on_err(result)
    }

    /// Sets one codel of the copy, whatever it holds.
    pub fn draw_pixel_overwrite(&mut self, x: usize, y: usize, color: Color) -> (r: Result<
        (),
        DrawError,
    >)
        requires
            old(self).wf(),
        ensures
            final(self).wf(),
            final(self).area == old(self).area,
            final(self).poisoned == (old(self).poisoned || r is Err),
            reports(r, old(self).canvas().overwrite(x, y, color), final(self).canvas()),
    {
        let result = self.edited.draw_pixel_overwrite(x, y, color);
        self.poison_on_err(result)
    }

    /// Paints a rectangle of the copy, column by column, up to the first
    /// codel that cannot be painted.
    pub fn draw_rect(
        &mut self,
        left: usize,
        top: usize,
        width: usize,
        height: usize,
        color: Color,
    ) -> (r: Result<(), DrawError>)
        requires
            old(self).wf(),
            left + width <= usize::MAX,
            top + height <= usize::MAX,
        ensures
            final(self).wf(),
            final(self).area == old(self).area,
            final(self).poisoned == (old(self).poisoned || r is Err),
            reports(
                r,
                old(self).canvas().draw_rect(left, top, width as nat, height as nat, color),
                final(self).canvas(),
            ),
    {
        let ghost start = self.canvas();
        let mut x: usize = left;
        while x < left + width
            invariant
                self.wf(),
                self.area == old(self).area,
                self.poisoned == old(self).poisoned,
                start == old(self).canvas(),
                left <= x <= left + width <= usize::MAX,
                top + height <= usize::MAX,
                start.draw_rect(left, top, (x - left) as nat, height as nat, color) == Ok::<
                    Canvas,
                    DrawError,
                >(self.canvas()),
            decreases left + width - x,
        {
            let ghost column = self.canvas();
            let mut y: usize = top;
            while y < top + height
                invariant
                    self.wf(),
                    self.area == old(self).area,
                    self.poisoned == old(self).poisoned,
                    start == old(self).canvas(),
                    left <= x < left + width <= usize::MAX,
                    top <= y <= top + height <= usize::MAX,
                    start.draw_rect(left, top, (x - left) as nat, height as nat, color) == Ok::<
                        Canvas,
                        DrawError,
                    >(column),
                    column.draw_column(x, top, (y - top) as nat, color) == Ok::<Canvas, DrawError>(
                        self.canvas(),
                    ),
                decreases top + height - y,
            {
                match self.draw_pixel(x, y, color) {
                    Ok(_) => {},
                    Err(e) => {
                        proof {
                            assert(column.draw_column(x, top, (y - top + 1) as nat, color) == Err::<
                                Canvas,
                                DrawError,
                            >(e));
                            lemma_column_error_stays(
                                column,
                                x,
                                top,
                                (y - top + 1) as nat,
                                height as nat,
                                color,
                            );
                            assert(start.draw_rect(
                                left,
                                top,
                                (x - left + 1) as nat,
                                height as nat,
                                color,
                            ) == Err::<Canvas, DrawError>(e));
                            lemma_rect_error_stays(
                                start,
                                left,
                                top,
                                (x - left + 1) as nat,
                                width as nat,
                                height as nat,
                                color,
                            );
                        }
                        return Err(e);
                    },
                }
                y += 1;
            }
            assert(start.draw_rect(left, top, (x - left + 1) as nat, height as nat, color) == Ok::<
                Canvas,
                DrawError,
            >(self.canvas()));
            x += 1;
        }
        Ok(())
    }

    /// Paints a row of the copy white from side to side.
    pub fn draw_horiz(&mut self, y: usize) -> (r: Result<(), DrawError>)
        requires
            old(self).wf(),
            y < usize::MAX,
        ensures
            final(self).wf(),
            final(self).area == old(self).area,
            final(self).poisoned == (old(self).poisoned || r is Err),
            reports(
                r,
                old(self).canvas().draw_rect(0, y, old(self).edited.width as nat, 1, Color::White),
                final(self).canvas(),
            ),
    {
        let width = self.edited.width;
        self.draw_rect(0, y, width, 1, Color::White)
    }
}

impl PietCodeBufferEdit {
    /// Draws on the copy the gadget that turns the track about at the end of
    /// a row: a corridor down from column `x`, row `y`, a corridor back along
    /// the bottom of the row, and the walls that steer the pointer into the
    /// next row.
    pub fn draw_newline(&mut self, x: usize, y: usize) -> (r: Result<(), DrawError>)
        requires
            old(self).wf(),
            x < usize::MAX,
            y + ROW_HEIGHT + 2 <= usize::MAX,
        ensures
            final(self).wf(),
            final(self).area == old(self).area,
            final(self).poisoned == (old(self).poisoned || r is Err),
            reports(r, old(self).canvas().draw_newline(x, y), final(self).canvas()),
    {
        match self.draw_rect(x, y, 1, ROW_HEIGHT - 2, Color::White) {
            Ok(_) => {},
            Err(e) => {
                return Err(e);
            },
        }
        match self.draw_horiz(y + ROW_HEIGHT - 2) {
            Ok(_) => {},
            Err(e) => {
                return Err(e);
            },
        }
        match self.draw_pixel(x + 1, y, Color::Black) {
            Ok(_) => {},
            Err(e) => {
                return Err(e);
            },
        }
        match self.draw_pixel(x, y + ROW_HEIGHT - 1, Color::Black) {
            Ok(_) => {},
            Err(e) => {
                return Err(e);
            },
        }
        match self.draw_pixel(0, y + ROW_HEIGHT - 4, Color::Black) {
            Ok(_) => {},
            Err(e) => {
                return Err(e);
            },
        }
        match self.draw_pixel(2, y + ROW_HEIGHT - 3, Color::Black) {
            Ok(_) => {},
            Err(e) => {
                return Err(e);
            },
        }
        match self.draw_pixel(1, y + ROW_HEIGHT + 2, Color::Black) {
            Ok(_) => {},
            Err(e) => {
                return Err(e);
            },
        }
        match self.draw_rect(0, y + ROW_HEIGHT - 3, 2, 5, Color::White) {
            Ok(_) => {},
            Err(e) => {
                return Err(e);
            },
        }
        self.draw_pixel_overwrite(0, y + ROW_HEIGHT - 1, Color::Black)
    }

    /// Lays the copy back over its area of `target`, unless a painting
    /// failed: then `target` stays as it is.
    pub fn commit(self, target: &mut PietCodeBuffer)
        requires
            self.wf(),
            old(target).wf(),
            old(target).covers(self.area),
        ensures
            final(target).wf(),
            final(target).same_cursor(*old(target)),
            final(target).canvas() == if self.poisoned {
                old(target).canvas()
            } else {
                old(target).canvas().blit(self.canvas(), self.area)
            },
    {
        if !self.poisoned {
            target.blit(self.edited, self.area);
        }
    }
}

impl Canvas {
    /// The canvas with `rows` unpainted rows added at the bottom.
    pub open spec fn grown(self, rows: nat) -> Canvas {
        Canvas {
            height: self.height + rows,
            cells: self.cells + Seq::new((self.width * rows) as nat, |i: int| Color::Other),
            ..self
        }
    }

    /// The canvas after `pixels` are painted on a copy of `area` and the copy
    /// is laid back, or why the first codel that fails cannot be painted.
    pub open spec fn stamp(self, area: Rect, pixels: Seq<(usize, usize, Color)>) -> Result<
        Canvas,
        DrawError,
    > {
        match self.slice(area).draw_pixels(pixels, pixels.len()) {
            Ok(c) => Ok(self.blit(c, area)),
            Err(e) => Err(e),
        }
    }

    /// The rectangle that covers the canvas.
    pub open spec fn whole(self) -> Rect {
        Rect { x: 0, y: 0, width: self.width as usize, height: self.height as usize }
    }
}

/// A canvas laid over the whole of another of its size replaces it.
pub proof fn lemma_blit_whole(c: Canvas, source: Canvas)
    requires
        c.wf(),
        source.wf(),
        source.width == c.width,
        source.height == c.height,
        c.width <= usize::MAX,
        c.height <= usize::MAX,
    ensures
        c.blit(source, c.whole()) == source,
{
    assert forall|i: int| 0 <= i < c.cells.len() implies c.blit(source, c.whole()).cells[i]
        == source.cells[i] by {
        if c.width > 0 {
            lemma_row_major_split(i, c.width);
            assert(i / c.width < c.height) by (nonlinear_arith)
                requires
                    i < c.width * c.height,
                    i == (i / c.width) * c.width + i % c.width,
                    0 <= i % c.width,
                    c.width > 0,
            ;
        } else {
            assert(c.width * c.height == 0) by (nonlinear_arith)
                requires
                    c.width == 0,
            ;
        }
    }
    assert(c.blit(source, c.whole()).cells =~= source.cells);
}

/// Once one of a list of codels fails, the list fails the same way however
/// far it is painted.
pub proof fn lemma_pixels_error_stays(
    c: Canvas,
    pixels: Seq<(usize, usize, Color)>,
    n: nat,
    m: nat,
)
    requires
        n <= m,
        c.draw_pixels(pixels, n) is Err,
    ensures
        c.draw_pixels(pixels, m) == c.draw_pixels(pixels, n),
    decreases m,
{
    if n < m {
        lemma_pixels_error_stays(c, pixels, n, (m - 1) as nat);
    }
}

impl PietCodeBufferEdit {
    /// Paints `pixels` on the copy, one after the other, up to the first that
    /// cannot be painted.
    pub fn draw_pixels(&mut self, pixels: &Vec<(usize, usize, Color)>) -> (r: Result<(), DrawError>)
        requires
            old(self).wf(),
        ensures
            final(self).wf(),
            final(self).area == old(self).area,
            final(self).poisoned == (old(self).poisoned || r is Err),
            reports(
                r,
                old(self).canvas().draw_pixels(pixels@, pixels@.len()),
                final(self).canvas(),
            ),
    {
        let ghost start = self.canvas();
        let mut i: usize = 0;
        while i < pixels.len()
            invariant
                i <= pixels.len(),
                self.wf(),
                self.area == old(self).area,
                self.poisoned == old(self).poisoned,
                start == old(self).canvas(),
                start.draw_pixels(pixels@, i as nat) == Ok::<Canvas, DrawError>(self.canvas()),
            decreases pixels.len() - i,
        {
            let (x, y, color) = pixels[i];
            match self.draw_pixel(x, y, color) {
                Ok(_) => {},
                Err(e) => {
                    proof {
                        assert(start.draw_pixels(pixels@, (i + 1) as nat) == Err::<
                            Canvas,
                            DrawError,
                        >(e));
                        lemma_pixels_error_stays(start, pixels@, (i + 1) as nat, pixels@.len());
                    }
                    return Err(e);
                },
            }
            i += 1;
        }
        Ok(())
    }
}

} // verus!
