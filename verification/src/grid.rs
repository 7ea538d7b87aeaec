//! The codel grid and the regions of one colour in it.

use crate::bigint::{big_from_usize, big_value};
use crate::color::Color;
use crate::pointer::{CodelChoice, Coord, Direction, InstructionPointer};
use num_bigint::BigInt;
use vstd::prelude::*;

verus! {

/// A rectangular grid of codels, stored row by row.
#[derive(Debug)]
pub struct PietCode {
    width: usize,
    height: usize,
    code: Vec<Color>,
}

impl PietCode {
    #[verifier::type_invariant]
    spec fn inv(self) -> bool {
        self.code@.len() == self.width * self.height
    }

    /// The number of columns.
    pub closed spec fn spec_width(self) -> nat {
        self.width as nat
    }

    /// The number of rows.
    pub closed spec fn spec_height(self) -> nat {
        self.height as nat
    }

    /// The codels, row by row.
    pub closed spec fn cells(self) -> Seq<Color> {
        self.code@
    }

    /// The sides of a grid fit a machine word.
    pub proof fn lemma_sides_bounded(self)
        ensures
            self.spec_width() <= usize::MAX,
            self.spec_height() <= usize::MAX,
    {
    }

    /// Whether `c` lies on the grid.
    pub open spec fn contains(self, c: Coord) -> bool {
        c.0 < self.spec_width() && c.1 < self.spec_height()
    }

    /// The colour at `c`, or `None` off the grid.
    pub open spec fn color_at(self, c: Coord) -> Option<Color> {
        if self.contains(c) {
            Some(self.cells()[c.0 + c.1 * self.spec_width()])
        } else {
            None
        }
    }

    /// A grid of `width` by `height` codels from its rows laid end to end;
    /// `None` when `code` has another length than `width * height`.
    pub fn from_codels(width: usize, height: usize, code: Vec<Color>) -> (r: Option<PietCode>)
        ensures
            r.is_some() <==> code@.len() == width * height,
            r.is_some() ==> {
                &&& r.unwrap().spec_width() == width
                &&& r.unwrap().spec_height() == height
                &&& r.unwrap().cells() == code@
            },
    {
        let len = code.len();
        match width.checked_mul(height) {
            Some(n) => {
                if len == n {
                    Some(PietCode { width, height, code })
                } else {
                    None
                }
            },
            None => {
                None
            },
        }
    }

    /// The number of columns. A grid holds one codel for each coordinate.
    pub fn width(&self) -> (r: usize)
        ensures
            r == self.spec_width(),
            self.cells().len() == self.spec_width() * self.spec_height(),
    {
        proof {
            use_type_invariant(self);
        }
        self.width
    }

    /// The number of codels.
    pub fn size(&self) -> (r: usize)
        ensures
            r == self.spec_width() * self.spec_height(),
    {
        proof {
            use_type_invariant(self);
        }
        self.code.len()
    }

    pub fn height(&self) -> (r: usize)
        ensures
            r == self.spec_height(),
    {
        self.height
    }

    /// The codels with their coordinates, row by row: column, row, colour.
    pub fn codels(&self) -> (r: Vec<(usize, usize, Color)>)
        ensures
            r@.len() == self.cells().len(),
            forall|i: int|
                0 <= i < r@.len() ==> {
                    &&& (#[trigger] r@[i]).0 == i % (self.spec_width() as int)
                    &&& r@[i].1 == i / (self.spec_width() as int)
                    &&& r@[i].2 == self.cells()[i]
                },
    {
        proof {
            use_type_invariant(self);
        }
        let mut out: Vec<(usize, usize, Color)> = Vec::new();
        let mut i: usize = 0;
        while i < self.code.len()
            invariant
                i <= self.code@.len(),
                self.code@.len() == self.width * self.height,
                out@.len() == i,
                forall|k: int|
                    0 <= k < i ==> {
                        &&& (#[trigger] out@[k]).0 == k % (self.width as int)
                        &&& out@[k].1 == k / (self.width as int)
                        &&& out@[k].2 == self.code@[k]
                    },
            decreases self.code.len() - i,
        {
            assert(self.width > 0) by (nonlinear_arith)
                requires
                    i < self.width * self.height,
            ;
            out.push((i % self.width, i / self.width, self.code[i]));
            i += 1;
        }
        out
    }

    /// The colour at column `x`, row `y`, or `None` off the grid.
    pub fn at(&self, x: usize, y: usize) -> (r: Option<Color>)
        ensures
            r == self.color_at((x, y)),
    {
        proof {
            use_type_invariant(self);
        }
        if x >= self.width || y >= self.height {
            return None;
        }
        let len = self.code.len();
        proof {
            lemma_index_in_bounds(x as int, y as int, self.width as int, self.height as int);
        }
        Some(self.code[x + y * self.width])
    }
}

/// A cell's row-major index lies below the grid's size.
pub proof fn lemma_index_in_bounds(x: int, y: int, w: int, h: int)
    requires
        0 <= x < w,
        0 <= y < h,
    ensures
        0 <= y * w <= x + y * w < w * h,
        y * w + w <= w * h,
{
    assert(y * w >= 0) by (nonlinear_arith)
        requires
            y >= 0,
            w > 0,
    ;
    assert((y + 1) * w <= h * w) by (nonlinear_arith)
        requires
            y + 1 <= h,
            w > 0,
    ;
    assert((y + 1) * w == y * w + w) by (nonlinear_arith);
    assert(h * w == w * h) by (nonlinear_arith);
}

/// The key by which a region's codels are ordered for a pointer, so that the
/// codel to leave from has the greatest key: first the coordinate along the
/// direction pointer, then the one across it as the codel chooser asks.
pub open spec fn rank(ip: InstructionPointer, c: Coord) -> (int, int) {
    let x = c.0 as int;
    let y = c.1 as int;
    match ip {
        InstructionPointer(Direction::Right, CodelChoice::Left) => (x, -y),
        InstructionPointer(Direction::Right, CodelChoice::Right) => (x, y),
        InstructionPointer(Direction::Down, CodelChoice::Left) => (y, x),
        InstructionPointer(Direction::Down, CodelChoice::Right) => (y, -x),
        InstructionPointer(Direction::Left, CodelChoice::Left) => (-x, y),
        InstructionPointer(Direction::Left, CodelChoice::Right) => (-x, -y),
        InstructionPointer(Direction::Up, CodelChoice::Left) => (-y, -x),
        InstructionPointer(Direction::Up, CodelChoice::Right) => (-y, x),
    }
}

/// Lexicographic order on pairs.
pub open spec fn lex_le(a: (int, int), b: (int, int)) -> bool {
    a.0 < b.0 || (a.0 == b.0 && a.1 <= b.1)
}

/// Whether `c` is the codel of `cells` that a pointer leaves from: it has the
/// greatest key among them.
pub open spec fn is_exit_codel(cells: Set<Coord>, ip: InstructionPointer, c: Coord) -> bool {
    &&& cells.contains(c)
    &&& forall|d: Coord| #[trigger] cells.contains(d) ==> lex_le(rank(ip, d), rank(ip, c))
}

/// The codel of `cells` that a pointer leaves from.
pub open spec fn exit_codel(cells: Set<Coord>, ip: InstructionPointer) -> Coord {
    choose|c: Coord| is_exit_codel(cells, ip, c)
}

/// At most one codel of a region is the one to leave from.
pub proof fn lemma_exit_codel_unique(cells: Set<Coord>, ip: InstructionPointer, c: Coord, d: Coord)
    requires
        is_exit_codel(cells, ip, c),
        is_exit_codel(cells, ip, d),
    ensures
        c == d,
{
    assert(lex_le(rank(ip, d), rank(ip, c)));
    assert(lex_le(rank(ip, c), rank(ip, d)));
}

/// Where a pointer leaves a region is decided by the codels of the region
/// and the pointer alone: regions of the same codels are left alike.
pub proof fn lemma_exit_determined(a: Set<Coord>, b: Set<Coord>, ip: InstructionPointer)
    requires
        forall|c: Coord| a.contains(c) <==> b.contains(c),
    ensures
        exit_codel(a, ip) == exit_codel(b, ip),
        ip.0.step_from(exit_codel(a, ip)) == ip.0.step_from(exit_codel(b, ip)),
{
    assert(a =~= b);
}

/// Whether codel `a` has a greater key than codel `b` for the pointer `ip`.
fn outranks(ip: InstructionPointer, a: Coord, b: Coord) -> (r: bool)
    ensures
        r == !lex_le(rank(ip, a), rank(ip, b)),
{
    let (ax, ay) = a;
    let (bx, by) = b;
    match ip {
        InstructionPointer(Direction::Right, CodelChoice::Left) => ax > bx || (ax == bx && ay < by),
        InstructionPointer(Direction::Right, CodelChoice::Right) => ax > bx || (ax == bx && ay > by),
        InstructionPointer(Direction::Down, CodelChoice::Left) => ay > by || (ay == by && ax > bx),
        InstructionPointer(Direction::Down, CodelChoice::Right) => ay > by || (ay == by && ax < bx),
        InstructionPointer(Direction::Left, CodelChoice::Left) => ax < bx || (ax == bx && ay > by),
        InstructionPointer(Direction::Left, CodelChoice::Right) => ax < bx || (ax == bx && ay < by),
        InstructionPointer(Direction::Up, CodelChoice::Left) => ay < by || (ay == by && ax < bx),
        InstructionPointer(Direction::Up, CodelChoice::Right) => ay < by || (ay == by && ax > bx),
    }
}

/// A set of codels of one colour.
pub struct CodelRegion {
    color: Color,
    region: Vec<Coord>,
}

impl CodelRegion {
    #[verifier::type_invariant]
    spec fn inv(self) -> bool {
        self.region@.no_duplicates()
    }

    /// The region's codels.
    pub closed spec fn cells(self) -> Set<Coord> {
        self.region@.to_set()
    }

    /// The region's colour.
    pub closed spec fn spec_color(self) -> Color {
        self.color
    }

    /// The region that holds the codels listed in `region`, each once however
    /// often it is listed.
    pub fn new(region: Vec<Coord>, color: Color) -> (r: CodelRegion)
        ensures
            r.cells() == region@.to_set(),
            r.spec_color() == color,
    {
        let mut distinct: Vec<Coord> = Vec::new();
        let mut i: usize = 0;
        while i < region.len()
            invariant
                i <= region.len(),
                distinct@.no_duplicates(),
                distinct@.to_set() =~= region@.take(i as int).to_set(),
            decreases region.len() - i,
        {
            let c = region[i];
            let mut found = false;
            let mut j: usize = 0;
            while j < distinct.len()
                invariant
                    j <= distinct.len(),
                    found == exists|k: int| 0 <= k < j && distinct@[k] == c,
                decreases distinct.len() - j,
            {
                if distinct[j].0 == c.0 && distinct[j].1 == c.1 {
                    found = true;
                }
                j += 1;
            }
            proof {
                let before = region@.take(i as int);
                let after = region@.take(i + 1);
                assert(after =~= before.push(c));
                assert forall|d: Coord| after.to_set().contains(d) <==> (before.to_set().contains(d)
                    || d == c) by {
                    if after.contains(d) {
                        let k = choose|k: int| 0 <= k < after.len() && after[k] == d;
                        if k < before.len() {
                            assert(before[k] == d);
                        }
                    }
                    if before.contains(d) {
                        let k = choose|k: int| 0 <= k < before.len() && before[k] == d;
                        assert(after[k] == d);
                    }
                    if d == c {
                        assert(after[i as int] == d);
                    }
                }
            }
            if !found {
                let ghost prev = distinct@;
                distinct.push(c);
                proof {
                    assert(!prev.contains(c));
                    assert forall|d: Coord| distinct@.to_set().contains(d) <==> (prev.to_set().contains(
                        d,
                    ) || d == c) by {
                        if distinct@.contains(d) {
                            let k = choose|k: int| 0 <= k < distinct@.len() && distinct@[k] == d;
                            if k < prev.len() {
                                assert(prev[k] == d);
                            }
                        }
                        if prev.contains(d) {
                            let k = choose|k: int| 0 <= k < prev.len() && prev[k] == d;
                            assert(distinct@[k] == d);
                        }
                        if d == c {
                            assert(distinct@[prev.len() as int] == d);
                        }
                    }
                }
            } else {
                proof {
                    let k = choose|k: int| 0 <= k < distinct@.len() && distinct@[k] == c;
                    assert(distinct@.contains(c));
                }
            }
            i += 1;
        }
        proof {
            assert(region@.take(region.len() as int) =~= region@);
        }
        CodelRegion { color, region: distinct }
    }

    /// The region's colour.
    pub fn color(&self) -> (r: Color)
        ensures
            r == self.spec_color(),
    {
        self.color
    }

    /// The number of codels in the region: what a `Push` from it pushes.
    pub fn value(&self) -> (r: BigInt)
        ensures
            big_value(r) == self.cells().len(),
            self.cells().finite(),
    {
        proof {
            use_type_invariant(self);
            self.region@.unique_seq_to_set();
        }
        big_from_usize(self.region.len())
    }

    /// Whether the codel at column `x`, row `y` belongs to the region.
    pub fn contains(&self, x: usize, y: usize) -> (r: bool)
        ensures
            r == self.cells().contains((x, y)),
    {
        let mut j: usize = 0;
        while j < self.region.len()
            invariant
                j <= self.region.len(),
                forall|k: int| 0 <= k < j ==> self.region@[k] != (x, y),
            decreases self.region.len() - j,
        {
            if self.region[j].0 == x && self.region[j].1 == y {
                assert(self.region@.contains((x, y)));
                return true;
            }
            j += 1;
        }
        false
    }

    /// The coordinate one step past the codel that the pointer `ip` leaves
    /// the region from. The region must not be empty.
    pub fn exit_to(&self, ip: InstructionPointer) -> (r: Coord)
        requires
            self.cells().len() > 0,
        ensures
            is_exit_codel(self.cells(), ip, exit_codel(self.cells(), ip)),
            r == ip.0.step_from(exit_codel(self.cells(), ip)),
    {
        proof {
            use_type_invariant(self);
            self.region@.unique_seq_to_set();
        }
        let mut best: Coord = self.region[0];
        let mut i: usize = 1;
        while i < self.region.len()
            invariant
                1 <= i <= self.region.len(),
                exists|k: int| 0 <= k < i && self.region@[k] == best,
                forall|k: int| 0 <= k < i ==> lex_le(rank(ip, #[trigger] self.region@[k]), rank(ip, best)),
            decreases self.region.len() - i,
        {
            if outranks(ip, self.region[i], best) {
                best = self.region[i];
            }
            i += 1;
        }
        proof {
            assert(self.region@.contains(best));
            assert forall|d: Coord| #[trigger] self.cells().contains(d) implies lex_le(
                rank(ip, d),
                rank(ip, best),
            ) by {
                let k = choose|k: int| 0 <= k < self.region@.len() && self.region@[k] == d;
                assert(lex_le(rank(ip, self.region@[k]), rank(ip, best)));
            }
            assert(is_exit_codel(self.cells(), ip, best));
            lemma_exit_codel_unique(self.cells(), ip, best, exit_codel(self.cells(), ip));
        }
        ip.0.step(best)
    }
}

/// Whether `a` and `b` are neighbours along a row or a column.
pub open spec fn adjacent(a: Coord, b: Coord) -> bool {
    ||| (a.0 == b.0 && (a.1 + 1 == b.1 || b.1 + 1 == a.1))
    ||| (a.1 == b.1 && (a.0 + 1 == b.0 || b.0 + 1 == a.0))
}

/// The four directions in the order in which a region is explored.
pub open spec fn nth_direction(k: int) -> Direction {
    if k == 0 {
        Direction::Down
    } else if k == 1 {
        Direction::Right
    } else if k == 2 {
        Direction::Up
    } else {
        Direction::Left
    }
}

impl PietCode {
    /// Whether `p` is a walk over codels of the colour `color`, each step to a
    /// neighbour along a row or a column.
    pub open spec fn is_path(self, p: Seq<Coord>, color: Color) -> bool {
        &&& p.len() > 0
        &&& forall|i: int| 0 <= i < p.len() ==> self.color_at(#[trigger] p[i]) == Some(color)
        &&& forall|i: int| 0 <= i < p.len() - 1 ==> adjacent(#[trigger] p[i], p[i + 1])
    }

    /// Whether `b` can be reached from `a` over codels of the colour of `a`.
    pub open spec fn connected(self, a: Coord, b: Coord) -> bool {
        &&& self.contains(a)
        &&& exists|p: Seq<Coord>|
            #[trigger] self.is_path(p, self.color_at(a).unwrap()) && p[0] == a && p.last() == b
    }

    /// The region of the codel at `a`: every codel that can be reached from
    /// it over codels of its colour.
    pub open spec fn region_cells(self, a: Coord) -> Set<Coord> {
        Set::new(|b: Coord| self.connected(a, b))
    }

    /// The row-major index of a codel.
    pub open spec fn index_of(self, c: Coord) -> int {
        c.0 + c.1 * self.spec_width()
    }

    /// Whether the codel `d` needs no more attention while a region of colour
    /// `color` is explored: it is marked, or not of that colour.
    spec fn settled(self, seen: Seq<bool>, color: Color, d: Coord) -> bool {
        self.color_at(d) == Some(color) ==> seen[self.index_of(d)]
    }

    /// Every listed codel has the colour, is marked, and can be reached.
    spec fn listed_reached(self, seen: Seq<bool>, list: Seq<Coord>, start: Coord, color: Color) -> bool {
        forall|i: int|
            0 <= i < list.len() ==> {
                &&& self.color_at(#[trigger] list[i]) == Some(color)
                &&& seen[self.index_of(list[i])]
                &&& self.connected(start, list[i])
            }
    }

    /// Every marked codel is listed.
    spec fn marked_listed(self, seen: Seq<bool>, list: Seq<Coord>) -> bool {
        forall|c: Coord| self.contains(c) && seen[#[trigger] self.index_of(c)] ==> list.contains(c)
    }

    /// The neighbours of the first `head` listed codels need no more
    /// attention.
    spec fn done_to(self, seen: Seq<bool>, list: Seq<Coord>, head: int, color: Color) -> bool {
        forall|i: int, k: int|
            0 <= i < head && 0 <= k < 4 ==> self.settled(
                seen,
                color,
                #[trigger] nth_direction(k).step_from(list[i]),
            )
    }

    /// What holds of the marks and the list of found codels while the region
    /// of `start` is explored, the first `head` of the list being done.
    #[verifier::opaque]
    spec fn exploring(
        self,
        seen: Seq<bool>,
        list: Seq<Coord>,
        head: int,
        start: Coord,
        color: Color,
    ) -> bool {
        &&& seen.len() == self.spec_width() * self.spec_height()
        &&& 0 <= head <= list.len()
        &&& list.len() > 0
        &&& list[0] == start
        &&& list.no_duplicates()
        &&& self.listed_reached(seen, list, start, color)
        &&& self.marked_listed(seen, list)
        &&& self.done_to(seen, list, head, color)
    }

    /// The region of the codel at column `x`, row `y`: the codels that can be
    /// reached from it over codels of its colour. `None` off the grid.
    pub fn region_at(&self, x: usize, y: usize) -> (r: Option<CodelRegion>)
        ensures
            r.is_some() == self.contains((x, y)),
            r.is_some() ==> {
                &&& r.unwrap().spec_color() == self.color_at((x, y)).unwrap()
                &&& r.unwrap().cells().finite()
                &&& r.unwrap().cells().len() > 0
                &&& r.unwrap().cells() == self.region_cells((x, y))
            },
    {
        let color = match self.at(x, y) {
            None => {
                return None;
            },
            Some(c) => c,
        };
        proof {
            use_type_invariant(self);
            lemma_index_in_bounds(x as int, y as int, self.width as int, self.height as int);
        }
        let n = self.code.len();
        let mut seen: Vec<bool> = Vec::new();
        while seen.len() < n
            invariant
                seen.len() <= n,
                forall|i: int| 0 <= i < seen.len() ==> !seen@[i],
            decreases n - seen.len(),
        {
            seen.push(false);
        }
        let mut list: Vec<Coord> = Vec::new();
        let ghost seen0 = seen@;
        seen.set(x + y * self.width, true);
        list.push((x, y));
        let mut head: usize = 0;
        proof {
            assert(list@ =~= seq![(x, y)]);
            self.lemma_explore_start(seen0, (x, y), color);
        }
        while head < list.len()
            invariant
                self.exploring(seen@, list@, head as int, (x, y), color),
                seen.len() == n,
                n == self.spec_width() * self.spec_height(),
                self.spec_width() == self.width,
                self.spec_height() == self.height,
                list.len() <= n,
            decreases n - head,
        {
            let cur = list[head];
            let mut k: usize = 0;
            while k < 4
                invariant
                    k <= 4,
                    head < list.len(),
                    cur == list@[head as int],
                    self.exploring(seen@, list@, head as int, (x, y), color),
                    seen.len() == n,
                    n == self.spec_width() * self.spec_height(),
                    self.spec_width() == self.width,
                    self.spec_height() == self.height,
                    list.len() <= n,
                    forall|j: int|
                        0 <= j < k ==> self.settled(
                            seen@,
                            color,
                            #[trigger] nth_direction(j).step_from(cur),
                        ),
                decreases 4 - k,
            {
                let dir = if k == 0 {
                    Direction::Down
                } else if k == 1 {
                    Direction::Right
                } else if k == 2 {
                    Direction::Up
                } else {
                    Direction::Left
                };
                assert(dir == nth_direction(k as int));
                let next = dir.step(cur);
                let same = match self.at(next.0, next.1) {
                    Some(c) => c == color,
                    None => false,
                };
                if same {
                    proof {
                        lemma_index_in_bounds(
                            next.0 as int,
                            next.1 as int,
                            self.width as int,
                            self.height as int,
                        );
                    }
                    let idx = next.0 + next.1 * self.width;
                    if !seen[idx] {
                        let ghost seen1 = seen@;
                        let ghost list1 = list@;
                        seen.set(idx, true);
                        list.push(next);
                        proof {
                            self.lemma_explore_step(seen1, list1, head as int, (x, y), color, dir, next);
                            assert forall|j: int| 0 <= j < k implies self.settled(
                                seen@,
                                color,
                                #[trigger] nth_direction(j).step_from(cur),
                            ) by {
                                self.lemma_settled_kept(
                                    seen1,
                                    self.index_of(next),
                                    color,
                                    nth_direction(j).step_from(cur),
                                );
                            }
                            self.lemma_explore_bounded(seen@, list@, head as int, (x, y), color);
                        }
                    }
                }
                assert(self.settled(seen@, color, nth_direction(k as int).step_from(cur)));
                k += 1;
            }
            proof {
                self.lemma_explore_advance(seen@, list@, head as int, (x, y), color);
            }
            head += 1;
        }
        proof {
            reveal(PietCode::exploring);
            assert forall|c: Coord| list@.to_set().contains(c) <==> self.connected((x, y), c) by {
                if list@.contains(c) {
                    let i = choose|i: int| 0 <= i < list@.len() && list@[i] == c;
                    assert(self.connected((x, y), list@[i]));
                }
                if self.connected((x, y), c) {
                    let p = choose|p: Seq<Coord>|
                        #[trigger] self.is_path(p, color) && p[0] == (x, y) && p.last() == c;
                    self.lemma_explored_holds_path(seen@, list@, (x, y), color, p, p.len() - 1);
                }
            }
        }
        let region = CodelRegion { color, region: list };
        proof {
            assert(region.cells() =~= self.region_cells((x, y)));
            list@.unique_seq_to_set();
        }
        Some(region)
    }

    /// The index of a codel on the grid lies below the grid's size.
    pub proof fn lemma_index_of_bounds(self, c: Coord)
        requires
            self.contains(c),
        ensures
            0 <= self.index_of(c) < self.spec_width() * self.spec_height(),
    {
        lemma_index_in_bounds(
            c.0 as int,
            c.1 as int,
            self.spec_width() as int,
            self.spec_height() as int,
        );
    }

    /// Codels on the grid with the same index are the same codel.
    pub proof fn lemma_index_injective(self, a: Coord, b: Coord)
        requires
            self.contains(a),
            self.contains(b),
            self.index_of(a) == self.index_of(b),
        ensures
            a == b,
    {
        let w = self.spec_width() as int;
        let (ax, ay, bx, by) = (a.0 as int, a.1 as int, b.0 as int, b.1 as int);
        assert(ay == by) by (nonlinear_arith)
            requires
                0 <= ax < w,
                0 <= bx < w,
                0 <= ay,
                0 <= by,
                ax + ay * w == bx + by * w,
        ;
    }

    /// One more mark leaves a settled codel settled.
    proof fn lemma_settled_kept(self, seen: Seq<bool>, idx: int, color: Color, d: Coord)
        requires
            seen.len() == self.spec_width() * self.spec_height(),
            0 <= idx < seen.len(),
            self.settled(seen, color, d),
        ensures
            self.settled(seen.update(idx, true), color, d),
    {
        if self.color_at(d) == Some(color) {
            self.lemma_index_of_bounds(d);
        }
    }

    /// With only the start marked and listed, the exploration is under way.
    proof fn lemma_explore_start(self, blank: Seq<bool>, start: Coord, color: Color)
        requires
            self.color_at(start) == Some(color),
            blank.len() == self.spec_width() * self.spec_height(),
            forall|i: int| 0 <= i < blank.len() ==> !blank[i],
        ensures
            self.exploring(blank.update(self.index_of(start), true), seq![start], 0, start, color),
    {
        reveal(PietCode::exploring);
        let seen = blank.update(self.index_of(start), true);
        let list = seq![start];
        self.lemma_index_of_bounds(start);
        let p = seq![start];
        assert(p.len() == 1 && p[0] == start);
        assert(self.is_path(p, self.color_at(start).unwrap()));
        assert(p.last() == start);
        assert(self.connected(start, start));
        assert(self.listed_reached(seen, list, start, color));
        assert forall|c: Coord|
            self.contains(c) && seen[#[trigger] self.index_of(c)] implies list.contains(c) by {
            self.lemma_index_of_bounds(c);
            self.lemma_index_injective(c, start);
            assert(list[0] == c);
        }
    }

    /// While a region is explored, the list is no longer than the grid.
    proof fn lemma_explore_bounded(
        self,
        seen: Seq<bool>,
        list: Seq<Coord>,
        head: int,
        start: Coord,
        color: Color,
    )
        requires
            self.exploring(seen, list, head, start, color),
        ensures
            list.len() <= self.spec_width() * self.spec_height(),
    {
        reveal(PietCode::exploring);
        assert forall|i: int| 0 <= i < list.len() implies (#[trigger] list[i]).0 < self.spec_width()
            && list[i].1 < self.spec_height() by {
            assert(self.color_at(list[i]) == Some(color));
        }
        lemma_distinct_cells_bounded(list, self.spec_width(), self.spec_height());
    }

    /// Once the four neighbours of the codel in hand are settled, the codel
    /// is done.
    proof fn lemma_explore_advance(
        self,
        seen: Seq<bool>,
        list: Seq<Coord>,
        head: int,
        start: Coord,
        color: Color,
    )
        requires
            self.exploring(seen, list, head, start, color),
            head < list.len(),
            forall|j: int|
                0 <= j < 4 ==> self.settled(
                    seen,
                    color,
                    #[trigger] nth_direction(j).step_from(list[head]),
                ),
        ensures
            self.exploring(seen, list, head + 1, start, color),
    {
        reveal(PietCode::exploring);
        assert forall|i: int, k: int| 0 <= i < head + 1 && 0 <= k < 4 implies self.settled(
            seen,
            color,
            #[trigger] nth_direction(k).step_from(list[i]),
        ) by {}
    }

    /// A step to a neighbour that lands on the grid is a step to an adjacent
    /// codel.
    proof fn lemma_step_adjacent(self, dir: Direction, a: Coord)
        requires
            self.contains(a),
            self.contains(dir.step_from(a)),
        ensures
            adjacent(a, dir.step_from(a)),
    {
    }

    /// A walk can be extended by a neighbour of the same colour.
    proof fn lemma_connected_extend(self, start: Coord, a: Coord, b: Coord)
        requires
            self.connected(start, a),
            adjacent(a, b),
            self.color_at(b) == self.color_at(start),
        ensures
            self.connected(start, b),
    {
        let color = self.color_at(start).unwrap();
        let p = choose|p: Seq<Coord>|
            #[trigger] self.is_path(p, color) && p[0] == start && p.last() == a;
        let q = p.push(b);
        assert forall|i: int| 0 <= i < q.len() implies self.color_at(#[trigger] q[i]) == Some(
            color,
        ) by {
            if i < p.len() {
                assert(q[i] == p[i]);
            }
        }
        assert forall|i: int| 0 <= i < q.len() - 1 implies adjacent(#[trigger] q[i], q[i + 1]) by {
            if i < p.len() - 1 {
                assert(q[i] == p[i]);
                assert(q[i + 1] == p[i + 1]);
            }
        }
        assert(self.is_path(q, color) && q[0] == start && q.last() == b);
    }

    /// Marking and listing a codel of the region's colour that neighbours the
    /// codel in hand keeps what holds while the region is explored.
    proof fn lemma_explore_step(
        self,
        seen: Seq<bool>,
        list: Seq<Coord>,
        head: int,
        start: Coord,
        color: Color,
        dir: Direction,
        next: Coord,
    )
        requires
            self.exploring(seen, list, head, start, color),
            0 <= head < list.len(),
            next == dir.step_from(list[head]),
            self.color_at(next) == Some(color),
            !seen[self.index_of(next)],
        ensures
            self.exploring(
                seen.update(self.index_of(next), true),
                list.push(next),
                head,
                start,
                color,
            ),
    {
        reveal(PietCode::exploring);
        let idx = self.index_of(next);
        let seen1 = seen.update(idx, true);
        let list1 = list.push(next);
        let cur = list[head];
        self.lemma_index_of_bounds(next);
        assert(self.color_at(cur) == Some(color));
        assert(self.color_at(list[0]) == Some(color));
        self.lemma_step_adjacent(dir, cur);
        assert(self.connected(start, list[head]));
        self.lemma_connected_extend(start, cur, next);
        assert(list1.no_duplicates()) by {
            assert forall|i: int| 0 <= i < list.len() implies list[i] != next by {
                assert(seen[self.index_of(list[i])]);
            }
        }
        assert(self.listed_reached(seen1, list1, start, color)) by {
            assert forall|i: int| 0 <= i < list1.len() implies {
                &&& self.color_at(#[trigger] list1[i]) == Some(color)
                &&& seen1[self.index_of(list1[i])]
                &&& self.connected(start, list1[i])
            } by {
                if i < list.len() {
                    assert(list1[i] == list[i]);
                    self.lemma_index_of_bounds(list[i]);
                }
            }
        }
        assert(self.marked_listed(seen1, list1)) by {
            assert forall|c: Coord|
                self.contains(c) && seen1[#[trigger] self.index_of(c)] implies list1.contains(c) by {
                self.lemma_index_of_bounds(c);
                if self.index_of(c) == idx {
                    self.lemma_index_injective(c, next);
                    assert(list1[list.len() as int] == c);
                } else {
                    assert(list.contains(c));
                    let i = choose|i: int| 0 <= i < list.len() && list[i] == c;
                    assert(list1[i] == c);
                }
            }
        }
        assert(self.done_to(seen1, list1, head, color)) by {
            assert forall|i: int, k: int| 0 <= i < head && 0 <= k < 4 implies self.settled(
                seen1,
                color,
                #[trigger] nth_direction(k).step_from(list1[i]),
            ) by {
                assert(list1[i] == list[i]);
                assert(self.settled(seen, color, nth_direction(k).step_from(list[i])));
                self.lemma_settled_kept(seen, idx, color, nth_direction(k).step_from(list[i]));
            }
        }
    }

    /// Once every listed codel is done, the list holds each codel of a walk
    /// that starts at the first of them.
    proof fn lemma_explored_holds_path(
        self,
        seen: Seq<bool>,
        list: Seq<Coord>,
        start: Coord,
        color: Color,
        p: Seq<Coord>,
        j: int,
    )
        requires
            self.exploring(seen, list, list.len() as int, start, color),
            self.is_path(p, color),
            p[0] == start,
            0 <= j < p.len(),
        ensures
            list.contains(p[j]),
        decreases j,
    {
        reveal(PietCode::exploring);
        if j == 0 {
            assert(list[0] == p[0]);
        } else {
            self.lemma_explored_holds_path(seen, list, start, color, p, j - 1);
            let a = p[j - 1];
            let b = p[j];
            let i = choose|i: int| 0 <= i < list.len() && list[i] == a;
            assert(adjacent(a, b));
            assert(self.color_at(a) == Some(color));
            assert(self.color_at(b) == Some(color));
            let k: int = if b.1 == a.1 + 1 {
                0
            } else if b.0 == a.0 + 1 {
                1
            } else if a.1 == b.1 + 1 {
                2
            } else {
                3
            };
            assert(nth_direction(k).step_from(a) == b);
            assert(self.settled(seen, color, nth_direction(k).step_from(list[i])));
            assert(seen[self.index_of(b)]);
        }
    }
}

/// Distinct codels on a grid are no more than the grid has.
pub proof fn lemma_distinct_cells_bounded(cells: Seq<Coord>, w: nat, h: nat)
    requires
        cells.no_duplicates(),
        forall|i: int| 0 <= i < cells.len() ==> (#[trigger] cells[i]).0 < w && cells[i].1 < h,
    ensures
        cells.len() <= w * h,
{
    let idxs = Seq::new(cells.len(), |i: int| cells[i].0 + cells[i].1 * w);
    assert forall|i: int, j: int| 0 <= i < idxs.len() && 0 <= j < idxs.len() && i != j implies idxs[i]
        != idxs[j] by {
        let (ax, ay, bx, by) = (
            cells[i].0 as int,
            cells[i].1 as int,
            cells[j].0 as int,
            cells[j].1 as int,
        );
        if idxs[i] == idxs[j] {
            assert(ay == by) by (nonlinear_arith)
                requires
                    0 <= ax < w,
                    0 <= bx < w,
                    0 <= ay,
                    0 <= by,
                    ax + ay * w == bx + by * w,
            ;
            assert(cells[i] == cells[j]);
        }
    }
    idxs.unique_seq_to_set();
    let all = vstd::set_lib::set_int_range(0, (w * h) as int);
    vstd::set_lib::lemma_int_range(0, (w * h) as int);
    assert(idxs.to_set().subset_of(all)) by {
        assert forall|v: int| idxs.to_set().contains(v) implies all.contains(v) by {
            let i = choose|i: int| 0 <= i < idxs.len() && idxs[i] == v;
            lemma_index_in_bounds(cells[i].0 as int, cells[i].1 as int, w as int, h as int);
        }
    }
    vstd::set_lib::lemma_len_subset(idxs.to_set(), all);
}

} // verus!
