//! How the machine moves over the grid: out of a coloured region by probing
//! its exits, and across white codels by sliding.

use crate::bigint::big_value;
use crate::color::Color;
use crate::grid::{exit_codel, CodelRegion, PietCode};
use crate::pointer::{Coord, Direction, InstructionPointer};
use crate::vm::{ran, Action, ExecutionError, PietVM};
use vstd::prelude::*;

verus! {

/// The pointer at the `k`-th probe of a region's exits: the codel chooser is
/// flipped before every odd probe, the direction turned before every even
/// one after the first.
pub open spec fn probe_pointer(ip: InstructionPointer, k: nat) -> InstructionPointer
    decreases k,
{
    if k == 0 {
        ip
    } else {
        let before = probe_pointer(ip, (k - 1) as nat);
        if k % 2 == 1 {
            InstructionPointer(before.0, before.1.flipped())
        } else {
            InstructionPointer(before.0.turned(), before.1)
        }
    }
}

/// Whether the machine can step onto `c`: it lies on the grid and is white or
/// of a program colour.
pub open spec fn passable(code: PietCode, c: Coord) -> bool {
    code.color_at(c) is Some && (code.color_at(c).unwrap() is Color || code.color_at(c).unwrap()
        is White)
}

/// Where the `k`-th probe of a region leads.
pub open spec fn probe_target(cells: Set<Coord>, ip: InstructionPointer, k: nat) -> Coord {
    let at = probe_pointer(ip, k);
    at.0.step_from(exit_codel(cells, at))
}

/// Whether the `k`-th probe of a region is the first that leads to a passable
/// codel, that codel being `coord` and the pointer then `ip_after`.
pub open spec fn left_at_probe(
    code: PietCode,
    cells: Set<Coord>,
    ip: InstructionPointer,
    k: nat,
    ip_after: InstructionPointer,
    coord: Coord,
) -> bool {
    &&& k < 8
    &&& forall|j: nat| j < k ==> !passable(code, #[trigger] probe_target(cells, ip, j))
    &&& passable(code, probe_target(cells, ip, k))
    &&& ip_after == probe_pointer(ip, k)
    &&& coord == probe_target(cells, ip, k)
}

/// Whether `region` is the region of the codel at `pos`.
#[verifier::opaque]
spec fn is_region_at(code: PietCode, region: CodelRegion, pos: Coord) -> bool {
    &&& code.contains(pos)
    &&& region.spec_color() == code.color_at(pos).unwrap()
    &&& region.cells() == code.region_cells(pos)
    &&& region.cells().finite()
}

/// After eight failed probes the pointer is back where it started.
pub proof fn lemma_eight_probes(ip: InstructionPointer)
    ensures
        probe_pointer(ip, 8) == ip,
{
    reveal_with_fuel(probe_pointer, 9);
}

impl PietVM {
    /// Looks for a way out of the region at the machine's position, which
    /// must lie on the grid: up to eight probes, starting with the pointer as
    /// it is. The first probe that leads to a passable codel is taken: the
    /// pointer stays as it was for that probe, and the region, the codel and
    /// its colour are returned. With no way out the pointer is as it was
    /// before, and `None` is returned. The position does not change.
    pub fn walk_color(&mut self, code: &PietCode) -> (r: Option<(CodelRegion, Coord, Color)>)
        requires
            code.contains(old(self).pos),
        ensures
            final(self).pos == old(self).pos,
            final(self).stack@ == old(self).stack@,
            match r {
                Some((region, coord, color)) => {
                    &&& region.spec_color() == code.color_at(old(self).pos).unwrap()
                    &&& region.cells() == code.region_cells(old(self).pos)
                    &&& region.cells().finite()
                    &&& exists|k: nat|
                        left_at_probe(
                            *code,
                            region.cells(),
                            old(self).instruction_pointer,
                            k,
                            final(self).instruction_pointer,
                            coord,
                        )
                    &&& code.color_at(coord) == Some(color)
                    &&& (color is Color || color is White)
                },
                None => {
                    &&& final(self).instruction_pointer == old(self).instruction_pointer
                    &&& forall|j: nat|
                        j < 8 ==> !passable(
                            *code,
                            #[trigger] probe_target(
                                code.region_cells(old(self).pos),
                                old(self).instruction_pointer,
                                j,
                            ),
                        )
                },
            },
    {
        let (x, y) = self.pos;
        let region = code.region_at(x, y).unwrap();
        let ghost start = self.instruction_pointer;
        let ghost cells = region.cells();
        assert(is_region_at(*code, region, self.pos)) by {
            reveal(is_region_at);
        }
        let mut k: usize = 0;
        while k < 8
            invariant
                k <= 8,
                cells == region.cells(),
                cells.len() > 0,
                is_region_at(*code, region, old(self).pos),
                self.pos == old(self).pos,
                self.stack@ == old(self).stack@,
                start == old(self).instruction_pointer,
                self.instruction_pointer == probe_pointer(start, k as nat),
                forall|j: nat| j < k ==> !passable(*code, #[trigger] probe_target(cells, start, j)),
            decreases 8 - k,
        {
            let coord = region.exit_to(self.instruction_pointer);
            assert(coord == probe_target(cells, start, k as nat));
            let found = match code.at(coord.0, coord.1) {
                Some(Color::Color(h, l)) => Some(Color::Color(h, l)),
                Some(Color::White) => Some(Color::White),
                _ => None,
            };
            if let Some(color) = found {
                proof {
                    reveal(is_region_at);
                    assert(left_at_probe(
                        *code,
                        cells,
                        start,
                        k as nat,
                        self.instruction_pointer,
                        coord,
                    ));
                }
                return Some((region, coord, color));
            }
            if k % 2 == 0 {
                self.instruction_pointer.flip();
            } else {
                self.instruction_pointer.rotate();
            }
            k += 1;
        }
        proof {
            reveal(is_region_at);
            lemma_eight_probes(start);
        }
        None
    }
}

/// How far a slide from `pos` in the direction `dir` can still go before it
/// leaves the grid.
pub open spec fn slide_room(code: PietCode, pos: Coord, dir: Direction) -> int {
    match dir {
        Direction::Right => code.spec_width() - pos.0,
        Direction::Down => code.spec_height() - pos.1,
        Direction::Left => pos.0 + 1,
        Direction::Up => pos.1 + 1,
    }
}

/// The codel at which a slide from `pos` in the direction `dir` comes to
/// rest: the last of the white codels that lie ahead in a row.
pub open spec fn slide_end(code: PietCode, pos: Coord, dir: Direction) -> Coord
    decreases slide_room(code, pos, dir),
    via slide_end_decreases
{
    if code.contains(pos) && code.color_at(dir.step_from(pos)) == Some(Color::White) {
        slide_end(code, dir.step_from(pos), dir)
    } else {
        pos
    }
}

#[via_fn]
proof fn slide_end_decreases(code: PietCode, pos: Coord, dir: Direction) {
    code.lemma_sides_bounded();
}

/// The codel that a slide from `pos` in the direction `dir` runs into.
pub open spec fn slide_hit(code: PietCode, pos: Coord, dir: Direction) -> Coord {
    dir.step_from(slide_end(code, pos, dir))
}

/// The pointer after a blocked slide: turned and flipped.
pub open spec fn turned_about(ip: InstructionPointer) -> InstructionPointer {
    InstructionPointer(ip.0.turned(), ip.1.flipped())
}

/// The position and the pointer with which the `n`-th slide starts, the first
/// from `pos` with `ip`: each blocked slide leaves the machine where it came
/// to rest, with the pointer turned about.
pub open spec fn slide_start(code: PietCode, pos: Coord, ip: InstructionPointer, n: nat) -> (
    Coord,
    InstructionPointer,
)
    decreases n,
{
    if n == 0 {
        (pos, ip)
    } else {
        let before = slide_start(code, pos, ip, (n - 1) as nat);
        (slide_end(code, before.0, before.1.0), turned_about(before.1))
    }
}

/// Whether the `n`-th slide runs into a codel of a program colour.
pub open spec fn slides_out(code: PietCode, pos: Coord, ip: InstructionPointer, n: nat) -> bool {
    let from = slide_start(code, pos, ip, n);
    code.color_at(slide_hit(code, from.0, from.1.0)) is Some && code.color_at(
        slide_hit(code, from.0, from.1.0),
    ).unwrap() is Color
}

/// Whether the `n`-th slide is the first to run into a codel of a program
/// colour, that codel being `coord`, with the machine then at rest at
/// `pos_after` with the pointer `ip_after`.
pub open spec fn left_at_slide(
    code: PietCode,
    pos: Coord,
    ip: InstructionPointer,
    n: nat,
    pos_after: Coord,
    ip_after: InstructionPointer,
    coord: Coord,
) -> bool {
    let from = slide_start(code, pos, ip, n);
    &&& n < 4 * code.spec_width() * code.spec_height()
    &&& forall|m: nat| m < n ==> !#[trigger] slides_out(code, pos, ip, m)
    &&& slides_out(code, pos, ip, n)
    &&& ip_after == from.1
    &&& pos_after == slide_end(code, from.0, from.1.0)
    &&& coord == slide_hit(code, from.0, from.1.0)
}

/// Whether the machine came to a halt before its `n`-th slide, at `pos_after`
/// with the pointer `ip_after`, having been there with that pointer before.
pub open spec fn halted_at_slide(
    code: PietCode,
    pos: Coord,
    ip: InstructionPointer,
    n: nat,
    pos_after: Coord,
    ip_after: InstructionPointer,
) -> bool {
    &&& n <= 4 * code.spec_width() * code.spec_height()
    &&& (pos_after, ip_after) == slide_start(code, pos, ip, n)
    &&& exists|m: nat| m < n && #[trigger] slide_start(code, pos, ip, m) == (pos_after, ip_after)
}

/// A slide from the grid comes to rest on the grid.
pub proof fn lemma_slide_end_on_grid(code: PietCode, pos: Coord, dir: Direction)
    requires
        code.contains(pos),
    ensures
        code.contains(slide_end(code, pos, dir)),
    decreases slide_room(code, pos, dir),
{
    code.lemma_sides_bounded();
    if code.color_at(dir.step_from(pos)) == Some(Color::White) {
        lemma_slide_end_on_grid(code, dir.step_from(pos), dir);
    }
}

/// Every slide starts on the grid when the first does.
pub proof fn lemma_slide_start_on_grid(code: PietCode, pos: Coord, ip: InstructionPointer, n: nat)
    requires
        code.contains(pos),
    ensures
        code.contains(slide_start(code, pos, ip, n).0),
    decreases n,
{
    if n > 0 {
        lemma_slide_start_on_grid(code, pos, ip, (n - 1) as nat);
        let before = slide_start(code, pos, ip, (n - 1) as nat);
        lemma_slide_end_on_grid(code, before.0, before.1.0);
    }
}

/// Slides that start alike go on alike.
pub proof fn lemma_slides_repeat(
    code: PietCode,
    pos: Coord,
    ip: InstructionPointer,
    m: nat,
    n: nat,
    d: nat,
)
    requires
        slide_start(code, pos, ip, m) == slide_start(code, pos, ip, n),
    ensures
        slide_start(code, pos, ip, m + d) == slide_start(code, pos, ip, n + d),
    decreases d,
{
    if d > 0 {
        lemma_slides_repeat(code, pos, ip, m, n, (d - 1) as nat);
        assert(m + d - 1 == m + (d - 1) as nat);
        assert(n + d - 1 == n + (d - 1) as nat);
    }
}

/// Once a slide starts as an earlier one did, and none before it ran into a
/// program colour, none ever will.
pub proof fn lemma_cycle_never_leaves(
    code: PietCode,
    pos: Coord,
    ip: InstructionPointer,
    m: nat,
    n: nat,
    t: nat,
)
    requires
        m < n,
        slide_start(code, pos, ip, m) == slide_start(code, pos, ip, n),
        forall|j: nat| j < n ==> !#[trigger] slides_out(code, pos, ip, j),
    ensures
        !slides_out(code, pos, ip, t),
    decreases t,
{
    if t >= n {
        let d = (t - n) as nat;
        lemma_slides_repeat(code, pos, ip, m, n, d);
        assert(n + d == t);
        lemma_cycle_never_leaves(code, pos, ip, m, n, m + d);
    }
}

/// The pointer with which a slide starts depends only on its number modulo
/// four.
pub proof fn lemma_pointer_period(code: PietCode, pos: Coord, ip: InstructionPointer, n: nat)
    ensures
        slide_start(code, pos, ip, n).1 == slide_start(code, pos, ip, n % 4).1,
    decreases n,
{
    if n >= 4 {
        lemma_pointer_period(code, pos, ip, (n - 4) as nat);
        let a = slide_start(code, pos, ip, (n - 4) as nat).1;
        let b = slide_start(code, pos, ip, (n - 3) as nat).1;
        let c = slide_start(code, pos, ip, (n - 2) as nat).1;
        let d = slide_start(code, pos, ip, (n - 1) as nat).1;
        assert(b == turned_about(a));
        assert(c == turned_about(b));
        assert(d == turned_about(c));
        assert(slide_start(code, pos, ip, n).1 == turned_about(d));
        assert((n - 4) % 4 == n % 4);
    }
}

/// Slides that all start differently are at most four for each codel of the
/// grid.
pub proof fn lemma_slides_bounded(code: PietCode, pos: Coord, ip: InstructionPointer, k: nat)
    requires
        code.contains(pos),
        forall|i: nat, j: nat|
            i < j < k ==> slide_start(code, pos, ip, i) != slide_start(code, pos, ip, j),
    ensures
        k <= 4 * code.spec_width() * code.spec_height(),
{
    let size: int = (code.spec_width() * code.spec_height()) as int;
    let codes = Seq::new(
        k,
        |m: int| code.index_of(slide_start(code, pos, ip, m as nat).0) * 4 + m % 4,
    );
    assert forall|i: int, j: int| 0 <= i < codes.len() && 0 <= j < codes.len() && i != j implies codes[i]
        != codes[j] by {
        let a = slide_start(code, pos, ip, i as nat);
        let b = slide_start(code, pos, ip, j as nat);
        if codes[i] == codes[j] {
            assert(i % 4 == j % 4 && code.index_of(a.0) == code.index_of(b.0));
            lemma_slide_start_on_grid(code, pos, ip, i as nat);
            lemma_slide_start_on_grid(code, pos, ip, j as nat);
            code.lemma_index_injective(a.0, b.0);
            lemma_pointer_period(code, pos, ip, i as nat);
            lemma_pointer_period(code, pos, ip, j as nat);
            assert(a == b);
            if i < j {
                assert(slide_start(code, pos, ip, i as nat) != slide_start(code, pos, ip, j as nat));
            } else {
                assert(slide_start(code, pos, ip, j as nat) != slide_start(code, pos, ip, i as nat));
            }
        }
    }
    codes.unique_seq_to_set();
    let all = vstd::set_lib::set_int_range(0, 4 * size);
    vstd::set_lib::lemma_int_range(0, 4 * size);
    assert(codes.to_set().subset_of(all)) by {
        assert forall|v: int| codes.to_set().contains(v) implies all.contains(v) by {
            let m = choose|m: int| 0 <= m < codes.len() && codes[m] == v;
            lemma_slide_start_on_grid(code, pos, ip, m as nat);
            code.lemma_index_of_bounds(slide_start(code, pos, ip, m as nat).0);
        }
    }
    vstd::set_lib::lemma_len_subset(codes.to_set(), all);
    assert(4 * code.spec_width() * code.spec_height() == 4 * size) by (nonlinear_arith)
        requires
            size == code.spec_width() * code.spec_height(),
    ;
}

/// Whether `state` is among `seen`.
fn visited(seen: &Vec<(Coord, InstructionPointer)>, state: (Coord, InstructionPointer)) -> (r: bool)
    ensures
        r == seen@.contains(state),
{
    let mut i: usize = 0;
    while i < seen.len()
        invariant
            i <= seen.len(),
            forall|j: int| 0 <= j < i ==> seen@[j] != state,
        decreases seen.len() - i,
    {
        let (pos, ip) = seen[i];
        if pos.0 == state.0.0 && pos.1 == state.0.1 && ip == state.1 {
            assert(seen@[i as int] == state);
            return true;
        }
        i += 1;
    }
    false
}

impl PietVM {
    /// Slides from the machine's position, which must lie on the grid, along
    /// the direction pointer over the white codels ahead, and comes to rest
    /// on the last of them. Returns the codel that stopped the slide and its
    /// colour when that is a program colour.
    pub fn slide(&mut self, code: &PietCode) -> (r: Option<(Coord, Color)>)
        requires
            code.contains(old(self).pos),
        ensures
            final(self).instruction_pointer == old(self).instruction_pointer,
            final(self).stack@ == old(self).stack@,
            final(self).pos == slide_end(*code, old(self).pos, old(self).instruction_pointer.0),
            code.contains(final(self).pos),
            ({
                let hit = slide_hit(*code, old(self).pos, old(self).instruction_pointer.0);
                match r {
                    Some((coord, color)) => coord == hit && code.color_at(hit) == Some(color)
                        && color is Color,
                    None => !(code.color_at(hit) is Some && code.color_at(hit).unwrap() is Color),
                }
            }),
    {
        let dir = self.instruction_pointer.0;
        proof {
            code.lemma_sides_bounded();
        }
        loop
            invariant
                code.contains(self.pos),
                self.instruction_pointer == old(self).instruction_pointer,
                self.stack@ == old(self).stack@,
                dir == self.instruction_pointer.0,
                slide_end(*code, self.pos, dir) == slide_end(*code, old(self).pos, dir),
                code.spec_width() <= usize::MAX,
                code.spec_height() <= usize::MAX,
            decreases slide_room(*code, self.pos, dir),
        {
            let next = dir.step(self.pos);
            match code.at(next.0, next.1) {
                Some(Color::White) => {
                    self.pos = next;
                },
                Some(Color::Color(h, l)) => {
                    return Some((next, Color::Color(h, l)));
                },
                _ => {
                    return None;
                },
            }
        }
    }

    /// Slides across white codels from the machine's position, which must lie
    /// on the grid. A slide that runs into a codel of a program colour ends
    /// the walk: the codel and its colour are returned, the machine at rest
    /// just before it. A slide that is blocked turns the pointer about, and
    /// the next slide starts where the last came to rest. The walk halts with
    /// `None` as soon as a slide would start as an earlier one did; no slide
    /// would then ever run into a program colour.
    pub fn walk_white(&mut self, code: &PietCode) -> (r: Option<(Coord, Color)>)
        requires
            code.contains(old(self).pos),
        ensures
            final(self).stack@ == old(self).stack@,
            code.contains(final(self).pos),
            match r {
                Some((coord, color)) => {
                    &&& code.color_at(coord) == Some(color)
                    &&& color is Color
                    &&& exists|n: nat|
                        left_at_slide(
                            *code,
                            old(self).pos,
                            old(self).instruction_pointer,
                            n,
                            final(self).pos,
                            final(self).instruction_pointer,
                            coord,
                        )
                },
                None => {
                    &&& forall|t: nat|
                        !#[trigger] slides_out(
                            *code,
                            old(self).pos,
                            old(self).instruction_pointer,
                            t,
                        )
                    &&& exists|n: nat|
                        halted_at_slide(
                            *code,
                            old(self).pos,
                            old(self).instruction_pointer,
                            n,
                            final(self).pos,
                            final(self).instruction_pointer,
                        )
                },
            },
    {
        let ghost pos0 = self.pos;
        let ghost ip0 = self.instruction_pointer;
        let ghost bound = 4 * code.spec_width() * code.spec_height();
        let mut seen: Vec<(Coord, InstructionPointer)> = Vec::new();
        proof {
            lemma_slides_bounded(*code, pos0, ip0, 0);
        }
        loop
            invariant
                pos0 == old(self).pos,
                ip0 == old(self).instruction_pointer,
                bound == 4 * code.spec_width() * code.spec_height(),
                code.contains(pos0),
                code.contains(self.pos),
                self.stack@ == old(self).stack@,
                seen@.len() <= bound,
                (self.pos, self.instruction_pointer) == slide_start(*code, pos0, ip0, seen@.len()),
                forall|m: nat|
                    m < seen@.len() ==> seen@[m as int] == #[trigger] slide_start(
                        *code,
                        pos0,
                        ip0,
                        m,
                    ),
                seen@.no_duplicates(),
                forall|m: nat| m < seen@.len() ==> !#[trigger] slides_out(*code, pos0, ip0, m),
            decreases bound - seen@.len(),
        {
            let ghost k = seen@.len();
            if visited(&seen, (self.pos, self.instruction_pointer)) {
                proof {
                    let i = choose|i: int|
                        0 <= i < seen@.len() && seen@[i] == (self.pos, self.instruction_pointer);
                    assert(slide_start(*code, pos0, ip0, i as nat) == seen@[i]);
                    assert(halted_at_slide(
                        *code,
                        pos0,
                        ip0,
                        k,
                        self.pos,
                        self.instruction_pointer,
                    ));
                    assert forall|t: nat| !#[trigger] slides_out(*code, pos0, ip0, t) by {
                        lemma_cycle_never_leaves(*code, pos0, ip0, i as nat, k, t);
                    }
                }
                return None;
            }
            seen.push((self.pos, self.instruction_pointer));
            proof {
                assert forall|i: nat, j: nat| i < j < k + 1 implies slide_start(*code, pos0, ip0, i)
                    != slide_start(*code, pos0, ip0, j) by {
                    assert(seen@[i as int] == slide_start(*code, pos0, ip0, i));
                    assert(seen@[j as int] == slide_start(*code, pos0, ip0, j));
                }
                lemma_slides_bounded(*code, pos0, ip0, k + 1);
            }
            let ghost from = (self.pos, self.instruction_pointer);
            match self.slide(code) {
                Some((coord, color)) => {
                    proof {
                        assert(slides_out(*code, pos0, ip0, k));
                        assert(left_at_slide(
                            *code,
                            pos0,
                            ip0,
                            k,
                            self.pos,
                            self.instruction_pointer,
                            coord,
                        ));
                    }
                    return Some((coord, color));
                },
                None => {},
            }
            assert(!slides_out(*code, pos0, ip0, k));
            self.instruction_pointer.flip();
            self.instruction_pointer.rotate();
            assert((self.pos, self.instruction_pointer) == slide_start(*code, pos0, ip0, k + 1)) by {
                reveal_with_fuel(slide_start, 2);
            }
        }
    }
}

/// How a step of the machine ended.
#[derive(Debug)]
pub enum Outcome {
    /// There is no way on: the program has ended.
    Halted,
    /// The machine moved; the command of the move, if any, ran and asks for
    /// the action.
    Ran(Action),
    /// The machine moved; the command of the move could not run and was
    /// passed over.
    Skipped(ExecutionError),
}

/// Whether the machine can stand on `c`: it lies on the grid and is white or
/// of a program colour.
pub open spec fn standable(code: PietCode, c: Coord) -> bool {
    passable(code, c)
}

/// Whether a step from a white codel took the machine from `before` to
/// `after` with the outcome `r`.
pub open spec fn stepped_from_white(code: PietCode, before: PietVM, after: PietVM, r: Outcome) -> bool {
    &&& after.stack@ == before.stack@
    &&& match r {
        Outcome::Halted => {
            &&& forall|t: nat|
                !#[trigger] slides_out(code, before.pos, before.instruction_pointer, t)
            &&& exists|n: nat|
                halted_at_slide(
                    code,
                    before.pos,
                    before.instruction_pointer,
                    n,
                    after.pos,
                    after.instruction_pointer,
                )
        },
        Outcome::Ran(a) => {
            &&& a is Nothing
            &&& exists|n: nat, rest: Coord|
                left_at_slide(
                    code,
                    before.pos,
                    before.instruction_pointer,
                    n,
                    rest,
                    after.instruction_pointer,
                    after.pos,
                )
        },
        Outcome::Skipped(_) => false,
    }
}

/// Whether a step from a codel of a program colour took the machine from
/// `before` to `after` with the outcome `r`: the machine leaves the region by
/// the first probe that finds a way, and runs the command that the change of
/// colour stands for, with the region's size as its value.
pub open spec fn stepped_from_color(code: PietCode, before: PietVM, after: PietVM, r: Outcome) -> bool {
    let cells = code.region_cells(before.pos);
    match r {
        Outcome::Halted => {
            &&& after.stack@ == before.stack@
            &&& after.pos == before.pos
            &&& after.instruction_pointer == before.instruction_pointer
            &&& forall|j: nat|
                j < 8 ==> !passable(
                    code,
                    #[trigger] probe_target(cells, before.instruction_pointer, j),
                )
        },
        Outcome::Ran(a) => exists|k: nat|
            left_and_ran(code, before, after, k, Ok(a)),
        Outcome::Skipped(e) => exists|k: nat|
            left_and_ran(code, before, after, k, Err(e)),
    }
}

/// Whether the machine left its region by the `k`-th probe and the command of
/// the move took it to `after` with the result `r`.
pub open spec fn left_and_ran(
    code: PietCode,
    before: PietVM,
    after: PietVM,
    k: nat,
    r: Result<Action, ExecutionError>,
) -> bool {
    let cells = code.region_cells(before.pos);
    let ip = probe_pointer(before.instruction_pointer, k);
    &&& left_at_probe(code, cells, before.instruction_pointer, k, ip, after.pos)
    &&& ran(
        before.stack@,
        ip,
        code.color_at(before.pos).unwrap().step_spec(code.color_at(after.pos).unwrap()),
        cells.len() as int,
        after.stack@,
        after.instruction_pointer,
        r,
    )
}

impl PietVM {
    /// One step of the machine, which must stand on a white codel or one of a
    /// program colour. From white it slides; from a colour it leaves the
    /// region and runs the command of the move. While the machine has not
    /// halted it stands again on such a codel.
    pub fn step(&mut self, code: &PietCode) -> (r: Outcome)
        requires
            standable(*code, old(self).pos),
        ensures
            code.color_at(old(self).pos).unwrap() is White ==> stepped_from_white(
                *code,
                *old(self),
                *final(self),
                r,
            ),
            code.color_at(old(self).pos).unwrap() is Color ==> stepped_from_color(
                *code,
                *old(self),
                *final(self),
                r,
            ),
            !(r is Halted) ==> standable(*code, final(self).pos),
    {
        let (x, y) = self.pos;
        let color = code.at(x, y).unwrap();
        match color {
            Color::White => match self.walk_white(code) {
                Some((coord, color)) => {
                    let ghost rest = self.pos;
                    self.pos = coord;
                    proof {
                        let n = choose|n: nat|
                            left_at_slide(
                                *code,
                                old(self).pos,
                                old(self).instruction_pointer,
                                n,
                                rest,
                                self.instruction_pointer,
                                coord,
                            );
                        assert(left_at_slide(
                            *code,
                            old(self).pos,
                            old(self).instruction_pointer,
                            n,
                            rest,
                            self.instruction_pointer,
                            self.pos,
                        ));
                    }
                    Outcome::Ran(Action::Nothing)
                },
                None => Outcome::Halted,
            },
            _ => {
                let (region, coord, next_color) = match self.walk_color(code) {
                    Some(v) => v,
                    None => {
                        return Outcome::Halted;
                    },
                };
                let ghost ip = self.instruction_pointer;
                let ghost k = choose|k: nat|
                    left_at_probe(
                        *code,
                        region.cells(),
                        old(self).instruction_pointer,
                        k,
                        ip,
                        coord,
                    );
                let command = region.color().step_to(next_color);
                let value = region.value();
                let result = self.run_command(command, value);
                self.pos = coord;
                match result {
                    Ok(a) => {
                        assert(left_and_ran(*code, *old(self), *self, k, Ok(a)));
                        Outcome::Ran(a)
                    },
                    Err(e) => {
                        assert(left_and_ran(*code, *old(self), *self, k, Err(e)));
                        Outcome::Skipped(e)
                    },
                }
            },
        }
    }
}

/// A program being run: the grid and the machine on it.
pub struct PietRunner<'a> {
    pub code: &'a PietCode,
    pub vm: PietVM,
}

impl<'a> PietRunner<'a> {
    /// Whether the machine stands where a step can start.
    pub open spec fn ready(self) -> bool {
        standable(*self.code, self.vm.pos)
    }

    /// A machine in its initial state at the top left codel of `code`.
    pub fn new(code: &'a PietCode) -> (r: Self)
        ensures
            *r.code == *code,
            r.vm.pos == (0usize, 0usize),
            r.vm.instruction_pointer == InstructionPointer::initial(),
            r.vm.stack@.len() == 0,
    {
        PietRunner { vm: PietVM::new(), code }
    }

    /// Whether a step can start: the machine stands on a white codel or one
    /// of a program colour.
    pub fn is_ready(&self) -> (r: bool)
        ensures
            r == self.ready(),
    {
        match self.code.at(self.vm.pos.0, self.vm.pos.1) {
            Some(Color::White) => true,
            Some(Color::Color(_, _)) => true,
            _ => false,
        }
    }

    /// One step of the machine on the runner's grid.
    pub fn step(&mut self) -> (r: Outcome)
        requires
            old(self).ready(),
        ensures
            *final(self).code == *old(self).code,
            old(self).code.color_at(old(self).vm.pos).unwrap() is White ==> stepped_from_white(
                *old(self).code,
                old(self).vm,
                final(self).vm,
                r,
            ),
            old(self).code.color_at(old(self).vm.pos).unwrap() is Color ==> stepped_from_color(
                *old(self).code,
                old(self).vm,
                final(self).vm,
                r,
            ),
            !(r is Halted) ==> final(self).ready(),
    {
        self.vm.step(self.code)
    }
}

impl PietCode {
    /// A runner for this grid.
    pub fn execute(&self) -> (r: PietRunner<'_>)
        ensures
            *r.code == *self,
            r.vm.pos == (0usize, 0usize),
            r.vm.instruction_pointer == InstructionPointer::initial(),
            r.vm.stack@.len() == 0,
    {
        PietRunner::new(self)
    }
}

} // verus!
