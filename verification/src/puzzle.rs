//! The slots of a grid: the maximal runs of cells, across and down, and for
//! each cell the slots that cross at it.

use crate::error::EngineError;
use vstd::prelude::*;

verus! {

/// Direction of an across slot.
pub const ACROSS: u8 = 0;

/// Direction of a down slot.
pub const DOWN: u8 = 1;

/// A cell's place in a slot: the slot's index and the cell's offset in it.
pub type Place = (usize, usize);

/// A slot: a run of cells in one direction.
pub struct Line {
    /// `ACROSS` or `DOWN`.
    pub direction: u8,
    /// The cells of the run, from its start.
    pub cell_indices: Vec<usize>,
}

/// A grid cell.
#[derive(Clone, Copy, Debug)]
pub struct Cell {
    /// The cell's column.
    pub x: usize,
    /// The cell's row.
    pub y: usize,
    /// The cell's place in its across slot, if it has one.
    pub across: Option<Place>,
    /// The cell's place in its down slot, if it has one.
    pub down: Option<Place>,
}

/// The cells and slots of a grid.
pub struct Puzzle {
    /// The slots.
    pub lines: Vec<Line>,
    /// The cells.
    pub cells: Vec<Cell>,
}

/// What a puzzle shows: for each slot its direction and cells, for each cell its
/// coordinates and places.
pub struct PuzzleView {
    /// The direction of each slot.
    pub directions: Seq<u8>,
    /// The cells of each slot, from its start.
    pub lines: Seq<Seq<usize>>,
    /// The cells.
    pub cells: Seq<Cell>,
}

impl View for Puzzle {
    type V = PuzzleView;

    open spec fn view(&self) -> PuzzleView {
        PuzzleView {
            directions: Seq::new(self.lines@.len(), |i: int| self.lines@[i].direction),
            lines: Seq::new(self.lines@.len(), |i: int| self.lines@[i].cell_indices@),
            cells: self.cells@,
        }
    }
}

impl PuzzleView {
    /// The place of cell `c` in its slot of the given direction.
    pub open spec fn place(self, c: int, direction: u8) -> Option<Place> {
        if direction == ACROSS {
            self.cells[c].across
        } else {
            self.cells[c].down
        }
    }

    /// Cell `c` lies on slot `li`.
    pub open spec fn on_line(self, c: int, li: int) -> bool {
        (self.cells[c].across matches Some(a) && a.0 == li) || (self.cells[c].down matches Some(b)
            && b.0 == li)
    }

    /// Cells and slots refer to each other consistently: a slot's cell at an offset has
    /// that slot and offset as its place, a cell's place is that cell in the slot, a
    /// cell's two slots differ, no slot is empty, and every cell is on a slot.
    pub open spec fn wf(self) -> bool {
        &&& self.directions.len() == self.lines.len()
        &&& self.lines.len() <= usize::MAX
        &&& self.cells.len() <= usize::MAX
        &&& forall|li: int|
            0 <= li < self.lines.len() ==> 1 <= (#[trigger] self.lines[li]).len() <= usize::MAX && (
            self.directions[li] == ACROSS || self.directions[li] == DOWN)
        &&& forall|li: int, pos: int|
            0 <= li < self.lines.len() && 0 <= pos < self.lines[li].len() ==> {
                let c = #[trigger] self.lines[li][pos];
                c < self.cells.len() && self.place(c as int, self.directions[li]) == Some(
                    (li as usize, pos as usize),
                )
            }
        &&& forall|c: int, direction: u8|
            0 <= c < self.cells.len() && (direction == ACROSS || direction == DOWN)
                ==> match #[trigger] self.place(c, direction) {
                Some(p) => p.0 < self.lines.len() && self.directions[p.0 as int] == direction
                    && p.1 < self.lines[p.0 as int].len() && self.lines[p.0 as int][p.1 as int]
                    == c,
                None => true,
            }
        &&& forall|c: int|
            0 <= c < self.cells.len() ==> (#[trigger] self.cells[c]).across is Some
                || self.cells[c].down is Some
    }
}


/// The coordinates of cell `c`.
pub open spec fn at(coords: Seq<(usize, usize)>, c: int) -> (int, int) {
    (coords[c].0 as int, coords[c].1 as int)
}

/// The place `k` steps on from `pos` in the given direction.
pub open spec fn shifted(pos: (int, int), direction: u8, k: int) -> (int, int) {
    if direction == ACROSS {
        (pos.0 + k, pos.1)
    } else {
        (pos.0, pos.1 + k)
    }
}

/// Some cell has the coordinates `pos`.
pub open spec fn occupied(coords: Seq<(usize, usize)>, pos: (int, int)) -> bool {
    exists|i: int| 0 <= i < coords.len() && #[trigger] at(coords, i) == pos
}

/// No two cells have the same coordinates.
pub open spec fn distinct(coords: Seq<(usize, usize)>) -> bool {
    forall|i: int, j: int| 0 <= i < j < coords.len() ==> at(coords, i) != at(coords, j)
}

/// Cell `c` has a cell next to it in the given direction, before or after it.
pub open spec fn has_neighbour(coords: Seq<(usize, usize)>, c: int, direction: u8) -> bool {
    occupied(coords, shifted(at(coords, c), direction, -1)) || occupied(
        coords,
        shifted(at(coords, c), direction, 1),
    )
}

/// `cells` is a maximal run in the given direction: cell after cell from its first,
/// with no cell before the first or after the last.
pub open spec fn is_run(coords: Seq<(usize, usize)>, cells: Seq<usize>, direction: u8) -> bool {
    &&& cells.len() >= 1
    &&& forall|k: int|
        0 <= k < cells.len() ==> (#[trigger] cells[k]) < coords.len() && at(coords, cells[k] as int)
            == shifted(at(coords, cells[0] as int), direction, k)
    &&& !occupied(coords, shifted(at(coords, cells[0] as int), direction, -1))
    &&& !occupied(coords, shifted(at(coords, cells[0] as int), direction, cells.len() as int))
}

/// A run is kept as a slot if it has two cells or more, or if it is the across run
/// of a cell that has no neighbour above or below.
pub open spec fn kept(coords: Seq<(usize, usize)>, cells: Seq<usize>, direction: u8) -> bool {
    cells.len() >= 2 || (direction == ACROSS && !has_neighbour(coords, cells[0] as int, DOWN))
}

/// The puzzle is that of the grid with the given cells: its cells are those cells; its
/// slots are maximal runs that are kept, the across slots before the down slots and
/// those of one direction by their first cell; and a cell has a place in a direction
/// exactly when its run in that direction is kept.
pub open spec fn built_from(p: PuzzleView, coords: Seq<(usize, usize)>) -> bool {
    &&& p.wf()
    &&& p.cells.len() == coords.len()
    &&& forall|c: int|
        0 <= c < coords.len() ==> (#[trigger] p.cells[c]).x == coords[c].0 && p.cells[c].y
            == coords[c].1
    &&& forall|li: int|
        0 <= li < p.lines.len() ==> is_run(coords, #[trigger] p.lines[li], p.directions[li])
            && kept(coords, p.lines[li], p.directions[li])
    &&& forall|i: int, j: int|
        0 <= i < j < p.lines.len() ==> p.directions[i] < p.directions[j] || (p.directions[i]
            == p.directions[j] && (#[trigger] p.lines[i])[0] < (#[trigger] p.lines[j])[0])
    &&& forall|c: int|
        0 <= c < coords.len() ==> ((#[trigger] p.cells[c]).across is Some) == (has_neighbour(
            coords,
            c,
            ACROSS,
        ) || !has_neighbour(coords, c, DOWN))
    &&& forall|c: int|
        0 <= c < coords.len() ==> ((#[trigger] p.cells[c]).down is Some) == has_neighbour(
            coords,
            c,
            DOWN,
        )
}

/// The cell with the given coordinates, if there is one.
pub(crate) fn find(coords: &Vec<(usize, usize)>, x: usize, y: usize) -> (r: Option<usize>)
    ensures
        match r {
            Some(i) => i < coords@.len() && at(coords@, i as int) == (x as int, y as int),
            None => !occupied(coords@, (x as int, y as int)),
        },
{
    let mut i: usize = 0;
    while i < coords.len()
        invariant
            i <= coords@.len(),
            forall|j: int| 0 <= j < i ==> #[trigger] at(coords@, j) != (x as int, y as int),
        decreases coords@.len() - i,
    {
        if coords[i].0 == x && coords[i].1 == y {
            return Some(i);
        }
        i = i + 1;
    }
    None
}

/// The cell before cell `c` in the given direction, if there is one.
fn step_back(coords: &Vec<(usize, usize)>, c: usize, direction: u8) -> (r: Option<usize>)
    requires
        c < coords@.len(),
    ensures
        match r {
            Some(i) => i < coords@.len() && at(coords@, i as int) == shifted(
                at(coords@, c as int),
                direction,
                -1,
            ),
            None => !occupied(coords@, shifted(at(coords@, c as int), direction, -1)),
        },
{
    let (x, y) = coords[c];
    if direction == ACROSS {
        if x == 0 {
            assert forall|i: int| 0 <= i < coords@.len() implies #[trigger] at(coords@, i) != (
            x as int - 1, y as int) by {}
            None
        } else {
            find(coords, x - 1, y)
        }
    } else {
        if y == 0 {
            assert forall|i: int| 0 <= i < coords@.len() implies #[trigger] at(coords@, i) != (
            x as int, y as int - 1) by {}
            None
        } else {
            find(coords, x, y - 1)
        }
    }
}

/// The cell after cell `c` in the given direction, if there is one.
fn step_on(coords: &Vec<(usize, usize)>, c: usize, direction: u8) -> (r: Option<usize>)
    requires
        c < coords@.len(),
    ensures
        match r {
            Some(i) => i < coords@.len() && at(coords@, i as int) == shifted(
                at(coords@, c as int),
                direction,
                1,
            ),
            None => !occupied(coords@, shifted(at(coords@, c as int), direction, 1)),
        },
{
    let (x, y) = coords[c];
    if direction == ACROSS {
        if x == usize::MAX {
            assert forall|i: int| 0 <= i < coords@.len() implies #[trigger] at(coords@, i) != (
            x as int + 1, y as int) by {}
            None
        } else {
            find(coords, x + 1, y)
        }
    } else {
        if y == usize::MAX {
            assert forall|i: int| 0 <= i < coords@.len() implies #[trigger] at(coords@, i) != (
            x as int, y as int + 1) by {}
            None
        } else {
            find(coords, x, y + 1)
        }
    }
}

/// Whether no two cells have the same coordinates.
fn all_distinct(coords: &Vec<(usize, usize)>) -> (r: bool)
    ensures
        r == distinct(coords@),
{
    let mut j: usize = 0;
    while j < coords.len()
        invariant
            j <= coords@.len(),
            forall|a: int, b: int| 0 <= a < b < j ==> at(coords@, a) != at(coords@, b),
        decreases coords@.len() - j,
    {
        let mut i: usize = 0;
        while i < j
            invariant
                i <= j,
                j < coords@.len(),
                forall|a: int| 0 <= a < i ==> at(coords@, a) != at(coords@, j as int),
            decreases j - i,
        {
            if coords[i].0 == coords[j].0 && coords[i].1 == coords[j].1 {
                assert(at(coords@, i as int) == at(coords@, j as int));
                return false;
            }
            i = i + 1;
        }
        j = j + 1;
    }
    true
}

/// The distance of a cell from the far end of its axis.
spec fn room(coords: Seq<(usize, usize)>, c: int, direction: u8) -> int {
    if direction == ACROSS {
        usize::MAX - coords[c].0
    } else {
        usize::MAX - coords[c].1
    }
}

/// The distance of a cell from the near end of its axis.
spec fn depth(coords: Seq<(usize, usize)>, c: int, direction: u8) -> int {
    if direction == ACROSS {
        coords[c].0 as int
    } else {
        coords[c].1 as int
    }
}

/// The maximal run that starts at cell `start`, which has no cell before it.
fn run_from(coords: &Vec<(usize, usize)>, start: usize, direction: u8) -> (run: Vec<usize>)
    requires
        start < coords@.len(),
        direction == ACROSS || direction == DOWN,
        !occupied(coords@, shifted(at(coords@, start as int), direction, -1)),
    ensures
        is_run(coords@, run@, direction),
        run@[0] == start,
{
    let mut run: Vec<usize> = Vec::new();
    run.push(start);
    let mut cur = start;
    loop
        invariant_except_break
            run@.len() >= 1,
            run@[0] == start,
            cur == run@[run@.len() - 1],
            direction == ACROSS || direction == DOWN,
            forall|k: int|
                0 <= k < run@.len() ==> (#[trigger] run@[k]) < coords@.len() && at(
                    coords@,
                    run@[k] as int,
                ) == shifted(at(coords@, start as int), direction, k),
        ensures
            run@.len() >= 1,
            run@[0] == start,
            forall|k: int|
                0 <= k < run@.len() ==> (#[trigger] run@[k]) < coords@.len() && at(
                    coords@,
                    run@[k] as int,
                ) == shifted(at(coords@, start as int), direction, k),
            !occupied(coords@, shifted(at(coords@, start as int), direction, run@.len() as int)),
        decreases room(coords@, cur as int, direction),
    {
        match step_on(coords, cur, direction) {
            Some(next) => {
                run.push(next);
                cur = next;
            },
            None => {
                break ;
            },
        }
    }
    run
}

/// The first cell of the run of cell `c` in the given direction, and the offset of
/// `c` in that run.
fn locate(coords: &Vec<(usize, usize)>, c: usize, direction: u8) -> (r: (usize, usize))
    requires
        c < coords@.len(),
        direction == ACROSS || direction == DOWN,
    ensures
        r.0 < coords@.len(),
        at(coords@, r.0 as int) == shifted(at(coords@, c as int), direction, -(r.1 as int)),
        !occupied(coords@, shifted(at(coords@, r.0 as int), direction, -1)),
        forall|j: int|
            0 <= j <= r.1 ==> occupied(coords@, #[trigger] shifted(at(coords@, c as int), direction, -j)),
{
    let mut cur = c;
    let mut offset: usize = 0;
    assert(at(coords@, c as int) == shifted(at(coords@, c as int), direction, 0));
    loop
        invariant_except_break
            cur < coords@.len(),
            direction == ACROSS || direction == DOWN,
            offset <= depth(coords@, c as int, direction),
            at(coords@, cur as int) == shifted(at(coords@, c as int), direction, -(offset as int)),
            forall|j: int|
                0 <= j <= offset ==> occupied(
                    coords@,
                    #[trigger] shifted(at(coords@, c as int), direction, -j),
                ),
        ensures
            cur < coords@.len(),
            at(coords@, cur as int) == shifted(at(coords@, c as int), direction, -(offset as int)),
            !occupied(coords@, shifted(at(coords@, cur as int), direction, -1)),
            forall|j: int|
                0 <= j <= offset ==> occupied(
                    coords@,
                    #[trigger] shifted(at(coords@, c as int), direction, -j),
                ),
        decreases depth(coords@, cur as int, direction),
    {
        match step_back(coords, cur, direction) {
            Some(prev) => {
                proof {
                    assert(at(coords@, prev as int) == shifted(
                        at(coords@, c as int),
                        direction,
                        -(offset + 1),
                    ));
                }
                cur = prev;
                offset = offset + 1;
            },
            None => {
                break ;
            },
        }
    }
    (cur, offset)
}


/// A run holds every cell that is reached from its first cell over occupied places:
/// the cell `off` places after the first is the run's cell at offset `off`.
proof fn lemma_run_covers(
    coords: Seq<(usize, usize)>,
    cells: Seq<usize>,
    direction: u8,
    c: int,
    off: int,
)
    requires
        distinct(coords),
        is_run(coords, cells, direction),
        0 <= c < coords.len(),
        0 <= off,
        at(coords, cells[0] as int) == shifted(at(coords, c), direction, -off),
        forall|j: int| 0 <= j <= off ==> occupied(coords, #[trigger] shifted(at(coords, c), direction, -j)),
    ensures
        off < cells.len(),
        cells[off] == c,
{
    let s = cells[0] as int;
    if off >= cells.len() {
        let j = off - cells.len();
        assert(occupied(coords, shifted(at(coords, c), direction, -j)));
        assert(shifted(at(coords, c), direction, -j) == shifted(
            at(coords, s),
            direction,
            cells.len() as int,
        ));
        assert(false);
    }
    let c2 = cells[off] as int;
    assert(at(coords, c2) == shifted(at(coords, s), direction, off));
    assert(at(coords, c2) == at(coords, c));
    if c2 != c {
        if c2 < c {
            assert(at(coords, c2) != at(coords, c));
        } else {
            assert(at(coords, c) != at(coords, c2));
        }
    }
}

/// Walking back from a run's cell ends at the run's first cell, after as many steps as
/// the cell's offset.
proof fn lemma_same_start(
    coords: Seq<(usize, usize)>,
    cells: Seq<usize>,
    direction: u8,
    pos: int,
    s2: int,
    off2: int,
)
    requires
        distinct(coords),
        is_run(coords, cells, direction),
        0 <= pos < cells.len(),
        0 <= s2 < coords.len(),
        0 <= off2,
        at(coords, s2) == shifted(at(coords, cells[pos] as int), direction, -off2),
        !occupied(coords, shifted(at(coords, s2), direction, -1)),
        forall|j: int|
            0 <= j <= off2 ==> occupied(
                coords,
                #[trigger] shifted(at(coords, cells[pos] as int), direction, -j),
            ),
    ensures
        s2 == cells[0],
        off2 == pos,
{
    let s = cells[0] as int;
    let c = cells[pos] as int;
    assert(at(coords, c) == shifted(at(coords, s), direction, pos));
    if off2 > pos {
        assert(occupied(coords, shifted(at(coords, c), direction, -(pos + 1))));
        assert(shifted(at(coords, c), direction, -(pos + 1)) == shifted(
            at(coords, s),
            direction,
            -1,
        ));
        assert(false);
    }
    if off2 < pos {
        let k = pos - off2 - 1;
        let c3 = cells[k] as int;
        assert(at(coords, c3) == shifted(at(coords, s), direction, k));
        assert(at(coords, c3) == shifted(at(coords, s2), direction, -1));
        assert(false);
    }
    assert(at(coords, s2) == at(coords, s));
    if s2 != s {
        if s2 < s {
            assert(at(coords, s2) != at(coords, s));
        } else {
            assert(at(coords, s) != at(coords, s2));
        }
    }
}

/// The first cell of a run that is kept has no cell before it, and has a cell after it
/// or, for an across run, no neighbour above or below.
pub open spec fn starts_kept_run(coords: Seq<(usize, usize)>, s: int, direction: u8) -> bool {
    &&& !occupied(coords, shifted(at(coords, s), direction, -1))
    &&& occupied(coords, shifted(at(coords, s), direction, 1)) || (direction == ACROSS
        && !has_neighbour(coords, s, DOWN))
}

/// Appends to `lines` the kept runs of the given direction, by their first cell.
/// Returns, for each cell, the slot that starts at it, if one does.
fn collect_runs(coords: &Vec<(usize, usize)>, direction: u8, lines: &mut Vec<Line>) -> (starts: Vec<
    Option<usize>,
>)
    requires
        distinct(coords@),
        direction == ACROSS || direction == DOWN,
    ensures
        final(lines)@.len() >= old(lines)@.len(),
        forall|li: int| 0 <= li < old(lines)@.len() ==> #[trigger] final(lines)@[li] == old(lines)@[li],
        starts@.len() == coords@.len(),
        forall|li: int|
            old(lines)@.len() <= li < final(lines)@.len() ==> {
                let line = #[trigger] final(lines)@[li];
                &&& line.direction == direction
                &&& line.cell_indices@.len() <= usize::MAX
                &&& is_run(coords@, line.cell_indices@, direction)
                &&& kept(coords@, line.cell_indices@, direction)
                &&& starts@[line.cell_indices@[0] as int] == Some(li as usize)
            },
        forall|s: int|
            0 <= s < coords@.len() ==> match #[trigger] starts@[s] {
                Some(li) => old(lines)@.len() <= li < final(lines)@.len() && final(lines)@[li as int].cell_indices@[0]
                    == s,
                None => !starts_kept_run(coords@, s, direction),
            },
        forall|i: int, j: int|
            old(lines)@.len() <= i < j < final(lines)@.len() ==> (#[trigger] final(lines)@[i]).cell_indices@[0]
                < (#[trigger] final(lines)@[j]).cell_indices@[0],
{
    let n = coords.len();
    let mut starts: Vec<Option<usize>> = Vec::new();
    let mut ci: usize = 0;
    while ci < n
        invariant
            ci <= n,
            n == coords@.len(),
            distinct(coords@),
            direction == ACROSS || direction == DOWN,
            lines@.len() >= old(lines)@.len(),
            forall|li: int| 0 <= li < old(lines)@.len() ==> #[trigger] lines@[li] == old(lines)@[li],
            starts@.len() == ci,
            forall|li: int|
                old(lines)@.len() <= li < lines@.len() ==> {
                    let line = #[trigger] lines@[li];
                    &&& line.direction == direction
                    &&& line.cell_indices@.len() <= usize::MAX
                    &&& is_run(coords@, line.cell_indices@, direction)
                    &&& kept(coords@, line.cell_indices@, direction)
                    &&& line.cell_indices@[0] < ci
                    &&& starts@[line.cell_indices@[0] as int] == Some(li as usize)
                },
            forall|s: int|
                0 <= s < ci ==> match #[trigger] starts@[s] {
                    Some(li) => old(lines)@.len() <= li < lines@.len() && lines@[li as int].cell_indices@[0]
                        == s,
                    None => !starts_kept_run(coords@, s, direction),
                },
            forall|i: int, j: int|
                old(lines)@.len() <= i < j < lines@.len() ==> (#[trigger] lines@[i]).cell_indices@[0]
                    < (#[trigger] lines@[j]).cell_indices@[0],
        decreases n - ci,
    {
        let mut started: Option<usize> = None;
        if step_back(coords, ci, direction).is_none() {
            let run = run_from(coords, ci, direction);
            let alone = direction == ACROSS && step_back(coords, ci, DOWN).is_none() && step_on(
                coords,
                ci,
                DOWN,
            ).is_none();
            proof {
                if run@.len() >= 2 {
                    assert(at(coords@, run@[1] as int) == shifted(
                        at(coords@, ci as int),
                        direction,
                        1,
                    ));
                } else {
                    assert(!occupied(coords@, shifted(at(coords@, ci as int), direction, 1)));
                }
            }
            if run.len() >= 2 || alone {
                started = Some(lines.len());
                lines.push(Line { direction, cell_indices: run });
            }
        }
        starts.push(started);
        ci = ci + 1;
    }
    starts
}

impl Puzzle {
    /// The puzzle of the grid whose cells have the given coordinates: cell `c` is the
    /// cell at `coords[c]`. Fails with `InvalidGrid` where two cells have the same
    /// coordinates.
    pub fn new(coords: &Vec<(usize, usize)>) -> (r: Result<Puzzle, EngineError>)
        ensures
            r is Ok <==> distinct(coords@),
            match r {
                Ok(p) => built_from(p@, coords@),
                Err(e) => e == EngineError::InvalidGrid,
            },
    {
        if !all_distinct(coords) {
            return Err(EngineError::InvalidGrid);
        }
        let mut lines: Vec<Line> = Vec::new();
        let across_starts = collect_runs(coords, ACROSS, &mut lines);
        let ghost split = lines@.len();
        let ghost across_lines = lines@;
        let down_starts = collect_runs(coords, DOWN, &mut lines);
        let ghost all_lines = lines@;
        let n = coords.len();
        let mut cells: Vec<Cell> = Vec::new();
        let mut c: usize = 0;
        while c < n
            invariant
                c <= n,
                n == coords@.len(),
                distinct(coords@),
                cells@.len() == c,
                across_starts@.len() == n,
                down_starts@.len() == n,
                forall|k: int|
                    0 <= k < c ==> {
                        let cell = #[trigger] cells@[k];
                        &&& cell.x == coords@[k].0
                        &&& cell.y == coords@[k].1
                        &&& exists|s: int, off: int|
                            #![trigger located(coords@, k, ACROSS, s, off)]
                            located(coords@, k, ACROSS, s, off) && cell.across == placed(
                                across_starts@[s],
                                off,
                            )
                        &&& exists|s: int, off: int|
                            #![trigger located(coords@, k, DOWN, s, off)]
                            located(coords@, k, DOWN, s, off) && cell.down == placed(
                                down_starts@[s],
                                off,
                            )
                    },
            decreases n - c,
        {
            let (x, y) = coords[c];
            let (sa, oa) = locate(coords, c, ACROSS);
            let across = match across_starts[sa] {
                Some(li) => Some((li, oa)),
                None => None,
            };
            let (sd, od) = locate(coords, c, DOWN);
            let down = match down_starts[sd] {
                Some(li) => Some((li, od)),
                None => None,
            };
            proof {
                assert(located(coords@, c as int, ACROSS, sa as int, oa as int));
                assert(located(coords@, c as int, DOWN, sd as int, od as int));
            }
            cells.push(Cell { x, y, across, down });
            c = c + 1;
        }
        let line_count = lines.len();
        let p = Puzzle { lines, cells };
        proof {
            assert(p@.lines.len() == line_count);
            let v = p@;
            assert(p.lines@ == all_lines);
            assert forall|li: int| 0 <= li < v.lines.len() implies {
                let direction = if li < split {
                    ACROSS
                } else {
                    DOWN
                };
                let starts = if li < split {
                    across_starts@
                } else {
                    down_starts@
                };
                &&& #[trigger] v.directions[li] == direction
                &&& is_run(coords@, v.lines[li], direction)
                &&& kept(coords@, v.lines[li], direction)
                &&& v.lines[li].len() <= usize::MAX
                &&& starts[v.lines[li][0] as int] == Some(li as usize)
            } by {
                let line = all_lines[li];
                assert(v.lines[li] == line.cell_indices@);
                assert(v.directions[li] == line.direction);
                if li < split {
                    assert(all_lines[li] == across_lines[li]);
                }
            }
            assert forall|s: int| 0 <= s < coords@.len() implies match #[trigger] across_starts@[s] {
                Some(li) => 0 <= li < split && v.lines[li as int][0] == s,
                None => !starts_kept_run(coords@, s, ACROSS),
            } by {
                match across_starts@[s] {
                    Some(li) => {
                        assert(all_lines[li as int] == across_lines[li as int]);
                    },
                    None => {},
                }
            }
            assert forall|i: int, j: int| 0 <= i < j < split implies (#[trigger] v.lines[i])[0] < (
            #[trigger] v.lines[j])[0] by {
                assert(all_lines[i] == across_lines[i]);
                assert(all_lines[j] == across_lines[j]);
            }
            assert forall|i: int, j: int| split <= i < j < v.lines.len() implies (
            #[trigger] v.lines[i])[0] < (#[trigger] v.lines[j])[0] by {
                assert(all_lines[i].cell_indices@[0] < all_lines[j].cell_indices@[0]);
            }
            lemma_built(p@, coords@, across_starts@, down_starts@, split as int);
        }
        Ok(p)
    }
}

/// Walking back from cell `c` ends at cell `s`, `off` steps on.
spec fn located(coords: Seq<(usize, usize)>, c: int, direction: u8, s: int, off: int) -> bool {
    &&& 0 <= s < coords.len()
    &&& 0 <= off <= usize::MAX
    &&& at(coords, s) == shifted(at(coords, c), direction, -off)
    &&& !occupied(coords, shifted(at(coords, s), direction, -1))
    &&& forall|j: int| 0 <= j <= off ==> occupied(coords, #[trigger] shifted(at(coords, c), direction, -j))
}

/// The place at offset `off` of the slot `start`, if there is one.
spec fn placed(start: Option<usize>, off: int) -> Option<Place> {
    match start {
        Some(li) => Some((li, off as usize)),
        None => None,
    }
}

/// What the two passes over the cells establish is a puzzle built from the grid.
proof fn lemma_built(
    p: PuzzleView,
    coords: Seq<(usize, usize)>,
    across_starts: Seq<Option<usize>>,
    down_starts: Seq<Option<usize>>,
    split: int,
)
    requires
        distinct(coords),
        coords.len() <= usize::MAX,
        p.lines.len() <= usize::MAX,
        p.directions.len() == p.lines.len(),
        p.cells.len() == coords.len(),
        across_starts.len() == coords.len(),
        down_starts.len() == coords.len(),
        0 <= split <= p.lines.len(),
        forall|li: int|
            0 <= li < p.lines.len() ==> {
                let direction = if li < split {
                    ACROSS
                } else {
                    DOWN
                };
                let starts = if li < split {
                    across_starts
                } else {
                    down_starts
                };
                &&& #[trigger] p.directions[li] == direction
                &&& is_run(coords, p.lines[li], direction)
                &&& kept(coords, p.lines[li], direction)
                &&& p.lines[li].len() <= usize::MAX
                &&& starts[p.lines[li][0] as int] == Some(li as usize)
            },
        forall|s: int|
            0 <= s < coords.len() ==> match #[trigger] across_starts[s] {
                Some(li) => 0 <= li < split && p.lines[li as int][0] == s,
                None => !starts_kept_run(coords, s, ACROSS),
            },
        forall|s: int|
            0 <= s < coords.len() ==> match #[trigger] down_starts[s] {
                Some(li) => split <= li < p.lines.len() && p.lines[li as int][0] == s,
                None => !starts_kept_run(coords, s, DOWN),
            },
        forall|i: int, j: int|
            0 <= i < j < split ==> (#[trigger] p.lines[i])[0] < (#[trigger] p.lines[j])[0],
        forall|i: int, j: int|
            split <= i < j < p.lines.len() ==> (#[trigger] p.lines[i])[0] < (#[trigger] p.lines[j])[0],
        forall|k: int|
            0 <= k < coords.len() ==> {
                let cell = #[trigger] p.cells[k];
                &&& cell.x == coords[k].0
                &&& cell.y == coords[k].1
                &&& exists|s: int, off: int|
                    #![trigger located(coords, k, ACROSS, s, off)]
                    located(coords, k, ACROSS, s, off) && cell.across == placed(across_starts[s], off)
                &&& exists|s: int, off: int|
                    #![trigger located(coords, k, DOWN, s, off)]
                    located(coords, k, DOWN, s, off) && cell.down == placed(down_starts[s], off)
            },
    ensures
        built_from(p, coords),
{
    assert forall|c: int, direction: u8|
        0 <= c < coords.len() && (direction == ACROSS || direction == DOWN) implies {
        &&& match #[trigger] p.place(c, direction) {
            Some(pl) => pl.0 < p.lines.len() && p.directions[pl.0 as int] == direction && pl.1
                < p.lines[pl.0 as int].len() && p.lines[pl.0 as int][pl.1 as int] == c,
            None => true,
        }
        &&& (p.place(c, direction) is Some) == (has_neighbour(coords, c, direction) || (direction
            == ACROSS && !has_neighbour(coords, c, DOWN)))
    } by {
        let starts = if direction == ACROSS {
            across_starts
        } else {
            down_starts
        };
        let cell = p.cells[c];
        let (s, off) = choose|s: int, off: int|
            #![trigger located(coords, c, direction, s, off)]
            located(coords, c, direction, s, off) && p.place(c, direction) == placed(starts[s], off);
        assert(located(coords, c, direction, s, off));
        assert(occupied(coords, shifted(at(coords, c), direction, -0)));
        if off >= 1 {
            assert(occupied(coords, shifted(at(coords, c), direction, -1)));
            assert(occupied(coords, shifted(at(coords, c), direction, -(off - 1))));
            assert(shifted(at(coords, c), direction, -(off - 1)) == shifted(
                at(coords, s),
                direction,
                1,
            ));
        } else {
            assert(at(coords, s) == at(coords, c));
            if s != c {
                if s < c {
                    assert(at(coords, s) != at(coords, c));
                } else {
                    assert(at(coords, c) != at(coords, s));
                }
            }
        }
        match starts[s] {
            Some(li) => {
                let run = p.lines[li as int];
                assert(p.directions[li as int] == direction);
                assert(is_run(coords, run, direction) && kept(coords, run, direction));
                lemma_run_covers(coords, run, direction, c, off);
                if run.len() >= 2 {
                    if off >= 1 {
                    } else {
                        assert(at(coords, run[1] as int) == shifted(at(coords, c), direction, 1));
                    }
                }
            },
            None => {
                assert(!starts_kept_run(coords, s, direction));
            },
        }
    }
    assert forall|li: int, pos: int| 0 <= li < p.lines.len() && 0 <= pos < p.lines[li].len() implies {
        let c = #[trigger] p.lines[li][pos];
        c < p.cells.len() && p.place(c as int, p.directions[li]) == Some((li as usize, pos as usize))
    } by {
        let direction = p.directions[li];
        let starts = if direction == ACROSS {
            across_starts
        } else {
            down_starts
        };
        let run = p.lines[li];
        assert(is_run(coords, run, direction));
        let c = run[pos] as int;
        let (s, off) = choose|s: int, off: int|
            #![trigger located(coords, c, direction, s, off)]
            located(coords, c, direction, s, off) && p.place(c, direction) == placed(starts[s], off);
        lemma_same_start(coords, run, direction, pos, s, off);
    }
    assert forall|c: int| 0 <= c < coords.len() implies ((#[trigger] p.cells[c]).across is Some)
        == (has_neighbour(coords, c, ACROSS) || !has_neighbour(coords, c, DOWN)) && (
    p.cells[c].down is Some) == has_neighbour(coords, c, DOWN) by {
        assert(p.place(c, ACROSS) == p.cells[c].across);
        assert(p.place(c, DOWN) == p.cells[c].down);
    }
    assert forall|i: int, j: int| 0 <= i < j < p.lines.len() implies p.directions[i]
        < p.directions[j] || (p.directions[i] == p.directions[j] && (#[trigger] p.lines[i])[0] < (
    #[trigger] p.lines[j])[0]) by {
    }
}


/// Two maximal runs with the same first cell are the same run.
pub proof fn lemma_run_unique(coords: Seq<(usize, usize)>, a: Seq<usize>, b: Seq<usize>, direction: u8)
    requires
        distinct(coords),
        is_run(coords, a, direction),
        is_run(coords, b, direction),
        a[0] == b[0],
    ensures
        a == b,
{
    let s = a[0] as int;
    if a.len() < b.len() {
        let c = b[a.len() as int] as int;
        assert(at(coords, c) == shifted(at(coords, s), direction, a.len() as int));
        assert(false);
    }
    if b.len() < a.len() {
        let c = a[b.len() as int] as int;
        assert(at(coords, c) == shifted(at(coords, s), direction, b.len() as int));
        assert(false);
    }
    assert forall|k: int| 0 <= k < a.len() implies a[k] == b[k] by {
        let x = a[k] as int;
        let y = b[k] as int;
        assert(at(coords, x) == at(coords, y));
        if x < y {
            assert(at(coords, x) != at(coords, y));
        }
        if y < x {
            assert(at(coords, y) != at(coords, x));
        }
    }
    assert(a =~= b);
}

/// The first cell of a slot of a built puzzle starts a kept run, and each cell that
/// starts a kept run is the first cell of a slot.
pub proof fn lemma_slot_starts(p: PuzzleView, coords: Seq<(usize, usize)>, s: int, direction: u8)
    requires
        distinct(coords),
        built_from(p, coords),
        0 <= s < coords.len(),
        direction == ACROSS || direction == DOWN,
    ensures
        starts_kept_run(coords, s, direction) <==> exists|li: int|
            0 <= li < p.lines.len() && p.directions[li] == direction && (#[trigger] p.lines[li])[0]
                == s,
{
    if starts_kept_run(coords, s, direction) {
        assert(has_neighbour(coords, s, direction) || (direction == ACROSS && !has_neighbour(
            coords,
            s,
            DOWN,
        )));
        assert(p.cells[s].across is Some || p.cells[s].down is Some);
        assert(p.place(s, direction) is Some);
        let pl = p.place(s, direction)->0;
        let li = pl.0 as int;
        let pos = pl.1 as int;
        assert(p.lines[li][pos] == s);
        assert(is_run(coords, p.lines[li], direction));
        if pos > 0 {
            let c = p.lines[li][pos - 1] as int;
            assert(at(coords, c) == shifted(at(coords, p.lines[li][0] as int), direction, pos - 1));
            assert(at(coords, s) == shifted(at(coords, p.lines[li][0] as int), direction, pos));
            assert(at(coords, c) == shifted(at(coords, s), direction, -1));
            assert(false);
        }
        assert(p.lines[li][0] == s);
    }
    if exists|li: int|
        0 <= li < p.lines.len() && p.directions[li] == direction && (#[trigger] p.lines[li])[0] == s {
        let li = choose|li: int|
            0 <= li < p.lines.len() && p.directions[li] == direction && (#[trigger] p.lines[li])[0]
                == s;
        let run = p.lines[li];
        assert(is_run(coords, run, direction) && kept(coords, run, direction));
        if run.len() >= 2 {
            assert(at(coords, run[1] as int) == shifted(at(coords, s), direction, 1));
        }
    }
}

/// The rank of a slot in the order of the slots: across before down, and by first cell.
pub open spec fn slot_rank(p: PuzzleView, n: int, li: int) -> int {
    if p.directions[li] == ACROSS {
        p.lines[li][0] as int
    } else {
        n + p.lines[li][0]
    }
}

/// A grid has one puzzle: two puzzles built from the same cells are the same.
pub proof fn lemma_built_unique(p: PuzzleView, q: PuzzleView, coords: Seq<(usize, usize)>)
    requires
        distinct(coords),
        built_from(p, coords),
        built_from(q, coords),
    ensures
        p == q,
{
    let n = coords.len() as int;
    let ranks_p = Seq::new(p.lines.len(), |li: int| slot_rank(p, n, li));
    let ranks_q = Seq::new(q.lines.len(), |li: int| slot_rank(q, n, li));
    assert forall|i: int, j: int| 0 <= i < j < ranks_p.len() implies ranks_p[i] < ranks_p[j] by {
        lemma_line_start(p, coords, i);
        lemma_line_start(p, coords, j);
    }
    assert forall|i: int, j: int| 0 <= i < j < ranks_q.len() implies ranks_q[i] < ranks_q[j] by {
        lemma_line_start(q, coords, i);
        lemma_line_start(q, coords, j);
    }
    assert forall|x: int| ranks_p.contains(x) <==> ranks_q.contains(x) by {
        if ranks_p.contains(x) {
            let li = choose|li: int| 0 <= li < ranks_p.len() && ranks_p[li] == x;
            lemma_line_start(p, coords, li);
            let s = p.lines[li][0] as int;
            lemma_slot_starts(p, coords, s, p.directions[li]);
            lemma_slot_starts(q, coords, s, p.directions[li]);
            let lj = choose|lj: int|
                0 <= lj < q.lines.len() && q.directions[lj] == p.directions[li] && (
                #[trigger] q.lines[lj])[0] == s;
            assert(ranks_q[lj] == x);
        }
        if ranks_q.contains(x) {
            let lj = choose|lj: int| 0 <= lj < ranks_q.len() && ranks_q[lj] == x;
            lemma_line_start(q, coords, lj);
            let s = q.lines[lj][0] as int;
            lemma_slot_starts(q, coords, s, q.directions[lj]);
            lemma_slot_starts(p, coords, s, q.directions[lj]);
            let li = choose|li: int|
                0 <= li < p.lines.len() && p.directions[li] == q.directions[lj] && (
                #[trigger] p.lines[li])[0] == s;
            assert(ranks_p[li] == x);
        }
    }
    crate::skip_iter::lemma_rising_unique(ranks_p, ranks_q);
    assert(p.lines.len() == q.lines.len());
    assert forall|li: int| 0 <= li < p.lines.len() implies p.directions[li] == q.directions[li]
        && #[trigger] p.lines[li] == q.lines[li] by {
        lemma_line_start(p, coords, li);
        lemma_line_start(q, coords, li);
        assert(ranks_p[li] == ranks_q[li]);
        lemma_run_unique(coords, p.lines[li], q.lines[li], p.directions[li]);
    }
    assert forall|li: int| 0 <= li < p.directions.len() implies #[trigger] p.directions[li]
        == q.directions[li] by {
        assert(p.lines[li] == q.lines[li]);
    }
    assert(p.directions =~= q.directions);
    assert(p.lines =~= q.lines);
    assert forall|c: int| 0 <= c < coords.len() implies #[trigger] p.cells[c] == q.cells[c] by {
        assert(p.place(c, ACROSS) == p.cells[c].across);
        assert(p.place(c, DOWN) == p.cells[c].down);
        assert(q.place(c, ACROSS) == q.cells[c].across);
        assert(q.place(c, DOWN) == q.cells[c].down);
        lemma_same_place(p, q, coords, c, ACROSS);
        lemma_same_place(p, q, coords, c, DOWN);
    }
    assert(p.cells =~= q.cells);
}

/// The first cell of a slot of a built puzzle is a cell of the grid, and the slot's
/// direction is across or down.
proof fn lemma_line_start(p: PuzzleView, coords: Seq<(usize, usize)>, li: int)
    requires
        built_from(p, coords),
        0 <= li < p.lines.len(),
    ensures
        p.lines[li].len() >= 1,
        p.lines[li][0] < coords.len(),
        p.directions[li] == ACROSS || p.directions[li] == DOWN,
{
    assert(is_run(coords, p.lines[li], p.directions[li]));
}

/// A cell has the same place, in a direction, in two built puzzles with the same slots.
proof fn lemma_same_place(p: PuzzleView, q: PuzzleView, coords: Seq<(usize, usize)>, c: int, direction: u8)
    requires
        built_from(p, coords),
        built_from(q, coords),
        p.lines == q.lines,
        p.directions == q.directions,
        0 <= c < coords.len(),
        direction == ACROSS || direction == DOWN,
    ensures
        p.place(c, direction) == q.place(c, direction),
{
    assert(p.place(c, ACROSS) == p.cells[c].across);
    assert(p.place(c, DOWN) == p.cells[c].down);
    assert(q.place(c, ACROSS) == q.cells[c].across);
    assert(q.place(c, DOWN) == q.cells[c].down);
    assert((p.place(c, direction) is Some) == (q.place(c, direction) is Some));
    if p.place(c, direction) is Some {
        let a = p.place(c, direction)->0;
        let b = q.place(c, direction)->0;
        assert(p.lines[a.0 as int][a.1 as int] == c);
        assert(q.lines[b.0 as int][b.1 as int] == c);
        let c2 = p.lines[b.0 as int][b.1 as int];
        assert(p.place(c2 as int, p.directions[b.0 as int]) == Some((b.0, b.1)));
    }
}

} // verus!
