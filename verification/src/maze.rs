//! Grid model of the maze: wall states, rooms, walls, and the two wall
//! arrays, together with the pure topology between rooms and walls.
//!
//! The two wall arrays each have `N + 1` rows of `N` slots: row `0` and row
//! `N` form the permanent outer boundary.  A wall's coordinates use an
//! axis-swapped encoding so that one `(x, y)` pair indexes directly into the
//! owning array: a horizontal wall `(x, y)` sits at `horizontal[y][x]` and a
//! vertical wall `(x, y)` sits at `vertical[y][x]`, where for vertical walls
//! `x` is the room's `y` coordinate and `y` is a column index.

use vstd::prelude::*;

verus! {

/// State of one wall slot.  `Out` marks the permanent outer boundary;
/// `Closed` is an interior wall that was never carved; `Open` is a carved
/// passage (or the fixed entrance/exit).
#[derive(Clone, Copy, PartialEq, Eq, Structural, Debug)]
pub enum WallStatus {
    Open,
    Closed,
    Out,
}

impl WallStatus {
    /// Projection used by the snapshot view: `true` means "wall present".
    pub fn to_bool(&self) -> (r: bool)
        ensures
            r == (*self != WallStatus::Open),
    {
        match self {
            WallStatus::Open => false,
            _ => true,
        }
    }
}

/// Which of the two wall arrays a wall's coordinates index into.
#[derive(Clone, Copy, PartialEq, Eq, Structural, Debug)]
pub enum Direction {
    Horizontal,
    Vertical,
}

/// A unit cell of the grid, identified by its coordinates.
#[derive(Clone, Copy, PartialEq, Eq, Structural, Debug)]
pub struct Room {
    pub x: i32,
    pub y: i32,
}

impl Room {
    pub fn new(x: i32, y: i32) -> (r: Room)
        ensures
            r == (Room { x, y }),
    {
        Room { x, y }
    }
}

/// A wall slot, under the axis-swapped encoding described at the top of
/// this module.
#[derive(Clone, Copy, PartialEq, Eq, Structural, Debug)]
pub struct Wall {
    pub x: i32,
    pub y: i32,
    pub direction: Direction,
}

impl Wall {
    pub fn new(x: i32, y: i32, direction: Direction) -> (r: Wall)
        ensures
            r == (Wall { x, y, direction }),
    {
        Wall { x, y, direction }
    }
}

/// Mathematical view of a wall array: a sequence of rows.
pub open spec fn grid_view(g: Seq<Vec<WallStatus>>) -> Seq<Seq<WallStatus>> {
    g.map_values(|row: Vec<WallStatus>| row@)
}

/// A wall array for an `n x n` maze: `n + 1` rows of `n` slots each.
pub open spec fn grid_shape(g: Seq<Seq<WallStatus>>, n: int) -> bool {
    &&& g.len() == n + 1
    &&& forall|i: int| 0 <= i < g.len() ==> (#[trigger] g[i]).len() == n
}

/// The four walls bounding a room, in the fixed order: wall above,
/// wall right, wall below, wall left.
pub open spec fn spec_walls_of(r: Room) -> Seq<Wall> {
    seq![
        Wall { x: r.x, y: r.y, direction: Direction::Horizontal },
        Wall { x: r.y, y: (r.x + 1) as i32, direction: Direction::Vertical },
        Wall { x: r.x, y: (r.y + 1) as i32, direction: Direction::Horizontal },
        Wall { x: r.y, y: r.x, direction: Direction::Vertical },
    ]
}

/// The two rooms a wall separates, in increasing order along the governing
/// axis.  For a boundary wall one of the two lies outside the grid; the
/// builder never lets such a wall into the frontier.
pub open spec fn spec_rooms_of(w: Wall) -> Seq<Room> {
    if w.direction == Direction::Horizontal {
        seq![Room { x: w.x, y: (w.y - 1) as i32 }, Room { x: w.x, y: w.y }]
    } else {
        seq![Room { x: (w.y - 1) as i32, y: w.x }, Room { x: w.y, y: w.x }]
    }
}

/// Consistency of the two topology functions: every wall of a room maps
/// back to a room pair that contains that room.
pub proof fn lemma_room_wall_round_trip(r: Room)
    requires
        0 <= r.x < i32::MAX,
        0 <= r.y < i32::MAX,
    ensures
        forall|i: int|
            0 <= i < 4 ==> #[trigger] spec_rooms_of(spec_walls_of(r)[i]).contains(r),
{
    assert forall|i: int| 0 <= i < 4 implies #[trigger] spec_rooms_of(
        spec_walls_of(r)[i],
    ).contains(r) by {
        if i == 0 {
            assert(spec_rooms_of(spec_walls_of(r)[0])[1] == r);
        } else if i == 1 {
            assert(spec_rooms_of(spec_walls_of(r)[1])[0] == r);
        } else if i == 2 {
            assert(spec_rooms_of(spec_walls_of(r)[2])[0] == r);
        } else {
            assert(spec_rooms_of(spec_walls_of(r)[3])[1] == r);
        }
    }
}

/// The two wall arrays of one maze.
#[derive(Debug)]
pub struct Maze {
    pub horizontal: Vec<Vec<WallStatus>>,
    pub vertical: Vec<Vec<WallStatus>>,
}

fn make_row(len: usize, out_flag: bool) -> (r: Vec<WallStatus>)
    ensures
        r@.len() == len,
        forall|j: int|
            0 <= j < len ==> r@[j] == (if out_flag {
                WallStatus::Out
            } else {
                WallStatus::Closed
            }),
{
    let row_content = if out_flag {
        WallStatus::Out
    } else {
        WallStatus::Closed
    };
    let mut row: Vec<WallStatus> = Vec::new();
    let mut j: usize = 0;
    while j < len
        invariant
            j <= len,
            row@.len() == j,
            row_content == (if out_flag {
                WallStatus::Out
            } else {
                WallStatus::Closed
            }),
            forall|k: int|
                0 <= k < j ==> row@[k] == (if out_flag {
                    WallStatus::Out
                } else {
                    WallStatus::Closed
                }),
        decreases len - j,
    {
        row.push(row_content);
        j = j + 1;
    }
    row
}

impl Maze {
    /// A fresh maze: every interior slot `Closed`, the first and last row of
    /// each array permanently `Out`.
    pub fn new(row_count: usize) -> (r: Maze)
        requires
            row_count < usize::MAX,
        ensures
            grid_shape(grid_view(r.horizontal@), row_count as int),
            grid_shape(grid_view(r.vertical@), row_count as int),
            forall|i: int, j: int|
                0 <= i <= row_count && 0 <= j < row_count ==> #[trigger] grid_view(
                    r.horizontal@,
                )[i][j] == (if i == 0 || i == row_count {
                    WallStatus::Out
                } else {
                    WallStatus::Closed
                }),
            forall|i: int, j: int|
                0 <= i <= row_count && 0 <= j < row_count ==> #[trigger] grid_view(
                    r.vertical@,
                )[i][j] == (if i == 0 || i == row_count {
                    WallStatus::Out
                } else {
                    WallStatus::Closed
                }),
    {
        let mut horizontal: Vec<Vec<WallStatus>> = Vec::new();
        let mut vertical: Vec<Vec<WallStatus>> = Vec::new();
        let mut i: usize = 0;
        while i < row_count + 1
            invariant
                row_count < usize::MAX,
                i <= row_count + 1,
                horizontal@.len() == i,
                vertical@.len() == i,
                forall|k: int|
                    0 <= k < i ==> (#[trigger] horizontal@[k])@.len() == row_count,
                forall|k: int|
                    0 <= k < i ==> (#[trigger] vertical@[k])@.len() == row_count,
                forall|k: int, j: int|
                    0 <= k < i && 0 <= j < row_count ==> #[trigger] horizontal@[k]@[j] == (
                    if k == 0 || k == row_count {
                        WallStatus::Out
                    } else {
                        WallStatus::Closed
                    }),
                forall|k: int, j: int|
                    0 <= k < i && 0 <= j < row_count ==> #[trigger] vertical@[k]@[j] == (
                    if k == 0 || k == row_count {
                        WallStatus::Out
                    } else {
                        WallStatus::Closed
                    }),
            decreases row_count + 1 - i,
        {
            let out_flag = i == 0 || i == row_count;
            vertical.push(make_row(row_count, out_flag));
            horizontal.push(make_row(row_count, out_flag));
            i = i + 1;
        }
        Maze { horizontal, vertical }
    }
}

} // verus!
