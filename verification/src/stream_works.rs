//! The two operation shapes offered to a transport layer: the words of the
//! greeting stream, and the one-shot full maze.

use vstd::prelude::*;
use crate::builder::BuilderModel;
use crate::builder::MazeBuilder;
use crate::render::MazeSnapshot;
use crate::render::bool_grid;
use crate::render::bool_grid_view;

verus! {

/// The fixed words of the greeting stream.
pub fn hello() -> (r: Vec<&'static str>)
    ensures
        r@.len() == 2,
        r@[0]@ == "hello"@,
        r@[1]@ == "world"@,
{
    let mut r: Vec<&'static str> = Vec::new();
    r.push("hello");
    r.push("world");
    r
}

/// Generate one complete maze of the given size: build, drain to
/// exhaustion, and project the final grid as booleans.
///
/// The snapshot is the projection of a well-formed, exhausted builder
/// state; on the permanent outer ring every wall is present except the
/// fixed entrance (above the start room) and the fixed exit (below the
/// diagonally opposite corner).
pub fn build_maze_full(row_count: usize) -> (r: MazeSnapshot)
    requires
        row_count <= i32::MAX as usize,
    ensures
        exists|m: BuilderModel|
            {
                &&& #[trigger] m.wf()
                &&& m.todo.len() == 0
                &&& m.n == row_count as int
                &&& bool_grid_view(r.h@) == bool_grid(m.h)
                &&& bool_grid_view(r.v@) == bool_grid(m.v)
            },
        bool_grid_view(r.h@).len() == row_count + 1,
        bool_grid_view(r.v@).len() == row_count + 1,
        forall|i: int|
            0 <= i <= row_count ==> (#[trigger] bool_grid_view(r.h@)[i]).len() == row_count,
        forall|i: int|
            0 <= i <= row_count ==> (#[trigger] bool_grid_view(r.v@)[i]).len() == row_count,
        forall|j: int|
            0 <= j < row_count ==> #[trigger] bool_grid_view(r.h@)[0][j] == (j != 0),
        forall|j: int|
            0 <= j < row_count ==> #[trigger] bool_grid_view(r.h@)[row_count as int][j] == (j
                != row_count - 1),
        forall|j: int|
            0 <= j < row_count ==> #[trigger] bool_grid_view(r.v@)[0][j] == true,
        forall|j: int|
            0 <= j < row_count ==> #[trigger] bool_grid_view(r.v@)[row_count as int][j] == true,
{
    let mut maze_builder = MazeBuilder::new(row_count);
    maze_builder.run_to_completion();
    let r = maze_builder.get_json_maze();
    proof {
        let m = maze_builder@;
        let n = m.n;
        assert(m.wf() && m.todo.len() == 0 && m.n == row_count as int && bool_grid_view(r.h@)
            == bool_grid(m.h) && bool_grid_view(r.v@) == bool_grid(m.v));
        assert forall|i: int|
            0 <= i <= row_count implies (#[trigger] bool_grid_view(r.h@)[i]).len()
            == row_count by {
            assert(m.h[i].len() == n);
            assert(bool_grid(m.h)[i] == crate::render::bool_row(m.h[i]));
        }
        assert forall|i: int|
            0 <= i <= row_count implies (#[trigger] bool_grid_view(r.v@)[i]).len()
            == row_count by {
            assert(m.v[i].len() == n);
            assert(bool_grid(m.v)[i] == crate::render::bool_row(m.v[i]));
        }
        assert forall|j: int|
            0 <= j < row_count implies #[trigger] bool_grid_view(r.h@)[0][j] == (j != 0) by {
            assert(bool_grid(m.h)[0] == crate::render::bool_row(m.h[0]));
            assert(m.h[0][j] == (if j == 0 {
                crate::maze::WallStatus::Open
            } else {
                crate::maze::WallStatus::Out
            }));
        }
        assert forall|j: int|
            0 <= j < row_count implies #[trigger] bool_grid_view(r.h@)[row_count as int][j]
            == (j != row_count - 1) by {
            assert(bool_grid(m.h)[n] == crate::render::bool_row(m.h[n]));
            assert(m.h[n][j] == (if j == n - 1 {
                crate::maze::WallStatus::Open
            } else {
                crate::maze::WallStatus::Out
            }));
        }
        assert forall|j: int|
            0 <= j < row_count implies #[trigger] bool_grid_view(r.v@)[0][j] == true by {
            assert(bool_grid(m.v)[0] == crate::render::bool_row(m.v[0]));
            assert(m.v[0][j] == crate::maze::WallStatus::Out);
        }
        assert forall|j: int|
            0 <= j < row_count implies #[trigger] bool_grid_view(r.v@)[row_count as int][j]
            == true by {
            assert(bool_grid(m.v)[n] == crate::render::bool_row(m.v[n]));
            assert(m.v[n][j] == crate::maze::WallStatus::Out);
        }
    }
    r
}

} // verus!
