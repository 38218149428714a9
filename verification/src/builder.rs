//! The randomized spanning-tree builder.
//!
//! The builder owns the grid and three sets: `linked` (rooms already joined
//! to the growing tree), `todo` (the frontier of candidate walls) and
//! `removed` (walls already decided, whether carved or rejected).  One call
//! to [`MazeBuilder::next`] makes one maze-growing decision; draining the
//! builder until the frontier is empty yields a perfect maze.
//!
//! Every state the builder can reach satisfies [`BuilderModel::wf`]; the
//! random choice is injected through [`MazeBuilder::step_at`], whose result
//! is an exact function of the prior state and the chosen index.

use vstd::prelude::*;
use rand::Rng;
use crate::maze::Direction;
use crate::maze::Maze;
use crate::maze::Room;
use crate::maze::Wall;
use crate::maze::WallStatus;
use crate::maze::grid_shape;
use crate::maze::grid_view;
use crate::maze::spec_rooms_of;
use crate::maze::spec_walls_of;

verus! {

/// Mathematical view of a builder: the two wall arrays as sequences, the
/// three bookkeeping sets as sequences (duplicate-free), the start room and
/// the grid size.
pub struct BuilderModel {
    pub h: Seq<Seq<WallStatus>>,
    pub v: Seq<Seq<WallStatus>>,
    pub linked: Seq<Room>,
    pub todo: Seq<Wall>,
    pub removed: Seq<Wall>,
    pub start: (int, int),
    pub n: int,
}

impl BuilderModel {
    pub open spec fn start_room(self) -> Room {
        Room { x: 0, y: 0 }
    }

    pub open spec fn in_grid(self, r: Room) -> bool {
        0 <= r.x < self.n && 0 <= r.y < self.n
    }

    /// An interior wall slot: one that is not on the permanent boundary.
    pub open spec fn wall_in_range(self, w: Wall) -> bool {
        0 <= w.x < self.n && 0 < w.y < self.n
    }

    /// The grid slot a wall addresses.
    pub open spec fn slot(self, w: Wall) -> WallStatus {
        if w.direction == Direction::Horizontal {
            self.h[w.y as int][w.x as int]
        } else {
            self.v[w.y as int][w.x as int]
        }
    }

    pub open spec fn wf_shape(self) -> bool {
        &&& 0 <= self.n <= i32::MAX
        &&& self.start == (0int, 0int)
        &&& grid_shape(self.h, self.n)
        &&& grid_shape(self.v, self.n)
    }

    /// The permanent outer ring stays `Out`, except the fixed entrance
    /// (above the start room) and the fixed exit (below the diagonally
    /// opposite corner room), which stay `Open`.
    pub open spec fn wf_boundary(self) -> bool {
        &&& forall|j: int|
            0 <= j < self.n ==> #[trigger] self.h[0][j] == (if j == 0 {
                WallStatus::Open
            } else {
                WallStatus::Out
            })
        &&& forall|j: int|
            0 <= j < self.n ==> #[trigger] self.h[self.n][j] == (if j == self.n - 1 {
                WallStatus::Open
            } else {
                WallStatus::Out
            })
        &&& forall|j: int| 0 <= j < self.n ==> #[trigger] self.v[0][j] == WallStatus::Out
        &&& forall|j: int| 0 <= j < self.n ==> #[trigger] self.v[self.n][j] == WallStatus::Out
    }

    /// Interior slots are never `Out`.
    pub open spec fn wf_interior(self) -> bool {
        &&& forall|i: int, j: int|
            0 < i < self.n && 0 <= j < self.n ==> #[trigger] self.h[i][j] != WallStatus::Out
        &&& forall|i: int, j: int|
            0 < i < self.n && 0 <= j < self.n ==> #[trigger] self.v[i][j] != WallStatus::Out
    }

    /// The three sets hold no duplicates, and the frontier is disjoint from
    /// the removed set.
    pub open spec fn wf_sets(self) -> bool {
        &&& self.linked.no_duplicates()
        &&& self.todo.no_duplicates()
        &&& self.removed.no_duplicates()
        &&& forall|w: Wall| #[trigger] self.todo.contains(w) ==> !self.removed.contains(w)
    }

    pub open spec fn wf_linked(self) -> bool {
        &&& forall|r: Room| #[trigger] self.linked.contains(r) ==> self.in_grid(r)
        &&& self.n >= 1 ==> self.linked.contains(self.start_room())
        &&& self.n == 0 ==> self.linked.len() == 0
    }

    /// Every frontier wall is interior, still closed, and borders at least
    /// one room that is already linked.
    pub open spec fn wf_todo(self) -> bool {
        forall|w: Wall| #[trigger] self.todo.contains(w) ==> {
            &&& self.wall_in_range(w)
            &&& self.slot(w) == WallStatus::Closed
            &&& (self.linked.contains(spec_rooms_of(w)[0]) || self.linked.contains(
                spec_rooms_of(w)[1],
            ))
        }
    }

    /// Every removed wall is interior and both rooms beside it are linked:
    /// a wall is only ever decided between two linked rooms (reject) or
    /// carved into a room that becomes linked at once.
    pub open spec fn wf_removed(self) -> bool {
        forall|w: Wall| #[trigger] self.removed.contains(w) ==> {
            &&& self.wall_in_range(w)
            &&& self.linked.contains(spec_rooms_of(w)[0])
            &&& self.linked.contains(spec_rooms_of(w)[1])
        }
    }

    /// Every interior wall of a linked room has been seen: it sits in the
    /// frontier or has already been decided.
    pub open spec fn wf_coverage(self) -> bool {
        forall|r: Room, i: int|
            self.linked.contains(r) && 0 <= i < 4 && self.wall_in_range(
                #[trigger] spec_walls_of(r)[i],
            ) ==> self.todo.contains(spec_walls_of(r)[i]) || self.removed.contains(
                spec_walls_of(r)[i],
            )
    }

    /// An open interior slot always belongs to a wall that was decided.
    pub open spec fn wf_open(self) -> bool {
        forall|w: Wall|
            self.wall_in_range(w) && #[trigger] self.slot(w) == WallStatus::Open
                ==> self.removed.contains(w)
    }

    /// Every linked room can be reached from the start room through open
    /// walls: the carved passages form one connected region at all times.
    pub open spec fn wf_reach(self) -> bool {
        forall|r: Room| #[trigger] self.linked.contains(r) ==> reachable(
            self,
            self.start_room(),
            r,
        )
    }

    /// Exactly one interior wall is open per linked room beyond the first:
    /// the carved passages form a tree, never a cycle.
    pub open spec fn wf_count(self) -> bool {
        open_interior_count(self) == (if self.n == 0 {
            0int
        } else {
            self.linked.len() - 1
        })
    }

    pub open spec fn wf(self) -> bool {
        &&& self.wf_shape()
        &&& self.wf_boundary()
        &&& self.wf_interior()
        &&& self.wf_sets()
        &&& self.wf_linked()
        &&& self.wf_todo()
        &&& self.wf_removed()
        &&& self.wf_coverage()
        &&& self.wf_open()
        &&& self.wf_reach()
        &&& self.wf_count()
    }
}

/// Two rooms are adjacent with no wall between them.  Symmetric by
/// construction.
pub open spec fn open_between(m: BuilderModel, a: Room, b: Room) -> bool {
    ||| (b.x == a.x && b.y == a.y + 1 && m.h[a.y + 1][a.x as int] == WallStatus::Open)
    ||| (a.x == b.x && a.y == b.y + 1 && m.h[b.y + 1][b.x as int] == WallStatus::Open)
    ||| (b.y == a.y && b.x == a.x + 1 && m.v[a.x + 1][a.y as int] == WallStatus::Open)
    ||| (a.y == b.y && a.x == b.x + 1 && m.v[b.x + 1][b.y as int] == WallStatus::Open)
}

/// A walk through the grid: in-grid rooms, each consecutive pair joined by
/// an open wall.
pub open spec fn is_path(m: BuilderModel, p: Seq<Room>) -> bool {
    &&& p.len() >= 1
    &&& forall|i: int| 0 <= i < p.len() ==> m.in_grid(#[trigger] p[i])
    &&& forall|i: int| 0 <= i < p.len() - 1 ==> open_between(m, #[trigger] p[i], p[i + 1])
}

/// A room can be walked to from another through open walls only.
pub open spec fn reachable(m: BuilderModel, a: Room, b: Room) -> bool {
    exists|p: Seq<Room>| is_path(m, p) && p.first() == a && p.last() == b
}

/// The number of open slots in one row.
pub open spec fn row_open_count(row: Seq<WallStatus>) -> int
    decreases row.len(),
{
    if row.len() == 0 {
        0
    } else {
        row_open_count(row.drop_last()) + (if row.last() == WallStatus::Open {
            1int
        } else {
            0int
        })
    }
}

/// The number of open slots in the interior rows `1 .. k` of a wall array.
pub open spec fn rows_open_count(g: Seq<Seq<WallStatus>>, k: int) -> int
    decreases k,
{
    if k <= 1 {
        0
    } else {
        rows_open_count(g, k - 1) + row_open_count(g[k - 1])
    }
}

/// The number of open interior wall slots of the maze: boundary rows (the
/// fixed entrance and exit among them) are not counted.
pub open spec fn open_interior_count(m: BuilderModel) -> int {
    rows_open_count(m.h, m.n) + rows_open_count(m.v, m.n)
}

proof fn lemma_row_count_zero(row: Seq<WallStatus>)
    requires
        forall|j: int| 0 <= j < row.len() ==> row[j] != WallStatus::Open,
    ensures
        row_open_count(row) == 0,
    decreases row.len(),
{
    if row.len() > 0 {
        lemma_row_count_zero(row.drop_last());
    }
}

proof fn lemma_rows_count_zero(g: Seq<Seq<WallStatus>>, k: int)
    requires
        k <= g.len(),
        forall|i: int, j: int|
            1 <= i < k && 0 <= j < g[i].len() ==> #[trigger] g[i][j] != WallStatus::Open,
    ensures
        rows_open_count(g, k) == 0,
    decreases k,
{
    if k > 1 {
        lemma_rows_count_zero(g, k - 1);
        lemma_row_count_zero(g[k - 1]);
    }
}

proof fn lemma_row_count_update(row: Seq<WallStatus>, j: int)
    requires
        0 <= j < row.len(),
        row[j] != WallStatus::Open,
    ensures
        row_open_count(row.update(j, WallStatus::Open)) == row_open_count(row) + 1,
    decreases row.len(),
{
    let r2 = row.update(j, WallStatus::Open);
    if j == row.len() - 1 {
        assert(r2.drop_last() =~= row.drop_last());
    } else {
        assert(r2.drop_last() =~= row.drop_last().update(j, WallStatus::Open));
        lemma_row_count_update(row.drop_last(), j);
        assert(r2.last() == row.last());
    }
}

proof fn lemma_rows_count_update(g: Seq<Seq<WallStatus>>, k: int, i: int, j: int)
    requires
        1 <= i < g.len(),
        0 <= j < g[i].len(),
        g[i][j] != WallStatus::Open,
        k <= g.len(),
    ensures
        rows_open_count(g.update(i, g[i].update(j, WallStatus::Open)), k) == rows_open_count(
            g,
            k,
        ) + (if i < k {
            1int
        } else {
            0int
        }),
    decreases k,
{
    let g2 = g.update(i, g[i].update(j, WallStatus::Open));
    if k > 1 {
        lemma_rows_count_update(g, k - 1, i, j);
        if i == k - 1 {
            assert(g2[k - 1] == g[k - 1].update(j, WallStatus::Open));
            lemma_row_count_update(g[k - 1], j);
        } else {
            assert(g2[k - 1] == g[k - 1]);
        }
    }
}

/// A path stays a path in a maze with the same walls.
proof fn lemma_reach_same_walls(m: BuilderModel, m2: BuilderModel, a: Room, b: Room)
    requires
        m2.h == m.h,
        m2.v == m.v,
        m2.n == m.n,
        reachable(m, a, b),
    ensures
        reachable(m2, a, b),
{
    let p = choose|p: Seq<Room>| is_path(m, p) && p.first() == a && p.last() == b;
    assert forall|i: int| 0 <= i < p.len() - 1 implies open_between(m2, #[trigger] p[i], p[i + 1]) by {
        assert(open_between(m, p[i], p[i + 1]));
    }
    assert(is_path(m2, p));
}

/// A path stays a path in a maze that keeps every open interior wall open.
proof fn lemma_reach_monotone(m: BuilderModel, m2: BuilderModel, a: Room, b: Room)
    requires
        m.wf_shape(),
        m2.n == m.n,
        forall|x: Wall|
            m.wall_in_range(x) && #[trigger] m.slot(x) == WallStatus::Open ==> m2.slot(x)
                == WallStatus::Open,
        reachable(m, a, b),
    ensures
        reachable(m2, a, b),
{
    let n = m.n;
    let p = choose|p: Seq<Room>| is_path(m, p) && p.first() == a && p.last() == b;
    assert forall|i: int| 0 <= i < p.len() - 1 implies open_between(m2, #[trigger] p[i], p[i + 1]) by {
        let c = p[i];
        let d = p[i + 1];
        assert(m.in_grid(c) && m.in_grid(d));
        assert(open_between(m, c, d));
        if d.x == c.x && d.y == c.y + 1 {
            let x = Wall { x: c.x, y: (c.y + 1) as i32, direction: Direction::Horizontal };
            assert(m.slot(x) == WallStatus::Open);
            assert(m2.slot(x) == WallStatus::Open);
        } else if c.x == d.x && c.y == d.y + 1 {
            let x = Wall { x: d.x, y: (d.y + 1) as i32, direction: Direction::Horizontal };
            assert(m.slot(x) == WallStatus::Open);
            assert(m2.slot(x) == WallStatus::Open);
        } else if d.y == c.y && d.x == c.x + 1 {
            let x = Wall { x: c.y, y: (c.x + 1) as i32, direction: Direction::Vertical };
            assert(m.slot(x) == WallStatus::Open);
            assert(m2.slot(x) == WallStatus::Open);
        } else {
            let x = Wall { x: d.y, y: (d.x + 1) as i32, direction: Direction::Vertical };
            assert(m.slot(x) == WallStatus::Open);
            assert(m2.slot(x) == WallStatus::Open);
        }
    }
    assert(is_path(m2, p));
}

/// A room is reachable from itself.
pub proof fn lemma_reach_refl(m: BuilderModel, r: Room)
    requires
        m.in_grid(r),
    ensures
        reachable(m, r, r),
{
    let p = seq![r];
    assert(is_path(m, p) && p.first() == r && p.last() == r);
}

/// One open wall extends a reachable region by one room.
pub proof fn lemma_reach_extend(m: BuilderModel, a: Room, b: Room, c: Room)
    requires
        reachable(m, a, b),
        open_between(m, b, c),
        m.in_grid(c),
    ensures
        reachable(m, a, c),
{
    let p = choose|p: Seq<Room>| is_path(m, p) && p.first() == a && p.last() == b;
    let p2 = p.push(c);
    assert forall|i: int| 0 <= i < p2.len() - 1 implies open_between(m, #[trigger] p2[i], p2[i + 1]) by {
        if i < p.len() - 1 {
            assert(open_between(m, p[i], p[i + 1]));
        }
    }
    assert(is_path(m, p2) && p2.first() == a && p2.last() == c);
}

/// An open wall joins the two rooms it separates.
proof fn lemma_wall_connects(m: BuilderModel, w: Wall)
    requires
        0 <= m.n <= i32::MAX,
        m.wall_in_range(w),
        m.slot(w) == WallStatus::Open,
    ensures
        open_between(m, spec_rooms_of(w)[0], spec_rooms_of(w)[1]),
{
    let r0 = spec_rooms_of(w)[0];
    let r1 = spec_rooms_of(w)[1];
    if w.direction == Direction::Horizontal {
        assert(r1.x == r0.x && r1.y == r0.y + 1 && m.h[r0.y + 1][r0.x as int]
            == WallStatus::Open);
    } else {
        assert(r1.y == r0.y && r1.x == r0.x + 1 && m.v[r0.x + 1][r0.y as int]
            == WallStatus::Open);
    }
}

/// The frontier after offering one wall: the wall enters at the back if it
/// is interior, not yet decided, and not already queued.
pub open spec fn after_insert(todo: Seq<Wall>, removed: Seq<Wall>, n: int, w: Wall) -> Seq<
    Wall,
> {
    if 0 < w.y < n && !removed.contains(w) && !todo.contains(w) {
        todo.push(w)
    } else {
        todo
    }
}

/// The frontier after offering all four walls of a room, in the fixed
/// order of `spec_walls_of`.
pub open spec fn after_insert_room(todo: Seq<Wall>, removed: Seq<Wall>, n: int, r: Room) -> Seq<
    Wall,
> {
    let ws = spec_walls_of(r);
    after_insert(
        after_insert(after_insert(after_insert(todo, removed, n, ws[0]), removed, n, ws[1]), removed, n, ws[2]),
        removed,
        n,
        ws[3],
    )
}

/// The frontier after removing the wall at index `k` by swapping the last
/// wall into its place.
pub open spec fn swap_removed(todo: Seq<Wall>, k: int) -> Seq<Wall> {
    todo.update(k, todo.last()).drop_last()
}

/// One maze-growing decision as a function of the prior state and the
/// chosen frontier index: the new state and the carve-event, if any.
pub open spec fn step_model(m: BuilderModel, k: int) -> (BuilderModel, Option<Wall>)
    recommends
        0 <= k < m.todo.len(),
{
    let w = m.todo[k];
    let todo1 = swap_removed(m.todo, k);
    let removed1 = m.removed.push(w);
    let rooms = spec_rooms_of(w);
    if m.linked.contains(rooms[0]) && m.linked.contains(rooms[1]) {
        (
            BuilderModel { todo: todo1, removed: removed1, ..m },
            None,
        )
    } else {
        let u = if !m.linked.contains(rooms[1]) {
            rooms[1]
        } else {
            rooms[0]
        };
        let todo2 = after_insert_room(todo1, removed1, m.n, u);
        let linked1 = m.linked.push(u);
        if w.direction == Direction::Horizontal {
            (
                BuilderModel {
                    h: m.h.update(w.y as int, m.h[w.y as int].update(w.x as int, WallStatus::Open)),
                    linked: linked1,
                    todo: todo2,
                    removed: removed1,
                    ..m
                },
                Some(w),
            )
        } else {
            (
                BuilderModel {
                    v: m.v.update(w.y as int, m.v[w.y as int].update(w.x as int, WallStatus::Open)),
                    linked: linked1,
                    todo: todo2,
                    removed: removed1,
                    ..m
                },
                Some(w),
            )
        }
    }
}

/// Removing index `k` by a swap keeps the set duplicate-free and drops
/// exactly the element at `k`.
proof fn lemma_swap_removed_props(s: Seq<Wall>, k: int)
    requires
        s.no_duplicates(),
        0 <= k < s.len(),
    ensures
        swap_removed(s, k).no_duplicates(),
        swap_removed(s, k).len() == s.len() - 1,
        forall|x: Wall| #[trigger] swap_removed(s, k).contains(x) <==> (s.contains(x) && x != s[k]),
{
    let t = swap_removed(s, k);
    assert forall|x: Wall| #[trigger] t.contains(x) implies (s.contains(x) && x != s[k]) by {
        let i = choose|i: int| 0 <= i < t.len() && t[i] == x;
        if i == k && k < s.len() - 1 {
            assert(s[s.len() - 1] == x);
        } else {
            assert(s[i] == x);
        }
    }
    assert forall|x: Wall| (s.contains(x) && x != s[k]) implies #[trigger] t.contains(x) by {
        let i = choose|i: int| 0 <= i < s.len() && s[i] == x;
        if i == s.len() - 1 {
            assert(i != k);
            assert(t[k] == x);
        } else {
            assert(t[i] == x);
        }
    }
    assert forall|i: int, j: int|
        0 <= i < t.len() && 0 <= j < t.len() && i != j implies t[i] != t[j] by {
        let pi: int = if i == k { s.len() - 1 } else { i };
        let pj: int = if j == k { s.len() - 1 } else { j };
        assert(t[i] == s[pi]);
        assert(t[j] == s[pj]);
    }
}

/// Offering one wall keeps the frontier duplicate-free and adds at most
/// that wall.
proof fn lemma_after_insert_props(todo: Seq<Wall>, removed: Seq<Wall>, n: int, w: Wall)
    requires
        todo.no_duplicates(),
    ensures
        after_insert(todo, removed, n, w).no_duplicates(),
        forall|x: Wall| #[trigger] after_insert(todo, removed, n, w).contains(x) <==> (
        todo.contains(x) || (x == w && 0 < w.y < n && !removed.contains(w))),
{
    let t = after_insert(todo, removed, n, w);
    if 0 < w.y < n && !removed.contains(w) && !todo.contains(w) {
        assert forall|x: Wall| #[trigger] t.contains(x) implies (todo.contains(x) || (x == w && 0
            < w.y < n && !removed.contains(w))) by {
            let i = choose|i: int| 0 <= i < t.len() && t[i] == x;
            if i < todo.len() {
                assert(todo[i] == x);
            }
        }
        assert forall|x: Wall| (todo.contains(x) || (x == w && 0 < w.y < n && !removed.contains(
            w,
        ))) implies #[trigger] t.contains(x) by {
            if todo.contains(x) {
                let i = choose|i: int| 0 <= i < todo.len() && todo[i] == x;
                assert(t[i] == x);
            } else {
                assert(t[todo.len() as int] == x);
            }
        }
    } else {
        assert(t == todo);
    }
}

/// Offering the four walls of a room: the frontier gains exactly those of
/// the four that are interior and undecided, and stays duplicate-free.
proof fn lemma_after_insert_room_props(todo: Seq<Wall>, removed: Seq<Wall>, n: int, r: Room)
    requires
        todo.no_duplicates(),
    ensures
        after_insert_room(todo, removed, n, r).no_duplicates(),
        forall|x: Wall| #[trigger] after_insert_room(todo, removed, n, r).contains(x) <==> (
        todo.contains(x) || (exists|i: int|
            0 <= i < 4 && x == spec_walls_of(r)[i] && 0 < x.y < n && !removed.contains(x))),
{
    let ws = spec_walls_of(r);
    let t0 = after_insert(todo, removed, n, ws[0]);
    let t1 = after_insert(t0, removed, n, ws[1]);
    let t2 = after_insert(t1, removed, n, ws[2]);
    let t3 = after_insert(t2, removed, n, ws[3]);
    lemma_after_insert_props(todo, removed, n, ws[0]);
    lemma_after_insert_props(t0, removed, n, ws[1]);
    lemma_after_insert_props(t1, removed, n, ws[2]);
    lemma_after_insert_props(t2, removed, n, ws[3]);
    assert forall|x: Wall| #[trigger] t3.contains(x) implies (todo.contains(x) || (exists|i: int|
        0 <= i < 4 && x == spec_walls_of(r)[i] && 0 < x.y < n && !removed.contains(x))) by {
        if !todo.contains(x) {
            if x == ws[0] && 0 < x.y < n && !removed.contains(x) {
                assert(x == spec_walls_of(r)[0]);
            } else if x == ws[1] && 0 < x.y < n && !removed.contains(x) {
                assert(x == spec_walls_of(r)[1]);
            } else if x == ws[2] && 0 < x.y < n && !removed.contains(x) {
                assert(x == spec_walls_of(r)[2]);
            } else {
                assert(x == spec_walls_of(r)[3]);
            }
        }
    }
}

/// Appending a fresh element keeps a sequence duplicate-free and adds
/// exactly that element.
proof fn lemma_push_props<T>(s: Seq<T>, x: T)
    requires
        s.no_duplicates(),
        !s.contains(x),
    ensures
        s.push(x).no_duplicates(),
        forall|y: T| #[trigger] s.push(x).contains(y) <==> (s.contains(y) || y == x),
{
    let t = s.push(x);
    assert forall|y: T| #[trigger] t.contains(y) implies (s.contains(y) || y == x) by {
        let i = choose|i: int| 0 <= i < t.len() && t[i] == y;
        if i < s.len() {
            assert(s[i] == y);
        }
    }
    assert forall|y: T| (s.contains(y) || y == x) implies #[trigger] t.contains(y) by {
        if s.contains(y) {
            let i = choose|i: int| 0 <= i < s.len() && s[i] == y;
            assert(t[i] == y);
        } else {
            assert(t[s.len() as int] == y);
        }
    }
    assert forall|i: int, j: int|
        0 <= i < t.len() && 0 <= j < t.len() && i != j implies t[i] != t[j] by {
        if i < s.len() && j < s.len() {
        } else if i < s.len() {
            assert(s.contains(s[i]));
        } else {
            assert(s.contains(s[j]));
        }
    }
}

/// One decision preserves well-formedness: the new state after
/// `step_model` is well-formed again, the removed set grows by exactly
/// one, the linked set never shrinks, and a carve-event names an interior
/// wall.
#[verifier::rlimit(100)]
pub proof fn lemma_step_preserves_wf(m: BuilderModel, k: int)
    requires
        m.wf(),
        0 <= k < m.todo.len(),
    ensures
        step_model(m, k).0.wf(),
        step_model(m, k).0.n == m.n,
        step_model(m, k).0.start == m.start,
        step_model(m, k).0.removed.len() == m.removed.len() + 1,
        m.linked.len() <= step_model(m, k).0.linked.len() <= m.linked.len() + 1,
        step_model(m, k).1 matches Some(w) ==> m.wall_in_range(w),
{
    let w = m.todo[k];
    assert(m.todo.contains(w));
    let m2 = step_model(m, k).0;
    let todo1 = swap_removed(m.todo, k);
    let removed1 = m.removed.push(w);
    lemma_swap_removed_props(m.todo, k);
    lemma_push_props(m.removed, w);
    let rooms = spec_rooms_of(w);
    let r0 = rooms[0];
    let r1 = rooms[1];
    assert(m.n >= 1);
    assert(m.in_grid(r0) && m.in_grid(r1));
    if m.linked.contains(r0) && m.linked.contains(r1) {
        // rejected: only the bookkeeping sets move
        assert(m2.wf_shape());
        assert(m2.wf_boundary());
        assert(m2.wf_interior());
        assert(m2.wf_sets());
        assert(m2.wf_linked());
        assert forall|x: Wall| #[trigger] m2.todo.contains(x) implies {
            &&& m2.wall_in_range(x)
            &&& m2.slot(x) == WallStatus::Closed
            &&& (m2.linked.contains(spec_rooms_of(x)[0]) || m2.linked.contains(
                spec_rooms_of(x)[1],
            ))
        } by {
            assert(m.todo.contains(x));
        }
        assert(m2.wf_removed());
        assert forall|r: Room, i: int|
            m2.linked.contains(r) && 0 <= i < 4 && m2.wall_in_range(
                #[trigger] spec_walls_of(r)[i],
            ) implies m2.todo.contains(spec_walls_of(r)[i]) || m2.removed.contains(
            spec_walls_of(r)[i],
        ) by {
            let x = spec_walls_of(r)[i];
            assert(m.todo.contains(x) || m.removed.contains(x));
        }
        assert forall|x: Wall|
            m2.wall_in_range(x) && #[trigger] m2.slot(x) == WallStatus::Open
                implies m2.removed.contains(x) by {
            assert(m2.slot(x) == m.slot(x));
            assert(m.removed.contains(x));
        }
        assert(m2.wf_open());
        assert forall|r: Room| #[trigger] m2.linked.contains(r) implies reachable(
            m2,
            m2.start_room(),
            r,
        ) by {
            assert(m.linked.contains(r));
            assert(reachable(m, m.start_room(), r));
            lemma_reach_same_walls(m, m2, m.start_room(), r);
        }
        assert(m2.wf_reach());
        assert(m2.wf_count());
    } else {
        // carved: one room joins the tree and one slot opens
        let u = if !m.linked.contains(r1) {
            r1
        } else {
            r0
        };
        let other = if !m.linked.contains(r1) {
            r0
        } else {
            r1
        };
        assert(!m.linked.contains(u));
        assert(m.linked.contains(other));
        let todo2 = after_insert_room(todo1, removed1, m.n, u);
        let linked1 = m.linked.push(u);
        lemma_after_insert_room_props(todo1, removed1, m.n, u);
        lemma_push_props(m.linked, u);
        crate::maze::lemma_room_wall_round_trip(u);
        assert(m2.linked == linked1 && m2.todo == todo2 && m2.removed == removed1);
        // the maze changes in exactly one interior slot
        assert(m2.slot(w) == WallStatus::Open);
        assert forall|x: Wall|
            x != w && m.wall_in_range(x) implies #[trigger] m2.slot(x) == m.slot(x) by {
            if x.direction == w.direction && x.y == w.y {
                assert(x.x != w.x);
            }
        }
        assert(m2.wf_shape());
        assert forall|j: int|
            0 <= j < m2.n implies #[trigger] m2.h[0][j] == (if j == 0 {
            WallStatus::Open
        } else {
            WallStatus::Out
        }) by {
            assert(m.h[0][j] == m2.h[0][j]);
        }
        assert forall|j: int|
            0 <= j < m2.n implies #[trigger] m2.h[m2.n][j] == (if j == m2.n - 1 {
            WallStatus::Open
        } else {
            WallStatus::Out
        }) by {
            assert(m.h[m.n][j] == m2.h[m2.n][j]);
        }
        assert forall|j: int| 0 <= j < m2.n implies #[trigger] m2.v[0][j] == WallStatus::Out by {
            assert(m.v[0][j] == m2.v[0][j]);
        }
        assert forall|j: int|
            0 <= j < m2.n implies #[trigger] m2.v[m2.n][j] == WallStatus::Out by {
            assert(m.v[m.n][j] == m2.v[m2.n][j]);
        }
        assert(m2.wf_boundary());
        assert(m2.wf_interior());
        // the four walls of the newly linked room are interior candidates
        assert forall|i: int| 0 <= i < 4 implies {
            let x = #[trigger] spec_walls_of(u)[i];
            0 <= x.x < m.n && (0 < x.y < m.n ==> m.wall_in_range(x)) && spec_rooms_of(
                x,
            ).contains(u)
        } by {
            if i == 0 {
            } else if i == 1 {
            } else if i == 2 {
            } else {
            }
        }
        // frontier: old members keep their properties, new members gain them
        assert forall|x: Wall| #[trigger] m2.todo.contains(x) implies {
            &&& m2.wall_in_range(x)
            &&& m2.slot(x) == WallStatus::Closed
            &&& (m2.linked.contains(spec_rooms_of(x)[0]) || m2.linked.contains(
                spec_rooms_of(x)[1],
            ))
        } by {
            if todo1.contains(x) {
                assert(m.todo.contains(x));
                assert(x != w);
            } else {
                let i = choose|i: int|
                    0 <= i < 4 && x == spec_walls_of(u)[i] && 0 < x.y < m.n
                        && !removed1.contains(x);
                assert(x != w);
                assert(m.wall_in_range(x));
                assert(m.slot(x) != WallStatus::Out);
                if m.slot(x) == WallStatus::Open {
                    assert(m.removed.contains(x));
                }
                assert(spec_rooms_of(x).contains(u));
                let j = choose|j: int| 0 <= j < 2 && spec_rooms_of(x)[j] == u;
                if j == 0 {
                    assert(m2.linked.contains(spec_rooms_of(x)[0]));
                } else {
                    assert(m2.linked.contains(spec_rooms_of(x)[1]));
                }
            }
        }
        assert(m2.wf_todo());
        assert(m2.linked.no_duplicates());
        assert(m2.todo.no_duplicates());
        assert(m2.removed.no_duplicates());
        assert forall|x: Wall| #[trigger] m2.todo.contains(x) implies !m2.removed.contains(
            x,
        ) by {
            if todo1.contains(x) {
                assert(m.todo.contains(x));
                assert(x != w);
            }
        }
        assert(m2.wf_sets());
        assert(m2.in_grid(u));
        assert(m2.wf_linked());
        assert forall|x: Wall| #[trigger] m2.removed.contains(x) implies {
            &&& m2.wall_in_range(x)
            &&& m2.linked.contains(spec_rooms_of(x)[0])
            &&& m2.linked.contains(spec_rooms_of(x)[1])
        } by {
            if x == w {
                assert(m.linked.contains(other));
                if !m.linked.contains(r1) {
                    assert(m2.linked.contains(r0) && m2.linked.contains(r1));
                } else {
                    assert(m2.linked.contains(r0) && m2.linked.contains(r1));
                }
            }
        }
        assert(m2.wf_removed());
        assert forall|r: Room, i: int|
            m2.linked.contains(r) && 0 <= i < 4 && m2.wall_in_range(
                #[trigger] spec_walls_of(r)[i],
            ) implies m2.todo.contains(spec_walls_of(r)[i]) || m2.removed.contains(
            spec_walls_of(r)[i],
        ) by {
            let x = spec_walls_of(r)[i];
            if m.linked.contains(r) {
                assert(m.todo.contains(x) || m.removed.contains(x));
                if m.todo.contains(x) && x != w {
                    assert(todo1.contains(x));
                    assert(m2.todo.contains(x));
                }
            } else {
                assert(r == u);
                if !removed1.contains(x) {
                    assert(m2.todo.contains(x));
                }
            }
        }
        assert(m2.wf_coverage());
        assert forall|x: Wall|
            m2.wall_in_range(x) && #[trigger] m2.slot(x) == WallStatus::Open
                implies m2.removed.contains(x) by {
            if x != w {
                assert(m.slot(x) == WallStatus::Open);
            }
        }
        assert(m2.wf_open());
        // the tree count: exactly one closed interior slot opened, one room
        // joined
        assert(m.slot(w) == WallStatus::Closed);
        if w.direction == Direction::Horizontal {
            lemma_rows_count_update(m.h, m.n, w.y as int, w.x as int);
            assert(rows_open_count(m2.h, m2.n) == rows_open_count(m.h, m.n) + 1);
            assert(m2.v == m.v);
        } else {
            lemma_rows_count_update(m.v, m.n, w.y as int, w.x as int);
            assert(rows_open_count(m2.v, m2.n) == rows_open_count(m.v, m.n) + 1);
            assert(m2.h == m.h);
        }
        assert(m2.wf_count());
        // connectivity: old rooms by monotonicity, the new room through the
        // carved wall
        assert forall|x: Wall|
            m.wall_in_range(x) && #[trigger] m.slot(x) == WallStatus::Open implies m2.slot(x)
            == WallStatus::Open by {
            assert(x != w);
        }
        assert forall|r: Room| #[trigger] m2.linked.contains(r) implies reachable(
            m2,
            m2.start_room(),
            r,
        ) by {
            if m.linked.contains(r) {
                assert(reachable(m, m.start_room(), r));
                lemma_reach_monotone(m, m2, m.start_room(), r);
            } else {
                assert(r == u);
                assert(reachable(m, m.start_room(), other));
                lemma_reach_monotone(m, m2, m.start_room(), other);
                lemma_wall_connects(m2, w);
                assert(open_between(m2, other, u));
                lemma_reach_extend(m2, m2.start_room(), other, u);
            }
        }
        assert(m2.wf_reach());
    }
}

/// A duplicate-free sequence of interior walls can hold at most one wall
/// per interior slot: `n * n` per direction.
proof fn lemma_distinct_walls_bound(s: Seq<Wall>, n: int)
    requires
        n >= 0,
        s.no_duplicates(),
        forall|w: Wall| #[trigger] s.contains(w) ==> 0 <= w.x < n && 0 < w.y < n,
    ensures
        s.len() <= 2 * n * n,
{
    let key = |w: Wall|
        (if w.direction == Direction::Horizontal {
            0int
        } else {
            1int
        }) * n * n + w.y * n + w.x;
    let t = s.map_values(key);
    assert forall|i: int, j: int|
        0 <= i < t.len() && 0 <= j < t.len() && i != j implies t[i] != t[j] by {
        let w1 = s[i];
        let w2 = s[j];
        assert(s.contains(w1));
        assert(s.contains(w2));
        assert(w1 != w2);
        assert(key(w1) != key(w2)) by (nonlinear_arith)
            requires
                0 <= w1.x < n && 0 < w1.y < n,
                0 <= w2.x < n && 0 < w2.y < n,
                w1 != w2,
                key(w1) == (if w1.direction == Direction::Horizontal {
                    0int
                } else {
                    1int
                }) * n * n + w1.y * n + w1.x,
                key(w2) == (if w2.direction == Direction::Horizontal {
                    0int
                } else {
                    1int
                }) * n * n + w2.y * n + w2.x,
        ;
    }
    assert forall|x: int| #[trigger] t.to_set().contains(x) implies vstd::set_lib::set_int_range(
        0,
        2 * n * n,
    ).contains(x) by {
        let i = choose|i: int| 0 <= i < t.len() && t[i] == x;
        let w = s[i];
        assert(s.contains(w));
        assert(0 <= key(w) < 2 * n * n) by (nonlinear_arith)
            requires
                0 <= w.x < n && 0 < w.y < n,
                key(w) == (if w.direction == Direction::Horizontal {
                    0int
                } else {
                    1int
                }) * n * n + w.y * n + w.x,
        ;
    }
    t.unique_seq_to_set();
    vstd::set_lib::lemma_int_range(0, 2 * n * n);
    vstd::set_lib::lemma_len_subset(
        t.to_set(),
        vstd::set_lib::set_int_range(0, 2 * n * n),
    );
}

/// Uniform random index below `n`.
///
/// Relies on `rand::Rng::gen_range`: the result of `gen_range(0..n)` lies
/// in `0..n`; the call panics only on an empty range, which the
/// precondition rules out.
#[verifier::external_body]
fn random_index(n: usize) -> (r: usize)
    requires
        n > 0,
    ensures
        r < n,
{
    rand::thread_rng().gen_range(0..n)
}

fn contains_room(v: &Vec<Room>, r: Room) -> (b: bool)
    ensures
        b == v@.contains(r),
{
    let mut i: usize = 0;
    while i < v.len()
        invariant
            i <= v@.len(),
            forall|k: int| 0 <= k < i ==> v@[k] != r,
        decreases v@.len() - i,
    {
        if v[i] == r {
            return true;
        }
        i = i + 1;
    }
    false
}

fn contains_wall(v: &Vec<Wall>, w: Wall) -> (b: bool)
    ensures
        b == v@.contains(w),
{
    let mut i: usize = 0;
    while i < v.len()
        invariant
            i <= v@.len(),
            forall|k: int| 0 <= k < i ==> v@[k] != w,
        decreases v@.len() - i,
    {
        if v[i] == w {
            return true;
        }
        i = i + 1;
    }
    false
}

/// The maze builder: the grid plus the three bookkeeping sets of the
/// randomized spanning-tree construction.
#[derive(Debug)]
pub struct MazeBuilder {
    maze: Maze,
    linked_room_set: Vec<Room>,
    todo_wall_set: Vec<Wall>,
    removed_wall_set: Vec<Wall>,
    start_point: (i32, i32),
    row_count: i32,
}

impl View for MazeBuilder {
    type V = BuilderModel;

    closed spec fn view(&self) -> BuilderModel {
        BuilderModel {
            h: grid_view(self.maze.horizontal@),
            v: grid_view(self.maze.vertical@),
            linked: self.linked_room_set@,
            todo: self.todo_wall_set@,
            removed: self.removed_wall_set@,
            start: (self.start_point.0 as int, self.start_point.1 as int),
            n: self.row_count as int,
        }
    }
}

impl MazeBuilder {
    /// A fresh builder: grid allocated, entrance and exit opened, the start
    /// room linked and its interior walls seeding the frontier.
    pub fn new(row_count: usize) -> (b: MazeBuilder)
        requires
            row_count <= i32::MAX as usize,
        ensures
            b@.wf(),
            b@.n == row_count as int,
            b@.removed.len() == 0,
            b@.linked == (if row_count == 0 {
                Seq::<Room>::empty()
            } else {
                seq![Room { x: 0, y: 0 }]
            }),
            b@.todo == after_insert_room(
                Seq::<Wall>::empty(),
                Seq::<Wall>::empty(),
                row_count as int,
                Room { x: 0, y: 0 },
            ),
            row_count <= 1 ==> b@.todo.len() == 0,
    {
        let maze = Maze::new(row_count);
        let mut new_maze_build = MazeBuilder {
            maze,
            linked_room_set: Vec::new(),
            todo_wall_set: Vec::new(),
            removed_wall_set: Vec::new(),
            start_point: (0, 0),
            row_count: row_count as i32,
        };
        new_maze_build.init();
        new_maze_build
    }

    fn init(&mut self)
        requires
            0 <= old(self)@.n <= i32::MAX,
            old(self)@.start == (0int, 0int),
            old(self)@.linked.len() == 0,
            old(self)@.todo.len() == 0,
            old(self)@.removed.len() == 0,
            grid_shape(old(self)@.h, old(self)@.n),
            grid_shape(old(self)@.v, old(self)@.n),
            forall|i: int, j: int|
                0 <= i <= old(self)@.n && 0 <= j < old(self)@.n ==> #[trigger] old(
                    self,
                )@.h[i][j] == (if i == 0 || i == old(self)@.n {
                    WallStatus::Out
                } else {
                    WallStatus::Closed
                }),
            forall|i: int, j: int|
                0 <= i <= old(self)@.n && 0 <= j < old(self)@.n ==> #[trigger] old(
                    self,
                )@.v[i][j] == (if i == 0 || i == old(self)@.n {
                    WallStatus::Out
                } else {
                    WallStatus::Closed
                }),
        ensures
            final(self)@.wf(),
            final(self)@.n == old(self)@.n,
            final(self)@.removed.len() == 0,
            final(self)@.linked == (if old(self)@.n == 0 {
                Seq::<Room>::empty()
            } else {
                seq![Room { x: 0, y: 0 }]
            }),
            final(self)@.todo == after_insert_room(
                Seq::<Wall>::empty(),
                Seq::<Wall>::empty(),
                old(self)@.n,
                Room { x: 0, y: 0 },
            ),
    {
        let row_count = self.row_count as usize;
        if row_count > 0 {
            let start_x = self.start_point.0 as usize;
            let start_y = self.start_point.1 as usize;
            proof {
                let g = old(self)@.h;
                assert(g[0] == self.maze.horizontal@[0]@);
                assert(g[row_count as int] == self.maze.horizontal@[row_count as int]@);
            }
            self.maze.horizontal[start_x][start_y] = WallStatus::Open;
            self.maze.horizontal[row_count][row_count - 1] = WallStatus::Open;
            let start_room = Room::new(self.start_point.0, self.start_point.1);
            self.add_wall_into_todo_set(&start_room);
            self.linked_room_set.push(start_room);
            proof {
                let m = self@;
                let n = m.n;
                let start = Room { x: 0, y: 0 };
                let empty = Seq::<Wall>::empty();
                assert(old(self)@.todo =~= empty);
                assert(old(self)@.removed =~= empty);
                lemma_after_insert_room_props(empty, empty, n, start);
                crate::maze::lemma_room_wall_round_trip(start);
                assert(m.linked =~= seq![start]);
                assert(m.linked[0] == start);
                assert(m.linked.contains(start));
                assert(m.todo == after_insert_room(empty, empty, n, start));
                // grid after opening the entrance and the exit
                assert(m.h.len() == n + 1 && m.v.len() == n + 1);
                assert forall|i: int| 0 <= i < m.h.len() implies (#[trigger] m.h[i]).len()
                    == n by {
                    assert(old(self)@.h[i].len() == n);
                    assert(old(self)@.h[i] == old(self).maze.horizontal@[i]@);
                }
                assert(grid_shape(m.h, n));
                assert forall|i: int| 0 <= i < m.v.len() implies (#[trigger] m.v[i]).len()
                    == n by {
                    assert(old(self)@.v[i].len() == n);
                    assert(old(self)@.v[i] == old(self).maze.vertical@[i]@);
                }
                assert(grid_shape(m.v, n));
                assert forall|i: int, j: int|
                    0 <= i <= n && 0 <= j < n implies #[trigger] m.h[i][j] == (if i == 0 && j
                    == 0 {
                    WallStatus::Open
                } else if i == n && j == n - 1 {
                    WallStatus::Open
                } else if i == 0 || i == n {
                    WallStatus::Out
                } else {
                    WallStatus::Closed
                }) by {
                    let oh = old(self)@.h[i][j];
                    assert(old(self)@.h[i] == old(self).maze.horizontal@[i]@);
                }
                assert forall|i: int, j: int|
                    0 <= i <= n && 0 <= j < n implies #[trigger] m.v[i][j] == (if i == 0 || i
                    == n {
                    WallStatus::Out
                } else {
                    WallStatus::Closed
                }) by {
                    let ov = old(self)@.v[i][j];
                    assert(old(self)@.v[i] == old(self).maze.vertical@[i]@);
                }
                assert(m.wf_boundary());
                assert(m.wf_interior());
                // frontier members: interior walls of the start room
                assert forall|x: Wall| #[trigger] m.todo.contains(x) implies {
                    &&& m.wall_in_range(x)
                    &&& m.slot(x) == WallStatus::Closed
                    &&& (m.linked.contains(spec_rooms_of(x)[0]) || m.linked.contains(
                        spec_rooms_of(x)[1],
                    ))
                } by {
                    let i = choose|i: int|
                        0 <= i < 4 && x == spec_walls_of(start)[i] && 0 < x.y < n
                            && !empty.contains(x);
                    assert(x.x == 0);
                    assert(spec_rooms_of(x).contains(start));
                    let j = choose|j: int| 0 <= j < 2 && spec_rooms_of(x)[j] == start;
                    if j == 0 {
                        assert(m.linked.contains(spec_rooms_of(x)[0]));
                    } else {
                        assert(m.linked.contains(spec_rooms_of(x)[1]));
                    }
                }
                assert(m.wf_todo());
                assert(m.wf_sets());
                assert(m.wf_linked());
                assert(m.removed.len() == 0);
                assert(m.wf_removed());
                assert forall|r: Room, i: int|
                    m.linked.contains(r) && 0 <= i < 4 && m.wall_in_range(
                        #[trigger] spec_walls_of(r)[i],
                    ) implies m.todo.contains(spec_walls_of(r)[i]) || m.removed.contains(
                    spec_walls_of(r)[i],
                ) by {
                    assert(r == start);
                    let x = spec_walls_of(r)[i];
                    assert(0 < x.y < n && !empty.contains(x));
                    assert(m.todo.contains(x));
                }
                assert(m.wf_coverage());
                assert forall|x: Wall|
                    m.wall_in_range(x) && #[trigger] m.slot(x) == WallStatus::Open
                        implies m.removed.contains(x) by {
                    assert(m.slot(x) == WallStatus::Closed);
                }
                assert(m.wf_open());
                assert forall|r: Room| #[trigger] m.linked.contains(r) implies reachable(
                    m,
                    m.start_room(),
                    r,
                ) by {
                    assert(r == start);
                    lemma_reach_refl(m, start);
                }
                assert(m.wf_reach());
                lemma_rows_count_zero(m.h, n);
                lemma_rows_count_zero(m.v, n);
                assert(m.wf_count());
            }
        } else {
            proof {
                let m = self@;
                assert(m.todo =~= after_insert_room(
                    Seq::<Wall>::empty(),
                    Seq::<Wall>::empty(),
                    m.n,
                    Room { x: 0, y: 0 },
                ));
                assert(m.linked =~= Seq::<Room>::empty());
                assert(m.wf_shape());
                assert(m.wf_boundary());
                assert(m.wf_interior());
                assert(m.wf_sets());
                assert(m.wf_linked());
                assert(m.wf_todo());
                assert(m.wf_removed());
                assert(m.wf_coverage());
                assert(m.wf_open());
                assert(m.wf_reach());
                assert(m.wf_count());
            }
        }
    }

    /// Offer every wall of a room to the frontier; only interior walls that
    /// are neither decided nor already queued enter.
    fn add_wall_into_todo_set(&mut self, room: &Room)
        requires
            room.x < i32::MAX,
            room.y < i32::MAX,
        ensures
            final(self)@ == (BuilderModel {
                todo: after_insert_room(old(self)@.todo, old(self)@.removed, old(self)@.n, *room),
                ..old(self)@
            }),
    {
        let wall_by_room = Self::get_wall_by_room(room);
        self.offer_wall(wall_by_room[0]);
        self.offer_wall(wall_by_room[1]);
        self.offer_wall(wall_by_room[2]);
        self.offer_wall(wall_by_room[3]);
    }

    fn offer_wall(&mut self, wall: Wall)
        ensures
            final(self)@ == (BuilderModel {
                todo: after_insert(old(self)@.todo, old(self)@.removed, old(self)@.n, wall),
                ..old(self)@
            }),
    {
        if wall.y > 0 && wall.y < self.row_count && !contains_wall(&self.removed_wall_set, wall)
            && !contains_wall(&self.todo_wall_set, wall) {
            self.todo_wall_set.push(wall);
        }
    }

    /// The four walls bounding a room, in the fixed order: above, right,
    /// below, left.
    pub fn get_wall_by_room(room: &Room) -> (r: Vec<Wall>)
        requires
            room.x < i32::MAX,
            room.y < i32::MAX,
        ensures
            r@ == spec_walls_of(*room),
    {
        let x = room.x;
        let y = room.y;
        let mut r: Vec<Wall> = Vec::new();
        r.push(Wall::new(x, y, Direction::Horizontal));
        r.push(Wall::new(y, x + 1, Direction::Vertical));
        r.push(Wall::new(x, y + 1, Direction::Horizontal));
        r.push(Wall::new(y, x, Direction::Vertical));
        proof {
            assert(r@ =~= spec_walls_of(*room));
        }
        r
    }

    /// The two rooms a wall separates, in increasing order along the
    /// governing axis.
    pub fn get_rooms_by_wall(wall: &Wall) -> (r: Vec<Room>)
        requires
            wall.y > i32::MIN,
        ensures
            r@ == spec_rooms_of(*wall),
    {
        let x = wall.x;
        let y = wall.y;
        let mut r: Vec<Room> = Vec::new();
        if wall.direction == Direction::Horizontal {
            r.push(Room::new(x, y - 1));
            r.push(Room::new(x, y));
        } else {
            r.push(Room::new(y - 1, x));
            r.push(Room::new(y, x));
        }
        proof {
            assert(r@ =~= spec_rooms_of(*wall));
        }
        r
    }

    pub fn frontier_count(&self) -> (r: usize)
        ensures
            r == self@.todo.len(),
    {
        self.todo_wall_set.len()
    }

    pub fn linked_count(&self) -> (r: usize)
        ensures
            r == self@.linked.len(),
    {
        self.linked_room_set.len()
    }

    pub fn removed_count(&self) -> (r: usize)
        ensures
            r == self@.removed.len(),
    {
        self.removed_wall_set.len()
    }

    /// One maze-growing decision with the random choice injected: take the
    /// frontier wall at index `k`, decide it, and return the carve-event if
    /// the wall was opened.  The new state is an exact function of the old
    /// state and `k`, which makes a run with a fixed choice sequence
    /// reproducible.
    pub fn step_at(&mut self, k: usize) -> (e: Option<Wall>)
        requires
            old(self)@.wf(),
            k < old(self)@.todo.len(),
        ensures
            final(self)@.wf(),
            final(self)@ == step_model(old(self)@, k as int).0,
            e == step_model(old(self)@, k as int).1,
            final(self)@.n == old(self)@.n,
            final(self)@.removed.len() == old(self)@.removed.len() + 1,
            old(self)@.linked.len() <= final(self)@.linked.len() <= old(self)@.linked.len() + 1,
            e matches Some(w) ==> old(self)@.wall_in_range(w),
    {
        let ghost m0 = self@;
        proof {
            assert(m0.todo.contains(m0.todo[k as int]));
            lemma_step_preserves_wf(m0, k as int);
        }
        let random_wall = self.todo_wall_set[k];
        self.todo_wall_set.swap_remove(k);
        self.removed_wall_set.push(random_wall);
        let rooms = Self::get_rooms_by_wall(&random_wall);
        let mut link_num: usize = 0;
        let mut unlink_index: usize = 0;
        if contains_room(&self.linked_room_set, rooms[0]) {
            link_num = link_num + 1;
        } else {
            unlink_index = 0;
        }
        if contains_room(&self.linked_room_set, rooms[1]) {
            link_num = link_num + 1;
        } else {
            unlink_index = 1;
        }
        if link_num != 2 {
            let unlink_room = rooms[unlink_index];
            proof {
                assert(m0.wall_in_range(random_wall));
                assert((random_wall.y - 1) as i32 == random_wall.y - 1);
                assert(m0.in_grid(spec_rooms_of(random_wall)[0]));
                assert(m0.in_grid(spec_rooms_of(random_wall)[1]));
            }
            self.add_wall_into_todo_set(&unlink_room);
            self.linked_room_set.push(unlink_room);
            let x = random_wall.x as usize;
            let y = random_wall.y as usize;
            proof {
                assert(m0.h[y as int] == self.maze.horizontal@[y as int]@);
                assert(m0.v[y as int] == self.maze.vertical@[y as int]@);
                assert(m0.h[y as int].len() == m0.n && m0.v[y as int].len() == m0.n);
            }
            match random_wall.direction {
                Direction::Horizontal => {
                    self.maze.horizontal[y][x] = WallStatus::Open;
                },
                Direction::Vertical => {
                    self.maze.vertical[y][x] = WallStatus::Open;
                },
            }
            proof {
                let expected = step_model(m0, k as int).0;
                assert forall|i: int| 0 <= i <= m0.n implies #[trigger] self@.h[i]
                    == expected.h[i] by {
                    assert(m0.h[i] == old(self).maze.horizontal@[i]@);
                    assert(self@.h[i] == self.maze.horizontal@[i]@);
                }
                assert forall|i: int| 0 <= i <= m0.n implies #[trigger] self@.v[i]
                    == expected.v[i] by {
                    assert(m0.v[i] == old(self).maze.vertical@[i]@);
                    assert(self@.v[i] == self.maze.vertical@[i]@);
                }
                assert(self@.h =~= expected.h);
                assert(self@.v =~= expected.v);
                assert(self@ == expected);
            }
            Some(random_wall)
        } else {
            proof {
                let expected = step_model(m0, k as int).0;
                assert(self@.h =~= expected.h);
                assert(self@.v =~= expected.v);
                assert(self@ == expected);
            }
            None
        }
    }

    /// One maze-growing decision with the wall chosen uniformly at random
    /// from the frontier.  Returns `None` once the frontier is exhausted,
    /// `Some(None)` for a rejected wall, and `Some(Some(wall))` for a
    /// carve-event.
    pub fn next(&mut self) -> (r: Option<Option<Wall>>)
        requires
            old(self)@.wf(),
        ensures
            final(self)@.wf(),
            final(self)@.n == old(self)@.n,
            old(self)@.todo.len() == 0 ==> r == None::<Option<Wall>> && final(self)@ == old(
                self,
            )@,
            old(self)@.todo.len() > 0 ==> (exists|k: int|
                0 <= k < old(self)@.todo.len() && final(self)@ == (#[trigger] step_model(
                    old(self)@,
                    k,
                )).0 && r == Some(step_model(old(self)@, k).1)),
            old(self)@.todo.len() > 0 ==> final(self)@.removed.len() == old(
                self,
            )@.removed.len() + 1,
            old(self)@.linked.len() <= final(self)@.linked.len(),
    {
        if self.todo_wall_set.len() == 0 {
            return None;
        }
        let k = random_index(self.todo_wall_set.len());
        let e = self.step_at(k);
        Some(e)
    }

    /// The full-snapshot view of the current grid: both wall arrays as
    /// booleans, `true` meaning "wall present".
    pub fn get_json_maze(&self) -> (r: crate::render::MazeSnapshot)
        ensures
            crate::render::bool_grid_view(r.h@) == crate::render::bool_grid(self@.h),
            crate::render::bool_grid_view(r.v@) == crate::render::bool_grid(self@.v),
    {
        let h = crate::render::data_map(&self.maze.horizontal);
        let v = crate::render::data_map(&self.maze.vertical);
        crate::render::MazeSnapshot { h, v }
    }

    /// Drain the builder: repeat decisions until the frontier is empty.
    pub fn run_to_completion(&mut self)
        requires
            old(self)@.wf(),
        ensures
            final(self)@.wf(),
            final(self)@.n == old(self)@.n,
            final(self)@.todo.len() == 0,
    {
        let ghost n = self@.n;
        while self.todo_wall_set.len() > 0
            invariant
                self@.wf(),
                self@.n == n,
            decreases 2 * n * n - self@.removed.len(),
        {
            proof {
                let m = self@;
                let w0 = m.todo[0];
                assert(m.todo.contains(w0));
                let grown = m.removed.push(w0);
                assert forall|x: Wall| #[trigger] grown.contains(x) implies 0 <= x.x < n && 0
                    < x.y < n by {
                    let i = choose|i: int| 0 <= i < grown.len() && grown[i] == x;
                    if i < m.removed.len() {
                        assert(m.removed.contains(x));
                    }
                }
                assert forall|i: int, j: int|
                    0 <= i < grown.len() && 0 <= j < grown.len() && i != j implies grown[i]
                    != grown[j] by {
                    if i < m.removed.len() && j < m.removed.len() {
                    } else if i < m.removed.len() {
                        assert(m.removed.contains(grown[i]));
                    } else {
                        assert(m.removed.contains(grown[j]));
                    }
                }
                lemma_distinct_walls_bound(grown, n);
            }
            let _ = self.next();
        }
    }
}

} // verus!
