//! The guarantees of the finished maze: once the frontier is exhausted the
//! open walls form a spanning tree of the grid — every room is reachable
//! from every other (connectivity), and exactly `n * n - 1` interior walls
//! are open (acyclicity).  A run with the random choices injected is a
//! function of the initial state and the choices, and the snapshot
//! projection is a function of the state.

use vstd::prelude::*;
use crate::builder::BuilderModel;
use crate::builder::is_path;
use crate::builder::lemma_reach_extend;
use crate::builder::lemma_reach_refl;
use crate::builder::open_between;
use crate::builder::open_interior_count;
use crate::builder::reachable;
use crate::builder::step_model;
use crate::maze::Direction;
use crate::maze::Room;
use crate::maze::Wall;
use crate::maze::spec_rooms_of;
use crate::maze::spec_walls_of;
use crate::render::bool_grid;

verus! {

/// With the frontier exhausted, a linked room's right-hand neighbour is
/// linked: the wall between them was decided, and decided walls join two
/// linked rooms.
proof fn lemma_step_right(m: BuilderModel, r: Room)
    requires
        m.wf(),
        m.todo.len() == 0,
        m.linked.contains(r),
        m.in_grid(r),
        r.x + 1 < m.n,
    ensures
        m.linked.contains(Room { x: (r.x + 1) as i32, y: r.y }),
{
    let w = spec_walls_of(r)[1];
    assert(w == (Wall { x: r.y, y: (r.x + 1) as i32, direction: Direction::Vertical }));
    assert(m.wall_in_range(w));
    assert(m.todo.contains(w) || m.removed.contains(w));
    assert(m.removed.contains(w));
    assert(spec_rooms_of(w)[1] == (Room { x: (r.x + 1) as i32, y: r.y }));
    assert(m.linked.contains(spec_rooms_of(w)[1]));
}

/// With the frontier exhausted, a linked room's upper neighbour is linked.
proof fn lemma_step_up(m: BuilderModel, r: Room)
    requires
        m.wf(),
        m.todo.len() == 0,
        m.linked.contains(r),
        m.in_grid(r),
        r.y + 1 < m.n,
    ensures
        m.linked.contains(Room { x: r.x, y: (r.y + 1) as i32 }),
{
    let w = spec_walls_of(r)[2];
    assert(w == (Wall { x: r.x, y: (r.y + 1) as i32, direction: Direction::Horizontal }));
    assert(m.wall_in_range(w));
    assert(m.todo.contains(w) || m.removed.contains(w));
    assert(m.removed.contains(w));
    assert(spec_rooms_of(w)[1] == (Room { x: r.x, y: (r.y + 1) as i32 }));
    assert(m.linked.contains(spec_rooms_of(w)[1]));
}

proof fn lemma_room_linked(m: BuilderModel, x: int, y: int)
    requires
        m.wf(),
        m.todo.len() == 0,
        m.n >= 1,
        0 <= x < m.n,
        0 <= y < m.n,
    ensures
        m.linked.contains(Room { x: x as i32, y: y as i32 }),
    decreases x + y,
{
    if y > 0 {
        lemma_room_linked(m, x, y - 1);
        lemma_step_up(m, Room { x: x as i32, y: (y - 1) as i32 });
    } else if x > 0 {
        lemma_room_linked(m, x - 1, 0);
        lemma_step_right(m, Room { x: (x - 1) as i32, y: 0 });
    } else {
        assert(m.linked.contains(m.start_room()));
    }
}

/// Once the frontier is exhausted, every room of the grid has been linked
/// into the tree.
pub proof fn lemma_exhausted_all_linked(m: BuilderModel)
    requires
        m.wf(),
        m.todo.len() == 0,
        m.n >= 1,
    ensures
        forall|r: Room| m.in_grid(r) ==> #[trigger] m.linked.contains(r),
{
    assert forall|r: Room| m.in_grid(r) implies #[trigger] m.linked.contains(r) by {
        lemma_room_linked(m, r.x as int, r.y as int);
        assert((Room { x: (r.x as int) as i32, y: (r.y as int) as i32 }) == r);
    }
}

proof fn lemma_path_sym(m: BuilderModel, p: Seq<Room>)
    requires
        is_path(m, p),
    ensures
        reachable(m, p.last(), p.first()),
    decreases p.len(),
{
    if p.len() == 1 {
        lemma_reach_refl(m, p.first());
    } else {
        let rest = p.subrange(1, p.len() as int);
        assert forall|i: int| 0 <= i < rest.len() - 1 implies open_between(
            m,
            #[trigger] rest[i],
            rest[i + 1],
        ) by {
            assert(open_between(m, p[i + 1], p[i + 2]));
        }
        assert(is_path(m, rest));
        lemma_path_sym(m, rest);
        assert(rest.last() == p.last() && rest.first() == p[1]);
        assert(open_between(m, p[0], p[1]));
        lemma_reach_extend(m, p.last(), p[1], p[0]);
    }
}

/// Walking through open walls works in both directions.
pub proof fn lemma_reach_sym(m: BuilderModel, a: Room, b: Room)
    requires
        reachable(m, a, b),
    ensures
        reachable(m, b, a),
{
    let p = choose|p: Seq<Room>| is_path(m, p) && p.first() == a && p.last() == b;
    lemma_path_sym(m, p);
}

proof fn lemma_reach_trans_path(m: BuilderModel, a: Room, p: Seq<Room>)
    requires
        is_path(m, p),
        reachable(m, a, p.first()),
    ensures
        reachable(m, a, p.last()),
    decreases p.len(),
{
    if p.len() > 1 {
        let rest = p.subrange(1, p.len() as int);
        assert forall|i: int| 0 <= i < rest.len() - 1 implies open_between(
            m,
            #[trigger] rest[i],
            rest[i + 1],
        ) by {
            assert(open_between(m, p[i + 1], p[i + 2]));
        }
        assert(is_path(m, rest));
        assert(open_between(m, p[0], p[1]));
        lemma_reach_extend(m, a, p[0], p[1]);
        assert(rest.first() == p[1] && rest.last() == p.last());
        lemma_reach_trans_path(m, a, rest);
    }
}

/// Reachability through open walls composes.
pub proof fn lemma_reach_trans(m: BuilderModel, a: Room, b: Room, c: Room)
    requires
        reachable(m, a, b),
        reachable(m, b, c),
    ensures
        reachable(m, a, c),
{
    let p = choose|p: Seq<Room>| is_path(m, p) && p.first() == b && p.last() == c;
    lemma_reach_trans_path(m, a, p);
}

/// Spanning property: in an exhausted builder state, every room of the
/// grid is reachable from every other room through open walls alone.
pub proof fn lemma_spanning(m: BuilderModel, r1: Room, r2: Room)
    requires
        m.wf(),
        m.todo.len() == 0,
        m.n >= 1,
        m.in_grid(r1),
        m.in_grid(r2),
    ensures
        reachable(m, r1, r2),
{
    lemma_exhausted_all_linked(m);
    assert(m.linked.contains(r1) && m.linked.contains(r2));
    assert(reachable(m, m.start_room(), r1));
    assert(reachable(m, m.start_room(), r2));
    lemma_reach_sym(m, m.start_room(), r1);
    lemma_reach_trans(m, r1, m.start_room(), r2);
}

/// The rooms with `x < k`, plus the first `t` rooms of column `k`.
spec fn grid_prefix(n: int, k: int, t: int) -> Set<Room> {
    Set::new(|r: Room| (0 <= r.x < k && 0 <= r.y < n) || (r.x == k && 0 <= r.y < t))
}

proof fn lemma_grid_prefix_card(n: int, k: int, t: int)
    requires
        0 <= n <= i32::MAX,
        0 <= k <= n,
        0 <= t <= n,
    ensures
        grid_prefix(n, k, t).finite(),
        grid_prefix(n, k, t).len() == k * n + t,
    decreases k, t,
{
    broadcast use vstd::set::group_set_axioms;

    if t > 0 {
        lemma_grid_prefix_card(n, k, t - 1);
        let room = Room { x: k as i32, y: (t - 1) as i32 };
        assert(!grid_prefix(n, k, t - 1).contains(room));
        assert(grid_prefix(n, k, t) =~= grid_prefix(n, k, t - 1).insert(room));
        vstd::set::axiom_set_insert_len(grid_prefix(n, k, t - 1), room);
    } else if k > 0 {
        lemma_grid_prefix_card(n, k - 1, n);
        assert(grid_prefix(n, k, 0) =~= grid_prefix(n, k - 1, n));
        assert((k - 1) * n + n == k * n) by (nonlinear_arith);
    } else {
        assert(grid_prefix(n, 0, 0) =~= Set::<Room>::empty());
        assert(Set::<Room>::empty().len() == 0);
        assert(k * n + t == 0) by (nonlinear_arith)
            requires
                k == 0,
                t == 0,
        ;
    }
}

/// Acyclicity by counting: in an exhausted builder state exactly
/// `n * n - 1` interior walls are open — a spanning tree on the `n * n`
/// rooms, the fixed entrance and exit not counted.
pub proof fn lemma_wall_count(m: BuilderModel)
    requires
        m.wf(),
        m.todo.len() == 0,
        m.n >= 1,
    ensures
        open_interior_count(m) == m.n * m.n - 1,
{
    let n = m.n;
    lemma_exhausted_all_linked(m);
    assert forall|r: Room| #[trigger] grid_prefix(n, n, 0).contains(r) implies
        m.linked.to_set().contains(r) by {
        assert(m.in_grid(r));
        assert(m.linked.contains(r));
    }
    assert forall|r: Room| #[trigger] m.linked.to_set().contains(r) implies grid_prefix(
        n,
        n,
        0,
    ).contains(r) by {
        assert(m.linked.contains(r));
        assert(m.in_grid(r));
    }
    assert(m.linked.to_set() =~= grid_prefix(n, n, 0));
    m.linked.unique_seq_to_set();
    lemma_grid_prefix_card(n, n, 0);
    assert(n * n + 0 == n * n);
    assert(m.linked.len() == n * n);
}

/// The event stream of a run with injected choices: each entry is the
/// event of one decision, the wall chosen by the pick reduced modulo the
/// frontier size.
pub open spec fn run_events(m: BuilderModel, picks: Seq<int>) -> Seq<Option<Wall>>
    decreases picks.len(),
{
    if picks.len() == 0 || m.todo.len() <= 0 {
        Seq::empty()
    } else {
        let k = abs_mod(picks[0], m.todo.len() as int);
        let s = step_model(m, k);
        seq![s.1] + run_events(s.0, picks.subrange(1, picks.len() as int))
    }
}

/// Euclidean remainder, used to reduce an arbitrary pick to an index.
pub open spec fn abs_mod(a: int, b: int) -> int {
    if a % b >= 0 {
        a % b
    } else {
        a % b + b
    }
}

/// Determinism under an injected choice sequence: two runs from equal
/// states with equal picks produce the identical, order-sensitive event
/// sequence.
pub proof fn lemma_stream_deterministic(
    m1: BuilderModel,
    m2: BuilderModel,
    picks1: Seq<int>,
    picks2: Seq<int>,
)
    requires
        m1 == m2,
        picks1 == picks2,
    ensures
        run_events(m1, picks1) == run_events(m2, picks2),
{
}

/// Idempotence of the full view: the snapshot projection is a function of
/// the builder state, so projecting one exhausted state twice gives
/// identical grids.
pub proof fn lemma_snapshot_idempotent(m1: BuilderModel, m2: BuilderModel)
    requires
        m1 == m2,
    ensures
        bool_grid(m1.h) == bool_grid(m2.h),
        bool_grid(m1.v) == bool_grid(m2.v),
{
}

} // verus!
