use maze_engine::Direction;
use maze_engine::MazeBuilder;
use maze_engine::MazeSnapshot;
use maze_engine::Wall;
use maze_engine::build_maze_full;
use maze_engine::hello;
use maze_engine::parse_maze_trigger;

#[test]
fn it_works() {
    let row_num: i32 = 10;
    let maze_builder = MazeBuilder::new(row_num as usize);
    println!("{:#?}", maze_builder)
}

#[test]
fn hello_words() {
    assert_eq!(hello(), vec!["hello", "world"]);
}

#[test]
fn wall_event_json() {
    let w = Wall { x: 1, y: 2, direction: Direction::Horizontal };
    assert_eq!(w.to_json(), "{\"x\":1,\"y\":2,\"direction\":\"h\"}");
    let w = Wall { x: 12, y: 0, direction: Direction::Vertical };
    assert_eq!(w.to_json(), "{\"x\":12,\"y\":0,\"direction\":\"v\"}");
    let w = Wall::new(305, 47, Direction::Vertical);
    assert_eq!(w.to_json(), "{\"x\":305,\"y\":47,\"direction\":\"v\"}");
}

#[test]
fn degenerate_one_room() {
    let mut b = MazeBuilder::new(1);
    assert_eq!(b.frontier_count(), 0);
    assert_eq!(b.next(), None);
    let snap = build_maze_full(1);
    assert_eq!(snap.h, vec![vec![false], vec![false]]);
    assert_eq!(snap.v, vec![vec![true], vec![true]]);
}

#[test]
fn empty_grid_does_not_panic() {
    let mut b = MazeBuilder::new(0);
    assert_eq!(b.next(), None);
    let snap = build_maze_full(0);
    assert_eq!(snap.h.len(), 1);
    assert_eq!(snap.h[0].len(), 0);
    assert_eq!(snap.v.len(), 1);
}

#[test]
fn two_by_two_scenario() {
    let mut b = MazeBuilder::new(2);
    let mut carve_events: Vec<Wall> = Vec::new();
    loop {
        match b.next() {
            None => break,
            Some(Some(w)) => carve_events.push(w),
            Some(None) => {},
        }
    }
    assert_eq!(carve_events.len(), 3);
    assert_eq!(b.linked_count(), 4);
    assert_eq!(b.frontier_count(), 0);
    let snap = b.get_json_maze();
    // entrance above the start room and exit below the far corner are open
    assert!(!snap.h[0][0]);
    assert!(!snap.h[2][1]);
    // the rest of the outer ring stays walled
    assert!(snap.h[0][1]);
    assert!(snap.h[2][0]);
    assert!(snap.v[0][0] && snap.v[0][1] && snap.v[2][0] && snap.v[2][1]);
    // a spanning tree on 4 rooms opens exactly 3 interior walls
    let open_interior = snap.h[1].iter().filter(|p| !**p).count() + snap.v[1]
        .iter()
        .filter(|p| !**p)
        .count();
    assert_eq!(open_interior, 3);
}

#[test]
fn deterministic_replay() {
    let picks: Vec<usize> = vec![3, 1, 4, 1, 5, 9, 2, 6, 5, 3, 5, 8, 9, 7, 9, 3];
    let mut runs: Vec<Vec<Option<Wall>>> = Vec::new();
    for _ in 0..2 {
        let mut b = MazeBuilder::new(3);
        let mut events: Vec<Option<Wall>> = Vec::new();
        let mut i = 0;
        while b.frontier_count() > 0 {
            let k = picks[i % picks.len()] % b.frontier_count();
            events.push(b.step_at(k));
            i += 1;
        }
        runs.push(events);
    }
    assert_eq!(runs[0], runs[1]);
    assert!(runs[0].iter().filter(|e| e.is_some()).count() == 8);
}

#[test]
fn snapshot_idempotent() {
    let mut b = MazeBuilder::new(4);
    b.run_to_completion();
    let s1 = b.get_json_maze();
    let s2 = b.get_json_maze();
    assert_eq!(s1, s2);
}

fn assert_spanning(snap: &MazeSnapshot, n: usize) {
    // walk the dual graph through open interior walls only
    let mut seen = vec![vec![false; n]; n];
    let mut queue = vec![(0usize, 0usize)];
    seen[0][0] = true;
    let mut visited = 0;
    while let Some((x, y)) = queue.pop() {
        visited += 1;
        // up: horizontal wall (x, y + 1) at h[y + 1][x]
        if y + 1 < n && !snap.h[y + 1][x] && !seen[x][y + 1] {
            seen[x][y + 1] = true;
            queue.push((x, y + 1));
        }
        if y > 0 && !snap.h[y][x] && !seen[x][y - 1] {
            seen[x][y - 1] = true;
            queue.push((x, y - 1));
        }
        // right: vertical wall (y, x + 1) at v[x + 1][y]
        if x + 1 < n && !snap.v[x + 1][y] && !seen[x + 1][y] {
            seen[x + 1][y] = true;
            queue.push((x + 1, y));
        }
        if x > 0 && !snap.v[x][y] && !seen[x - 1][y] {
            seen[x - 1][y] = true;
            queue.push((x - 1, y));
        }
    }
    assert_eq!(visited, n * n);
}

#[test]
fn spanning_tree_of_five() {
    let n = 5;
    let snap = build_maze_full(n);
    assert_spanning(&snap, n);
    let mut open_interior = 0;
    for i in 1..n {
        open_interior += snap.h[i].iter().filter(|p| !**p).count();
        open_interior += snap.v[i].iter().filter(|p| !**p).count();
    }
    assert_eq!(open_interior, n * n - 1);
}

#[test]
fn spanning_tree_of_one_row_events() {
    // several sizes: drain and recheck connectivity and the wall count
    for n in [1usize, 2, 3, 6, 8] {
        let snap = build_maze_full(n);
        assert_spanning(&snap, n);
    }
}

#[test]
fn trigger_parsing() {
    assert_eq!(parse_maze_trigger("maze:10"), Some(10));
    assert_eq!(parse_maze_trigger("maze:007"), Some(7));
    assert_eq!(parse_maze_trigger("maze:0"), Some(0));
    assert_eq!(parse_maze_trigger("maze:"), None);
    assert_eq!(parse_maze_trigger("labyrinth:5"), None);
    assert_eq!(parse_maze_trigger("maze:12a"), None);
    assert_eq!(parse_maze_trigger("maze:99999999999999999999999999"), None);
    assert_eq!(parse_maze_trigger(""), None);
}
