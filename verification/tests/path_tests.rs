use umbra::fixed::{Fixed, FixedVec2};
use umbra::path::{astar, center, Grid, MoveResult, Mover, Occupancy, Tile};

fn no_extra(_: Tile) -> bool {
    false
}

#[test]
fn straight_line() {
    let g = Grid::new(5, 5);
    let path = astar(&g, (0, 0), (4, 0), &no_extra).unwrap();
    assert_eq!(path, vec![(1, 0), (2, 0), (3, 0), (4, 0)]);
}

#[test]
fn wall_detour() {
    let mut g = Grid::new(5, 5);
    for y in 0..4 {
        g.set_blocked((2, y), true); // wall open only at y=4
    }
    let path = astar(&g, (0, 0), (4, 0), &no_extra).unwrap();
    assert_eq!(*path.last().unwrap(), (4, 0));
    assert!(!path.contains(&(0, 0))); // excludes `from`
    for t in &path {
        assert!(!g.is_blocked(*t)); // never steps on the wall
    }
}

#[test]
fn unreachable_is_none() {
    let mut g = Grid::new(5, 5);
    for y in 0..5 {
        g.set_blocked((2, y), true); // full wall, no gap
    }
    assert_eq!(astar(&g, (0, 0), (4, 0), &no_extra), None);
}

#[test]
fn blocked_target_is_none() {
    let mut g = Grid::new(5, 5);
    g.set_blocked((4, 0), true);
    assert_eq!(astar(&g, (0, 0), (4, 0), &no_extra), None);
}

#[test]
fn no_corner_cut() {
    // (1,1) is reachable diagonally ONLY by cutting the corner past the
    // two orthogonal walls. With corner-cutting forbidden it is unreachable.
    let mut g = Grid::new(3, 3);
    g.set_blocked((1, 0), true);
    g.set_blocked((0, 1), true);
    assert_eq!(astar(&g, (0, 0), (1, 1), &no_extra), None);
}

#[test]
fn no_corner_cut_detours_with_one_wall() {
    // Only (1,0) blocked: the diagonal is still illegal (needs both
    // orthogonals clear), so the first step must be the orthogonal (0,1).
    let mut g = Grid::new(3, 3);
    g.set_blocked((1, 0), true);
    let path = astar(&g, (0, 0), (1, 1), &no_extra).unwrap();
    assert_ne!(path[0], (1, 1));
    assert_eq!(path[0], (0, 1));
}

#[test]
fn extra_blocked_is_honored() {
    let g = Grid::new(3, 1);
    let closed = |t: Tile| t == (1, 0);
    assert_eq!(astar(&g, (0, 0), (2, 0), &closed), None);
}

#[test]
fn deterministic_across_runs() {
    // Open 5x5: many equal-cost diagonal routes to the far corner.
    let g = Grid::new(5, 5);
    let a = astar(&g, (0, 0), (4, 4), &no_extra).unwrap();
    let b = astar(&g, (0, 0), (4, 4), &no_extra).unwrap();
    let c = astar(&g, (0, 0), (4, 4), &no_extra).unwrap();
    assert_eq!(a, b);
    assert_eq!(b, c);
    assert_eq!(*a.last().unwrap(), (4, 4));
}

#[test]
fn occupancy_claim_conflict_release() {
    let mut occ = Occupancy::new();
    assert!(occ.claim((3, 4), 1)); // free -> ok
    assert_eq!(occ.holder((3, 4)), Some(1));
    assert!(occ.claim((3, 4), 1)); // own tile again -> ok
    assert!(!occ.claim((3, 4), 2)); // held by 1 -> conflict
    assert_eq!(occ.holder((3, 4)), Some(1)); // unchanged after conflict
    occ.release((3, 4), 2); // wrong id -> no-op
    assert_eq!(occ.holder((3, 4)), Some(1));
    occ.release((3, 4), 1); // holder releases
    assert_eq!(occ.holder((3, 4)), None);
    assert!(occ.claim((3, 4), 2)); // now free for 2
}

fn raw(v: FixedVec2) -> (i32, i32) {
    (v.x.0, v.y.0)
}

#[test]
fn mover_basics() {
    let m = Mover::new(center((0, 0)), Fixed(64));
    assert_eq!(m.current_tile(), (0, 0));
    assert_eq!(m.goal(), None);
    let mut m = m;
    m.set_path(vec![(1, 0), (2, 0)]);
    assert_eq!(m.goal(), Some((2, 0)));
}

#[test]
fn mover_empty_path_arrives() {
    let mut occ = Occupancy::new();
    let mut m = Mover::new(center((0, 0)), Fixed(64));
    assert_eq!(m.step(1, &mut occ), MoveResult::Arrived);
}

#[test]
fn mover_reaches_goal_and_frees_tiles() {
    let mut occ = Occupancy::new();
    // speed = ONE = one tile per tick: each straight step reaches the next.
    let mut m = Mover::new(center((0, 0)), Fixed(256));
    m.set_path(vec![(1, 0), (2, 0)]);
    assert_eq!(m.step(7, &mut occ), MoveResult::Moving); // -> (1,0)
    assert_eq!(m.current_tile(), (1, 0));
    assert_eq!(occ.holder((0, 0)), None); // left tile freed
    assert_eq!(occ.holder((1, 0)), Some(7));
    assert_eq!(m.step(7, &mut occ), MoveResult::Arrived); // -> (2,0)
    assert_eq!(m.current_tile(), (2, 0));
    assert_eq!(occ.holder((1, 0)), None);
    assert_eq!(occ.holder((2, 0)), Some(7));
}

#[test]
fn corridor_one_waits_then_proceeds() {
    // 1-wide corridor. A holds (1,0) while transiting; B must pass through
    // (1,0) and is Blocked until A vacates it.
    let mut occ = Occupancy::new();
    let mut a = Mover::new(center((1, 0)), Fixed(64)); // 4 ticks per tile
    a.set_path(vec![(2, 0), (3, 0)]);
    let mut b = Mover::new(center((0, 0)), Fixed(64));
    b.set_path(vec![(1, 0), (2, 0)]);

    assert_eq!(a.step(1, &mut occ), MoveResult::Moving); // A reserves (1,0)+(2,0)
    assert_eq!(b.step(2, &mut occ), MoveResult::Blocked); // (1,0) held by A
    assert_eq!(b.blocked_ticks(), 1);
    assert_eq!(b.current_tile(), (0, 0)); // B did not move

    // Advance A until it leaves (1,0).
    for _ in 0..4 {
        a.step(1, &mut occ);
    }
    assert_eq!(a.current_tile(), (2, 0));
    assert_eq!(occ.holder((1, 0)), None);

    // Now B can proceed.
    assert_eq!(b.step(2, &mut occ), MoveResult::Moving);
    assert_eq!(b.blocked_ticks(), 0);
    assert_eq!(occ.holder((1, 0)), Some(2));
}

#[test]
fn mover_positions_reproducible() {
    // Straight + diagonal leg exercises the INV_SQRT2 per-axis scaling.
    let run = || {
        let mut occ = Occupancy::new();
        let mut m = Mover::new(center((0, 0)), Fixed(100));
        m.set_path(vec![(1, 1), (2, 1)]);
        for _ in 0..10 {
            m.step(1, &mut occ);
        }
        raw(m.pos)
    };
    assert_eq!(run(), run());
}
