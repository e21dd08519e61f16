use umbra::app::AppConfig;
use umbra::fixed::{Fixed, FixedVec2};
use umbra::gfx::{grown_capacity, quad_indices};
use umbra::input::ButtonStates;
use umbra::path::{astar, center, Grid, MoveResult, Mover, Occupancy, Tile};
use umbra::select::sort_ids;
use umbra::sim::{Envelope, Game, Sim};

fn open(_: Tile) -> bool {
    false
}

#[test]
fn fixed_div_rounds_toward_zero() {
    assert_eq!(Fixed(-7).div(Fixed(2)), Fixed(-896));
    assert_eq!(Fixed(7).div(Fixed(-2)), Fixed(-896));
    assert_eq!(Fixed(-7).div(Fixed(-2)), Fixed(896));
    assert_eq!(Fixed(7).div(Fixed(2)), Fixed(896));
}

#[test]
fn fixed_mul_rounds_toward_negative_infinity() {
    assert_eq!(Fixed(-1).mul(Fixed(1)), Fixed(-1));
    assert_eq!(Fixed(1).mul(Fixed(1)), Fixed(0));
    assert_eq!(Fixed(384).mul(Fixed(384)), Fixed(576)); // 1.5 * 1.5 = 2.25
}

#[test]
fn fixed_mul_whole_numbers_law_on_values() {
    for a in [-9, -1, 0, 1, 7] {
        for b in [-4, 0, 3, 11] {
            assert_eq!(Fixed::from_int(a).mul(Fixed::from_int(b)), Fixed::from_int(a * b));
        }
    }
}

#[test]
fn fixed_div_whole_numbers_law_on_values() {
    for (a, b) in [(12, 4), (-12, 4), (12, -3), (0, 5), (-35, -7)] {
        assert_eq!(Fixed::from_int(a).div(Fixed::from_int(b)), Fixed::from_int(a / b));
    }
}

#[test]
fn fixed_constants_and_defaults() {
    assert_eq!(Fixed::zero(), Fixed(0));
    assert_eq!(Fixed::one(), Fixed(256));
    assert_eq!(Fixed::inv_sqrt2(), Fixed(181));
    assert_eq!(Fixed::default(), Fixed(0));
    assert_eq!(FixedVec2::default(), FixedVec2::new(Fixed(0), Fixed(0)));
    assert_eq!(Fixed(-3).abs(), Fixed(3));
}

#[test]
fn grid_out_of_bounds_counts_as_blocked() {
    let mut g = Grid::new(3, 2);
    assert!(g.in_bounds((2, 1)));
    assert!(!g.in_bounds((3, 1)));
    assert!(!g.in_bounds((-1, 0)));
    assert!(g.is_blocked((3, 0)));
    assert!(g.is_blocked((0, -1)));
    assert!(!g.is_blocked((1, 1)));
    g.set_blocked((5, 5), true); // ignored
    assert!(!g.is_blocked((1, 1)));
    g.set_blocked((1, 1), true);
    assert!(g.is_blocked((1, 1)));
    assert!(!g.is_blocked((0, 1)));
    g.set_blocked((1, 1), false);
    assert!(!g.is_blocked((1, 1)));
}

#[test]
fn grid_with_negative_size_is_empty() {
    let g = Grid::new(-3, 4);
    assert!(!g.in_bounds((0, 0)));
    assert!(g.is_blocked((0, 0)));
}

#[test]
fn astar_from_out_of_bounds_is_none() {
    let g = Grid::new(4, 4);
    assert_eq!(astar(&g, (-1, 0), (2, 2), &open), None);
    assert_eq!(astar(&g, (4, 0), (2, 2), &open), None);
}

#[test]
fn astar_to_out_of_bounds_is_none() {
    let g = Grid::new(4, 4);
    assert_eq!(astar(&g, (0, 0), (9, 9), &open), None);
}

#[test]
fn astar_already_there_is_empty_path() {
    let g = Grid::new(4, 4);
    assert_eq!(astar(&g, (2, 1), (2, 1), &open), Some(Vec::new()));
}

#[test]
fn astar_target_blocked_by_predicate_is_none() {
    let g = Grid::new(4, 4);
    let closed = |t: Tile| t == (3, 3);
    assert_eq!(astar(&g, (0, 0), (3, 3), &closed), None);
}

#[test]
fn astar_diagonal_on_open_grid_is_cheapest() {
    // Straight diagonal costs 14 per step: 3 steps from (0,0) to (3,3).
    let g = Grid::new(4, 4);
    let p = astar(&g, (0, 0), (3, 3), &open).unwrap();
    assert_eq!(p, vec![(1, 1), (2, 2), (3, 3)]);
}

#[test]
fn astar_detour_is_shortest() {
    // A wall with a single gap at the bottom row: the cheapest walk from
    // (0,0) to (4,0) goes diagonally down to the gap and back up.
    let mut g = Grid::new(5, 5);
    for y in 0..4 {
        g.set_blocked((2, y), true);
    }
    let p = astar(&g, (0, 0), (4, 0), &open).unwrap();
    // Every step is a legal king move. The corner rule forbids entering or
    // leaving the gap diagonally, so the optimum is 44 down to (1,4), two
    // straight steps through the gap, and 44 back up.
    let mut prev = (0, 0);
    let mut cost = 0;
    for t in &p {
        let (dx, dy) = (t.0 - prev.0, t.1 - prev.1);
        assert!(dx.abs() <= 1 && dy.abs() <= 1 && (dx, dy) != (0, 0));
        cost += if dx != 0 && dy != 0 { 14 } else { 10 };
        prev = *t;
    }
    assert_eq!(prev, (4, 0));
    assert_eq!(cost, 44 + 10 + 10 + 44);
}

#[test]
fn occupancy_laws_on_values() {
    let mut occ = Occupancy::default();
    assert_eq!(occ.holder((1, 1)), None);
    // Claiming twice is claiming once.
    assert!(occ.claim((1, 1), 4));
    assert!(occ.claim((1, 1), 4));
    assert_eq!(occ.holder((1, 1)), Some(4));
    // Others' tiles are untouched by claims and releases.
    assert!(occ.claim((2, 2), 9));
    assert!(!occ.claim((2, 2), 4));
    occ.release((2, 2), 4);
    assert_eq!(occ.holder((2, 2)), Some(9));
    // Claim then release of a free tile leaves it free.
    assert!(occ.claim((5, 5), 4));
    occ.release((5, 5), 4);
    assert_eq!(occ.holder((5, 5)), None);
}

#[test]
fn mover_blocked_step_waits_in_place() {
    let mut occ = Occupancy::new();
    assert!(occ.claim((1, 0), 99));
    let mut m = Mover::new(center((0, 0)), Fixed(64));
    m.set_path(vec![(1, 0)]);
    let before = m.pos;
    assert_eq!(m.step(1, &mut occ), MoveResult::Blocked);
    assert_eq!(m.step(1, &mut occ), MoveResult::Blocked);
    assert_eq!(m.blocked_ticks(), 2);
    assert_eq!(m.pos, before);
    assert_eq!(occ.holder((1, 0)), Some(99));
    assert_eq!(occ.holder((0, 0)), Some(1)); // it holds where it stands
}

#[test]
fn mover_sub_tile_crossing_releases_tile_behind() {
    let mut occ = Occupancy::new();
    let mut m = Mover::new(center((0, 0)), Fixed(100));
    m.set_path(vec![(1, 0)]);
    assert_eq!(m.step(3, &mut occ), MoveResult::Moving); // 128 -> 228, still tile 0
    assert_eq!(m.current_tile(), (0, 0));
    assert_eq!(occ.holder((0, 0)), Some(3));
    assert_eq!(occ.holder((1, 0)), Some(3)); // waypoint reserved
    assert_eq!(m.step(3, &mut occ), MoveResult::Moving); // 228 -> 328, crossed
    assert_eq!(m.current_tile(), (1, 0));
    assert_eq!(occ.holder((0, 0)), None);
    // Standing in the waypoint's tile already counts as reaching it.
    assert_eq!(m.step(3, &mut occ), MoveResult::Arrived);
    assert_eq!(m.pos.x, Fixed(328));
}

#[test]
fn mover_waits_rather_than_cross_into_a_held_tile() {
    // The diagonal leg from (1,0) to (2,1) clips tile (1,1), which id 2 holds.
    let mut occ = Occupancy::new();
    assert!(occ.claim((1, 1), 2));
    let mut m = Mover::new(center((0, 0)), Fixed(64));
    m.set_path(vec![(1, 0), (2, 1)]);
    let mut waited = 0;
    for _ in 0..20 {
        if m.step(1, &mut occ) == MoveResult::Blocked {
            waited += 1;
        }
        assert_ne!(m.current_tile(), (1, 1));
        assert_eq!(occ.holder(m.current_tile()), Some(1));
    }
    assert!(waited > 0);
    assert_eq!(occ.holder((1, 1)), Some(2));
    // Once id 2 lets go, the mover goes on and arrives at its goal.
    occ.release((1, 1), 2);
    let mut arrived = false;
    for _ in 0..40 {
        if m.step(1, &mut occ) == MoveResult::Arrived {
            arrived = true;
            break;
        }
        assert_eq!(occ.holder(m.current_tile()), Some(1));
    }
    assert!(arrived);
    assert_eq!(m.current_tile(), (2, 1));
    assert_eq!(occ.holder((2, 1)), Some(1));
}

#[test]
fn mover_diagonal_speed_is_scaled() {
    let mut occ = Occupancy::new();
    let mut m = Mover::new(center((0, 0)), Fixed(100));
    m.set_path(vec![(1, 1)]);
    assert_eq!(m.step(1, &mut occ), MoveResult::Moving);
    // 100 * 181 / 256 = 70.7 -> 70 per axis.
    assert_eq!(m.pos, FixedVec2::new(Fixed(198), Fixed(198)));
}

#[test]
fn mover_waypoint_already_under_it_is_passed() {
    let mut occ = Occupancy::new();
    let mut m = Mover::new(center((2, 2)), Fixed(64));
    m.set_path(vec![(2, 2), (3, 2)]);
    assert_eq!(m.step(1, &mut occ), MoveResult::Moving);
    assert_eq!(m.pos, center((2, 2)));
    assert_eq!(occ.holder((2, 2)), Some(1));
    assert_eq!(m.goal(), Some((3, 2)));
}

#[test]
fn mover_clone_keeps_state() {
    let mut m = Mover::new(center((0, 0)), Fixed(64));
    m.set_path(vec![(1, 0), (2, 0)]);
    let c = m.clone();
    assert_eq!(c.goal(), Some((2, 0)));
    assert_eq!(c.pos, m.pos);
    assert_eq!(c.current_tile(), (0, 0));
}

#[derive(Clone, Debug, PartialEq, Eq, Default)]
struct Log {
    seen: Vec<(u8, u32, char)>,
    ticks: u32,
}

impl Game for Log {
    type Cmd = char;
    fn apply(&mut self, env: &Envelope<char>) {
        self.seen.push((env.player, env.seq, env.cmd));
    }
    fn tick(&mut self) {
        self.ticks += 1;
    }
}

fn cmd(tick: u64, player: u8, seq: u32, c: char) -> Envelope<char> {
    Envelope { tick, player, seq, cmd: c }
}

#[test]
fn sim_applies_due_commands_in_canonical_order() {
    let mut sim = Sim::new(Log::default());
    sim.enqueue(cmd(0, 2, 0, 'c'));
    sim.enqueue(cmd(1, 0, 0, 'z'));
    sim.enqueue(cmd(0, 0, 5, 'b'));
    sim.enqueue(cmd(0, 0, 1, 'a'));
    sim.step();
    assert_eq!(sim.curr().seen, vec![(0, 1, 'a'), (0, 5, 'b'), (2, 0, 'c')]);
    assert_eq!(sim.curr().ticks, 1);
    assert!(sim.prev().seen.is_empty());
    sim.step();
    assert_eq!(sim.curr().seen.last(), Some(&(0, 0, 'z')));
    assert_eq!(sim.tick(), 2);
}

#[test]
fn sim_equal_keys_keep_enqueue_order() {
    let mut sim = Sim::new(Log::default());
    sim.enqueue(cmd(0, 1, 1, 'x'));
    sim.enqueue(cmd(0, 1, 1, 'y'));
    sim.enqueue(cmd(0, 0, 9, 'w'));
    sim.step();
    assert_eq!(sim.curr().seen, vec![(0, 9, 'w'), (1, 1, 'x'), (1, 1, 'y')]);
}

#[test]
fn button_edges_lifecycle() {
    let mut b = ButtonStates::new();
    b.on_button(7, true);
    assert!(b.is_down(7) && b.pressed(7) && !b.released(7));
    b.end_frame();
    assert!(b.is_down(7) && !b.pressed(7));
    b.on_button(7, true); // repeat
    assert!(!b.pressed(7));
    b.on_button(7, false);
    assert!(!b.is_down(7) && b.released(7));
    b.end_frame();
    assert!(!b.released(7) && !b.is_down(7));
    assert!(!b.is_down(8));
}

#[test]
fn quad_indices_follow_two_triangles_per_quad() {
    assert_eq!(quad_indices(0), Vec::<u32>::new());
    assert_eq!(quad_indices(2), vec![0, 1, 2, 2, 1, 3, 4, 5, 6, 6, 5, 7]);
}

#[test]
fn grown_capacity_rounds_up_to_power_of_two() {
    assert_eq!(grown_capacity(10, 4096), 4096);
    assert_eq!(grown_capacity(4096, 4096), 4096);
    assert_eq!(grown_capacity(4097, 4096), 8192);
    assert_eq!(grown_capacity(1, 0), 1);
    assert_eq!(grown_capacity(5, 2), 8);
    assert_eq!(grown_capacity(1 << 63, 3), 1 << 63);
}

#[test]
fn app_config_default_values() {
    let c = AppConfig::default();
    assert_eq!(c.title, "umbra");
    assert_eq!((c.width, c.height), (1280, 720));
}

#[test]
fn box_selection_ids_come_out_ascending() {
    // The ids a box encloses, in arrival order 3, 1, 2.
    assert_eq!(sort_ids(vec![3, 1, 2]), vec![1, 2, 3]);
    assert_eq!(sort_ids(vec![5, 5, 0, u32::MAX, 2]), vec![0, 2, 5, 5, u32::MAX]);
    assert_eq!(sort_ids(Vec::new()), Vec::<u32>::new());
}

#[test]
fn astar_asks_the_target_first_and_never_a_grid_blocked_tile() {
    let mut g = Grid::new(3, 3);
    g.set_blocked((1, 1), true);
    let asked = std::cell::RefCell::new(Vec::<Tile>::new());
    let pred = |t: Tile| {
        assert_ne!(t, (1, 1), "asked about a tile the grid blocks");
        asked.borrow_mut().push(t);
        false
    };
    let path = astar(&g, (0, 0), (2, 2), &pred).unwrap();
    assert_eq!(path.last(), Some(&(2, 2)));
    let asked = asked.into_inner();
    assert_eq!(asked[0], (2, 2));
    assert!(asked.iter().all(|t| g.in_bounds(*t) && !g.is_blocked(*t)));
    // No tile is asked about twice.
    for (i, a) in asked.iter().enumerate() {
        assert!(!asked[i + 1..].contains(a));
    }
}

#[test]
fn astar_asks_only_about_the_target_when_that_settles_it() {
    let g = Grid::new(4, 4);
    let calls = std::cell::Cell::new(0u32);
    let blocked_target = |t: Tile| {
        calls.set(calls.get() + 1);
        t == (3, 3)
    };
    assert_eq!(astar(&g, (0, 0), (3, 3), &blocked_target), None);
    assert_eq!(calls.get(), 1);
    calls.set(0);
    assert_eq!(astar(&g, (2, 2), (2, 2), &blocked_target), Some(Vec::new()));
    assert_eq!(calls.get(), 1);
}

#[test]
fn dist_sq_handles_deltas_beyond_i32() {
    // The x delta is 2^31, one past i32::MAX.
    let a = FixedVec2::new(Fixed(i32::MAX), Fixed(0));
    let b = FixedVec2::new(Fixed(-1), Fixed(0));
    assert_eq!(a.dist_sq(b), 1i64 << 62);
    assert_eq!(b.dist_sq(a), 1i64 << 62);
}
