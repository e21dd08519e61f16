use std::collections::hash_map::DefaultHasher;
use std::hash::{Hash, Hasher};

use umbra::sim::{Envelope, Game, Sim};

// Toy game: an order-sensitive accumulator. `Mix` folds n into acc with a
// multiply, so applying commands in a different order changes the result.
#[derive(Clone, Debug, PartialEq, Eq, Hash, Default)]
struct Counter {
    acc: i64,
}

#[derive(Clone, Copy, Debug)]
enum Op {
    Mix(i64),
}

impl Game for Counter {
    type Cmd = Op;
    fn apply(&mut self, env: &Envelope<Op>) {
        let Op::Mix(n) = env.cmd;
        self.acc = self.acc.wrapping_mul(31).wrapping_add(n);
    }
    fn tick(&mut self) {
        self.acc = self.acc.wrapping_add(1);
    }
}

fn env(tick: u64, player: u8, seq: u32, n: i64) -> Envelope<Op> {
    Envelope { tick, player, seq, cmd: Op::Mix(n) }
}

#[test]
fn new_sim_starts_at_tick_zero_prev_eq_curr() {
    let sim = Sim::new(Counter { acc: 7 });
    assert_eq!(sim.tick(), 0);
    assert_eq!(sim.prev(), sim.curr());
    assert_eq!(sim.curr().acc, 7);
}

#[test]
fn empty_step_advances_one_tick() {
    let mut sim = Sim::new(Counter::default());
    sim.step();
    assert_eq!(sim.tick(), 1);
    // prev is the pre-step state, curr the post-step state: differ by one tick().
    assert_eq!(sim.prev().acc, 0);
    assert_eq!(sim.curr().acc, 1);
}

#[test]
fn insertion_order_does_not_change_result() {
    // Same three commands for tick 0, enqueued in two different orders.
    let a = env(0, 0, 0, 3);
    let b = env(0, 1, 0, 5);
    let c = env(0, 1, 1, 9);

    let mut s1 = Sim::new(Counter::default());
    s1.enqueue(a.clone());
    s1.enqueue(b.clone());
    s1.enqueue(c.clone());
    s1.step();

    let mut s2 = Sim::new(Counter::default());
    s2.enqueue(c);
    s2.enqueue(a);
    s2.enqueue(b);
    s2.step();

    assert_eq!(s1.curr(), s2.curr());
    // And it is genuinely order-sensitive: a straight non-canonical apply differs.
    let mut wrong = Counter::default();
    for e in [env(0, 1, 1, 9), env(0, 0, 0, 3), env(0, 1, 0, 5)] {
        wrong.apply(&e);
    }
    assert_ne!(wrong.acc, s1.curr().acc);
}

#[test]
fn future_commands_do_not_run_early() {
    let mut sim = Sim::new(Counter::default());
    sim.enqueue(env(5, 0, 0, 100)); // stamped for tick 5
    sim.step(); // runs tick 0
    // Only tick() ran; the tick-5 command has not been applied.
    assert_eq!(sim.curr().acc, 1);
    for _ in 0..4 {
        sim.step();
    }
    // Now at tick 5: acc == 5 (five tick()s), command not yet consumed.
    assert_eq!(sim.tick(), 5);
    let before = sim.curr().acc;
    sim.step(); // this is the tick-5 step: command applies, then tick()
    assert_eq!(sim.curr().acc, before.wrapping_mul(31).wrapping_add(100).wrapping_add(1));
}

// Deterministic pseudo-random command script (no rng dependency): an LCG
// drives command counts, players, and payloads over N ticks.
fn script(ticks: u64) -> Vec<Envelope<Op>> {
    let mut v = Vec::new();
    let mut s: u64 = 0x1234_5678_9abc_def0;
    let mut next = || {
        s = s.wrapping_mul(6364136223846793005).wrapping_add(1442695040888963407);
        s
    };
    for tick in 0..ticks {
        let count = (next() >> 33) % 3; // 0..=2 commands this tick
        for seq in 0..count as u32 {
            let r = next();
            let player = (r % 4) as u8;
            let n = (r >> 8) as i64;
            v.push(Envelope { tick, player, seq, cmd: Op::Mix(n) });
        }
    }
    v
}

fn run(script: &[Envelope<Op>], ticks: u64) -> u64 {
    let mut sim = Sim::new(Counter::default());
    for e in script {
        sim.enqueue(e.clone());
    }
    for _ in 0..ticks {
        sim.step();
    }
    // DefaultHasher is zero-keyed SipHash: deterministic within a build.
    let mut h = DefaultHasher::new();
    sim.curr().hash(&mut h);
    h.finish()
}

#[test]
fn replay_is_deterministic() {
    let s = script(100);
    let mut rev = s.clone();
    rev.reverse(); // same commands, worst-case different insertion order
    let a = run(&s, 100);
    let b = run(&rev, 100);
    assert_eq!(a, b, "hash must not depend on enqueue order");
    assert_eq!(a, run(&s, 100), "same script + same state must hash equal");
}
