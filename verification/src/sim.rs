//! Fixed-tick deterministic simulation driver.

use vstd::prelude::*;

verus! {

/// A command stamped for a specific tick and ordered canonically by
/// (player, seq).
#[derive(Clone, Debug, PartialEq, Eq, Hash)]
pub struct Envelope<C> {
    pub tick: u64,
    pub player: u8,
    pub seq: u32,
    pub cmd: C,
}

/// The game state the sim drives. `Clone` is required for prev/curr
/// interpolation.
pub trait Game: Sized + Clone {
    type Cmd;

    /// Whether `applied` and `ticked` describe this implementation's
    /// `apply` and `tick`. An implementation verified against them
    /// overrides this with `true`; by default nothing is claimed about what
    /// `apply` and `tick` do.
    open spec fn obeys_game_spec() -> bool {
        false
    }

    /// The state after executing `env` against `self`. Meaningful only where
    /// `obeys_game_spec` holds, and then given by the implementation.
    open spec fn applied(self, env: Envelope<Self::Cmd>) -> Self {
        self
    }

    /// The state one tick after `self`. Meaningful only where
    /// `obeys_game_spec` holds, and then given by the implementation.
    open spec fn ticked(self) -> Self {
        self
    }

    /// Execute one command against the state.
    fn apply(&mut self, env: &Envelope<Self::Cmd>)
        ensures
            Self::obeys_game_spec() ==> *final(self) == old(self).applied(*env),
    ;

    /// Advance the simulation one tick.
    fn tick(&mut self)
        ensures
            Self::obeys_game_spec() ==> *final(self) == old(self).ticked(),
    ;
}

/// Canonical command order: by player, then by sequence number.
pub open spec fn key_lt<C>(a: Envelope<C>, b: Envelope<C>) -> bool {
    a.player < b.player || (a.player == b.player && a.seq < b.seq)
}

pub open spec fn same_key<C>(a: Envelope<C>, b: Envelope<C>) -> bool {
    a.player == b.player && a.seq == b.seq
}

/// `order` lists the positions of `s` sorted by (player, seq), ties kept in
/// the order in which they arrived: a stable sort.
pub open spec fn canonical_order<C>(s: Seq<Envelope<C>>, order: Seq<int>) -> bool {
    &&& order.len() == s.len()
    &&& forall|j: int| 0 <= j < order.len() ==> 0 <= #[trigger] order[j] < s.len()
    &&& forall|j: int, k: int|
        0 <= j < k < order.len() ==> key_lt(s[#[trigger] order[j]], s[#[trigger] order[k]]) || (
        same_key(s[order[j]], s[order[k]]) && order[j] < order[k])
}

/// The elements of `s` listed in `order`.
pub open spec fn arranged<C>(s: Seq<Envelope<C>>, order: Seq<int>) -> Seq<Envelope<C>> {
    Seq::new(order.len(), |j: int| s[order[j]])
}

/// `a` lists the commands of `s` in canonical order: a stable sort of `s`
/// by (player, seq), holding exactly the commands of `s`.
pub open spec fn is_canonical_arrangement<C>(s: Seq<Envelope<C>>, a: Seq<Envelope<C>>) -> bool {
    &&& exists|order: Seq<int>| canonical_order(s, order) && a == arranged(s, order)
    &&& a.to_multiset() == s.to_multiset()
}

/// No two commands of `s` share (player, seq).
pub open spec fn keys_distinct<C>(s: Seq<Envelope<C>>) -> bool {
    forall|i: int, j: int| 0 <= i < j < s.len() ==> !same_key(#[trigger] s[i], #[trigger] s[j])
}

/// The commands of `q` stamped for tick `t`, in queue order.
pub open spec fn due<C>(q: Seq<Envelope<C>>, t: int) -> Seq<Envelope<C>> {
    q.filter(|e: Envelope<C>| e.tick == t)
}

/// The commands of `q` stamped for other ticks, in queue order.
pub open spec fn not_due<C>(q: Seq<Envelope<C>>, t: int) -> Seq<Envelope<C>> {
    q.filter(|e: Envelope<C>| e.tick != t)
}

/// `g` after applying `cmds` in order.
pub open spec fn play<G: Game>(g: G, cmds: Seq<Envelope<G::Cmd>>) -> G
    decreases cmds.len(),
{
    if cmds.len() == 0 {
        g
    } else {
        play(g, cmds.drop_last()).applied(cmds.last())
    }
}

/// Strictly increasing by (player, seq).
pub open spec fn strictly_sorted<C>(s: Seq<Envelope<C>>) -> bool {
    forall|i: int, j: int| 0 <= i < j < s.len() ==> key_lt(#[trigger] s[i], #[trigger] s[j])
}

proof fn lemma_filter_count<A>(s: Seq<A>, p: spec_fn(A) -> bool, v: A)
    ensures
        s.filter(p).to_multiset().count(v) == if p(v) {
            s.to_multiset().count(v)
        } else {
            0
        },
    decreases s.len(),
{
    broadcast use {vstd::seq_lib::group_to_multiset_ensures, vstd::multiset::group_multiset_axioms};

    reveal_with_fuel(Seq::<_>::filter, 1);
    if s.len() == 0 {
        assert(s.to_multiset() =~= vstd::multiset::Multiset::<A>::empty());
        assert(s.filter(p) =~= Seq::<A>::empty());
    } else {
        lemma_filter_count(s.drop_last(), p, v);
        assert(s =~= s.drop_last().push(s.last()));
    }
}

/// Filtering keeps sequences with the same elements having the same elements.
proof fn lemma_filter_same_elements<A>(s1: Seq<A>, s2: Seq<A>, p: spec_fn(A) -> bool)
    requires
        s1.to_multiset() == s2.to_multiset(),
    ensures
        s1.filter(p).to_multiset() == s2.filter(p).to_multiset(),
{
    assert forall|v: A| #[trigger] s1.filter(p).to_multiset().count(v) == s2.filter(p).to_multiset().count(v) by {
        lemma_filter_count(s1, p, v);
        lemma_filter_count(s2, p, v);
    }
    assert(s1.filter(p).to_multiset() =~= s2.filter(p).to_multiset());
}

/// Two strictly sorted sequences holding the same elements are equal.
proof fn lemma_sorted_unique<C>(a: Seq<Envelope<C>>, b: Seq<Envelope<C>>)
    requires
        strictly_sorted(a),
        strictly_sorted(b),
        a.to_multiset() == b.to_multiset(),
    ensures
        a == b,
    decreases a.len(),
{
    broadcast use {vstd::seq_lib::group_to_multiset_ensures, vstd::multiset::group_multiset_axioms};

    assert(a.len() == a.to_multiset().len());
    assert(b.len() == b.to_multiset().len());
    if a.len() > 0 {
        let n = a.len() - 1;
        let x = a[n];
        let y = b[n];
        assert(b.contains(y));
        assert(b.to_multiset().count(y) > 0);
        assert(a.contains(y));
        let i = choose|i: int| 0 <= i < a.len() && a[i] == y;
        assert(a.contains(x));
        assert(a.to_multiset().count(x) > 0);
        assert(b.contains(x));
        let k = choose|k: int| 0 <= k < b.len() && b[k] == x;
        if i < n {
            assert(key_lt(a[i], a[n]));
            if k < n {
                assert(key_lt(b[k], b[n]));
            }
        }
        assert(x == y);
        let a0 = a.drop_last();
        let b0 = b.drop_last();
        assert(a =~= a0.push(x));
        assert(b =~= b0.push(x));
        assert(a0.to_multiset().insert(x) == b0.to_multiset().insert(x));
        assert forall|v: Envelope<C>| #[trigger] a0.to_multiset().count(v) == b0.to_multiset().count(v) by {
            assert(a0.to_multiset().insert(x).count(v) == b0.to_multiset().insert(x).count(v));
        }
        assert(a0.to_multiset() =~= b0.to_multiset());
        lemma_sorted_unique(a0, b0);
        assert(a =~= b);
    } else {
        assert(a =~= b);
    }
}

/// With distinct keys, the canonical arrangement is strictly sorted.
proof fn lemma_canonical_strict<C>(s: Seq<Envelope<C>>, a: Seq<Envelope<C>>)
    requires
        keys_distinct(s),
        is_canonical_arrangement(s, a),
    ensures
        strictly_sorted(a),
{
    let order = choose|order: Seq<int>| canonical_order(s, order) && a == arranged(s, order);
    assert forall|i: int, j: int| 0 <= i < j < a.len() implies key_lt(#[trigger] a[i], #[trigger] a[j]) by {
        assert(a[i] == s[order[i]] && a[j] == s[order[j]]);
        if same_key(s[order[i]], s[order[j]]) && order[i] < order[j] {
            assert(!same_key(s[order[i]], s[order[j]]));
        }
    }
}

/// What one [`Sim::step`] does: `after` is `before` advanced one tick. The
/// previous state is a clone of the old current one, the commands due now
/// leave the queue and are applied in canonical order, then the game ticks.
pub open spec fn is_step<G: Game>(before: Sim<G>, after: Sim<G>) -> bool {
    &&& cloned(before.spec_curr(), after.spec_prev())
    &&& after.spec_tick() == before.spec_tick() + 1
    &&& after.pending() == not_due(before.pending(), before.spec_tick())
    &&& G::obeys_game_spec() ==> exists|run: Seq<Envelope<G::Cmd>>|
        is_canonical_arrangement(due(before.pending(), before.spec_tick()), run)
            && after.spec_curr() == play(before.spec_curr(), run).ticked()
}

/// Enqueue order does not change the outcome: two sims in the same state
/// whose queues hold the same commands, no two of which due now share
/// (player, seq), reach the same state after a step, and their queues again
/// hold the same commands.
pub proof fn lemma_step_ignores_enqueue_order<G: Game>(
    b1: Sim<G>,
    a1: Sim<G>,
    b2: Sim<G>,
    a2: Sim<G>,
)
    requires
        G::obeys_game_spec(),
        is_step(b1, a1),
        is_step(b2, a2),
        b1.spec_curr() == b2.spec_curr(),
        b1.spec_tick() == b2.spec_tick(),
        b1.pending().to_multiset() == b2.pending().to_multiset(),
        keys_distinct(due(b1.pending(), b1.spec_tick())),
        keys_distinct(due(b2.pending(), b2.spec_tick())),
    ensures
        a1.spec_curr() == a2.spec_curr(),
        a1.spec_tick() == a2.spec_tick(),
        a1.pending().to_multiset() == a2.pending().to_multiset(),
{
    let t = b1.spec_tick();
    let d1 = due(b1.pending(), t);
    let d2 = due(b2.pending(), t);
    let r1 = choose|run: Seq<Envelope<G::Cmd>>|
        is_canonical_arrangement(d1, run) && a1.spec_curr() == play(b1.spec_curr(), run).ticked();
    let r2 = choose|run: Seq<Envelope<G::Cmd>>|
        is_canonical_arrangement(d2, run) && a2.spec_curr() == play(b2.spec_curr(), run).ticked();
    lemma_filter_same_elements(b1.pending(), b2.pending(), |e: Envelope<G::Cmd>| e.tick == t);
    lemma_filter_same_elements(b1.pending(), b2.pending(), |e: Envelope<G::Cmd>| e.tick != t);
    lemma_canonical_strict(d1, r1);
    lemma_canonical_strict(d2, r2);
    lemma_sorted_unique(r1, r2);
}

/// Commands stamped for other ticks do not run early: a step leaves every
/// one of them in the queue.
pub proof fn lemma_future_commands_wait<C>(q: Seq<Envelope<C>>, t: int, i: int)
    requires
        0 <= i < q.len(),
        q[i].tick != t,
    ensures
        not_due(q, t).contains(q[i]),
        !due(q, t).contains(q[i]),
{
    q.lemma_filter_contains(|e: Envelope<C>| e.tick != t, i);
    if due(q, t).contains(q[i]) {
        q.lemma_filter_pred(|e: Envelope<C>| e.tick == t, due(q, t).index_of(q[i]));
    }
}

/// Two commands stamped for the same tick with the same (player, seq).
pub open spec fn same_stamp<C>(a: Envelope<C>, b: Envelope<C>) -> bool {
    a.tick == b.tick && same_key(a, b)
}

/// No two commands of `q` share (tick, player, seq).
pub open spec fn stamps_distinct<C>(q: Seq<Envelope<C>>) -> bool {
    forall|i: int, j: int| 0 <= i < j < q.len() ==> !same_stamp(#[trigger] q[i], #[trigger] q[j])
}

proof fn lemma_filter_keeps_stamps_distinct<C>(q: Seq<Envelope<C>>, p: spec_fn(Envelope<C>) -> bool)
    requires
        stamps_distinct(q),
    ensures
        stamps_distinct(q.filter(p)),
    decreases q.len(),
{
    reveal_with_fuel(Seq::<_>::filter, 1);
    if q.len() > 0 {
        let q0 = q.drop_last();
        let x = q.last();
        assert(stamps_distinct(q0)) by {
            assert forall|i: int, j: int| 0 <= i < j < q0.len() implies !same_stamp(
                #[trigger] q0[i],
                #[trigger] q0[j],
            ) by {
                assert(q0[i] == q[i] && q0[j] == q[j]);
            }
        }
        lemma_filter_keeps_stamps_distinct(q0, p);
        let f0 = q0.filter(p);
        if p(x) {
            let f = f0.push(x);
            assert(q.filter(p) == f);
            assert forall|i: int, j: int| 0 <= i < j < f.len() implies !same_stamp(
                #[trigger] f[i],
                #[trigger] f[j],
            ) by {
                if j == f.len() - 1 {
                    assert(f[i] == f0[i]);
                    assert(f0.contains(f0[i]));
                    q0.lemma_filter_contains_rev(p, f0[i]);
                    let k = choose|k: int| 0 <= k < q0.len() && q0[k] == f0[i];
                    assert(q[k] == f[i] && q[q.len() - 1] == f[j]);
                } else {
                    assert(f[i] == f0[i] && f[j] == f0[j]);
                }
            }
        }
    }
}

/// Distinct stamps in a queue give distinct keys among the commands due at
/// any one tick, and stay distinct in what is left after a step.
proof fn lemma_stamps_split<C>(q: Seq<Envelope<C>>, t: int)
    requires
        stamps_distinct(q),
    ensures
        keys_distinct(due(q, t)),
        stamps_distinct(not_due(q, t)),
{
    lemma_filter_keeps_stamps_distinct(q, |e: Envelope<C>| e.tick == t);
    lemma_filter_keeps_stamps_distinct(q, |e: Envelope<C>| e.tick != t);
    let d = due(q, t);
    assert forall|i: int, j: int| 0 <= i < j < d.len() implies !same_key(
        #[trigger] d[i],
        #[trigger] d[j],
    ) by {
        q.lemma_filter_pred(|e: Envelope<C>| e.tick == t, i);
        q.lemma_filter_pred(|e: Envelope<C>| e.tick == t, j);
        assert(!same_stamp(d[i], d[j]));
    }
}

proof fn lemma_replay_at<G: Game>(r1: Seq<Sim<G>>, r2: Seq<Sim<G>>, k: int)
    requires
        G::obeys_game_spec(),
        r1.len() == r2.len(),
        0 <= k < r1.len(),
        forall|i: int| 0 <= i < r1.len() - 1 ==> is_step(#[trigger] r1[i], r1[i + 1]),
        forall|i: int| 0 <= i < r2.len() - 1 ==> is_step(#[trigger] r2[i], r2[i + 1]),
        r1[0].spec_curr() == r2[0].spec_curr(),
        r1[0].spec_tick() == r2[0].spec_tick(),
        r1[0].pending().to_multiset() == r2[0].pending().to_multiset(),
        stamps_distinct(r1[0].pending()),
        stamps_distinct(r2[0].pending()),
    ensures
        r1[k].spec_curr() == r2[k].spec_curr(),
        r1[k].spec_tick() == r2[k].spec_tick(),
        r1[k].pending().to_multiset() == r2[k].pending().to_multiset(),
        stamps_distinct(r1[k].pending()),
        stamps_distinct(r2[k].pending()),
    decreases k,
{
    if k > 0 {
        lemma_replay_at(r1, r2, k - 1);
        let b1 = r1[k - 1];
        let b2 = r2[k - 1];
        assert(is_step(b1, r1[k]));
        assert(is_step(b2, r2[k]));
        lemma_stamps_split(b1.pending(), b1.spec_tick());
        lemma_stamps_split(b2.pending(), b2.spec_tick());
        lemma_step_ignores_enqueue_order(b1, r1[k], b2, r2[k]);
    }
}

/// Replays are deterministic: two sims that start in the same state with
/// the same commands queued, in any enqueue order and with no two commands
/// sharing (tick, player, seq), stay in the same state, at the same tick
/// and with the same commands queued, step after step, for a game whose
/// `apply` and `tick` obey `applied` and `ticked`. Each previous state is a
/// clone of that same current state.
pub proof fn lemma_replay_ignores_enqueue_order<G: Game>(r1: Seq<Sim<G>>, r2: Seq<Sim<G>>)
    requires
        G::obeys_game_spec(),
        r1.len() == r2.len(),
        r1.len() > 0,
        forall|i: int| 0 <= i < r1.len() - 1 ==> is_step(#[trigger] r1[i], r1[i + 1]),
        forall|i: int| 0 <= i < r2.len() - 1 ==> is_step(#[trigger] r2[i], r2[i + 1]),
        r1[0].spec_curr() == r2[0].spec_curr(),
        r1[0].spec_tick() == r2[0].spec_tick(),
        r1[0].pending().to_multiset() == r2[0].pending().to_multiset(),
        stamps_distinct(r1[0].pending()),
        stamps_distinct(r2[0].pending()),
    ensures
        forall|k: int|
            0 <= k < r1.len() ==> #[trigger] r1[k].spec_curr() == r2[k].spec_curr() && r1[k].spec_tick()
                == r2[k].spec_tick() && r1[k].pending().to_multiset() == r2[k].pending().to_multiset(),
        forall|k: int|
            0 < k < r1.len() ==> cloned(r1[k - 1].spec_curr(), #[trigger] r1[k].spec_prev())
                && cloned(r1[k - 1].spec_curr(), r2[k].spec_prev()),
{
    assert forall|k: int| 0 <= k < r1.len() implies #[trigger] r1[k].spec_curr() == r2[k].spec_curr()
        && r1[k].spec_tick() == r2[k].spec_tick() && r1[k].pending().to_multiset()
        == r2[k].pending().to_multiset() by {
        lemma_replay_at(r1, r2, k);
    }
    assert forall|k: int| 0 < k < r1.len() implies cloned(
        r1[k - 1].spec_curr(),
        #[trigger] r1[k].spec_prev(),
    ) && cloned(r1[k - 1].spec_curr(), r2[k].spec_prev()) by {
        lemma_replay_at(r1, r2, k - 1);
        assert(is_step(r1[k - 1], r1[k]));
        assert(is_step(r2[k - 1], r2[k]));
    }
}

/// Deterministic fixed-tick driver over a [`Game`].
pub struct Sim<G: Game> {
    prev: G,
    curr: G,
    tick: u64,
    queue: Vec<Envelope<G::Cmd>>,
}

impl<G: Game> Sim<G> {
    pub closed spec fn spec_prev(&self) -> G {
        self.prev
    }

    pub closed spec fn spec_curr(&self) -> G {
        self.curr
    }

    pub closed spec fn spec_tick(&self) -> int {
        self.tick as int
    }

    /// Queued commands, in enqueue order.
    pub closed spec fn pending(&self) -> Seq<Envelope<G::Cmd>> {
        self.queue@
    }

    /// Start at tick 0 with `prev == curr == initial`.
    pub fn new(initial: G) -> (r: Self)
        ensures
            cloned(initial, r.spec_prev()),
            r.spec_curr() == initial,
            r.spec_tick() == 0,
            r.pending() == Seq::<Envelope<G::Cmd>>::empty(),
    {
        Sim { prev: initial.clone(), curr: initial, tick: 0, queue: Vec::new() }
    }

    /// Queue a command. Its tick must be at or after the current tick.
    pub fn enqueue(&mut self, env: Envelope<G::Cmd>)
        requires
            env.tick >= old(self).spec_tick(),
        ensures
            final(self).pending() == old(self).pending().push(env),
            final(self).spec_curr() == old(self).spec_curr(),
            final(self).spec_prev() == old(self).spec_prev(),
            final(self).spec_tick() == old(self).spec_tick(),
    {
        self.queue.push(env);
    }

    /// Advance one tick: snapshot prev, apply this tick's commands in
    /// canonical (player, seq) order, then tick the game.
    pub fn step(&mut self)
        requires
            old(self).spec_tick() < u64::MAX,
        ensures
            is_step(*old(self), *final(self)),
    {
        self.prev = self.curr.clone();
        let tick = self.tick;
        let mut queue: Vec<Envelope<G::Cmd>> = Vec::new();
        std::mem::swap(&mut queue, &mut self.queue);
        let (ready, rest) = split_due(queue, tick);
        self.queue = rest;
        let ghost ready0 = ready@;
        let (ready, Ghost(order)) = sort_canonical(ready);
        let ghost prev0 = self.prev;
        let ghost queue0 = self.queue@;
        let mut i: usize = 0;
        while i < ready.len()
            invariant
                i <= ready@.len(),
                self.prev == prev0,
                self.tick == tick,
                tick < u64::MAX,
                self.queue@ == queue0,
                ready@ == arranged(ready0, order),
                G::obeys_game_spec() ==> self.curr == play(old(self).curr, ready@.take(i as int)),
            decreases ready@.len() - i,
        {
            self.curr.apply(&ready[i]);
            assert(ready@.take(i + 1).drop_last() =~= ready@.take(i as int));
            i = i + 1;
        }
        assert(ready@.take(ready@.len() as int) =~= ready@);
        self.curr.tick();
        self.tick = self.tick + 1;
        assert(ready0 == due(old(self).queue@, tick as int));
        assert(is_canonical_arrangement(due(old(self).pending(), old(self).spec_tick()), ready@));
        assert(G::obeys_game_spec() ==> self.spec_curr() == play(old(self).spec_curr(), ready@).ticked());
    }

    pub fn tick(&self) -> (r: u64)
        ensures
            r == self.spec_tick(),
    {
        self.tick
    }

    /// State before the last `step`, for render interpolation.
    pub fn prev(&self) -> (r: &G)
        ensures
            *r == self.spec_prev(),
    {
        &self.prev
    }

    /// State after the last `step`.
    pub fn curr(&self) -> (r: &G)
        ensures
            *r == self.spec_curr(),
    {
        &self.curr
    }
}

/// Splits a queue into the commands due at tick `t` and the rest, both in
/// queue order.
fn split_due<C>(queue: Vec<Envelope<C>>, t: u64) -> (r: (Vec<Envelope<C>>, Vec<Envelope<C>>))
    ensures
        r.0@ == due(queue@, t as int),
        r.1@ == not_due(queue@, t as int),
{
    let ghost q = queue@;
    let mut queue = queue;
    // Reverse into a stack so that popping yields queue order.
    let mut stack: Vec<Envelope<C>> = Vec::new();
    while queue.len() > 0
        invariant
            queue@ == q.take(queue@.len() as int),
            queue@.len() <= q.len(),
            stack@.len() == q.len() - queue@.len(),
            forall|j: int| 0 <= j < stack@.len() ==> #[trigger] stack@[j] == q[q.len() - 1 - j],
        decreases queue@.len(),
    {
        let e = queue.pop().unwrap();
        stack.push(e);
        assert(queue@ =~= q.take(queue@.len() as int));
    }
    let mut ready: Vec<Envelope<C>> = Vec::new();
    let mut rest: Vec<Envelope<C>> = Vec::new();
    while stack.len() > 0
        invariant
            stack@.len() <= q.len(),
            forall|j: int| 0 <= j < stack@.len() ==> #[trigger] stack@[j] == q[q.len() - 1 - j],
            ready@ == due(q.take(q.len() - stack@.len()), t as int),
            rest@ == not_due(q.take(q.len() - stack@.len()), t as int),
        decreases stack@.len(),
    {
        let ghost m = q.len() - stack@.len();
        let e = stack.pop().unwrap();
        assert(e == q[m]);
        assert(q.take(m + 1).drop_last() =~= q.take(m));
        reveal_with_fuel(Seq::<_>::filter, 1);
        if e.tick == t {
            ready.push(e);
        } else {
            rest.push(e);
        }
    }
    assert(q.take(q.len() as int) =~= q);
    (ready, rest)
}

/// Stable insertion sort by (player, seq). Returns the sorted commands and
/// the input position of each.
fn sort_canonical<C>(v: Vec<Envelope<C>>) -> (r: (Vec<Envelope<C>>, Ghost<Seq<int>>))
    ensures
        canonical_order(v@, r.1@),
        r.0@ == arranged(v@, r.1@),
        r.0@.to_multiset() == v@.to_multiset(),
{
    broadcast use {vstd::seq_lib::group_to_multiset_ensures, vstd::multiset::group_multiset_axioms};

    let ghost orig = v@;
    let mut v = v;
    let ghost mut perm: Seq<int> = Seq::new(orig.len(), |j: int| j);
    let mut i: usize = 0;
    while i < v.len()
        invariant
            v@.len() == orig.len(),
            v@.to_multiset() == orig.to_multiset(),
            perm.len() == orig.len(),
            i <= v@.len(),
            forall|j: int| 0 <= j < v@.len() ==> #[trigger] v@[j] == orig[perm[j]],
            forall|j: int| 0 <= j < i ==> 0 <= #[trigger] perm[j] < i,
            forall|j: int| i <= j < perm.len() ==> #[trigger] perm[j] == j,
            forall|j: int, k: int|
                0 <= j < k < i ==> key_lt(orig[#[trigger] perm[j]], orig[#[trigger] perm[k]]) || (
                same_key(orig[perm[j]], orig[perm[k]]) && perm[j] < perm[k]),
        decreases v@.len() - i,
    {
        // Find where element `i` goes: after every element not greater.
        let mut pos: usize = 0;
        while pos < i && !(v[i].player < v[pos].player || (v[i].player == v[pos].player && v[i].seq
            < v[pos].seq))
            invariant
                pos <= i,
                i < v@.len(),
                v@.len() == orig.len(),
                forall|j: int| 0 <= j < pos ==> !key_lt(#[trigger] v@[i as int], v@[j]),
            decreases i - pos,
        {
            pos = pos + 1;
        }
        let ghost pre_v = v@;
        let ghost pre_perm = perm;
        let e = v.remove(i);
        v.insert(pos, e);
        proof {
            assert(v@ == pre_v.remove(i as int).insert(pos as int, pre_v[i as int]));
            let x = pre_v[i as int];
            vstd::seq_lib::to_multiset_remove(pre_v, i as int);
            vstd::seq_lib::to_multiset_insert(pre_v.remove(i as int), pos as int, x);
            vstd::seq_lib::to_multiset_contains(pre_v, x);
            assert(pre_v.contains(x));
            assert(pre_v.to_multiset().remove(x).insert(x) =~= pre_v.to_multiset());
            perm = pre_perm.remove(i as int).insert(pos as int, i as int);
            assert forall|j: int| 0 <= j < v@.len() implies #[trigger] v@[j] == orig[perm[j]] by {
                if j < pos {
                } else if j == pos {
                } else if j <= i {
                    assert(v@[j] == pre_v[j - 1]);
                    assert(perm[j] == pre_perm[j - 1]);
                } else {
                }
            }
            assert forall|j: int, k: int|
                0 <= j < k < i + 1 implies key_lt(orig[#[trigger] perm[j]], orig[#[trigger] perm[k]])
                || (same_key(orig[perm[j]], orig[perm[k]]) && perm[j] < perm[k]) by {
                let pj = if j < pos { j } else if j == pos { i as int } else { j - 1 };
                let pk = if k < pos { k } else if k == pos { i as int } else { k - 1 };
                assert(perm[j] == pre_perm[pj]);
                assert(perm[k] == pre_perm[pk]);
                if j == pos {
                    // Everything after `pos` in the sorted prefix is greater.
                    assert(key_lt(pre_v[i as int], pre_v[pk]));
                } else if k == pos {
                    assert(!key_lt(pre_v[i as int], pre_v[pj]));
                }
            }
        }
        i = i + 1;
    }
    proof {
        assert(v@ =~= arranged(orig, perm));
    }
    (v, Ghost(perm))
}

} // verus!
