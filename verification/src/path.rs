//! Grid pathfinding (8-directional A*), tile ownership, and unit movement.

use std::collections::BTreeMap;

use vstd::prelude::*;

use crate::fixed::{int_fits_fixed, Fixed, FixedVec2};

verus! {

broadcast use {vstd::std_specs::btree::group_btree_axioms, vstd::laws_cmp::group_laws_cmp};

/// A tile coordinate: (column, row).
pub type Tile = (i32, i32);

/// `max(v, 0)`.
pub open spec fn nonneg(v: int) -> int {
    if v > 0 {
        v
    } else {
        0
    }
}

/// Row-major index of tile `t` in a grid `w` tiles wide.
pub open spec fn tile_index(t: Tile, w: int) -> int {
    t.1 * w + t.0
}

/// The tile at row-major index `i` of a grid `w` tiles wide.
pub open spec fn index_tile(i: int, w: int) -> Tile {
    ((i % w) as i32, (i / w) as i32)
}

/// Row-major indexing is a bijection between the in-bounds tiles of a
/// `w` x `h` grid and `0..w*h`.
pub proof fn lemma_tile_index_bounds(t: Tile, w: int, h: int)
    requires
        0 <= t.0 < w,
        0 <= t.1 < h,
    ensures
        0 <= tile_index(t, w) < w * h,
        index_tile(tile_index(t, w), w) == t,
{
    let i = tile_index(t, w);
    assert(0 <= i < w * h) by (nonlinear_arith)
        requires
            i == t.1 * w + t.0,
            0 <= t.0 < w,
            0 <= t.1 < h,
    ;
    vstd::arithmetic::div_mod::lemma_fundamental_div_mod_converse(i, w, t.1 as int, t.0 as int);
}

/// See [`lemma_tile_index_bounds`]: the inverse direction.
pub proof fn lemma_index_tile_bounds(i: int, w: int, h: int)
    requires
        0 <= i < w * h,
        w > 0,
        h > 0,
        w * h <= i32::MAX,
    ensures
        0 <= index_tile(i, w).0 < w,
        0 <= index_tile(i, w).1 < h,
        index_tile(i, w).0 == i % w,
        index_tile(i, w).1 == i / w,
        tile_index(index_tile(i, w), w) == i,
{
    vstd::arithmetic::div_mod::lemma_fundamental_div_mod(i, w);
    let q = i / w;
    let r = i % w;
    assert(0 <= r < w);
    assert(0 <= q < h) by (nonlinear_arith)
        requires
            i == w * q + r,
            0 <= r < w,
            0 <= i < w * h,
            w > 0,
    ;
    assert(q * w == w * q) by (nonlinear_arith);
}

/// A rectangular tile grid with per-tile blocking.
pub struct Grid {
    w: i32,
    h: i32,
    blocked: Vec<bool>,
}

impl Clone for Grid {
    fn clone(&self) -> (r: Grid)
        ensures
            r.wf() == self.wf(),
            r.width() == self.width(),
            r.height() == self.height(),
            forall|t: Tile| #[trigger] r.spec_is_blocked(t) == self.spec_is_blocked(t),
    {
        let blocked = self.blocked.clone();
        assert(blocked@ =~= self.blocked@);
        Grid { w: self.w, h: self.h, blocked }
    }
}

impl Grid {
    /// Width in tiles.
    pub closed spec fn width(&self) -> int {
        self.w as int
    }

    /// Height in tiles.
    pub closed spec fn height(&self) -> int {
        self.h as int
    }

    /// The number of in-bounds tiles.
    pub open spec fn cell_count(&self) -> int {
        nonneg(self.width()) * nonneg(self.height())
    }

    /// The cell storage matches the dimensions.
    pub closed spec fn wf(&self) -> bool {
        &&& self.blocked@.len() == self.cell_count()
        &&& self.cell_count() <= i32::MAX
    }

    pub open spec fn spec_in_bounds(&self, t: Tile) -> bool {
        0 <= t.0 < self.width() && 0 <= t.1 < self.height()
    }

    /// Whether the in-bounds tile `t` has been marked blocked.
    pub closed spec fn cell_blocked(&self, t: Tile) -> bool {
        self.blocked@[tile_index(t, self.width())]
    }

    /// Out-of-bounds tiles count as blocked.
    pub open spec fn spec_is_blocked(&self, t: Tile) -> bool {
        !self.spec_in_bounds(t) || self.cell_blocked(t)
    }

    pub proof fn lemma_wf_dims(&self)
        requires
            self.wf(),
        ensures
            self.width() > 0 && self.height() > 0 ==> self.cell_count() == self.width() * self.height(),
            self.cell_count() >= 0,
            self.cell_count() <= i32::MAX,
    {
        assert(nonneg(self.width()) * nonneg(self.height()) >= 0) by (nonlinear_arith)
            requires nonneg(self.width()) >= 0, nonneg(self.height()) >= 0;
    }

    /// A `w` x `h` grid with nothing blocked. Negative sizes give an empty
    /// grid. The cell count is computed in `i32`, so it must fit there.
    pub fn new(w: i32, h: i32) -> (r: Grid)
        requires
            w > 0 && h > 0 ==> w * h <= i32::MAX,
        ensures
            r.wf(),
            r.width() == w,
            r.height() == h,
            forall|t: Tile| #[trigger] r.spec_is_blocked(t) <==> !r.spec_in_bounds(t),
    {
        let ww: i32 = if w > 0 { w } else { 0 };
        let hh: i32 = if h > 0 { h } else { 0 };
        assert(ww * hh <= i32::MAX) by (nonlinear_arith)
            requires
                ww >= 0,
                hh >= 0,
                ww == 0 || hh == 0 || ww * hh <= i32::MAX,
        ;
        assert(ww * hh >= 0) by (nonlinear_arith)
            requires ww >= 0, hh >= 0;
        let n: usize = (ww * hh) as usize;
        let r = Grid { w, h, blocked: vec![false; n] };
        assert forall|t: Tile| #[trigger] r.spec_is_blocked(t) <==> !r.spec_in_bounds(t) by {
            if r.spec_in_bounds(t) {
                lemma_tile_index_bounds(t, w as int, h as int);
            }
        }
        r
    }

    pub fn in_bounds(&self, t: Tile) -> (r: bool)
        ensures
            r == self.spec_in_bounds(t),
    {
        t.0 >= 0 && t.1 >= 0 && t.0 < self.w && t.1 < self.h
    }

    fn idx(&self, t: Tile) -> (r: usize)
        requires
            self.wf(),
            self.spec_in_bounds(t),
        ensures
            r == tile_index(t, self.width()),
            r < self.blocked@.len(),
    {
        proof {
            lemma_tile_index_bounds(t, self.width(), self.height());
            self.lemma_wf_dims();
        }
        (t.1 * self.w + t.0) as usize
    }

    /// Marks an in-bounds tile blocked or open; out-of-bounds tiles are
    /// ignored.
    pub fn set_blocked(&mut self, t: Tile, blocked: bool)
        requires
            old(self).wf(),
        ensures
            final(self).wf(),
            final(self).width() == old(self).width(),
            final(self).height() == old(self).height(),
            final(self).spec_is_blocked(t) == (blocked || !old(self).spec_in_bounds(t)),
            forall|u: Tile|
                u != t ==> #[trigger] final(self).spec_is_blocked(u) == old(self).spec_is_blocked(u),
    {
        if self.in_bounds(t) {
            let i = self.idx(t);
            self.blocked.set(i, blocked);
            assert forall|u: Tile| u != t implies #[trigger] self.spec_is_blocked(u)
                == old(self).spec_is_blocked(u) by {
                if self.spec_in_bounds(u) {
                    lemma_tile_index_bounds(u, self.width(), self.height());
                    lemma_tile_index_bounds(t, self.width(), self.height());
                }
            }
        }
    }

    /// Out-of-bounds tiles count as blocked.
    pub fn is_blocked(&self, t: Tile) -> (r: bool)
        requires
            self.wf(),
        ensures
            r == self.spec_is_blocked(t),
    {
        !self.in_bounds(t) || self.blocked[self.idx(t)]
    }
}

/// The search's view of blocking: the grid's own cells, plus the tiles that
/// the caller's predicate reported (recorded per cell index in `mask`).
pub open spec fn search_blocked(grid: Grid, mask: Seq<bool>, t: Tile) -> bool {
    grid.spec_is_blocked(t) || mask[tile_index(t, grid.width())]
}

/// Tile `b` is one of the 8 tiles around `a`.
pub open spec fn is_neighbor(a: Tile, b: Tile) -> bool {
    &&& -1 <= b.0 - a.0 <= 1
    &&& -1 <= b.1 - a.1 <= 1
    &&& a != b
}

pub open spec fn is_diagonal(a: Tile, b: Tile) -> bool {
    a.0 != b.0 && a.1 != b.1
}

/// 10 for a straight step, 14 for a diagonal one.
pub open spec fn step_cost(a: Tile, b: Tile) -> int {
    if is_diagonal(a, b) {
        14
    } else {
        10
    }
}

/// A single move of the search: onto an open neighbor, and, when
/// diagonal, only with both orthogonal tiles open (no corner cutting).
pub open spec fn legal_step(grid: Grid, mask: Seq<bool>, a: Tile, b: Tile) -> bool {
    &&& is_neighbor(a, b)
    &&& !search_blocked(grid, mask, b)
    &&& is_diagonal(a, b) ==> !search_blocked(grid, mask, (b.0, a.1)) && !search_blocked(
        grid,
        mask,
        (a.0, b.1),
    )
}

/// The tile a walk stands on before its `i`-th step.
pub open spec fn walk_prev(start: Tile, p: Seq<Tile>, i: int) -> Tile {
    if i == 0 {
        start
    } else {
        p[i - 1]
    }
}

/// The tile a walk ends on.
pub open spec fn walk_end(start: Tile, p: Seq<Tile>) -> Tile {
    if p.len() == 0 {
        start
    } else {
        p.last()
    }
}

/// `p` lists the tiles of a sequence of legal steps leaving `start`
/// (excluding `start` itself).
pub open spec fn is_walk(grid: Grid, mask: Seq<bool>, start: Tile, p: Seq<Tile>) -> bool {
    forall|i: int| 0 <= i < p.len() ==> #[trigger] legal_step(grid, mask, walk_prev(start, p, i), p[i])
}

/// The summed step costs of a walk.
pub open spec fn walk_cost(start: Tile, p: Seq<Tile>) -> int
    decreases p.len(),
{
    if p.len() == 0 {
        0
    } else {
        walk_cost(start, p.drop_last()) + step_cost(walk_prev(start, p, p.len() - 1), p.last())
    }
}

/// Octile distance: `10 * max + 4 * min` of the axis distances, the cost of
/// the cheapest walk on an open grid.
pub open spec fn octile(a: Tile, b: Tile) -> int {
    let dx = crate::fixed::abs_int(a.0 - b.0);
    let dy = crate::fixed::abs_int(a.1 - b.1);
    if dx >= dy {
        10 * dx + 4 * dy
    } else {
        10 * dy + 4 * dx
    }
}

/// `p` is a walk from `from` to `to` that no other walk beats on cost.
pub open spec fn is_shortest_walk(
    grid: Grid,
    mask: Seq<bool>,
    from: Tile,
    to: Tile,
    p: Seq<Tile>,
) -> bool {
    &&& is_walk(grid, mask, from, p)
    &&& p.len() > 0
    &&& p.last() == to
    &&& forall|q: Seq<Tile>|
        is_walk(grid, mask, from, q) && q.len() > 0 && q.last() == to ==> walk_cost(from, p)
            <= #[trigger] walk_cost(from, q)
}

/// What a search from `from` to `to` answers: nothing when `to` is blocked
/// or no walk reaches it, the empty path when already there, and otherwise
/// a cheapest walk.
pub open spec fn search_outcome(
    grid: Grid,
    mask: Seq<bool>,
    from: Tile,
    to: Tile,
    r: Option<Seq<Tile>>,
) -> bool {
    match r {
        None => search_blocked(grid, mask, to) || (from != to && forall|q: Seq<Tile>|
            #[trigger] is_walk(grid, mask, from, q) && q.len() > 0 ==> q.last() != to),
        Some(p) => !search_blocked(grid, mask, to) && if from == to {
            p.len() == 0
        } else {
            is_shortest_walk(grid, mask, from, to, p)
        },
    }
}

/// `mask` holds, for every in-bounds tile the grid leaves open, an answer
/// the predicate `f` can give for it (for the grid's own blocked tiles its
/// entries do not matter).
pub open spec fn mask_matches<F: Fn(Tile) -> bool>(grid: Grid, f: F, mask: Seq<bool>) -> bool {
    &&& mask.len() == grid.cell_count()
    &&& forall|i: int|
        0 <= i < mask.len() && !grid.spec_is_blocked(index_tile(i, grid.width())) ==> call_ensures(
            f,
            (index_tile(i, grid.width()),),
            #[trigger] mask[i],
        )
}

/// `mask` records an answer the predicate `f` can give for `to` and, unless
/// that answer blocks `to` or the search starts on `to`, an answer for
/// every open tile: the answers a search needs, and no more.
pub open spec fn answers_fit<F: Fn(Tile) -> bool>(
    grid: Grid,
    f: F,
    from: Tile,
    to: Tile,
    mask: Seq<bool>,
) -> bool {
    &&& mask.len() == grid.cell_count()
    &&& forall|i: int|
        0 <= i < mask.len() && grid.spec_is_blocked(index_tile(i, grid.width())) ==> !#[trigger] mask[i]
    &&& call_ensures(f, (to,), mask[tile_index(to, grid.width())])
    &&& !mask[tile_index(to, grid.width())] && from != to ==> mask_matches(grid, f, mask)
}

pub open spec fn opt_seq(r: Option<Vec<Tile>>) -> Option<Seq<Tile>> {
    match r {
        Some(v) => Some(v@),
        None => None,
    }
}

/// A frontier entry: (f = g + h, h, cell index, tile).
type Entry = (i64, i64, i32, Tile);

/// Cost of a cell the search has not reached.
const UNREACHED: i64 = 0x7fff_ffff_ffff_ffff;

spec fn entry_lt(a: Entry, b: Entry) -> bool {
    a.0 < b.0 || (a.0 == b.0 && (a.1 < b.1 || (a.1 == b.1 && a.2 < b.2)))
}

/// Frontier order: largest first, so the smallest entry is popped last.
spec fn sorted_desc(s: Seq<Entry>) -> bool {
    forall|i: int, j: int| 0 <= i < j < s.len() ==> !entry_lt(#[trigger] s[i], #[trigger] s[j])
}

/// `p` splits a descending frontier around `e`: entries before `p` are not
/// below `e`, entries from `p` on are.
spec fn insert_splits(heap: Seq<Entry>, e: Entry, p: int) -> bool {
    &&& 0 <= p <= heap.len()
    &&& forall|i: int| 0 <= i < p ==> !entry_lt(#[trigger] heap[i], e)
    &&& forall|i: int| p <= i < heap.len() ==> entry_lt(#[trigger] heap[i], e)
}

/// Where `e` goes in a descending frontier: after every entry not below it.
spec fn insert_pos(heap: Seq<Entry>, e: Entry) -> int {
    choose|p: int| insert_splits(heap, e, p)
}

/// The frontier with `e` queued.
spec fn frontier_push(heap: Seq<Entry>, e: Entry) -> Seq<Entry> {
    heap.insert(insert_pos(heap, e), e)
}

proof fn lemma_insert_pos_unique(heap: Seq<Entry>, e: Entry, p: int)
    requires
        insert_splits(heap, e, p),
    ensures
        insert_pos(heap, e) == p,
{
    let q = insert_pos(heap, e);
    assert(insert_splits(heap, e, q));
    if q < p {
        assert(entry_lt(heap[q], e));
    } else if p < q {
        assert(entry_lt(heap[p], e));
    }
}

/// Search state: the cost of every cell, its parent link, and the frontier.
type SearchState = (Seq<i64>, Seq<i32>, Seq<Entry>);

/// Relaxing the `k`-th step (in row-major neighbor order) out of cell `ci`
/// (tile `cur`, cost `cg`): a legal step that strictly improves its target's
/// cost records the new cost and parent and queues the target.
spec fn relax_step(
    grid: Grid,
    mask: Seq<bool>,
    to: Tile,
    s: SearchState,
    ci: int,
    cur: Tile,
    cg: int,
    k: int,
) -> SearchState {
    let off = offset_of(k);
    let nb = offset_tile(cur, k);
    let diag = off.0 != 0 && off.1 != 0;
    if search_blocked(grid, mask, nb) || (diag && (search_blocked(
        grid,
        mask,
        ((cur.0 + off.0) as i32, cur.1),
    ) || search_blocked(grid, mask, (cur.0, (cur.1 + off.1) as i32)))) {
        s
    } else {
        let ng = cg + if diag {
            14int
        } else {
            10int
        };
        let ni = tile_index(nb, grid.width());
        if ng < s.0[ni] {
            let h = octile(nb, to);
            (
                s.0.update(ni, ng as i64),
                s.1.update(ni, ci as i32),
                frontier_push(s.2, ((ng + h) as i64, h as i64, ni as i32, nb)),
            )
        } else {
            s
        }
    }
}

/// Relaxing steps `k` through 7 out of cell `ci`, in order.
spec fn expand_from(
    grid: Grid,
    mask: Seq<bool>,
    to: Tile,
    s: SearchState,
    ci: int,
    cur: Tile,
    cg: int,
    k: int,
) -> SearchState
    decreases 8 - k,
{
    if k >= 8 {
        s
    } else {
        expand_from(grid, mask, to, relax_step(grid, mask, to, s, ci, cur, cg, k), ci, cur, cg, k + 1)
    }
}

/// Running the search from state `s` for at most `fuel` rounds: each round
/// pops the last (smallest) frontier entry; popping the target ends the
/// search with the state after the pop, otherwise the popped cell is
/// expanded. An empty frontier ends it with nothing.
spec fn search_run(grid: Grid, mask: Seq<bool>, to: Tile, s: SearchState, fuel: nat) -> Option<
    SearchState,
>
    decreases fuel,
{
    if fuel == 0 || s.2.len() == 0 {
        None
    } else {
        let e = s.2.last();
        let s1 = (s.0, s.1, s.2.drop_last());
        if e.2 == tile_index(to, grid.width()) {
            Some(s1)
        } else {
            search_run(
                grid,
                mask,
                to,
                expand_from(grid, mask, to, s1, e.2 as int, e.3, s.0[e.2 as int] as int, 0),
                (fuel - 1) as nat,
            )
        }
    }
}

/// The tiles that parent links spell out from cell `from_i` to cell `c`,
/// excluding the former, following at most `fuel` links.
spec fn trace(came: Seq<i32>, w: int, from_i: int, c: int, fuel: nat) -> Seq<Tile>
    decreases fuel,
{
    if c == from_i || fuel == 0 {
        Seq::empty()
    } else {
        trace(came, w, from_i, came[c] as int, (fuel - 1) as nat).push(index_tile(c, w))
    }
}

/// The state of a search from `from` to `to` once the start is queued.
spec fn search_start(grid: Grid, from: Tile, to: Tile) -> SearchState {
    let fi = tile_index(from, grid.width());
    let h0 = octile(from, to) as i64;
    (
        Seq::new(grid.cell_count() as nat, |i: int| if i == fi {
            0i64
        } else {
            UNREACHED
        }),
        Seq::new(grid.cell_count() as nat, |i: int| -1i32),
        seq![(h0, h0, fi as i32, from)],
    )
}

/// Enough rounds for any search: each round lowers a cost or shrinks the
/// frontier, and the start's measure bounds how often that can happen.
spec fn search_fuel(grid: Grid, from: Tile, to: Tile) -> nat {
    let s0 = search_start(grid, from, to);
    (9 * pot_sum(s0.0, 14 * grid.cell_count()) + s0.2.len() + 1) as nat
}

/// The walk [`astar`] answers, given the grid and the predicate's answers
/// `mask`: the search with its frontier ordered by (f, then h, then
/// row-major index), neighbors relaxed in row-major order on strict
/// improvement, and the walk read back along parent links from the target.
pub closed spec fn search_answer(grid: Grid, mask: Seq<bool>, from: Tile, to: Tile) -> Option<
    Seq<Tile>,
> {
    if !grid.spec_in_bounds(from) || search_blocked(grid, mask, to) {
        None
    } else if from == to {
        Some(Seq::empty())
    } else {
        let w = grid.width();
        let ti = tile_index(to, w);
        match search_run(grid, mask, to, search_start(grid, from, to), search_fuel(grid, from, to)) {
            None => None,
            Some(s) => Some(trace(s.1, w, tile_index(from, w), ti, (s.0[ti] + 1) as nat)),
        }
    }
}

/// Two records of the predicate's answers block the same tiles.
pub open spec fn same_blocking(grid: Grid, m1: Seq<bool>, m2: Seq<bool>) -> bool {
    forall|t: Tile| #[trigger] search_blocked(grid, m1, t) == search_blocked(grid, m2, t)
}

proof fn lemma_expand_same_blocking(
    grid: Grid,
    m1: Seq<bool>,
    m2: Seq<bool>,
    to: Tile,
    s: SearchState,
    ci: int,
    cur: Tile,
    cg: int,
    k: int,
)
    requires
        same_blocking(grid, m1, m2),
    ensures
        expand_from(grid, m1, to, s, ci, cur, cg, k) == expand_from(grid, m2, to, s, ci, cur, cg, k),
    decreases 8 - k,
{
    if k < 8 {
        let off = offset_of(k);
        assert(search_blocked(grid, m1, offset_tile(cur, k)) == search_blocked(
            grid,
            m2,
            offset_tile(cur, k),
        ));
        assert(search_blocked(grid, m1, ((cur.0 + off.0) as i32, cur.1)) == search_blocked(
            grid,
            m2,
            ((cur.0 + off.0) as i32, cur.1),
        ));
        assert(search_blocked(grid, m1, (cur.0, (cur.1 + off.1) as i32)) == search_blocked(
            grid,
            m2,
            (cur.0, (cur.1 + off.1) as i32),
        ));
        assert(relax_step(grid, m1, to, s, ci, cur, cg, k) == relax_step(grid, m2, to, s, ci, cur, cg, k));
        lemma_expand_same_blocking(
            grid,
            m1,
            m2,
            to,
            relax_step(grid, m1, to, s, ci, cur, cg, k),
            ci,
            cur,
            cg,
            k + 1,
        );
    }
}

proof fn lemma_run_same_blocking(
    grid: Grid,
    m1: Seq<bool>,
    m2: Seq<bool>,
    to: Tile,
    s: SearchState,
    fuel: nat,
)
    requires
        same_blocking(grid, m1, m2),
    ensures
        search_run(grid, m1, to, s, fuel) == search_run(grid, m2, to, s, fuel),
    decreases fuel,
{
    if fuel > 0 && s.2.len() > 0 {
        let e = s.2.last();
        let s1 = (s.0, s.1, s.2.drop_last());
        if e.2 != tile_index(to, grid.width()) {
            lemma_expand_same_blocking(grid, m1, m2, to, s1, e.2 as int, e.3, s.0[e.2 as int] as int, 0);
            lemma_run_same_blocking(
                grid,
                m1,
                m2,
                to,
                expand_from(grid, m1, to, s1, e.2 as int, e.3, s.0[e.2 as int] as int, 0),
                (fuel - 1) as nat,
            );
        }
    }
}

/// The search's answer depends on the predicate's answers only through the
/// tiles they block: two records that block the same tiles give the same
/// walk. So a predicate that gives the same answers gives the same walk.
pub proof fn lemma_search_answer_depends_on_blocking(
    grid: Grid,
    m1: Seq<bool>,
    m2: Seq<bool>,
    from: Tile,
    to: Tile,
)
    requires
        same_blocking(grid, m1, m2),
    ensures
        search_answer(grid, m1, from, to) == search_answer(grid, m2, from, to),
{
    assert(search_blocked(grid, m1, to) == search_blocked(grid, m2, to));
    lemma_run_same_blocking(
        grid,
        m1,
        m2,
        to,
        search_start(grid, from, to),
        search_fuel(grid, from, to),
    );
}

/// The fixed facts of a search from `from` to `to` that got past the
/// trivial cases.
spec fn search_frame(grid: Grid, mask: Seq<bool>, from: Tile, to: Tile) -> bool {
    &&& grid.wf()
    &&& grid.spec_in_bounds(from)
    &&& grid.spec_in_bounds(to)
    &&& from != to
    &&& mask.len() == grid.cell_count()
    &&& !search_blocked(grid, mask, to)
}

spec fn entry_ok(grid: Grid, to: Tile, g: Seq<i64>, e: Entry) -> bool {
    &&& 0 <= e.2 < g.len()
    &&& e.3 == index_tile(e.2 as int, grid.width())
    &&& e.1 == octile(e.3, to)
    &&& g[e.2 as int] != UNREACHED
    &&& e.0 >= g[e.2 as int] + e.1
}

#[verifier::opaque]
spec fn entries_ok(grid: Grid, to: Tile, g: Seq<i64>, heap: Seq<Entry>) -> bool {
    forall|k: int| 0 <= k < heap.len() ==> entry_ok(grid, to, g, #[trigger] heap[k])
}

/// Every legal step out of cell `i` has been relaxed.
spec fn relaxed(grid: Grid, mask: Seq<bool>, g: Seq<i64>, i: int) -> bool {
    forall|nb: Tile| #[trigger]
        legal_step(grid, mask, index_tile(i, grid.width()), nb) ==> g[tile_index(nb, grid.width())]
            <= g[i] + step_cost(index_tile(i, grid.width()), nb)
}

spec fn has_entry(heap: Seq<Entry>, i: int, f: int) -> bool {
    exists|k: int| 0 <= k < heap.len() && (#[trigger] heap[k]).2 == i && heap[k].0 == f
}

spec fn has_any_entry(heap: Seq<Entry>, i: int) -> bool {
    exists|k: int| 0 <= k < heap.len() && (#[trigger] heap[k]).2 == i
}

/// Every reached cell (but `skip`) is queued with its current cost or has
/// all of its steps relaxed.
#[verifier::opaque]
spec fn frontier_ok(
    grid: Grid,
    mask: Seq<bool>,
    to: Tile,
    g: Seq<i64>,
    heap: Seq<Entry>,
    skip: int,
) -> bool {
    forall|i: int|
        0 <= i < g.len() && i != skip && #[trigger] g[i] != UNREACHED ==> has_entry(
            heap,
            i,
            g[i] + octile(index_tile(i, grid.width()), to),
        ) || relaxed(grid, mask, g, i)
}

spec fn parent_ok(grid: Grid, mask: Seq<bool>, g: Seq<i64>, came: Seq<i32>, i: int) -> bool {
    let p = came[i] as int;
    &&& 0 <= p < g.len()
    &&& g[p] != UNREACHED
    &&& legal_step(grid, mask, index_tile(p, grid.width()), index_tile(i, grid.width()))
    &&& g[p] + step_cost(index_tile(p, grid.width()), index_tile(i, grid.width())) <= g[i]
}

/// Every reached cell other than the start records a parent one legal
/// step away whose cost, plus that step, is no more than its own.
#[verifier::opaque]
spec fn parents_ok(grid: Grid, mask: Seq<bool>, from_i: int, g: Seq<i64>, came: Seq<i32>) -> bool {
    forall|i: int|
        0 <= i < g.len() && i != from_i && #[trigger] g[i] != UNREACHED ==> parent_ok(
            grid,
            mask,
            g,
            came,
            i,
        )
}

/// The number of reached cells.
spec fn reached_count(g: Seq<i64>) -> int
    decreases g.len(),
{
    if g.len() == 0 {
        0
    } else {
        reached_count(g.drop_last()) + if g.last() != UNREACHED {
            1int
        } else {
            0int
        }
    }
}

/// Every reached cost is at most 14 per reached cell beyond the first.
#[verifier::opaque]
spec fn costs_bounded(g: Seq<i64>) -> bool {
    forall|i: int|
        0 <= i < g.len() && #[trigger] g[i] != UNREACHED ==> 0 <= g[i] <= 14 * (reached_count(g) - 1)
}

/// What holds of the search state at the top of every round.
spec fn search_inv(
    grid: Grid,
    mask: Seq<bool>,
    from: Tile,
    to: Tile,
    g: Seq<i64>,
    came: Seq<i32>,
    heap: Seq<Entry>,
) -> bool {
    let w = grid.width();
    &&& search_frame(grid, mask, from, to)
    &&& g.len() == grid.cell_count()
    &&& came.len() == grid.cell_count()
    &&& g[tile_index(from, w)] == 0
    &&& entries_ok(grid, to, g, heap)
    &&& sorted_desc(heap)
    &&& parents_ok(grid, mask, tile_index(from, w), g, came)
    &&& costs_bounded(g)
    &&& (g[tile_index(to, w)] != UNREACHED ==> has_any_entry(heap, tile_index(to, w)))
}

spec fn pot1(v: i64, cap: int) -> int {
    if v == UNREACHED {
        cap + 1
    } else {
        v as int
    }
}

/// Termination measure: the sum of all costs, unreached ones counting as
/// more than any reachable cost.
spec fn pot_sum(s: Seq<i64>, cap: int) -> int
    decreases s.len(),
{
    if s.len() == 0 {
        0
    } else {
        pot_sum(s.drop_last(), cap) + pot1(s.last(), cap)
    }
}

proof fn lemma_pot_update(s: Seq<i64>, cap: int, j: int, v: i64)
    requires
        0 <= j < s.len(),
    ensures
        pot_sum(s.update(j, v), cap) == pot_sum(s, cap) - pot1(s[j], cap) + pot1(v, cap),
        reached_count(s.update(j, v)) == reached_count(s) - (if s[j] != UNREACHED {
            1int
        } else {
            0int
        }) + (if v != UNREACHED {
            1int
        } else {
            0int
        }),
    decreases s.len(),
{
    let t = s.update(j, v);
    if j == s.len() - 1 {
        assert(t.drop_last() =~= s.drop_last());
    } else {
        assert(t.drop_last() =~= s.drop_last().update(j, v));
        lemma_pot_update(s.drop_last(), cap, j, v);
    }
}

proof fn lemma_pot_nonneg(s: Seq<i64>, cap: int)
    requires
        cap >= 0,
        forall|i: int| 0 <= i < s.len() ==> s[i] >= 0,
    ensures
        pot_sum(s, cap) >= 0,
    decreases s.len(),
{
    if s.len() > 0 {
        lemma_pot_nonneg(s.drop_last(), cap);
    }
}

proof fn lemma_reached_count_bounds(g: Seq<i64>)
    ensures
        0 <= reached_count(g) <= g.len(),
        forall|i: int| 0 <= i < g.len() && g[i] != UNREACHED ==> reached_count(g) >= 1,
    decreases g.len(),
{
    if g.len() > 0 {
        lemma_reached_count_bounds(g.drop_last());
        assert forall|i: int| 0 <= i < g.len() && g[i] != UNREACHED implies reached_count(g) >= 1 by {
            if i < g.len() - 1 {
                assert(g.drop_last()[i] == g[i]);
            }
        }
    }
}

/// With the cost bound, every reached cost is at most `14 * n`.
proof fn lemma_cost_cap(g: Seq<i64>, i: int)
    requires
        costs_bounded(g),
        0 <= i < g.len(),
        g[i] != UNREACHED,
    ensures
        0 <= g[i] <= 14 * (g.len() - 1),
{
    reveal(costs_bounded);
    lemma_reached_count_bounds(g);
}

/// The heuristic never overestimates a single step: it is consistent.
pub proof fn lemma_octile_consistent(a: Tile, b: Tile, to: Tile)
    requires
        is_neighbor(a, b),
    ensures
        octile(a, to) <= step_cost(a, b) + octile(b, to),
{
}

proof fn lemma_octile_self(t: Tile)
    ensures
        octile(t, t) == 0,
{
}

/// The heuristic never overestimates: no walk is cheaper than the octile
/// distance between its ends.
pub proof fn lemma_octile_admissible(grid: Grid, mask: Seq<bool>, start: Tile, p: Seq<Tile>)
    requires
        is_walk(grid, mask, start, p),
    ensures
        octile(start, walk_end(start, p)) <= walk_cost(start, p),
    decreases p.len(),
{
    if p.len() == 0 {
        lemma_octile_self(start);
    } else {
        let p0 = p.drop_last();
        lemma_walk_prefix(grid, mask, start, p);
        let t0 = walk_end(start, p0);
        let t = p.last();
        // octile(start, .) is consistent along the last step, read backwards.
        lemma_octile_consistent(t, t0, start);
        assert(octile(start, t) <= octile(start, t0) + step_cost(t0, t)) by {
            assert(octile(t, start) == octile(start, t));
            assert(octile(t0, start) == octile(start, t0));
            assert(step_cost(t, t0) == step_cost(t0, t));
        }
        let pp = p0;
        assert(walk_end(start, p) == t);
        lemma_octile_admissible(grid, mask, start, pp);
    }
}

/// Removing the last entry keeps every entry for other cells.
proof fn lemma_pop_keeps(heap: Seq<Entry>, i: int, f: int)
    requires
        heap.len() > 0,
        has_entry(heap, i, f),
        heap.last().2 != i,
    ensures
        has_entry(heap.drop_last(), i, f),
{
    let k = choose|k: int| 0 <= k < heap.len() && (#[trigger] heap[k]).2 == i && heap[k].0 == f;
    assert(heap.drop_last()[k] == heap[k]);
}

proof fn lemma_pop_keeps_any(heap: Seq<Entry>, i: int)
    requires
        heap.len() > 0,
        has_any_entry(heap, i),
        heap.last().2 != i,
    ensures
        has_any_entry(heap.drop_last(), i),
{
    let k = choose|k: int| 0 <= k < heap.len() && (#[trigger] heap[k]).2 == i;
    assert(heap.drop_last()[k] == heap[k]);
}

/// The first steps of a walk are a walk.
proof fn lemma_walk_prefix(grid: Grid, mask: Seq<bool>, start: Tile, p: Seq<Tile>)
    requires
        is_walk(grid, mask, start, p),
        p.len() > 0,
    ensures
        is_walk(grid, mask, start, p.drop_last()),
        legal_step(grid, mask, walk_end(start, p.drop_last()), p.last()),
        walk_cost(start, p) == walk_cost(start, p.drop_last()) + step_cost(
            walk_end(start, p.drop_last()),
            p.last(),
        ),
{
    let q = p.drop_last();
    assert forall|i: int| 0 <= i < q.len() implies #[trigger] legal_step(
        grid,
        mask,
        walk_prev(start, q, i),
        q[i],
    ) by {
        assert(walk_prev(start, q, i) == walk_prev(start, p, i));
        assert(legal_step(grid, mask, walk_prev(start, p, i), p[i]));
    }
    assert(legal_step(grid, mask, walk_prev(start, p, p.len() - 1), p[p.len() - 1]));
}

/// A walk extended at its front by one legal step is a walk.
proof fn lemma_walk_prepend(grid: Grid, mask: Seq<bool>, a: Tile, b: Tile, p: Seq<Tile>)
    requires
        legal_step(grid, mask, a, b),
        is_walk(grid, mask, b, p),
    ensures
        is_walk(grid, mask, a, seq![b] + p),
        walk_cost(a, seq![b] + p) == step_cost(a, b) + walk_cost(b, p),
        walk_end(a, seq![b] + p) == walk_end(b, p),
    decreases p.len(),
{
    let q = seq![b] + p;
    assert forall|i: int| 0 <= i < q.len() implies #[trigger] legal_step(
        grid,
        mask,
        walk_prev(a, q, i),
        q[i],
    ) by {
        if i > 0 {
            assert(q[i] == p[i - 1]);
            assert(walk_prev(a, q, i) == walk_prev(b, p, i - 1));
            assert(legal_step(grid, mask, walk_prev(b, p, i - 1), p[i - 1]));
        }
    }
    if p.len() > 0 {
        lemma_walk_prefix(grid, mask, b, p);
        lemma_walk_prepend(grid, mask, a, b, p.drop_last());
        assert(q.drop_last() =~= seq![b] + p.drop_last());
        assert(walk_prev(a, q, q.len() - 1) == walk_end(b, p.drop_last()));
        assert(walk_prev(b, p, p.len() - 1) == walk_end(b, p.drop_last()));
        assert(q.last() == p.last());
        assert(walk_cost(a, q) == walk_cost(a, q.drop_last()) + step_cost(
            walk_prev(a, q, q.len() - 1),
            q.last(),
        ));
    } else {
        assert(q.drop_last() =~= Seq::<Tile>::empty());
        assert(walk_cost(a, q) == walk_cost(a, q.drop_last()) + step_cost(
            walk_prev(a, q, q.len() - 1),
            q.last(),
        ));
    }
}

/// The heart of the search's correctness: any walk from the start either
/// ends on a cell whose recorded cost is at most the walk's cost, or some
/// queued entry's priority is at most the walk's cost plus the heuristic at
/// its end.
proof fn lemma_walk_meets_frontier(
    grid: Grid,
    mask: Seq<bool>,
    from: Tile,
    to: Tile,
    g: Seq<i64>,
    came: Seq<i32>,
    heap: Seq<Entry>,
    q: Seq<Tile>,
)
    requires
        search_inv(grid, mask, from, to, g, came, heap),
        frontier_ok(grid, mask, to, g, heap, -1),
        is_walk(grid, mask, from, q),
    ensures
        ({
            let t = walk_end(from, q);
            let ti = tile_index(t, grid.width());
            ||| (g[ti] != UNREACHED && g[ti] <= walk_cost(from, q))
            ||| exists|k: int|
                0 <= k < heap.len() && (#[trigger] heap[k]).0 <= walk_cost(from, q) + octile(t, to)
        }),
    decreases q.len(),
{
    let w = grid.width();
    let h = grid.height();
    grid.lemma_wf_dims();
    if q.len() > 0 {
        let q0 = q.drop_last();
        lemma_walk_prefix(grid, mask, from, q);
        lemma_walk_meets_frontier(grid, mask, from, to, g, came, heap, q0);
        let t0 = walk_end(from, q0);
        let t = q.last();
        assert(walk_end(from, q) == t);
        assert(grid.spec_in_bounds(t0)) by {
            if q0.len() > 0 {
                lemma_walk_prefix(grid, mask, from, q0);
            }
        }
        lemma_octile_consistent(t0, t, to);
        let i0 = tile_index(t0, w);
        lemma_tile_index_bounds(t0, w, h);
        lemma_tile_index_bounds(t, w, h);
        let c0 = walk_cost(from, q0);
        if g[i0] != UNREACHED && g[i0] <= c0 {
            reveal(frontier_ok);
            assert(g[i0] != UNREACHED);
            if has_entry(heap, i0, g[i0] + octile(index_tile(i0, w), to)) {
                let k = choose|k: int|
                    0 <= k < heap.len() && (#[trigger] heap[k]).2 == i0 && heap[k].0 == g[i0]
                        + octile(index_tile(i0, w), to);
                assert(heap[k].0 <= walk_cost(from, q) + octile(t, to));
            } else {
                assert(relaxed(grid, mask, g, i0));
                assert(legal_step(grid, mask, index_tile(i0, w), t));
                let ti = tile_index(t, w);
                assert(g[ti] <= g[i0] + step_cost(t0, t));
                lemma_cost_cap(g, i0);
                assert(g[ti] != UNREACHED);
            }
        }
    }
}

/// The row-major neighbor order used by the search: the 3x3 block around
/// a tile minus its center, scanned row by row.
spec fn offset_of(k: int) -> Tile {
    if k == 0 {
        (-1i32, -1i32)
    } else if k == 1 {
        (0i32, -1i32)
    } else if k == 2 {
        (1i32, -1i32)
    } else if k == 3 {
        (-1i32, 0i32)
    } else if k == 4 {
        (1i32, 0i32)
    } else if k == 5 {
        (-1i32, 1i32)
    } else if k == 6 {
        (0i32, 1i32)
    } else {
        (1i32, 1i32)
    }
}

spec fn offset_tile(t: Tile, k: int) -> Tile {
    ((t.0 + offset_of(k).0) as i32, (t.1 + offset_of(k).1) as i32)
}

/// Every neighbor is reached by one of the 8 offsets.
proof fn lemma_neighbor_offset(a: Tile, b: Tile)
    requires
        is_neighbor(a, b),
    ensures
        exists|k: int| 0 <= k < 8 && #[trigger] offset_tile(a, k) == b,
{
    let dx = b.0 - a.0;
    let dy = b.1 - a.1;
    let raw = (dy + 1) * 3 + (dx + 1);
    let k = if raw > 4 {
        raw - 1
    } else {
        raw
    };
    assert(offset_tile(a, k) == b);
}

fn neighbor_offset(k: usize) -> (r: Tile)
    requires
        k < 8,
    ensures
        r == offset_of(k as int),
{
    if k == 0 {
        (-1, -1)
    } else if k == 1 {
        (0, -1)
    } else if k == 2 {
        (1, -1)
    } else if k == 3 {
        (-1, 0)
    } else if k == 4 {
        (1, 0)
    } else if k == 5 {
        (-1, 1)
    } else if k == 6 {
        (0, 1)
    } else {
        (1, 1)
    }
}

/// Octile heuristic: admissible and consistent for 10/14 step costs.
fn heuristic(a: Tile, b: Tile) -> (r: i64)
    ensures
        r == octile(a, b),
{
    let ddx: i64 = a.0 as i64 - b.0 as i64;
    let ddy: i64 = a.1 as i64 - b.1 as i64;
    let dx: i64 = if ddx < 0 {
        -ddx
    } else {
        ddx
    };
    let dy: i64 = if ddy < 0 {
        -ddy
    } else {
        ddy
    };
    if dx >= dy {
        10 * dx + 4 * dy
    } else {
        10 * dy + 4 * dx
    }
}

fn blocked_at(grid: &Grid, mask: &Vec<bool>, t: Tile) -> (r: bool)
    requires
        grid.wf(),
        mask@.len() == grid.cell_count(),
    ensures
        r == search_blocked(*grid, mask@, t),
{
    if !grid.in_bounds(t) {
        return true;
    }
    let i = grid.idx(t);
    grid.blocked[i] || mask[i]
}

fn entry_lt_exec(a: &Entry, b: &Entry) -> (r: bool)
    ensures
        r == entry_lt(*a, *b),
{
    a.0 < b.0 || (a.0 == b.0 && (a.1 < b.1 || (a.1 == b.1 && a.2 < b.2)))
}

/// Inserts `e` into a frontier kept in descending order.
fn push_sorted(heap: &mut Vec<Entry>, e: Entry)
    requires
        sorted_desc(old(heap)@),
    ensures
        sorted_desc(final(heap)@),
        insert_splits(old(heap)@, e, insert_pos(old(heap)@, e)),
        final(heap)@ == frontier_push(old(heap)@, e),
{
    let mut lo: usize = 0;
    let mut hi: usize = heap.len();
    while lo < hi
        invariant
            0 <= lo <= hi <= heap@.len(),
            sorted_desc(heap@),
            forall|i: int| 0 <= i < lo ==> !entry_lt(#[trigger] heap@[i], e),
            forall|i: int| hi <= i < heap@.len() ==> entry_lt(#[trigger] heap@[i], e),
        decreases hi - lo,
    {
        let mid = lo + (hi - lo) / 2;
        if entry_lt_exec(&heap[mid], &e) {
            assert forall|i: int| mid <= i < heap@.len() implies entry_lt(#[trigger] heap@[i], e) by {
                if i > mid {
                    assert(!entry_lt(heap@[mid as int], heap@[i]));
                }
            }
            hi = mid;
        } else {
            assert forall|i: int| 0 <= i <= mid implies !entry_lt(#[trigger] heap@[i], e) by {
                if i < mid {
                    assert(!entry_lt(heap@[i], heap@[mid as int]));
                }
            }
            lo = mid + 1;
        }
    }
    let ghost old_heap = heap@;
    proof {
        lemma_insert_pos_unique(old_heap, e, lo as int);
    }
    heap.insert(lo, e);
    assert(heap@ == old_heap.insert(lo as int, e));
    assert forall|i: int, j: int| 0 <= i < j < heap@.len() implies !entry_lt(
        #[trigger] heap@[i],
        #[trigger] heap@[j],
    ) by {
        if j < lo {
            assert(heap@[i] == old_heap[i] && heap@[j] == old_heap[j]);
        } else if j == lo {
            assert(heap@[i] == old_heap[i]);
        } else if i < lo {
            assert(heap@[i] == old_heap[i] && heap@[j] == old_heap[j - 1]);
            assert(!entry_lt(old_heap[i], e));
            assert(entry_lt(old_heap[j - 1], e));
        } else if i == lo {
            assert(heap@[j] == old_heap[j - 1]);
        } else {
            assert(heap@[i] == old_heap[i - 1] && heap@[j] == old_heap[j - 1]);
        }
    }
}

spec fn partial_relaxed(grid: Grid, mask: Seq<bool>, g: Seq<i64>, cur: Tile, cg: int, k: int) -> bool {
    forall|j: int|
        0 <= j < k && legal_step(grid, mask, cur, #[trigger] offset_tile(cur, j)) ==> g[tile_index(
            offset_tile(cur, j),
            grid.width(),
        )] <= cg + step_cost(cur, offset_tile(cur, j))
}

/// The search state right after the start is queued.
proof fn lemma_search_start(
    grid: Grid,
    mask: Seq<bool>,
    from: Tile,
    to: Tile,
    g: Seq<i64>,
    came: Seq<i32>,
    heap: Seq<Entry>,
)
    requires
        search_frame(grid, mask, from, to),
        g.len() == grid.cell_count(),
        came.len() == grid.cell_count(),
        g[tile_index(from, grid.width())] == 0,
        forall|i: int| 0 <= i < g.len() && i != tile_index(from, grid.width()) ==> g[i] == UNREACHED,
        heap == seq![
            (octile(from, to) as i64, octile(from, to) as i64, tile_index(from, grid.width()) as i32, from),
        ],
        0 <= octile(from, to) <= i64::MAX,
    ensures
        search_inv(grid, mask, from, to, g, came, heap),
        frontier_ok(grid, mask, to, g, heap, -1),
{
    let w = grid.width();
    let h = grid.height();
    let fi = tile_index(from, w);
    grid.lemma_wf_dims();
    lemma_tile_index_bounds(from, w, h);
    lemma_tile_index_bounds(to, w, h);
    reveal(entries_ok);
    reveal(frontier_ok);
    reveal(parents_ok);
    reveal(costs_bounded);
    lemma_reached_count_bounds(g);
    assert(entry_ok(grid, to, g, heap[0]));
    assert forall|i: int|
        0 <= i < g.len() && i != -1 && #[trigger] g[i] != UNREACHED implies has_entry(
        heap,
        i,
        g[i] + octile(index_tile(i, w), to),
    ) || relaxed(grid, mask, g, i) by {
        assert(i == fi);
        assert(heap[0].2 == i);
    }
}

proof fn lemma_last_entry_ok(
    grid: Grid,
    mask: Seq<bool>,
    from: Tile,
    to: Tile,
    g: Seq<i64>,
    came: Seq<i32>,
    heap0: Seq<Entry>,
)
    requires
        search_inv(grid, mask, from, to, g, came, heap0),
        heap0.len() > 0,
    ensures
        entry_ok(grid, to, g, heap0.last()),
{
    reveal(entries_ok);
    assert(entry_ok(grid, to, g, heap0[heap0.len() - 1]));
}

/// Popping an entry for a cell other than the target keeps the invariant,
/// except that the popped cell may now be neither queued nor relaxed.
proof fn lemma_after_pop(
    grid: Grid,
    mask: Seq<bool>,
    from: Tile,
    to: Tile,
    g: Seq<i64>,
    came: Seq<i32>,
    heap0: Seq<Entry>,
)
    requires
        search_inv(grid, mask, from, to, g, came, heap0),
        frontier_ok(grid, mask, to, g, heap0, -1),
        heap0.len() > 0,
        heap0.last().2 != tile_index(to, grid.width()),
    ensures
        entry_ok(grid, to, g, heap0.last()),
        search_inv(grid, mask, from, to, g, came, heap0.drop_last()),
        frontier_ok(grid, mask, to, g, heap0.drop_last(), heap0.last().2 as int),
{
    let heap = heap0.drop_last();
    let ci = heap0.last().2 as int;
    let w = grid.width();
    reveal(entries_ok);
    reveal(frontier_ok);
    assert(entry_ok(grid, to, g, heap0[heap0.len() - 1]));
    assert forall|k: int| 0 <= k < heap.len() implies entry_ok(grid, to, g, #[trigger] heap[k]) by {
        assert(heap[k] == heap0[k]);
    }
    assert forall|i: int, j: int| 0 <= i < j < heap.len() implies !entry_lt(
        #[trigger] heap[i],
        #[trigger] heap[j],
    ) by {
        assert(heap[i] == heap0[i] && heap[j] == heap0[j]);
    }
    assert forall|i: int|
        0 <= i < g.len() && i != ci && #[trigger] g[i] != UNREACHED implies has_entry(
        heap,
        i,
        g[i] + octile(index_tile(i, w), to),
    ) || relaxed(grid, mask, g, i) by {
        if has_entry(heap0, i, g[i] + octile(index_tile(i, w), to)) {
            lemma_pop_keeps(heap0, i, g[i] + octile(index_tile(i, w), to));
        }
    }
    if g[tile_index(to, w)] != UNREACHED {
        lemma_pop_keeps_any(heap0, tile_index(to, w));
    }
}

/// Entries for other cells survive an insertion into the frontier.
proof fn lemma_insert_keeps(heap: Seq<Entry>, pos: int, ne: Entry, k: int)
    requires
        0 <= pos <= heap.len(),
        0 <= k < heap.len(),
    ensures
        heap.insert(pos, ne)[if k < pos {
            k
        } else {
            k + 1
        }] == heap[k],
{
}

/// Lowering the cost of cell `ni` to `ng` by a step from the expanded cell
/// `ci` keeps every part of the invariant.
proof fn lemma_relax_update(
    grid: Grid,
    mask: Seq<bool>,
    from: Tile,
    to: Tile,
    g: Seq<i64>,
    came: Seq<i32>,
    heap: Seq<Entry>,
    ci: int,
    cur: Tile,
    cg: int,
    kk: int,
    nb: Tile,
    ng: i64,
    pos: int,
    heap2: Seq<Entry>,
)
    requires
        search_inv(grid, mask, from, to, g, came, heap),
        frontier_ok(grid, mask, to, g, heap, ci),
        partial_relaxed(grid, mask, g, cur, cg, kk),
        0 <= kk < 8,
        0 <= ci < g.len(),
        cur == index_tile(ci, grid.width()),
        ci == tile_index(cur, grid.width()),
        g[ci] == cg,
        cg != UNREACHED,
        0 <= cg,
        nb == offset_tile(cur, kk),
        legal_step(grid, mask, cur, nb),
        ng == cg + step_cost(cur, nb),
        ng < g[tile_index(nb, grid.width())],
        0 <= pos <= heap.len(),
        heap2 == heap.insert(
            pos,
            (
                (ng + octile(nb, to)) as i64,
                octile(nb, to) as i64,
                tile_index(nb, grid.width()) as i32,
                nb,
            ),
        ),
        0 <= ng + octile(nb, to) <= i64::MAX,
        sorted_desc(heap2),
    ensures
        ({
            let ni = tile_index(nb, grid.width());
            let g2 = g.update(ni, ng);
            let came2 = came.update(ni, ci as i32);
            &&& search_inv(grid, mask, from, to, g2, came2, heap2)
            &&& frontier_ok(grid, mask, to, g2, heap2, ci)
            &&& partial_relaxed(grid, mask, g2, cur, cg, kk + 1)
            &&& g2[ci] == cg
            &&& forall|i: int| 0 <= i < g.len() ==> #[trigger] g2[i] <= g[i]
        }),
{
    let w = grid.width();
    let h = grid.height();
    let ni = tile_index(nb, w);
    let g2 = g.update(ni, ng);
    let came2 = came.update(ni, ci as i32);
    let fi = tile_index(from, w);
    let ti = tile_index(to, w);
    let ne: Entry = ((ng + octile(nb, to)) as i64, octile(nb, to) as i64, ni as i32, nb);
    grid.lemma_wf_dims();
    lemma_index_tile_bounds(ci, w, h);
    lemma_tile_index_bounds(nb, w, h);
    lemma_tile_index_bounds(cur, w, h);
    lemma_tile_index_bounds(from, w, h);
    lemma_tile_index_bounds(to, w, h);
    assert(heap2[pos] == ne);
    assert(ni != ci);
    assert(ni != fi);
    // Costs stay bounded.
    lemma_pot_update(g, 0, ni, ng);
    assert(costs_bounded(g2)) by {
        reveal(costs_bounded);
        assert forall|i: int| 0 <= i < g2.len() && #[trigger] g2[i] != UNREACHED implies 0 <= g2[i]
            <= 14 * (reached_count(g2) - 1) by {
            if i != ni {
                assert(g[i] != UNREACHED);
            }
        }
    }
    // Entries stay valid: costs only went down.
    assert(entries_ok(grid, to, g2, heap2)) by {
        reveal(entries_ok);
        assert forall|k2: int| 0 <= k2 < heap2.len() implies entry_ok(grid, to, g2, #[trigger] heap2[k2]) by {
            if k2 != pos {
                let k0 = if k2 < pos {
                    k2
                } else {
                    k2 - 1
                };
                lemma_insert_keeps(heap, pos, ne, k0);
                assert(entry_ok(grid, to, g, heap[k0]));
            }
        }
    }
    // Parents stay valid.
    assert(parents_ok(grid, mask, fi, g2, came2)) by {
        reveal(parents_ok);
        assert forall|i: int| 0 <= i < g2.len() && i != fi && #[trigger] g2[i] != UNREACHED implies parent_ok(
            grid,
            mask,
            g2,
            came2,
            i,
        ) by {
            if i != ni {
                assert(g[i] != UNREACHED);
                assert(parent_ok(grid, mask, g, came, i));
            }
        }
    }
    // Every reached cell is still queued with its cost or relaxed.
    assert(frontier_ok(grid, mask, to, g2, heap2, ci)) by {
        reveal(frontier_ok);
        assert forall|i: int|
            0 <= i < g2.len() && i != ci && #[trigger] g2[i] != UNREACHED implies has_entry(
            heap2,
            i,
            g2[i] + octile(index_tile(i, w), to),
        ) || relaxed(grid, mask, g2, i) by {
            if i == ni {
                assert(heap2[pos].2 == i);
            } else {
                assert(g[i] != UNREACHED);
                if has_entry(heap, i, g[i] + octile(index_tile(i, w), to)) {
                    let k3 = choose|k3: int|
                        0 <= k3 < heap.len() && (#[trigger] heap[k3]).2 == i && heap[k3].0 == g[i]
                            + octile(index_tile(i, w), to);
                    lemma_insert_keeps(heap, pos, ne, k3);
                } else {
                    assert(relaxed(grid, mask, g, i));
                    assert forall|nb2: Tile| #[trigger]
                        legal_step(grid, mask, index_tile(i, w), nb2) implies g2[tile_index(nb2, w)]
                        <= g2[i] + step_cost(index_tile(i, w), nb2) by {
                        lemma_index_tile_bounds(i, w, h);
                        lemma_tile_index_bounds(nb2, w, h);
                        assert(g[tile_index(nb2, w)] <= g[i] + step_cost(index_tile(i, w), nb2));
                    }
                }
            }
        }
    }
    // The target stays queued once reached.
    if g2[ti] != UNREACHED {
        if ni == ti {
            assert(heap2[pos].2 == ti);
        } else {
            assert(g[ti] == g2[ti]);
            let k3 = choose|k3: int| 0 <= k3 < heap.len() && (#[trigger] heap[k3]).2 == ti;
            lemma_insert_keeps(heap, pos, ne, k3);
        }
    }
    assert forall|i: int| 0 <= i < g.len() implies #[trigger] g2[i] <= g[i] by {}
    assert(g2[fi] == 0);
    assert(g2.len() == grid.cell_count() && came2.len() == grid.cell_count());
    assert forall|j: int|
        0 <= j < kk + 1 && legal_step(grid, mask, cur, #[trigger] offset_tile(cur, j)) implies g2[tile_index(
        offset_tile(cur, j),
        w,
    )] <= cg + step_cost(cur, offset_tile(cur, j)) by {
        lemma_tile_index_bounds(offset_tile(cur, j), w, h);
        if j < kk {
            assert(g[tile_index(offset_tile(cur, j), w)] <= cg + step_cost(cur, offset_tile(cur, j)));
        }
    }
}

/// Once all 8 directions are processed, the expanded cell is relaxed.
proof fn lemma_finish_expand(
    grid: Grid,
    mask: Seq<bool>,
    to: Tile,
    g: Seq<i64>,
    heap: Seq<Entry>,
    ci: int,
    cur: Tile,
)
    requires
        frontier_ok(grid, mask, to, g, heap, ci),
        partial_relaxed(grid, mask, g, cur, g[ci] as int, 8),
        cur == index_tile(ci, grid.width()),
    ensures
        frontier_ok(grid, mask, to, g, heap, -1),
{
    reveal(frontier_ok);
    assert(relaxed(grid, mask, g, ci)) by {
        assert forall|nb2: Tile| #[trigger]
            legal_step(grid, mask, index_tile(ci, grid.width()), nb2) implies g[tile_index(
            nb2,
            grid.width(),
        )] <= g[ci] + step_cost(index_tile(ci, grid.width()), nb2) by {
            lemma_neighbor_offset(cur, nb2);
            let j = choose|j: int| 0 <= j < 8 && #[trigger] offset_tile(cur, j) == nb2;
            assert(legal_step(grid, mask, cur, offset_tile(cur, j)));
        }
    }
}

/// An empty frontier means no walk reaches the target.
proof fn lemma_exhausted(
    grid: Grid,
    mask: Seq<bool>,
    from: Tile,
    to: Tile,
    g: Seq<i64>,
    came: Seq<i32>,
    heap: Seq<Entry>,
)
    requires
        search_inv(grid, mask, from, to, g, came, heap),
        frontier_ok(grid, mask, to, g, heap, -1),
        heap.len() == 0,
    ensures
        search_outcome(grid, mask, from, to, None),
{
    assert forall|q: Seq<Tile>| #[trigger]
        is_walk(grid, mask, from, q) && q.len() > 0 implies q.last() != to by {
        lemma_walk_meets_frontier(grid, mask, from, to, g, came, heap, q);
        if q.last() == to {
            assert(walk_end(from, q) == to);
        }
    }
}

/// When the target is popped, its cost is at most that of every walk to it.
proof fn lemma_target_popped(
    grid: Grid,
    mask: Seq<bool>,
    from: Tile,
    to: Tile,
    g: Seq<i64>,
    came: Seq<i32>,
    heap0: Seq<Entry>,
)
    requires
        search_inv(grid, mask, from, to, g, came, heap0),
        frontier_ok(grid, mask, to, g, heap0, -1),
        heap0.len() > 0,
        heap0.last().2 == tile_index(to, grid.width()),
    ensures
        forall|q: Seq<Tile>|
            is_walk(grid, mask, from, q) && q.len() > 0 && q.last() == to ==> g[tile_index(
                to,
                grid.width(),
            )] <= #[trigger] walk_cost(from, q),
{
    reveal(entries_ok);
    let last = heap0.len() - 1;
    assert(entry_ok(grid, to, g, heap0[last]));
    lemma_octile_self(to);
    grid.lemma_wf_dims();
    lemma_tile_index_bounds(to, grid.width(), grid.height());
    assert forall|q: Seq<Tile>|
        is_walk(grid, mask, from, q) && q.len() > 0 && q.last() == to implies g[tile_index(
        to,
        grid.width(),
    )] <= #[trigger] walk_cost(from, q) by {
        lemma_walk_meets_frontier(grid, mask, from, to, g, came, heap0, q);
        assert(walk_end(from, q) == to);
        if exists|k: int|
            0 <= k < heap0.len() && (#[trigger] heap0[k]).0 <= walk_cost(from, q) + octile(to, to) {
            let k = choose|k: int|
                0 <= k < heap0.len() && (#[trigger] heap0[k]).0 <= walk_cost(from, q) + octile(
                    to,
                    to,
                );
            if k < last {
                assert(!entry_lt(heap0[k], heap0[last]));
            }
        }
    }
}

/// Follows parent links back from the target and returns the walk from
/// `from` to `to` that they spell out.
fn reconstruct_path(
    grid: &Grid,
    Ghost(mask): Ghost<Seq<bool>>,
    from: Tile,
    to: Tile,
    g: &Vec<i64>,
    came: &Vec<i32>,
) -> (out: Vec<Tile>)
    requires
        search_frame(*grid, mask, from, to),
        g@.len() == grid.cell_count(),
        came@.len() == grid.cell_count(),
        g@[tile_index(from, grid.width())] == 0,
        parents_ok(*grid, mask, tile_index(from, grid.width()), g@, came@),
        costs_bounded(g@),
        g@[tile_index(to, grid.width())] != UNREACHED,
    ensures
        is_walk(*grid, mask, from, out@),
        out@.len() > 0,
        out@.last() == to,
        walk_cost(from, out@) <= g@[tile_index(to, grid.width())],
        out@ == trace(
            came@,
            grid.width(),
            tile_index(from, grid.width()),
            tile_index(to, grid.width()),
            (g@[tile_index(to, grid.width())] + 1) as nat,
        ),
{
    let ghost wi = grid.width();
    let ghost hi = grid.height();
    proof {
        grid.lemma_wf_dims();
        lemma_tile_index_bounds(from, wi, hi);
        lemma_tile_index_bounds(to, wi, hi);
    }
    let w = grid.w;
    let from_i = grid.idx(from);
    let to_i = grid.idx(to);
    let mut rev: Vec<Tile> = Vec::new();
    let mut c: Tile = to;
    let mut c_i: usize = to_i;
    let ghost mut suffix: Seq<Tile> = Seq::empty();
    let ghost full: nat = (g@[to_i as int] + 1) as nat;
    let ghost mut fuel: nat = full;
    proof {
        lemma_cost_cap(g@, to_i as int);
    }
    while c_i != from_i
        invariant
            trace(came@, wi, from_i as int, to_i as int, full) == trace(
                came@,
                wi,
                from_i as int,
                c_i as int,
                fuel,
            ) + suffix,
            fuel >= g@[c_i as int] + 1,
            search_frame(*grid, mask, from, to),
            g@.len() == grid.cell_count(),
            came@.len() == grid.cell_count(),
            parents_ok(*grid, mask, from_i as int, g@, came@),
            costs_bounded(g@),
            grid.cell_count() == wi * hi,
            wi == w,
            wi == grid.width(),
            hi == grid.height(),
            wi > 0,
            hi > 0,
            grid.cell_count() <= i32::MAX,
            from_i == tile_index(from, wi),
            to_i == tile_index(to, wi),
            0 <= c_i < g@.len(),
            grid.spec_in_bounds(c),
            c_i == tile_index(c, wi),
            g@[c_i as int] != UNREACHED,
            is_walk(*grid, mask, c, suffix),
            walk_end(c, suffix) == to,
            g@[c_i as int] + walk_cost(c, suffix) <= g@[to_i as int],
            rev@.len() == suffix.len(),
            forall|j: int| 0 <= j < suffix.len() ==> #[trigger] suffix[j] == rev@[rev@.len() - 1 - j],
        decreases g@[c_i as int],
    {
        rev.push(c);
        proof {
            reveal(parents_ok);
            assert(parent_ok(*grid, mask, g@, came@, c_i as int));
            lemma_cost_cap(g@, c_i as int);
        }
        let p = came[c_i];
        proof {
            lemma_index_tile_bounds(p as int, wi, hi);
            lemma_tile_index_bounds(c, wi, hi);
            lemma_cost_cap(g@, p as int);
        }
        let np: Tile = (p % w, p / w);
        proof {
            lemma_walk_prepend(*grid, mask, np, c, suffix);
            lemma_tile_index_bounds(c, wi, hi);
            assert(trace(came@, wi, from_i as int, c_i as int, fuel) == trace(
                came@,
                wi,
                from_i as int,
                p as int,
                (fuel - 1) as nat,
            ).push(c));
            assert(trace(came@, wi, from_i as int, p as int, (fuel - 1) as nat).push(c) + suffix
                =~= trace(came@, wi, from_i as int, p as int, (fuel - 1) as nat) + (seq![c]
                + suffix));
            fuel = (fuel - 1) as nat;
            let old_suffix = suffix;
            suffix = seq![c] + suffix;
            assert forall|j: int| 0 <= j < suffix.len() implies #[trigger] suffix[j] == rev@[rev@.len()
                - 1 - j] by {
                if j > 0 {
                    assert(suffix[j] == old_suffix[j - 1]);
                }
            }
        }
        c = np;
        c_i = p as usize;
    }
    proof {
        lemma_tile_index_bounds(c, wi, hi);
        lemma_index_tile_bounds(c_i as int, wi, hi);
        assert(c == from);
        assert(trace(came@, wi, from_i as int, c_i as int, fuel) + suffix =~= suffix);
    }
    let mut out: Vec<Tile> = Vec::new();
    let mut j: usize = rev.len();
    while j > 0
        invariant
            j <= rev@.len(),
            out@.len() == rev@.len() - j,
            forall|m: int| 0 <= m < out@.len() ==> #[trigger] out@[m] == rev@[rev@.len() - 1 - m],
        decreases j,
    {
        j = j - 1;
        out.push(rev[j]);
    }
    assert(out@ =~= suffix);
    out
}

/// Asks `extra_blocked` about every in-bounds tile the grid leaves open, in
/// row-major order, except the target, whose answer `to_blocked` is known.
fn collect_extra_blocked<F: Fn(Tile) -> bool>(
    grid: &Grid,
    extra_blocked: &F,
    to_i: usize,
    to_blocked: bool,
) -> (mask: Vec<bool>)
    requires
        grid.wf(),
        grid.width() > 0,
        grid.height() > 0,
        forall|t: Tile| !grid.spec_is_blocked(t) ==> call_requires(*extra_blocked, (t,)),
        0 <= to_i < grid.cell_count(),
        !grid.spec_is_blocked(index_tile(to_i as int, grid.width())) ==> call_ensures(
            *extra_blocked,
            (index_tile(to_i as int, grid.width()),),
            to_blocked,
        ),
    ensures
        mask_matches(*grid, *extra_blocked, mask@),
        mask@[to_i as int] == to_blocked,
        forall|i: int|
            0 <= i < mask@.len() && grid.spec_is_blocked(index_tile(i, grid.width())) && i != to_i
                ==> !#[trigger] mask@[i],
{
    proof {
        grid.lemma_wf_dims();
    }
    let w = grid.w;
    let n: usize = (grid.w * grid.h) as usize;
    let mut mask: Vec<bool> = Vec::new();
    let mut i: usize = 0;
    while i < n
        invariant
            0 <= i <= n,
            n == grid.cell_count(),
            n == grid.width() * grid.height(),
            grid.wf(),
            grid.width() > 0,
            grid.height() > 0,
            n <= i32::MAX,
            w == grid.width(),
            w > 0,
            mask@.len() == i,
            0 <= to_i < n,
            forall|t: Tile| !grid.spec_is_blocked(t) ==> call_requires(*extra_blocked, (t,)),
            !grid.spec_is_blocked(index_tile(to_i as int, w as int)) ==> call_ensures(
                *extra_blocked,
                (index_tile(to_i as int, w as int),),
                to_blocked,
            ),
            to_i < i ==> mask@[to_i as int] == to_blocked,
            forall|k: int|
                0 <= k < i && grid.spec_is_blocked(index_tile(k, w as int)) && k != to_i
                    ==> !#[trigger] mask@[k],
            forall|k: int|
                0 <= k < i && !grid.spec_is_blocked(index_tile(k, w as int)) ==> call_ensures(
                    *extra_blocked,
                    (index_tile(k, w as int),),
                    #[trigger] mask@[k],
                ),
        decreases n - i,
    {
        let ii = i as i32;
        let t: Tile = (ii % w, ii / w);
        assert(t == index_tile(i as int, w as int));
        proof {
            lemma_index_tile_bounds(i as int, w as int, grid.height());
        }
        let b = if i == to_i {
            to_blocked
        } else if grid.is_blocked(t) {
            false
        } else {
            extra_blocked(t)
        };
        mask.push(b);
        i = i + 1;
    }
    mask
}

/// 8-directional A*. Costs: 10 straight, 14 diagonal. No corner cutting.
/// The path excludes `from` and includes `to`; `None` if `from` is out of
/// bounds, `to` is blocked, or `to` is unreachable. `extra_blocked` marks
/// further tiles as blocked; when `from` is in bounds and `to` open in the
/// grid, it is asked about `to` first, and, unless that blocks `to` or the
/// search starts on `to`, then once about every other tile the grid leaves
/// open. Deterministic: frontier ties break on (f, then h,
/// then row-major index), neighbors are scanned in row-major order, and a
/// cost is updated only on a strict improvement, so equal-cost routes
/// resolve identically every run; the answer is [`search_answer`] of the
/// grid and the predicate's answers.
pub fn astar<F: Fn(Tile) -> bool>(grid: &Grid, from: Tile, to: Tile, extra_blocked: &F) -> (r:
    Option<Vec<Tile>>)
    requires
        grid.wf(),
        forall|t: Tile| !grid.spec_is_blocked(t) ==> call_requires(*extra_blocked, (t,)),
    ensures
        !grid.spec_in_bounds(from) || grid.spec_is_blocked(to) ==> r is None,
        grid.spec_in_bounds(from) && !grid.spec_is_blocked(to) ==> exists|mask: Seq<bool>|
            answers_fit(*grid, *extra_blocked, from, to, mask) && search_outcome(
                *grid,
                mask,
                from,
                to,
                opt_seq(r),
            ) && opt_seq(r) == search_answer(*grid, mask, from, to),
{
    if !grid.in_bounds(from) {
        return None;
    }
    if grid.is_blocked(to) {
        return None;
    }
    let ghost wi = grid.width();
    let ghost hi = grid.height();
    proof {
        grid.lemma_wf_dims();
        lemma_tile_index_bounds(from, wi, hi);
        lemma_tile_index_bounds(to, wi, hi);
    }
    let to_i = grid.idx(to);
    // The target is asked first; only a search that must look further asks
    // about the other open tiles, once each.
    let to_blocked = extra_blocked(to);
    let ghost only_to = Seq::new(
        grid.cell_count() as nat,
        |i: int|
            if i == to_i as int {
                to_blocked
            } else {
                false
            },
    );
    if to_blocked {
        assert(answers_fit(*grid, *extra_blocked, from, to, only_to));
        assert(search_outcome(*grid, only_to, from, to, opt_seq(None)));
        assert(opt_seq(None) == search_answer(*grid, only_to, from, to));
        return None;
    }
    if from.0 == to.0 && from.1 == to.1 {
        let r: Vec<Tile> = Vec::new();
        assert(answers_fit(*grid, *extra_blocked, from, to, only_to));
        assert(search_outcome(*grid, only_to, from, to, opt_seq(Some(r))));
        assert(opt_seq(Some(r)) == search_answer(*grid, only_to, from, to));
        return Some(r);
    }
    let mask = collect_extra_blocked(grid, extra_blocked, to_i, to_blocked);
    assert(answers_fit(*grid, *extra_blocked, from, to, mask@));
    let from_i = grid.idx(from);
    let n: usize = (grid.w * grid.h) as usize;

    let mut g: Vec<i64> = vec![UNREACHED; n];
    let mut came: Vec<i32> = vec![-1i32; n];
    let mut heap: Vec<Entry> = Vec::new();
    g.set(from_i, 0);
    let h0 = heuristic(from, to);
    heap.push((h0, h0, from_i as i32, from));
    let ghost cap: int = 14 * n;
    proof {
        lemma_search_start(*grid, mask@, from, to, g@, came@, heap@);
        let st = search_start(*grid, from, to);
        assert(g@ =~= st.0);
        assert(came@ =~= st.1);
        assert(heap@ =~= st.2);
    }
    let ghost mut fuel: nat = search_fuel(*grid, from, to);

    loop
        invariant
            search_inv(*grid, mask@, from, to, g@, came@, heap@),
            frontier_ok(*grid, mask@, to, g@, heap@, -1),
            mask_matches(*grid, *extra_blocked, mask@),
            answers_fit(*grid, *extra_blocked, from, to, mask@),
            n == grid.cell_count(),
            n == wi * hi,
            wi == grid.width(),
            hi == grid.height(),
            wi > 0,
            hi > 0,
            n <= i32::MAX,
            from_i == tile_index(from, wi),
            to_i == tile_index(to, wi),
            cap == 14 * n,
            search_run(*grid, mask@, to, search_start(*grid, from, to), search_fuel(*grid, from, to))
                == search_run(*grid, mask@, to, (g@, came@, heap@), fuel),
            fuel >= 9 * pot_sum(g@, cap) + heap@.len() + 1,
        decreases 9 * pot_sum(g@, cap) + heap@.len(),
    {
        proof {
            reveal(costs_bounded);
            lemma_pot_nonneg(g@, cap);
        }
        if heap.len() == 0 {
            proof {
                lemma_exhausted(*grid, mask@, from, to, g@, came@, heap@);
            }
            return None;
        }
        let ghost heap0 = heap@;
        let ghost m0 = 9 * pot_sum(g@, cap) + heap@.len();
        let e = heap.pop().unwrap();
        assert(e == heap0.last());
        proof {
            lemma_last_entry_ok(*grid, mask@, from, to, g@, came@, heap0);
        }
        let ci: usize = e.2 as usize;
        let cur: Tile = e.3;
        if ci == to_i {
            proof {
                lemma_target_popped(*grid, mask@, from, to, g@, came@, heap0);
            }
            let out = reconstruct_path(grid, Ghost(mask@), from, to, &g, &came);
            assert(search_outcome(*grid, mask@, from, to, opt_seq(Some(out))));
            assert(opt_seq(Some(out)) == search_answer(*grid, mask@, from, to));
            return Some(out);
        }
        proof {
            lemma_after_pop(*grid, mask@, from, to, g@, came@, heap0);
            lemma_index_tile_bounds(ci as int, wi, hi);
            lemma_cost_cap(g@, ci as int);
        }
        // Expand `cur`: relax every legal step out of it.
        let cg = g[ci];
        let ghost popped: SearchState = (g@, came@, heap@);
        assert(search_run(*grid, mask@, to, (g@, came@, heap0), fuel) == search_run(
            *grid,
            mask@,
            to,
            expand_from(*grid, mask@, to, popped, ci as int, cur, cg as int, 0),
            (fuel - 1) as nat,
        ));
        let mut k: usize = 0;
        while k < 8
            invariant
                search_inv(*grid, mask@, from, to, g@, came@, heap@),
                frontier_ok(*grid, mask@, to, g@, heap@, ci as int),
                partial_relaxed(*grid, mask@, g@, cur, cg as int, k as int),
                mask_matches(*grid, *extra_blocked, mask@),
                n == grid.cell_count(),
                n == wi * hi,
                wi == grid.width(),
                hi == grid.height(),
                wi > 0,
                hi > 0,
                n <= i32::MAX,
                from_i == tile_index(from, wi),
                to_i == tile_index(to, wi),
                cap == 14 * n,
                0 <= ci < n,
                cur == index_tile(ci as int, wi),
                ci == tile_index(cur, wi),
                grid.spec_in_bounds(cur),
                g@[ci as int] == cg,
                0 <= cg <= 14 * (n - 1),
                k <= 8,
                9 * pot_sum(g@, cap) + heap@.len() < m0,
                expand_from(*grid, mask@, to, popped, ci as int, cur, cg as int, 0) == expand_from(
                    *grid,
                    mask@,
                    to,
                    (g@, came@, heap@),
                    ci as int,
                    cur,
                    cg as int,
                    k as int,
                ),
            decreases 8 - k,
        {
            let ghost st: SearchState = (g@, came@, heap@);
            assert(expand_from(*grid, mask@, to, st, ci as int, cur, cg as int, k as int)
                == expand_from(
                *grid,
                mask@,
                to,
                relax_step(*grid, mask@, to, st, ci as int, cur, cg as int, k as int),
                ci as int,
                cur,
                cg as int,
                k + 1,
            ));
            let off = neighbor_offset(k);
            let kk = k;
            k = k + 1;
            let nb: Tile = (cur.0 + off.0, cur.1 + off.1);
            assert(nb == offset_tile(cur, kk as int));
            if blocked_at(grid, &mask, nb) {
                continue;
            }
            let diag = off.0 != 0 && off.1 != 0;
            if diag && (blocked_at(grid, &mask, (cur.0 + off.0, cur.1)) || blocked_at(
                grid,
                &mask,
                (cur.0, cur.1 + off.1),
            )) {
                continue;
            }
            assert(legal_step(*grid, mask@, cur, nb));
            let step: i64 = if diag {
                14
            } else {
                10
            };
            let ng = cg + step;
            let ni = grid.idx(nb);
            if ng < g[ni] {
                let ghost g_before = g@;
                let ghost came_before = came@;
                let ghost heap_before = heap@;
                proof {
                    lemma_pot_update(g@, cap, ni as int, ng);
                }
                let hh = heuristic(nb, to);
                let ne: Entry = (ng + hh, hh, ni as i32, nb);
                g.set(ni, ng);
                came.set(ni, ci as i32);
                push_sorted(&mut heap, ne);
                proof {
                    let pos = insert_pos(heap_before, ne);
                    lemma_relax_update(
                        *grid,
                        mask@,
                        from,
                        to,
                        g_before,
                        came_before,
                        heap_before,
                        ci as int,
                        cur,
                        cg as int,
                        kk as int,
                        nb,
                        ng,
                        pos,
                        heap@,
                    );
                }
            }
        }
        proof {
            lemma_finish_expand(*grid, mask@, to, g@, heap@, ci as int, cur);
            reveal(costs_bounded);
            lemma_pot_nonneg(g@, cap);
            assert(expand_from(*grid, mask@, to, (g@, came@, heap@), ci as int, cur, cg as int, 8)
                == (g@, came@, heap@));
            fuel = (fuel - 1) as nat;
        }
    }
}

/// Tile-ownership map, kept in a `BTreeMap` so any iteration is
/// deterministic. One tile is held by at most one id.
pub struct Occupancy {
    map: BTreeMap<Tile, u32>,
}

impl View for Occupancy {
    type V = Map<Tile, u32>;

    closed spec fn view(&self) -> Map<Tile, u32> {
        self.map@
    }
}

/// Whether a claim of `t` by `id` succeeds: `t` is free or already `id`'s.
pub open spec fn claim_succeeds(m: Map<Tile, u32>, t: Tile, id: u32) -> bool {
    !m.contains_key(t) || m[t] == id
}

/// The ownership map after `id` claims `t`.
pub open spec fn after_claim(m: Map<Tile, u32>, t: Tile, id: u32) -> Map<Tile, u32> {
    if claim_succeeds(m, t, id) {
        m.insert(t, id)
    } else {
        m
    }
}

/// The ownership map after `id` releases `t`.
pub open spec fn after_release(m: Map<Tile, u32>, t: Tile, id: u32) -> Map<Tile, u32> {
    if m.contains_key(t) && m[t] == id {
        m.remove(t)
    } else {
        m
    }
}

/// The holder of `t`, if any.
pub open spec fn holder_of(m: Map<Tile, u32>, t: Tile) -> Option<u32> {
    if m.contains_key(t) {
        Some(m[t])
    } else {
        None
    }
}

/// A successful claim makes `id` the holder.
pub proof fn lemma_claim_then_holder(m: Map<Tile, u32>, t: Tile, id: u32)
    requires
        claim_succeeds(m, t, id),
    ensures
        holder_of(after_claim(m, t, id), t) == Some(id),
{
}

/// Claiming twice is claiming once.
pub proof fn lemma_claim_idempotent(m: Map<Tile, u32>, t: Tile, id: u32)
    ensures
        after_claim(after_claim(m, t, id), t, id) == after_claim(m, t, id),
{
    assert(after_claim(after_claim(m, t, id), t, id) =~= after_claim(m, t, id));
}

/// Releasing a tile just claimed while free makes it free again.
pub proof fn lemma_claim_release_round_trip(m: Map<Tile, u32>, t: Tile, id: u32)
    requires
        !m.contains_key(t),
    ensures
        after_release(after_claim(m, t, id), t, id) == m,
{
    assert(after_release(after_claim(m, t, id), t, id) =~= m);
}

/// Neither a claim nor a release by `id` disturbs a tile held by another id.
pub proof fn lemma_other_holders_kept(m: Map<Tile, u32>, t: Tile, id: u32, u: Tile, other: u32)
    requires
        holder_of(m, u) == Some(other),
        other != id,
    ensures
        holder_of(after_claim(m, t, id), u) == Some(other),
        holder_of(after_release(m, t, id), u) == Some(other),
{
}

impl Clone for Occupancy {
    fn clone(&self) -> (r: Occupancy)
        ensures
            r@ == self@,
    {
        Occupancy { map: self.map.clone() }
    }
}

impl Occupancy {
    pub fn new() -> (r: Occupancy)
        ensures
            r@ == Map::<Tile, u32>::empty(),
    {
        Occupancy { map: BTreeMap::new() }
    }

    /// Claim `t` for `id`. False if another id holds it; re-claiming one's
    /// own tile succeeds.
    pub fn claim(&mut self, t: Tile, id: u32) -> (r: bool)
        ensures
            r == claim_succeeds(old(self)@, t, id),
            final(self)@ == after_claim(old(self)@, t, id),
    {
        match self.map.get(&t) {
            Some(h) => {
                if *h != id {
                    return false;
                }
            },
            None => {},
        }
        self.map.insert(t, id);
        true
    }

    /// Release `t`: a no-op unless `id` currently holds it.
    pub fn release(&mut self, t: Tile, id: u32)
        ensures
            final(self)@ == after_release(old(self)@, t, id),
    {
        let held_by_id = match self.map.get(&t) {
            Some(h) => *h == id,
            None => false,
        };
        if held_by_id {
            self.map.remove(&t);
        }
    }

    pub fn holder(&self, t: Tile) -> (r: Option<u32>)
        ensures
            r == holder_of(self@, t),
    {
        match self.map.get(&t) {
            Some(h) => Some(*h),
            None => None,
        }
    }
}

impl Default for Occupancy {
    fn default() -> (r: Occupancy)
        ensures
            r@ == Map::<Tile, u32>::empty(),
    {
        Occupancy::new()
    }
}

} // verus!

verus! {

/// Outcome of one [`Mover::step`].
#[derive(Clone, Copy, PartialEq, Eq, Structural, Debug)]
pub enum MoveResult {
    Moving,
    Blocked,
    Arrived,
}

/// The tile containing a position: the floor of each coordinate.
pub open spec fn tile_of_pos(p: FixedVec2) -> Tile {
    ((p.x.0 / 256) as i32, (p.y.0 / 256) as i32)
}

/// Raw coordinate of the center of tile row/column `c`.
pub open spec fn center_raw(c: i32) -> int {
    c * 256 + 128
}

/// Per-axis speed for a step: diagonal moves are scaled by ~1/sqrt(2) so
/// they are no faster than straight ones.
pub open spec fn step_speed(speed: Fixed, diag: bool) -> int {
    if diag {
        speed.spec_mul(Fixed(181)).0 as int
    } else {
        speed.0 as int
    }
}

/// One axis of a step toward `c` from `p` at speed `s`: snap to `c` when
/// within reach, otherwise advance by `s` toward it.
pub open spec fn approach(p: int, c: int, s: int) -> int {
    if crate::fixed::abs_int(c - p) <= s {
        c
    } else if c - p > 0 {
        p + s
    } else {
        p - s
    }
}

/// The center of a tile, in fixed-point tile units.
pub fn center(t: Tile) -> (r: FixedVec2)
    requires
        int_fits_fixed(t.0 as int),
        int_fits_fixed(t.1 as int),
    ensures
        r.x.0 == center_raw(t.0),
        r.y.0 == center_raw(t.1),
{
    FixedVec2::new(Fixed::from_int(t.0) + Fixed(128), Fixed::from_int(t.1) + Fixed(128))
}

fn floor_tile(v: i32) -> (r: i32)
    ensures
        r == v as int / 256,
{
    let q: i32 = v >> 8u32;
    assert(q == v / 256) by (bit_vector)
        requires
            q == v >> 8u32,
    ;
    q
}

/// A unit following a path of tiles, reserving each next tile before
/// entering it.
pub struct Mover {
    pub pos: FixedVec2,
    pub speed: Fixed,
    path: Vec<Tile>,
    /// Index of the next waypoint in `path`.
    idx: usize,
    /// The tile this mover occupies and owns right now.
    held: Tile,
    blocked_ticks: u32,
}

/// The abstract state of a [`Mover`].
pub struct MoverView {
    pub pos: FixedVec2,
    pub speed: Fixed,
    pub path: Seq<Tile>,
    pub idx: int,
    pub held: Tile,
    pub blocked_ticks: int,
}

impl View for Mover {
    type V = MoverView;

    closed spec fn view(&self) -> MoverView {
        MoverView {
            pos: self.pos,
            speed: self.speed,
            path: self.path@,
            idx: self.idx as int,
            held: self.held,
            blocked_ticks: self.blocked_ticks as int,
        }
    }
}

/// One tick of a mover with id `id` against the ownership map `occ`:
/// the mover's next state, the next ownership map, and the result.
///
/// With no waypoint left it has arrived and nothing changes. Otherwise it
/// claims the tile it stands on; a waypoint it already stands on is passed.
/// If another id holds the waypoint it waits (Blocked). Otherwise it claims
/// the waypoint and moves toward its center; when that carries it into a new
/// tile it claims that tile and releases the one it held before, unless
/// another id holds the new tile, in which case it waits where it is
/// (Blocked), keeping the waypoint reserved. Reaching the center moves on to
/// the next waypoint.
pub open spec fn stepped(m: MoverView, id: u32, occ: Map<Tile, u32>) -> (
    MoverView,
    Map<Tile, u32>,
    MoveResult,
) {
    if m.idx >= m.path.len() {
        (m, occ, MoveResult::Arrived)
    } else {
        let cur = tile_of_pos(m.pos);
        let occ1 = after_claim(occ, cur, id);
        let target = m.path[m.idx];
        if target == cur {
            let m2 = MoverView {
                pos: m.pos,
                speed: m.speed,
                path: m.path,
                idx: m.idx + 1,
                held: m.held,
                blocked_ticks: m.blocked_ticks,
            };
            (
                m2,
                occ1,
                if m.idx + 1 >= m.path.len() {
                    MoveResult::Arrived
                } else {
                    MoveResult::Moving
                },
            )
        } else if !claim_succeeds(occ1, target, id) {
            let m2 = MoverView {
                pos: m.pos,
                speed: m.speed,
                path: m.path,
                idx: m.idx,
                held: m.held,
                blocked_ticks: m.blocked_ticks + 1,
            };
            (m2, occ1, MoveResult::Blocked)
        } else {
            let occ2 = occ1.insert(target, id);
            let pos2 = moved_pos(m);
            let now = tile_of_pos(pos2);
            if now != m.held && !claim_succeeds(occ2, now, id) {
                // The move would carry it into a tile another id holds: it
                // keeps its reservation of the waypoint and waits where it is.
                let m2 = MoverView {
                    pos: m.pos,
                    speed: m.speed,
                    path: m.path,
                    idx: m.idx,
                    held: m.held,
                    blocked_ticks: m.blocked_ticks + 1,
                };
                (m2, occ2, MoveResult::Blocked)
            } else {
                let occ3 = if now != m.held {
                    after_release(occ2.insert(now, id), m.held, id)
                } else {
                    occ2
                };
                let idx2 = if moved_reaches(m) {
                    m.idx + 1
                } else {
                    m.idx
                };
                let m2 = MoverView {
                    pos: pos2,
                    speed: m.speed,
                    path: m.path,
                    idx: idx2,
                    held: now,
                    blocked_ticks: 0,
                };
                (
                    m2,
                    occ3,
                    if moved_reaches(m) && idx2 >= m.path.len() {
                        MoveResult::Arrived
                    } else {
                        MoveResult::Moving
                    },
                )
            }
        }
    }
}

/// The per-axis speed of a move toward the center of the next waypoint.
pub open spec fn move_speed(m: MoverView) -> int {
    let target = m.path[m.idx];
    let dx = center_raw(target.0) - m.pos.x.0;
    let dy = center_raw(target.1) - m.pos.y.0;
    step_speed(m.speed, dx != 0 && dy != 0)
}

/// Where a move toward the center of the next waypoint takes the mover.
pub open spec fn moved_pos(m: MoverView) -> FixedVec2 {
    let target = m.path[m.idx];
    let s = move_speed(m);
    FixedVec2 {
        x: Fixed(approach(m.pos.x.0 as int, center_raw(target.0), s) as i32),
        y: Fixed(approach(m.pos.y.0 as int, center_raw(target.1), s) as i32),
    }
}

/// Whether that move reaches the waypoint's center on both axes.
pub open spec fn moved_reaches(m: MoverView) -> bool {
    let target = m.path[m.idx];
    let s = move_speed(m);
    &&& crate::fixed::abs_int(center_raw(target.0) - m.pos.x.0) <= s
    &&& crate::fixed::abs_int(center_raw(target.1) - m.pos.y.0) <= s
}

/// The arithmetic of a step stays within `i32` (and the wait counter within
/// `u32`): the waypoint's center is representable, the offsets to it have an
/// absolute value, and the moved position is representable.
pub open spec fn step_in_range(m: MoverView, id: u32, occ: Map<Tile, u32>) -> bool {
    m.idx < m.path.len() && m.path[m.idx] != tile_of_pos(m.pos) ==> {
        let target = m.path[m.idx];
        let occ1 = after_claim(occ, tile_of_pos(m.pos), id);
        if !claim_succeeds(occ1, target, id) {
            m.blocked_ticks < u32::MAX
        } else {
            let cx = center_raw(target.0);
            let cy = center_raw(target.1);
            let dx = cx - m.pos.x.0;
            let dy = cy - m.pos.y.0;
            let s = step_speed(m.speed, dx != 0 && dy != 0);
            &&& int_fits_fixed(target.0 as int)
            &&& int_fits_fixed(target.1 as int)
            &&& i32::MIN < dx <= i32::MAX
            &&& i32::MIN < dy <= i32::MAX
            &&& i32::MIN <= approach(m.pos.x.0 as int, cx, s) <= i32::MAX
            &&& i32::MIN <= approach(m.pos.y.0 as int, cy, s) <= i32::MAX
            &&& ({
                let now = tile_of_pos(moved_pos(m));
                now != m.held && !claim_succeeds(occ1.insert(target, id), now, id) ==> m.blocked_ticks
                    < u32::MAX
            })
        }
    }
}

/// `held` always names the tile containing the mover: a step keeps that so.
pub proof fn lemma_step_tracks_held(m: MoverView, id: u32, occ: Map<Tile, u32>)
    requires
        m.held == tile_of_pos(m.pos),
    ensures
        stepped(m, id, occ).0.held == tile_of_pos(stepped(m, id, occ).0.pos),
{
}

/// A step never takes, frees or hands over a tile of another id: for every
/// other id, the tiles it holds are the same before and after.
pub proof fn lemma_step_respects_others(
    m: MoverView,
    id: u32,
    occ: Map<Tile, u32>,
    u: Tile,
    other: u32,
)
    requires
        other != id,
    ensures
        holder_of(stepped(m, id, occ).1, u) == Some(other) <==> holder_of(occ, u) == Some(other),
{
}

/// The tiles `id` holds are the one the mover stands on (`held`, which is
/// the tile containing it) and at most the waypoint it is heading for.
pub open spec fn claims_within(m: MoverView, id: u32, occ: Map<Tile, u32>) -> bool {
    &&& m.held == tile_of_pos(m.pos)
    &&& forall|t: Tile|
        #[trigger] holder_of(occ, t) == Some(id) ==> t == m.held || (0 <= m.idx < m.path.len()
            && t == m.path[m.idx])
}

/// The center of a representable tile lies in that tile.
pub proof fn lemma_center_in_tile(t: Tile)
    requires
        int_fits_fixed(t.0 as int),
        int_fits_fixed(t.1 as int),
    ensures
        tile_of_pos(
            FixedVec2 { x: Fixed(center_raw(t.0) as i32), y: Fixed(center_raw(t.1) as i32) },
        ) == t,
{
    assert((t.0 * 256 + 128) / 256 == t.0) by (nonlinear_arith)
        requires
            int_fits_fixed(t.0 as int),
    ;
    assert((t.1 * 256 + 128) / 256 == t.1) by (nonlinear_arith)
        requires
            int_fits_fixed(t.1 as int),
    ;
}

/// A step keeps a mover's claims to its own tile and its next waypoint:
/// nothing it has passed through stays claimed.
pub proof fn lemma_step_keeps_claims_within(m: MoverView, id: u32, occ: Map<Tile, u32>)
    requires
        m.idx >= 0,
        claims_within(m, id, occ),
        step_in_range(m, id, occ),
    ensures
        claims_within(stepped(m, id, occ).0, id, stepped(m, id, occ).1),
{
    if m.idx < m.path.len() && m.path[m.idx] != tile_of_pos(m.pos) && moved_reaches(m) {
        let target = m.path[m.idx];
        let occ1 = after_claim(occ, tile_of_pos(m.pos), id);
        if claim_succeeds(occ1, target, id) {
            lemma_center_in_tile(target);
            assert(moved_pos(m) == FixedVec2 {
                x: Fixed(center_raw(target.0) as i32),
                y: Fixed(center_raw(target.1) as i32),
            });
        }
    }
    let n = stepped(m, id, occ);
    assert forall|t: Tile| #[trigger] holder_of(n.1, t) == Some(id) implies t == n.0.held || (0
        <= n.0.idx < n.0.path.len() && t == n.0.path[n.0.idx]) by {
        if m.idx < m.path.len() {
            let cur = tile_of_pos(m.pos);
            let occ1 = after_claim(occ, cur, id);
            let target = m.path[m.idx];
            assert(holder_of(occ1, t) == Some(id) ==> holder_of(occ, t) == Some(id) || t == cur);
            if target != cur && claim_succeeds(occ1, target, id) {
                let occ2 = occ1.insert(target, id);
                assert(holder_of(occ2, t) == Some(id) ==> holder_of(occ1, t) == Some(id) || t
                    == target);
                let now = tile_of_pos(moved_pos(m));
                if now != m.held && claim_succeeds(occ2, now, id) {
                    let occ3 = occ2.insert(now, id);
                    assert(holder_of(occ3, t) == Some(id) ==> holder_of(occ2, t) == Some(id) || t
                        == now);
                    assert(holder_of(after_release(occ3, m.held, id), t) == Some(id) ==> holder_of(
                        occ3,
                        t,
                    ) == Some(id) && t != m.held);
                }
            }
        }
    }
}

/// A mover whose own tile is free, or already its own, holds the tile it
/// stands on after any step that has a waypoint to work on; one that already
/// holds it keeps holding it. So a mover only ever stands on a tile it holds.
pub proof fn lemma_step_holds_own_tile(m: MoverView, id: u32, occ: Map<Tile, u32>)
    requires
        m.held == tile_of_pos(m.pos),
        claim_succeeds(occ, m.held, id),
        m.idx < m.path.len() || holder_of(occ, m.held) == Some(id),
    ensures
        stepped(m, id, occ).0.held == tile_of_pos(stepped(m, id, occ).0.pos),
        holder_of(stepped(m, id, occ).1, tile_of_pos(stepped(m, id, occ).0.pos)) == Some(id),
{
}

/// Two movers that each hold the tile they stand on, under different ids,
/// never stand on the same tile.
pub proof fn lemma_movers_never_share(
    m1: MoverView,
    id1: u32,
    m2: MoverView,
    id2: u32,
    occ: Map<Tile, u32>,
)
    requires
        id1 != id2,
        holder_of(occ, tile_of_pos(m1.pos)) == Some(id1),
        holder_of(occ, tile_of_pos(m2.pos)) == Some(id2),
    ensures
        tile_of_pos(m1.pos) != tile_of_pos(m2.pos),
{
}

/// A step that arrives with a waypoint left to work on ends on the path's
/// last tile.
pub proof fn lemma_arrival_ends_on_goal(m: MoverView, id: u32, occ: Map<Tile, u32>)
    requires
        0 <= m.idx < m.path.len(),
        step_in_range(m, id, occ),
        stepped(m, id, occ).2 == MoveResult::Arrived,
    ensures
        tile_of_pos(stepped(m, id, occ).0.pos) == m.path.last(),
{
    let target = m.path[m.idx];
    if target != tile_of_pos(m.pos) {
        lemma_center_in_tile(target);
        assert(moved_pos(m) == FixedVec2 {
            x: Fixed(center_raw(target.0) as i32),
            y: Fixed(center_raw(target.1) as i32),
        });
    }
}

/// A blocked mover waits: it stays put, counts the wait, and another id
/// holds either the waypoint it wanted or the tile its move would enter.
pub proof fn lemma_blocked_step_waits(m: MoverView, id: u32, occ: Map<Tile, u32>)
    requires
        m.idx >= 0,
        stepped(m, id, occ).2 == MoveResult::Blocked,
    ensures
        stepped(m, id, occ).0.pos == m.pos,
        stepped(m, id, occ).0.idx == m.idx,
        stepped(m, id, occ).0.held == m.held,
        stepped(m, id, occ).0.blocked_ticks == m.blocked_ticks + 1,
        0 <= m.idx < m.path.len(),
        ({
            let occ2 = stepped(m, id, occ).1;
            let w = holder_of(occ2, m.path[m.idx]);
            let now = tile_of_pos(moved_pos(m));
            let h = holder_of(occ2, now);
            ||| w is Some && w != Some(id)
            ||| now != m.held && h is Some && h != Some(id)
        }),
{
}

/// Crossing into a new tile takes it and gives up the tile behind.
pub proof fn lemma_crossing_releases_behind(m: MoverView, id: u32, occ: Map<Tile, u32>)
    requires
        stepped(m, id, occ).0.held != m.held,
    ensures
        holder_of(stepped(m, id, occ).1, m.held) != Some(id),
        holder_of(stepped(m, id, occ).1, stepped(m, id, occ).0.held) == Some(id),
{
}

/// One axis of a move from `old` toward `c` at speed `s`: the distance to
/// `c` drops by `s`, or to zero when `s` covers it, and the new coordinate
/// lies between the old one and `c`.
pub open spec fn moves_toward(old: int, new: int, c: int, s: int) -> bool {
    let before = crate::fixed::abs_int(c - old);
    &&& crate::fixed::abs_int(c - new) == if before > s {
        before - s
    } else {
        0
    }
    &&& (old <= new <= c || c <= new <= old)
}

/// A step that is not blocked never moves a mover away from its waypoint:
/// on each axis it closes in on the waypoint's center by its speed (scaled
/// by ~1/sqrt(2) when moving on both axes), stopping at the center, and a
/// mover already in the waypoint's tile does not move at all.
pub proof fn lemma_step_approaches_waypoint(m: MoverView, id: u32, occ: Map<Tile, u32>)
    requires
        0 <= m.idx < m.path.len(),
        m.speed.0 >= 0,
        step_in_range(m, id, occ),
        stepped(m, id, occ).2 != MoveResult::Blocked,
    ensures
        ({
            let target = m.path[m.idx];
            let n = stepped(m, id, occ).0;
            let cx = center_raw(target.0);
            let cy = center_raw(target.1);
            let s = step_speed(m.speed, cx != m.pos.x.0 && cy != m.pos.y.0);
            &&& tile_of_pos(m.pos) == target ==> n.pos == m.pos
            &&& tile_of_pos(m.pos) != target ==> {
                &&& moves_toward(m.pos.x.0 as int, n.pos.x.0 as int, cx, s)
                &&& moves_toward(m.pos.y.0 as int, n.pos.y.0 as int, cy, s)
            }
        }),
{
    let target = m.path[m.idx];
    if tile_of_pos(m.pos) != target {
        let cx = center_raw(target.0);
        let cy = center_raw(target.1);
        let diag = cx != m.pos.x.0 && cy != m.pos.y.0;
        assert(m.speed.0 * 181 >= 0) by (nonlinear_arith)
            requires
                m.speed.0 >= 0,
        ;
        assert(m.speed.0 * 181 / 256 <= m.speed.0) by (nonlinear_arith)
            requires
                m.speed.0 >= 0,
        ;
        assert(step_speed(m.speed, diag) >= 0);
    }
}

/// A mover in good standing under `id`: `held` is the tile it stands on
/// and `id` holds it, `id` holds nothing but that tile and the next
/// waypoint, and a mover past the end of a path stands on its last tile.
pub open spec fn mover_ok(m: MoverView, id: u32, occ: Map<Tile, u32>) -> bool {
    &&& m.idx >= 0
    &&& holder_of(occ, m.held) == Some(id)
    &&& claims_within(m, id, occ)
    &&& m.idx >= m.path.len() && m.path.len() > 0 ==> tile_of_pos(m.pos) == m.path.last()
}

/// A mover ready to go: as [`mover_ok`], except that while it has a
/// waypoint to work on its own tile may still be unclaimed, if free.
pub open spec fn mover_ready(m: MoverView, id: u32, occ: Map<Tile, u32>) -> bool {
    &&& m.idx >= 0
    &&& claims_within(m, id, occ)
    &&& m.idx >= m.path.len() && m.path.len() > 0 ==> tile_of_pos(m.pos) == m.path.last()
    &&& holder_of(occ, m.held) == Some(id) || (m.idx < m.path.len() && claim_succeeds(
        occ,
        m.held,
        id,
    ))
}

/// A step leaves a ready mover in good standing: it stands on a tile it
/// holds, holds nothing it has passed through, and once past its last
/// waypoint stands on the path's last tile.
pub proof fn lemma_step_keeps_mover_ok(m: MoverView, id: u32, occ: Map<Tile, u32>)
    requires
        mover_ready(m, id, occ),
        step_in_range(m, id, occ),
    ensures
        mover_ok(stepped(m, id, occ).0, id, stepped(m, id, occ).1),
{
    lemma_step_keeps_claims_within(m, id, occ);
    lemma_step_holds_own_tile(m, id, occ);
    let n = stepped(m, id, occ);
    if m.idx < m.path.len() && n.0.idx >= n.0.path.len() {
        lemma_arrival_ends_on_goal(m, id, occ);
    }
}

/// A mover past its last waypoint, in good standing, holds exactly one
/// tile: the one it stands on, the path's last.
pub proof fn lemma_arrived_holds_one(m: MoverView, id: u32, occ: Map<Tile, u32>, t: Tile)
    requires
        mover_ok(m, id, occ),
        m.idx >= m.path.len(),
    ensures
        holder_of(occ, t) == Some(id) <==> t == tile_of_pos(m.pos),
        m.path.len() > 0 ==> tile_of_pos(m.pos) == m.path.last(),
{
}

proof fn lemma_run_at(ms: Seq<MoverView>, occs: Seq<Map<Tile, u32>>, id: u32, k: int)
    requires
        ms.len() == occs.len(),
        1 <= k < ms.len(),
        mover_ready(ms[0], id, occs[0]),
        forall|i: int|
            0 <= i < ms.len() - 1 ==> step_in_range(#[trigger] ms[i], id, occs[i]) && ms[i + 1]
                == stepped(ms[i], id, occs[i]).0 && occs[i + 1] == stepped(ms[i], id, occs[i]).1,
    ensures
        mover_ok(ms[k], id, occs[k]),
    decreases k,
{
    if k > 1 {
        lemma_run_at(ms, occs, id, k - 1);
    }
    assert(step_in_range(ms[k - 1], id, occs[k - 1]));
    lemma_step_keeps_mover_ok(ms[k - 1], id, occs[k - 1]);
}

/// Over any number of steps by one mover, it stays in good standing after
/// every step: it only stands on tiles it holds, it holds nothing but its
/// own tile and its next waypoint, and once past its last waypoint it holds
/// exactly the path's last tile ([`lemma_arrived_holds_one`]).
pub proof fn lemma_run_keeps_mover_ok(ms: Seq<MoverView>, occs: Seq<Map<Tile, u32>>, id: u32)
    requires
        ms.len() == occs.len(),
        ms.len() > 0,
        mover_ready(ms[0], id, occs[0]),
        forall|i: int|
            0 <= i < ms.len() - 1 ==> step_in_range(#[trigger] ms[i], id, occs[i]) && ms[i + 1]
                == stepped(ms[i], id, occs[i]).0 && occs[i + 1] == stepped(ms[i], id, occs[i]).1,
    ensures
        forall|k: int| 1 <= k < ms.len() ==> mover_ok(#[trigger] ms[k], id, occs[k]),
{
    assert forall|k: int| 1 <= k < ms.len() implies mover_ok(#[trigger] ms[k], id, occs[k]) by {
        lemma_run_at(ms, occs, id, k);
    }
}

/// Movers sharing one ownership map, each in good standing under its own id.
pub open spec fn fleet_ok(ms: Seq<MoverView>, ids: Seq<u32>, occ: Map<Tile, u32>) -> bool {
    &&& ms.len() == ids.len()
    &&& forall|i: int, j: int| 0 <= i < j < ids.len() ==> #[trigger] ids[i] != #[trigger] ids[j]
    &&& forall|i: int| 0 <= i < ms.len() ==> mover_ok(#[trigger] ms[i], ids[i], occ)
}

/// In a fleet in good standing no two movers stand on the same tile.
pub proof fn lemma_fleet_apart(ms: Seq<MoverView>, ids: Seq<u32>, occ: Map<Tile, u32>, i: int, j: int)
    requires
        fleet_ok(ms, ids, occ),
        0 <= i < j < ms.len(),
    ensures
        tile_of_pos(ms[i].pos) != tile_of_pos(ms[j].pos),
{
    assert(mover_ok(ms[i], ids[i], occ));
    assert(mover_ok(ms[j], ids[j], occ));
    assert(ids[i] != ids[j]);
}

/// One mover of a fleet in good standing stepping under its own id keeps
/// the whole fleet in good standing.
pub proof fn lemma_fleet_step(ms: Seq<MoverView>, ids: Seq<u32>, occ: Map<Tile, u32>, i: int)
    requires
        fleet_ok(ms, ids, occ),
        0 <= i < ms.len(),
        step_in_range(ms[i], ids[i], occ),
    ensures
        fleet_ok(
            ms.update(i, stepped(ms[i], ids[i], occ).0),
            ids,
            stepped(ms[i], ids[i], occ).1,
        ),
{
    let n = stepped(ms[i], ids[i], occ);
    let ms2 = ms.update(i, n.0);
    assert(mover_ok(ms[i], ids[i], occ));
    lemma_step_keeps_mover_ok(ms[i], ids[i], occ);
    assert forall|j: int| 0 <= j < ms2.len() implies mover_ok(#[trigger] ms2[j], ids[j], n.1) by {
        if j != i {
            let m = ms[j];
            assert(mover_ok(m, ids[j], occ));
            if i < j {
                assert(ids[i] != ids[j]);
            } else {
                assert(ids[j] != ids[i]);
            }
            lemma_step_respects_others(ms[i], ids[i], occ, m.held, ids[j]);
            assert forall|t: Tile| #[trigger] holder_of(n.1, t) == Some(ids[j]) implies t == m.held
                || (0 <= m.idx < m.path.len() && t == m.path[m.idx]) by {
                lemma_step_respects_others(ms[i], ids[i], occ, t, ids[j]);
            }
        }
    }
}

proof fn lemma_fleet_run_at(
    fs: Seq<Seq<MoverView>>,
    occs: Seq<Map<Tile, u32>>,
    ids: Seq<u32>,
    who: Seq<int>,
    k: int,
)
    requires
        fs.len() == occs.len(),
        who.len() + 1 == fs.len(),
        0 <= k < fs.len(),
        fleet_ok(fs[0], ids, occs[0]),
        forall|s: int|
            0 <= s < who.len() ==> 0 <= #[trigger] who[s] < ids.len() && step_in_range(
                fs[s][who[s]],
                ids[who[s]],
                occs[s],
            ) && fs[s + 1] == fs[s].update(who[s], stepped(fs[s][who[s]], ids[who[s]], occs[s]).0)
                && occs[s + 1] == stepped(fs[s][who[s]], ids[who[s]], occs[s]).1,
    ensures
        fleet_ok(fs[k], ids, occs[k]),
    decreases k,
{
    if k > 0 {
        lemma_fleet_run_at(fs, occs, ids, who, k - 1);
        let s = k - 1;
        assert(0 <= who[s] < ids.len());
        lemma_fleet_step(fs[s], ids, occs[s], who[s]);
    }
}

/// Movers sharing one ownership map, stepped one at a time in any order,
/// each under its own id, stay in good standing after every step, so no
/// two of them ever stand on the same tile ([`lemma_fleet_apart`]).
pub proof fn lemma_fleet_run(
    fs: Seq<Seq<MoverView>>,
    occs: Seq<Map<Tile, u32>>,
    ids: Seq<u32>,
    who: Seq<int>,
)
    requires
        fs.len() == occs.len(),
        who.len() + 1 == fs.len(),
        fleet_ok(fs[0], ids, occs[0]),
        forall|s: int|
            0 <= s < who.len() ==> 0 <= #[trigger] who[s] < ids.len() && step_in_range(
                fs[s][who[s]],
                ids[who[s]],
                occs[s],
            ) && fs[s + 1] == fs[s].update(who[s], stepped(fs[s][who[s]], ids[who[s]], occs[s]).0)
                && occs[s + 1] == stepped(fs[s][who[s]], ids[who[s]], occs[s]).1,
    ensures
        forall|k: int| 0 <= k < fs.len() ==> fleet_ok(#[trigger] fs[k], ids, occs[k]),
{
    assert forall|k: int| 0 <= k < fs.len() implies fleet_ok(#[trigger] fs[k], ids, occs[k]) by {
        lemma_fleet_run_at(fs, occs, ids, who, k);
    }
}

impl Clone for Mover {
    fn clone(&self) -> (r: Mover)
        ensures
            r@ == self@,
    {
        let mut path: Vec<Tile> = Vec::new();
        let mut i: usize = 0;
        while i < self.path.len()
            invariant
                i <= self.path@.len(),
                path@ == self.path@.take(i as int),
            decreases self.path@.len() - i,
        {
            let t = self.path[i];
            path.push((t.0, t.1));
            i = i + 1;
            assert(path@ =~= self.path@.take(i as int));
        }
        assert(path@ =~= self.path@);
        Mover {
            pos: self.pos,
            speed: self.speed,
            path,
            idx: self.idx,
            held: (self.held.0, self.held.1),
            blocked_ticks: self.blocked_ticks,
        }
    }
}

impl Mover {
    /// The view's counters are those of a real mover: a waypoint index and
    /// a `u32` wait count.
    pub proof fn lemma_view_valid(&self)
        ensures
            0 <= self@.idx,
            0 <= self@.blocked_ticks <= u32::MAX,
    {
    }

    pub fn new(pos: FixedVec2, speed: Fixed) -> (r: Mover)
        ensures
            r@.pos == pos,
            r@.speed == speed,
            r@.path == Seq::<Tile>::empty(),
            r@.idx == 0,
            r@.held == tile_of_pos(pos),
            r@.blocked_ticks == 0,
    {
        let held: Tile = (floor_tile(pos.x.0), floor_tile(pos.y.0));
        Mover { pos, speed, path: Vec::new(), idx: 0, held, blocked_ticks: 0 }
    }

    /// Follow `path` from its start.
    pub fn set_path(&mut self, path: Vec<Tile>)
        ensures
            final(self)@.path == path@,
            final(self)@.idx == 0,
            final(self)@.blocked_ticks == 0,
            final(self)@.pos == old(self)@.pos,
            final(self)@.speed == old(self)@.speed,
            final(self)@.held == old(self)@.held,
    {
        self.path = path;
        self.idx = 0;
        self.blocked_ticks = 0;
    }

    /// The last waypoint, if any.
    pub fn goal(&self) -> (r: Option<Tile>)
        ensures
            r == if self@.path.len() == 0 {
                None
            } else {
                Some(self@.path.last())
            },
    {
        if self.path.len() == 0 {
            None
        } else {
            Some(self.path[self.path.len() - 1])
        }
    }

    pub fn current_tile(&self) -> (r: Tile)
        ensures
            r == tile_of_pos(self@.pos),
    {
        (floor_tile(self.pos.x.0), floor_tile(self.pos.y.0))
    }

    /// Consecutive ticks spent waiting for a tile.
    pub fn blocked_ticks(&self) -> (r: u32)
        ensures
            r == self@.blocked_ticks,
    {
        self.blocked_ticks
    }

    /// Advance one tick: reserve the next waypoint before moving into it,
    /// wait (Blocked) while another id holds it, take each new tile the
    /// moment the move carries us into it and release the one behind, and
    /// wait instead of moving when another id holds that new tile. The
    /// mover's claims stay within its own tile and its next waypoint
    /// (`lemma_step_keeps_claims_within`), and it only stands on a tile it
    /// holds (`lemma_step_holds_own_tile`). All arithmetic is fixed-point,
    /// so the step is deterministic.
    pub fn step(&mut self, id: u32, occ: &mut Occupancy) -> (r: MoveResult)
        requires
            step_in_range(old(self)@, id, old(occ)@),
        ensures
            (final(self)@, final(occ)@, r) == stepped(old(self)@, id, old(occ)@),
    {
        if self.idx >= self.path.len() {
            return MoveResult::Arrived;
        }
        let cur = self.current_tile();
        occ.claim(cur, id);
        let target = self.path[self.idx];
        if target.0 == cur.0 && target.1 == cur.1 {
            self.idx = self.idx + 1;
            return if self.idx >= self.path.len() {
                MoveResult::Arrived
            } else {
                MoveResult::Moving
            };
        }
        if !occ.claim(target, id) {
            self.blocked_ticks = self.blocked_ticks + 1;
            return MoveResult::Blocked;
        }

        let c = center(target);
        let dx = c.x - self.pos.x;
        let dy = c.y - self.pos.y;
        let diag = dx.0 != 0 && dy.0 != 0;
        let s = if diag {
            self.speed.mul(Fixed::inv_sqrt2())
        } else {
            self.speed
        };
        let rx = dx.abs().0 <= s.0;
        let ry = dy.abs().0 <= s.0;
        let nx = if rx {
            c.x
        } else if dx.0 > 0 {
            Fixed(self.pos.x.0 + s.0)
        } else {
            Fixed(self.pos.x.0 - s.0)
        };
        let ny = if ry {
            c.y
        } else if dy.0 > 0 {
            Fixed(self.pos.y.0 + s.0)
        } else {
            Fixed(self.pos.y.0 - s.0)
        };

        // Crossed into a new tile? Take it and drop the one behind us, on
        // every crossing, not just on arrival at a waypoint's center. If
        // another id holds the tile we would cross into, wait instead.
        let now: Tile = (floor_tile(nx.0), floor_tile(ny.0));
        if now.0 != self.held.0 || now.1 != self.held.1 {
            if !occ.claim(now, id) {
                self.blocked_ticks = self.blocked_ticks + 1;
                return MoveResult::Blocked;
            }
            occ.release(self.held, id);
            self.held = now;
        }
        self.pos.x = nx;
        self.pos.y = ny;
        self.blocked_ticks = 0;

        if rx && ry {
            self.idx = self.idx + 1;
            if self.idx >= self.path.len() {
                return MoveResult::Arrived;
            }
        }
        MoveResult::Moving
    }
}

} // verus!
