use vstd::prelude::*;
use crate::bitboard::{BitBoard, count_true, on_board, left_edge, right_edge, lemma_count_true_le_len};
use crate::grid::{Grid, GridModel, xy_in};
use crate::model::{FastBody, SearchBuffers};
use crate::types::Point;

verus! {

/// What a bounded flood fill from one cell found.
#[derive(Debug, Clone, Copy)]
pub struct FloodFillResult {
    /// Cells reached, the start included.
    pub count: i32,
    /// The fewest turns after which a blocking body segment next to the region has gone.
    pub min_turns_to_clear: i32,
    /// Whether food lies in the region reached before the last layer.
    pub has_food: bool,
}

/// The cells one step from a cell of `b` on a `w` by `h` board.
pub open spec fn neighbors_of(b: Seq<bool>, w: int, h: int) -> Seq<bool> {
    Seq::new(448, |i: int|
        (on_board(i, w, h) && i >= w && b[i - w])
        || (on_board(i, w, h) && i + w < 448 && b[i + w])
        || (i + 1 < 448 && b[i + 1] && !left_edge(i + 1, w, h))
        || (i >= 1 && b[i - 1] && !right_edge(i - 1, w, h)))
}

/// The body segment list an optional body stands for (none: no segments).
pub open spec fn segments(body: Option<&FastBody>) -> Seq<Point> {
    match body {
        Some(b) => b@,
        None => Seq::empty(),
    }
}

/// A board mask after marking the on-board cells of the first `k` segments.
pub open spec fn mask_fold(base: Seq<bool>, body: Seq<Point>, w: int, h: int, k: nat) -> Seq<bool>
    decreases k,
{
    if k == 0 {
        base
    } else {
        let prev = mask_fold(base, body, w, h, (k - 1) as nat);
        let p = body[k - 1];
        if xy_in(w, h, p.x as int, p.y as int) {
            prev.update(p.y * w + p.x, true)
        } else {
            prev
        }
    }
}

/// The turns until each cell is vacated, after recording the first `k` segments of `body`:
/// segment `i` leaves after `len - i` turns. With `keep_max`, a cell keeps the larger of its
/// previous value and the new one; without it, the new value replaces the old.
pub open spec fn vanish_fold(base: Seq<i32>, body: Seq<Point>, w: int, h: int, k: nat, keep_max: bool) -> Seq<i32>
    decreases k,
{
    if k == 0 {
        base
    } else {
        let prev = vanish_fold(base, body, w, h, (k - 1) as nat, keep_max);
        let p = body[k - 1];
        let v = (body.len() - (k - 1)) as i32;
        if xy_in(w, h, p.x as int, p.y as int) {
            let i = p.y * w + p.x;
            prev.update(i, if keep_max && prev[i] > v { prev[i] } else { v })
        } else {
            prev
        }
    }
}

/// The fixed inputs of one flood fill.
pub ghost struct FillEnv {
    pub w: int,
    pub h: int,
    pub safe: Seq<bool>,
    pub food: Seq<bool>,
    pub bodies: Seq<bool>,
    pub vanish: Seq<i32>,
}

/// The flood fill's progress after some number of layers.
pub ghost struct FillState {
    pub front: Seq<bool>,
    pub visited: Seq<bool>,
    pub count: int,
    pub min_turns: int,
    pub has_food: bool,
    pub done: bool,
}

/// `mt` lowered by `max(d, vanish[i])` for each cell `i < k` of `hits`.
pub open spec fn hits_fold(mt: int, hits: Seq<bool>, vanish: Seq<i32>, d: int, k: nat) -> int
    decreases k,
{
    if k == 0 {
        mt
    } else {
        let m = hits_fold(mt, hits, vanish, d, (k - 1) as nat);
        if hits[k - 1] {
            let esc = if d > vanish[k - 1] { d } else { vanish[k - 1] as int };
            if esc < m { esc } else { m }
        } else {
            m
        }
    }
}

/// The environment of a fill on `g` blocked by the two bodies.
pub open spec fn fill_env(g: GridModel, mine: Seq<Point>, theirs: Seq<Point>) -> FillEnv {
    let w = g.w;
    let h = g.h;
    let falses = Seq::new(448, |i: int| false);
    let zeros = Seq::new(448, |i: int| 0i32);
    let mine_mask = mask_fold(falses, mine, w, h, mine.len());
    let theirs_mask = mask_fold(falses, theirs, w, h, theirs.len());
    FillEnv {
        w,
        h,
        safe: Seq::new(448, |i: int| on_board(i, w, h) && !g.mine[i] && !g.theirs[i]),
        food: g.food,
        bodies: Seq::new(448, |i: int| mine_mask[i] || theirs_mask[i]),
        vanish: vanish_fold(vanish_fold(zeros, mine, w, h, mine.len(), false), theirs, w, h, theirs.len(), true),
    }
}

/// Layer `d` of the fill: note food already reached, step to unvisited neighbours, record the
/// earliest clearing time among blocking body cells met, and keep the safe ones as the new layer.
pub open spec fn fill_step(st: FillState, d: int, env: FillEnv) -> FillState {
    let has_food = st.has_food || exists|i: int| 0 <= i < 448 && st.visited[i] && env.food[i];
    let expanded = Seq::new(448, |i: int| neighbors_of(st.front, env.w, env.h)[i] && !st.visited[i]);
    let hits = Seq::new(448, |i: int| expanded[i] && env.bodies[i]);
    let mt = hits_fold(st.min_turns, hits, env.vanish, d, 448);
    let front = Seq::new(448, |i: int| expanded[i] && env.safe[i]);
    if forall|i: int| 0 <= i < 448 ==> !front[i] {
        FillState { front, visited: st.visited, count: st.count, min_turns: mt, has_food, done: true }
    } else {
        FillState {
            front,
            visited: Seq::new(448, |i: int| st.visited[i] || front[i]),
            count: st.count + count_true(front),
            min_turns: mt,
            has_food,
            done: false,
        }
    }
}

/// The state before any layer: only the start cell.
pub open spec fn fill_init(start: int) -> FillState {
    let s = Seq::new(448, |i: int| i == start);
    FillState { front: s, visited: s, count: 1, min_turns: i32::MAX as int, has_food: false, done: false }
}

/// The state after layers `1..=d`, the fill stopping at the first empty layer.
pub open spec fn fill_run(env: FillEnv, init: FillState, d: nat) -> FillState
    decreases d,
{
    if d == 0 {
        init
    } else {
        let prev = fill_run(env, init, (d - 1) as nat);
        if prev.done { prev } else { fill_step(prev, d as int, env) }
    }
}

/// Once the fill stops, later layers change nothing.
pub proof fn lemma_fill_run_stable(env: FillEnv, init: FillState, d: nat, e: nat)
    requires
        d <= e,
        fill_run(env, init, d).done,
    ensures
        fill_run(env, init, e) == fill_run(env, init, d),
    decreases e - d,
{
    if d < e {
        lemma_fill_run_stable(env, init, d, (e - 1) as nat);
    }
}

/// The outcome of a fill from `(sx, sy)` with at most `max_depth` layers.
pub open spec fn fill_outcome(g: GridModel, sx: int, sy: int, max_depth: int, mine: Seq<Point>, theirs: Seq<Point>) -> FillState {
    if !xy_in(g.w, g.h, sx, sy) {
        FillState {
            front: Seq::empty(),
            visited: Seq::empty(),
            count: 0,
            min_turns: i32::MAX as int,
            has_food: false,
            done: true,
        }
    } else {
        let d: nat = if max_depth < 0 { 0 } else { max_depth as nat };
        fill_run(fill_env(g, mine, theirs), fill_init(sy * g.w + sx), d)
    }
}

/// Two disjoint sets count as the sum of their sizes.
pub proof fn lemma_count_true_disjoint_union(a: Seq<bool>, b: Seq<bool>, c: Seq<bool>)
    requires
        a.len() == b.len(),
        c.len() == a.len(),
        forall|i: int| 0 <= i < a.len() ==> !(a[i] && b[i]),
        forall|i: int| 0 <= i < a.len() ==> c[i] == (a[i] || b[i]),
    ensures
        count_true(c) == count_true(a) + count_true(b),
    decreases a.len(),
{
    if a.len() > 0 {
        lemma_count_true_disjoint_union(a.drop_last(), b.drop_last(), c.drop_last());
    }
}

/// Marks the on-board cells of `body` and records when each is vacated.
fn mark_body(grid: &Grid, body: Option<&FastBody>, vanish: &mut [i32; 448], keep_max: bool) -> (m: BitBoard)
    requires
        grid.wf(),
        body matches Some(b) ==> b.wf(),
    ensures
        m@ == mask_fold(Seq::new(448, |i: int| false), segments(body), grid.width as int, grid.height as int, segments(body).len()),
        final(vanish)@ == vanish_fold(old(vanish)@, segments(body), grid.width as int, grid.height as int, segments(body).len(), keep_max),
{
    let ghost w = grid.width as int;
    let ghost h = grid.height as int;
    let ghost v0 = vanish@;
    let mut m = BitBoard::empty();
    match body {
        None => {
            assert(m@ =~= mask_fold(Seq::new(448, |i: int| false), segments(body), w, h, 0));
            m
        },
        Some(b) => {
            let pts = b.iter();
            let len = b.len() as i32;
            let mut i: usize = 0;
            while i < pts.len()
                invariant
                    grid.wf(),
                    w == grid.width,
                    h == grid.height,
                    pts@ == segments(body),
                    pts@.len() <= 512,
                    len == pts@.len(),
                    i <= pts@.len(),
                    m@ == mask_fold(Seq::new(448, |i: int| false), pts@, w, h, i as nat),
                    vanish@ == vanish_fold(v0, pts@, w, h, i as nat, keep_max),
                decreases pts@.len() - i,
            {
                let p = pts[i];
                if p.x >= 0 && p.x < grid.width && p.y >= 0 && p.y < grid.height {
                    let idx = grid.idx(p.x, p.y);
                    m.set(idx);
                    let v = len - i as i32;
                    if keep_max {
                        if vanish[idx] <= v {
                            vanish[idx] = v;
                        }
                    } else {
                        vanish[idx] = v;
                    }
                    proof {
                        let prev = vanish_fold(v0, pts@, w, h, i as nat, keep_max);
                        assert(vanish@ =~= prev.update(idx as int, if keep_max && prev[idx as int] > v { prev[idx as int] } else { v }));
                    }
                }
                i += 1;
            }
            m
        },
    }
}

/// The cells of `hits`, scanned in index order, lower `mt` to the clearing time `max(depth, vanish)`.
fn lower_by_hits(mt: i32, hits: &BitBoard, vanish: &[i32; 448], depth: i32) -> (r: i32)
    ensures
        r == hits_fold(mt as int, hits@, vanish@, depth as int, 448),
{
    let mut best = mt;
    let mut i: usize = 0;
    while i < 448
        invariant
            i <= 448,
            best == hits_fold(mt as int, hits@, vanish@, depth as int, i as nat),
        decreases 448 - i,
    {
        if hits.get(i) {
            let v = vanish[i];
            let esc = if depth > v { depth } else { v };
            if esc < best {
                best = esc;
            }
        }
        i += 1;
    }
    best
}

/// Floods outward from `(start_x, start_y)` through cells free of bodies for up to `max_depth`
/// layers, counting the cells reached, noting whether food was reached, and recording the
/// earliest turn at which a body segment bordering the region disappears.
pub fn flood_fill(
    grid: &Grid,
    start_x: i32,
    start_y: i32,
    max_depth: i32,
    my_body: Option<&FastBody>,
    enemy_body: Option<&FastBody>,
    buffers: &mut SearchBuffers,
) -> (r: FloodFillResult)
    requires
        grid.wf(),
        my_body matches Some(b) ==> b.wf(),
        enemy_body matches Some(b) ==> b.wf(),
    ensures
        *final(buffers) == *old(buffers),
        ({
            let st = fill_outcome(grid.model(), start_x as int, start_y as int, max_depth as int, segments(my_body), segments(enemy_body));
            &&& r.count == st.count
            &&& r.min_turns_to_clear == st.min_turns
            &&& r.has_food == st.has_food
        }),
{
    if start_x < 0 || start_y < 0 || start_x >= grid.width || start_y >= grid.height {
        return FloodFillResult { count: 0, min_turns_to_clear: i32::MAX, has_food: false };
    }
    let ghost env = fill_env(grid.model(), segments(my_body), segments(enemy_body));
    let start_idx = grid.idx(start_x, start_y);
    let ghost init = fill_init(start_idx as int);

    let mut front = BitBoard::with_bit(start_idx);
    let mut visited = front;
    let safe_cells = grid.safe_cells();
    let food_cells = grid.food;

    let mut count: i32 = 1;
    let mut min_turns_to_clear: i32 = i32::MAX;
    let mut has_food = false;

    let mut vanish_map = [0i32; 448];
    assert(vanish_map@ =~= Seq::new(448, |i: int| 0i32));
    let my_mask = mark_body(grid, my_body, &mut vanish_map, false);
    let en_mask = mark_body(grid, enemy_body, &mut vanish_map, true);
    let bodies = my_mask.bitor(en_mask);
    proof {
        assert(vanish_map@ =~= env.vanish);
        assert(bodies@ =~= env.bodies);
        assert(safe_cells@ =~= env.safe);
        assert(front@ =~= init.front);
        assert(visited@ =~= Seq::new(448, |i: int| i == start_idx as int));
        lemma_count_single(448, start_idx as int);
    }

    let mut depth: i64 = 1;
    let mut done = false;
    while !done && depth <= max_depth as i64
        invariant
            grid.wf(),
            env == fill_env(grid.model(), segments(my_body), segments(enemy_body)),
            init == fill_init(start_idx as int),
            vanish_map@ == env.vanish,
            bodies@ == env.bodies,
            safe_cells@ == env.safe,
            food_cells@ == env.food,
            1 <= depth,
            depth <= max_depth + 1 || depth == 1,
            ({
                let st = fill_run(env, init, (depth - 1) as nat);
                &&& front@ == st.front
                &&& visited@ == st.visited
                &&& count == st.count
                &&& min_turns_to_clear == st.min_turns
                &&& has_food == st.has_food
                &&& done == st.done
            }),
            count == count_true(visited@),
            visited@.len() == 448,
        decreases (max_depth as int) + 1 - (depth as int),
    {
        let ghost layers: nat = (depth - 1) as nat;
        let ghost st = fill_run(env, init, layers);
        let reached_food = visited.bitand(food_cells);
        if !has_food && reached_food.any() {
            has_food = true;
        }
        let expanded_all = grid.ctx.expand_neighbors(front).bitand(visited.not());
        let hits = expanded_all.bitand(bodies);
        min_turns_to_clear = lower_by_hits(min_turns_to_clear, &hits, &vanish_map, depth as i32);
        let next = expanded_all.bitand(safe_cells);
        proof {
            assert(expanded_all@ =~= Seq::new(448, |i: int| neighbors_of(st.front, env.w, env.h)[i] && !st.visited[i]));
            assert(hits@ =~= Seq::new(448, |i: int| expanded_all@[i] && env.bodies[i]));
            assert(next@ =~= Seq::new(448, |i: int| expanded_all@[i] && env.safe[i]));
            if !st.has_food && (exists|i: int| 0 <= i < 448 && st.visited[i] && env.food[i]) {
                let i = choose|i: int| 0 <= i < 448 && st.visited[i] && env.food[i];
                assert(reached_food@[i]);
            }
            assert(fill_run(env, init, layers + 1) == fill_step(st, (layers + 1) as int, env));
        }
        front = next;
        if front.is_empty() {
            done = true;
        } else {
            let ghost old_visited = visited@;
            visited = visited.bitor(front);
            let added = front.count_ones();
            proof {
                lemma_count_true_le_len(visited@);
                lemma_count_true_disjoint_union(old_visited, front@, visited@);
                assert(visited@ =~= fill_step(st, (layers + 1) as int, env).visited);
            }
            count = count + added as i32;
        }
        depth = depth + 1;
    }
    proof {
        let d: nat = if max_depth < 0 { 0 } else { max_depth as nat };
        if done {
            lemma_fill_run_stable(env, init, (depth - 1) as nat, d);
        }
    }
    FloodFillResult { count, min_turns_to_clear, has_food }
}

/// What every layer keeps: the visited cells lie on the board and the count is their number.
pub open spec fn fill_inv(st: FillState, env: FillEnv) -> bool {
    &&& st.visited.len() == 448
    &&& forall|i: int| 0 <= i < 448 ==> #[trigger] st.visited[i] ==> on_board(i, env.w, env.h)
    &&& st.count == count_true(st.visited)
}

/// Every layer keeps `fill_inv`.
proof fn lemma_fill_run_inv(env: FillEnv, init: FillState, d: nat)
    requires
        fill_inv(init, env),
        forall|i: int| 0 <= i < 448 ==> #[trigger] env.safe[i] ==> on_board(i, env.w, env.h),
    ensures
        fill_inv(fill_run(env, init, d), env),
    decreases d,
{
    if d > 0 {
        lemma_fill_run_inv(env, init, (d - 1) as nat);
        let prev = fill_run(env, init, (d - 1) as nat);
        if !prev.done {
            let next = fill_step(prev, d as int, env);
            if !next.done {
                lemma_count_true_disjoint_union(prev.visited, next.front, next.visited);
            }
        }
    }
}

/// The first `k` of `n` cells set count `k`.
proof fn lemma_count_prefix(n: nat, k: int)
    requires
        0 <= k <= n,
    ensures
        count_true(Seq::new(n, |i: int| i < k)) == k,
    decreases n,
{
    if n > 0 {
        let s = Seq::new(n, |i: int| i < k);
        if k == n {
            assert(s.drop_last() =~= Seq::new((n - 1) as nat, |i: int| i < k - 1));
            lemma_count_prefix((n - 1) as nat, k - 1);
        } else {
            assert(s.drop_last() =~= Seq::new((n - 1) as nat, |i: int| i < k));
            lemma_count_prefix((n - 1) as nat, k);
        }
    }
}

/// A flood fill never counts more cells than the board has.
pub proof fn lemma_fill_within_board(g: GridModel, sx: int, sy: int, max_depth: int, mine: Seq<Point>, theirs: Seq<Point>)
    requires
        0 < g.w,
        0 <= g.h,
        g.w * g.h <= 448,
    ensures
        0 <= fill_outcome(g, sx, sy, max_depth, mine, theirs).count <= g.w * g.h,
{
    let w = g.w;
    let h = g.h;
    assert(0 <= w * h) by (nonlinear_arith) requires 0 < w, 0 <= h;
    if xy_in(w, h, sx, sy) {
        let env = fill_env(g, mine, theirs);
        let start = sy * w + sx;
        assert(0 <= sy * w + sx < w * h) by (nonlinear_arith) requires 0 <= sx < w, 0 <= sy < h;
        let init = fill_init(start);
        assert(init.visited =~= Seq::new(448, |i: int| i == start));
        lemma_count_single(448, start);
        assert(fill_inv(init, env));
        let d: nat = if max_depth < 0 { 0 } else { max_depth as nat };
        lemma_fill_run_inv(env, init, d);
        let st = fill_run(env, init, d);
        crate::voronoi::lemma_count_true_subset(st.visited, Seq::new(448, |i: int| i < w * h));
        lemma_count_prefix(448, w * h);
    }
}

/// Every layer adds only cells that are safe to enter.
proof fn lemma_fill_run_safe(env: FillEnv, init: FillState, d: nat, start: int)
    requires
        init.visited.len() == 448,
        forall|i: int| 0 <= i < 448 ==> #[trigger] init.visited[i] ==> i == start,
    ensures
        fill_run(env, init, d).visited.len() == 448,
        forall|i: int| 0 <= i < 448 ==> #[trigger] fill_run(env, init, d).visited[i] ==> i == start || env.safe[i],
    decreases d,
{
    if d > 0 {
        lemma_fill_run_safe(env, init, (d - 1) as nat, start);
    }
}

/// A flood fill counts only the start cell and cells on the board clear of both bodies, so it
/// counts at most one more cell than the board has free.
pub proof fn lemma_fill_counts_free_cells(g: GridModel, sx: int, sy: int, max_depth: int, mine: Seq<Point>, theirs: Seq<Point>)
    requires
        0 < g.w,
        0 <= g.h,
        g.w * g.h <= 448,
        xy_in(g.w, g.h, sx, sy),
    ensures
        ({
            let st = fill_outcome(g, sx, sy, max_depth, mine, theirs);
            let free = Seq::new(448, |i: int| on_board(i, g.w, g.h) && !g.mine[i] && !g.theirs[i]);
            &&& forall|i: int| 0 <= i < 448 ==> #[trigger] st.visited[i] ==> i == sy * g.w + sx || free[i]
            &&& st.count <= 1 + count_true(free)
        }),
{
    let w = g.w;
    let h = g.h;
    let env = fill_env(g, mine, theirs);
    let start = sy * w + sx;
    assert(0 <= sy * w + sx < w * h) by (nonlinear_arith) requires 0 <= sx < w, 0 <= sy < h;
    let init = fill_init(start);
    let d: nat = if max_depth < 0 { 0 } else { max_depth as nat };
    lemma_fill_run_safe(env, init, d, start);
    assert(init.visited =~= Seq::new(448, |i: int| i == start));
    lemma_count_single(448, start);
    assert(fill_inv(init, env));
    lemma_fill_run_inv(env, init, d);
    let st = fill_run(env, init, d);
    let free = Seq::new(448, |i: int| on_board(i, w, h) && !g.mine[i] && !g.theirs[i]);
    let single = Seq::new(448, |i: int| i == start);
    let single_only = Seq::new(448, |i: int| i == start && !free[i]);
    let both = Seq::new(448, |i: int| single_only[i] || free[i]);
    crate::voronoi::lemma_count_true_subset(single_only, single);
    lemma_count_true_disjoint_union(single_only, free, both);
    crate::voronoi::lemma_count_true_subset(st.visited, both);
}

/// More layers never reach fewer cells.
proof fn lemma_fill_run_grows(env: FillEnv, init: FillState, d: nat, e: nat)
    requires
        d <= e,
    ensures
        forall|i: int| 0 <= i < 448 && #[trigger] fill_run(env, init, d).visited[i] ==> fill_run(env, init, e).visited[i],
    decreases e,
{
    if e > d {
        lemma_fill_run_grows(env, init, d, (e - 1) as nat);
    }
}

/// A fill from a cell on the board counts that cell, and a fill allowed more layers counts at least
/// as many cells.
pub proof fn lemma_fill_start_and_depth(g: GridModel, sx: int, sy: int, d1: int, d2: int, mine: Seq<Point>, theirs: Seq<Point>)
    requires
        0 < g.w,
        0 <= g.h,
        g.w * g.h <= 448,
        xy_in(g.w, g.h, sx, sy),
        d1 <= d2,
    ensures
        fill_outcome(g, sx, sy, d1, mine, theirs).visited[sy * g.w + sx],
        1 <= fill_outcome(g, sx, sy, d1, mine, theirs).count <= fill_outcome(g, sx, sy, d2, mine, theirs).count,
{
    let w = g.w;
    let h = g.h;
    let env = fill_env(g, mine, theirs);
    let start = sy * w + sx;
    assert(0 <= sy * w + sx < w * h) by (nonlinear_arith) requires 0 <= sx < w, 0 <= sy < h;
    let init = fill_init(start);
    assert(init.visited =~= Seq::new(448, |i: int| i == start));
    lemma_count_single(448, start);
    assert(fill_inv(init, env));
    let a: nat = if d1 < 0 { 0 } else { d1 as nat };
    let b: nat = if d2 < 0 { 0 } else { d2 as nat };
    assert(fill_run(env, init, 0) == init);
    lemma_fill_run_grows(env, init, 0, a);
    lemma_fill_run_grows(env, init, a, b);
    lemma_fill_run_safe(env, init, a, start);
    lemma_fill_run_safe(env, init, b, start);
    lemma_fill_run_inv(env, init, a);
    lemma_fill_run_inv(env, init, b);
    let s1 = fill_run(env, init, a);
    let s2 = fill_run(env, init, b);
    assert(init.visited[start]);
    crate::voronoi::lemma_count_true_subset(init.visited, s1.visited);
    crate::voronoi::lemma_count_true_subset(s1.visited, s2.visited);
}

/// Food is reported only when a cell reached holds food.
proof fn lemma_fill_run_food(env: FillEnv, init: FillState, d: nat)
    requires
        !init.has_food,
    ensures
        fill_run(env, init, d).has_food ==> exists|i: int| 0 <= i < 448 && fill_run(env, init, d).visited[i] && #[trigger] env.food[i],
    decreases d,
{
    if d > 0 {
        lemma_fill_run_food(env, init, (d - 1) as nat);
        let prev = fill_run(env, init, (d - 1) as nat);
        if !prev.done {
            let next = fill_step(prev, d as int, env);
            if next.has_food {
                let i = choose|i: int| 0 <= i < 448 && prev.visited[i] && #[trigger] env.food[i];
                if !next.done {
                    assert(next.visited[i]);
                }
            }
        }
    }
}

/// A flood fill reports food only when one of the cells it counted holds food.
pub proof fn lemma_fill_food_is_reached(g: GridModel, sx: int, sy: int, max_depth: int, mine: Seq<Point>, theirs: Seq<Point>)
    ensures
        fill_outcome(g, sx, sy, max_depth, mine, theirs).has_food ==> exists|i: int| 0 <= i < 448
            && fill_outcome(g, sx, sy, max_depth, mine, theirs).visited[i] && #[trigger] g.food[i],
{
    if xy_in(g.w, g.h, sx, sy) {
        let d: nat = if max_depth < 0 { 0 } else { max_depth as nat };
        lemma_fill_run_food(fill_env(g, mine, theirs), fill_init(sy * g.w + sx), d);
    }
}

/// A run of `n` cells with only cell `k` set counts one.
pub proof fn lemma_count_single(n: nat, k: int)
    requires
        0 <= k < n,
    ensures
        count_true(Seq::new(n, |i: int| i == k)) == 1,
    decreases n,
{
    let s = Seq::new(n, |i: int| i == k);
    if k == n - 1 {
        assert(s.drop_last() =~= Seq::new((n - 1) as nat, |i: int| false));
        lemma_count_zero((n - 1) as nat);
    } else {
        assert(s.drop_last() =~= Seq::new((n - 1) as nat, |i: int| i == k));
        lemma_count_single((n - 1) as nat, k);
    }
}

/// A run of `n` empty cells counts zero.
pub proof fn lemma_count_zero(n: nat)
    ensures
        count_true(Seq::new(n, |i: int| false)) == 0,
    decreases n,
{
    if n > 0 {
        assert(Seq::new(n, |i: int| false).drop_last() =~= Seq::new((n - 1) as nat, |i: int| false));
        lemma_count_zero((n - 1) as nat);
    }
}


/// Lowering by the clearing times of the cells hit never goes below `min(mt, d)`.
proof fn lemma_hits_fold_floor(mt: int, hits: Seq<bool>, vanish: Seq<i32>, d: int, k: nat)
    ensures
        hits_fold(mt, hits, vanish, d, k) >= if mt < d { mt } else { d },
    decreases k,
{
    if k > 0 {
        lemma_hits_fold_floor(mt, hits, vanish, d, (k - 1) as nat);
    }
}

/// The fewest turns to clear stays at least one through every layer.
proof fn lemma_fill_run_min_turns(env: FillEnv, init: FillState, d: nat)
    requires
        init.min_turns >= 1,
    ensures
        fill_run(env, init, d).min_turns >= 1,
    decreases d,
{
    if d > 0 {
        lemma_fill_run_min_turns(env, init, (d - 1) as nat);
        let prev = fill_run(env, init, (d - 1) as nat);
        if !prev.done {
            let expanded = Seq::new(448, |i: int| neighbors_of(prev.front, env.w, env.h)[i] && !prev.visited[i]);
            let hits = Seq::new(448, |i: int| expanded[i] && env.bodies[i]);
            lemma_hits_fold_floor(prev.min_turns, hits, env.vanish, d as int, 448);
        }
    }
}

/// A flood fill reports at least one turn to clear (`i32::MAX` when no body blocks it).
pub proof fn lemma_fill_min_turns_positive(g: GridModel, sx: int, sy: int, max_depth: int, mine: Seq<Point>, theirs: Seq<Point>)
    ensures
        fill_outcome(g, sx, sy, max_depth, mine, theirs).min_turns >= 1,
{
    if xy_in(g.w, g.h, sx, sy) {
        let d: nat = if max_depth < 0 { 0 } else { max_depth as nat };
        lemma_fill_run_min_turns(fill_env(g, mine, theirs), fill_init(sy * g.w + sx), d);
    }
}

} // verus!
