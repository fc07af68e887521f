use vstd::prelude::*;
use crate::bitboard::{BitBoard, count_true, on_board, lemma_count_true_le_len};
use crate::grid::{Grid, GridModel, xy_in};
use crate::model::SearchBuffers;
use crate::types::Point;
use crate::floodfill::{neighbors_of, lemma_count_zero};

verus! {

/// How many cells each snake reaches strictly first.
#[derive(Debug, Clone)]
pub struct VoronoiResult {
    pub my_count: i32,
    pub enemy_count: i32,
}

/// Two fronts growing in lockstep over the free cells.
pub ghost struct VorState {
    pub my_front: Seq<bool>,
    pub en_front: Seq<bool>,
    pub my_terr: Seq<bool>,
    pub en_terr: Seq<bool>,
    pub visited: Seq<bool>,
    pub done: bool,
}

/// One round: both fronts step to unvisited neighbours; cells both reach at once belong to
/// neither; the rest join the territory of the side that reached them.
pub open spec fn vor_step(st: VorState, w: int, h: int) -> VorState {
    let mf = Seq::new(448, |i: int| neighbors_of(st.my_front, w, h)[i] && !st.visited[i]);
    let ef = Seq::new(448, |i: int| neighbors_of(st.en_front, w, h)[i] && !st.visited[i]);
    let ties = Seq::new(448, |i: int| mf[i] && ef[i]);
    let my_front = Seq::new(448, |i: int| mf[i] && !ties[i]);
    let en_front = Seq::new(448, |i: int| ef[i] && !ties[i]);
    if forall|i: int| 0 <= i < 448 ==> !my_front[i] && !en_front[i] {
        VorState { my_front, en_front, my_terr: st.my_terr, en_terr: st.en_terr, visited: st.visited, done: true }
    } else {
        VorState {
            my_front,
            en_front,
            my_terr: Seq::new(448, |i: int| st.my_terr[i] || my_front[i]),
            en_terr: Seq::new(448, |i: int| st.en_terr[i] || en_front[i]),
            visited: Seq::new(448, |i: int| st.visited[i] || my_front[i] || en_front[i] || ties[i]),
            done: false,
        }
    }
}

/// The state after `n` rounds, stopping at the first round in which neither side gains a cell.
pub open spec fn vor_run(st: VorState, w: int, h: int, n: nat) -> VorState
    decreases n,
{
    if n == 0 {
        st
    } else {
        let prev = vor_run(st, w, h, (n - 1) as nat);
        if prev.done { prev } else { vor_step(prev, w, h) }
    }
}

/// The starting state: each side holds its head; the heads and every blocked cell count as visited.
pub open spec fn vor_init(g: GridModel, mine: int, theirs: int) -> VorState {
    let w = g.w;
    let h = g.h;
    VorState {
        my_front: Seq::new(448, |i: int| i == mine),
        en_front: Seq::new(448, |i: int| i == theirs),
        my_terr: Seq::new(448, |i: int| false),
        en_terr: Seq::new(448, |i: int| false),
        visited: Seq::new(448, |i: int| i == mine || i == theirs
            || !(on_board(i, w, h) && !g.mine[i] && !g.theirs[i])),
        done: false,
    }
}

/// The final state of the territory split of `g` between heads at cell indices `mine` and `theirs`.
pub open spec fn voronoi_outcome(g: GridModel, mine: int, theirs: int) -> VorState {
    vor_run(vor_init(g, mine, theirs), g.w, g.h, 448)
}

/// Once the split stops, later rounds change nothing.
pub proof fn lemma_vor_run_stable(st: VorState, w: int, h: int, m: nat, n: nat)
    requires
        m <= n,
        vor_run(st, w, h, m).done,
    ensures
        vor_run(st, w, h, n) == vor_run(st, w, h, m),
    decreases n - m,
{
    if m < n {
        lemma_vor_run_stable(st, w, h, m, (n - 1) as nat);
    }
}

/// The free cells of `g`: on the board and clear of both bodies.
pub open spec fn free_mask(g: GridModel) -> Seq<bool> {
    Seq::new(448, |i: int| on_board(i, g.w, g.h) && !g.mine[i] && !g.theirs[i])
}

/// What every round keeps: territories are free, visited and disjoint, and every cell that is not
/// free counts as visited.
pub open spec fn vor_inv(st: VorState, free: Seq<bool>) -> bool {
    &&& st.my_terr.len() == 448 && st.en_terr.len() == 448 && st.visited.len() == 448
    &&& forall|i: int| 0 <= i < 448 ==> #[trigger] st.my_terr[i] ==> st.visited[i] && free[i]
    &&& forall|i: int| 0 <= i < 448 ==> #[trigger] st.en_terr[i] ==> st.visited[i] && free[i]
    &&& forall|i: int| 0 <= i < 448 ==> !(#[trigger] st.my_terr[i] && st.en_terr[i])
    &&& forall|i: int| 0 <= i < 448 ==> !free[i] ==> #[trigger] st.visited[i]
}

/// Every round keeps `vor_inv`.
proof fn lemma_vor_run_inv(st: VorState, w: int, h: int, n: nat, free: Seq<bool>)
    requires
        vor_inv(st, free),
    ensures
        vor_inv(vor_run(st, w, h, n), free),
    decreases n,
{
    if n > 0 {
        lemma_vor_run_inv(st, w, h, (n - 1) as nat, free);
    }
}

/// The two territories never share a cell and only hold free cells, so together they are no
/// larger than the free part of the board.
pub proof fn lemma_voronoi_split(g: GridModel, mine: int, theirs: int)
    ensures
        ({
            let st = voronoi_outcome(g, mine, theirs);
            &&& forall|i: int| 0 <= i < 448 ==> !(#[trigger] st.my_terr[i] && st.en_terr[i])
            &&& forall|i: int| 0 <= i < 448 ==> (#[trigger] st.my_terr[i] || st.en_terr[i]) ==> free_mask(g)[i]
            &&& count_true(st.my_terr) + count_true(st.en_terr) <= count_true(free_mask(g))
        }),
{
    let free = free_mask(g);
    let init = vor_init(g, mine, theirs);
    assert(vor_inv(init, free));
    lemma_vor_run_inv(init, g.w, g.h, 448, free);
    let st = voronoi_outcome(g, mine, theirs);
    let both = Seq::new(448, |i: int| st.my_terr[i] || st.en_terr[i]);
    crate::floodfill::lemma_count_true_disjoint_union(st.my_terr, st.en_terr, both);
    lemma_count_true_subset(both, free);
}

/// Once a round has visited a cell, later rounds never change whose territory it is.
proof fn lemma_vor_settled(st: VorState, w: int, h: int, m: nat, n: nat, c: int)
    requires
        m <= n,
        0 <= c < 448,
        vor_run(st, w, h, m).visited.len() == 448,
        vor_run(st, w, h, m).visited[c],
    ensures
        vor_run(st, w, h, n).visited.len() == 448,
        vor_run(st, w, h, n).visited[c],
        vor_run(st, w, h, n).my_terr[c] == vor_run(st, w, h, m).my_terr[c],
        vor_run(st, w, h, n).en_terr[c] == vor_run(st, w, h, m).en_terr[c],
    decreases n,
{
    if n > m {
        lemma_vor_settled(st, w, h, m, (n - 1) as nat, c);
    }
}

/// The first round of the split: a free cell next to my head and not next to the enemy's head is
/// mine, one next to the enemy's head and not mine is the enemy's, and one next to both heads
/// belongs to neither side.
pub proof fn lemma_voronoi_first_round(g: GridModel, mine: int, theirs: int, c: int)
    requires
        0 <= c < 448,
        c != mine,
        c != theirs,
        on_board(c, g.w, g.h) && !g.mine[c] && !g.theirs[c],
    ensures
        ({
            let near_me = neighbors_of(Seq::new(448, |i: int| i == mine), g.w, g.h)[c];
            let near_them = neighbors_of(Seq::new(448, |i: int| i == theirs), g.w, g.h)[c];
            let st = voronoi_outcome(g, mine, theirs);
            &&& near_me && !near_them ==> st.my_terr[c] && !st.en_terr[c]
            &&& near_them && !near_me ==> st.en_terr[c] && !st.my_terr[c]
            &&& near_me && near_them ==> !st.my_terr[c] && !st.en_terr[c]
        }),
{
    let init = vor_init(g, mine, theirs);
    let near_me = neighbors_of(Seq::new(448, |i: int| i == mine), g.w, g.h)[c];
    let near_them = neighbors_of(Seq::new(448, |i: int| i == theirs), g.w, g.h)[c];
    assert(init.my_front =~= Seq::new(448, |i: int| i == mine));
    assert(init.en_front =~= Seq::new(448, |i: int| i == theirs));
    assert(!init.visited[c]);
    assert(vor_run(init, g.w, g.h, 0) == init);
    let r1 = vor_run(init, g.w, g.h, 1);
    assert(r1 == vor_step(init, g.w, g.h));
    if near_me || near_them {
        let mf = Seq::new(448, |i: int| neighbors_of(init.my_front, g.w, g.h)[i] && !init.visited[i]);
        let ef = Seq::new(448, |i: int| neighbors_of(init.en_front, g.w, g.h)[i] && !init.visited[i]);
        let ties = Seq::new(448, |i: int| mf[i] && ef[i]);
        let my_front = Seq::new(448, |i: int| mf[i] && !ties[i]);
        let en_front = Seq::new(448, |i: int| ef[i] && !ties[i]);
        if near_me && near_them {
            assert(ties[c]);
            if forall|i: int| 0 <= i < 448 ==> !my_front[i] && !en_front[i] {
                // the round found nothing new: the tied cell stays unvisited and unclaimed
                assert(r1.done);
                lemma_vor_run_stable(init, g.w, g.h, 1, 448);
            } else {
                assert(r1.visited[c]);
                lemma_vor_settled(init, g.w, g.h, 1, 448, c);
            }
        } else {
            assert(!(forall|i: int| 0 <= i < 448 ==> !my_front[i] && !en_front[i])) by {
                assert(my_front[c] || en_front[c]);
            }
            assert(r1.visited[c]);
            lemma_vor_settled(init, g.w, g.h, 1, 448, c);
        }
    }
}

/// The split state seen from the other side: fronts and territories trade places.
pub open spec fn vor_swapped(st: VorState) -> VorState {
    VorState {
        my_front: st.en_front,
        en_front: st.my_front,
        my_terr: st.en_terr,
        en_terr: st.my_terr,
        visited: st.visited,
        done: st.done,
    }
}

/// Rounds from the swapped state are the swapped rounds.
proof fn lemma_vor_run_swapped(st: VorState, w: int, h: int, n: nat)
    ensures
        vor_run(vor_swapped(st), w, h, n) == vor_swapped(vor_run(st, w, h, n)),
    decreases n,
{
    if n > 0 {
        lemma_vor_run_swapped(st, w, h, (n - 1) as nat);
        let prev = vor_run(st, w, h, (n - 1) as nat);
        if !prev.done {
            let a = vor_step(vor_swapped(prev), w, h);
            let b = vor_swapped(vor_step(prev, w, h));
            let mf = Seq::new(448, |i: int| neighbors_of(prev.my_front, w, h)[i] && !prev.visited[i]);
            let ef = Seq::new(448, |i: int| neighbors_of(prev.en_front, w, h)[i] && !prev.visited[i]);
            let ties = Seq::new(448, |i: int| mf[i] && ef[i]);
            let ties2 = Seq::new(448, |i: int| ef[i] && mf[i]);
            assert(ties =~= ties2);
            assert(a.my_front =~= b.my_front);
            assert(a.en_front =~= b.en_front);
            assert(a.my_terr =~= b.my_terr);
            assert(a.en_terr =~= b.en_terr);
            assert(a.visited =~= b.visited);
        }
    }
}

/// Splitting the board from the other head's side swaps the two territories.
pub proof fn lemma_voronoi_swap(g: GridModel, mine: int, theirs: int)
    ensures
        voronoi_outcome(g, theirs, mine).my_terr == voronoi_outcome(g, mine, theirs).en_terr,
        voronoi_outcome(g, theirs, mine).en_terr == voronoi_outcome(g, mine, theirs).my_terr,
{
    let init = vor_init(g, mine, theirs);
    assert(vor_init(g, theirs, mine).visited =~= vor_swapped(init).visited);
    assert(vor_init(g, theirs, mine) == vor_swapped(init));
    lemma_vor_run_swapped(init, g.w, g.h, 448);
}

/// A superset counts at least as many cells, and strictly more when it has an extra cell.
pub proof fn lemma_count_true_subset(a: Seq<bool>, b: Seq<bool>)
    requires
        a.len() == b.len(),
        forall|i: int| 0 <= i < a.len() ==> a[i] ==> b[i],
    ensures
        count_true(a) <= count_true(b),
        (exists|i: int| 0 <= i < a.len() && b[i] && !a[i]) ==> count_true(a) < count_true(b),
    decreases a.len(),
{
    if a.len() > 0 {
        lemma_count_true_subset(a.drop_last(), b.drop_last());
        if exists|i: int| 0 <= i < a.len() && b[i] && !a[i] {
            let i = choose|i: int| 0 <= i < a.len() && b[i] && !a[i];
            if i < a.len() - 1 {
                assert(b.drop_last()[i] && !a.drop_last()[i]);
            }
        }
    }
}

/// Splits the free cells between the two heads: both sides grow one step per round through
/// free cells, a cell goes to whichever side reaches it first, and cells reached by both in
/// the same round go to neither. Reports the size of each side's territory.
#[verifier::rlimit(80)]
pub fn compute_voronoi(grid: &Grid, my_head: Point, enemy_head: Point, buffers: &mut SearchBuffers) -> (r: VoronoiResult)
    requires
        grid.wf(),
        xy_in(grid.width as int, grid.height as int, my_head.x as int, my_head.y as int),
        xy_in(grid.width as int, grid.height as int, enemy_head.x as int, enemy_head.y as int),
    ensures
        *final(buffers) == *old(buffers),
        0 <= r.my_count <= 448,
        0 <= r.enemy_count <= 448,
        ({
            let st = voronoi_outcome(grid.model(), grid.index_of(my_head.x as int, my_head.y as int),
                grid.index_of(enemy_head.x as int, enemy_head.y as int));
            &&& r.my_count == count_true(st.my_terr)
            &&& r.enemy_count == count_true(st.en_terr)
        }),
{
    let ghost w = grid.width as int;
    let ghost h = grid.height as int;
    let mi = grid.idx(my_head.x, my_head.y);
    let ei = grid.idx(enemy_head.x, enemy_head.y);
    let ghost init = vor_init(grid.model(), mi as int, ei as int);

    let mut my_front = BitBoard::with_bit(mi);
    let mut en_front = BitBoard::with_bit(ei);
    let mut my_territory = BitBoard::empty();
    let mut en_territory = BitBoard::empty();
    let mut visited = my_front.bitor(en_front).bitor(grid.safe_cells().not());
    proof {
        assert(my_front@ =~= init.my_front);
        assert(en_front@ =~= init.en_front);
        assert(my_territory@ =~= init.my_terr);
        assert(en_territory@ =~= init.en_terr);
        assert(visited@ =~= init.visited);
        lemma_count_zero(448);
        lemma_count_true_subset(Seq::new(448, |i: int| false), visited@);
        assert(visited@[mi as int]);
    }

    let mut done = false;
    let ghost mut n: nat = 0;
    while !done
        invariant
            grid.wf(),
            w == grid.width,
            h == grid.height,
            init == vor_init(grid.model(), mi as int, ei as int),
            ({
                let st = vor_run(init, w, h, n);
                &&& my_front@ == st.my_front
                &&& en_front@ == st.en_front
                &&& my_territory@ == st.my_terr
                &&& en_territory@ == st.en_terr
                &&& visited@ == st.visited
                &&& done == st.done
            }),
            n <= count_true(visited@),
            !done ==> n < count_true(visited@),
            visited@.len() == 448,
        decreases 448 - n,
    {
        proof {
            lemma_count_true_le_len(visited@);
        }
        let ghost st = vor_run(init, w, h, n);
        let ghost old_visited = visited@;
        let unvisited = visited.not();
        let mf = grid.ctx.expand_neighbors(my_front).bitand(unvisited);
        let ef = grid.ctx.expand_neighbors(en_front).bitand(unvisited);
        let ties = mf.bitand(ef);
        my_front = mf.bitxor(ties);
        en_front = ef.bitxor(ties);
        let active = my_front.bitor(en_front);
        proof {
            let next = vor_step(st, w, h);
            assert(vor_run(init, w, h, n + 1) == next);
            assert(mf@ =~= Seq::new(448, |i: int| neighbors_of(st.my_front, w, h)[i] && !st.visited[i]));
            assert(ef@ =~= Seq::new(448, |i: int| neighbors_of(st.en_front, w, h)[i] && !st.visited[i]));
            assert(my_front@ =~= next.my_front);
            assert(en_front@ =~= next.en_front);
        }
        if active.is_empty() {
            done = true;
            proof {
                let next = vor_step(st, w, h);
                assert forall|i: int| 0 <= i < 448 implies !next.my_front[i] && !next.en_front[i] by {
                    assert(!active@[i]);
                }
                assert(next.done);
            }
        } else {
            my_territory = my_territory.bitor(my_front);
            en_territory = en_territory.bitor(en_front);
            visited = visited.bitor(active.bitor(ties));
            proof {
                let next = vor_step(st, w, h);
                assert(my_territory@ =~= next.my_terr);
                assert(en_territory@ =~= next.en_terr);
                assert(visited@ =~= next.visited);
                let i = choose|i: int| 0 <= i < 448 && #[trigger] active@[i];
                assert(!(!next.my_front[i] && !next.en_front[i]));
                assert(!next.done);
                assert(visited@[i] && !old_visited[i]);
                lemma_count_true_subset(old_visited, visited@);
            }
        }
        proof {
            n = n + 1;
        }
    }
    proof {
        lemma_count_true_le_len(visited@);
        lemma_vor_run_stable(init, w, h, n, 448);
        lemma_count_true_le_len(my_territory@);
        lemma_count_true_le_len(en_territory@);
    }
    let my_count = my_territory.count_ones();
    let enemy_count = en_territory.count_ones();
    VoronoiResult { my_count: my_count as i32, enemy_count: enemy_count as i32 }
}

} // verus!
