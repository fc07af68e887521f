use vstd::prelude::*;
use crate::config::{RuntimeConfig, PerfStats};
use crate::tt::{TranspositionTable, TtEntry, is_next_pow2, TT_SLOT_BYTES, empty_entry};
use crate::text::{push_dec, push_dec_padded, dec_string, zero_pad, string_from_chars, str_chars, push_signed, signed_string};
use crate::direction::Direction;
use crate::grid::{Grid, xy_in};
use crate::model::{AgentState, SearchBuffers};
use crate::search::{RootChildRecord, SearchContext, SearchFrame, SearchResult, PvLine, negamax, safe_moves, alive,
    position_ready, layers_disjoint, cell_single, body_on_board, point_in, search_outcome, tt_cut, leaf_spec,
    is_root_node, SCORE_MIN, search_valid, SearchConsts, CtxState, SearchTrace, SearchMove, consts_of, ctx_state, dist_view, ctx_kept,
    ctx_ready, records_match, record_matches};
use crate::heuristics::{ScoreWeights, FoodCurve, weights_bounded, leaf_value, eval_spec};
use crate::zobrist::{Zobrist, position_hash};
use crate::types::Point;
use crate::floodfill::{flood_fill, fill_outcome};

verus! {

/// The table size used when no explicit size is configured, by search depth.
pub open spec fn depth_entries_spec(max_depth: usize) -> usize {
    if max_depth <= 4 {
        0x8000
    } else if max_depth <= 8 {
        0x20000
    } else if max_depth <= 12 {
        0x80000
    } else if max_depth <= 20 {
        0x200000
    } else {
        0x400000
    }
}

/// The table size for a search depth: 32k, 128k, 512k, 2M or 4M entries.
pub fn depth_based_tt_entries(max_depth: usize) -> (n: usize)
    ensures
        n == depth_entries_spec(max_depth),
{
    if max_depth <= 4 {
        32768
    } else if max_depth <= 8 {
        131072
    } else if max_depth <= 12 {
        524288
    } else if max_depth <= 20 {
        2097152
    } else {
        4194304
    }
}

/// The table size for a search: the configured size when one is given, else the depth-based one.
pub fn resolve_tt_entries(runtime: &RuntimeConfig, max_depth: usize) -> (n: usize)
    ensures
        runtime.hash_mb == 0 ==> n == depth_entries_spec(max_depth),
        runtime.hash_mb > 0 ==> n > 0 && is_next_pow2(({
            let bytes = if runtime.hash_mb * 1048576 > usize::MAX { usize::MAX as int } else { runtime.hash_mb * 1048576 };
            let e = bytes / TT_SLOT_BYTES as int;
            if e < 1 { 1 } else { e }
        }), n as int),
{
    if runtime.hash_mb > 0 {
        let entries = TranspositionTable::entries_for_hash_mb(runtime.hash_mb);
        if entries > 0 {
            return entries;
        }
    }
    depth_based_tt_entries(max_depth)
}

/// The number of search threads: the configured count, or `available` (the machine's parallelism,
/// 1 when unknown) when the count is 0.
pub fn resolve_thread_count(runtime: &RuntimeConfig, available: usize) -> (n: usize)
    ensures
        n == if runtime.threads > 0 { runtime.threads } else { available },
{
    if runtime.threads > 0 {
        return runtime.threads;
    }
    available
}

/// `"<ms>.<ns>ms"` for a duration in nanoseconds, with six fractional digits.
pub open spec fn duration_text(duration_ns: nat) -> Seq<char> {
    dec_string(duration_ns / 1_000_000) + seq!['.'] + zero_pad(dec_string(duration_ns % 1_000_000), 6) + seq!['m', 's']
}

/// Formats a duration in nanoseconds as milliseconds with six fractional digits.
pub fn format_duration_ns(duration_ns: u128) -> (s: String)
    ensures
        s@ == duration_text(duration_ns as nat),
{
    let whole_ms = duration_ns / 1_000_000;
    let fractional_ns = duration_ns % 1_000_000;
    let mut out: Vec<char> = Vec::new();
    push_dec(&mut out, whole_ms);
    out.push('.');
    push_dec_padded(&mut out, fractional_ns, 6);
    out.push('m');
    out.push('s');
    assert(out@ =~= duration_text(duration_ns as nat));
    string_from_chars(out.as_slice())
}

/// Whether adding `stats` into `total` stays within the counter types.
pub open spec fn stats_fit(total: PerfStats, stats: PerfStats) -> bool {
    &&& total.negamax_calls + stats.negamax_calls <= u64::MAX
    &&& total.eval_calls + stats.eval_calls <= u64::MAX
    &&& total.eval_duration + stats.eval_duration <= u128::MAX
    &&& total.voronoi_calls + stats.voronoi_calls <= u64::MAX
    &&& total.voronoi_duration + stats.voronoi_duration <= u128::MAX
    &&& total.floodfill_calls + stats.floodfill_calls <= u64::MAX
    &&& total.floodfill_duration + stats.floodfill_duration <= u128::MAX
    &&& total.move_gen_calls + stats.move_gen_calls <= u64::MAX
    &&& total.move_gen_duration + stats.move_gen_duration <= u128::MAX
    &&& total.distmap_calls + stats.distmap_calls <= u64::MAX
    &&& total.distmap_duration + stats.distmap_duration <= u128::MAX
}

/// Adds every counter of `stats` into `total`.
pub fn accumulate_perf_stats(total: &mut PerfStats, stats: &PerfStats)
    requires
        stats_fit(*old(total), *stats),
    ensures
        final(total).negamax_calls == old(total).negamax_calls + stats.negamax_calls,
        final(total).eval_calls == old(total).eval_calls + stats.eval_calls,
        final(total).eval_duration == old(total).eval_duration + stats.eval_duration,
        final(total).voronoi_calls == old(total).voronoi_calls + stats.voronoi_calls,
        final(total).voronoi_duration == old(total).voronoi_duration + stats.voronoi_duration,
        final(total).floodfill_calls == old(total).floodfill_calls + stats.floodfill_calls,
        final(total).floodfill_duration == old(total).floodfill_duration + stats.floodfill_duration,
        final(total).move_gen_calls == old(total).move_gen_calls + stats.move_gen_calls,
        final(total).move_gen_duration == old(total).move_gen_duration + stats.move_gen_duration,
        final(total).distmap_calls == old(total).distmap_calls + stats.distmap_calls,
        final(total).distmap_duration == old(total).distmap_duration + stats.distmap_duration,
{
    total.negamax_calls += stats.negamax_calls;
    total.eval_calls += stats.eval_calls;
    total.eval_duration += stats.eval_duration;
    total.voronoi_calls += stats.voronoi_calls;
    total.voronoi_duration += stats.voronoi_duration;
    total.floodfill_calls += stats.floodfill_calls;
    total.floodfill_duration += stats.floodfill_duration;
    total.move_gen_calls += stats.move_gen_calls;
    total.move_gen_duration += stats.move_gen_duration;
    total.distmap_calls += stats.distmap_calls;
    total.distmap_duration += stats.distmap_duration;
}

/// A vector of `n` zeros.
fn zeros(n: usize) -> (v: Vec<i32>)
    ensures
        v@ == Seq::new(n as nat, |i: int| 0i32),
{
    let mut v: Vec<i32> = Vec::new();
    let mut i: usize = 0;
    while i < n
        invariant
            i <= n,
            v@ == Seq::new(i as nat, |k: int| 0i32),
        decreases n - i,
    {
        v.push(0);
        i += 1;
        assert(v@ =~= Seq::new(i as nat, |k: int| 0i32));
    }
    v
}

/// Resets both history tables to `grid_size * 4` zeros.
pub fn reset_worker_state(history: &mut [Vec<i32>; 2], grid_size: usize)
    requires
        grid_size * 4 <= usize::MAX,
    ensures
        final(history)[0]@ == Seq::new((grid_size * 4) as nat, |i: int| 0i32),
        final(history)[1]@ == Seq::new((grid_size * 4) as nat, |i: int| 0i32),
{
    let used_history = grid_size * 4;
    history[0] = zeros(used_history);
    history[1] = zeros(used_history);
}

/// The outcome of one move decision.
#[derive(Debug, Clone)]
pub struct Decision {
    pub best_move: Direction,
    pub score: i32,
    pub log: String,
    pub root_children: Vec<RootChildRecord>,
    pub pv: Vec<Direction>,
    pub search_nodes: u64,
}

/// The one-line log of a decision: the score, `FAILSAFE` when the search produced no root moves,
/// and the time taken.
pub open spec fn decision_log_text(score: int, no_children: bool, elapsed_ns: nat) -> Seq<char> {
    "Score: "@ + signed_string(score) + (if no_children { " | FAILSAFE"@ } else { Seq::empty() }) + " | "@
        + duration_text(elapsed_ns)
}

/// Appends the characters of `s`.
fn push_chars(out: &mut Vec<char>, s: &Vec<char>)
    ensures
        final(out)@ == old(out)@ + s@,
{
    let mut k: usize = 0;
    while k < s.len()
        invariant
            k <= s@.len(),
            out@ == old(out)@ + s@.subrange(0, k as int),
        decreases s@.len() - k,
    {
        out.push(s[k]);
        k += 1;
        assert(out@ =~= old(out)@ + s@.subrange(0, k as int));
    }
    assert(s@.subrange(0, k as int) =~= s@);
}

/// The one-line log of a decision.
pub fn decision_log(score: i32, no_children: bool, elapsed_ns: u128) -> (s: String)
    ensures
        s@ == decision_log_text(score as int, no_children, elapsed_ns as nat),
{
    let mut out = str_chars("Score: ");
    push_signed(&mut out, score as i64);
    if no_children {
        push_chars(&mut out, &str_chars(" | FAILSAFE"));
    }
    push_chars(&mut out, &str_chars(" | "));
    let d = format_duration_ns(elapsed_ns);
    push_chars(&mut out, &str_chars(d.as_str()));
    assert(out@ =~= decision_log_text(score as int, no_children, elapsed_ns as nat));
    string_from_chars(out.as_slice())
}

/// The cell one step from `(x, y)` in direction `d`.
pub open spec fn step_from(x: int, y: int, d: Direction) -> (int, int) {
    match d {
        Direction::Up => (x, y + 1),
        Direction::Down => (x, y - 1),
        Direction::Left => (x - 1, y),
        Direction::Right => (x + 1, y),
    }
}

/// The free space behind a move: the cells a fill of up to 100 layers reaches from the target
/// cell, or `None` when the target is off the board or holds a body segment.
pub open spec fn escape_room(g: Grid, me: AgentState, d: Direction) -> Option<int> {
    let h = me.body@[0];
    let (x, y) = step_from(h.x as int, h.y as int, d);
    if xy_in(g.width as int, g.height as int, x, y) && !g.my_body@[g.index_of(x, y)] && !g.enemy_body@[g.index_of(x, y)] {
        Some(fill_outcome(g.model(), x, y, 100, me.body@, Seq::empty()).count)
    } else {
        None
    }
}

/// Whether `a` is strictly roomier than `b`.
pub open spec fn roomier(a: Option<int>, b: Option<int>) -> bool {
    match (a, b) {
        (Some(x), Some(y)) => x > y,
        (Some(x), None) => true,
        _ => false,
    }
}

/// The move when the search gives none: among the safe moves, the one with the most free space
/// behind it, the earliest of `Up`, `Down`, `Left`, `Right` on ties; `Up` when there is none.
pub open spec fn fallback_spec(g: Grid, me: AgentState) -> Direction {
    if me.body@.len() == 0 {
        Direction::Up
    } else {
        let u = escape_room(g, me, Direction::Up);
        let d = escape_room(g, me, Direction::Down);
        let l = escape_room(g, me, Direction::Left);
        let r = escape_room(g, me, Direction::Right);
        let (b1, m1) = if roomier(d, u) { (Direction::Down, d) } else { (Direction::Up, u) };
        let (b2, m2) = if roomier(l, m1) { (Direction::Left, l) } else { (b1, m1) };
        let (b3, m3) = if roomier(r, m2) { (Direction::Right, r) } else { (b2, m2) };
        b3
    }
}

/// Where a direction stands in the order `Up`, `Down`, `Left`, `Right`.
pub open spec fn dir_rank(d: Direction) -> int {
    match d {
        Direction::Up => 0,
        Direction::Down => 1,
        Direction::Left => 2,
        Direction::Right => 3,
    }
}

/// The fallback move goes to the roomiest free neighbour: when some neighbour of the head is free,
/// the fallback's target is free and has at least as much room behind it as every free neighbour,
/// and strictly more than every free neighbour earlier in the order `Up`, `Down`, `Left`, `Right`.
pub proof fn lemma_fallback_is_roomiest(g: Grid, me: AgentState)
    requires
        me.body@.len() > 0,
    ensures
        ({
            let f = fallback_spec(g, me);
            &&& (exists|d: Direction| #[trigger] escape_room(g, me, d) is Some) ==> escape_room(g, me, f) is Some
            &&& forall|d: Direction| #[trigger] escape_room(g, me, d) is Some ==> {
                &&& escape_room(g, me, f) is Some
                &&& escape_room(g, me, f)->Some_0 >= escape_room(g, me, d)->Some_0
                &&& dir_rank(d) < dir_rank(f) ==> escape_room(g, me, f)->Some_0 > escape_room(g, me, d)->Some_0
            }
        }),
{
    let f = fallback_spec(g, me);
    assert forall|d: Direction| #[trigger] escape_room(g, me, d) is Some implies escape_room(g, me, f) is Some by {
        match d {
            Direction::Up => {},
            Direction::Down => {},
            Direction::Left => {},
            Direction::Right => {},
        }
    }
    assert forall|d: Direction| #[trigger] escape_room(g, me, d) is Some implies {
        &&& escape_room(g, me, f) is Some
        &&& escape_room(g, me, f)->Some_0 >= escape_room(g, me, d)->Some_0
        &&& dir_rank(d) < dir_rank(f) ==> escape_room(g, me, f)->Some_0 > escape_room(g, me, d)->Some_0
    } by {
        match d {
            Direction::Up => {},
            Direction::Down => {},
            Direction::Left => {},
            Direction::Right => {},
        }
    }
}

/// The free space behind one move.
fn room_for(grid: &Grid, me: &AgentState, x: i32, y: i32, buffers: &mut SearchBuffers) -> (r: Option<i32>)
    requires
        grid.wf(),
        me.body.wf(),
    ensures
        *final(buffers) == *old(buffers),
        r matches Some(c) ==> c as int == fill_outcome(grid.model(), x as int, y as int, 100, me.body@, Seq::empty()).count,
        r is Some <==> (xy_in(grid.width as int, grid.height as int, x as int, y as int)
            && !grid.my_body@[grid.index_of(x as int, y as int)] && !grid.enemy_body@[grid.index_of(x as int, y as int)]),
{
    if grid.is_safe(x, y) {
        let ff = flood_fill(grid, x, y, 100, Some(&me.body), None, buffers);
        Some(ff.count)
    } else {
        None
    }
}

/// The move to make when the search returns none (see `fallback_spec`).
pub fn fallback_move(grid: &Grid, me: &AgentState, buffers: &mut SearchBuffers) -> (d: Direction)
    requires
        grid.wf(),
        me.body.wf(),
        me.body@.len() > 0 ==> i32::MIN < me.body@[0].x < i32::MAX && i32::MIN < me.body@[0].y < i32::MAX,
    ensures
        *final(buffers) == *old(buffers),
        d == fallback_spec(*grid, *me),
{
    if me.body.is_empty() {
        return Direction::Up;
    }
    let head = me.body.head();
    let u = room_for(grid, me, head.x, head.y + 1, buffers);
    let dn = room_for(grid, me, head.x, head.y - 1, buffers);
    let l = room_for(grid, me, head.x - 1, head.y, buffers);
    let r = room_for(grid, me, head.x + 1, head.y, buffers);
    let ghost gu = escape_room(*grid, *me, Direction::Up);
    let ghost gd = escape_room(*grid, *me, Direction::Down);
    let ghost gl = escape_room(*grid, *me, Direction::Left);
    let ghost gr = escape_room(*grid, *me, Direction::Right);
    assert(gu == match u { Some(c) => Some(c as int), None => None::<int> });
    assert(gd == match dn { Some(c) => Some(c as int), None => None::<int> });
    assert(gl == match l { Some(c) => Some(c as int), None => None::<int> });
    assert(gr == match r { Some(c) => Some(c as int), None => None::<int> });
    let mut best = Direction::Up;
    let mut best_room = u;
    if better_room(dn, best_room) {
        best = Direction::Down;
        best_room = dn;
    }
    if better_room(l, best_room) {
        best = Direction::Left;
        best_room = l;
    }
    if better_room(r, best_room) {
        best = Direction::Right;
        best_room = r;
    }
    best
}

/// Whether `a` is strictly roomier than `b`.
fn better_room(a: Option<i32>, b: Option<i32>) -> (r: bool)
    ensures
        r == roomier(
            match a { Some(c) => Some(c as int), None => None::<int> },
            match b { Some(c) => Some(c as int), None => None::<int> },
        ),
{
    match (a, b) {
        (Some(x), Some(y)) => x > y,
        (Some(_), None) => true,
        _ => false,
    }
}


/// What the search needs besides the position: its depth, the occupancy percentage from which
/// two long snakes are in a crowded race, the evaluation weights and the table sizing.
#[derive(Debug, Clone, Copy)]
pub struct SearchSettings {
    pub max_depth: usize,
    pub dense_tail_race_occupancy: usize,
    pub weights: ScoreWeights,
    pub runtime: RuntimeConfig,
}

/// Settings and a food curve a search can use.
pub open spec fn settings_ok(s: SearchSettings, curve: FoodCurve) -> bool {
    &&& weights_bounded(s.weights)
    &&& s.dense_tail_race_occupancy <= 1_000_000
    &&& curve.wf()
    &&& 100 <= curve.spec_max_health()
}

/// A position the search can run on: see `position_ready`, plus room in both bodies for every
/// ply (and extension) of the search.
pub open spec fn searchable(g: Grid, me: AgentState, en: AgentState, s: SearchSettings, curve: FoodCurve) -> bool {
    &&& position_ready(g, me, en, curve)
    &&& settings_ok(s, curve)
    &&& me.body@.len() + s.max_depth + 8 < 512
    &&& en.body@.len() + s.max_depth + 8 < 512
}

/// Whether no cell of the grid holds two layers.
fn grid_layers_disjoint(grid: &Grid) -> (r: bool)
    ensures
        r == layers_disjoint(grid.model()),
{
    let mut i: usize = 0;
    while i < 448
        invariant
            i <= 448,
            forall|k: int| 0 <= k < i ==> #[trigger] cell_single(grid.model(), k),
        decreases 448 - i,
    {
        let f = grid.food.get(i);
        let m = grid.my_body.get(i);
        let t = grid.enemy_body.get(i);
        if (f && m) || (f && t) || (m && t) {
            proof {
                assert(!cell_single(grid.model(), i as int));
            }
            return false;
        }
        i += 1;
    }
    true
}

/// Whether every segment of `body` lies on a `w` by `h` board.
fn body_within(body: &crate::model::FastBody, w: i32, h: i32) -> (r: bool)
    requires
        body.wf(),
    ensures
        r == body_on_board(body@, w as int, h as int),
{
    let segs = body.iter();
    let n = segs.len();
    let mut k: usize = 0;
    while k < n
        invariant
            segs@ == body@,
            n == body@.len(),
            k <= n,
            forall|j: int| 0 <= j < k ==> point_in(w as int, h as int, #[trigger] body@[j]),
        decreases n - k,
    {
        let p = segs[k];
        if p.x < 0 || p.y < 0 || p.x >= w || p.y >= h {
            proof {
                assert(!point_in(w as int, h as int, body@[k as int]));
            }
            return false;
        }
        k += 1;
    }
    true
}

/// Whether the search can run on this position with these settings (see `searchable`).
pub fn position_searchable(grid: &Grid, me: &AgentState, enemy: &AgentState, settings: &SearchSettings, curve: &FoodCurve) -> (r: bool)
    requires
        grid.wf(),
        me.body.wf(),
        enemy.body.wf(),
        curve.wf(),
    ensures
        r == searchable(*grid, *me, *enemy, *settings, *curve),
{
    let mh = curve.max_health();
    crate::heuristics::weights_in_bounds(&settings.weights)
        && settings.dense_tail_race_occupancy <= 1_000_000
        && 100 <= mh
        && me.health <= mh
        && enemy.health <= mh
        && settings.max_depth < 504
        && me.body.len() + settings.max_depth + 8 < 512
        && enemy.body.len() + settings.max_depth + 8 < 512
        && grid_layers_disjoint(grid)
        && body_within(&me.body, grid.width, grid.height)
        && body_within(&enemy.body, grid.width, grid.height)
}

/// The result of searching a position, before the time it took is known.
#[derive(Debug, Clone)]
pub struct SearchReport {
    pub best_move: Direction,
    pub score: i32,
    pub root_children: Vec<RootChildRecord>,
    pub pv: Vec<Direction>,
    pub search_nodes: u64,
}

/// The moves of a line.
fn line_moves(pv: &PvLine) -> (v: Vec<Direction>)
    requires
        pv.len <= 64,
    ensures
        v@ == pv.line(),
{
    let mut v: Vec<Direction> = Vec::new();
    let mut i: usize = 0;
    while i < pv.len
        invariant
            pv.len <= 64,
            i <= pv.len,
            v@ == pv.moves@.subrange(0, i as int),
        decreases pv.len - i,
    {
        v.push(pv.moves[i]);
        i += 1;
        assert(v@ =~= pv.moves@.subrange(0, i as int));
    }
    v
}

/// What the search reports of a position: the score of a dead side's loss or the other's win
/// (shifted by the depth), of a loss when no move is safe, or of the leaf at depth 0; a move that
/// is safe when both play, the depth is positive and a safe move exists, and the fallback move
/// (see `fallback_spec`) otherwise. When it searches, the line starts with the reported move and
/// the root's records hold the searched moves: every adjusted score is at most the reported score,
/// the reported move is a record whose adjusted score is the reported score (or the first record,
/// when all fell below `SCORE_MIN`), and moves are left untried only when the score reached the
/// top of the window; otherwise there are no records and no line.
pub open spec fn report_outcome(g: Grid, me: AgentState, en: AgentState, s: SearchSettings, curve: FoodCurve, r: SearchReport) -> bool {
    let depth = s.max_depth as int;
    let moves = safe_moves(g, me.body@, en.body@);
    let searching = alive(me) && alive(en) && depth > 0 && moves.len() > 0;
    &&& searching ==> exists|k: int| 0 <= k < moves.len() && #[trigger] moves[k].dir == r.best_move
    &&& !searching ==> r.best_move == fallback_spec(g, me)
    &&& !alive(me) ==> r.score == s.weights.loss - depth
    &&& alive(me) && !alive(en) ==> r.score == s.weights.win + depth
    &&& alive(me) && alive(en) && depth > 0 && moves.len() == 0 ==> r.score == s.weights.loss - depth
    &&& alive(me) && alive(en) && depth == 0 ==> r.score == leaf_value(
        eval_spec(g.model(), me, en, None, s.weights, s.dense_tail_race_occupancy as int), me.health as int, curve)
    &&& !searching ==> r.root_children@.len() == 0 && r.pv@.len() == 0
    &&& searching ==> {
        let ch = r.root_children@;
        &&& r.pv@.len() >= 1 && r.pv@[0] == r.best_move
        &&& 0 < ch.len() <= moves.len()
        &&& r.score >= SCORE_MIN
        &&& forall|k: int| 0 <= k < ch.len() ==> moves.contains((#[trigger] ch[k]).mv) && ch[k].modified_score <= r.score
        &&& exists|k: int| 0 <= k < ch.len() && (#[trigger] ch[k]).mv.dir == r.best_move
            && (ch[k].modified_score == r.score || (k == 0 && r.score == SCORE_MIN))
        &&& ch.len() < moves.len() ==> r.score >= 2_000_000_000
    }
}

/// The table's slots after `prepare_for_search` (see there): kept, with new slots empty, unless
/// the generation wrapped and every slot was cleared.
pub open spec fn prepared_slot(old_slots: Seq<TtEntry>, old_gen: u16, i: int) -> TtEntry {
    if old_gen == u16::MAX { empty_entry() } else if i < old_slots.len() { old_slots[i] } else { empty_entry() }
}

/// The constants a root search of `settings` runs with, on a table of `capacity` slots at
/// `generation`.
pub open spec fn root_consts(settings: SearchSettings, curve: FoodCurve, capacity: int, generation: u16, thread_id: usize) -> SearchConsts {
    SearchConsts {
        root_depth: settings.max_depth as int,
        weights: settings.weights,
        occupancy: settings.dense_tail_race_occupancy as int,
        curve,
        capacity,
        generation,
        thread_id: thread_id as int,
    }
}

/// The root search value of a position (see `search_valid`): the search from the table that
/// `prepare_for_search` leaves (see `prepared_slot`), zeroed history counters and no node counted,
/// to `settings.max_depth` plies within the window `(-2 000 000 000, 2 000 000 000)` for side 0 from
/// the position's hash, gives `score` and leaves the table's slots as `slots_after` after `nodes`
/// nodes; the move it returns, when it returns one, goes in direction `best`; and the root's
/// records `children` are those of the moves it tried, each with the score of its last child
/// search (see `record_matches`).
#[verifier::opaque]
pub open spec fn root_value(g: Grid, me: AgentState, en: AgentState, settings: SearchSettings, k: SearchConsts,
    old_slots: Seq<TtEntry>, old_gen: u16, slots_after: Seq<TtEntry>, nodes: u64, score: int, best: Direction,
    searched: bool, children: Seq<RootChildRecord>) -> bool {
    exists|s_in: CtxState, s_out: CtxState, mv: Option<SearchMove>, t: SearchTrace| {
        &&& s_in.slots.len() == slots_after.len()
        &&& forall|i: int| 0 <= i < s_in.slots.len() ==> #[trigger] s_in.slots[i] == prepared_slot(old_slots, old_gen, i)
        &&& s_in.hist0 == Seq::new((g.width * g.height * 4) as nat, |i: int| 0i32)
        &&& s_in.hist1 == Seq::new((g.width * g.height * 4) as nat, |i: int| 0i32)
        &&& s_in.nodes == 0
        &&& s_out.slots == slots_after
        &&& s_out.nodes == nodes
        &&& #[trigger] search_valid(g, me, en, settings.max_depth as int, -2_000_000_000, 2_000_000_000, 0,
            position_hash(g, me.health, en.health), 0, None, k, s_in, s_out, score, mv, t)
        &&& (mv matches Some(m) ==> best == m.dir)
        &&& (mv is Some <==> searched)
        &&& (t matches SearchTrace::Searched(moves, calls) ==> {
            &&& children.len() == calls.len()
            &&& calls.len() <= moves.len()
            &&& forall|i: int| 0 <= i < calls.len() ==> record_matches(#[trigger] children[i], g, me, en, k, moves[i], calls[i])
        })
    }
}

/// The root search's value, carried from `negamax`'s contract to the report.
#[verifier::rlimit(60)]
proof fn lemma_root_value(g: Grid, me: AgentState, en: AgentState, settings: SearchSettings, curve: FoodCurve, thread_id: usize,
    hash: u64, frame: SearchFrame, c0: SearchContext, c1: SearchContext, tt_after: TranspositionTable, old_slots: Seq<TtEntry>,
    old_gen: u16, score: int, mv: Option<SearchMove>, t: SearchTrace, nodes: u64, best: Direction, res: SearchResult)
    requires
        res.trace@ == t,
        records_match(res, g, me, en, consts_of(c0)),
        hash == position_hash(g, me.health, en.health),
        frame.dist_map is None,
        frame.depth == settings.max_depth,
        frame.alpha == -2_000_000_000i32,
        frame.beta == 2_000_000_000i32,
        frame.side == 0,
        frame.current_hash == hash,
        frame.q_depth == 0,
        c0.root_depth == settings.max_depth,
        c0.weights == settings.weights,
        c0.dense_tail_race_occupancy == settings.dense_tail_race_occupancy,
        *c0.curve == curve,
        c0.thread_id == thread_id,
        c0.history_table[0]@ == Seq::new((g.width * g.height * 4) as nat, |i: int| 0i32),
        c0.history_table[1]@ == Seq::new((g.width * g.height * 4) as nat, |i: int| 0i32),
        c0.nodes == 0,
        c0.tt.slots().len() == tt_after.slots().len(),
        forall|i: int| 0 <= i < c0.tt.slots().len() ==> #[trigger] c0.tt.slots()[i] == prepared_slot(old_slots, old_gen, i),
        ctx_kept(c0, c1),
        tt_after == c1.tt,
        c1.nodes == nodes,
        search_valid(g, me, en, frame.depth as int, frame.alpha as int, frame.beta as int, frame.side as int, frame.current_hash,
            frame.q_depth as int, dist_view(frame.dist_map), consts_of(c0), ctx_state(c0), ctx_state(c1), score, mv, t),
        mv matches Some(m) ==> best == m.dir,
    ensures
        root_value(g, me, en, settings, root_consts(settings, curve, tt_after.capacity(), tt_after.spec_generation(), thread_id),
            old_slots, old_gen, tt_after.slots(), nodes, score, best, mv is Some, res.children@),
{
    reveal(root_value);
    assert(consts_of(c0) == root_consts(settings, curve, tt_after.capacity(), tt_after.spec_generation(), thread_id));
    let s_in = ctx_state(c0);
    assert(search_valid(g, me, en, settings.max_depth as int, -2_000_000_000, 2_000_000_000, 0,
        position_hash(g, me.health, en.health), 0, None, root_consts(settings, curve, tt_after.capacity(), tt_after.spec_generation(), thread_id),
        s_in, ctx_state(c1), score, mv, t));
}

/// The context of a root search of `grid` for `me` against `enemy` under `settings` as thread
/// `thread_id`: the table taken from `tt` after `prepare_for_search` (sized by `resolve_tt_entries`;
/// `tt` is left holding a one-slot table), zeroed history counters, keys for the board, no nodes
/// counted; and the position's hash.
#[verifier::rlimit(40)]
fn root_context<'a>(grid: &Grid, me: &AgentState, enemy: &AgentState, settings: &SearchSettings,
    tt: &mut TranspositionTable, curve: &'a FoodCurve, thread_id: usize) -> (r: (SearchContext<'a>, u64))
    requires
        searchable(*grid, *me, *enemy, *settings, *curve),
        old(tt).wf(),
    ensures
        r.1 == position_hash(*grid, me.health, enemy.health),
        ctx_ready(r.0, *grid),
        r.0.root_depth == settings.max_depth,
        r.0.weights == settings.weights,
        r.0.dense_tail_race_occupancy == settings.dense_tail_race_occupancy,
        r.0.curve == curve,
        r.0.thread_id == thread_id,
        r.0.nodes == 0,
        r.0.history_table[0]@ == Seq::new((grid.width * grid.height * 4) as nat, |i: int| 0i32),
        r.0.history_table[1]@ == Seq::new((grid.width * grid.height * 4) as nat, |i: int| 0i32),
        forall|i: int| 0 <= i < r.0.tt.slots().len() ==> #[trigger] r.0.tt.slots()[i] == prepared_slot(old(tt).slots(), old(tt).spec_generation(), i),
        r.0.tt.spec_generation() == if old(tt).spec_generation() == u16::MAX { 1 } else { old(tt).spec_generation() + 1 },
        final(tt).wf(),
{
    let cols = grid.width;
    let rows = grid.height;
    proof {
        assert(0 <= cols * rows <= 448);
    }
    let grid_size = (cols * rows) as usize;
    let zobrist = Zobrist::new(cols, rows);
    let initial_hash = zobrist.compute_hash(grid, me.health, enemy.health);
    let tt_size = resolve_tt_entries(&settings.runtime, settings.max_depth);
    proof {
        if settings.runtime.hash_mb > 0 {
            let bytes = if settings.runtime.hash_mb * 1048576 > usize::MAX { usize::MAX as int } else { settings.runtime.hash_mb * 1048576 };
            let e = bytes / TT_SLOT_BYTES as int;
            assert(e <= usize::MAX / 32);
            let e1 = if e < 1 { 1 } else { e };
            assert(tt_size == 1 || tt_size / 2 < e1);
            assert(tt_size <= usize::MAX / 2 + 1);
        }
    }
    tt.prepare_for_search(tt_size);
    let ghost gen = tt.spec_generation();
    let mut history: [Vec<i32>; 2] = [Vec::new(), Vec::new()];
    reset_worker_state(&mut history, grid_size);
    let mut table = TranspositionTable::new(1);
    std::mem::swap(&mut table, tt);
    let mut ctx = SearchContext {
        root_depth: settings.max_depth,
        history_table: history,
        weights: settings.weights,
        dense_tail_race_occupancy: settings.dense_tail_race_occupancy,
        curve,
        tt: table,
        zobrist,
        buffers: SearchBuffers::new(grid_size),
        thread_id,
        nodes: 0,
    };
    proof {
        assert(grid_size * 4 == grid.width * grid.height * 4);
    }
    (ctx, initial_hash)
}

/// Searches `grid` for `me` against `enemy` to `settings.max_depth` plies (see `negamax`) as search
/// thread `thread_id`: the table is sized for the search (see `resolve_tt_entries`) and starts a new
/// generation, the history counters start at zero, and the root's move (or the fallback move when
/// the search found none) is reported with its score, root children, line and node count. The
/// grid and both sides are left as they were.
#[verifier::rlimit(40)]
pub fn search_grid(grid: &mut Grid, me: &mut AgentState, enemy: &mut AgentState, settings: &SearchSettings,
    tt: &mut TranspositionTable, curve: &FoodCurve, thread_id: usize) -> (r: SearchReport)
    requires
        searchable(*old(grid), *old(me), *old(enemy), *settings, *curve),
        old(tt).wf(),
    ensures
        final(grid).wf(),
        final(grid).model() == old(grid).model(),
        final(grid).width == old(grid).width && final(grid).height == old(grid).height,
        final(me).body@ == old(me).body@ && final(me).health == old(me).health && final(me).body.wf(),
        final(enemy).body@ == old(enemy).body@ && final(enemy).health == old(enemy).health && final(enemy).body.wf(),
        final(tt).wf(),
        final(tt).spec_generation() == if old(tt).spec_generation() == u16::MAX { 1 } else { old(tt).spec_generation() + 1 },
        r.pv@.len() <= 64,
        r.root_children@.len() <= 4,
        report_outcome(*old(grid), *old(me), *old(enemy), *settings, *curve, r),
        root_value(*old(grid), *old(me), *old(enemy), *settings,
            root_consts(*settings, *curve, final(tt).capacity(), final(tt).spec_generation(), thread_id),
            old(tt).slots(), old(tt).spec_generation(), final(tt).slots(), r.search_nodes, r.score as int, r.best_move,
            r.root_children@.len() > 0, r.root_children@),
{
    let ghost grid0 = *grid;
    let ghost tt_old = *tt;
    let (mut ctx, initial_hash) = root_context(grid, me, enemy, settings, tt, curve, thread_id);
    let ghost ctx0 = ctx;
    let frame = SearchFrame {
        dist_map: None,
        depth: settings.max_depth,
        alpha: -2_000_000_000,
        beta: 2_000_000_000,
        side: 0,
        current_hash: initial_hash,
        q_depth: 0,
    };
    let result = negamax(grid, me, enemy, frame, &mut ctx);
    let ghost ctx_end = ctx;
    std::mem::swap(tt, &mut ctx.tt);
    proof {
        assert(tt_cut(ctx0, initial_hash, settings.max_depth, frame.alpha, frame.beta) is None);
        assert(search_outcome(grid0, *old(me), *old(enemy), frame, ctx0, result));
    }
    let selected = match result.mv {
        Some(m) => m.dir,
        None => {
            proof {
                if me.body@.len() > 0 {
                    assert(point_in(grid0.width as int, grid0.height as int, me.body@[0]));
                }
            }
            fallback_move(grid, me, &mut ctx.buffers)
        },
    };
    let pv = line_moves(&result.pv);
    proof {
        if let Some(m) = result.mv {
            let moves = safe_moves(grid0, old(me).body@, old(enemy).body@);
            let k = choose|k: int| 0 <= k < moves.len() && moves[k] == m;
            assert(moves[k].dir == selected);
            assert(is_root_node(frame, ctx0));
            let ch = result.children@;
            let k0 = choose|k: int| 0 <= k < ch.len() && (#[trigger] ch[k]).mv == m
                && (ch[k].modified_score == result.score || (k == 0 && result.score == SCORE_MIN));
            assert(ch[k0].mv.dir == selected);
        }
    }
    let r = SearchReport { best_move: selected, score: result.score, root_children: result.children, pv, search_nodes: ctx.nodes };
    proof {
        assert(result.mv is Some <==> r.root_children@.len() > 0);
        lemma_root_value(grid0, *old(me), *old(enemy), *settings, *curve, thread_id, initial_hash, frame, ctx0, ctx_end, *tt,
            tt_old.slots(), tt_old.spec_generation(), r.score as int, result.mv, result.trace@, r.search_nodes, r.best_move, result);
    }
    r
}

} // verus!
