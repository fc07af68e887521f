use vstd::prelude::*;
use crate::types::Point;
use crate::grid::{Grid, GridModel, xy_in, set_model, cell_model, EMPTY};
use crate::model::{AgentState, FastBody, SearchBuffers};
use crate::floodfill::{flood_fill, fill_outcome};
use crate::voronoi::{compute_voronoi, voronoi_outcome};
use crate::bitboard::{BitBoard, count_true};

verus! {

/// The integer weights of the evaluation (the food-urgency curve is kept apart).
#[derive(Debug, Clone, Copy, PartialEq, Eq, Structural)]
pub struct ScoreWeights {
    pub win: i32,
    pub loss: i32,
    pub draw: i32,
    pub trap_danger: i32,
    pub strategic_squeeze: i32,
    pub enemy_trapped: i32,
    pub head_on_collision: i32,
    pub tight_spot: i32,
    pub length: i32,
    pub eat_reward: i32,
    pub territory_control: i32,
    pub kill_pressure: i32,
    pub aggression: i32,
}

impl Default for ScoreWeights {
    fn default() -> (w: Self)
        ensures
            w.win == 1_000_000_000 && w.loss == -1_000_000_000 && w.draw == -100_000_000,
            w.trap_danger == -413_704_270 && w.strategic_squeeze == -18_960_904 && w.enemy_trapped == 320_798_923,
            w.head_on_collision == -140_956_186 && w.tight_spot == -76_753 && w.length == 1_000,
            w.eat_reward == 2_000 && w.territory_control == 3_265 && w.kill_pressure == 66_319 && w.aggression == 7_596,
    {
        ScoreWeights {
            win: 1_000_000_000,
            loss: -1_000_000_000,
            draw: -100_000_000,
            trap_danger: -413_704_270,
            strategic_squeeze: -18_960_904,
            enemy_trapped: 320_798_923,
            head_on_collision: -140_956_186,
            tight_spot: -76_753,
            length: 1_000,
            eat_reward: 2_000,
            territory_control: 3_265,
            kill_pressure: 66_319,
            aggression: 7_596,
        }
    }
}

/// The integer part of a position's evaluation from the searching side's point of view.
#[derive(Debug, Clone, Copy, PartialEq, Eq, Structural)]
pub enum Evaluation {
    /// A final score: a side without health or body, or food out of reach.
    Decided(i32),
    /// The score before the food-urgency term, the distance to the nearest food when the board
    /// has food, and the aggression penalty subtracted after the food term.
    Scored { base: i32, food_distance: Option<i32>, aggression_penalty: i32 },
}

/// The evaluation as a model; `Overflow` stands for positions whose arithmetic leaves `i32`.
pub ghost enum EvalModel {
    Overflow,
    Decided(int),
    Scored(int, Option<int>, int),
}

/// The model of an evaluation.
pub open spec fn eval_model(e: Evaluation) -> EvalModel {
    match e {
        Evaluation::Decided(v) => EvalModel::Decided(v as int),
        Evaluation::Scored { base, food_distance, aggression_penalty } => EvalModel::Scored(
            base as int,
            match food_distance { Some(d) => Some(d as int), None => None },
            aggression_penalty as int,
        ),
    }
}

/// Whether `v` fits in `i32`.
pub open spec fn fits(v: int) -> bool {
    i32::MIN <= v <= i32::MAX
}

/// The absolute value.
pub open spec fn abs_int(v: int) -> int {
    if v < 0 { -v } else { v }
}

/// Division rounding toward zero, as `i32` division does.
pub open spec fn div_trunc(a: int, b: int) -> int {
    if a >= 0 { a / b } else { -((-a) / b) }
}

/// `a + b`, capped at `i32::MAX`.
pub open spec fn sat_add(a: int, b: int) -> int {
    if a + b > i32::MAX { i32::MAX as int } else { a + b }
}

/// The penalty for the head `h` being pinned against an edge by the other head `o`: for each edge
/// the head touches, `base * (8 - (d + off))` when the other head is within 3 of that edge (`d`)
/// and within 4 along it (`off`). `None` when the arithmetic overflows.
pub open spec fn pin_spec(h: Point, o: Point, w: int, hh: int, base: int) -> Option<int> {
    let dx = abs_int(h.x - o.x);
    let dy = abs_int(h.y - o.y);
    let a = if h.x == 0 || h.x == w - 1 {
        let ex = if h.x == 0 { o.x as int } else { w - 1 - o.x };
        if ex <= 3 && dy <= 4 { base * (8 - (ex + dy)) } else { 0 }
    } else {
        0
    };
    let b = if h.y == 0 || h.y == hh - 1 {
        let ey = if h.y == 0 { o.y as int } else { hh - 1 - o.y };
        if ey <= 3 && dx <= 4 { base * (8 - (ey + dx)) } else { 0 }
    } else {
        0
    };
    if fits(a) && fits(b) && fits(a + b) { Some(a + b) } else { None }
}

/// The score after the trap check of one side: `count`, `min_turns` and `has_food` come from a
/// flood fill from its head; `mine` tells whether the side is the searching one (its terms are
/// added) or the opponent (its terms are subtracted, its trap weight `trap_w` added).
/// Returns whether the side is trapped and the new score, or `None` on overflow.
pub open spec fn trap_spec(
    score: int, count: int, min_turns: int, has_food: bool, len: int, head: Point, tail: Point,
    trap_w: int, tc: int, squeeze: int, dense: bool, mine: bool,
) -> Option<(bool, int)> {
    let food_mod: int = if has_food { 1 } else { 0 };
    let esc = sat_add(min_turns, food_mod);
    let future = len + food_mod;
    if count < future && count < esc {
        let t = if dense { div_trunc(trap_w, 1000) } else { trap_w };
        if fits(score + t) { Some((true, score + t)) } else { None }
    } else if count >= future {
        let d = abs_int(head.x - tail.x) + abs_int(head.y - tail.y);
        let x = if d <= 2 || esc <= 2 { tc * 5 } else { squeeze };
        let r = if mine { score + x } else { score - x };
        if fits(tc * 5) && fits(r) { Some((false, r)) } else { None }
    } else {
        let p = esc * tc;
        let r = if mine { score - p * 2 } else { score + p * 2 };
        if fits(p) && fits(p * 2) && fits(r) { Some((false, r)) } else { None }
    }
}

/// The distance from `h` to the nearest food cell of a `w`-wide board among the first `k` cells,
/// starting from 9999.
pub open spec fn nearest_food(food: Seq<bool>, w: int, h: Point, k: nat) -> int
    decreases k,
{
    if k == 0 {
        9999
    } else {
        let m = nearest_food(food, w, h, (k - 1) as nat);
        let i = k - 1;
        if food[i] {
            let d = abs_int(h.x - i % w) + abs_int(h.y - i / w);
            if d < m { d } else { m }
        } else {
            m
        }
    }
}

/// The grid the evaluation searches: the searching snake's tail cell cleared when it is hungry
/// (health below 100) and will move away, and restored afterwards.
pub open spec fn tail_cleared(g: GridModel, me: AgentState) -> GridModel {
    let t = me.body@.last();
    if me.health < 100 { set_model(g, t.x as int, t.y as int, EMPTY) } else { g }
}

/// The grid after the evaluation: the tail cell rewritten with the code it had.
pub open spec fn tail_restored(g: GridModel, me: AgentState) -> GridModel {
    let t = me.body@.last();
    if me.health < 100 {
        set_model(set_model(g, t.x as int, t.y as int, EMPTY), t.x as int, t.y as int, cell_model(g, t.x as int, t.y as int))
    } else {
        g
    }
}

/// The opening terms: length, then the edge pins of both heads when `me` has more than 15 health.
/// `None` when the arithmetic overflows.
pub open spec fn opening_spec(me: AgentState, en: AgentState, w: int, h: int, cfg: ScoreWeights) -> Option<int> {
    let ml = me.body@.len() as int;
    let mh = me.body@[0];
    let eh = en.body@[0];
    let tc = cfg.territory_control as int;
    let s1 = ml * cfg.length;
    let base = abs_int(tc) * 100;
    if !fits(s1) {
        None
    } else if me.health > 15 {
        match (pin_spec(mh, eh, w, h, base), pin_spec(eh, mh, w, h, base)) {
            (Some(a), Some(b)) => if fits(abs_int(tc)) && fits(base) && fits(s1 - a) && fits(s1 - a + b) {
                Some(s1 - a + b)
            } else {
                None
            },
            _ => None,
        }
    } else {
        Some(s1)
    }
}

/// The trap terms of both sides after the territory term: `me`'s trap check when its territory
/// is smaller than its length (else the tight-spot term when its territory is under a fifth of
/// the board), then the opponent's when `me` is not trapped and the opponent's territory is
/// smaller than its length. `None` when the arithmetic overflows.
pub open spec fn traps_spec(g2: GridModel, me: AgentState, en: AgentState, s4: int, myc: int, enc: int,
    cfg: ScoreWeights, dense: bool) -> Option<int>
{
    let ml = me.body@.len() as int;
    let el = en.body@.len() as int;
    let mh = me.body@[0];
    let eh = en.body@[0];
    let tc = cfg.territory_control as int;
    let mine_ff = fill_outcome(g2, mh.x as int, mh.y as int, ml + 2, me.body@, en.body@);
    let mine_trap: Option<(bool, int)> = if myc < ml {
        trap_spec(s4, mine_ff.count, mine_ff.min_turns, mine_ff.has_food, ml, mh, me.body@.last(),
            cfg.trap_danger as int, tc, cfg.strategic_squeeze as int, dense, true)
    } else if myc * 5 < g2.w * g2.h {
        if fits(s4 + cfg.tight_spot) { Some((false, s4 + cfg.tight_spot)) } else { None }
    } else {
        Some((false, s4))
    };
    match mine_trap {
        None => None,
        Some((trapped, s5)) => {
            let en_ff = fill_outcome(g2, eh.x as int, eh.y as int, el + 2, en.body@, me.body@);
            if !trapped && enc < el {
                match trap_spec(s5, en_ff.count, en_ff.min_turns, en_ff.has_food, el, eh, en.body@.last(),
                    cfg.enemy_trapped as int, tc, cfg.strategic_squeeze as int, dense, false) {
                    Some((_, s6)) => Some(s6),
                    None => None,
                }
            } else {
                Some(s5)
            }
        },
    }
}

/// The closing terms: kill pressure, the food check, and the aggression penalty.
pub open spec fn closing_spec(g2: GridModel, me: AgentState, en: AgentState, s6: int, dist: Option<Seq<i16>>, cfg: ScoreWeights) -> EvalModel {
    let ml = me.body@.len() as int;
    let el = en.body@.len() as int;
    let mh = me.body@[0];
    let eh = en.body@[0];
    let dto = abs_int(mh.x - eh.x) + abs_int(mh.y - eh.y);
    let s7 = if dto == 1 && ml > el { s6 + cfg.kill_pressure } else { s6 };
    let has_food = exists|i: int| 0 <= i < 448 && #[trigger] g2.food[i];
    let closest: int = match dist {
        Some(m) => m[mh.y * g2.w + mh.x] as int,
        None => nearest_food(g2.food, g2.w, mh, 448),
    };
    let aggr = if ml > el + 1 { dto * cfg.aggression } else { 0 };
    if !fits(s7) || !fits(aggr) {
        EvalModel::Overflow
    } else if has_food && closest > me.health {
        EvalModel::Decided(cfg.loss as int)
    } else {
        EvalModel::Scored(s7, if has_food { Some(closest) } else { None }, aggr)
    }
}

/// The evaluation of a position (see `evaluate`).
pub open spec fn eval_spec(g: GridModel, me: AgentState, en: AgentState, dist: Option<Seq<i16>>, cfg: ScoreWeights, occupancy: int) -> EvalModel {
    let ml = me.body@.len() as int;
    let el = en.body@.len() as int;
    if me.health <= 0 || ml == 0 {
        EvalModel::Decided(cfg.loss as int)
    } else if en.health <= 0 || el == 0 {
        EvalModel::Decided(cfg.win as int)
    } else {
        let area = g.w * g.h;
        let mh = me.body@[0];
        let eh = en.body@[0];
        let tc = cfg.territory_control as int;
        if !(occupancy * area <= usize::MAX) {
            EvalModel::Overflow
        } else {
            let dense = ml >= 20 && el >= 20 && (ml + el) * 100 >= occupancy * area;
            match opening_spec(me, en, g.w, g.h, cfg) {
                None => EvalModel::Overflow,
                Some(s3) => {
                    let vor = voronoi_outcome(tail_cleared(g, me), mh.y * g.w + mh.x, eh.y * g.w + eh.x);
                    let myc = count_true(vor.my_terr) as int;
                    let enc = count_true(vor.en_terr) as int;
                    let vt = (myc - enc) * tc;
                    let g2 = tail_restored(g, me);
                    if !fits(vt) || !fits(s3 + vt) {
                        EvalModel::Overflow
                    } else {
                        match traps_spec(g2, me, en, s3 + vt, myc, enc, cfg, dense) {
                            None => EvalModel::Overflow,
                            Some(s6) => closing_spec(g2, me, en, s6, dist, cfg),
                        }
                    }
                },
            }
        }
    }
}

/// The score that the trap and closing terms give from `base`, the score after the opening and
/// territory terms, with territory counts `myc` and `enc`; `None` when they give no score.
pub open spec fn after_territory(g2: GridModel, me: AgentState, en: AgentState, base: int, myc: int, enc: int,
    dist: Option<Seq<i16>>, cfg: ScoreWeights, dense: bool) -> Option<int> {
    match traps_spec(g2, me, en, base, myc, enc, cfg, dense) {
        None => None,
        Some(s6) => match closing_spec(g2, me, en, s6, dist, cfg) {
            EvalModel::Scored(s7, _, _) => Some(s7),
            _ => None,
        },
    }
}

/// A trap check shifts its score with the score it starts from.
proof fn lemma_trap_shift(score: int, d: int, count: int, min_turns: int, has_food: bool, len: int, head: Point,
    tail: Point, trap_w: int, tc: int, squeeze: int, dense: bool, mine: bool)
    requires
        trap_spec(score + d, count, min_turns, has_food, len, head, tail, trap_w, tc, squeeze, dense, mine) is Some,
        trap_spec(score, count, min_turns, has_food, len, head, tail, trap_w, tc, squeeze, dense, mine) is Some,
    ensures
        trap_spec(score + d, count, min_turns, has_food, len, head, tail, trap_w, tc, squeeze, dense, mine)->Some_0.0
            == trap_spec(score, count, min_turns, has_food, len, head, tail, trap_w, tc, squeeze, dense, mine)->Some_0.0,
        trap_spec(score + d, count, min_turns, has_food, len, head, tail, trap_w, tc, squeeze, dense, mine)->Some_0.1
            == trap_spec(score, count, min_turns, has_food, len, head, tail, trap_w, tc, squeeze, dense, mine)->Some_0.1 + d,
{
}

/// The trap and closing terms shift their score with the score they start from.
proof fn lemma_after_territory_shift(g2: GridModel, me: AgentState, en: AgentState, base: int, d: int, myc: int, enc: int,
    dist: Option<Seq<i16>>, cfg: ScoreWeights, dense: bool)
    requires
        after_territory(g2, me, en, base + d, myc, enc, dist, cfg, dense) is Some,
        after_territory(g2, me, en, base, myc, enc, dist, cfg, dense) is Some,
    ensures
        after_territory(g2, me, en, base + d, myc, enc, dist, cfg, dense)->Some_0
            == after_territory(g2, me, en, base, myc, enc, dist, cfg, dense)->Some_0 + d,
{
    let ml = me.body@.len() as int;
    let el = en.body@.len() as int;
    let mh = me.body@[0];
    let eh = en.body@[0];
    let tc = cfg.territory_control as int;
    let mine_ff = fill_outcome(g2, mh.x as int, mh.y as int, ml + 2, me.body@, en.body@);
    let en_ff = fill_outcome(g2, eh.x as int, eh.y as int, el + 2, en.body@, me.body@);
    if myc < ml {
        lemma_trap_shift(base, d, mine_ff.count, mine_ff.min_turns, mine_ff.has_food, ml, mh, me.body@.last(),
            cfg.trap_danger as int, tc, cfg.strategic_squeeze as int, dense, true);
    }
    let t1 = traps_spec(g2, me, en, base + d, myc, enc, cfg, dense);
    let t0 = traps_spec(g2, me, en, base, myc, enc, cfg, dense);
    let m1: Option<(bool, int)> = if myc < ml {
        trap_spec(base + d, mine_ff.count, mine_ff.min_turns, mine_ff.has_food, ml, mh, me.body@.last(),
            cfg.trap_danger as int, tc, cfg.strategic_squeeze as int, dense, true)
    } else if myc * 5 < g2.w * g2.h {
        if fits(base + d + cfg.tight_spot) { Some((false, base + d + cfg.tight_spot)) } else { None }
    } else {
        Some((false, base + d))
    };
    let m0: Option<(bool, int)> = if myc < ml {
        trap_spec(base, mine_ff.count, mine_ff.min_turns, mine_ff.has_food, ml, mh, me.body@.last(),
            cfg.trap_danger as int, tc, cfg.strategic_squeeze as int, dense, true)
    } else if myc * 5 < g2.w * g2.h {
        if fits(base + cfg.tight_spot) { Some((false, base + cfg.tight_spot)) } else { None }
    } else {
        Some((false, base))
    };
    assert(m1 is Some && m0 is Some);
    let (tr1, s51) = m1->Some_0;
    let (tr0, s50) = m0->Some_0;
    assert(tr1 == tr0 && s51 == s50 + d);
    if !tr0 && enc < el {
        lemma_trap_shift(s50, d, en_ff.count, en_ff.min_turns, en_ff.has_food, el, eh, en.body@.last(),
            cfg.enemy_trapped as int, tc, cfg.strategic_squeeze as int, dense, false);
    }
    assert(t1->Some_0 == t0->Some_0 + d);
}

/// The territory term enters the evaluation as `(my territory - enemy territory) * territory_control`:
/// a scored position's score is that term plus the score the other terms give with the same
/// territory counts (see `after_territory`, started from the opening terms alone). With a
/// non-negative weight, more territory of one's own never lowers the score and more of the
/// opponent's never raises it.
pub proof fn lemma_territory_term(g: GridModel, me: AgentState, en: AgentState, dist: Option<Seq<i16>>, cfg: ScoreWeights,
    occupancy: int)
    requires
        eval_spec(g, me, en, dist, cfg, occupancy) is Scored,
    ensures
        ({
            let ml = me.body@.len() as int;
            let el = en.body@.len() as int;
            let mh = me.body@[0];
            let eh = en.body@[0];
            let vor = voronoi_outcome(tail_cleared(g, me), mh.y * g.w + mh.x, eh.y * g.w + eh.x);
            let myc = count_true(vor.my_terr) as int;
            let enc = count_true(vor.en_terr) as int;
            let dense = ml >= 20 && el >= 20 && (ml + el) * 100 >= occupancy * (g.w * g.h);
            &&& opening_spec(me, en, g.w, g.h, cfg) is Some
            &&& after_territory(tail_restored(g, me), me, en, opening_spec(me, en, g.w, g.h, cfg)->Some_0, myc, enc, dist, cfg, dense)
                matches Some(b) ==> eval_spec(g, me, en, dist, cfg, occupancy)->Scored_0
                    == b + (myc - enc) * cfg.territory_control
        }),
{
    let ml = me.body@.len() as int;
    let el = en.body@.len() as int;
    let mh = me.body@[0];
    let eh = en.body@[0];
    let vor = voronoi_outcome(tail_cleared(g, me), mh.y * g.w + mh.x, eh.y * g.w + eh.x);
    let myc = count_true(vor.my_terr) as int;
    let enc = count_true(vor.en_terr) as int;
    let dense = ml >= 20 && el >= 20 && (ml + el) * 100 >= occupancy * (g.w * g.h);
    let s3 = opening_spec(me, en, g.w, g.h, cfg)->Some_0;
    let vt = (myc - enc) * cfg.territory_control;
    let g2 = tail_restored(g, me);
    assert(after_territory(g2, me, en, s3 + vt, myc, enc, dist, cfg, dense) == Some(eval_spec(g, me, en, dist, cfg, occupancy)->Scored_0));
    if after_territory(g2, me, en, s3, myc, enc, dist, cfg, dense) is Some {
        lemma_after_territory_shift(g2, me, en, s3, vt, myc, enc, dist, cfg, dense);
    }
}

/// The closing terms of a scored position: the kill bonus is added exactly when the heads touch and
/// `me` is longer, the aggression term is the head distance times the aggression weight exactly when
/// `me` is longer by two or more, and the nearest food is reported when there is food. A position is
/// decided instead only as a loss, when there is food and none is within reach of `me`'s health.
pub proof fn lemma_closing_terms(g2: GridModel, me: AgentState, en: AgentState, s6: int, dist: Option<Seq<i16>>, cfg: ScoreWeights)
    requires
        me.body@.len() > 0,
        en.body@.len() > 0,
    ensures
        ({
            let ml = me.body@.len() as int;
            let el = en.body@.len() as int;
            let mh = me.body@[0];
            let eh = en.body@[0];
            let dx = mh.x - eh.x;
            let dy = mh.y - eh.y;
            let dto = (if dx < 0 { -dx } else { dx }) + (if dy < 0 { -dy } else { dy });
            let food_any = exists|i: int| 0 <= i < 448 && #[trigger] g2.food[i];
            &&& closing_spec(g2, me, en, s6, dist, cfg) matches EvalModel::Scored(s7, f, a) ==> {
                &&& s7 == s6 + if dto == 1 && ml > el { cfg.kill_pressure as int } else { 0 }
                &&& a == if ml > el + 1 { dto * cfg.aggression } else { 0 }
                &&& (f is Some) == food_any
            }
            &&& closing_spec(g2, me, en, s6, dist, cfg) matches EvalModel::Decided(x) ==> x == cfg.loss && food_any
        }),
{
}

/// The pin penalty of head `h` against head `o` (see `pin_spec`).
fn pin_penalty(h: Point, o: Point, w: i32, hh: i32, base: i32) -> (r: i32)
    requires
        0 <= h.x < w < 256,
        0 <= o.x < w,
        0 <= h.y < hh < 256,
        0 <= o.y < hh,
        pin_spec(h, o, w as int, hh as int, base as int) is Some,
    ensures
        r == pin_spec(h, o, w as int, hh as int, base as int)->Some_0,
{
    let dx = if h.x >= o.x { h.x - o.x } else { o.x - h.x };
    let dy = if h.y >= o.y { h.y - o.y } else { o.y - h.y };
    let mut p: i32 = 0;
    if h.x == 0 || h.x == w - 1 {
        let ex = if h.x == 0 { o.x } else { w - 1 - o.x };
        if ex <= 3 && dy <= 4 {
            p = p + base * (8 - (ex + dy));
        }
    }
    if h.y == 0 || h.y == hh - 1 {
        let ey = if h.y == 0 { o.y } else { hh - 1 - o.y };
        if ey <= 3 && dx <= 4 {
            p = p + base * (8 - (ey + dx));
        }
    }
    p
}

/// The trap check of one side (see `trap_spec`).
fn trap_adjust(
    score: i32, count: i32, min_turns: i32, has_food: bool, len: i32, head: Point, tail: Point,
    trap_w: i32, tc: i32, squeeze: i32, dense: bool, mine: bool,
) -> (r: (bool, i32))
    requires
        0 <= len <= 512,
        -1000 < head.x < 1000 && -1000 < head.y < 1000,
        -1000 < tail.x < 1000 && -1000 < tail.y < 1000,
        trap_spec(score as int, count as int, min_turns as int, has_food, len as int, head, tail,
            trap_w as int, tc as int, squeeze as int, dense, mine) is Some,
    ensures
        (r.0, r.1 as int) == trap_spec(score as int, count as int, min_turns as int, has_food, len as int, head, tail,
            trap_w as int, tc as int, squeeze as int, dense, mine)->Some_0,
{
    let food_mod: i32 = if has_food { 1 } else { 0 };
    let esc = if min_turns > i32::MAX - food_mod { i32::MAX } else { min_turns + food_mod };
    let future = len + food_mod;
    if count < future && count < esc {
        let t = if dense { trap_w / 1000 } else { trap_w };
        (true, score + t)
    } else if count >= future {
        let dxt = if head.x >= tail.x { head.x - tail.x } else { tail.x - head.x };
        let dyt = if head.y >= tail.y { head.y - tail.y } else { tail.y - head.y };
        let d = dxt + dyt;
        let tc5 = tc * 5;
        let x = if d <= 2 || esc <= 2 { tc5 } else { squeeze };
        if mine { (false, score + x) } else { (false, score - x) }
    } else {
        let p = esc * tc;
        let p2 = p * 2;
        if mine { (false, score - p2) } else { (false, score + p2) }
    }
}

/// The distance from `h` to the nearest food cell, 9999 when there is none.
pub(crate) fn nearest_food_distance(food: &BitBoard, w: i32, h: Point) -> (d: i32)
    requires
        0 < w < 256,
        0 <= h.x < 256 && 0 <= h.y < 256,
    ensures
        d == nearest_food(food@, w as int, h, 448),
{
    let mut best: i32 = 9999;
    let mut i: usize = 0;
    while i < 448
        invariant
            0 < w < 256,
            0 <= h.x < 256 && 0 <= h.y < 256,
            i <= 448,
            best == nearest_food(food@, w as int, h, i as nat),
            0 <= best <= 9999,
        decreases 448 - i,
    {
        if food.get(i) {
            let fx = (i as i32) % w;
            let fy = (i as i32) / w;
            let dx = if h.x >= fx { h.x - fx } else { fx - h.x };
            let dy = if h.y >= fy { h.y - fy } else { fy - h.y };
            let d = dx + dy;
            if d < best {
                best = d;
            }
        }
        i += 1;
    }
    best
}

/// Sets one cell and keeps the grid's geometry.
fn set_cell(grid: &mut Grid, x: i32, y: i32, val: i8)
    requires
        old(grid).wf(),
    ensures
        final(grid).wf(),
        final(grid).width == old(grid).width,
        final(grid).height == old(grid).height,
        final(grid).ctx == old(grid).ctx,
        final(grid).model() == set_model(old(grid).model(), x as int, y as int, val),
{
    grid.set(x, y, val);
    proof {
        if xy_in(old(grid).width as int, old(grid).height as int, x as int, y as int) {
            assert(grid.model() =~= set_model(old(grid).model(), x as int, y as int, val));
        }
    }
}

/// The opening terms (see `opening_spec`).
fn opening_score(me: &AgentState, enemy: &AgentState, w: i32, h: i32, cfg: &ScoreWeights) -> (r: i32)
    requires
        me.body.wf(),
        enemy.body.wf(),
        me.body@.len() > 0,
        enemy.body@.len() > 0,
        0 < w < 256,
        0 <= h < 256,
        xy_in(w as int, h as int, me.body@[0].x as int, me.body@[0].y as int),
        xy_in(w as int, h as int, enemy.body@[0].x as int, enemy.body@[0].y as int),
        opening_spec(*me, *enemy, w as int, h as int, *cfg) is Some,
    ensures
        r == opening_spec(*me, *enemy, w as int, h as int, *cfg)->Some_0,
{
    let tc = cfg.territory_control;
    let mut score: i32 = me.body.len() as i32 * cfg.length;
    if me.health > 15 {
        let my_head = me.body.head();
        let enemy_head = enemy.body.head();
        let base_pin = (if tc < 0 { -tc } else { tc }) * 100;
        let my_pin = pin_penalty(my_head, enemy_head, w, h, base_pin);
        let enemy_pin = pin_penalty(enemy_head, my_head, w, h, base_pin);
        score = score - my_pin;
        score = score + enemy_pin;
    }
    score
}

/// The Voronoi split with `me`'s tail cell counted free when it is hungry; the cell is rewritten
/// with its code afterwards.
fn territory(grid: &mut Grid, me: &AgentState, enemy: &AgentState, buffers: &mut SearchBuffers) -> (r: crate::voronoi::VoronoiResult)
    requires
        old(grid).wf(),
        me.body.wf(),
        enemy.body.wf(),
        me.body@.len() > 0,
        enemy.body@.len() > 0,
        xy_in(old(grid).width as int, old(grid).height as int, me.body@[0].x as int, me.body@[0].y as int),
        xy_in(old(grid).width as int, old(grid).height as int, enemy.body@[0].x as int, enemy.body@[0].y as int),
    ensures
        final(grid).wf(),
        final(grid).width == old(grid).width,
        final(grid).height == old(grid).height,
        final(grid).ctx == old(grid).ctx,
        final(grid).model() == tail_restored(old(grid).model(), *me),
        *final(buffers) == *old(buffers),
        0 <= r.my_count <= 448,
        0 <= r.enemy_count <= 448,
        ({
            let g = old(grid).model();
            let mh = me.body@[0];
            let eh = enemy.body@[0];
            let vor = voronoi_outcome(tail_cleared(g, *me), mh.y * g.w + mh.x, eh.y * g.w + eh.x);
            &&& r.my_count == count_true(vor.my_terr)
            &&& r.enemy_count == count_true(vor.en_terr)
        }),
{
    let ghost g0 = grid.model();
    let tail = me.body.last();
    let my_head = me.body.head();
    let enemy_head = enemy.body.head();
    let tail_is_safe = me.health < 100;
    let mut original_tail_val: i8 = 0;
    if tail_is_safe {
        original_tail_val = grid.get(tail.x, tail.y);
        set_cell(grid, tail.x, tail.y, EMPTY);
    }
    assert(grid.model() == tail_cleared(g0, *me));
    let v = compute_voronoi(grid, my_head, enemy_head, buffers);
    if tail_is_safe {
        set_cell(grid, tail.x, tail.y, original_tail_val);
    }
    proof {
        if tail_is_safe {
            assert(original_tail_val == cell_model(g0, tail.x as int, tail.y as int));
        }
    }
    v
}

/// The trap terms (see `traps_spec`).
fn trap_terms(grid: &Grid, me: &AgentState, enemy: &AgentState, s4: i32, myc: i32, enc: i32, cfg: &ScoreWeights,
    dense: bool, buffers: &mut SearchBuffers) -> (r: i32)
    requires
        grid.wf(),
        me.body.wf(),
        enemy.body.wf(),
        0 < me.body@.len(),
        0 < enemy.body@.len(),
        0 <= myc <= 448,
        0 <= enc <= 448,
        xy_in(grid.width as int, grid.height as int, me.body@[0].x as int, me.body@[0].y as int),
        xy_in(grid.width as int, grid.height as int, enemy.body@[0].x as int, enemy.body@[0].y as int),
        -1000 < me.body@.last().x < 1000 && -1000 < me.body@.last().y < 1000,
        -1000 < enemy.body@.last().x < 1000 && -1000 < enemy.body@.last().y < 1000,
        traps_spec(grid.model(), *me, *enemy, s4 as int, myc as int, enc as int, *cfg, dense) is Some,
    ensures
        *final(buffers) == *old(buffers),
        r == traps_spec(grid.model(), *me, *enemy, s4 as int, myc as int, enc as int, *cfg, dense)->Some_0,
{
    let tc = cfg.territory_control;
    let my_head = me.body.head();
    let enemy_head = enemy.body.head();
    let my_len = me.body.len() as i32;
    let en_len = enemy.body.len() as i32;
    let mut score = s4;
    let mut i_am_in_death_trap = false;
    if myc < my_len {
        let ff = flood_fill(grid, my_head.x, my_head.y, my_len + 2, Some(&me.body), Some(&enemy.body), buffers);
        let (t, s) = trap_adjust(score, ff.count, ff.min_turns_to_clear, ff.has_food, my_len, my_head, me.body.last(),
            cfg.trap_danger, tc, cfg.strategic_squeeze, dense, true);
        i_am_in_death_trap = t;
        score = s;
    } else if myc * 5 < grid.width * grid.height {
        // `my_count < area * 0.2` in exact arithmetic: for boards of at most 448 cells the
        // product `area * 0.2` in binary floating point rounds to within far less than 0.2 of
        // `area / 5`, so both comparisons agree.
        score = score + cfg.tight_spot;
    }
    if !i_am_in_death_trap && enc < en_len {
        let ff = flood_fill(grid, enemy_head.x, enemy_head.y, en_len + 2, Some(&enemy.body), Some(&me.body), buffers);
        let (_t, s) = trap_adjust(score, ff.count, ff.min_turns_to_clear, ff.has_food, en_len, enemy_head, enemy.body.last(),
            cfg.enemy_trapped, tc, cfg.strategic_squeeze, dense, false);
        score = s;
    }
    score
}

/// The closing terms (see `closing_spec`).
fn closing_terms(grid: &Grid, me: &AgentState, enemy: &AgentState, s6: i32, dist_map: Option<&[i16]>, cfg: &ScoreWeights) -> (r: Evaluation)
    requires
        grid.wf(),
        me.body.wf(),
        enemy.body.wf(),
        0 < me.body@.len(),
        0 < enemy.body@.len(),
        xy_in(grid.width as int, grid.height as int, me.body@[0].x as int, me.body@[0].y as int),
        xy_in(grid.width as int, grid.height as int, enemy.body@[0].x as int, enemy.body@[0].y as int),
        match dist_map {
            Some(m) => (exists|i: int| 0 <= i < 448 && #[trigger] grid.food@[i])
                ==> me.body@[0].y * grid.width + me.body@[0].x < m@.len(),
            None => true,
        },
        closing_spec(grid.model(), *me, *enemy, s6 as int, match dist_map { Some(m) => Some(m@), None => None }, *cfg) != EvalModel::Overflow,
    ensures
        eval_model(r) == closing_spec(grid.model(), *me, *enemy, s6 as int, match dist_map { Some(m) => Some(m@), None => None }, *cfg),
{
    let my_head = me.body.head();
    let enemy_head = enemy.body.head();
    let ml = me.body.len();
    let el = enemy.body.len();
    let w = grid.width;
    let dxo = if my_head.x >= enemy_head.x { my_head.x - enemy_head.x } else { enemy_head.x - my_head.x };
    let dyo = if my_head.y >= enemy_head.y { my_head.y - enemy_head.y } else { enemy_head.y - my_head.y };
    let dist_to_opp = dxo + dyo;
    let mut score = s6;
    if dist_to_opp == 1 && ml > el {
        score = score + cfg.kill_pressure;
    }
    let mut food_distance: Option<i32> = None;
    let any_food = grid.food.any();
    proof {
        if !any_food {
            assert(!exists|i: int| 0 <= i < 448 && #[trigger] grid.model().food[i]) by {
                if exists|i: int| 0 <= i < 448 && #[trigger] grid.model().food[i] {
                    let wi = choose|i: int| 0 <= i < 448 && #[trigger] grid.model().food[i];
                    assert(grid.food@[wi]);
                }
            }
        }
    }
    if any_food {
        let head_idx = grid.idx(my_head.x, my_head.y);
        let closest_dist: i32 = match dist_map {
            Some(map) => map[head_idx] as i32,
            None => nearest_food_distance(&grid.food, w, my_head),
        };
        proof {
            let g2 = grid.model();
            let mh = me.body@[0];
            let wi = choose|i: int| 0 <= i < 448 && #[trigger] grid.food@[i];
            assert(g2.food[wi]);
            assert(exists|i: int| 0 <= i < 448 && #[trigger] g2.food[i]);
            let spec_closest: int = match dist_map {
                Some(m) => m@[mh.y * g2.w + mh.x] as int,
                None => nearest_food(g2.food, g2.w, mh, 448),
            };
            assert(closest_dist as int == spec_closest);
        }
        if closest_dist > me.health {
            return Evaluation::Decided(cfg.loss);
        }
        food_distance = Some(closest_dist);
    }
    let aggression_penalty: i32 = if ml > el + 1 { dist_to_opp * cfg.aggression } else { 0 };
    Evaluation::Scored { base: score, food_distance, aggression_penalty }
}

/// Scores a position for `me` against `enemy` (see `eval_spec`): a win or loss when a side has no
/// health or body; otherwise length, edge pins, the Voronoi territory difference (with `me`'s
/// tail cell counted free when it is hungry), flood-fill traps for each side, kill pressure when
/// adjacent and longer, and aggression when longer by two. Food makes the position lost when the
/// nearest food (from `dist_map` at the head when given) is farther than `me`'s health; otherwise
/// its distance is returned for the food-urgency term. The grid is left with the tail cell
/// rewritten with the code it had.
pub fn evaluate(
    grid: &mut Grid,
    me: &AgentState,
    enemy: &AgentState,
    dist_map: Option<&[i16]>,
    cfg: &ScoreWeights,
    dense_tail_race_occupancy: usize,
    buffers: &mut SearchBuffers,
) -> (r: Evaluation)
    requires
        old(grid).wf(),
        me.body.wf(),
        enemy.body.wf(),
        me.health > 0 && me.body@.len() > 0 && enemy.health > 0 && enemy.body@.len() > 0 ==> {
            &&& xy_in(old(grid).width as int, old(grid).height as int, me.body@[0].x as int, me.body@[0].y as int)
            &&& xy_in(old(grid).width as int, old(grid).height as int, enemy.body@[0].x as int, enemy.body@[0].y as int)
            &&& -1000 < me.body@.last().x < 1000 && -1000 < me.body@.last().y < 1000
            &&& -1000 < enemy.body@.last().x < 1000 && -1000 < enemy.body@.last().y < 1000
            &&& match dist_map {
                Some(m) => (exists|i: int| 0 <= i < 448 && #[trigger] tail_restored(old(grid).model(), *me).food[i])
                    ==> me.body@[0].y * old(grid).width + me.body@[0].x < m@.len(),
                None => true,
            }
        },
        eval_spec(old(grid).model(), *me, *enemy, match dist_map { Some(m) => Some(m@), None => None }, *cfg,
            dense_tail_race_occupancy as int) != EvalModel::Overflow,
    ensures
        eval_model(r) == eval_spec(old(grid).model(), *me, *enemy, match dist_map { Some(m) => Some(m@), None => None }, *cfg,
            dense_tail_race_occupancy as int),
        final(grid).wf(),
        final(grid).width == old(grid).width,
        final(grid).height == old(grid).height,
        final(grid).ctx == old(grid).ctx,
        me.health > 0 && me.body@.len() > 0 && enemy.health > 0 && enemy.body@.len() > 0 ==>
            final(grid).model() == tail_restored(old(grid).model(), *me),
        *final(buffers) == *old(buffers),
{
    if me.health <= 0 || me.body.is_empty() {
        return Evaluation::Decided(cfg.loss);
    }
    if enemy.health <= 0 || enemy.body.is_empty() {
        return Evaluation::Decided(cfg.win);
    }
    let ghost g0 = grid.model();
    let ml = me.body.len();
    let el = enemy.body.len();
    let w = grid.width;
    let h = grid.height;
    proof {
        assert(0 <= w * h <= 448);
    }
    let total_area = (w * h) as usize;
    let dense = ml >= 20 && el >= 20 && (ml + el) * 100 >= dense_tail_race_occupancy * total_area;
    let s3 = opening_score(me, enemy, w, h, cfg);
    let v = territory(grid, me, enemy, buffers);
    let s4 = s3 + (v.my_count - v.enemy_count) * cfg.territory_control;
    let s6 = trap_terms(grid, me, enemy, s4, v.my_count, v.enemy_count, cfg, dense, buffers);
    closing_terms(grid, me, enemy, s6, dist_map, cfg)
}

/// Rewriting the tail cell with the code it had restores the grid when that cell holds at most
/// one layer (or is off the board, or the snake is not hungry).
pub proof fn lemma_evaluate_restores_grid(g: GridModel, me: AgentState)
    requires
        me.body@.len() > 0,
        g.food.len() == 448 && g.mine.len() == 448 && g.theirs.len() == 448,
        0 < g.w,
        ({
            let t = me.body@.last();
            let i = t.y * g.w + t.x;
            xy_in(g.w, g.h, t.x as int, t.y as int) ==> 0 <= i < 448 && {
                &&& !(g.mine[i] && g.theirs[i])
                &&& !(g.mine[i] && g.food[i])
                &&& !(g.theirs[i] && g.food[i])
            }
        }),
    ensures
        tail_restored(g, me) == g,
{
    let t = me.body@.last();
    if me.health < 100 && xy_in(g.w, g.h, t.x as int, t.y as int) {
        let r = tail_restored(g, me);
        assert(r.food =~= g.food);
        assert(r.mine =~= g.mine);
        assert(r.theirs =~= g.theirs);
    }
}


/// Weights small enough that no evaluation leaves `i32` (the default weights qualify).
pub open spec fn weights_bounded(w: ScoreWeights) -> bool {
    &&& -1_000_000_000 <= w.win <= 1_000_000_000
    &&& -1_000_000_000 <= w.loss <= 1_000_000_000
    &&& -1_000_000_000 <= w.draw <= 1_000_000_000
    &&& -750_000_000 <= w.trap_danger <= 750_000_000
    &&& -500_000_000 <= w.strategic_squeeze <= 500_000_000
    &&& -500_000_000 <= w.enemy_trapped <= 500_000_000
    &&& -500_000_000 <= w.head_on_collision <= 500_000_000
    &&& -100_000_000 <= w.tight_spot <= 100_000_000
    &&& -100_000_000 <= w.kill_pressure <= 100_000_000
    &&& -100_000_000 <= w.eat_reward <= 100_000_000
    &&& -100_000 <= w.length <= 100_000
    &&& -10_000 <= w.territory_control <= 10_000
    &&& -100_000 <= w.aggression <= 100_000
}

/// Whether the weights are within the bounds of `weights_bounded`.
pub fn weights_in_bounds(w: &ScoreWeights) -> (r: bool)
    ensures
        r == weights_bounded(*w),
{
    -1_000_000_000 <= w.win && w.win <= 1_000_000_000
    && -1_000_000_000 <= w.loss && w.loss <= 1_000_000_000
    && -1_000_000_000 <= w.draw && w.draw <= 1_000_000_000
    && -750_000_000 <= w.trap_danger && w.trap_danger <= 750_000_000
    && -500_000_000 <= w.strategic_squeeze && w.strategic_squeeze <= 500_000_000
    && -500_000_000 <= w.enemy_trapped && w.enemy_trapped <= 500_000_000
    && -500_000_000 <= w.head_on_collision && w.head_on_collision <= 500_000_000
    && -100_000_000 <= w.tight_spot && w.tight_spot <= 100_000_000
    && -100_000_000 <= w.kill_pressure && w.kill_pressure <= 100_000_000
    && -100_000_000 <= w.eat_reward && w.eat_reward <= 100_000_000
    && -100_000 <= w.length && w.length <= 100_000
    && -10_000 <= w.territory_control && w.territory_control <= 10_000
    && -100_000 <= w.aggression && w.aggression <= 100_000
}

/// The bound on the integer part of a scored evaluation.
pub const EVAL_BASE_CAP: i32 = 1_450_000_000;

/// The bound on the aggression penalty.
pub const AGGRESSION_CAP: i32 = 60_000_000;

/// An evaluation within the bounds that bounded weights guarantee: no overflow, a final score that
/// is a win or a loss, or a scored position whose food distance lies between 0 and `health`.
pub open spec fn eval_bounded(e: EvalModel, health: int, cfg: ScoreWeights) -> bool {
    match e {
        EvalModel::Overflow => false,
        EvalModel::Decided(v) => v == cfg.win || v == cfg.loss,
        EvalModel::Scored(b, fd, a) => {
            &&& -EVAL_BASE_CAP <= b <= EVAL_BASE_CAP
            &&& -AGGRESSION_CAP <= a <= AGGRESSION_CAP
            &&& fd matches Some(d) ==> 0 <= d <= health
        },
    }
}

/// The nearest-food distance is never negative.
proof fn lemma_nearest_food_nonneg(food: Seq<bool>, w: int, h: Point, k: nat)
    ensures
        0 <= nearest_food(food, w, h, k) <= 9999,
    decreases k,
{
    if k > 0 {
        lemma_nearest_food_nonneg(food, w, h, (k - 1) as nat);
    }
}

/// The pin penalty of an on-board head is between 0 and `16 * base`.
proof fn lemma_pin_bounded(h: Point, o: Point, w: int, hh: int, base: int)
    requires
        xy_in(w, hh, h.x as int, h.y as int),
        xy_in(w, hh, o.x as int, o.y as int),
        0 <= base <= 1_000_000,
    ensures
        pin_spec(h, o, w, hh, base) matches Some(v) && 0 <= v <= 16_000_000,
{
    let dx = abs_int(h.x - o.x);
    let dy = abs_int(h.y - o.y);
    if h.x == 0 || h.x == w - 1 {
        let ex = if h.x == 0 { o.x as int } else { w - 1 - o.x };
        if ex <= 3 && dy <= 4 {
            assert(0 <= base * (8 - (ex + dy)) <= 8_000_000) by (nonlinear_arith)
                requires 0 <= base <= 1_000_000, 0 <= ex <= 3, 0 <= dy <= 4;
        }
    }
    if h.y == 0 || h.y == hh - 1 {
        let ey = if h.y == 0 { o.y as int } else { hh - 1 - o.y };
        if ey <= 3 && dx <= 4 {
            assert(0 <= base * (8 - (ey + dx)) <= 8_000_000) by (nonlinear_arith)
                requires 0 <= base <= 1_000_000, 0 <= ey <= 3, 0 <= dx <= 4;
        }
    }
}

/// One side's trap check moves the score by at most `cap`, the bound of its trap weight.
proof fn lemma_trap_bounded(
    score: int, count: int, min_turns: int, has_food: bool, len: int, head: Point, tail: Point,
    trap_w: int, tc: int, squeeze: int, dense: bool, mine: bool, cap: int,
)
    requires
        500_000_000 <= cap <= 750_000_000,
        -1_390_000_000 <= score <= 1_390_000_000,
        0 <= count <= 448,
        min_turns >= 1,
        -cap <= trap_w <= cap,
        -10_000 <= tc <= 10_000,
        -500_000_000 <= squeeze <= 500_000_000,
    ensures
        trap_spec(score, count, min_turns, has_food, len, head, tail, trap_w, tc, squeeze, dense, mine)
            matches Some((_, r)) && score - cap <= r <= score + cap,
{
    let food_mod: int = if has_food { 1 } else { 0 };
    let esc = sat_add(min_turns, food_mod);
    let future = len + food_mod;
    if count < future && count < esc {
    } else if count >= future {
    } else {
        assert(-4_480_000 <= esc * tc <= 4_480_000) by (nonlinear_arith)
            requires 1 <= esc <= 448, -10_000 <= tc <= 10_000;
    }
}

/// With bounded weights, an evaluation of a position with both heads on a board of at most 448
/// cells never overflows and stays within `eval_bounded`.
pub proof fn lemma_eval_bounded(g: GridModel, me: AgentState, en: AgentState, dist: Option<Seq<i16>>, cfg: ScoreWeights, occupancy: int)
    requires
        weights_bounded(cfg),
        0 <= occupancy <= 1_000_000,
        0 < g.w < 256,
        0 <= g.h,
        g.w * g.h <= 448,
        g.food.len() == 448 && g.mine.len() == 448 && g.theirs.len() == 448,
        me.body@.len() <= 512,
        en.body@.len() <= 512,
        me.health > 0 && me.body@.len() > 0 && en.health > 0 && en.body@.len() > 0 ==> {
            &&& xy_in(g.w, g.h, me.body@[0].x as int, me.body@[0].y as int)
            &&& xy_in(g.w, g.h, en.body@[0].x as int, en.body@[0].y as int)
        },
        dist matches Some(m) ==> m.len() >= 448 && forall|i: int| 0 <= i < m.len() ==> m[i] >= 0,
    ensures
        eval_bounded(eval_spec(g, me, en, dist, cfg, occupancy), me.health as int, cfg),
{
    let ml = me.body@.len() as int;
    let el = en.body@.len() as int;
    if me.health <= 0 || ml == 0 || en.health <= 0 || el == 0 {
        return;
    }
    let w = g.w;
    let h = g.h;
    let area = w * h;
    let mh = me.body@[0];
    let eh = en.body@[0];
    let tc = cfg.territory_control as int;
    assert(0 <= area <= 448) by (nonlinear_arith) requires 0 < w, 0 <= h, w * h <= 448, area == w * h;
    assert(occupancy * area <= 448_000_000) by (nonlinear_arith)
        requires 0 <= occupancy <= 1_000_000, 0 <= area <= 448;
    // opening terms
    let s1 = ml * cfg.length;
    assert(-51_200_000 <= s1 <= 51_200_000) by (nonlinear_arith)
        requires 0 < ml <= 512, -100_000 <= cfg.length <= 100_000, s1 == ml * cfg.length;
    let base = abs_int(tc) * 100;
    lemma_pin_bounded(mh, eh, w, h, base);
    lemma_pin_bounded(eh, mh, w, h, base);
    let s3 = opening_spec(me, en, w, h, cfg)->Some_0;
    assert(-67_200_000 <= s3 <= 67_200_000);
    // territory
    let gc = tail_cleared(g, me);
    let vor = voronoi_outcome(gc, mh.y * w + mh.x, eh.y * w + eh.x);
    crate::voronoi::lemma_voronoi_split(gc, mh.y * w + mh.x, eh.y * w + eh.x);
    crate::bitboard::lemma_count_true_le_len(crate::voronoi::free_mask(gc));
    let myc = count_true(vor.my_terr) as int;
    let enc = count_true(vor.en_terr) as int;
    let vt = (myc - enc) * tc;
    assert(-4_480_000 <= vt <= 4_480_000) by (nonlinear_arith)
        requires 0 <= myc <= 448, 0 <= enc <= 448, -10_000 <= tc <= 10_000, vt == (myc - enc) * tc;
    let s4 = s3 + vt;
    // traps
    let g2 = tail_restored(g, me);
    let dense = ml >= 20 && el >= 20 && (ml + el) * 100 >= occupancy * area;
    crate::floodfill::lemma_fill_within_board(g2, mh.x as int, mh.y as int, ml + 2, me.body@, en.body@);
    crate::floodfill::lemma_fill_min_turns_positive(g2, mh.x as int, mh.y as int, ml + 2, me.body@, en.body@);
    crate::floodfill::lemma_fill_within_board(g2, eh.x as int, eh.y as int, el + 2, en.body@, me.body@);
    crate::floodfill::lemma_fill_min_turns_positive(g2, eh.x as int, eh.y as int, el + 2, en.body@, me.body@);
    let mine_ff = crate::floodfill::fill_outcome(g2, mh.x as int, mh.y as int, ml + 2, me.body@, en.body@);
    let en_ff = crate::floodfill::fill_outcome(g2, eh.x as int, eh.y as int, el + 2, en.body@, me.body@);
    lemma_trap_bounded(s4, mine_ff.count, mine_ff.min_turns, mine_ff.has_food, ml, mh, me.body@.last(),
        cfg.trap_danger as int, tc, cfg.strategic_squeeze as int, dense, true, 750_000_000);
    let s5: int = if myc < ml {
        trap_spec(s4, mine_ff.count, mine_ff.min_turns, mine_ff.has_food, ml, mh, me.body@.last(),
            cfg.trap_danger as int, tc, cfg.strategic_squeeze as int, dense, true)->Some_0.1
    } else if myc * 5 < g2.w * g2.h {
        s4 + cfg.tight_spot
    } else {
        s4
    };
    assert(-821_680_000 <= s5 <= 821_680_000);
    lemma_trap_bounded(s5, en_ff.count, en_ff.min_turns, en_ff.has_food, el, eh, en.body@.last(),
        cfg.enemy_trapped as int, tc, cfg.strategic_squeeze as int, dense, false, 500_000_000);
    let s6 = traps_spec(g2, me, en, s4, myc, enc, cfg, dense)->Some_0;
    assert(-1_321_680_000 <= s6 <= 1_321_680_000);
    // closing terms
    let dto = abs_int(mh.x - eh.x) + abs_int(mh.y - eh.y);
    assert(h <= 448) by (nonlinear_arith) requires 0 < w, w * h <= 448;
    assert(w + h <= 449) by (nonlinear_arith) requires 0 < w, 0 < h, w * h <= 448;
    assert(0 <= dto <= 510);
    let aggr = if ml > el + 1 { dto * cfg.aggression } else { 0 };
    assert(-AGGRESSION_CAP <= aggr <= AGGRESSION_CAP) by (nonlinear_arith)
        requires 0 <= dto <= 510, -100_000 <= cfg.aggression <= 100_000,
            aggr == (if ml > el + 1 { dto * cfg.aggression } else { 0 });
    lemma_nearest_food_nonneg(g2.food, g2.w, mh, 448);
    assert(g2.w == w && g2.h == h);
    assert(occupancy * area <= usize::MAX);
    assert(opening_spec(me, en, w, h, cfg) == Some(s3));
    assert(traps_spec(g2, me, en, s4, myc, enc, cfg, dense) == Some(s6));
    let has_food = exists|i: int| 0 <= i < 448 && #[trigger] g2.food[i];
    let closest: int = match dist {
        Some(m) => m[mh.y * g2.w + mh.x] as int,
        None => nearest_food(g2.food, g2.w, mh, 448),
    };
    assert(0 <= mh.y * w + mh.x < 448) by (nonlinear_arith)
        requires 0 <= mh.x < w, 0 <= mh.y < h, w * h <= 448;
    assert(closest >= 0);
    let s7 = if dto == 1 && ml > el { s6 + cfg.kill_pressure } else { s6 };
    assert(fits(s7) && fits(aggr));
    assert(closing_spec(g2, me, en, s6, dist, cfg) == eval_spec(g, me, en, dist, cfg, occupancy));
}

/// The largest food-urgency penalty a curve may hold.
pub const FOOD_PENALTY_CAP: i32 = 450_000_000;

/// The food-urgency penalties, by health and distance to the nearest food: the entry at
/// `health * (max_health + 1) + distance` for `0 <= distance <= health <= max_health`.
#[derive(Debug, Clone)]
pub struct FoodCurve {
    max_health: i32,
    penalties: Vec<i32>,
}

impl FoodCurve {
    /// The largest health the table covers.
    pub closed spec fn spec_max_health(&self) -> int {
        self.max_health as int
    }

    /// The penalty for a nearest food `dist` away at `health`.
    pub closed spec fn penalty_spec(&self, dist: int, health: int) -> int {
        self.penalties@[health * (self.max_health + 1) + dist] as int
    }

    /// The table covers healths up to at least 100 and every entry lies in `0..=FOOD_PENALTY_CAP`.
    pub closed spec fn wf(&self) -> bool {
        &&& 100 <= self.max_health <= 1000
        &&& self.penalties@.len() == (self.max_health + 1) * (self.max_health + 1)
        &&& forall|i: int| 0 <= i < self.penalties@.len() ==> 0 <= #[trigger] self.penalties@[i] <= FOOD_PENALTY_CAP
    }

    /// A curve from its table; `None` unless `100 <= max_health <= 1000`, the table has
    /// `(max_health + 1)^2` entries and each lies in `0..=FOOD_PENALTY_CAP`.
    pub fn new(max_health: i32, penalties: Vec<i32>) -> (r: Option<Self>)
        ensures
            r is Some <==> (100 <= max_health <= 1000
                && penalties@.len() == (max_health + 1) * (max_health + 1)
                && forall|i: int| 0 <= i < penalties@.len() ==> 0 <= #[trigger] penalties@[i] <= FOOD_PENALTY_CAP),
            r matches Some(c) ==> {
                &&& c.wf()
                &&& c.spec_max_health() == max_health
                &&& forall|d: int, hl: int| 0 <= d <= hl <= max_health ==>
                    #[trigger] c.penalty_spec(d, hl) == penalties@[hl * (max_health + 1) + d]
            },
    {
        if max_health < 100 || max_health > 1000 {
            return None;
        }
        let side = (max_health + 1) as usize;
        proof {
            assert(side * side <= 1_002_001) by (nonlinear_arith) requires side <= 1001;
        }
        if penalties.len() != side * side {
            return None;
        }
        let mut i: usize = 0;
        while i < penalties.len()
            invariant
                i <= penalties@.len(),
                forall|k: int| 0 <= k < i ==> 0 <= #[trigger] penalties@[k] <= FOOD_PENALTY_CAP,
            decreases penalties@.len() - i,
        {
            if penalties[i] < 0 || penalties[i] > FOOD_PENALTY_CAP {
                return None;
            }
            i += 1;
        }
        Some(FoodCurve { max_health, penalties })
    }

    /// The largest health the table covers.
    pub fn max_health(&self) -> (m: i32)
        ensures
            m == self.spec_max_health(),
    {
        self.max_health
    }

    /// The penalty for a nearest food `dist` away at `health`.
    pub fn penalty(&self, dist: i32, health: i32) -> (r: i32)
        requires
            self.wf(),
            0 <= dist <= health <= self.spec_max_health(),
        ensures
            r == self.penalty_spec(dist as int, health as int),
            0 <= r <= FOOD_PENALTY_CAP,
    {
        proof {
            let m = self.max_health as int;
            assert(0 <= health * (m + 1) + dist < (m + 1) * (m + 1)) by (nonlinear_arith)
                requires 0 <= dist <= health <= m;
            assert(health * (m + 1) + dist <= 1_002_001) by (nonlinear_arith)
                requires 0 <= dist <= health <= m, m <= 1000;
        }
        let idx = (health * (self.max_health + 1) + dist) as usize;
        self.penalties[idx]
    }
}

/// The final score of an evaluation at `health`: a decided score as it is, otherwise the base less
/// the food-urgency penalty (when food is on the board) and the aggression penalty.
pub open spec fn leaf_value(e: EvalModel, health: int, curve: FoodCurve) -> int {
    match e {
        EvalModel::Decided(v) => v,
        EvalModel::Scored(b, fd, a) => b - (match fd {
            Some(d) => curve.penalty_spec(d, health),
            None => 0,
        }) - a,
        EvalModel::Overflow => 0,
    }
}

/// The final score of an evaluation (see `leaf_value`).
pub fn leaf_score(e: Evaluation, health: i32, curve: &FoodCurve, cfg: &ScoreWeights) -> (r: i32)
    requires
        curve.wf(),
        weights_bounded(*cfg),
        health <= curve.spec_max_health(),
        eval_bounded(eval_model(e), health as int, *cfg),
    ensures
        r == leaf_value(eval_model(e), health as int, *curve),
        -1_960_000_000 <= r <= 1_960_000_000,
{
    match e {
        Evaluation::Decided(v) => v,
        Evaluation::Scored { base, food_distance, aggression_penalty } => {
            let pen: i32 = match food_distance {
                Some(d) => curve.penalty(d, health),
                None => 0,
            };
            base - pen - aggression_penalty
        },
    }
}

} // verus!
