use vstd::prelude::*;
use std::collections::VecDeque;
use crate::direction::{Direction, spec_vector};
use crate::types::{Point, Snake, SnakeId, Board, GameState, deque_from_points, points_of_deque};
use crate::engine::{SnakeModel, models_of, model_of, simulate_turn, can_simulate, turn_fits, moved_state, remove_dead, turn_deaths, SimConfig, TurnSummary};
use crate::matches::{find_snake, first_with_id, build_playground_state, fresh_game};
use crate::rng::LcgRng;
use crate::food::spawn_spec;

verus! {

// ---------------------------------------------------------------------------------------------
// Editing a playground board.
// ---------------------------------------------------------------------------------------------

/// What a stroke on the board does: paint the player's or the AI's body, place food, or erase.
#[derive(Debug, Clone, Copy, PartialEq, Eq, Structural)]
pub enum EditMode {
    PaintP1,
    PaintAi,
    Food,
    Erase,
}

/// Whether two directions point opposite ways.
pub open spec fn opposite(a: Direction, b: Direction) -> bool {
    (a == Direction::Up && b == Direction::Down) || (a == Direction::Down && b == Direction::Up)
        || (a == Direction::Left && b == Direction::Right) || (a == Direction::Right && b == Direction::Left)
}

/// Whether two directions point opposite ways.
pub fn is_opposite(a: Direction, b: Direction) -> (r: bool)
    ensures
        r == opposite(a, b),
{
    match (a, b) {
        (Direction::Up, Direction::Down) | (Direction::Down, Direction::Up)
        | (Direction::Left, Direction::Right) | (Direction::Right, Direction::Left) => true,
        _ => false,
    }
}

/// `|v|`.
pub open spec fn abs_of(v: int) -> int {
    if v < 0 { -v } else { v }
}

/// The column of step `k` of a stroke from `fx` to `tx` (see `line_path_spec`).
pub open spec fn path_x(fx: int, tx: int, k: int) -> int {
    let n = abs_of(tx - fx);
    let m = if k < n { k } else { n };
    if tx >= fx { fx + m } else { fx - m }
}

/// The row of step `k` of a stroke that first walks `nx` columns (see `line_path_spec`).
pub open spec fn path_y(fy: int, ty: int, nx: int, k: int) -> int {
    if k <= nx { fy } else if ty >= fy { fy + (k - nx) } else { fy - (k - nx) }
}

/// The cells a stroke passes from `from` to `to`: along the row to `to`'s column, then along the
/// column, both ends included.
pub open spec fn line_path_spec(fx: int, fy: int, tx: int, ty: int) -> Seq<(int, int)> {
    let nx = abs_of(tx - fx);
    let ny = abs_of(ty - fy);
    Seq::new((nx + ny + 1) as nat, |k: int| (path_x(fx, tx, k), path_y(fy, ty, nx, k)))
}

/// The pairs of `v` as integers.
pub open spec fn int_pairs(v: Seq<(i32, i32)>) -> Seq<(int, int)> {
    v.map_values(|p: (i32, i32)| (p.0 as int, p.1 as int))
}

/// The cells a stroke passes from `from` to `to` (see `line_path_spec`).
pub fn get_line_path(from: (i32, i32), to: (i32, i32)) -> (path: Vec<(i32, i32)>)
    ensures
        int_pairs(path@) == line_path_spec(from.0 as int, from.1 as int, to.0 as int, to.1 as int),
{
    let ghost fx = from.0 as int;
    let ghost fy = from.1 as int;
    let ghost tx = to.0 as int;
    let ghost ty = to.1 as int;
    let ghost nx = abs_of(tx - fx);
    let ghost ny = abs_of(ty - fy);
    let ghost target = line_path_spec(fx, fy, tx, ty);
    let mut path: Vec<(i32, i32)> = Vec::new();
    path.push(from);
    let (mut cx, mut cy) = from;
    proof {
        assert(int_pairs(path@) =~= target.subrange(0, 1));
    }
    while cx != to.0 || cy != to.1
        invariant
            1 <= path@.len() <= nx + ny + 1,
            target.len() == nx + ny + 1,
            int_pairs(path@) == target.subrange(0, path@.len() as int),
            cx as int == path_x(fx, tx, path@.len() - 1),
            cy as int == path_y(fy, ty, nx, path@.len() - 1),
            fx == from.0 && fy == from.1 && tx == to.0 && ty == to.1,
            nx == abs_of(tx - fx) && ny == abs_of(ty - fy),
            target == line_path_spec(fx, fy, tx, ty),
        decreases nx + ny + 1 - path@.len(),
    {
        let ghost k = path@.len() - 1;
        proof {
            assert(k < nx + ny) by {
                if k >= nx + ny {
                    assert(cx as int == tx);
                    assert(cy as int == ty);
                }
            }
        }
        let dx: i32 = if to.0 > cx { 1 } else if to.0 < cx { -1 } else { 0 };
        let dy: i32 = if to.1 > cy { 1 } else if to.1 < cy { -1 } else { 0 };
        if dx != 0 {
            cx = cx + dx;
        } else if dy != 0 {
            cy = cy + dy;
        }
        path.push((cx, cy));
        proof {
            assert(cx as int == path_x(fx, tx, k + 1));
            assert(cy as int == path_y(fy, ty, nx, k + 1));
            assert(int_pairs(path@) =~= target.subrange(0, path@.len() as int));
        }
    }
    proof {
        let k = path@.len() - 1;
        assert(k == nx + ny) by {
            if k < nx {
                assert(cx as int != tx);
            } else if k < nx + ny {
                assert(cy as int != ty);
            }
        }
        assert(target.subrange(0, k + 1) =~= target);
    }
    path
}

/// A snake after an edit: alive exactly when it has a body, with full health when it comes back
/// to life and no health when it has none.
pub open spec fn synced(m: SnakeModel) -> SnakeModel {
    let alive = m.body.len() > 0;
    SnakeModel {
        id: m.id,
        name: m.name,
        body: m.body,
        health: if !alive { 0 } else if m.health <= 0 { 100 } else { m.health },
        alive,
    }
}

/// A copy of `s` with the given body, health and liveness.
fn remade(s: &Snake, body: VecDeque<Point>, health: i32, alive: bool) -> (r: Snake)
    ensures
        model_of(r) == (SnakeModel { id: s.id.0@, name: s.name@, body: body@, health: health as int, alive }),
{
    Snake { id: SnakeId(s.id.0.clone()), name: s.name.clone(), body, health, alive }
}

/// Brings every snake in line with its body after an edit (see `synced`).
pub fn sync_snake_state_after_edit(snakes: &mut Vec<Snake>)
    ensures
        models_of(final(snakes)@) == models_of(old(snakes)@).map_values(|m: SnakeModel| synced(m)),
{
    let ghost before = models_of(snakes@);
    let mut i: usize = 0;
    while i < snakes.len()
        invariant
            i <= snakes@.len(),
            snakes@.len() == before.len(),
            forall|k: int| 0 <= k < i ==> #[trigger] model_of(snakes@[k]) == synced(before[k]),
            forall|k: int| i <= k < snakes@.len() ==> #[trigger] model_of(snakes@[k]) == before[k],
        decreases snakes@.len() - i,
    {
        let ghost m = before[i as int];
        let s = &snakes[i];
        assert(model_of(*s) == m);
        let points = points_of_deque(&s.body);
        let alive = points.len() > 0;
        let health = if !alive { 0 } else if s.health <= 0 { 100 } else { s.health };
        let body = deque_from_points(points.as_slice());
        let n = remade(s, body, health, alive);
        assert(model_of(n) == synced(m));
        snakes.set(i, n);
        i += 1;
    }
    proof {
        assert(models_of(snakes@) =~= before.map_values(|m: SnakeModel| synced(m)));
    }
}

/// `ps` without the points at `(x, y)`.
pub open spec fn without_cell(ps: Seq<Point>, x: int, y: int) -> Seq<Point> {
    ps.filter(|p: Point| !(p.x == x && p.y == y))
}

/// `ps` without the points at `(x, y)`.
fn erase_cell(ps: &Vec<Point>, x: i32, y: i32) -> (r: Vec<Point>)
    ensures
        r@ == without_cell(ps@, x as int, y as int),
{
    let mut r: Vec<Point> = Vec::new();
    let mut i: usize = 0;
    while i < ps.len()
        invariant
            i <= ps@.len(),
            r@ == without_cell(ps@.subrange(0, i as int), x as int, y as int),
        decreases ps@.len() - i,
    {
        proof {
            reveal(Seq::filter);
            assert(ps@.subrange(0, i + 1).drop_last() =~= ps@.subrange(0, i as int));
        }
        let p = ps[i];
        if !(p.x == x && p.y == y) {
            r.push(p);
        }
        i += 1;
    }
    proof {
        assert(ps@.subrange(0, i as int) =~= ps@);
    }
    r
}

/// The first index of a point at `(x, y)` in `ps`, or `ps.len()`.
pub open spec fn cell_index(ps: Seq<Point>, x: int, y: int) -> int
    decreases ps.len(),
{
    if ps.len() == 0 {
        0
    } else if ps[0].x == x && ps[0].y == y {
        0
    } else {
        1 + cell_index(ps.drop_first(), x, y)
    }
}

/// The body a paint stroke leaves: the old body (none when the stroke is new) cut before the
/// painted cell when it already holds it, then the painted cell appended.
pub open spec fn painted_body(body: Seq<Point>, x: int, y: int, new_stroke: bool) -> Seq<Point> {
    let b0 = if new_stroke { Seq::empty() } else { body };
    b0.take(cell_index(b0, x, y)).push(Point { x: x as i32, y: y as i32 })
}

/// The first index of a point at `(x, y)` in `ps`, or `ps.len()` (see `cell_index`).
fn find_cell(ps: &Vec<Point>, x: i32, y: i32) -> (k: usize)
    ensures
        k as int == cell_index(ps@, x as int, y as int),
        k <= ps@.len(),
{
    let mut k: usize = 0;
    proof {
        assert(ps@.skip(0) =~= ps@);
    }
    while k < ps.len()
        invariant
            k <= ps@.len(),
            cell_index(ps@, x as int, y as int) == k + cell_index(ps@.skip(k as int), x as int, y as int),
        decreases ps@.len() - k,
    {
        if ps[k].x == x && ps[k].y == y {
            return k;
        }
        proof {
            assert(ps@.skip(k as int).drop_first() =~= ps@.skip(k + 1));
        }
        k += 1;
    }
    k
}

/// The food after an edit at `(x, y)`: erased there, or added there unless food already is.
pub open spec fn edited_food(food: Seq<Point>, mode: EditMode, x: int, y: int) -> Seq<Point> {
    match mode {
        EditMode::Erase => without_cell(food, x, y),
        EditMode::Food => if cell_index(food, x, y) < food.len() { food } else { food.push(Point { x: x as i32, y: y as i32 }) },
        _ => food,
    }
}

/// Whether `t` names snake `i`.
pub open spec fn is_target(t: Option<usize>, i: int) -> bool {
    t matches Some(j) && j as int == i
}

/// The snake a paint stroke paints: the first `s1` for the player, the first `s2` for the AI.
pub open spec fn paint_target(snakes: Seq<Snake>, mode: EditMode) -> Option<usize> {
    match mode {
        EditMode::PaintP1 => first_with_id(snakes, "s1"@),
        EditMode::PaintAi => first_with_id(snakes, "s2"@),
        _ => None,
    }
}

/// Snake `i` after an edit at `(x, y)`, before it is brought in line with its body: its body
/// erased there, or painted when it is the painted snake (full health, alive).
pub open spec fn edited_snake(m: SnakeModel, i: int, target: Option<usize>, mode: EditMode, x: int, y: int, new_stroke: bool) -> SnakeModel {
    match mode {
        EditMode::Erase => SnakeModel { id: m.id, name: m.name, body: without_cell(m.body, x, y), health: m.health, alive: m.alive },
        EditMode::Food => m,
        _ => if is_target(target, i) {
            SnakeModel { id: m.id, name: m.name, body: painted_body(m.body, x, y, new_stroke), health: 100, alive: true }
        } else {
            m
        },
    }
}

/// The snakes after an edit at `(x, y)` (see `edited_snake` and `synced`).
pub open spec fn edited_snakes(snakes: Seq<Snake>, mode: EditMode, x: int, y: int, new_stroke: bool) -> Seq<SnakeModel> {
    let ms = models_of(snakes);
    let target = paint_target(snakes, mode);
    Seq::new(ms.len(), |i: int| synced(edited_snake(ms[i], i, target, mode, x, y, new_stroke)))
}

/// Erases `(x, y)` from every body.
fn erase_in_snakes(snakes: &mut Vec<Snake>, x: i32, y: i32)
    ensures
        models_of(final(snakes)@) == Seq::new(models_of(old(snakes)@).len(),
            |i: int| edited_snake(models_of(old(snakes)@)[i], i, None, EditMode::Erase, x as int, y as int, false)),
{
    let ghost ms = models_of(snakes@);
    let mut i: usize = 0;
    while i < snakes.len()
        invariant
            i <= snakes@.len(),
            snakes@.len() == ms.len(),
            forall|k: int| 0 <= k < i ==> #[trigger] model_of(snakes@[k]) == edited_snake(ms[k], k, None, EditMode::Erase, x as int, y as int, false),
            forall|k: int| i <= k < ms.len() ==> #[trigger] model_of(snakes@[k]) == ms[k],
        decreases ms.len() - i,
    {
        let ghost m = ms[i as int];
        let s = &snakes[i];
        assert(model_of(*s) == m);
        let body = erase_cell(&points_of_deque(&s.body), x, y);
        let n = remade(s, deque_from_points(body.as_slice()), s.health, s.alive);
        assert(model_of(n) == edited_snake(m, i as int, None, EditMode::Erase, x as int, y as int, false));
        snakes.set(i, n);
        i += 1;
    }
    proof {
        assert(models_of(snakes@) =~= Seq::new(ms.len(), |i: int| edited_snake(ms[i], i, None, EditMode::Erase, x as int, y as int, false)));
    }
}

/// Paints `(x, y)` onto the body of the first snake with id `id` (see `painted_body`), with full
/// health and alive.
fn paint_in_snakes(snakes: &mut Vec<Snake>, id: &str, x: i32, y: i32, is_new_stroke: bool)
    ensures
        ({
            let ms = models_of(old(snakes)@);
            let t = first_with_id(old(snakes)@, id@);
            models_of(final(snakes)@) == Seq::new(ms.len(), |i: int| if is_target(t, i) {
                SnakeModel { id: ms[i].id, name: ms[i].name, body: painted_body(ms[i].body, x as int, y as int, is_new_stroke), health: 100, alive: true }
            } else {
                ms[i]
            })
        }),
{
    let ghost ms = models_of(snakes@);
    let ghost t = first_with_id(snakes@, id@);
    match find_snake(snakes, id) {
        Some(i) => {
            let s = &snakes[i];
            let body0: Vec<Point> = if is_new_stroke { Vec::new() } else { points_of_deque(&s.body) };
            let k = find_cell(&body0, x, y);
            let mut body1 = body0;
            body1.truncate(k);
            body1.push(Point { x, y });
            proof {
                assert(body1@ =~= painted_body(ms[i as int].body, x as int, y as int, is_new_stroke));
            }
            let n = remade(s, deque_from_points(body1.as_slice()), 100, true);
            assert(t == Some(i));
            assert(model_of(n) == (SnakeModel { id: ms[i as int].id, name: ms[i as int].name,
                body: painted_body(ms[i as int].body, x as int, y as int, is_new_stroke), health: 100, alive: true }));
            snakes.set(i, n);
            assert forall|k: int| 0 <= k < ms.len() && k != i implies #[trigger] model_of(snakes@[k]) == ms[k] by {}
        },
        None => {
            assert(t is None);
        },
    }
    proof {
        assert(models_of(snakes@) =~= Seq::new(ms.len(), |i: int| if is_target(t, i) {
            SnakeModel { id: ms[i].id, name: ms[i].name, body: painted_body(ms[i].body, x as int, y as int, is_new_stroke), health: 100, alive: true }
        } else {
            ms[i]
        }));
    }
}

/// Whether two positions are the same as far as the game goes: turn, seed, board size, food and
/// snakes.
pub open spec fn same_position(a: GameState, b: GameState) -> bool {
    &&& a.turn == b.turn
    &&& a.seed == b.seed
    &&& a.board.width == b.board.width
    &&& a.board.height == b.board.height
    &&& a.board.food@ == b.board.food@
    &&& models_of(a.board.snakes@) == models_of(b.board.snakes@)
}

/// Whether a position is within the simulator's limits (see `can_simulate`).
pub open spec fn simulable(s: GameState) -> bool {
    0 <= s.board.width * s.board.height <= 448 && s.turn < u32::MAX && turn_fits(models_of(s.board.snakes@))
}

/// Whether `after` is `before` played one turn with the player `s1` moving `p` and the AI `s2`
/// moving `a` under the standard rules (see `simulate_turn`), the generator going from `rb` to
/// `ra` as the food is spawned.
pub open spec fn played_turn(before: GameState, after: GameState, rb: LcgRng, ra: LcgRng, p: Direction, a: Direction) -> bool {
    &&& after.turn == before.turn + 1
    &&& after.board.width == before.board.width
    &&& after.board.height == before.board.height
    &&& exists|intents: Seq<(SnakeId, Direction)>, cfg: SimConfig| {
        &&& intents.len() == 2
        &&& intents[0].0.0@ == "s1"@ && intents[0].1 == p
        &&& intents[1].0.0@ == "s2"@ && intents[1].1 == a
        &&& cfg.max_health == 100 && cfg.food.initial_food == 3 && cfg.food.minimum_food == 1
            && cfg.food.food_spawn_chance == 15
        &&& #[trigger] models_of(after.board.snakes@) == remove_dead(moved_state(before, intents, cfg).0, turn_deaths(before, intents, cfg))
        &&& (after.board.food@, ra) == spawn_spec(rb, before.board.width as int, before.board.height as int,
            after.board.snakes@, moved_state(before, intents, cfg).1, cfg.food)
    }
}

/// A copy of a position.
fn copy_state(state: &GameState) -> (r: GameState)
    ensures
        same_position(r, *state),
{
    let mut snakes: Vec<Snake> = Vec::new();
    let mut i: usize = 0;
    while i < state.board.snakes.len()
        invariant
            i <= state.board.snakes@.len(),
            models_of(snakes@) == models_of(state.board.snakes@.subrange(0, i as int)),
        decreases state.board.snakes@.len() - i,
    {
        let s = &state.board.snakes[i];
        let n = remade(s, deque_from_points(points_of_deque(&s.body).as_slice()), s.health, s.alive);
        let ghost before = snakes@;
        snakes.push(n);
        proof {
            assert(models_of(snakes@) =~= models_of(before).push(model_of(n)));
            assert(state.board.snakes@.subrange(0, i + 1) =~= state.board.snakes@.subrange(0, i as int).push(state.board.snakes@[i as int]));
            assert(models_of(state.board.snakes@.subrange(0, i + 1)) =~= models_of(state.board.snakes@.subrange(0, i as int)).push(model_of(state.board.snakes@[i as int])));
        }
        i += 1;
    }
    proof {
        assert(state.board.snakes@.subrange(0, i as int) =~= state.board.snakes@);
    }
    GameState {
        turn: state.turn,
        seed: state.seed,
        board: Board { width: state.board.width, height: state.board.height, food: state.board.food.clone(), snakes },
    }
}

/// The playground: the position being played or edited, its generator, the player's direction and
/// queued turns, the AI's line of play being shown, and whether it plays on by itself.
#[derive(Debug, Clone)]
pub struct Playground {
    pub state: GameState,
    pub rng: LcgRng,
    pub player_dir: Direction,
    pub input_queue: Vec<Direction>,
    pub pv_line: Vec<Direction>,
    pub pv_index: usize,
    pub auto_run: bool,
}

/// The player and the AI when both are on the board and alive: the first `s1` and the first `s2`.
pub open spec fn living_sides(snakes: Seq<Snake>) -> Option<(usize, usize)> {
    match (first_with_id(snakes, "s1"@), first_with_id(snakes, "s2"@)) {
        (Some(p), Some(a)) => if snakes[p as int].alive && snakes[a as int].alive { Some((p, a)) } else { None },
        _ => None,
    }
}

/// The direction a turn request leaves the player with, given its current direction: unchanged
/// when the request would turn the head back onto the neck, else the request.
pub open spec fn turned_dir(snakes: Seq<Snake>, current: Direction, dir: Direction) -> Option<Direction> {
    match first_with_id(snakes, "s1"@) {
        None => Some(dir),
        Some(i) => {
            let b = snakes[i as int].body@;
            if b.len() > 1 && b[0].x + spec_vector(dir).0 == b[1].x && b[0].y + spec_vector(dir).1 == b[1].y {
                None
            } else {
                Some(dir)
            }
        },
    }
}

impl Playground {
    /// A new game on a `width` by `height` board (see `build_playground_state`), stopped, with the
    /// player facing up and nothing queued or shown.
    pub fn new(width: i32, height: i32) -> (p: Self)
        requires
            width >= i32::MIN + 3,
            height >= i32::MIN + 3,
            (if width > 0 { width as int } else { 0 }) * (if height > 0 { height as int } else { 0 }) <= i32::MAX,
        ensures
            p.state.turn == 0,
            p.state.board.width == width,
            p.state.board.height == height,
            p.player_dir == Direction::Up,
            p.input_queue@.len() == 0,
            p.pv_line@.len() == 0,
            p.pv_index == 0,
            !p.auto_run,
            fresh_game(p.state, p.rng, width, height, 1),
    {
        let (state, rng) = build_playground_state(width, height, 1);
        Playground { state, rng, player_dir: Direction::Up, input_queue: Vec::new(), pv_line: Vec::new(), pv_index: 0, auto_run: false }
    }

    /// Starts a new game on the same board size (see `new`).
    pub fn reset_playground(&mut self)
        requires
            old(self).state.board.width >= i32::MIN + 3,
            old(self).state.board.height >= i32::MIN + 3,
            (if old(self).state.board.width > 0 { old(self).state.board.width as int } else { 0 })
                * (if old(self).state.board.height > 0 { old(self).state.board.height as int } else { 0 }) <= i32::MAX,
        ensures
            final(self).state.turn == 0,
            final(self).state.board.width == old(self).state.board.width,
            final(self).state.board.height == old(self).state.board.height,
            final(self).player_dir == Direction::Up,
            final(self).input_queue@.len() == 0,
            final(self).pv_line@.len() == 0,
            final(self).pv_index == 0,
            !final(self).auto_run,
            fresh_game(final(self).state, final(self).rng, old(self).state.board.width, old(self).state.board.height, 1),
    {
        *self = Playground::new(self.state.board.width, self.state.board.height);
    }

    /// Applies one cell of an edit stroke at `(x, y)` (see `edited_food` and `edited_snakes`); the
    /// rest of the playground is left alone.
    pub fn apply_edit_cell(&mut self, mode: EditMode, x: i32, y: i32, is_new_stroke: bool)
        ensures
            final(self).state.board.food@ == edited_food(old(self).state.board.food@, mode, x as int, y as int),
            models_of(final(self).state.board.snakes@) == edited_snakes(old(self).state.board.snakes@, mode, x as int, y as int, is_new_stroke),
            final(self).state.turn == old(self).state.turn,
            final(self).state.seed == old(self).state.seed,
            final(self).state.board.width == old(self).state.board.width,
            final(self).state.board.height == old(self).state.board.height,
            final(self).rng == old(self).rng,
            final(self).player_dir == old(self).player_dir,
            final(self).input_queue@ == old(self).input_queue@,
            final(self).pv_line@ == old(self).pv_line@,
            final(self).pv_index == old(self).pv_index,
            final(self).auto_run == old(self).auto_run,
    {
        let ghost snakes0 = self.state.board.snakes@;
        let ghost ms = models_of(snakes0);
        let ghost target = paint_target(snakes0, mode);
        match mode {
            EditMode::Erase => {
                self.state.board.food = erase_cell(&self.state.board.food, x, y);
                erase_in_snakes(&mut self.state.board.snakes, x, y);
            },
            EditMode::Food => {
                let k = find_cell(&self.state.board.food, x, y);
                if k == self.state.board.food.len() {
                    self.state.board.food.push(Point { x, y });
                }
            },
            EditMode::PaintP1 => {
                paint_in_snakes(&mut self.state.board.snakes, "s1", x, y, is_new_stroke);
            },
            EditMode::PaintAi => {
                paint_in_snakes(&mut self.state.board.snakes, "s2", x, y, is_new_stroke);
            },
        }
        proof {
            assert(models_of(self.state.board.snakes@) =~= Seq::new(ms.len(), |i: int| edited_snake(ms[i], i, target, mode, x as int, y as int, is_new_stroke)));
        }
        sync_snake_state_after_edit(&mut self.state.board.snakes);
        proof {
            assert(models_of(self.state.board.snakes@) =~= edited_snakes(snakes0, mode, x as int, y as int, is_new_stroke));
        }
    }

    /// Turns the player to `dir` and drops the queued turns, unless that would turn its head back
    /// onto its neck (see `turned_dir`).
    pub fn set_player_dir(&mut self, dir: Direction)
        ensures
            match turned_dir(old(self).state.board.snakes@, old(self).player_dir, dir) {
                None => *final(self) == *old(self),
                Some(d) => final(self).player_dir == d
                    && (first_with_id(old(self).state.board.snakes@, "s1"@) is Some ==> final(self).input_queue@.len() == 0)
                    && (first_with_id(old(self).state.board.snakes@, "s1"@) is None ==> final(self).input_queue@ == old(self).input_queue@),
            },
            final(self).state == old(self).state,
            final(self).rng == old(self).rng,
            final(self).pv_line@ == old(self).pv_line@,
            final(self).pv_index == old(self).pv_index,
            final(self).auto_run == old(self).auto_run,
    {
        match find_snake(&self.state.board.snakes, "s1") {
            None => {
                self.player_dir = dir;
            },
            Some(i) => {
                let s = &self.state.board.snakes[i];
                let b = points_of_deque(&s.body);
                if b.len() > 1 {
                    let v = dir.vector();
                    let blocked = (b[0].x as i64 + v.0 as i64 == b[1].x as i64) && (b[0].y as i64 + v.1 as i64 == b[1].y as i64);
                    if blocked {
                        return;
                    }
                }
                self.input_queue.clear();
                self.player_dir = dir;
            },
        }
    }

    /// Queues a turn: ignored when it repeats or reverses the last queued one (or the current
    /// direction when none is queued), and when two are already queued.
    pub fn queue_player_input(&mut self, dir: Direction)
        ensures
            ({
                let q = old(self).input_queue@;
                let last = if q.len() > 0 { q.last() } else { old(self).player_dir };
                final(self).input_queue@ == if dir == last || opposite(dir, last) || q.len() >= 2 { q } else { q.push(dir) }
            }),
            final(self).player_dir == old(self).player_dir,
            final(self).state == old(self).state,
            final(self).rng == old(self).rng,
            final(self).pv_line@ == old(self).pv_line@,
            final(self).pv_index == old(self).pv_index,
            final(self).auto_run == old(self).auto_run,
    {
        let n = self.input_queue.len();
        let last = if n > 0 { self.input_queue[n - 1] } else { self.player_dir };
        if dir == last || is_opposite(dir, last) {
            return;
        }
        if n < 2 {
            self.input_queue.push(dir);
        }
    }

    /// The indices of the player and the AI when both are on the board and alive (see
    /// `living_sides`).
    pub fn living_player_and_ai(&self) -> (r: Option<(usize, usize)>)
        ensures
            r == living_sides(self.state.board.snakes@),
            r matches Some((p, a)) ==> p < self.state.board.snakes@.len() && a < self.state.board.snakes@.len(),
    {
        match (find_snake(&self.state.board.snakes, "s1"), find_snake(&self.state.board.snakes, "s2")) {
            (Some(p), Some(a)) => {
                if self.state.board.snakes[p].alive && self.state.board.snakes[a].alive { Some((p, a)) } else { None }
            },
            _ => None,
        }
    }

    /// Whether the game can go on: both sides alive.
    pub fn playground_can_run(&self) -> (r: bool)
        ensures
            r == living_sides(self.state.board.snakes@) is Some,
    {
        self.living_player_and_ai().is_some()
    }

    /// Starts (when the game can go on) or stops playing by itself.
    pub fn set_playground_running(&mut self, playing: bool)
        ensures
            final(self).auto_run == (playing && living_sides(old(self).state.board.snakes@) is Some),
            final(self).state == old(self).state,
            final(self).rng == old(self).rng,
            final(self).player_dir == old(self).player_dir,
            final(self).input_queue@ == old(self).input_queue@,
            final(self).pv_line@ == old(self).pv_line@,
            final(self).pv_index == old(self).pv_index,
    {
        self.auto_run = playing && self.playground_can_run();
    }

    /// Stops playing by itself once the game cannot go on.
    pub fn sync_playground_playback(&mut self)
        ensures
            final(self).auto_run == (old(self).auto_run && living_sides(old(self).state.board.snakes@) is Some),
            final(self).state == old(self).state,
            final(self).rng == old(self).rng,
            final(self).player_dir == old(self).player_dir,
            final(self).input_queue@ == old(self).input_queue@,
            final(self).pv_line@ == old(self).pv_line@,
            final(self).pv_index == old(self).pv_index,
    {
        if self.auto_run && !self.playground_can_run() {
            self.auto_run = false;
        }
    }

    /// The first half of a turn: stops playing by itself when the game cannot go on, clears the
    /// line shown, and when both sides live takes the next queued turn as the player's direction
    /// and returns the indices of the player and the AI, for the AI's move to be decided.
    pub fn begin_step(&mut self) -> (r: Option<(usize, usize)>)
        ensures
            r == living_sides(old(self).state.board.snakes@),
            r matches Some((p, a)) ==> p < final(self).state.board.snakes@.len() && a < final(self).state.board.snakes@.len(),
            final(self).auto_run == (old(self).auto_run && r is Some),
            final(self).pv_line@.len() == 0,
            final(self).pv_index == 0,
            final(self).state == old(self).state,
            final(self).rng == old(self).rng,
            r is Some && old(self).input_queue@.len() > 0 ==> final(self).player_dir == old(self).input_queue@[0]
                && final(self).input_queue@ == old(self).input_queue@.drop_first(),
            !(r is Some && old(self).input_queue@.len() > 0) ==> final(self).player_dir == old(self).player_dir
                && final(self).input_queue@ == old(self).input_queue@,
    {
        self.sync_playground_playback();
        self.pv_line = Vec::new();
        self.pv_index = 0;
        let sides = self.living_player_and_ai();
        if sides.is_some() && self.input_queue.len() > 0 {
            self.player_dir = self.input_queue.remove(0);
        }
        sides
    }

    /// The second half of a turn: the player `s1` plays its direction and the AI `s2` plays
    /// `ai_move` (see `simulate_turn`); then playing by itself stops when the game cannot go on.
    /// `None`, with nothing changed, when the position is outside the simulator's limits (see
    /// `can_simulate`).
    pub fn finish_step(&mut self, ai_move: Direction) -> (r: Option<TurnSummary>)
        ensures
            r is None <==> !(0 <= old(self).state.board.width * old(self).state.board.height <= 448
                && old(self).state.turn < u32::MAX && turn_fits(models_of(old(self).state.board.snakes@))),
            r is None ==> *final(self) == *old(self),
            r is Some ==> {
                &&& final(self).state.turn == old(self).state.turn + 1
                &&& final(self).state.board.width == old(self).state.board.width
                &&& final(self).state.board.height == old(self).state.board.height
                &&& exists|intents: Seq<(SnakeId, Direction)>, cfg: SimConfig| {
                    &&& intents.len() == 2
                    &&& intents[0].0.0@ == "s1"@ && intents[0].1 == old(self).player_dir
                    &&& intents[1].0.0@ == "s2"@ && intents[1].1 == ai_move
                    &&& cfg.max_health == 100 && cfg.food.initial_food == 3 && cfg.food.minimum_food == 1
                        && cfg.food.food_spawn_chance == 15
                    &&& #[trigger] models_of(final(self).state.board.snakes@) == remove_dead(
                        moved_state(old(self).state, intents, cfg).0, turn_deaths(old(self).state, intents, cfg))
                    &&& (final(self).state.board.food@, final(self).rng) == spawn_spec(old(self).rng,
                        old(self).state.board.width as int, old(self).state.board.height as int,
                        final(self).state.board.snakes@, moved_state(old(self).state, intents, cfg).1, cfg.food)
                }
                &&& final(self).player_dir == old(self).player_dir
                &&& final(self).input_queue@ == old(self).input_queue@
                &&& final(self).pv_line@ == old(self).pv_line@
                &&& final(self).pv_index == old(self).pv_index
                &&& final(self).auto_run == (old(self).auto_run && living_sides(final(self).state.board.snakes@) is Some)
            },
    {
        if !can_simulate(&self.state) {
            return None;
        }
        let intents = vec![(SnakeId::from_str("s1"), self.player_dir), (SnakeId::from_str("s2"), ai_move)];
        let cfg = SimConfig::default();
        let ghost before = self.state;
        let summary = simulate_turn(&mut self.state, intents.as_slice(), &mut self.rng, cfg);
        proof {
            assert(intents@[0].0.0@ == "s1"@ && intents@[1].0.0@ == "s2"@);
            assert(models_of(self.state.board.snakes@) == remove_dead(moved_state(before, intents@, cfg).0, turn_deaths(before, intents@, cfg)));
        }
        self.sync_playground_playback();
        Some(summary)
    }


    /// The position the AI's line of play leads to after `pv_index` of its turns (at most as many
    /// as the line holds whole turns of): each turn the AI `s2` plays the line's next move and the
    /// player `s1` the one after, from a copy of the position and generator (the food each turn
    /// spawns is the generator's, see `played_turn`). The playing stops
    /// early only at a position outside the simulator's limits.
    pub fn get_projected_state(&self) -> (r: GameState)
        ensures
            ({
                let turns: int = if self.pv_index < self.pv_line@.len() / 2 { self.pv_index as int } else { (self.pv_line@.len() / 2) as int };
                exists|states: Seq<GameState>, rngs: Seq<LcgRng>| {
                    &&& 1 <= states.len() <= turns + 1
                    &&& rngs.len() == states.len()
                    &&& same_position(states[0], self.state)
                    &&& rngs[0] == self.rng
                    &&& states.last() == r
                    &&& forall|k: int| 0 <= k < states.len() - 1 ==> #[trigger] played_turn(states[k], states[k + 1],
                        rngs[k], rngs[k + 1], self.pv_line@[2 * k + 1], self.pv_line@[2 * k])
                    &&& states.len() <= turns ==> !simulable(states.last())
                }
            }),
    {
        let mut state = copy_state(&self.state);
        let mut rng = LcgRng::new(self.rng.state());
        proof {
            LcgRng::lemma_with_state(self.rng.spec_state());
        }
        let ghost mut rngs: Seq<LcgRng> = seq![rng];
        let max_turns = self.pv_line.len() / 2;
        let turns = if self.pv_index < max_turns { self.pv_index } else { max_turns };
        let ghost mut states: Seq<GameState> = seq![state];
        let mut t: usize = 0;
        while t < turns
            invariant_except_break
                t <= turns,
                turns <= self.pv_line@.len() / 2,
                states.len() == t + 1,
                rngs.len() == states.len(),
                same_position(states[0], self.state),
                rngs[0] == self.rng,
                states.last() == state,
                rngs.last() == rng,
                forall|k: int| 0 <= k < states.len() - 1 ==> #[trigger] played_turn(states[k], states[k + 1],
                    rngs[k], rngs[k + 1], self.pv_line@[2 * k + 1], self.pv_line@[2 * k]),
            ensures
                1 <= states.len() <= turns + 1,
                rngs.len() == states.len(),
                same_position(states[0], self.state),
                rngs[0] == self.rng,
                states.last() == state,
                forall|k: int| 0 <= k < states.len() - 1 ==> #[trigger] played_turn(states[k], states[k + 1],
                    rngs[k], rngs[k + 1], self.pv_line@[2 * k + 1], self.pv_line@[2 * k]),
                states.len() <= turns ==> !simulable(states.last()),
            decreases turns - t,
        {
            if !can_simulate(&state) {
                break;
            }
            assert(self.pv_line@.len() == self.pv_line.len());
            proof {
                let n = self.pv_line@.len() as int;
                assert(2 * (t + 1) <= n) by (nonlinear_arith)
                    requires t + 1 <= n / 2, n >= 0;
            }
            let m_s2 = self.pv_line[2 * t];
            let m_s1 = self.pv_line[2 * t + 1];
            let intents = vec![(SnakeId::from_str("s1"), m_s1), (SnakeId::from_str("s2"), m_s2)];
            let cfg = SimConfig::default();
            let ghost before = state;
            let ghost rng_before = rng;
            let _ = simulate_turn(&mut state, intents.as_slice(), &mut rng, cfg);
            proof {
                assert(intents@[0].0.0@ == "s1"@ && intents@[1].0.0@ == "s2"@);
                assert(models_of(state.board.snakes@) == remove_dead(moved_state(before, intents@, cfg).0, turn_deaths(before, intents@, cfg)));
                assert(played_turn(before, state, rng_before, rng, m_s1, m_s2));
                let prev = states;
                let prev_r = rngs;
                states = states.push(state);
                rngs = rngs.push(rng);
                assert forall|k: int| 0 <= k < states.len() - 1 implies #[trigger] played_turn(states[k], states[k + 1],
                    rngs[k], rngs[k + 1], self.pv_line@[2 * k + 1], self.pv_line@[2 * k]) by {
                    if k < prev.len() - 1 {
                        assert(states[k] == prev[k] && states[k + 1] == prev[k + 1]);
                        assert(rngs[k] == prev_r[k] && rngs[k + 1] == prev_r[k + 1]);
                    } else {
                        assert(states[k] == before && states[k + 1] == state);
                        assert(rngs[k] == rng_before && rngs[k + 1] == rng);
                    }
                }
            }
            t += 1;
        }
        state
    }
}

} // verus!
