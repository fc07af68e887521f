use vstd::prelude::*;
use crate::direction::{Direction, spec_vector};
use crate::types::{Point, Snake, SnakeId, GameState};
use crate::food::{FoodSettings, apply_standard_food_spawning, added_free_food, free_cells, in_bounds_spec, spawn_spec};
use crate::rng::RngSource;

verus! {

broadcast use vstd::std_specs::vecdeque::group_vec_dequeue_axioms;

/// Rules parameters for one simulated turn.
#[derive(Debug, Clone, Copy)]
pub struct SimConfig {
    pub max_health: i32,
    pub food: FoodSettings,
}

impl Default for SimConfig {
    fn default() -> (c: Self)
        ensures
            c.max_health == 100,
            c.food.initial_food == 3,
            c.food.minimum_food == 1,
            c.food.food_spawn_chance == 15,
    {
        SimConfig { max_health: 100, food: FoodSettings::default() }
    }
}

/// A snake that died this turn and why ("Wall", "Starvation", "Body" or "Head").
#[derive(Debug, Clone)]
pub struct DeathEvent {
    pub snake_id: SnakeId,
    pub reason: String,
}

/// What happened in one turn.
#[derive(Debug, Clone)]
pub struct TurnSummary {
    pub turn: u32,
    pub dead: Vec<DeathEvent>,
    pub alive_ids: Vec<SnakeId>,
}

/// The causes of death, checked in this order.
#[derive(Debug, Clone, Copy, PartialEq, Eq, Structural)]
pub enum DeathKind {
    Wall,
    Starvation,
    Body,
    Head,
}

/// The name a cause of death is reported under.
pub open spec fn reason_name(k: DeathKind) -> Seq<char> {
    match k {
        DeathKind::Wall => seq!['W', 'a', 'l', 'l'],
        DeathKind::Starvation => seq!['S', 't', 'a', 'r', 'v', 'a', 't', 'i', 'o', 'n'],
        DeathKind::Body => seq!['B', 'o', 'd', 'y'],
        DeathKind::Head => seq!['H', 'e', 'a', 'd'],
    }
}

/// The parts of a snake that the rules look at.
pub ghost struct SnakeModel {
    pub id: Seq<char>,
    pub name: Seq<char>,
    pub body: Seq<Point>,
    pub health: int,
    pub alive: bool,
}

/// The model of a snake.
pub open spec fn model_of(s: Snake) -> SnakeModel {
    SnakeModel { id: s.id.0@, name: s.name@, body: s.body@, health: s.health as int, alive: s.alive }
}

/// The models of a list of snakes.
pub open spec fn models_of(s: Seq<Snake>) -> Seq<SnakeModel> {
    s.map_values(|x: Snake| model_of(x))
}

/// The direction requested for snake `id` by the first matching intent at or after `k`; `Up` when none.
pub open spec fn intent_dir_from(intents: Seq<(SnakeId, Direction)>, id: Seq<char>, k: int) -> Direction
    decreases intents.len() - k,
{
    if k < 0 || k >= intents.len() {
        Direction::Up
    } else if intents[k].0.0@ == id {
        intents[k].1
    } else {
        intent_dir_from(intents, id, k + 1)
    }
}

/// The index of the first food item at or after `k` lying on `p`, or `food.len()` when none.
pub open spec fn first_food_from(food: Seq<Point>, p: Point, k: int) -> int
    decreases food.len() - k,
{
    if k < 0 || k >= food.len() {
        food.len() as int
    } else if food[k] == p {
        k
    } else {
        first_food_from(food, p, k + 1)
    }
}

/// `p` moved one step in `d`.
pub open spec fn moved_point(p: Point, d: Direction) -> Point {
    Point { x: (p.x + spec_vector(d).0) as i32, y: (p.y + spec_vector(d).1) as i32 }
}

/// One snake's move: a dead or empty snake is marked dead; a live one advances its head, eats the
/// first food item on the new head (health restored, tail kept) or loses its tail and one health.
pub open spec fn step_snake(m: SnakeModel, food: Seq<Point>, intents: Seq<(SnakeId, Direction)>, max_health: i32) -> (SnakeModel, Seq<Point>) {
    if !m.alive || m.body.len() == 0 {
        (SnakeModel { alive: false, ..m }, food)
    } else {
        let head = moved_point(m.body[0], intent_dir_from(intents, m.id, 0));
        let grown = seq![head] + m.body;
        let fi = first_food_from(food, head, 0);
        if fi < food.len() {
            (SnakeModel { body: grown, health: max_health as int, ..m }, food.remove(fi))
        } else {
            (SnakeModel { body: grown.drop_last(), health: m.health - 1, ..m }, food)
        }
    }
}

/// `first_food_from` finds the first item on `p` at or after `k`.
proof fn lemma_first_food(food: Seq<Point>, p: Point, k: int)
    requires
        0 <= k,
    ensures
        first_food_from(food, p, k) <= food.len(),
        first_food_from(food, p, k) < food.len() ==> k <= first_food_from(food, p, k) && food[first_food_from(food, p, k)] == p,
        forall|j: int| k <= j < first_food_from(food, p, k) ==> #[trigger] food[j] != p,
    decreases food.len() - k,
{
    if k < food.len() && food[k] != p {
        lemma_first_food(food, p, k + 1);
    }
}

/// One snake's move: a live snake with a body puts its head one cell up, down, left or right as
/// its move asks (the first move listed for its identifier, up when none is). When food lies on
/// the new head it eats the first such item, which leaves the board, grows by one segment and
/// gets `max_health`; otherwise its tail segment goes and it loses one health. A dead or empty
/// snake is marked dead and nothing else changes.
pub proof fn lemma_step_snake(m: SnakeModel, food: Seq<Point>, intents: Seq<(SnakeId, Direction)>, max_health: i32)
    requires
        m.body.len() > 0 ==> i32::MIN < m.body[0].x < i32::MAX && i32::MIN < m.body[0].y < i32::MAX,
    ensures
        ({
            let (m2, food2) = step_snake(m, food, intents, max_health);
            let d = intent_dir_from(intents, m.id, 0);
            &&& m2.id == m.id && m2.name == m.name
            &&& !m.alive || m.body.len() == 0 ==> m2 == (SnakeModel { alive: false, ..m }) && food2 == food
            &&& m.alive && m.body.len() > 0 ==> {
                let nh = m2.body[0];
                &&& m2.alive
                &&& nh.x == m.body[0].x + match d { Direction::Right => 1int, Direction::Left => -1int, _ => 0int }
                &&& nh.y == m.body[0].y + match d { Direction::Up => 1int, Direction::Down => -1int, _ => 0int }
                &&& food.contains(nh) ==> exists|f: int| {
                    &&& 0 <= f < food.len() && food[f] == nh
                    &&& forall|j: int| 0 <= j < f ==> #[trigger] food[j] != nh
                    &&& food2 == food.remove(f)
                    &&& m2.body == seq![nh] + m.body
                    &&& m2.health == max_health
                }
                &&& !food.contains(nh) ==> m2.body == seq![nh] + m.body.drop_last() && m2.health == m.health - 1 && food2 == food
            }
        }),
{
    if m.alive && m.body.len() > 0 {
        let d = intent_dir_from(intents, m.id, 0);
        let head = moved_point(m.body[0], d);
        lemma_first_food(food, head, 0);
        let fi = first_food_from(food, head, 0);
        let (m2, food2) = step_snake(m, food, intents, max_health);
        assert(m2.body[0] == head);
        if food.contains(head) {
            let j = choose|j: int| 0 <= j < food.len() && food[j] == head;
            assert(fi < food.len());
        } else if fi < food.len() {
            assert(food.contains(food[fi]));
        }
    }
}

/// The snakes and food after the first `n` snakes have moved, in list order.
pub open spec fn move_phase(ms: Seq<SnakeModel>, food: Seq<Point>, intents: Seq<(SnakeId, Direction)>, max_health: i32, n: nat) -> (Seq<SnakeModel>, Seq<Point>)
    decreases n,
{
    if n == 0 || n > ms.len() {
        (ms, food)
    } else {
        let prev = move_phase(ms, food, intents, max_health, (n - 1) as nat);
        let stepped = step_snake(prev.0[n - 1], prev.1, intents, max_health);
        (prev.0.update(n - 1, stepped.0), stepped.1)
    }
}

/// Whether a non-head segment of a live snake lies on `p`.
pub open spec fn neck_covers(ms: Seq<SnakeModel>, p: Point) -> bool {
    exists|t: int, k: int| 0 <= t < ms.len() && ms[t].alive && 1 <= k < ms[t].body.len() && #[trigger] ms[t].body[k] == p
}

/// Whether another non-empty snake at least as long has its head on snake `i`'s head.
pub open spec fn loses_head_on(ms: Seq<SnakeModel>, i: int) -> bool {
    exists|j: int| 0 <= j < ms.len() && j != i && ms[j].body.len() > 0 && #[trigger] ms[j].body[0] == ms[i].body[0]
        && ms[i].body.len() <= ms[j].body.len()
}

/// Why snake `i` dies after the move phase, if it does.
pub open spec fn death_kind(ms: Seq<SnakeModel>, i: int, w: int, h: int) -> Option<DeathKind> {
    let m = ms[i];
    if !m.alive || m.body.len() == 0 {
        None
    } else if !in_bounds_spec(w, h, m.body[0]) {
        Some(DeathKind::Wall)
    } else if m.health <= 0 {
        Some(DeathKind::Starvation)
    } else if neck_covers(ms, m.body[0]) {
        Some(DeathKind::Body)
    } else if loses_head_on(ms, i) {
        Some(DeathKind::Head)
    } else {
        None
    }
}

/// The deaths among the first `n` snakes, in list order.
pub open spec fn deaths(ms: Seq<SnakeModel>, w: int, h: int, n: nat) -> Seq<(Seq<char>, DeathKind)>
    decreases n,
{
    if n == 0 || n > ms.len() {
        Seq::empty()
    } else {
        let prev = deaths(ms, w, h, (n - 1) as nat);
        match death_kind(ms, n - 1, w, h) {
            Some(k) => prev.push((ms[n - 1].id, k)),
            None => prev,
        }
    }
}

/// Whether some death event names `id`.
pub open spec fn named_dead(events: Seq<(Seq<char>, DeathKind)>, id: Seq<char>) -> bool {
    exists|e: int| 0 <= e < events.len() && #[trigger] events[e].0 == id
}

/// The snakes after the dead ones are marked dead and their bodies cleared.
pub open spec fn remove_dead(ms: Seq<SnakeModel>, events: Seq<(Seq<char>, DeathKind)>) -> Seq<SnakeModel> {
    ms.map_values(|m: SnakeModel| if named_dead(events, m.id) {
        SnakeModel { alive: false, body: Seq::empty(), ..m }
    } else {
        m
    })
}

/// The identifiers of live snakes with a body, in list order.
pub open spec fn alive_ids_of(ms: Seq<SnakeModel>) -> Seq<Seq<char>> {
    ms.filter(|m: SnakeModel| m.alive && m.body.len() > 0).map_values(|m: SnakeModel| m.id)
}


/// Every snake among the first `n` whose death is decided is named by a death event.
proof fn lemma_dead_are_named(ms: Seq<SnakeModel>, w: int, h: int, n: nat, i: int)
    requires
        0 <= i < n <= ms.len(),
        death_kind(ms, i, w, h) is Some,
    ensures
        named_dead(deaths(ms, w, h, n), ms[i].id),
    decreases n,
{
    let prev = deaths(ms, w, h, (n - 1) as nat);
    if i == n - 1 {
        let k = death_kind(ms, i, w, h)->Some_0;
        assert(deaths(ms, w, h, n) == prev.push((ms[i].id, k)));
        assert(deaths(ms, w, h, n)[prev.len() as int].0 == ms[i].id);
    } else {
        lemma_dead_are_named(ms, w, h, (n - 1) as nat, i);
        let e = choose|e: int| 0 <= e < prev.len() && #[trigger] prev[e].0 == ms[i].id;
        match death_kind(ms, n - 1, w, h) {
            Some(k) => {
                assert(deaths(ms, w, h, n)[e] == prev[e]);
            },
            None => {},
        }
    }
}

/// After the moves of a turn, a live snake whose head lies on any segment after the head of a live
/// snake (its own included, up to and including the last segment) dies: it is named among the
/// turn's deaths, is left dead with an empty body, and dies of `Wall` or `Starvation` if one of
/// those applies and of `Body` otherwise.
pub proof fn lemma_head_on_a_body_dies(ms: Seq<SnakeModel>, w: int, h: int, i: int, t: int, k: int)
    requires
        0 <= i < ms.len(),
        ms[i].alive,
        ms[i].body.len() > 0,
        0 <= t < ms.len(),
        ms[t].alive,
        1 <= k < ms[t].body.len(),
        ms[t].body[k] == ms[i].body[0],
    ensures
        named_dead(deaths(ms, w, h, ms.len()), ms[i].id),
        !remove_dead(ms, deaths(ms, w, h, ms.len()))[i].alive,
        remove_dead(ms, deaths(ms, w, h, ms.len()))[i].body.len() == 0,
        death_kind(ms, i, w, h) == Some(if !in_bounds_spec(w, h, ms[i].body[0]) {
            DeathKind::Wall
        } else if ms[i].health <= 0 {
            DeathKind::Starvation
        } else {
            DeathKind::Body
        }),
{
    assert(neck_covers(ms, ms[i].body[0]));
    lemma_dead_are_named(ms, w, h, ms.len(), i);
}

/// A snake named among the deaths of the first `n` snakes is one of them whose death is decided.
proof fn lemma_named_dead_has_cause(ms: Seq<SnakeModel>, w: int, h: int, n: nat, id: Seq<char>)
    requires
        n <= ms.len(),
        named_dead(deaths(ms, w, h, n), id),
    ensures
        exists|t: int| 0 <= t < n && ms[t].id == id && #[trigger] death_kind(ms, t, w, h) is Some,
    decreases n,
{
    if n > 0 {
        let prev = deaths(ms, w, h, (n - 1) as nat);
        let e = choose|e: int| 0 <= e < deaths(ms, w, h, n).len() && #[trigger] deaths(ms, w, h, n)[e].0 == id;
        if e < prev.len() {
            match death_kind(ms, n - 1, w, h) {
                Some(k) => { assert(deaths(ms, w, h, n)[e] == prev[e]); },
                None => {},
            }
            lemma_named_dead_has_cause(ms, w, h, (n - 1) as nat, id);
        } else {
            assert(death_kind(ms, n - 1, w, h) is Some);
        }
    }
}

/// The causes of death after the moves of a turn, for a live snake with a body: a head off the
/// board is `Wall`; on the board, health at or below zero is `Starvation`; otherwise a head on a
/// segment after the head of a live snake is `Body`, and a head on the head of another snake at
/// least as long is `Head`. A snake with none of these does not die, and when no two snakes share
/// an identifier it keeps its body and stays alive.
pub proof fn lemma_death_causes(ms: Seq<SnakeModel>, w: int, h: int, i: int)
    requires
        0 <= i < ms.len(),
        ms[i].alive,
        ms[i].body.len() > 0,
    ensures
        !in_bounds_spec(w, h, ms[i].body[0]) ==> death_kind(ms, i, w, h) == Some(DeathKind::Wall),
        in_bounds_spec(w, h, ms[i].body[0]) && ms[i].health <= 0 ==> death_kind(ms, i, w, h) == Some(DeathKind::Starvation),
        forall|j: int| 0 <= j < ms.len() && j != i && ms[j].body.len() > 0 && #[trigger] ms[j].body[0] == ms[i].body[0]
            && ms[i].body.len() <= ms[j].body.len() ==> {
                &&& death_kind(ms, i, w, h) is Some
                &&& named_dead(deaths(ms, w, h, ms.len()), ms[i].id)
                &&& !remove_dead(ms, deaths(ms, w, h, ms.len()))[i].alive
                &&& in_bounds_spec(w, h, ms[i].body[0]) && ms[i].health > 0 && !neck_covers(ms, ms[i].body[0])
                    ==> death_kind(ms, i, w, h) == Some(DeathKind::Head)
            },
        ({
            let p = ms[i].body[0];
            &&& in_bounds_spec(w, h, p)
            &&& ms[i].health > 0
            &&& forall|t: int, k: int| 0 <= t < ms.len() && ms[t].alive && 1 <= k < ms[t].body.len() ==> #[trigger] ms[t].body[k] != p
            &&& forall|j: int| 0 <= j < ms.len() && j != i && ms[j].body.len() > 0 && #[trigger] ms[j].body[0] == p
                ==> ms[i].body.len() > ms[j].body.len()
        }) ==> {
            &&& death_kind(ms, i, w, h) is None
            &&& (forall|a: int, b: int| 0 <= a < b < ms.len() ==> #[trigger] ms[a].id != #[trigger] ms[b].id)
                ==> remove_dead(ms, deaths(ms, w, h, ms.len()))[i] == ms[i]
        },
{
    assert forall|j: int| 0 <= j < ms.len() && j != i && ms[j].body.len() > 0 && #[trigger] ms[j].body[0] == ms[i].body[0]
        && ms[i].body.len() <= ms[j].body.len() implies {
            &&& death_kind(ms, i, w, h) is Some
            &&& named_dead(deaths(ms, w, h, ms.len()), ms[i].id)
            &&& !remove_dead(ms, deaths(ms, w, h, ms.len()))[i].alive
            &&& in_bounds_spec(w, h, ms[i].body[0]) && ms[i].health > 0 && !neck_covers(ms, ms[i].body[0])
                ==> death_kind(ms, i, w, h) == Some(DeathKind::Head)
        } by {
        assert(loses_head_on(ms, i));
        lemma_dead_are_named(ms, w, h, ms.len(), i);
    }
    let p = ms[i].body[0];
    if in_bounds_spec(w, h, p) && ms[i].health > 0
        && (forall|t: int, k: int| 0 <= t < ms.len() && ms[t].alive && 1 <= k < ms[t].body.len() ==> #[trigger] ms[t].body[k] != p)
        && (forall|j: int| 0 <= j < ms.len() && j != i && ms[j].body.len() > 0 && #[trigger] ms[j].body[0] == p
            ==> ms[i].body.len() > ms[j].body.len()) {
        assert(!neck_covers(ms, p));
        assert(!loses_head_on(ms, i));
        assert(death_kind(ms, i, w, h) is None);
        if forall|a: int, b: int| 0 <= a < b < ms.len() ==> #[trigger] ms[a].id != #[trigger] ms[b].id {
            let events = deaths(ms, w, h, ms.len());
            if named_dead(events, ms[i].id) {
                lemma_named_dead_has_cause(ms, w, h, ms.len(), ms[i].id);
                let t = choose|t: int| 0 <= t < ms.len() && ms[t].id == ms[i].id && #[trigger] death_kind(ms, t, w, h) is Some;
                if t < i {
                    assert(ms[t].id != ms[i].id);
                } else if t > i {
                    assert(ms[i].id != ms[t].id);
                }
            }
            assert(remove_dead(ms, events)[i] == ms[i]);
        }
    }
}

/// After the deaths of a turn are applied, every snake still alive with a body has its head on
/// the board, positive health, and its head clear of every live snake's body behind the head.
pub proof fn lemma_survivors_are_safe(ms: Seq<SnakeModel>, w: int, h: int)
    ensures
        forall|i: int| 0 <= i < ms.len() ==> {
            let r = #[trigger] remove_dead(ms, deaths(ms, w, h, ms.len()))[i];
            r.alive && r.body.len() > 0 ==> {
                &&& in_bounds_spec(w, h, r.body[0])
                &&& r.health > 0
                &&& !neck_covers(ms, r.body[0])
            }
        },
{
    let events = deaths(ms, w, h, ms.len());
    assert forall|i: int| 0 <= i < ms.len() implies {
        let r = #[trigger] remove_dead(ms, events)[i];
        r.alive && r.body.len() > 0 ==> {
            &&& in_bounds_spec(w, h, r.body[0])
            &&& r.health > 0
            &&& !neck_covers(ms, r.body[0])
        }
    } by {
        if death_kind(ms, i, w, h) is Some {
            lemma_dead_are_named(ms, w, h, ms.len(), i);
        }
    }
}

/// Moving the first `n` snakes leaves the later ones untouched and keeps the list length.
pub proof fn lemma_move_phase_frame(ms: Seq<SnakeModel>, food: Seq<Point>, intents: Seq<(SnakeId, Direction)>, max_health: i32, n: nat)
    requires
        n <= ms.len(),
    ensures
        move_phase(ms, food, intents, max_health, n).0.len() == ms.len(),
        forall|j: int| n <= j < ms.len() ==> #[trigger] move_phase(ms, food, intents, max_health, n).0[j] == ms[j],
    decreases n,
{
    if n > 0 {
        lemma_move_phase_frame(ms, food, intents, max_health, (n - 1) as nat);
    }
}

/// Whether two move tables hold, entry by entry, identifiers with the same text and the same moves.
pub open spec fn same_intents(a: Seq<(SnakeId, Direction)>, b: Seq<(SnakeId, Direction)>) -> bool {
    &&& a.len() == b.len()
    &&& forall|i: int| 0 <= i < a.len() ==> (#[trigger] a[i]).0.0@ == b[i].0.0@ && a[i].1 == b[i].1
}

/// Move tables that agree entry by entry ask the same move of every identifier.
proof fn lemma_intent_dir_congruent(a: Seq<(SnakeId, Direction)>, b: Seq<(SnakeId, Direction)>, id: Seq<char>, k: int)
    requires
        same_intents(a, b),
    ensures
        intent_dir_from(a, id, k) == intent_dir_from(b, id, k),
    decreases a.len() - k,
{
    if 0 <= k < a.len() {
        assert(a[k].0.0@ == b[k].0.0@);
        lemma_intent_dir_congruent(a, b, id, k + 1);
    }
}

/// Move tables that agree entry by entry move the snakes alike.
pub proof fn lemma_move_phase_congruent(ms: Seq<SnakeModel>, food: Seq<Point>, a: Seq<(SnakeId, Direction)>,
    b: Seq<(SnakeId, Direction)>, max_health: i32, n: nat)
    requires
        same_intents(a, b),
    ensures
        move_phase(ms, food, a, max_health, n) == move_phase(ms, food, b, max_health, n),
    decreases n,
{
    if n > 0 && n <= ms.len() {
        lemma_move_phase_congruent(ms, food, a, b, max_health, (n - 1) as nat);
        let prev = move_phase(ms, food, a, max_health, (n - 1) as nat);
        lemma_intent_dir_congruent(a, b, prev.0[n - 1].id, 0);
    }
}

/// Every death of a turn belongs to one of the first `n` snakes.
pub proof fn lemma_deaths_len(ms: Seq<SnakeModel>, w: int, h: int, n: nat)
    ensures
        deaths(ms, w, h, n).len() <= n,
    decreases n,
{
    if n > 0 && n <= ms.len() {
        lemma_deaths_len(ms, w, h, (n - 1) as nat);
    }
}

/// The snakes before the turn satisfy the arithmetic limits of one turn.
pub open spec fn turn_fits(ms: Seq<SnakeModel>) -> bool {
    forall|i: int| 0 <= i < ms.len() && ms[i].alive && ms[i].body.len() > 0 ==> {
        &&& i32::MIN < (#[trigger] ms[i]).body[0].x < i32::MAX
        &&& i32::MIN < ms[i].body[0].y < i32::MAX
        &&& ms[i].health > i32::MIN
    }
}

/// Moves every snake as `step_snake` describes, in list order.
fn move_snakes(state: &mut GameState, intents: &[(SnakeId, Direction)], max_health: i32)
    requires
        turn_fits(models_of(old(state).board.snakes@)),
    ensures
        final(state).board.width == old(state).board.width,
        final(state).board.height == old(state).board.height,
        final(state).turn == old(state).turn,
        final(state).seed == old(state).seed,
        final(state).board.snakes@.len() == old(state).board.snakes@.len(),
        models_of(final(state).board.snakes@) == move_phase(models_of(old(state).board.snakes@), old(state).board.food@, intents@, max_health, old(state).board.snakes@.len()).0,
        final(state).board.food@ == move_phase(models_of(old(state).board.snakes@), old(state).board.food@, intents@, max_health, old(state).board.snakes@.len()).1,
{
    let ghost m0 = models_of(state.board.snakes@);
    let ghost food0 = state.board.food@;
    let mut i: usize = 0;
    while i < state.board.snakes.len()
        invariant
            m0 == models_of(old(state).board.snakes@),
            food0 == old(state).board.food@,
            turn_fits(m0),
            state.board.width == old(state).board.width,
            state.board.height == old(state).board.height,
            state.turn == old(state).turn,
            state.seed == old(state).seed,
            state.board.snakes@.len() == m0.len(),
            i <= m0.len(),
            models_of(state.board.snakes@) == move_phase(m0, food0, intents@, max_health, i as nat).0,
            state.board.food@ == move_phase(m0, food0, intents@, max_health, i as nat).1,
        decreases m0.len() - i,
    {
        proof {
            lemma_move_phase_frame(m0, food0, intents@, max_health, i as nat);
            assert(models_of(state.board.snakes@)[i as int] == m0[i as int]);
        }
        let ghost before = state.board.snakes@;
        let ghost prev = move_phase(m0, food0, intents@, max_health, i as nat);
        let alive = state.board.snakes[i].alive;
        let empty = state.board.snakes[i].body.len() == 0;
        if !alive || empty {
            state.board.snakes[i].alive = false;
        } else {
            let mut dir = Direction::Up;
            let mut k: usize = 0;
            while k < intents.len()
                invariant_except_break
                    i < state.board.snakes@.len(),
                    k <= intents@.len(),
                    dir == Direction::Up,
                    intent_dir_from(intents@, state.board.snakes@[i as int].id.0@, 0)
                        == intent_dir_from(intents@, state.board.snakes@[i as int].id.0@, k as int),
                ensures
                    dir == intent_dir_from(intents@, state.board.snakes@[i as int].id.0@, 0),
                decreases intents@.len() - k,
            {
                if intents[k].0.0 == state.board.snakes[i].id.0 {
                    dir = intents[k].1;
                    break;
                }
                k += 1;
            }
            proof {
                assert(dir == intent_dir_from(intents@, state.board.snakes@[i as int].id.0@, 0));
            }
            let current_head = state.board.snakes[i].body[0];
            let head = current_head.moved(dir);
            let mut fi: usize = 0;
            while fi < state.board.food.len()
                invariant_except_break
                    fi <= state.board.food@.len(),
                    first_food_from(state.board.food@, head, 0) == first_food_from(state.board.food@, head, fi as int),
                ensures
                    fi == first_food_from(state.board.food@, head, 0),
                    fi <= state.board.food@.len(),
                decreases state.board.food@.len() - fi,
            {
                let f = state.board.food[fi];
                if f.x == head.x && f.y == head.y {
                    break;
                }
                fi += 1;
            }
            state.board.snakes[i].body.push_front(head);
            if fi < state.board.food.len() {
                state.board.food.remove(fi);
                state.board.snakes[i].health = max_health;
            } else {
                state.board.snakes[i].body.pop_back();
                state.board.snakes[i].health = state.board.snakes[i].health - 1;
            }
        }
        proof {
            let stepped = step_snake(prev.0[i as int], prev.1, intents@, max_health);
            assert(model_of(state.board.snakes@[i as int]) == stepped.0);
            assert(state.board.snakes@ == before.update(i as int, state.board.snakes@[i as int]));
            assert(models_of(state.board.snakes@) =~= prev.0.update(i as int, stepped.0));
        }
        i += 1;
    }
}


/// The events `dead` reports are exactly `events`.
pub open spec fn reports(dead: Seq<DeathEvent>, events: Seq<(Seq<char>, DeathKind)>) -> bool {
    &&& dead.len() == events.len()
    &&& forall|k: int| 0 <= k < dead.len() ==> (#[trigger] dead[k]).snake_id.0@ == events[k].0
        && dead[k].reason@ == reason_name(events[k].1)
}

/// A fresh copy of a snake identifier.
pub(crate) fn copy_id(id: &SnakeId) -> (r: SnakeId)
    ensures
        r.0@ == id.0@,
{
    SnakeId(id.0.clone())
}

/// The report text of a cause of death.
fn reason_string(k: DeathKind) -> (s: String)
    ensures
        s@ == reason_name(k),
{
    match k {
        DeathKind::Wall => {
            proof { reveal_strlit("Wall"); }
            "Wall".to_owned()
        },
        DeathKind::Starvation => {
            proof { reveal_strlit("Starvation"); }
            "Starvation".to_owned()
        },
        DeathKind::Body => {
            proof { reveal_strlit("Body"); }
            "Body".to_owned()
        },
        DeathKind::Head => {
            proof { reveal_strlit("Head"); }
            "Head".to_owned()
        },
    }
}

/// The deaths caused by the positions after the move phase, in list order.
fn find_deaths(snakes: &Vec<Snake>, width: i32, height: i32) -> (dead: Vec<DeathEvent>)
    requires
        0 <= width * height <= 448,
    ensures
        reports(dead@, deaths(models_of(snakes@), width as int, height as int, snakes@.len() as nat)),
{
    let ghost ms = models_of(snakes@);
    let ghost w = width as int;
    let ghost h = height as int;
    let mut body_grid = [false; 448];
    proof {
        assert forall|p: Point| in_bounds_spec(w, h, p) implies !#[trigger] body_grid[crate::food::cell_idx(w, p)] by {
            crate::food::lemma_cell_idx(w, h, p);
        }
    }
    let mut t: usize = 0;
    while t < snakes.len()
        invariant
            0 <= width * height <= 448,
            ms == models_of(snakes@),
            w == width,
            h == height,
            t <= snakes@.len(),
            forall|p: Point| in_bounds_spec(w, h, p) ==> #[trigger] body_grid[crate::food::cell_idx(w, p)] == (exists|u: int, k: int|
                0 <= u < t && ms[u].alive && 1 <= k < ms[u].body.len() && #[trigger] ms[u].body[k] == p),
        decreases snakes@.len() - t,
    {
        if snakes[t].alive && snakes[t].body.len() > 0 {
            let mut k: usize = 1;
            while k < snakes[t].body.len()
                invariant
                    0 <= width * height <= 448,
                    ms == models_of(snakes@),
                    w == width,
                    h == height,
                    t < snakes@.len(),
                    ms[t as int].alive,
                    1 <= k <= snakes@[t as int].body@.len(),
                    forall|p: Point| in_bounds_spec(w, h, p) ==> #[trigger] body_grid[crate::food::cell_idx(w, p)] == ((exists|u: int, j: int|
                        0 <= u < t && ms[u].alive && 1 <= j < ms[u].body.len() && #[trigger] ms[u].body[j] == p)
                        || (exists|j: int| 1 <= j < k && #[trigger] ms[t as int].body[j] == p)),
                decreases snakes@[t as int].body@.len() - k,
            {
                let part = snakes[t].body[k];
                let ghost old_grid = body_grid;
                if part.x >= 0 && part.x < width && part.y >= 0 && part.y < height {
                    let idx = crate::food::point_idx(width, height, part);
                    body_grid[idx] = true;
                }
                proof {
                    assert(ms[t as int].body[k as int] == part);
                    assert forall|p: Point| in_bounds_spec(w, h, p) implies
                        body_grid[crate::food::cell_idx(w, p)] == (old_grid[crate::food::cell_idx(w, p)] || p == part) by {
                        crate::food::lemma_cell_idx(w, h, p);
                        if in_bounds_spec(w, h, part) {
                            crate::food::lemma_cell_idx(w, h, part);
                        }
                    }
                }
                k += 1;
            }
        }
        proof {
            assert forall|p: Point| in_bounds_spec(w, h, p) implies #[trigger] body_grid[crate::food::cell_idx(w, p)] == (exists|u: int, j: int|
                0 <= u < t + 1 && ms[u].alive && 1 <= j < ms[u].body.len() && #[trigger] ms[u].body[j] == p) by {
                if exists|u: int, j: int| 0 <= u < t + 1 && ms[u].alive && 1 <= j < ms[u].body.len() && #[trigger] ms[u].body[j] == p {
                    let (u, j) = choose|u: int, j: int| 0 <= u < t + 1 && ms[u].alive && 1 <= j < ms[u].body.len() && #[trigger] ms[u].body[j] == p;
                    if u == t {
                        assert(ms[t as int].body[j] == p);
                    }
                }
            }
        }
        t += 1;
    }
    let mut dead: Vec<DeathEvent> = Vec::new();
    let mut idx: usize = 0;
    while idx < snakes.len()
        invariant
            0 <= width * height <= 448,
            ms == models_of(snakes@),
            w == width,
            h == height,
            idx <= snakes@.len(),
            forall|p: Point| in_bounds_spec(w, h, p) ==> #[trigger] body_grid[crate::food::cell_idx(w, p)] == neck_covers(ms, p),
            reports(dead@, deaths(ms, w, h, idx as nat)),
        decreases snakes@.len() - idx,
    {
        let ghost before = dead@;
        let mut kind: Option<DeathKind> = None;
        if snakes[idx].alive && snakes[idx].body.len() > 0 {
            let head = snakes[idx].body[0];
            if head.x < 0 || head.y < 0 || head.x >= width || head.y >= height {
                kind = Some(DeathKind::Wall);
            } else if snakes[idx].health <= 0 {
                kind = Some(DeathKind::Starvation);
            } else if body_grid[crate::food::point_idx(width, height, head)] {
                kind = Some(DeathKind::Body);
            } else {
                let mut head_hit = false;
                let mut o: usize = 0;
                while o < snakes.len()
                    invariant_except_break
                        ms == models_of(snakes@),
                        idx < snakes@.len(),
                        ms[idx as int].body.len() > 0,
                        head == ms[idx as int].body[0],
                        o <= snakes@.len(),
                        !head_hit,
                        forall|j: int| 0 <= j < o && j != idx && ms[j].body.len() > 0 && #[trigger] ms[j].body[0] == head
                            ==> ms[idx as int].body.len() > ms[j].body.len(),
                    ensures
                        head_hit == loses_head_on(ms, idx as int),
                    decreases snakes@.len() - o,
                {
                    if o != idx && snakes[o].body.len() > 0 {
                        let other_head = snakes[o].body[0];
                        if other_head.x == head.x && other_head.y == head.y && snakes[idx].body.len() <= snakes[o].body.len() {
                            head_hit = true;
                            proof {
                                assert(ms[o as int].body[0] == ms[idx as int].body[0]);
                            }
                            break;
                        }
                    }
                    o += 1;
                }
                if head_hit {
                    kind = Some(DeathKind::Head);
                }
            }
        }
        proof {
            assert(kind == death_kind(ms, idx as int, w, h));
        }
        if let Some(k) = kind {
            dead.push(DeathEvent { snake_id: copy_id(&snakes[idx].id), reason: reason_string(k) });
        }
        proof {
            assert(reports(dead@, deaths(ms, w, h, (idx + 1) as nat))) by {
                let ev = deaths(ms, w, h, (idx + 1) as nat);
                assert forall|k: int| 0 <= k < dead@.len() implies (#[trigger] dead@[k]).snake_id.0@ == ev[k].0
                    && dead@[k].reason@ == reason_name(ev[k].1) by {
                    if k < before.len() {
                        assert(dead@[k] == before[k]);
                    }
                }
            }
        }
        idx += 1;
    }
    dead
}


/// Marks every snake named by a death event dead and clears its body.
fn remove_dead_snakes(snakes: &mut Vec<Snake>, dead: &Vec<DeathEvent>, Ghost(events): Ghost<Seq<(Seq<char>, DeathKind)>>)
    requires
        reports(dead@, events),
    ensures
        final(snakes)@.len() == old(snakes)@.len(),
        models_of(final(snakes)@) == remove_dead(models_of(old(snakes)@), events),
{
    let ghost m0 = models_of(snakes@);
    let mut i: usize = 0;
    while i < snakes.len()
        invariant
            reports(dead@, events),
            m0 == models_of(old(snakes)@),
            snakes@.len() == m0.len(),
            i <= m0.len(),
            forall|j: int| 0 <= j < i ==> #[trigger] models_of(snakes@)[j] == remove_dead(m0, events)[j],
            forall|j: int| i <= j < m0.len() ==> #[trigger] models_of(snakes@)[j] == m0[j],
        decreases m0.len() - i,
    {
        let ghost before = snakes@;
        let mut hit = false;
        let mut d: usize = 0;
        while d < dead.len()
            invariant_except_break
                reports(dead@, events),
                i < snakes@.len(),
                d <= dead@.len(),
                !hit,
                forall|e: int| 0 <= e < d ==> #[trigger] events[e].0 != snakes@[i as int].id.0@,
            ensures
                hit == named_dead(events, snakes@[i as int].id.0@),
            decreases dead@.len() - d,
        {
            if dead[d].snake_id.0 == snakes[i].id.0 {
                hit = true;
                proof {
                    assert(events[d as int].0 == snakes@[i as int].id.0@);
                }
                break;
            }
            d += 1;
        }
        if hit {
            snakes[i].alive = false;
            snakes[i].body.clear();
        }
        proof {
            assert(snakes@ == before.update(i as int, snakes@[i as int]));
            assert forall|j: int| 0 <= j < i + 1 implies #[trigger] models_of(snakes@)[j] == remove_dead(m0, events)[j] by {
                if j < i {
                    assert(models_of(before)[j] == remove_dead(m0, events)[j]);
                } else {
                    assert(models_of(before)[j] == m0[j]);
                }
            }
            assert forall|j: int| i + 1 <= j < m0.len() implies #[trigger] models_of(snakes@)[j] == m0[j] by {
                assert(models_of(before)[j] == m0[j]);
            }
        }
        i += 1;
    }
    proof {
        assert(models_of(snakes@) =~= remove_dead(m0, events));
    }
}

/// The identifiers of live snakes with a body, in list order.
fn collect_alive_ids(snakes: &Vec<Snake>) -> (ids: Vec<SnakeId>)
    ensures
        ids@.map_values(|x: SnakeId| x.0@) == alive_ids_of(models_of(snakes@)),
{
    let ghost ms = models_of(snakes@);
    let ghost pred = |m: SnakeModel| m.alive && m.body.len() > 0;
    let mut ids: Vec<SnakeId> = Vec::new();
    let mut i: usize = 0;
    while i < snakes.len()
        invariant
            ms == models_of(snakes@),
            pred == |m: SnakeModel| m.alive && m.body.len() > 0,
            i <= snakes@.len(),
            ids@.map_values(|x: SnakeId| x.0@) == ms.take(i as int).filter(pred).map_values(|m: SnakeModel| m.id),
        decreases snakes@.len() - i,
    {
        proof {
            assert(ms.take(i + 1) =~= ms.take(i as int).push(ms[i as int]));
            ms.take(i as int).lemma_filter_push(ms[i as int], pred);
        }
        let ghost before = ids@;
        proof {
            assert(ms[i as int] == model_of(snakes@[i as int]));
        }
        if snakes[i].alive && snakes[i].body.len() > 0 {
            let id = copy_id(&snakes[i].id);
            ids.push(id);
            proof {
                assert(ids@ == before.push(id));
                assert(ids@.map_values(|x: SnakeId| x.0@) =~= before.map_values(|x: SnakeId| x.0@).push(id.0@));
                assert(ms.take(i as int).filter(pred).push(ms[i as int]).map_values(|m: SnakeModel| m.id)
                    =~= ms.take(i as int).filter(pred).map_values(|m: SnakeModel| m.id).push(ms[i as int].id));
            }
        }
        i += 1;
    }
    proof {
        assert(ms.take(ms.len() as int) =~= ms);
    }
    ids
}

/// The snakes and food once every snake has moved.
pub open spec fn moved_state(state: GameState, intents: Seq<(SnakeId, Direction)>, cfg: SimConfig) -> (Seq<SnakeModel>, Seq<Point>) {
    move_phase(models_of(state.board.snakes@), state.board.food@, intents, cfg.max_health, state.board.snakes@.len())
}

/// The deaths one turn causes.
pub open spec fn turn_deaths(state: GameState, intents: Seq<(SnakeId, Direction)>, cfg: SimConfig) -> Seq<(Seq<char>, DeathKind)> {
    let ms = moved_state(state, intents, cfg).0;
    deaths(ms, state.board.width as int, state.board.height as int, ms.len())
}

/// Plays one turn: every snake moves (eating or shrinking), deaths are decided and applied, and
/// food is spawned by the standard rule.
pub fn simulate_turn<R: RngSource>(state: &mut GameState, intents: &[(SnakeId, Direction)], rng: &mut R, cfg: SimConfig) -> (summary: TurnSummary)
    requires
        0 <= old(state).board.width * old(state).board.height <= 448,
        old(state).turn < u32::MAX,
        turn_fits(models_of(old(state).board.snakes@)),
    ensures
        final(state).board.width == old(state).board.width,
        final(state).board.height == old(state).board.height,
        final(state).seed == old(state).seed,
        final(state).turn == old(state).turn + 1,
        summary.turn == final(state).turn,
        models_of(final(state).board.snakes@) == remove_dead(moved_state(*old(state), intents@, cfg).0, turn_deaths(*old(state), intents@, cfg)),
        reports(summary.dead@, turn_deaths(*old(state), intents@, cfg)),
        added_free_food(old(state).board.width as int, old(state).board.height as int, final(state).board.snakes@,
            moved_state(*old(state), intents@, cfg).1, final(state).board.food@,
            final(state).board.food@.len() - moved_state(*old(state), intents@, cfg).1.len()),
        moved_state(*old(state), intents@, cfg).1.len() >= cfg.food.minimum_food ==>
            final(state).board.food@.len() <= moved_state(*old(state), intents@, cfg).1.len() + 1,
        moved_state(*old(state), intents@, cfg).1.len() < cfg.food.minimum_food && old(state).board.width > 0 && old(state).board.height > 0 ==>
            final(state).board.food@.len() - moved_state(*old(state), intents@, cfg).1.len() == if cfg.food.minimum_food - moved_state(*old(state), intents@, cfg).1.len()
                < free_cells(old(state).board.width as int, old(state).board.height as int, final(state).board.snakes@, moved_state(*old(state), intents@, cfg).1).len() {
                cfg.food.minimum_food - moved_state(*old(state), intents@, cfg).1.len()
            } else {
                free_cells(old(state).board.width as int, old(state).board.height as int, final(state).board.snakes@, moved_state(*old(state), intents@, cfg).1).len() as int
            },
        summary.alive_ids@.map_values(|x: SnakeId| x.0@) == alive_ids_of(models_of(final(state).board.snakes@)),
        (final(state).board.food@, *final(rng)) == spawn_spec(*old(rng), old(state).board.width as int, old(state).board.height as int,
            final(state).board.snakes@, moved_state(*old(state), intents@, cfg).1, cfg.food),
        moved_state(*old(state), intents@, cfg).1.len() >= cfg.food.minimum_food && cfg.food.food_spawn_chance == 0 ==>
            final(state).board.food@ == moved_state(*old(state), intents@, cfg).1 && *final(rng) == *old(rng),
{
    let width = state.board.width;
    let height = state.board.height;
    move_snakes(state, intents, cfg.max_health);
    state.turn = state.turn + 1;
    let dead = find_deaths(&state.board.snakes, width, height);
    let ghost events = deaths(models_of(state.board.snakes@), width as int, height as int, state.board.snakes@.len() as nat);
    remove_dead_snakes(&mut state.board.snakes, &dead, Ghost(events));
    let ghost mid_food = state.board.food@;
    proof {
        assert((if width > 0 { width as int } else { 0 }) * (if height > 0 { height as int } else { 0 }) <= i32::MAX) by (nonlinear_arith)
            requires 0 <= width * height <= 448;
    }
    apply_standard_food_spawning(rng, width, height, state.board.snakes.as_slice(), &mut state.board.food, cfg.food);
    let alive_ids = collect_alive_ids(&state.board.snakes);
    TurnSummary { turn: state.turn, dead, alive_ids }
}

/// The direction from the neck to the head; `Up` for bodies shorter than two segments.
pub fn snake_head_direction(body: &std::collections::VecDeque<Point>) -> (d: Direction)
    ensures
        body@.len() < 2 ==> d == Direction::Up,
        body@.len() >= 2 ==> d == (if body@[0].x > body@[1].x {
            Direction::Right
        } else if body@[0].x < body@[1].x {
            Direction::Left
        } else if body@[0].y > body@[1].y {
            Direction::Up
        } else {
            Direction::Down
        }),
{
    if body.len() < 2 {
        return Direction::Up;
    }
    let head = body[0];
    let neck = body[1];
    if head.x > neck.x {
        Direction::Right
    } else if head.x < neck.x {
        Direction::Left
    } else if head.y > neck.y {
        Direction::Up
    } else {
        Direction::Down
    }
}


/// Whether `simulate_turn` can play a turn on `state`: the board has at most 448 cells, the turn
/// counter can grow, and every live snake's head and health leave room for one step.
pub fn can_simulate(state: &GameState) -> (r: bool)
    ensures
        r == (0 <= state.board.width * state.board.height <= 448 && state.turn < u32::MAX
            && turn_fits(models_of(state.board.snakes@))),
{
    let w = state.board.width as i64;
    let h = state.board.height as i64;
    proof {
        assert(-0x4000_0000_0000_0000 <= w * h <= 0x4000_0000_0000_0000) by (nonlinear_arith)
            requires -0x8000_0000 <= w <= 0x7fff_ffff, -0x8000_0000 <= h <= 0x7fff_ffff;
    }
    if w * h < 0 || w * h > 448 || state.turn == u32::MAX {
        return false;
    }
    let snakes = &state.board.snakes;
    let ghost ms = models_of(snakes@);
    let mut i: usize = 0;
    while i < snakes.len()
        invariant
            i <= snakes@.len(),
            snakes@ == state.board.snakes@,
            ms == models_of(state.board.snakes@),
            forall|k: int| 0 <= k < i && ms[k].alive && ms[k].body.len() > 0 ==> {
                &&& i32::MIN < (#[trigger] ms[k]).body[0].x < i32::MAX
                &&& i32::MIN < ms[k].body[0].y < i32::MAX
                &&& ms[k].health > i32::MIN
            },
        decreases snakes@.len() - i,
    {
        let s = &snakes[i];
        if s.alive {
            if let Some(head) = s.head() {
                if head.x == i32::MIN || head.x == i32::MAX || head.y == i32::MIN || head.y == i32::MAX || s.health == i32::MIN {
                    proof {
                        assert(ms[i as int] == model_of(snakes@[i as int]));
                        assert(ms[i as int].body[0] == head);
                        assert(!turn_fits(ms));
                    }
                    return false;
                }
            }
        }
        proof {
            assert(ms[i as int] == model_of(snakes@[i as int]));
        }
        i += 1;
    }
    true
}

} // verus!
