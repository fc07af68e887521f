use vstd::prelude::*;
use crate::direction::{Direction, spec_lower_name};
use crate::types::{Point, Snake, SnakeId, Board, GameState, deque_from_points, points_of_deque};
use crate::json::{JsonValue, JModel, jm, json_get, json_as_i64, json_as_str, json_items, as_i64, as_str};
use crate::api::{i32_or, jpoint, key, obj, arr, jstr, points_json, lemma_member_at, lemma_member_absent, lemma_int_model, lemma_str_model, lemma_array_model, lemma_first_with_id};
use crate::matches::{find_snake, first_with_id};
use crate::sfen::SnakeFen;
use crate::engine::{SnakeModel, models_of};
use crate::text::{dec_string, str_chars, string_from_chars, push_dec, chars_eq_str};

verus! {

/// A game state as plain values.
pub ghost struct StateModel {
    pub turn: int,
    pub seed: int,
    pub width: int,
    pub height: int,
    pub food: Seq<Point>,
    pub snakes: Seq<SnakeModel>,
}

/// The model of a game state.
pub open spec fn state_model(g: GameState) -> StateModel {
    StateModel {
        turn: g.turn as int,
        seed: g.seed as int,
        width: g.board.width as int,
        height: g.board.height as int,
        food: g.board.food@,
        snakes: models_of(g.board.snakes@),
    }
}

/// A point from an object whose `x` and `y` are integers (each kept to its low 32 bits).
#[verifier::opaque]
pub open spec fn int_point(v: JsonValue) -> Option<Point> {
    match (json_as_i64(json_get(v, "x"@)), json_as_i64(json_get(v, "y"@))) {
        (Some(x), Some(y)) => Some(Point { x: x as i32, y: y as i32 }),
        _ => None,
    }
}

/// The elements of member `key` when it is an array (none otherwise).
pub open spec fn member_items(v: JsonValue, key: Seq<char>) -> Seq<JsonValue> {
    match json_get(v, key) {
        Some(a) => json_items(a),
        None => Seq::empty(),
    }
}

/// The points of the items that have integer `x` and `y`, the others skipped.
pub open spec fn lenient_points(items: Seq<JsonValue>) -> Seq<Point>
    decreases items.len(),
{
    if items.len() == 0 {
        Seq::empty()
    } else {
        let p = lenient_points(items.drop_last());
        match int_point(items.last()) {
            Some(q) => p.push(q),
            None => p,
        }
    }
}

/// The points of all items, or `None` when one lacks an integer `x` or `y`.
pub open spec fn strict_points(items: Seq<JsonValue>) -> Option<Seq<Point>>
    decreases items.len(),
{
    if items.len() == 0 {
        Some(Seq::empty())
    } else {
        match (strict_points(items.drop_last()), int_point(items.last())) {
            (Some(p), Some(q)) => Some(p.push(q)),
            _ => None,
        }
    }
}

/// A non-negative integer member (`serde_json`'s `as_u64` on an integer), else `d`.
pub open spec fn u64_or(v: Option<JsonValue>, d: int) -> int {
    match v {
        Some(JsonValue::Int(n)) => if n >= 0 { n as int } else { d },
        _ => d,
    }
}

/// The `id` of a snake object, or the empty text.
pub open spec fn item_id(s: JsonValue) -> Seq<char> {
    match json_as_str(json_get(s, "id"@)) {
        Some(t) => t,
        None => Seq::empty(),
    }
}

/// Whether snake object `s` is the AI side: its id is `you` (when `you` is not empty) or the
/// test marker `ai-snake-for-test`.
pub open spec fn is_ai_item(s: JsonValue, you: Seq<char>) -> bool {
    (you.len() > 0 && item_id(s) == you) || item_id(s) == "ai-snake-for-test"@
}

/// The first AI snake at or after `k`, or `items.len()`.
pub open spec fn first_ai(items: Seq<JsonValue>, you: Seq<char>, k: int) -> int
    decreases items.len() - k,
{
    if k < 0 || k >= items.len() {
        items.len() as int
    } else if is_ai_item(items[k], you) {
        k
    } else {
        first_ai(items, you, k + 1)
    }
}

/// The AI side: the first AI snake, else the second snake (the first when there is one).
pub open spec fn ai_index_spec(items: Seq<JsonValue>, you: Seq<char>) -> int {
    let f = first_ai(items, you, 0);
    if f < items.len() { f } else if items.len() >= 2 { 1 } else { 0 }
}

/// The identifier snake `i` is given: `s2` for the AI side, then `s1`, `s_other_2`,
/// `s_other_3`, ... for the others in order.
pub open spec fn renamed_id(i: int, ai: int) -> Seq<char> {
    if i == ai {
        "s2"@
    } else {
        let c = (if i < ai { i } else { i - 1 }) + 1;
        if c == 1 { "s1"@ } else { "s_other_"@ + dec_string(c as nat) }
    }
}

/// The snakes of the board layout from item `k` on, or `None` when a body point lacks an integer
/// coordinate.
pub open spec fn board_snakes_from(items: Seq<JsonValue>, ai: int, k: int) -> Option<Seq<SnakeModel>>
    decreases items.len() - k,
{
    if k < 0 || k >= items.len() {
        Some(Seq::empty())
    } else {
        let s = items[k];
        match strict_points(member_items(s, "body"@)) {
            None => None,
            Some(body) => match board_snakes_from(items, ai, k + 1) {
                None => None,
                Some(rest) => Some(seq![SnakeModel {
                    id: renamed_id(k, ai),
                    name: renamed_id(k, ai),
                    body,
                    health: i32_or(json_as_i64(json_get(s, "health"@)), 100) as int,
                    alive: true,
                }] + rest),
            },
        }
    }
}

/// The state a saved playground document describes. The compact layout (`cols`, `rows`, bodies
/// `p` and `a`, `foods`, `pHealth`, `aHealth`, `turn`, `seed`) skips points without integer
/// coordinates; the board layout (`board` with `width`, `height`, `food`, `snakes`, and `you_id`)
/// needs every point, puts the AI side as `s2` and numbers the others `s1`, `s_other_2`, ...
pub open spec fn scenario_spec(json: JsonValue) -> Option<StateModel> {
    if is_compact(json) { Some(compact_spec(json)) } else { board_spec(json) }
}

/// Whether a document uses the compact layout: integer `cols` and `rows`.
pub open spec fn is_compact(json: JsonValue) -> bool {
    json_as_i64(json_get(json, "cols"@)) is Some && json_as_i64(json_get(json, "rows"@)) is Some
}

/// The state of a compact document.
pub open spec fn compact_spec(json: JsonValue) -> StateModel {
    let cols = json_as_i64(json_get(json, "cols"@))->Some_0;
    let rows = json_as_i64(json_get(json, "rows"@))->Some_0;
    let ph = i32_or(json_as_i64(json_get(json, "pHealth"@)), 100) as int;
    let ah = i32_or(json_as_i64(json_get(json, "aHealth"@)), 100) as int;
    StateModel {
        turn: (u64_or(json_get(json, "turn"@), 0) as u64) as u32 as int,
        seed: u64_or(json_get(json, "seed"@), 0),
        width: (cols as i32) as int,
        height: (rows as i32) as int,
        food: lenient_points(member_items(json, "foods"@)),
        snakes: seq![
            SnakeModel { id: "s1"@, name: "s1"@, body: lenient_points(member_items(json, "p"@)), health: ph, alive: true },
            SnakeModel { id: "s2"@, name: "s2"@, body: lenient_points(member_items(json, "a"@)), health: ah, alive: true },
        ],
    }
}

/// The state of a board-layout document.
pub open spec fn board_spec(json: JsonValue) -> Option<StateModel> {
    match json_get(json, "board"@) {
        None => None,
        Some(board) => match (json_as_i64(json_get(board, "width"@)), json_as_i64(json_get(board, "height"@))) {
            (Some(w), Some(h)) => match strict_points(member_items(board, "food"@)) {
                None => None,
                Some(food) => {
                    let you = match json_as_str(json_get(json, "you_id"@)) { Some(t) => t, None => Seq::empty() };
                    let items = member_items(board, "snakes"@);
                    match board_snakes_from(items, ai_index_spec(items, you), 0) {
                        None => None,
                        Some(snakes) => Some(StateModel {
                            turn: 0,
                            seed: 0,
                            width: (w as i32) as int,
                            height: (h as i32) as int,
                            food,
                            snakes,
                        }),
                    }
                },
            },
            _ => None,
        },
    }
}

/// A point with integer coordinates (see `int_point`).
fn int_point_of(v: &JsonValue) -> (r: Option<Point>)
    ensures
        r == int_point(*v),
{
    proof {
        reveal(int_point);
    }
    match (as_i64(v.get("x")), as_i64(v.get("y"))) {
        (Some(x), Some(y)) => Some(Point { x: x as i32, y: y as i32 }),
        _ => None,
    }
}

/// The elements of member `key` when it is an array.
fn member_list<'a>(v: &'a JsonValue, key: &str) -> (r: &'a [JsonValue])
    ensures
        r@ == member_items(*v, key@),
{
    match v.get(key) {
        Some(JsonValue::Array(items)) => items.as_slice(),
        _ => {
            let e: &[JsonValue] = &[];
            assert(e@ =~= Seq::<JsonValue>::empty());
            e
        },
    }
}

/// The points of the items with integer coordinates (see `lenient_points`).
fn lenient_list(items: &[JsonValue]) -> (r: Vec<Point>)
    ensures
        r@ == lenient_points(items@),
{
    let mut out: Vec<Point> = Vec::new();
    let mut i: usize = 0;
    while i < items.len()
        invariant
            i <= items@.len(),
            out@ == lenient_points(items@.take(i as int)),
        decreases items@.len() - i,
    {
        let q = int_point_of(&items[i]);
        proof {
            assert(items@.take(i + 1).drop_last() =~= items@.take(i as int));
        }
        if let Some(pt) = q {
            out.push(pt);
        }
        i += 1;
    }
    assert(items@.take(i as int) =~= items@);
    out
}

/// The points of all items, or `None` when one lacks a coordinate (see `strict_points`).
fn strict_list(items: &[JsonValue]) -> (r: Option<Vec<Point>>)
    ensures
        match r {
            Some(v) => strict_points(items@) == Some(v@),
            None => strict_points(items@) is None,
        },
{
    let mut out: Vec<Point> = Vec::new();
    let mut i: usize = 0;
    while i < items.len()
        invariant
            i <= items@.len(),
            strict_points(items@.take(i as int)) == Some(out@),
        decreases items@.len() - i,
    {
        proof {
            assert(items@.take(i + 1).drop_last() =~= items@.take(i as int));
        }
        match int_point_of(&items[i]) {
            Some(pt) => out.push(pt),
            None => {
                proof {
                    lemma_strict_none_extends(items@, (i + 1) as int);
                }
                return None;
            },
        }
        i += 1;
    }
    assert(items@.take(i as int) =~= items@);
    Some(out)
}

/// Once a prefix has a point without coordinates, every longer prefix has one.
proof fn lemma_strict_none_extends(items: Seq<JsonValue>, k: int)
    requires
        0 <= k <= items.len(),
        strict_points(items.take(k)) is None,
    ensures
        strict_points(items) is None,
    decreases items.len() - k,
{
    if k < items.len() {
        assert(items.take(k + 1).drop_last() =~= items.take(k));
        lemma_strict_none_extends(items, k + 1);
    } else {
        assert(items.take(k) =~= items);
    }
}

/// The text of member `id`, or the empty text.
fn item_id_of(s: &JsonValue) -> (r: Vec<char>)
    ensures
        r@ == item_id(*s),
{
    match as_str(s.get("id")) {
        Some(t) => str_chars(t.as_str()),
        None => Vec::new(),
    }
}

/// The AI side among the snake objects (see `ai_index_spec`).
fn ai_index(items: &[JsonValue], you: &Vec<char>) -> (r: usize)
    ensures
        r as int == ai_index_spec(items@, you@),
{
    let mut k: usize = 0;
    while k < items.len()
        invariant_except_break
            k <= items@.len(),
            first_ai(items@, you@, 0) == first_ai(items@, you@, k as int),
        ensures
            k <= items@.len(),
            first_ai(items@, you@, 0) == if k < items@.len() { k as int } else { items@.len() as int },
        decreases items@.len() - k,
    {
        let id = item_id_of(&items[k]);
        let same = you.len() > 0 && crate::text::chars_eq(id.as_slice(), you.as_slice());
        let marker = chars_eq_str(id.as_slice(), "ai-snake-for-test");
        if same || marker {
            break;
        }
        k += 1;
    }
    if k < items.len() {
        k
    } else if items.len() >= 2 {
        1
    } else {
        0
    }
}

/// The identifier snake `i` is given (see `renamed_id`).
fn renamed(i: usize, ai: usize) -> (r: String)
    ensures
        r@ == renamed_id(i as int, ai as int),
{
    if i == ai {
        return "s2".to_owned();
    }
    let c: usize = if i < ai { i + 1 } else { i };
    if c == 1 {
        return "s1".to_owned();
    }
    let mut out = str_chars("s_other_");
    push_dec(&mut out, c as u128);
    proof {
        reveal_strlit("s_other_");
    }
    string_from_chars(out.as_slice())
}

/// Reads a saved playground document (see `scenario_spec`).
pub fn parse_scenario_to_state(json: &JsonValue) -> (r: Option<GameState>)
    ensures
        match r {
            Some(g) => scenario_spec(*json) == Some(state_model(g)),
            None => scenario_spec(*json) is None,
        },
{
    if as_i64(json.get("cols")).is_some() && as_i64(json.get("rows")).is_some() {
        Some(parse_compact(json))
    } else {
        parse_board(json)
    }
}

/// A non-negative integer member, else 0 (see `u64_or`).
fn nonneg_or_zero(v: Option<&JsonValue>) -> (r: u64)
    ensures
        r as int == u64_or(match v { Some(x) => Some(*x), None => None }, 0),
{
    match v {
        Some(JsonValue::Int(n)) => if *n >= 0 { *n as u64 } else { 0 },
        _ => 0,
    }
}

/// An integer member kept to 32 bits, else 100 (see `i32_or`).
fn health_or_full(v: Option<&JsonValue>) -> (r: i32)
    ensures
        r == i32_or(json_as_i64(match v { Some(x) => Some(*x), None => None }), 100),
{
    match as_i64(v) {
        Some(n) => n as i32,
        None => 100,
    }
}

/// The two snakes of a compact document: `s1` the player, `s2` the AI side.
fn compact_pair(p_body: Vec<Point>, a_body: Vec<Point>, ph: i32, ah: i32) -> (r: Vec<Snake>)
    ensures
        models_of(r@) == seq![
            SnakeModel { id: "s1"@, name: "s1"@, body: p_body@, health: ph as int, alive: true },
            SnakeModel { id: "s2"@, name: "s2"@, body: a_body@, health: ah as int, alive: true },
        ],
{
    let s1 = Snake::new("s1", "s1", p_body, ph);
    let s2 = Snake::new("s2", "s2", a_body, ah);
    let snakes = vec![s1, s2];
    proof {
        assert(models_of(snakes@) =~= seq![crate::engine::model_of(s1), crate::engine::model_of(s2)]);
    }
    snakes
}

/// The turn of a compact document, kept to 32 bits.
fn compact_turn(json: &JsonValue) -> (r: u32)
    ensures
        r as int == (u64_or(json_get(*json, "turn"@), 0) as u64) as u32 as int,
{
    let raw = nonneg_or_zero(json.get("turn"));
    raw as u32
}

/// Reads a compact document (see `compact_spec`).
fn parse_compact(json: &JsonValue) -> (g: GameState)
    requires
        is_compact(*json),
    ensures
        compact_spec(*json) == state_model(g),
{
    let cols = match as_i64(json.get("cols")) { Some(v) => v, None => 0 };
    let rows = match as_i64(json.get("rows")) { Some(v) => v, None => 0 };
    let p_body = lenient_list(member_list(json, "p"));
    let a_body = lenient_list(member_list(json, "a"));
    let food = lenient_list(member_list(json, "foods"));
    let p_health = health_or_full(json.get("pHealth"));
    let a_health = health_or_full(json.get("aHealth"));
    let turn = compact_turn(json);
    let seed: u64 = nonneg_or_zero(json.get("seed"));
    let snakes = compact_pair(p_body, a_body, p_health, a_health);
    GameState {
        turn,
        seed,
        board: Board { width: cols as i32, height: rows as i32, food, snakes },
    }
}

/// Reads a board-layout document (see `board_spec`).
#[verifier::rlimit(30)]
fn parse_board(json: &JsonValue) -> (r: Option<GameState>)
    ensures
        match r {
            Some(g) => board_spec(*json) == Some(state_model(g)),
            None => board_spec(*json) is None,
        },
{
    let board = match json.get("board") {
        Some(b) => b,
        None => return None,
    };
    let width = match as_i64(board.get("width")) {
        Some(v) => v as i32,
        None => return None,
    };
    let height = match as_i64(board.get("height")) {
        Some(v) => v as i32,
        None => return None,
    };
    let food = match strict_list(member_list(board, "food")) {
        Some(f) => f,
        None => return None,
    };
    let you: Vec<char> = match as_str(json.get("you_id")) {
        Some(t) => str_chars(t.as_str()),
        None => Vec::new(),
    };
    let items = member_list(board, "snakes");
    let ai = ai_index(items, &you);
    match board_snake_list(items, ai) {
        None => None,
        Some(snakes) => Some(GameState { turn: 0, seed: 0, board: Board { width, height, food, snakes } }),
    }
}

/// The snakes of the board layout (see `board_snakes_from`), with `ai` the AI side.
fn board_snake_list(items: &[JsonValue], ai: usize) -> (r: Option<Vec<Snake>>)
    ensures
        match r {
            Some(v) => board_snakes_from(items@, ai as int, 0) == Some(models_of(v@)),
            None => board_snakes_from(items@, ai as int, 0) is None,
        },
{
    let mut snakes: Vec<Snake> = Vec::new();
    let mut i: usize = 0;
    while i < items.len()
        invariant
            i <= items@.len(),
            forall|k: int| 0 <= k < i ==> strict_points(member_items(#[trigger] items@[k], "body"@)) is Some,
            models_of(snakes@) == snake_prefix(items@, ai as int, i as int),
        decreases items@.len() - i,
    {
        let s = &items[i];
        let body = match strict_list(member_list(s, "body")) {
            Some(b) => b,
            None => {
                proof {
                    lemma_board_snakes_split(items@, ai as int, i as int);
                }
                return None;
            },
        };
        let health = match as_i64(s.get("health")) { Some(v) => v as i32, None => 100 };
        let snake = Snake {
            id: SnakeId(renamed(i, ai)),
            name: renamed(i, ai),
            body: deque_from_points(body.as_slice()),
            health,
            alive: true,
        };
        let ghost before = snakes@;
        snakes.push(snake);
        proof {
            assert(models_of(snakes@) =~= models_of(before).push(crate::engine::model_of(snake)));
            assert(snake_prefix(items@, ai as int, i + 1) =~= snake_prefix(items@, ai as int, i as int).push(crate::engine::model_of(snake)));
        }
        i += 1;
    }
    proof {
        lemma_board_snakes_split(items@, ai as int, i as int);
        assert(snake_prefix(items@, ai as int, i as int) + Seq::<SnakeModel>::empty() =~= snake_prefix(items@, ai as int, i as int));
    }
    Some(snakes)
}

/// The model of snake object `k` of the board layout, when its body reads.
pub open spec fn snake_item_model(items: Seq<JsonValue>, ai: int, k: int) -> SnakeModel {
    SnakeModel {
        id: renamed_id(k, ai),
        name: renamed_id(k, ai),
        body: strict_points(member_items(items[k], "body"@))->Some_0,
        health: i32_or(json_as_i64(json_get(items[k], "health"@)), 100) as int,
        alive: true,
    }
}

/// The models of the first `i` snake objects.
pub open spec fn snake_prefix(items: Seq<JsonValue>, ai: int, i: int) -> Seq<SnakeModel> {
    Seq::new(i as nat, |k: int| snake_item_model(items, ai, k))
}

/// When the first `i` bodies read, the whole list is those `i` snakes followed by the rest.
proof fn lemma_board_snakes_split(items: Seq<JsonValue>, ai: int, i: int)
    requires
        0 <= i <= items.len(),
        forall|k: int| 0 <= k < i ==> strict_points(member_items(#[trigger] items[k], "body"@)) is Some,
    ensures
        board_snakes_from(items, ai, 0) == match board_snakes_from(items, ai, i) {
            None => None,
            Some(rest) => Some(snake_prefix(items, ai, i) + rest),
        },
    decreases i,
{
    if i == 0 {
        match board_snakes_from(items, ai, 0) {
            Some(rest) => { assert(snake_prefix(items, ai, 0) + rest =~= rest); },
            None => {},
        }
    } else {
        lemma_board_snakes_split(items, ai, i - 1);
        assert(strict_points(member_items(items[i - 1], "body"@)) is Some);
        match board_snakes_from(items, ai, i) {
            Some(rest) => {
                assert(snake_prefix(items, ai, i - 1) + (seq![snake_item_model(items, ai, i - 1)] + rest)
                    =~= snake_prefix(items, ai, i) + rest);
            },
            None => {},
        }
    }
}

// ---------------------------------------------------------------------------------------------
// Writing the compact layout of a playground position.
// ---------------------------------------------------------------------------------------------

/// A list of points as JSON objects with `x` and `y`.
pub open spec fn points_doc(ps: Seq<Point>) -> JModel {
    JModel::Array(Seq::new(ps.len(), |i: int| jpoint(ps[i].x as int, ps[i].y as int)))
}

/// The body and health of the first snake with id `id`, or no body and full health.
pub open spec fn side_or_full(snakes: Seq<Snake>, id: Seq<char>) -> (Seq<Point>, int) {
    match first_with_id(snakes, id) {
        Some(i) => (snakes[i as int].body@, snakes[i as int].health as int),
        None => (Seq::empty(), 100),
    }
}

/// The keys of a compact document, in the order written.
pub open spec fn compact_keys() -> Seq<Seq<char>> {
    seq!["p"@, "a"@, "foods"@, "pHealth"@, "aHealth"@, "cols"@, "rows"@, "turn"@, "seed"@]
}

/// The compact document of a playground position whose generator is at `seed`: the player `s1`
/// as `p`, the AI `s2` as `a` (a missing side with no body and full health), the food, the board
/// size, the turn and the generator state.
pub open spec fn compact_doc(state: GameState, seed: u32) -> JModel {
    let p = side_or_full(state.board.snakes@, "s1"@);
    let a = side_or_full(state.board.snakes@, "s2"@);
    JModel::Object(
        compact_keys(),
        seq![
            points_doc(p.0),
            points_doc(a.0),
            points_doc(state.board.food@),
            JModel::Int(p.1),
            JModel::Int(a.1),
            JModel::Int(state.board.width as int),
            JModel::Int(state.board.height as int),
            JModel::Int(state.turn as int),
            JModel::Int(seed as int),
        ],
    )
}

/// The body and health of the first snake with id `id` (see `side_or_full`).
fn side_with_full(snakes: &Vec<Snake>, id: &str) -> (r: (Vec<Point>, i32))
    ensures
        (r.0@, r.1 as int) == side_or_full(snakes@, id@),
{
    match find_snake(snakes, id) {
        Some(i) => (points_of_deque(&snakes[i].body), snakes[i].health),
        None => (Vec::new(), 100),
    }
}

/// Writes a playground position in the compact layout (see `compact_doc`).
pub fn compact_json_state(state: &GameState, seed: u32) -> (v: JsonValue)
    ensures
        jm(v) == compact_doc(*state, seed),
{
    let (p_body, p_health) = side_with_full(&state.board.snakes, "s1");
    let (a_body, a_health) = side_with_full(&state.board.snakes, "s2");
    let ks = vec![key("p"), key("a"), key("foods"), key("pHealth"), key("aHealth"), key("cols"), key("rows"), key("turn"), key("seed")];
    let vs = vec![
        points_json(&p_body),
        points_json(&a_body),
        points_json(&state.board.food),
        JsonValue::Int(p_health as i64),
        JsonValue::Int(a_health as i64),
        JsonValue::Int(state.board.width as i64),
        JsonValue::Int(state.board.height as i64),
        JsonValue::Int(state.turn as i64),
        JsonValue::Int(seed as i64),
    ];
    let v = obj(ks, vs);
    proof {
        assert(ks@.map_values(|k: String| k@) =~= compact_keys());
        assert(Seq::new(vs@.len(), |i: int| jm(vs@[i])) =~= compact_doc(*state, seed)->Object_1);
    }
    v
}

/// A playground position as a compact position string: the player `s1` and the AI `s2` (a
/// missing side with no body and full health), the food, board size, turn and generator state,
/// and no opponent moves.
pub fn compact_sfen_state(state: &GameState, seed: u32) -> (f: SnakeFen)
    ensures
        f.cols == state.board.width,
        f.rows == state.board.height,
        f.turn == state.turn,
        f.seed == seed,
        (f.p_body@, f.p_health as int) == side_or_full(state.board.snakes@, "s1"@),
        (f.a_body@, f.a_health as int) == side_or_full(state.board.snakes@, "s2"@),
        f.foods@ == state.board.food@,
        f.opponent_moves@.len() == 0,
{
    let (p_body, p_health) = side_with_full(&state.board.snakes, "s1");
    let (a_body, a_health) = side_with_full(&state.board.snakes, "s2");
    SnakeFen {
        cols: state.board.width,
        rows: state.board.height,
        turn: state.turn,
        seed,
        p_health,
        a_health,
        p_body,
        a_body,
        foods: state.board.food.clone(),
        opponent_moves: Vec::new(),
    }
}

/// Points written as objects with integer `x` and `y` all read back.
proof fn lemma_points_doc_read(items: Seq<JsonValue>, ps: Seq<Point>)
    requires
        items.len() == ps.len(),
        forall|i: int| 0 <= i < ps.len() ==> jm(#[trigger] items[i]) == jpoint(ps[i].x as int, ps[i].y as int),
    ensures
        lenient_points(items) == ps,
    decreases items.len(),
{
    if items.len() > 0 {
        let k = items.len() - 1;
        assert forall|i: int| 0 <= i < ps.drop_last().len() implies jm(#[trigger] items.drop_last()[i]) == jpoint(ps.drop_last()[i].x as int, ps.drop_last()[i].y as int) by {
            assert(items.drop_last()[i] == items[i]);
        }
        lemma_points_doc_read(items.drop_last(), ps.drop_last());
        assert(jm(items[k]) == jpoint(ps[k].x as int, ps[k].y as int));
        lemma_point_doc_read(items[k], ps[k]);
        assert(ps.drop_last().push(ps[k]) =~= ps);
    } else {
        assert(ps =~= Seq::<Point>::empty());
    }
}

/// A point written as an object with integer `x` and `y` reads back.
proof fn lemma_point_doc_read(item: JsonValue, p: Point)
    requires
        jm(item) == jpoint(p.x as int, p.y as int),
    ensures
        int_point(item) == Some(p),
{
    reveal(int_point);
    reveal_strlit("x");
    reveal_strlit("y");
    let keys = seq!["x"@, "y"@];
    let vals = seq![JModel::Int(p.x as int), JModel::Int(p.y as int)];
    assert(keys[0][0] != keys[1][0]);
    lemma_member_at(item, keys, vals, 0);
    lemma_member_at(item, keys, vals, 1);
    lemma_int_model(json_get(item, "x"@)->Some_0, p.x as int);
    lemma_int_model(json_get(item, "y"@)->Some_0, p.y as int);
}

/// A points member of a compact document reads back.
proof fn lemma_points_member_read(v: JsonValue, key: Seq<char>, node: JsonValue, ps: Seq<Point>)
    requires
        json_get(v, key) == Some(node),
        jm(node) == points_doc(ps),
    ensures
        lenient_points(member_items(v, key)) == ps,
{
    let ms = Seq::new(ps.len(), |i: int| jpoint(ps[i].x as int, ps[i].y as int));
    lemma_array_model(node, ms);
    assert forall|i: int| 0 <= i < ps.len() implies jm(#[trigger] json_items(node)[i]) == jpoint(ps[i].x as int, ps[i].y as int) by {
        assert(jm(json_items(node)[i]) == ms[i]);
    }
    lemma_points_doc_read(json_items(node), ps);
}

/// The side with id `id` has a health that fits in `i32`.
proof fn lemma_side_health(snakes: Seq<Snake>, id: Seq<char>)
    requires
        snakes.len() <= usize::MAX,
    ensures
        i32::MIN <= side_or_full(snakes, id).1 <= i32::MAX,
{
    lemma_first_with_id(snakes, id);
}

/// The keys of a compact document are distinct.
proof fn lemma_compact_keys_distinct()
    ensures
        forall|x: int, y: int| 0 <= x < y < compact_keys().len() ==> compact_keys()[x] != compact_keys()[y],
{
    reveal_strlit("p");
    reveal_strlit("a");
    reveal_strlit("foods");
    reveal_strlit("pHealth");
    reveal_strlit("aHealth");
    reveal_strlit("cols");
    reveal_strlit("rows");
    reveal_strlit("turn");
    reveal_strlit("seed");
    let keys = compact_keys();
    assert forall|x: int, y: int| 0 <= x < y < keys.len() implies keys[x] != keys[y] by {
        if keys[x] == keys[y] {
            assert(keys[x].len() == keys[y].len());
            assert(keys[x][0] == keys[y][0]);
        }
    }
}

/// The point lists of a compact document read back.
#[verifier::rlimit(40)]
proof fn lemma_compact_points_read(v: JsonValue, state: GameState, seed: u32)
    requires
        jm(v) == compact_doc(state, seed),
    ensures
        lenient_points(member_items(v, "p"@)) == side_or_full(state.board.snakes@, "s1"@).0,
        lenient_points(member_items(v, "a"@)) == side_or_full(state.board.snakes@, "s2"@).0,
        lenient_points(member_items(v, "foods"@)) == state.board.food@,
{
    let keys = compact_keys();
    let vals = compact_doc(state, seed)->Object_1;
    lemma_compact_keys_distinct();
    lemma_member_at(v, keys, vals, 0);
    lemma_member_at(v, keys, vals, 1);
    lemma_member_at(v, keys, vals, 2);
    lemma_points_member_read(v, "p"@, json_get(v, "p"@)->Some_0, side_or_full(state.board.snakes@, "s1"@).0);
    lemma_points_member_read(v, "a"@, json_get(v, "a"@)->Some_0, side_or_full(state.board.snakes@, "s2"@).0);
    lemma_points_member_read(v, "foods"@, json_get(v, "foods"@)->Some_0, state.board.food@);
}

/// The numbers of a compact document read back.
#[verifier::rlimit(40)]
proof fn lemma_compact_numbers_read(v: JsonValue, state: GameState, seed: u32)
    requires
        jm(v) == compact_doc(state, seed),
        i32::MIN <= side_or_full(state.board.snakes@, "s1"@).1 <= i32::MAX,
        i32::MIN <= side_or_full(state.board.snakes@, "s2"@).1 <= i32::MAX,
    ensures
        json_as_i64(json_get(v, "pHealth"@)) == Some(side_or_full(state.board.snakes@, "s1"@).1 as i64),
        json_as_i64(json_get(v, "aHealth"@)) == Some(side_or_full(state.board.snakes@, "s2"@).1 as i64),
        json_as_i64(json_get(v, "cols"@)) == Some(state.board.width as i64),
        json_as_i64(json_get(v, "rows"@)) == Some(state.board.height as i64),
        json_get(v, "turn"@) == Some(JsonValue::Int(state.turn as i64)),
        json_get(v, "seed"@) == Some(JsonValue::Int(seed as i64)),
{
    let keys = compact_keys();
    let vals = compact_doc(state, seed)->Object_1;
    lemma_compact_keys_distinct();
    lemma_member_at(v, keys, vals, 3);
    lemma_member_at(v, keys, vals, 4);
    lemma_member_at(v, keys, vals, 5);
    lemma_member_at(v, keys, vals, 6);
    lemma_member_at(v, keys, vals, 7);
    lemma_member_at(v, keys, vals, 8);
    lemma_int_model(json_get(v, "pHealth"@)->Some_0, side_or_full(state.board.snakes@, "s1"@).1);
    lemma_int_model(json_get(v, "aHealth"@)->Some_0, side_or_full(state.board.snakes@, "s2"@).1);
    lemma_int_model(json_get(v, "cols"@)->Some_0, state.board.width as int);
    lemma_int_model(json_get(v, "rows"@)->Some_0, state.board.height as int);
    lemma_int_model(json_get(v, "turn"@)->Some_0, state.turn as int);
    lemma_int_model(json_get(v, "seed"@)->Some_0, seed as int);
}

/// A playground position written in the compact layout reads back: the player `s1` and the AI
/// `s2` with the written bodies and health, the food, the board size, the turn and the generator
/// state as the seed.
pub proof fn lemma_compact_state_reads_back(v: JsonValue, state: GameState, seed: u32)
    requires
        jm(v) == compact_doc(state, seed),
    ensures
        scenario_spec(v) == Some(StateModel {
            turn: state.turn as int,
            seed: seed as int,
            width: state.board.width as int,
            height: state.board.height as int,
            food: state.board.food@,
            snakes: seq![
                SnakeModel {
                    id: "s1"@,
                    name: "s1"@,
                    body: side_or_full(state.board.snakes@, "s1"@).0,
                    health: side_or_full(state.board.snakes@, "s1"@).1,
                    alive: true,
                },
                SnakeModel {
                    id: "s2"@,
                    name: "s2"@,
                    body: side_or_full(state.board.snakes@, "s2"@).0,
                    health: side_or_full(state.board.snakes@, "s2"@).1,
                    alive: true,
                },
            ],
        }),
{
    let snakes = state.board.snakes@;
    assert(snakes.len() == state.board.snakes.len());
    lemma_side_health(snakes, "s1"@);
    lemma_side_health(snakes, "s2"@);
    lemma_compact_points_read(v, state, seed);
    lemma_compact_numbers_read(v, state, seed);
    assert(is_compact(v));
}

// ---------------------------------------------------------------------------------------------
// Writing a playground position as a saved scenario.
// ---------------------------------------------------------------------------------------------

/// The keys of a saved scenario, in the order written.
pub open spec fn saved_keys() -> Seq<Seq<char>> {
    seq!["id"@, "name"@, "you_id"@, "expectation"@, "board"@]
}

/// The keys of a saved scenario's board.
pub open spec fn saved_board_keys() -> Seq<Seq<char>> {
    seq!["width"@, "height"@, "food"@, "snakes"@]
}

/// The keys of a saved snake.
pub open spec fn saved_snake_keys() -> Seq<Seq<char>> {
    seq!["id"@, "name"@, "body"@, "health"@]
}

/// A saved snake: its id, display name, body and health.
pub open spec fn saved_snake_doc(id: Seq<char>, name: Seq<char>, side: (Seq<Point>, int)) -> JModel {
    JModel::Object(
        saved_snake_keys(),
        seq![JModel::Str(id), JModel::Str(name), points_doc(side.0), JModel::Int(side.1)],
    )
}

/// The scenario document that saving a playground position writes: the identifier and name
/// given, the AI `s2` as the side to move, an exact expectation of `expected`, and the board with
/// its size, food, the AI `s2` (named `AI`) and the player `s1` (named `Player`), a missing side
/// with no body and full health.
pub open spec fn saved_scenario_doc(state: GameState, id: Seq<char>, name: Seq<char>, expected: Direction) -> JModel {
    let snakes = state.board.snakes@;
    JModel::Object(
        saved_keys(),
        seq![
            JModel::Str(id),
            JModel::Str(name),
            JModel::Str("s2"@),
            JModel::Object(seq!["kind"@, "direction"@], seq![JModel::Str("exact"@), JModel::Str(spec_lower_name(expected))]),
            JModel::Object(
                saved_board_keys(),
                seq![
                    JModel::Int(state.board.width as int),
                    JModel::Int(state.board.height as int),
                    points_doc(state.board.food@),
                    JModel::Array(seq![
                        saved_snake_doc("s2"@, "AI"@, side_or_full(snakes, "s2"@)),
                        saved_snake_doc("s1"@, "Player"@, side_or_full(snakes, "s1"@)),
                    ]),
                ],
            ),
        ],
    )
}

/// A saved snake (see `saved_snake_doc`).
fn saved_snake_value(id: &str, name: &str, body: &Vec<Point>, health: i32) -> (v: JsonValue)
    ensures
        jm(v) == saved_snake_doc(id@, name@, (body@, health as int)),
{
    let ks = vec![key("id"), key("name"), key("body"), key("health")];
    let vs = vec![jstr(id), jstr(name), points_json(body), JsonValue::Int(health as i64)];
    let v = obj(ks, vs);
    proof {
        assert(ks@.map_values(|k: String| k@) =~= saved_snake_keys());
        assert(Seq::new(vs@.len(), |i: int| jm(vs@[i])) =~= saved_snake_doc(id@, name@, (body@, health as int))->Object_1);
    }
    v
}

/// Writes a playground position as a saved scenario (see `saved_scenario_doc`); `id` is the
/// identifier to record (the caller's clock reading) and `expected` the move the AI should make.
pub fn scenario_json_state(state: &GameState, id: &str, name: &str, expected: Direction) -> (v: JsonValue)
    ensures
        jm(v) == saved_scenario_doc(*state, id@, name@, expected),
{
    let (p_body, p_health) = side_with_full(&state.board.snakes, "s1");
    let (a_body, a_health) = side_with_full(&state.board.snakes, "s2");
    let ai = saved_snake_value("s2", "AI", &a_body, a_health);
    let player = saved_snake_value("s1", "Player", &p_body, p_health);
    let list = arr(vec![ai, player]);
    let bks = vec![key("width"), key("height"), key("food"), key("snakes")];
    let bvs = vec![
        JsonValue::Int(state.board.width as i64),
        JsonValue::Int(state.board.height as i64),
        points_json(&state.board.food),
        list,
    ];
    let board = obj(bks, bvs);
    let eks = vec![key("kind"), key("direction")];
    let evs = vec![jstr("exact"), jstr(expected.as_lower())];
    let expectation = obj(eks, evs);
    let ks = vec![key("id"), key("name"), key("you_id"), key("expectation"), key("board")];
    let vs = vec![jstr(id), jstr(name), jstr("s2"), expectation, board];
    let v = obj(ks, vs);
    proof {
        let doc = saved_scenario_doc(*state, id@, name@, expected);
        assert(eks@.map_values(|k: String| k@) =~= doc->Object_1[3]->Object_0);
        assert(Seq::new(evs@.len(), |i: int| jm(evs@[i])) =~= doc->Object_1[3]->Object_1);
        assert(bks@.map_values(|k: String| k@) =~= saved_board_keys());
        assert(ks@.map_values(|k: String| k@) =~= saved_keys());
        assert(jm(list)->Array_0 =~= doc->Object_1[4]->Object_1[3]->Array_0);
        assert(Seq::new(bvs@.len(), |i: int| jm(bvs@[i])) =~= doc->Object_1[4]->Object_1);
        assert(Seq::new(vs@.len(), |i: int| jm(vs@[i])) =~= doc->Object_1);
    }
    v
}

/// Points written as objects with integer `x` and `y` all read back, none skipped.
proof fn lemma_strict_points_doc_read(items: Seq<JsonValue>, ps: Seq<Point>)
    requires
        items.len() == ps.len(),
        forall|i: int| 0 <= i < ps.len() ==> jm(#[trigger] items[i]) == jpoint(ps[i].x as int, ps[i].y as int),
    ensures
        strict_points(items) == Some(ps),
    decreases items.len(),
{
    if items.len() > 0 {
        let k = items.len() - 1;
        assert forall|i: int| 0 <= i < ps.drop_last().len() implies jm(#[trigger] items.drop_last()[i]) == jpoint(ps.drop_last()[i].x as int, ps.drop_last()[i].y as int) by {
            assert(items.drop_last()[i] == items[i]);
        }
        lemma_strict_points_doc_read(items.drop_last(), ps.drop_last());
        assert(jm(items[k]) == jpoint(ps[k].x as int, ps[k].y as int));
        lemma_point_doc_read(items[k], ps[k]);
        assert(ps.drop_last().push(ps[k]) =~= ps);
    } else {
        assert(ps =~= Seq::<Point>::empty());
    }
}

/// A points member of a saved scenario reads back, none skipped.
proof fn lemma_strict_points_member_read(v: JsonValue, key: Seq<char>, node: JsonValue, ps: Seq<Point>)
    requires
        json_get(v, key) == Some(node),
        jm(node) == points_doc(ps),
    ensures
        strict_points(member_items(v, key)) == Some(ps),
{
    let ms = Seq::new(ps.len(), |i: int| jpoint(ps[i].x as int, ps[i].y as int));
    lemma_array_model(node, ms);
    assert forall|i: int| 0 <= i < ps.len() implies jm(#[trigger] json_items(node)[i]) == jpoint(ps[i].x as int, ps[i].y as int) by {
        assert(jm(json_items(node)[i]) == ms[i]);
    }
    lemma_strict_points_doc_read(json_items(node), ps);
}

/// The keys of a saved scenario, of its board and of its snakes are distinct, and none is `cols`.
proof fn lemma_saved_keys_distinct()
    ensures
        forall|x: int, y: int| 0 <= x < y < saved_keys().len() ==> saved_keys()[x] != saved_keys()[y],
        forall|x: int| 0 <= x < saved_keys().len() ==> saved_keys()[x] != "cols"@,
        forall|x: int, y: int| 0 <= x < y < saved_board_keys().len() ==> saved_board_keys()[x] != saved_board_keys()[y],
        forall|x: int, y: int| 0 <= x < y < saved_snake_keys().len() ==> saved_snake_keys()[x] != saved_snake_keys()[y],
{
    reveal_strlit("id");
    reveal_strlit("name");
    reveal_strlit("you_id");
    reveal_strlit("expectation");
    reveal_strlit("board");
    reveal_strlit("cols");
    reveal_strlit("width");
    reveal_strlit("height");
    reveal_strlit("food");
    reveal_strlit("snakes");
    reveal_strlit("body");
    reveal_strlit("health");
    let keys = saved_keys();
    assert forall|x: int, y: int| 0 <= x < y < keys.len() implies keys[x] != keys[y] by {
        if keys[x] == keys[y] {
            assert(keys[x][0] == keys[y][0]);
        }
    }
    assert forall|x: int| 0 <= x < keys.len() implies keys[x] != "cols"@ by {
        if keys[x] == "cols"@ {
            assert(keys[x][0] == "cols"@[0]);
        }
    }
    let bk = saved_board_keys();
    assert forall|x: int, y: int| 0 <= x < y < bk.len() implies bk[x] != bk[y] by {
        if bk[x] == bk[y] {
            assert(bk[x][0] == bk[y][0]);
        }
    }
    let sk = saved_snake_keys();
    assert forall|x: int, y: int| 0 <= x < y < sk.len() implies sk[x] != sk[y] by {
        if sk[x] == sk[y] {
            assert(sk[x][0] == sk[y][0]);
        }
    }
}

/// A saved snake reads back: its id, its whole body and its health.
#[verifier::rlimit(40)]
proof fn lemma_saved_snake_read(item: JsonValue, id: Seq<char>, name: Seq<char>, side: (Seq<Point>, int))
    requires
        jm(item) == saved_snake_doc(id, name, side),
        i32::MIN <= side.1 <= i32::MAX,
    ensures
        item_id(item) == id,
        strict_points(member_items(item, "body"@)) == Some(side.0),
        i32_or(json_as_i64(json_get(item, "health"@)), 100) as int == side.1,
{
    let keys = saved_snake_keys();
    let vals = saved_snake_doc(id, name, side)->Object_1;
    lemma_saved_keys_distinct();
    lemma_member_at(item, keys, vals, 0);
    lemma_member_at(item, keys, vals, 2);
    lemma_member_at(item, keys, vals, 3);
    lemma_str_model(json_get(item, "id"@)->Some_0, id);
    lemma_strict_points_member_read(item, "body"@, json_get(item, "body"@)->Some_0, side.0);
    lemma_int_model(json_get(item, "health"@)->Some_0, side.1);
}

/// The board of a saved scenario reads back: its size, its whole food list and its two snake
/// entries.
#[verifier::rlimit(40)]
proof fn lemma_saved_board_read(v: JsonValue, state: GameState, id: Seq<char>, name: Seq<char>, expected: Direction)
    requires
        jm(v) == saved_scenario_doc(state, id, name, expected),
    ensures
        !is_compact(v),
        json_as_str(json_get(v, "you_id"@)) == Some("s2"@),
        json_get(v, "board"@) matches Some(board) && {
            &&& json_as_i64(json_get(board, "width"@)) == Some(state.board.width as i64)
            &&& json_as_i64(json_get(board, "height"@)) == Some(state.board.height as i64)
            &&& strict_points(member_items(board, "food"@)) == Some(state.board.food@)
            &&& member_items(board, "snakes"@).len() == 2
            &&& jm(member_items(board, "snakes"@)[0]) == saved_snake_doc("s2"@, "AI"@, side_or_full(state.board.snakes@, "s2"@))
            &&& jm(member_items(board, "snakes"@)[1]) == saved_snake_doc("s1"@, "Player"@, side_or_full(state.board.snakes@, "s1"@))
        },
{
    let doc = saved_scenario_doc(state, id, name, expected);
    let keys = saved_keys();
    let vals = doc->Object_1;
    lemma_saved_keys_distinct();
    lemma_member_absent(v, keys, vals, "cols"@);
    lemma_member_at(v, keys, vals, 2);
    lemma_member_at(v, keys, vals, 4);
    lemma_str_model(json_get(v, "you_id"@)->Some_0, "s2"@);
    let board = json_get(v, "board"@)->Some_0;
    let bkeys = saved_board_keys();
    let bvals = vals[4]->Object_1;
    lemma_member_at(board, bkeys, bvals, 0);
    lemma_member_at(board, bkeys, bvals, 1);
    lemma_member_at(board, bkeys, bvals, 2);
    lemma_member_at(board, bkeys, bvals, 3);
    lemma_int_model(json_get(board, "width"@)->Some_0, state.board.width as int);
    lemma_int_model(json_get(board, "height"@)->Some_0, state.board.height as int);
    lemma_strict_points_member_read(board, "food"@, json_get(board, "food"@)->Some_0, state.board.food@);
    lemma_array_model(json_get(board, "snakes"@)->Some_0, bvals[3]->Array_0);
}

/// The two snake entries of a saved scenario read back as the AI `s2` and then `s1`.
#[verifier::rlimit(40)]
proof fn lemma_saved_snakes_read(items: Seq<JsonValue>, a: (Seq<Point>, int), p: (Seq<Point>, int))
    requires
        items.len() == 2,
        item_id(items[0]) == "s2"@,
        strict_points(member_items(items[0], "body"@)) == Some(a.0),
        i32_or(json_as_i64(json_get(items[0], "health"@)), 100) as int == a.1,
        strict_points(member_items(items[1], "body"@)) == Some(p.0),
        i32_or(json_as_i64(json_get(items[1], "health"@)), 100) as int == p.1,
    ensures
        board_snakes_from(items, ai_index_spec(items, "s2"@), 0) == Some(seq![
            SnakeModel { id: "s2"@, name: "s2"@, body: a.0, health: a.1, alive: true },
            SnakeModel { id: "s1"@, name: "s1"@, body: p.0, health: p.1, alive: true },
        ]),
{
    reveal_strlit("s2");
    reveal_strlit("s1");
    assert(is_ai_item(items[0], "s2"@));
    assert(first_ai(items, "s2"@, 0) == 0);
    assert(ai_index_spec(items, "s2"@) == 0);
    assert(renamed_id(1, 0) == "s1"@);
    let m0 = SnakeModel { id: "s2"@, name: "s2"@, body: a.0, health: a.1, alive: true };
    let m1 = SnakeModel { id: "s1"@, name: "s1"@, body: p.0, health: p.1, alive: true };
    assert(board_snakes_from(items, 0, 2) == Some(Seq::<SnakeModel>::empty()));
    assert(board_snakes_from(items, 0, 1) == Some(seq![m1] + Seq::<SnakeModel>::empty()));
    assert(board_snakes_from(items, 0, 0) == Some(seq![m0] + (seq![m1] + Seq::<SnakeModel>::empty())));
    assert(seq![m0] + (seq![m1] + Seq::<SnakeModel>::empty()) =~= seq![m0, m1]);
}

/// A playground position saved as a scenario reads back: the board size and food, then the AI
/// `s2` and the player `s1` with the written bodies and health, at turn 0 with seed 0.
pub proof fn lemma_saved_scenario_reads_back(v: JsonValue, state: GameState, id: Seq<char>, name: Seq<char>, expected: Direction)
    requires
        jm(v) == saved_scenario_doc(state, id, name, expected),
    ensures
        scenario_spec(v) == Some(StateModel {
            turn: 0,
            seed: 0,
            width: state.board.width as int,
            height: state.board.height as int,
            food: state.board.food@,
            snakes: seq![
                SnakeModel {
                    id: "s2"@,
                    name: "s2"@,
                    body: side_or_full(state.board.snakes@, "s2"@).0,
                    health: side_or_full(state.board.snakes@, "s2"@).1,
                    alive: true,
                },
                SnakeModel {
                    id: "s1"@,
                    name: "s1"@,
                    body: side_or_full(state.board.snakes@, "s1"@).0,
                    health: side_or_full(state.board.snakes@, "s1"@).1,
                    alive: true,
                },
            ],
        }),
{
    let snakes = state.board.snakes@;
    assert(snakes.len() == state.board.snakes.len());
    lemma_side_health(snakes, "s1"@);
    lemma_side_health(snakes, "s2"@);
    lemma_saved_board_read(v, state, id, name, expected);
    let board = json_get(v, "board"@)->Some_0;
    let items = member_items(board, "snakes"@);
    let a = side_or_full(snakes, "s2"@);
    let p = side_or_full(snakes, "s1"@);
    lemma_saved_snake_read(items[0], "s2"@, "AI"@, a);
    lemma_saved_snake_read(items[1], "s1"@, "Player"@, p);
    lemma_saved_snakes_read(items, a, p);
}

} // verus!
