use vstd::prelude::*;
use crate::direction::{Direction, spec_lower_name};
use crate::types::{Point, Snake, SnakeId, GameState, deque_from_points, points_of_deque};
use crate::text::{str_chars, trim_chars, lower_chars, chars_eq_str, trim_spec, lower_spec};
use crate::json::{JsonValue, JModel, jm, jm_list, json_get, json_as_i64, json_as_str, json_items, as_i64, as_str};
use crate::engine::{SnakeModel, models_of};
use crate::matches::{find_snake, first_with_id};

verus! {

/// Which request/response format a move server speaks.
#[derive(Debug, Clone, Copy, PartialEq, Eq, Structural)]
pub enum ApiFlavor {
    Auto,
    Standard,
    Legacy,
}

/// A move request reduced to what the engine needs.
#[derive(Debug, Clone)]
pub struct ParsedMoveRequest {
    pub turn: i32,
    pub width: i32,
    pub height: i32,
    pub food: Vec<Point>,
    pub snakes: Vec<Snake>,
    pub you_id: String,
}

/// `s` trimmed and with ASCII letters in lower case.
pub open spec fn normalized(s: Seq<char>) -> Seq<char> {
    lower_spec(trim_spec(s))
}

/// The flavor a configuration value names; unknown or missing values mean `Legacy`.
pub open spec fn flavor_of(value: Option<Seq<char>>) -> ApiFlavor {
    match value {
        None => ApiFlavor::Legacy,
        Some(s) => if normalized(s) == seq!['s', 't', 'a', 'n', 'd', 'a', 'r', 'd'] {
            ApiFlavor::Standard
        } else if normalized(s) == seq!['a', 'u', 't', 'o'] {
            ApiFlavor::Auto
        } else {
            ApiFlavor::Legacy
        },
    }
}

/// `value` trimmed and lower-cased.
pub fn normalize_chars(value: &str) -> (r: Vec<char>)
    ensures
        r@ == normalized(value@),
{
    let raw = str_chars(value);
    let t = trim_chars(raw.as_slice());
    lower_chars(t.as_slice())
}

/// The API flavor named by `value` (case-insensitive, surrounding white space ignored).
pub fn normalize_api_type(value: Option<&str>) -> (f: ApiFlavor)
    ensures
        value.is_none() ==> f == ApiFlavor::Legacy,
        value matches Some(s) ==> f == flavor_of(Some(s@)),
{
    match value {
        None => ApiFlavor::Legacy,
        Some(s) => {
            let n = normalize_chars(s);
            proof {
                reveal_strlit("standard");
                reveal_strlit("auto");
                assert("standard"@ =~= seq!['s', 't', 'a', 'n', 'd', 'a', 'r', 'd']);
                assert("auto"@ =~= seq!['a', 'u', 't', 'o']);
            }
            if chars_eq_str(n.as_slice(), "standard") {
                ApiFlavor::Standard
            } else if chars_eq_str(n.as_slice(), "auto") {
                ApiFlavor::Auto
            } else {
                ApiFlavor::Legacy
            }
        },
    }
}

/// The direction whose lower-case name is `normalized(value)`, if any.
pub open spec fn move_of(value: Seq<char>) -> Option<Direction> {
    if normalized(value) == spec_lower_name(Direction::Up) {
        Some(Direction::Up)
    } else if normalized(value) == spec_lower_name(Direction::Down) {
        Some(Direction::Down)
    } else if normalized(value) == spec_lower_name(Direction::Left) {
        Some(Direction::Left)
    } else if normalized(value) == spec_lower_name(Direction::Right) {
        Some(Direction::Right)
    } else {
        None
    }
}

/// The direction a move name denotes (case-insensitive, surrounding white space ignored).
pub fn normalize_move_name(value: &str) -> (d: Option<Direction>)
    ensures
        d == move_of(value@),
{
    let n = normalize_chars(value);
    proof {
        reveal_strlit("up");
        reveal_strlit("down");
        reveal_strlit("left");
        reveal_strlit("right");
        assert("up"@ =~= spec_lower_name(Direction::Up));
        assert("down"@ =~= spec_lower_name(Direction::Down));
        assert("left"@ =~= spec_lower_name(Direction::Left));
        assert("right"@ =~= spec_lower_name(Direction::Right));
    }
    if chars_eq_str(n.as_slice(), "up") {
        Some(Direction::Up)
    } else if chars_eq_str(n.as_slice(), "down") {
        Some(Direction::Down)
    } else if chars_eq_str(n.as_slice(), "left") {
        Some(Direction::Left)
    } else if chars_eq_str(n.as_slice(), "right") {
        Some(Direction::Right)
    } else {
        None
    }
}

/// Converts a row index between bottom-up and top-down numbering.
pub fn invert_y(y: i32, height: i32) -> (r: i32)
    requires
        height > i32::MIN,
        i32::MIN <= height - 1 - y <= i32::MAX,
    ensures
        r == height - 1 - y,
{
    height - 1 - y
}

// ---------------------------------------------------------------------------------------------
// Reading move requests. Two layouts are accepted: the standard one (`board` and `you` at the
// top level) and the legacy one, whose lists may be wrapped as `{"object": "list", "data": [..]}`,
// whose objects may be wrapped the same way, and whose rows count from the top.
// ---------------------------------------------------------------------------------------------

/// Why a move request could not be read.
#[derive(Debug, Clone, Copy, PartialEq, Eq, Structural)]
pub enum ApiError {
    MissingBoard,
    MissingBoardWidth,
    MissingBoardHeight,
}

impl ApiError {
    /// The error's message.
    pub fn message(&self) -> (s: &'static str)
        ensures
            s@ == match *self {
                ApiError::MissingBoard => "missing board"@,
                ApiError::MissingBoardWidth => "missing board.width"@,
                ApiError::MissingBoardHeight => "missing board.height"@,
            },
    {
        match self {
            ApiError::MissingBoard => "missing board",
            ApiError::MissingBoardWidth => "missing board.width",
            ApiError::MissingBoardHeight => "missing board.height",
        }
    }
}

/// `n` as an `i32` (keeping the low 32 bits), or `d` when there is no number.
pub open spec fn i32_or(v: Option<i64>, d: i32) -> i32 {
    match v {
        Some(n) => n as i32,
        None => d,
    }
}

/// The text of a string member, or `d`.
pub open spec fn str_or(v: Option<Seq<char>>, d: Seq<char>) -> Seq<char> {
    match v {
        Some(s) => s,
        None => d,
    }
}

/// A wrapped object's payload: the `data` member when it is an object, else the value itself.
pub open spec fn clean_object_spec(v: JsonValue) -> JsonValue {
    match json_get(v, "data"@) {
        Some(d) => if d is Object { d } else { v },
        None => v,
    }
}

/// A wrapped list's payload: the `data` member when it is an array, else the value itself.
pub open spec fn clean_list_spec(v: JsonValue) -> JsonValue {
    match json_get(v, "data"@) {
        Some(d) => if d is Array { d } else { v },
        None => v,
    }
}

/// A point from an object with `x` and `y` (each 0 when missing).
pub open spec fn point_of(item: JsonValue) -> Point {
    let o = clean_object_spec(item);
    Point { x: i32_or(json_as_i64(json_get(o, "x"@)), 0), y: i32_or(json_as_i64(json_get(o, "y"@)), 0) }
}

/// The points of an array (none for any other value).
pub open spec fn points_of(node: JsonValue) -> Seq<Point> {
    json_items(node).map_values(|it: JsonValue| point_of(it))
}

/// The points of an optional list member (none when missing).
pub open spec fn points_of_opt(node: Option<JsonValue>) -> Seq<Point> {
    match node {
        Some(n) => points_of(n),
        None => Seq::empty(),
    }
}

/// A snake in the standard layout.
pub open spec fn std_snake(s: JsonValue) -> SnakeModel {
    SnakeModel {
        id: str_or(json_as_str(json_get(s, "id"@)), "s"@),
        name: str_or(json_as_str(json_get(s, "name"@)), "snake"@),
        body: points_of_opt(json_get(s, "body"@)),
        health: i32_or(json_as_i64(json_get(s, "health"@)), 100) as int,
        alive: true,
    }
}

/// The health member of a legacy snake: `health`, or `hp` when there is none.
pub open spec fn legacy_health(o: JsonValue) -> Option<JsonValue> {
    match json_get(o, "health"@) {
        Some(v) => Some(v),
        None => json_get(o, "hp"@),
    }
}

/// The body member of a legacy snake, unwrapped (null when missing).
pub open spec fn legacy_body_node(o: JsonValue) -> JsonValue {
    match json_get(o, "body"@) {
        Some(b) => clean_list_spec(b),
        None => JsonValue::Null,
    }
}

/// A snake in the legacy layout on a board of height `h`, rows flipped to count from the bottom.
pub open spec fn legacy_snake(s: JsonValue, h: int) -> SnakeModel {
    let o = clean_object_spec(s);
    let body = points_of(legacy_body_node(o));
    SnakeModel {
        id: str_or(json_as_str(json_get(o, "id"@)), "s"@),
        name: str_or(json_as_str(json_get(o, "name"@)), "snake"@),
        body: body.map_values(|p: Point| Point { x: p.x, y: (h - 1 - p.y) as i32 }),
        health: i32_or(json_as_i64(legacy_health(o)), 100) as int,
        alive: true,
    }
}

/// A move request with its lists as sequences.
pub ghost struct RequestModel {
    pub turn: int,
    pub width: int,
    pub height: int,
    pub food: Seq<Point>,
    pub snakes: Seq<SnakeModel>,
    pub you_id: Seq<char>,
}

/// Whether a request uses the standard layout.
pub open spec fn is_standard(body: JsonValue) -> bool {
    json_get(body, "board"@) is Some && json_get(body, "you"@) is Some
}

/// A legacy member, or null when missing.
pub open spec fn or_null(v: Option<JsonValue>) -> JsonValue {
    match v {
        Some(x) => x,
        None => JsonValue::Null,
    }
}

/// The board height of a legacy request: `height`, else `board.height`, else 15.
pub open spec fn legacy_height(body: JsonValue) -> i32 {
    match json_as_i64(json_get(body, "height"@)) {
        Some(n) => n as i32,
        None => match json_get(body, "board"@) {
            Some(b) => i32_or(json_as_i64(json_get(b, "height"@)), 15),
            None => 15,
        },
    }
}

/// The board width of a legacy request: `width`, else `board.width`, else 15.
pub open spec fn legacy_width(body: JsonValue) -> i32 {
    match json_as_i64(json_get(body, "width"@)) {
        Some(n) => n as i32,
        None => match json_get(body, "board"@) {
            Some(b) => i32_or(json_as_i64(json_get(b, "width"@)), 15),
            None => 15,
        },
    }
}

/// The legacy snake objects of a request.
pub open spec fn legacy_snake_items(body: JsonValue) -> Seq<JsonValue> {
    json_items(clean_list_spec(or_null(json_get(body, "snakes"@))))
}

/// Flipping the rows of every legacy snake stays within `i32`.
pub open spec fn legacy_rows_fit(body: JsonValue) -> bool {
    let h = legacy_height(body) as int;
    forall|k: int, j: int| 0 <= k < legacy_snake_items(body).len()
        && 0 <= j < points_of(legacy_body_node(clean_object_spec(legacy_snake_items(body)[k]))).len()
        ==> i32::MIN <= h - 1 - (#[trigger] points_of(legacy_body_node(clean_object_spec(legacy_snake_items(body)[k])))[j]).y <= i32::MAX
}

/// What a move request says, or why it cannot be read.
pub open spec fn request_spec(body: JsonValue) -> Result<RequestModel, ApiError> {
    let turn = i32_or(json_as_i64(json_get(body, "turn"@)), 0) as int;
    if is_standard(body) {
        let board = json_get(body, "board"@)->Some_0;
        match json_as_i64(json_get(board, "width"@)) {
            None => Err(ApiError::MissingBoardWidth),
            Some(w) => match json_as_i64(json_get(board, "height"@)) {
                None => Err(ApiError::MissingBoardHeight),
                Some(h) => Ok(RequestModel {
                    turn,
                    width: w as i32 as int,
                    height: h as i32 as int,
                    food: points_of_opt(json_get(board, "food"@)),
                    snakes: json_items(or_null(json_get(board, "snakes"@))).map_values(|x: JsonValue| std_snake(x)),
                    you_id: str_or(json_as_str(match json_get(body, "you"@) {
                        Some(y) => json_get(y, "id"@),
                        None => None,
                    }), "you"@),
                }),
            },
        }
    } else {
        let h = legacy_height(body);
        Ok(RequestModel {
            turn,
            width: legacy_width(body) as int,
            height: h as int,
            food: points_of(clean_list_spec(or_null(json_get(body, "food"@)))),
            snakes: legacy_snake_items(body).map_values(|x: JsonValue| legacy_snake(x, h as int)),
            you_id: str_or(json_as_str(json_get(clean_object_spec(or_null(json_get(body, "you"@))), "id"@)), "you"@),
        })
    }
}

/// The model of a parsed request.
pub open spec fn request_model(r: ParsedMoveRequest) -> RequestModel {
    RequestModel {
        turn: r.turn as int,
        width: r.width as int,
        height: r.height as int,
        food: r.food@,
        snakes: models_of(r.snakes@),
        you_id: r.you_id@,
    }
}

/// A wrapped object's payload.
fn clean_object(node: &JsonValue) -> (r: &JsonValue)
    ensures
        *r == clean_object_spec(*node),
{
    match node.get("data") {
        Some(d) => if d.is_object() { d } else { node },
        None => node,
    }
}

/// A wrapped list's payload.
fn clean_list(node: &JsonValue) -> (r: &JsonValue)
    ensures
        *r == clean_list_spec(*node),
{
    match node.get("data") {
        Some(d) => if d.is_array() { d } else { node },
        None => node,
    }
}

/// `n` as an `i32`, or `d`.
fn i32_or_exec(v: Option<i64>, d: i32) -> (r: i32)
    ensures
        r == i32_or(v, d),
{
    match v {
        Some(n) => n as i32,
        None => d,
    }
}

/// The text of a string value, or the literal `d`.
fn str_or_exec(v: Option<&String>, d: &str) -> (r: String)
    ensures
        r@ == str_or(match v { Some(s) => Some(s@), None => None }, d@),
{
    match v {
        Some(s) => crate::text::string_from_chars(str_chars(s.as_str()).as_slice()),
        None => d.to_owned(),
    }
}

/// The point an object describes.
fn point_from(item: &JsonValue) -> (p: Point)
    ensures
        p == point_of(*item),
{
    let o = clean_object(item);
    let x = i32_or_exec(as_i64(o.get("x")), 0);
    let y = i32_or_exec(as_i64(o.get("y")), 0);
    Point { x, y }
}

/// The points of an array.
fn parse_points(node: &JsonValue) -> (r: Vec<Point>)
    ensures
        r@ == points_of(*node),
{
    let mut out: Vec<Point> = Vec::new();
    match node {
        JsonValue::Array(items) => {
            let mut i: usize = 0;
            while i < items.len()
                invariant
                    *node == JsonValue::Array(*items),
                    i <= items@.len(),
                    out@ == items@.take(i as int).map_values(|it: JsonValue| point_of(it)),
                decreases items@.len() - i,
            {
                let pt = point_from(&items[i]);
                out.push(pt);
                i += 1;
                assert(out@ =~= items@.take(i as int).map_values(|it: JsonValue| point_of(it)));
            }
            assert(items@.take(i as int) =~= items@);
        },
        _ => {
            assert(out@ =~= points_of(*node));
        },
    }
    out
}

/// The snakes of a standard request.
fn parse_standard_snakes(node: &JsonValue) -> (r: Vec<Snake>)
    ensures
        models_of(r@) == json_items(*node).map_values(|x: JsonValue| std_snake(x)),
{
    let mut out: Vec<Snake> = Vec::new();
    match node {
        JsonValue::Array(items) => {
            let mut i: usize = 0;
            while i < items.len()
                invariant
                    *node == JsonValue::Array(*items),
                    i <= items@.len(),
                    models_of(out@) == items@.take(i as int).map_values(|x: JsonValue| std_snake(x)),
                decreases items@.len() - i,
            {
                let s = &items[i];
                let id = str_or_exec(as_str(s.get("id")), "s");
                let name = str_or_exec(as_str(s.get("name")), "snake");
                let body = match s.get("body") {
                    Some(b) => parse_points(b),
                    None => Vec::new(),
                };
                let health = i32_or_exec(as_i64(s.get("health")), 100);
                let snake = Snake { id: SnakeId(id), name, body: deque_from_points(body.as_slice()), health, alive: true };
                let ghost before = out@;
                out.push(snake);
                proof {
                    assert(models_of(out@) =~= models_of(before).push(crate::engine::model_of(snake)));
                    assert(crate::engine::model_of(snake) == std_snake(items@[i as int]));
                    assert(items@.take(i + 1) =~= items@.take(i as int).push(items@[i as int]));
                    assert(models_of(out@) =~= items@.take(i + 1).map_values(|x: JsonValue| std_snake(x)));
                }
                i += 1;
            }
            assert(items@.take(i as int) =~= items@);
        },
        _ => {
            assert(models_of(out@) =~= json_items(*node).map_values(|x: JsonValue| std_snake(x)));
        },
    }
    out
}

/// The points with their rows counted from the other edge of a board of height `height`.
fn flip_rows(raw: &Vec<Point>, height: i32) -> (body: Vec<Point>)
    requires
        forall|q: int| 0 <= q < raw@.len() ==> i32::MIN <= height - 1 - (#[trigger] raw@[q]).y <= i32::MAX,
    ensures
        body@ == raw@.map_values(|p: Point| Point { x: p.x, y: (height - 1 - p.y) as i32 }),
{
    let mut body: Vec<Point> = Vec::new();
    let mut j: usize = 0;
    while j < raw.len()
        invariant
            j <= raw@.len(),
            forall|q: int| 0 <= q < raw@.len() ==> i32::MIN <= height - 1 - (#[trigger] raw@[q]).y <= i32::MAX,
            body@ == raw@.take(j as int).map_values(|p: Point| Point { x: p.x, y: (height - 1 - p.y) as i32 }),
        decreases raw@.len() - j,
    {
        let p = raw[j];
        let flipped = (height as i64 - 1 - p.y as i64) as i32;
        body.push(Point { x: p.x, y: flipped });
        j += 1;
        assert(body@ =~= raw@.take(j as int).map_values(|p: Point| Point { x: p.x, y: (height - 1 - p.y) as i32 }));
    }
    assert(raw@.take(j as int) =~= raw@);
    body
}

/// The snakes of a legacy request on a board of height `height`.
#[verifier::rlimit(50)]
fn parse_legacy_snakes(node: &JsonValue, height: i32) -> (r: Vec<Snake>)
    requires
        forall|k: int, j: int| 0 <= k < json_items(*node).len()
            && 0 <= j < points_of(legacy_body_node(clean_object_spec(json_items(*node)[k]))).len()
            ==> i32::MIN <= height - 1 - (#[trigger] points_of(legacy_body_node(clean_object_spec(json_items(*node)[k])))[j]).y <= i32::MAX,
    ensures
        models_of(r@) == json_items(*node).map_values(|x: JsonValue| legacy_snake(x, height as int)),
{
    let mut out: Vec<Snake> = Vec::new();
    match node {
        JsonValue::Array(items) => {
            let mut i: usize = 0;
            assert(json_items(*node) == items@);
            while i < items.len()
                invariant
                    *node == JsonValue::Array(*items),
                    i <= items@.len(),
                    models_of(out@) == items@.take(i as int).map_values(|x: JsonValue| legacy_snake(x, height as int)),
                    forall|k: int, j: int| 0 <= k < items@.len()
                        && 0 <= j < points_of(legacy_body_node(clean_object_spec(items@[k]))).len()
                        ==> i32::MIN <= height - 1 - (#[trigger] points_of(legacy_body_node(clean_object_spec(items@[k])))[j]).y <= i32::MAX,
                decreases items@.len() - i,
            {
                let o = clean_object(&items[i]);
                let body_node: &JsonValue = match o.get("body") {
                    Some(b) => clean_list(b),
                    None => &JsonValue::Null,
                };
                let raw = parse_points(body_node);
                proof {
                    assert(raw@ == points_of(legacy_body_node(clean_object_spec(items@[i as int]))));
                    assert forall|q: int| 0 <= q < raw@.len() implies i32::MIN <= height - 1 - (#[trigger] raw@[q]).y <= i32::MAX by {
                        assert(points_of(legacy_body_node(clean_object_spec(items@[i as int])))[q] == raw@[q]);
                    }
                }
                let body = flip_rows(&raw, height);
                let id = str_or_exec(as_str(o.get("id")), "s");
                let name = str_or_exec(as_str(o.get("name")), "snake");
                let hv: Option<&JsonValue> = match o.get("health") {
                    Some(v) => Some(v),
                    None => o.get("hp"),
                };
                let health = i32_or_exec(as_i64(hv), 100);
                let snake = Snake { id: SnakeId(id), name, body: deque_from_points(body.as_slice()), health, alive: true };
                let ghost before = out@;
                out.push(snake);
                proof {
                    assert(models_of(out@) =~= models_of(before).push(crate::engine::model_of(snake)));
                    assert(crate::engine::model_of(snake) == legacy_snake(items@[i as int], height as int));
                    assert(items@.take(i + 1) =~= items@.take(i as int).push(items@[i as int]));
                    assert(models_of(out@) =~= items@.take(i + 1).map_values(|x: JsonValue| legacy_snake(x, height as int)));
                }
                i += 1;
            }
            assert(items@.take(i as int) =~= items@);
        },
        _ => {
            assert(models_of(out@) =~= json_items(*node).map_values(|x: JsonValue| legacy_snake(x, height as int)));
        },
    }
    out
}

/// Whether `height - 1 - y` fits `i32` for every point.
fn rows_flip_fit(raw: &Vec<Point>, height: i32) -> (r: bool)
    ensures
        r == forall|q: int| 0 <= q < raw@.len() ==> i32::MIN <= height - 1 - (#[trigger] raw@[q]).y <= i32::MAX,
{
    let mut j: usize = 0;
    while j < raw.len()
        invariant
            j <= raw@.len(),
            forall|q: int| 0 <= q < j ==> i32::MIN <= height - 1 - (#[trigger] raw@[q]).y <= i32::MAX,
        decreases raw@.len() - j,
    {
        let v = height as i64 - 1 - raw[j].y as i64;
        if v < i32::MIN as i64 || v > i32::MAX as i64 {
            return false;
        }
        j += 1;
    }
    true
}

/// Whether the rows of a legacy request's snakes fit `i32` when flipped (see `legacy_rows_fit`);
/// always true of a request in the standard layout.
pub fn legacy_rows_ok(body: &JsonValue) -> (r: bool)
    ensures
        r == (is_standard(*body) || legacy_rows_fit(*body)),
{
    if body.get("board").is_some() && body.get("you").is_some() {
        return true;
    }
    let height = match as_i64(body.get("height")) {
        Some(h) => h as i32,
        None => match body.get("board") {
            Some(bd) => i32_or_exec(as_i64(bd.get("height")), 15),
            None => 15,
        },
    };
    proof {
        assert(height == legacy_height(*body));
    }
    let snakes_node: &JsonValue = match body.get("snakes") {
        Some(sn) => sn,
        None => &JsonValue::Null,
    };
    let node = clean_list(snakes_node);
    assert(json_items(*node) == legacy_snake_items(*body));
    match node {
        JsonValue::Array(items) => {
            let mut i: usize = 0;
            while i < items.len()
                invariant
                    *node == JsonValue::Array(*items),
                    !is_standard(*body),
                    json_items(*node) == legacy_snake_items(*body),
                    height == legacy_height(*body),
                    i <= items@.len(),
                    forall|k: int, j: int| 0 <= k < i
                        && 0 <= j < points_of(legacy_body_node(clean_object_spec(items@[k]))).len()
                        ==> i32::MIN <= height - 1 - (#[trigger] points_of(legacy_body_node(clean_object_spec(items@[k])))[j]).y <= i32::MAX,
                decreases items@.len() - i,
            {
                let o = clean_object(&items[i]);
                let body_node: &JsonValue = match o.get("body") {
                    Some(b) => clean_list(b),
                    None => &JsonValue::Null,
                };
                let raw = parse_points(body_node);
                assert(raw@ == points_of(legacy_body_node(clean_object_spec(items@[i as int]))));
                if !rows_flip_fit(&raw, height) {
                    proof {
                        let its = legacy_snake_items(*body);
                        let q = choose|q: int| 0 <= q < raw@.len() && !(i32::MIN <= height - 1 - (#[trigger] raw@[q]).y <= i32::MAX);
                        assert(its[i as int] == items@[i as int]);
                        assert(points_of(legacy_body_node(clean_object_spec(its[i as int])))[q] == raw@[q]);
                        assert(!legacy_rows_fit(*body));
                    }
                    return false;
                }
                proof {
                    assert forall|k: int, q: int| 0 <= k < i + 1
                        && 0 <= q < points_of(legacy_body_node(clean_object_spec(items@[k]))).len()
                        implies i32::MIN <= height - 1 - (#[trigger] points_of(legacy_body_node(clean_object_spec(items@[k])))[q]).y <= i32::MAX by {
                        if k == i {
                            assert(points_of(legacy_body_node(clean_object_spec(items@[k])))[q] == raw@[q]);
                        }
                    }
                }
                i += 1;
            }
            true
        },
        _ => true,
    }
}

/// Reads a move request in either layout (see `request_spec`).
pub fn parse_move_request(body: &JsonValue) -> (r: Result<ParsedMoveRequest, ApiError>)
    requires
        !is_standard(*body) ==> legacy_rows_fit(*body),
    ensures
        match r {
            Ok(v) => request_spec(*body) == Ok::<RequestModel, ApiError>(request_model(v)),
            Err(e) => request_spec(*body) == Err::<RequestModel, ApiError>(e),
        },
{
    let turn = i32_or_exec(as_i64(body.get("turn")), 0);
    let board = body.get("board");
    let you = body.get("you");
    if board.is_some() && you.is_some() {
        let b = match board {
            Some(b) => b,
            None => return Err(ApiError::MissingBoard),
        };
        let width = match as_i64(b.get("width")) {
            Some(w) => w as i32,
            None => return Err(ApiError::MissingBoardWidth),
        };
        let height = match as_i64(b.get("height")) {
            Some(h) => h as i32,
            None => return Err(ApiError::MissingBoardHeight),
        };
        let food = match b.get("food") {
            Some(f) => parse_points(f),
            None => Vec::new(),
        };
        let snakes = match b.get("snakes") {
            Some(sn) => parse_standard_snakes(sn),
            None => parse_standard_snakes(&JsonValue::Null),
        };
        let you_id = match you {
            Some(y) => str_or_exec(as_str(y.get("id")), "you"),
            None => str_or_exec(None, "you"),
        };
        let r = ParsedMoveRequest { turn, width, height, food, snakes, you_id };
        proof {
            assert(request_model(r).food =~= points_of_opt(json_get(*b, "food"@)));
        }
        Ok(r)
    } else {
        let width = match as_i64(body.get("width")) {
            Some(w) => w as i32,
            None => match body.get("board") {
                Some(bd) => i32_or_exec(as_i64(bd.get("width")), 15),
                None => 15,
            },
        };
        let height = match as_i64(body.get("height")) {
            Some(h) => h as i32,
            None => match body.get("board") {
                Some(bd) => i32_or_exec(as_i64(bd.get("height")), 15),
                None => 15,
            },
        };
        let food_node: &JsonValue = match body.get("food") {
            Some(f) => f,
            None => &JsonValue::Null,
        };
        let snakes_node: &JsonValue = match body.get("snakes") {
            Some(sn) => sn,
            None => &JsonValue::Null,
        };
        let you_node: &JsonValue = match body.get("you") {
            Some(y) => y,
            None => &JsonValue::Null,
        };
        let food = parse_points(clean_list(food_node));
        let snakes = parse_legacy_snakes(clean_list(snakes_node), height);
        let you_id = str_or_exec(as_str(clean_object(you_node).get("id")), "you");
        Ok(ParsedMoveRequest { turn, width, height, food, snakes, you_id })
    }
}

// ---------------------------------------------------------------------------------------------
// Writing move requests for a remote opponent.
// ---------------------------------------------------------------------------------------------

/// `{"x": x, "y": y}`.
pub open spec fn jpoint(x: int, y: int) -> JModel {
    JModel::Object(seq!["x"@, "y"@], seq![JModel::Int(x), JModel::Int(y)])
}

/// A snake in the standard layout.
pub open spec fn std_snake_json(s: Snake) -> JModel {
    let body = s.body@;
    let head = if body.len() > 0 { body[0] } else { Point { x: 0, y: 0 } };
    JModel::Object(
        seq!["id"@, "name"@, "health"@, "body"@, "head"@, "length"@, "latency"@, "shout"@],
        seq![
            JModel::Str(s.id.0@),
            JModel::Str(s.name@),
            JModel::Int(s.health as int),
            JModel::Array(Seq::new(body.len(), |i: int| jpoint(body[i].x as int, body[i].y as int))),
            jpoint(head.x as int, head.y as int),
            JModel::Int(body.len() as int),
            JModel::Str("100"@),
            JModel::Str(""@),
        ],
    )
}

/// The `game` member of a standard request.
pub open spec fn game_model(game_id: Seq<char>, timeout: int) -> JModel {
    JModel::Object(
        seq!["id"@, "ruleset"@, "map"@, "timeout"@, "source"@],
        seq![
            JModel::Str(game_id),
            JModel::Object(seq!["name"@, "version"@], seq![JModel::Str("standard"@), JModel::Str("v1.2.3"@)]),
            JModel::Str("standard"@),
            JModel::Int(timeout),
            JModel::Str("rust-arena"@),
        ],
    )
}

/// The `board` member of a standard request.
pub open spec fn std_board_model(state: GameState) -> JModel {
    let snakes = state.board.snakes@;
    let food = state.board.food@;
    JModel::Object(
        seq!["height"@, "width"@, "food"@, "hazards"@, "snakes"@],
        seq![
            JModel::Int(state.board.height as int),
            JModel::Int(state.board.width as int),
            JModel::Array(Seq::new(food.len(), |i: int| jpoint(food[i].x as int, food[i].y as int))),
            JModel::Array(Seq::empty()),
            JModel::Array(Seq::new(snakes.len(), |i: int| std_snake_json(snakes[i]))),
        ],
    )
}

/// The `you` member of a standard request: the snake named `you`, or a stub with that id.
pub open spec fn std_you_model(state: GameState, you: Seq<char>) -> JModel {
    match first_with_id(state.board.snakes@, you) {
        Some(i) => std_snake_json(state.board.snakes@[i as int]),
        None => JModel::Object(seq!["id"@, "body"@], seq![JModel::Str(you), JModel::Array(Seq::empty())]),
    }
}

/// The standard request for snake `you` in `state`.
pub open spec fn standard_payload(state: GameState, you: Seq<char>, game_id: Seq<char>, timeout: int) -> JModel {
    JModel::Object(
        seq!["game"@, "turn"@, "board"@, "you"@],
        seq![game_model(game_id, timeout), JModel::Int(state.turn as int), std_board_model(state), std_you_model(state, you)],
    )
}

/// A point in the legacy layout, its row counted from the top of a board of height `h`.
pub open spec fn legacy_point(p: Point, h: int) -> JModel {
    JModel::Object(seq!["object"@, "x"@, "y"@], seq![JModel::Str("point"@), JModel::Int(p.x as int), JModel::Int(h - 1 - p.y)])
}

/// A wrapped legacy list.
pub open spec fn legacy_list(items: Seq<JModel>) -> JModel {
    JModel::Object(seq!["object"@, "data"@], seq![JModel::Str("list"@), JModel::Array(items)])
}

/// A snake in the legacy layout.
pub open spec fn legacy_snake_json(s: Snake, h: int) -> JModel {
    let body = s.body@;
    JModel::Object(
        seq!["object"@, "id"@, "name"@, "health"@, "body"@],
        seq![
            JModel::Str("snake"@),
            JModel::Str(s.id.0@),
            JModel::Str(s.name@),
            JModel::Int(s.health as int),
            legacy_list(Seq::new(body.len(), |i: int| legacy_point(body[i], h))),
        ],
    )
}

/// The `you` member of a legacy request: the snake named `you`, or an empty object.
pub open spec fn legacy_you_model(state: GameState, you: Seq<char>) -> JModel {
    match first_with_id(state.board.snakes@, you) {
        Some(i) => legacy_snake_json(state.board.snakes@[i as int], state.board.height as int),
        None => JModel::Object(Seq::empty(), Seq::empty()),
    }
}

/// The food list of a legacy request.
pub open spec fn legacy_food_model(state: GameState) -> JModel {
    let food = state.board.food@;
    legacy_list(Seq::new(food.len(), |i: int| legacy_point(food[i], state.board.height as int)))
}

/// The snake list of a legacy request.
pub open spec fn legacy_snakes_model(state: GameState) -> JModel {
    let snakes = state.board.snakes@;
    legacy_list(Seq::new(snakes.len(), |i: int| legacy_snake_json(snakes[i], state.board.height as int)))
}

/// The legacy request for snake `you` in `state`.
pub open spec fn legacy_payload(state: GameState, you: Seq<char>, game_id: Seq<char>) -> JModel {
    JModel::Object(
        seq!["object"@, "id"@, "width"@, "height"@, "turn"@, "food"@, "snakes"@, "you"@],
        seq![
            JModel::Str("world"@),
            JModel::Str(game_id),
            JModel::Int(state.board.width as int),
            JModel::Int(state.board.height as int),
            JModel::Int(state.turn as int),
            legacy_food_model(state),
            legacy_snakes_model(state),
            legacy_you_model(state, you),
        ],
    )
}

/// Flipping the row of every food item and snake segment stays within `i32`.
pub open spec fn legacy_state_fits(state: GameState) -> bool {
    let h = state.board.height as int;
    &&& forall|i: int| 0 <= i < state.board.food@.len() ==> i32::MIN <= h - 1 - (#[trigger] state.board.food@[i]).y <= i32::MAX
    &&& forall|k: int, j: int| 0 <= k < state.board.snakes@.len() && 0 <= j < state.board.snakes@[k].body@.len()
        ==> i32::MIN <= h - 1 - (#[trigger] state.board.snakes@[k].body@[j]).y <= i32::MAX
}

/// Whether flipping every row of `state` for the legacy layout stays within `i32` (see
/// `legacy_state_fits`).
pub fn legacy_state_ok(state: &GameState) -> (r: bool)
    ensures
        r == legacy_state_fits(*state),
{
    let h = state.board.height as i64;
    let food = &state.board.food;
    let mut i: usize = 0;
    while i < food.len()
        invariant
            h == state.board.height,
            i <= food@.len(),
            food@ == state.board.food@,
            forall|q: int| 0 <= q < i ==> i32::MIN <= h - 1 - (#[trigger] food@[q]).y <= i32::MAX,
        decreases food@.len() - i,
    {
        let v = h - 1 - food[i].y as i64;
        if v < i32::MIN as i64 || v > i32::MAX as i64 {
            return false;
        }
        i += 1;
    }
    let snakes = &state.board.snakes;
    let mut k: usize = 0;
    while k < snakes.len()
        invariant
            h == state.board.height,
            k <= snakes@.len(),
            snakes@ == state.board.snakes@,
            forall|q: int| 0 <= q < state.board.food@.len() ==> i32::MIN <= h - 1 - (#[trigger] state.board.food@[q]).y <= i32::MAX,
            forall|a: int, b: int| 0 <= a < k && 0 <= b < snakes@[a].body@.len()
                ==> i32::MIN <= h - 1 - (#[trigger] snakes@[a].body@[b]).y <= i32::MAX,
        decreases snakes@.len() - k,
    {
        let pts = points_of_deque(&snakes[k].body);
        let mut j: usize = 0;
        while j < pts.len()
            invariant
                h == state.board.height,
                k < snakes@.len(),
                snakes@ == state.board.snakes@,
                pts@ == snakes@[k as int].body@,
                j <= pts@.len(),
                forall|b: int| 0 <= b < j ==> i32::MIN <= h - 1 - (#[trigger] pts@[b]).y <= i32::MAX,
            decreases pts@.len() - j,
        {
            let v = h - 1 - pts[j].y as i64;
            if v < i32::MIN as i64 || v > i32::MAX as i64 {
                proof {
                    assert(state.board.snakes@[k as int].body@[j as int] == pts@[j as int]);
                    assert(!legacy_state_fits(*state));
                }
                return false;
            }
            j += 1;
        }
        proof {
            assert forall|a: int, b: int| 0 <= a < k + 1 && 0 <= b < snakes@[a].body@.len()
                implies i32::MIN <= h - 1 - (#[trigger] snakes@[a].body@[b]).y <= i32::MAX by {
                if a == k {
                    assert(snakes@[a].body@[b] == pts@[b]);
                }
            }
        }
        k += 1;
    }
    true
}

/// A string value.
pub(crate) fn jstr(s: &str) -> (v: JsonValue)
    ensures
        jm(v) == JModel::Str(s@),
{
    JsonValue::Str(s.to_owned())
}

/// A string value from a copy of `s`.
fn jstring(s: &String) -> (v: JsonValue)
    ensures
        jm(v) == JModel::Str(s@),
{
    JsonValue::Str(crate::text::string_from_chars(str_chars(s.as_str()).as_slice()))
}

/// An object key.
pub(crate) fn key(s: &str) -> (k: String)
    ensures
        k@ == s@,
{
    s.to_owned()
}

/// The models of two documents.
proof fn lemma_jm_list2(a: JsonValue, b: JsonValue)
    ensures
        jm_list(seq![a, b]) == seq![jm(a), jm(b)],
{
    reveal_with_fuel(jm_list, 3);
    assert(seq![a, b].drop_last() =~= seq![a]);
    assert(seq![a].drop_last() =~= Seq::<JsonValue>::empty());
    assert(jm_list(seq![a, b]) =~= seq![jm(a), jm(b)]);
}

/// `{"x": x, "y": y}`.
fn point_json(x: i32, y: i32) -> (v: JsonValue)
    ensures
        jm(v) == jpoint(x as int, y as int),
{
    let ks = vec![key("x"), key("y")];
    let vs = vec![JsonValue::Int(x as i64), JsonValue::Int(y as i64)];
    proof {
        lemma_jm_list2(vs@[0], vs@[1]);
        assert(vs@ =~= seq![vs@[0], vs@[1]]);
        assert(ks@.map_values(|k: String| k@) =~= seq!["x"@, "y"@]);
    }
    JsonValue::Object(ks, vs)
}

/// The models of a list are the models of its items.
pub proof fn lemma_jm_list_items(s: Seq<JsonValue>)
    ensures
        jm_list(s).len() == s.len(),
        forall|i: int| 0 <= i < s.len() ==> #[trigger] jm_list(s)[i] == jm(s[i]),
    decreases s.len(),
{
    if s.len() > 0 {
        lemma_jm_list_items(s.drop_last());
        assert forall|i: int| 0 <= i < s.len() implies #[trigger] jm_list(s)[i] == jm(s[i]) by {
            if i < s.len() - 1 {
                assert(s.drop_last()[i] == s[i]);
            }
        }
    }
}

/// An object from keys and values at equal positions.
pub(crate) fn obj(ks: Vec<String>, vs: Vec<JsonValue>) -> (v: JsonValue)
    ensures
        jm(v) == JModel::Object(ks@.map_values(|k: String| k@), Seq::new(vs@.len(), |i: int| jm(vs@[i]))),
{
    proof {
        lemma_jm_list_items(vs@);
        assert(jm_list(vs@) =~= Seq::new(vs@.len(), |i: int| jm(vs@[i])));
    }
    JsonValue::Object(ks, vs)
}

/// An array of values.
pub(crate) fn arr(vs: Vec<JsonValue>) -> (v: JsonValue)
    ensures
        jm(v) == JModel::Array(Seq::new(vs@.len(), |i: int| jm(vs@[i]))),
{
    proof {
        lemma_jm_list_items(vs@);
        assert(jm_list(vs@) =~= Seq::new(vs@.len(), |i: int| jm(vs@[i])));
    }
    JsonValue::Array(vs)
}

/// The standard points of a list.
pub(crate) fn points_json(pts: &Vec<Point>) -> (v: JsonValue)
    ensures
        jm(v) == JModel::Array(Seq::new(pts@.len(), |i: int| jpoint(pts@[i].x as int, pts@[i].y as int))),
{
    let mut vs: Vec<JsonValue> = Vec::new();
    let mut i: usize = 0;
    while i < pts.len()
        invariant
            i <= pts@.len(),
            vs@.len() == i,
            forall|k: int| 0 <= k < i ==> jm(#[trigger] vs@[k]) == jpoint(pts@[k].x as int, pts@[k].y as int),
        decreases pts@.len() - i,
    {
        vs.push(point_json(pts[i].x, pts[i].y));
        i += 1;
    }
    let v = arr(vs);
    assert(Seq::new(vs@.len(), |i: int| jm(vs@[i])) =~= Seq::new(pts@.len(), |i: int| jpoint(pts@[i].x as int, pts@[i].y as int)));
    v
}

/// A snake in the standard layout.
fn std_snake_value(s: &Snake) -> (v: JsonValue)
    requires
        s.body@.len() <= i64::MAX,
    ensures
        jm(v) == std_snake_json(*s),
{
    let body = points_of_deque(&s.body);
    let head = if body.len() > 0 { body[0] } else { Point { x: 0, y: 0 } };
    let ks = vec![key("id"), key("name"), key("health"), key("body"), key("head"), key("length"), key("latency"), key("shout")];
    let len = body.len();
    let vs = vec![
        jstring(&s.id.0),
        jstring(&s.name),
        JsonValue::Int(s.health as i64),
        points_json(&body),
        point_json(head.x, head.y),
        JsonValue::Int(len as i64),
        jstr("100"),
        jstr(""),
    ];
    let v = obj(ks, vs);
    proof {
        assert(ks@.map_values(|k: String| k@) =~= seq!["id"@, "name"@, "health"@, "body"@, "head"@, "length"@, "latency"@, "shout"@]);
        assert(Seq::new(vs@.len(), |i: int| jm(vs@[i])) =~= seq![
            JModel::Str(s.id.0@),
            JModel::Str(s.name@),
            JModel::Int(s.health as int),
            JModel::Array(Seq::new(body@.len(), |i: int| jpoint(body@[i].x as int, body@[i].y as int))),
            jpoint(head.x as int, head.y as int),
            JModel::Int(body@.len() as int),
            JModel::Str("100"@),
            JModel::Str(""@),
        ]);
    }
    v
}

/// Every snake body is short enough for its length to be written as a JSON integer.
pub open spec fn lengths_fit(state: GameState) -> bool {
    forall|k: int| 0 <= k < state.board.snakes@.len() ==> (#[trigger] state.board.snakes@[k]).body@.len() <= i64::MAX
}

/// An empty array.
fn empty_array() -> (v: JsonValue)
    ensures
        jm(v) == JModel::Array(Seq::empty()),
{
    let vs: Vec<JsonValue> = Vec::new();
    let v = arr(vs);
    assert(Seq::new(vs@.len(), |i: int| jm(vs@[i])) =~= Seq::<JModel>::empty());
    v
}

/// The `game` member of a standard request.
fn game_value(game_id: &str, timeout: u32) -> (v: JsonValue)
    ensures
        jm(v) == game_model(game_id@, timeout as int),
{
    let rks = vec![key("name"), key("version")];
    let rvs = vec![jstr("standard"), jstr("v1.2.3")];
    let rs = obj(rks, rvs);
    let ks = vec![key("id"), key("ruleset"), key("map"), key("timeout"), key("source")];
    let vs = vec![jstr(game_id), rs, jstr("standard"), JsonValue::Int(timeout as i64), jstr("rust-arena")];
    let v = obj(ks, vs);
    proof {
        assert(rks@.map_values(|k: String| k@) =~= seq!["name"@, "version"@]);
        assert(Seq::new(rvs@.len(), |i: int| jm(rvs@[i])) =~= seq![JModel::Str("standard"@), JModel::Str("v1.2.3"@)]);
        assert(ks@.map_values(|k: String| k@) =~= seq!["id"@, "ruleset"@, "map"@, "timeout"@, "source"@]);
        assert(Seq::new(vs@.len(), |i: int| jm(vs@[i])) =~= seq![JModel::Str(game_id@), jm(rs), JModel::Str("standard"@),
            JModel::Int(timeout as int), JModel::Str("rust-arena"@)]);
    }
    v
}

/// The `board` member of a standard request.
fn std_board_value(state: &GameState) -> (v: JsonValue)
    requires
        lengths_fit(*state),
    ensures
        jm(v) == std_board_model(*state),
{
    let snakes = &state.board.snakes;
    let mut svs: Vec<JsonValue> = Vec::new();
    let mut i: usize = 0;
    while i < snakes.len()
        invariant
            i <= snakes@.len(),
            lengths_fit(*state),
            *snakes == state.board.snakes,
            svs@.len() == i,
            forall|k: int| 0 <= k < i ==> jm(#[trigger] svs@[k]) == std_snake_json(snakes@[k]),
        decreases snakes@.len() - i,
    {
        svs.push(std_snake_value(&snakes[i]));
        i += 1;
    }
    let snakes_v = arr(svs);
    let food_v = points_json(&state.board.food);
    let hz = empty_array();
    let ks = vec![key("height"), key("width"), key("food"), key("hazards"), key("snakes")];
    let vs = vec![JsonValue::Int(state.board.height as i64), JsonValue::Int(state.board.width as i64), food_v, hz, snakes_v];
    let v = obj(ks, vs);
    proof {
        assert(Seq::new(svs@.len(), |i: int| jm(svs@[i])) =~= Seq::new(snakes@.len(), |i: int| std_snake_json(snakes@[i])));
        assert(ks@.map_values(|k: String| k@) =~= seq!["height"@, "width"@, "food"@, "hazards"@, "snakes"@]);
        assert(Seq::new(vs@.len(), |i: int| jm(vs@[i])) =~= seq![JModel::Int(state.board.height as int), JModel::Int(state.board.width as int),
            jm(food_v), jm(hz), jm(snakes_v)]);
    }
    v
}

/// The `you` member of a standard request.
fn std_you_value(state: &GameState, you_id: &str) -> (v: JsonValue)
    requires
        lengths_fit(*state),
    ensures
        jm(v) == std_you_model(*state, you_id@),
{
    let snakes = &state.board.snakes;
    match find_snake(snakes, you_id) {
        Some(idx) => {
            assert(snakes@[idx as int].body@.len() <= i64::MAX);
            std_snake_value(&snakes[idx])
        },
        None => {
            let b = empty_array();
            let ks = vec![key("id"), key("body")];
            let vs = vec![jstr(you_id), b];
            let v = obj(ks, vs);
            proof {
                assert(ks@.map_values(|k: String| k@) =~= seq!["id"@, "body"@]);
                assert(Seq::new(vs@.len(), |i: int| jm(vs@[i])) =~= seq![JModel::Str(you_id@), jm(b)]);
            }
            v
        },
    }
}

/// The standard request for snake `you_id`.
fn build_standard_payload(state: &GameState, you_id: &str, game_id: &str, timeout: u32) -> (v: JsonValue)
    requires
        lengths_fit(*state),
    ensures
        jm(v) == standard_payload(*state, you_id@, game_id@, timeout as int),
{
    let game = game_value(game_id, timeout);
    let board = std_board_value(state);
    let you = std_you_value(state, you_id);
    let ks = vec![key("game"), key("turn"), key("board"), key("you")];
    let vs = vec![game, JsonValue::Int(state.turn as i64), board, you];
    let v = obj(ks, vs);
    proof {
        assert(ks@.map_values(|k: String| k@) =~= seq!["game"@, "turn"@, "board"@, "you"@]);
        assert(Seq::new(vs@.len(), |i: int| jm(vs@[i])) =~= seq![jm(game), JModel::Int(state.turn as int), jm(board), jm(you)]);
    }
    v
}

/// A point in the legacy layout.
fn legacy_point_value(p: Point, height: i32) -> (v: JsonValue)
    requires
        i32::MIN <= height - 1 - p.y <= i32::MAX,
    ensures
        jm(v) == legacy_point(p, height as int),
{
    let y = (height as i64 - 1 - p.y as i64) as i32;
    let ks = vec![key("object"), key("x"), key("y")];
    let vs = vec![jstr("point"), JsonValue::Int(p.x as i64), JsonValue::Int(y as i64)];
    let v = obj(ks, vs);
    proof {
        assert(ks@.map_values(|k: String| k@) =~= seq!["object"@, "x"@, "y"@]);
        assert(Seq::new(vs@.len(), |i: int| jm(vs@[i])) =~= seq![JModel::Str("point"@), JModel::Int(p.x as int), JModel::Int(height - 1 - p.y)]);
    }
    v
}

/// A wrapped legacy list of points.
fn legacy_points_value(pts: &Vec<Point>, height: i32) -> (v: JsonValue)
    requires
        forall|q: int| 0 <= q < pts@.len() ==> i32::MIN <= height - 1 - (#[trigger] pts@[q]).y <= i32::MAX,
    ensures
        jm(v) == legacy_list(Seq::new(pts@.len(), |i: int| legacy_point(pts@[i], height as int))),
{
    let mut vs: Vec<JsonValue> = Vec::new();
    let mut i: usize = 0;
    while i < pts.len()
        invariant
            i <= pts@.len(),
            forall|q: int| 0 <= q < pts@.len() ==> i32::MIN <= height - 1 - (#[trigger] pts@[q]).y <= i32::MAX,
            vs@.len() == i,
            forall|k: int| 0 <= k < i ==> jm(#[trigger] vs@[k]) == legacy_point(pts@[k], height as int),
        decreases pts@.len() - i,
    {
        vs.push(legacy_point_value(pts[i], height));
        i += 1;
    }
    let a = arr(vs);
    let ks = vec![key("object"), key("data")];
    let parts = vec![jstr("list"), a];
    let v = obj(ks, parts);
    proof {
        assert(Seq::new(vs@.len(), |i: int| jm(vs@[i])) =~= Seq::new(pts@.len(), |i: int| legacy_point(pts@[i], height as int)));
        assert(ks@.map_values(|k: String| k@) =~= seq!["object"@, "data"@]);
        assert(Seq::new(parts@.len(), |i: int| jm(parts@[i])) =~= seq![JModel::Str("list"@), jm(a)]);
    }
    v
}

/// A snake in the legacy layout.
fn legacy_snake_value(s: &Snake, height: i32) -> (v: JsonValue)
    requires
        forall|j: int| 0 <= j < s.body@.len() ==> i32::MIN <= height - 1 - (#[trigger] s.body@[j]).y <= i32::MAX,
    ensures
        jm(v) == legacy_snake_json(*s, height as int),
{
    let body = points_of_deque(&s.body);
    let ks = vec![key("object"), key("id"), key("name"), key("health"), key("body")];
    let vs = vec![jstr("snake"), jstring(&s.id.0), jstring(&s.name), JsonValue::Int(s.health as i64), legacy_points_value(&body, height)];
    let v = obj(ks, vs);
    proof {
        assert(ks@.map_values(|k: String| k@) =~= seq!["object"@, "id"@, "name"@, "health"@, "body"@]);
        assert(Seq::new(vs@.len(), |i: int| jm(vs@[i])) =~= seq![
            JModel::Str("snake"@),
            JModel::Str(s.id.0@),
            JModel::Str(s.name@),
            JModel::Int(s.health as int),
            legacy_list(Seq::new(body@.len(), |i: int| legacy_point(body@[i], height as int))),
        ]);
    }
    v
}

/// The snake list of a legacy request.
fn legacy_snakes_value(state: &GameState) -> (v: JsonValue)
    requires
        legacy_state_fits(*state),
    ensures
        jm(v) == legacy_snakes_model(*state),
{
    let h = state.board.height;
    let snakes = &state.board.snakes;
    let mut svs: Vec<JsonValue> = Vec::new();
    let mut i: usize = 0;
    while i < snakes.len()
        invariant
            i <= snakes@.len(),
            legacy_state_fits(*state),
            *snakes == state.board.snakes,
            h == state.board.height,
            svs@.len() == i,
            forall|k: int| 0 <= k < i ==> jm(#[trigger] svs@[k]) == legacy_snake_json(snakes@[k], h as int),
        decreases snakes@.len() - i,
    {
        svs.push(legacy_snake_value(&snakes[i], h));
        i += 1;
    }
    let a = arr(svs);
    let ks = vec![key("object"), key("data")];
    let vs = vec![jstr("list"), a];
    let v = obj(ks, vs);
    proof {
        assert(Seq::new(svs@.len(), |i: int| jm(svs@[i])) =~= Seq::new(snakes@.len(), |i: int| legacy_snake_json(snakes@[i], h as int)));
        assert(ks@.map_values(|k: String| k@) =~= seq!["object"@, "data"@]);
        assert(Seq::new(vs@.len(), |i: int| jm(vs@[i])) =~= seq![JModel::Str("list"@), jm(a)]);
    }
    v
}

/// The `you` member of a legacy request.
fn legacy_you_value(state: &GameState, you_id: &str) -> (v: JsonValue)
    requires
        legacy_state_fits(*state),
    ensures
        jm(v) == legacy_you_model(*state, you_id@),
{
    let snakes = &state.board.snakes;
    let h = state.board.height;
    match find_snake(snakes, you_id) {
        Some(idx) => {
            assert(forall|j: int| 0 <= j < snakes@[idx as int].body@.len() ==> i32::MIN <= h - 1 - (#[trigger] snakes@[idx as int].body@[j]).y <= i32::MAX);
            legacy_snake_value(&snakes[idx], h)
        },
        None => {
            let ks: Vec<String> = Vec::new();
            let vs: Vec<JsonValue> = Vec::new();
            let v = obj(ks, vs);
            proof {
                assert(ks@.map_values(|k: String| k@) =~= Seq::<Seq<char>>::empty());
                assert(Seq::new(vs@.len(), |i: int| jm(vs@[i])) =~= Seq::<JModel>::empty());
            }
            v
        },
    }
}

/// The legacy request for snake `you_id`.
fn build_legacy_payload(state: &GameState, you_id: &str, game_id: &str) -> (v: JsonValue)
    requires
        legacy_state_fits(*state),
    ensures
        jm(v) == legacy_payload(*state, you_id@, game_id@),
{
    let h = state.board.height;
    let food_v = legacy_points_value(&state.board.food, h);
    let snakes_v = legacy_snakes_value(state);
    let you = legacy_you_value(state, you_id);
    let ks = vec![key("object"), key("id"), key("width"), key("height"), key("turn"), key("food"), key("snakes"), key("you")];
    let vs = vec![jstr("world"), jstr(game_id), JsonValue::Int(state.board.width as i64), JsonValue::Int(h as i64),
        JsonValue::Int(state.turn as i64), food_v, snakes_v, you];
    let v = obj(ks, vs);
    proof {
        assert(ks@.map_values(|k: String| k@) =~= seq!["object"@, "id"@, "width"@, "height"@, "turn"@, "food"@, "snakes"@, "you"@]);
        assert(Seq::new(vs@.len(), |i: int| jm(vs@[i])) =~= seq![JModel::Str("world"@), JModel::Str(game_id@),
            JModel::Int(state.board.width as int), JModel::Int(h as int), JModel::Int(state.turn as int), jm(food_v), jm(snakes_v), jm(you)]);
    }
    v
}

/// The request to send a remote player for snake `you_id`: the standard layout for `Standard`,
/// the legacy layout otherwise.
pub fn build_move_payload(state: &GameState, you_id: &str, flavor: ApiFlavor, game_id: &str, timeout: u32) -> (r: Result<JsonValue, ApiError>)
    requires
        flavor == ApiFlavor::Standard ==> lengths_fit(*state),
        flavor != ApiFlavor::Standard ==> legacy_state_fits(*state),
    ensures
        r matches Ok(v) && jm(v) == match flavor {
            ApiFlavor::Standard => standard_payload(*state, you_id@, game_id@, timeout as int),
            _ => legacy_payload(*state, you_id@, game_id@),
        },
{
    match flavor {
        ApiFlavor::Standard => Ok(build_standard_payload(state, you_id, game_id, timeout)),
        _ => Ok(build_legacy_payload(state, you_id, game_id)),
    }
}

// ---------------------------------------------------------------------------------------------
// Reading back what was written.
// ---------------------------------------------------------------------------------------------

/// The member at `i` of an object, when no earlier member has its key, is what `json_get` finds.
pub(crate) proof fn lemma_member_at(v: JsonValue, keys: Seq<Seq<char>>, vals: Seq<JModel>, i: int)
    requires
        jm(v) == JModel::Object(keys, vals),
        keys.len() == vals.len(),
        0 <= i < keys.len(),
        forall|j: int| 0 <= j < i ==> keys[j] != keys[i],
    ensures
        json_get(v, keys[i]) matches Some(x) && jm(x) == vals[i],
{
    match v {
        JsonValue::Object(ks, vs) => {
            lemma_jm_list_items(vs@);
            assert(ks@.map_values(|k: String| k@) == keys);
            assert(ks@.len() == keys.len());
            let key = keys[i];
            assert(ks@[i]@ == key);
            assert forall|j: int| 0 <= j < i implies ks@[j]@ != key by {
                assert(ks@[j]@ == keys[j]);
            }
            let c = choose|c: int| 0 <= c < ks@.len() && c < vs@.len() && (#[trigger] ks@[c])@ == key
                && forall|j: int| 0 <= j < c ==> ks@[j]@ != key;
            assert(c == i) by {
                if c > i {
                    assert(ks@[i]@ != key);
                }
                if c < i {
                    assert(ks@[c]@ == keys[c]);
                }
            }
            assert(jm(vs@[i]) == jm_list(vs@)[i]);
        },
        _ => {},
    }
}

/// A key that no member of an object has is not found.
pub(crate) proof fn lemma_member_absent(v: JsonValue, keys: Seq<Seq<char>>, vals: Seq<JModel>, key: Seq<char>)
    requires
        jm(v) == JModel::Object(keys, vals),
        forall|j: int| 0 <= j < keys.len() ==> keys[j] != key,
    ensures
        json_get(v, key) is None,
{
    match v {
        JsonValue::Object(ks, vs) => {
            assert(ks@.map_values(|k: String| k@) == keys);
            assert forall|j: int| 0 <= j < ks@.len() && j < vs@.len() implies (#[trigger] ks@[j])@ != key by {
                assert(ks@[j]@ == keys[j]);
            }
        },
        _ => {},
    }
}

/// A value modelled as an integer holds that integer.
pub(crate) proof fn lemma_int_model(x: JsonValue, n: int)
    requires
        jm(x) == JModel::Int(n),
    ensures
        i64::MIN <= n <= i64::MAX,
        json_as_i64(Some(x)) == Some(n as i64),
{
}

/// A value modelled as a string holds that text.
pub(crate) proof fn lemma_str_model(x: JsonValue, t: Seq<char>)
    requires
        jm(x) == JModel::Str(t),
    ensures
        json_as_str(Some(x)) == Some(t),
{
}

/// A value modelled as an array holds items with those models.
pub(crate) proof fn lemma_array_model(x: JsonValue, ms: Seq<JModel>)
    requires
        jm(x) == JModel::Array(ms),
    ensures
        x is Array,
        json_items(x).len() == ms.len(),
        forall|i: int| 0 <= i < ms.len() ==> jm(#[trigger] json_items(x)[i]) == ms[i],
{
    match x {
        JsonValue::Array(items) => {
            lemma_jm_list_items(items@);
        },
        _ => {},
    }
}

/// A written point reads back.
proof fn lemma_read_point(item: JsonValue, p: Point)
    requires
        jm(item) == jpoint(p.x as int, p.y as int),
    ensures
        point_of(item) == p,
{
    reveal_strlit("x");
    reveal_strlit("y");
    reveal_strlit("data");
    let keys = seq!["x"@, "y"@];
    let vals = seq![JModel::Int(p.x as int), JModel::Int(p.y as int)];
    assert(keys[0][0] != keys[1][0]);
    assert(keys[0][0] != "data"@[0] && keys[1][0] != "data"@[0]);
    lemma_member_absent(item, keys, vals, "data"@);
    lemma_member_at(item, keys, vals, 0);
    lemma_member_at(item, keys, vals, 1);
    lemma_int_model(json_get(item, "x"@)->Some_0, p.x as int);
    lemma_int_model(json_get(item, "y"@)->Some_0, p.y as int);
}

/// A written list of points reads back.
proof fn lemma_read_points(node: JsonValue, ps: Seq<Point>)
    requires
        jm(node) == JModel::Array(Seq::new(ps.len(), |i: int| jpoint(ps[i].x as int, ps[i].y as int))),
    ensures
        points_of(node) == ps,
{
    let ms = Seq::new(ps.len(), |i: int| jpoint(ps[i].x as int, ps[i].y as int));
    lemma_array_model(node, ms);
    assert forall|i: int| 0 <= i < ps.len() implies #[trigger] points_of(node)[i] == ps[i] by {
        assert(jm(json_items(node)[i]) == ms[i]);
        lemma_read_point(json_items(node)[i], ps[i]);
    }
    assert(points_of(node) =~= ps);
}

/// A snake written in the standard layout reads back, alive.
#[verifier::rlimit(40)]
proof fn lemma_read_std_snake(item: JsonValue, s: Snake)
    requires
        jm(item) == std_snake_json(s),
    ensures
        std_snake(item) == (SnakeModel { id: s.id.0@, name: s.name@, body: s.body@, health: s.health as int, alive: true }),
{
    reveal_strlit("id");
    reveal_strlit("name");
    reveal_strlit("health");
    reveal_strlit("body");
    let body = s.body@;
    let head = if body.len() > 0 { body[0] } else { Point { x: 0, y: 0 } };
    let keys = seq!["id"@, "name"@, "health"@, "body"@, "head"@, "length"@, "latency"@, "shout"@];
    let vals = seq![
        JModel::Str(s.id.0@),
        JModel::Str(s.name@),
        JModel::Int(s.health as int),
        JModel::Array(Seq::new(body.len(), |i: int| jpoint(body[i].x as int, body[i].y as int))),
        jpoint(head.x as int, head.y as int),
        JModel::Int(body.len() as int),
        JModel::Str("100"@),
        JModel::Str(""@),
    ];
    assert(keys[0][0] != keys[1][0] && keys[0][0] != keys[2][0] && keys[1][0] != keys[2][0]);
    assert(keys[0][0] != keys[3][0] && keys[1][0] != keys[3][0] && keys[2][0] != keys[3][0]);
    lemma_member_at(item, keys, vals, 0);
    lemma_member_at(item, keys, vals, 1);
    lemma_member_at(item, keys, vals, 2);
    lemma_member_at(item, keys, vals, 3);
    lemma_str_model(json_get(item, "id"@)->Some_0, s.id.0@);
    lemma_str_model(json_get(item, "name"@)->Some_0, s.name@);
    lemma_int_model(json_get(item, "health"@)->Some_0, s.health as int);
    lemma_read_points(json_get(item, "body"@)->Some_0, body);
}

/// The first snake with id `id` has that id.
pub(crate) proof fn lemma_first_with_id(snakes: Seq<Snake>, id: Seq<char>)
    requires
        snakes.len() <= usize::MAX,
    ensures
        first_with_id(snakes, id) matches Some(i) ==> i < snakes.len() && snakes[i as int].id.0@ == id,
{
    if exists|i: int| 0 <= i < snakes.len() && snakes[i].id.0@ == id {
        let k = choose|i: int| 0 <= i < snakes.len() && snakes[i].id.0@ == id;
        lemma_first_id_witness(snakes, id, k);
    }
}

/// Some snake at or before `k` is the first with id `id`.
proof fn lemma_first_id_witness(snakes: Seq<Snake>, id: Seq<char>, k: int)
    requires
        0 <= k < snakes.len(),
        snakes[k].id.0@ == id,
    ensures
        exists|m: int| 0 <= m < snakes.len() && (#[trigger] snakes[m]).id.0@ == id
            && forall|j: int| 0 <= j < m ==> snakes[j].id.0@ != id,
    decreases k,
{
    if exists|j: int| 0 <= j < k && (#[trigger] snakes[j]).id.0@ == id {
        let j = choose|j: int| 0 <= j < k && (#[trigger] snakes[j]).id.0@ == id;
        lemma_first_id_witness(snakes, id, j);
    } else {
        assert(snakes[k].id.0@ == id);
    }
}

/// The snakes of a state as a standard request reads them: each alive.
pub open spec fn read_snakes(snakes: Seq<Snake>) -> Seq<SnakeModel> {
    snakes.map_values(|s: Snake| SnakeModel { id: s.id.0@, name: s.name@, body: s.body@, health: s.health as int, alive: true })
}

/// The keys and member models of the `board` member of a standard request.
spec fn std_board_keys() -> Seq<Seq<char>> {
    seq!["height"@, "width"@, "food"@, "hazards"@, "snakes"@]
}

/// The size and food of the `board` member of a written standard request read back.
#[verifier::rlimit(40)]
proof fn lemma_read_std_board_size(board: JsonValue, state: GameState)
    requires
        jm(board) == std_board_model(state),
    ensures
        json_as_i64(json_get(board, "width"@)) == Some(state.board.width as i64),
        json_as_i64(json_get(board, "height"@)) == Some(state.board.height as i64),
        points_of_opt(json_get(board, "food"@)) == state.board.food@,
{
    reveal_strlit("height");
    reveal_strlit("width");
    reveal_strlit("food");
    reveal_strlit("hazards");
    reveal_strlit("snakes");
    let snakes = state.board.snakes@;
    let food = state.board.food@;
    let keys = std_board_keys();
    let vals = seq![
        JModel::Int(state.board.height as int),
        JModel::Int(state.board.width as int),
        JModel::Array(Seq::new(food.len(), |i: int| jpoint(food[i].x as int, food[i].y as int))),
        JModel::Array(Seq::empty()),
        JModel::Array(Seq::new(snakes.len(), |i: int| std_snake_json(snakes[i]))),
    ];
    assert(jm(board) == JModel::Object(keys, vals));
    assert(keys[0][0] != keys[1][0] && keys[0][0] != keys[2][0] && keys[1][0] != keys[2][0]);
    lemma_member_at(board, keys, vals, 0);
    lemma_member_at(board, keys, vals, 1);
    lemma_member_at(board, keys, vals, 2);
    lemma_int_model(json_get(board, "height"@)->Some_0, state.board.height as int);
    lemma_int_model(json_get(board, "width"@)->Some_0, state.board.width as int);
    lemma_read_points(json_get(board, "food"@)->Some_0, food);
}

/// The snakes of the `board` member of a written standard request read back.
#[verifier::rlimit(40)]
proof fn lemma_read_std_board_snakes(board: JsonValue, state: GameState)
    requires
        jm(board) == std_board_model(state),
    ensures
        json_items(or_null(json_get(board, "snakes"@))).map_values(|x: JsonValue| std_snake(x)) == read_snakes(state.board.snakes@),
{
    reveal_strlit("height");
    reveal_strlit("width");
    reveal_strlit("food");
    reveal_strlit("hazards");
    reveal_strlit("snakes");
    let snakes = state.board.snakes@;
    let food = state.board.food@;
    let keys = std_board_keys();
    let sm = Seq::new(snakes.len(), |i: int| std_snake_json(snakes[i]));
    let vals = seq![
        JModel::Int(state.board.height as int),
        JModel::Int(state.board.width as int),
        JModel::Array(Seq::new(food.len(), |i: int| jpoint(food[i].x as int, food[i].y as int))),
        JModel::Array(Seq::empty()),
        JModel::Array(sm),
    ];
    assert(jm(board) == JModel::Object(keys, vals));
    assert(keys[0][0] != keys[4][0] && keys[1][0] != keys[4][0] && keys[2][0] != keys[4][0] && keys[3][0] != keys[4][0]);
    lemma_member_at(board, keys, vals, 4);
    let node = json_get(board, "snakes"@)->Some_0;
    lemma_array_model(node, sm);
    let read = json_items(node).map_values(|x: JsonValue| std_snake(x));
    assert forall|i: int| 0 <= i < snakes.len() implies #[trigger] read[i] == read_snakes(snakes)[i] by {
        assert(jm(json_items(node)[i]) == sm[i]);
        lemma_read_std_snake(json_items(node)[i], snakes[i]);
    }
    assert(read =~= read_snakes(snakes));
}

/// The `you` member of a written standard request carries the id `you`.
#[verifier::rlimit(40)]
proof fn lemma_read_std_you(y: JsonValue, state: GameState, you: Seq<char>)
    requires
        jm(y) == std_you_model(state, you),
        state.board.snakes@.len() <= usize::MAX,
    ensures
        json_as_str(json_get(y, "id"@)) == Some(you),
{
    reveal_strlit("id");
    reveal_strlit("name");
    reveal_strlit("body");
    let snakes = state.board.snakes@;
    lemma_first_with_id(snakes, you);
    match first_with_id(snakes, you) {
        Some(i) => {
            let s = snakes[i as int];
            let body = s.body@;
            let head = if body.len() > 0 { body[0] } else { Point { x: 0, y: 0 } };
            let sk = seq!["id"@, "name"@, "health"@, "body"@, "head"@, "length"@, "latency"@, "shout"@];
            let sv = seq![
                JModel::Str(s.id.0@),
                JModel::Str(s.name@),
                JModel::Int(s.health as int),
                JModel::Array(Seq::new(body.len(), |k: int| jpoint(body[k].x as int, body[k].y as int))),
                jpoint(head.x as int, head.y as int),
                JModel::Int(body.len() as int),
                JModel::Str("100"@),
                JModel::Str(""@),
            ];
            assert(jm(y) == JModel::Object(sk, sv));
            lemma_member_at(y, sk, sv, 0);
            lemma_str_model(json_get(y, "id"@)->Some_0, s.id.0@);
        },
        None => {
            let sk = seq!["id"@, "body"@];
            let sv = seq![JModel::Str(you), JModel::Array(Seq::empty())];
            assert(jm(y) == JModel::Object(sk, sv));
            lemma_member_at(y, sk, sv, 0);
            lemma_str_model(json_get(y, "id"@)->Some_0, you);
        },
    }
}

/// A standard request written for snake `you` reads back as the state it was written from: its
/// turn (kept to 32 signed bits), board size, food, snakes (each read as alive) and the id `you`.
#[verifier::rlimit(40)]
pub proof fn lemma_standard_request_reads_back(v: JsonValue, state: GameState, you: Seq<char>, game_id: Seq<char>, timeout: int)
    requires
        jm(v) == standard_payload(state, you, game_id, timeout),
    ensures
        request_spec(v) == Ok::<RequestModel, ApiError>(RequestModel {
            turn: state.turn as i32 as int,
            width: state.board.width as int,
            height: state.board.height as int,
            food: state.board.food@,
            snakes: read_snakes(state.board.snakes@),
            you_id: you,
        }),
{
    reveal_strlit("game");
    reveal_strlit("turn");
    reveal_strlit("board");
    reveal_strlit("you");
    let keys = seq!["game"@, "turn"@, "board"@, "you"@];
    let vals = seq![game_model(game_id, timeout), JModel::Int(state.turn as int), std_board_model(state), std_you_model(state, you)];
    assert(jm(v) == JModel::Object(keys, vals));
    assert(keys[0][0] != keys[1][0] && keys[0][0] != keys[2][0] && keys[1][0] != keys[2][0]);
    assert(keys[0][0] != keys[3][0] && keys[1][0] != keys[3][0] && keys[2][0] != keys[3][0]);
    lemma_member_at(v, keys, vals, 1);
    lemma_member_at(v, keys, vals, 2);
    lemma_member_at(v, keys, vals, 3);
    lemma_int_model(json_get(v, "turn"@)->Some_0, state.turn as int);
    let board = json_get(v, "board"@)->Some_0;
    lemma_read_std_board_size(board, state);
    lemma_read_std_board_snakes(board, state);
    assert(state.board.snakes@.len() == state.board.snakes.len());
    lemma_read_std_you(json_get(v, "you"@)->Some_0, state, you);
    assert((state.turn as i64) as i32 == state.turn as i32);
}

/// Points with their rows counted from the other edge of a board of height `h`.
pub open spec fn flipped_rows(ps: Seq<Point>, h: int) -> Seq<Point> {
    ps.map_values(|p: Point| Point { x: p.x, y: (h - 1 - p.y) as i32 })
}

/// Flipping the rows of `ps` on a board of height `h` stays within `i32`.
pub open spec fn rows_flip_within(ps: Seq<Point>, h: int) -> bool {
    forall|i: int| 0 <= i < ps.len() ==> i32::MIN <= h - 1 - (#[trigger] ps[i]).y <= i32::MAX
}

/// A point written in the legacy layout reads back with its row flipped.
proof fn lemma_read_legacy_point(item: JsonValue, p: Point, h: int)
    requires
        jm(item) == legacy_point(p, h),
        i32::MIN <= h - 1 - p.y <= i32::MAX,
    ensures
        point_of(item) == (Point { x: p.x, y: (h - 1 - p.y) as i32 }),
{
    reveal_strlit("object");
    reveal_strlit("x");
    reveal_strlit("y");
    reveal_strlit("data");
    let keys = seq!["object"@, "x"@, "y"@];
    let vals = seq![JModel::Str("point"@), JModel::Int(p.x as int), JModel::Int(h - 1 - p.y)];
    assert(keys[0][0] != keys[1][0] && keys[0][0] != keys[2][0] && keys[1][0] != keys[2][0]);
    assert(keys[0][0] != "data"@[0] && keys[1][0] != "data"@[0] && keys[2][0] != "data"@[0]);
    lemma_member_absent(item, keys, vals, "data"@);
    lemma_member_at(item, keys, vals, 1);
    lemma_member_at(item, keys, vals, 2);
    lemma_int_model(json_get(item, "x"@)->Some_0, p.x as int);
    lemma_int_model(json_get(item, "y"@)->Some_0, h - 1 - p.y);
}

/// A wrapped legacy list unwraps to its items.
proof fn lemma_read_legacy_list(node: JsonValue, ms: Seq<JModel>)
    requires
        jm(node) == legacy_list(ms),
    ensures
        jm(clean_list_spec(node)) == JModel::Array(ms),
{
    reveal_strlit("object");
    reveal_strlit("data");
    let keys = seq!["object"@, "data"@];
    let vals = seq![JModel::Str("list"@), JModel::Array(ms)];
    assert(keys[0][0] != keys[1][0]);
    lemma_member_at(node, keys, vals, 1);
    lemma_array_model(json_get(node, "data"@)->Some_0, ms);
}

/// A wrapped legacy list of points reads back with the rows flipped.
proof fn lemma_read_legacy_points(node: JsonValue, ps: Seq<Point>, h: int)
    requires
        jm(node) == legacy_list(Seq::new(ps.len(), |i: int| legacy_point(ps[i], h))),
        rows_flip_within(ps, h),
    ensures
        points_of(clean_list_spec(node)) == flipped_rows(ps, h),
{
    let ms = Seq::new(ps.len(), |i: int| legacy_point(ps[i], h));
    lemma_read_legacy_list(node, ms);
    let list = clean_list_spec(node);
    lemma_array_model(list, ms);
    assert forall|i: int| 0 <= i < ps.len() implies #[trigger] points_of(list)[i] == flipped_rows(ps, h)[i] by {
        assert(jm(json_items(list)[i]) == ms[i]);
        lemma_read_legacy_point(json_items(list)[i], ps[i], h);
    }
    assert(points_of(list) =~= flipped_rows(ps, h));
}

/// The members of a snake written in the legacy layout.
#[verifier::rlimit(40)]
proof fn lemma_legacy_snake_members(item: JsonValue, s: Snake, h: int)
    requires
        jm(item) == legacy_snake_json(s, h),
    ensures
        clean_object_spec(item) == item,
        json_as_str(json_get(item, "id"@)) == Some(s.id.0@),
        json_as_str(json_get(item, "name"@)) == Some(s.name@),
        json_as_i64(legacy_health(item)) == Some(s.health as i64),
        json_get(item, "body"@) matches Some(b) && jm(b) == legacy_list(Seq::new(s.body@.len(), |i: int| legacy_point(s.body@[i], h))),
{
    reveal_strlit("object");
    reveal_strlit("id");
    reveal_strlit("name");
    reveal_strlit("health");
    reveal_strlit("body");
    reveal_strlit("data");
    let body = s.body@;
    let keys = seq!["object"@, "id"@, "name"@, "health"@, "body"@];
    let vals = seq![
        JModel::Str("snake"@),
        JModel::Str(s.id.0@),
        JModel::Str(s.name@),
        JModel::Int(s.health as int),
        legacy_list(Seq::new(body.len(), |i: int| legacy_point(body[i], h))),
    ];
    assert(jm(item) == JModel::Object(keys, vals));
    assert forall|a: int, b: int| 0 <= a < b < keys.len() implies keys[a] != keys[b] by {
        assert(keys[a][0] != keys[b][0]);
    }
    assert forall|j: int| 0 <= j < keys.len() implies keys[j] != "data"@ by {
        assert(keys[j][0] != "data"@[0]);
    }
    lemma_member_absent(item, keys, vals, "data"@);
    lemma_member_at(item, keys, vals, 1);
    lemma_member_at(item, keys, vals, 2);
    lemma_member_at(item, keys, vals, 3);
    lemma_member_at(item, keys, vals, 4);
    lemma_str_model(json_get(item, "id"@)->Some_0, s.id.0@);
    lemma_str_model(json_get(item, "name"@)->Some_0, s.name@);
    lemma_int_model(json_get(item, "health"@)->Some_0, s.health as int);
}

/// Flipping the rows twice gives the points back.
proof fn lemma_flip_twice(ps: Seq<Point>, h: int)
    requires
        rows_flip_within(ps, h),
    ensures
        flipped_rows(flipped_rows(ps, h), h) == ps,
{
    let back = flipped_rows(flipped_rows(ps, h), h);
    assert forall|i: int| 0 <= i < ps.len() implies #[trigger] back[i] == ps[i] by {
        assert(i32::MIN <= h - 1 - ps[i].y <= i32::MAX);
    }
    assert(back =~= ps);
}

/// A snake written in the legacy layout reads back, alive, its rows flipped twice.
proof fn lemma_read_legacy_snake(item: JsonValue, s: Snake, h: int)
    requires
        jm(item) == legacy_snake_json(s, h),
        rows_flip_within(s.body@, h),
    ensures
        legacy_snake(item, h) == (SnakeModel { id: s.id.0@, name: s.name@, body: s.body@, health: s.health as int, alive: true }),
{
    lemma_legacy_snake_members(item, s, h);
    lemma_read_legacy_points(json_get(item, "body"@)->Some_0, s.body@, h);
    lemma_flip_twice(s.body@, h);
    assert(points_of(legacy_body_node(item)) == flipped_rows(s.body@, h));
    assert(points_of(legacy_body_node(item)).map_values(|p: Point| Point { x: p.x, y: (h - 1 - p.y) as i32 })
        == flipped_rows(flipped_rows(s.body@, h), h));
}

/// The snakes written in the legacy layout read back.
#[verifier::rlimit(40)]
proof fn lemma_read_legacy_snakes(v: JsonValue, state: GameState)
    requires
        json_get(v, "snakes"@) matches Some(n) && jm(n) == legacy_snakes_model(state),
        legacy_state_fits(state),
    ensures
        legacy_snake_items(v).map_values(|x: JsonValue| legacy_snake(x, state.board.height as int)) == read_snakes(state.board.snakes@),
{
    let h = state.board.height as int;
    let snakes = state.board.snakes@;
    let ms = Seq::new(snakes.len(), |i: int| legacy_snake_json(snakes[i], h));
    let node = json_get(v, "snakes"@)->Some_0;
    lemma_read_legacy_list(node, ms);
    let list = clean_list_spec(node);
    lemma_array_model(list, ms);
    let read = legacy_snake_items(v).map_values(|x: JsonValue| legacy_snake(x, h));
    assert forall|i: int| 0 <= i < snakes.len() implies #[trigger] read[i] == read_snakes(snakes)[i] by {
        assert(jm(json_items(list)[i]) == ms[i]);
        assert forall|j: int| 0 <= j < snakes[i].body@.len() implies i32::MIN <= h - 1 - (#[trigger] snakes[i].body@[j]).y <= i32::MAX by {
            assert(0 <= i < state.board.snakes@.len() && 0 <= j < state.board.snakes@[i].body@.len());
        }
        lemma_read_legacy_snake(json_items(list)[i], snakes[i], h);
    }
    assert(read =~= read_snakes(snakes));
}

/// The id a legacy request written for snake `you` reads back: `you` when such a snake is on the
/// board, else the default `you`.
#[verifier::rlimit(40)]
proof fn lemma_read_legacy_you(y: JsonValue, state: GameState, you: Seq<char>)
    requires
        jm(y) == legacy_you_model(state, you),
        state.board.snakes@.len() <= usize::MAX,
    ensures
        str_or(json_as_str(json_get(clean_object_spec(y), "id"@)), "you"@)
            == if first_with_id(state.board.snakes@, you) is Some { you } else { "you"@ },
{
    reveal_strlit("object");
    reveal_strlit("id");
    reveal_strlit("name");
    reveal_strlit("health");
    reveal_strlit("body");
    reveal_strlit("data");
    let snakes = state.board.snakes@;
    let h = state.board.height as int;
    lemma_first_with_id(snakes, you);
    match first_with_id(snakes, you) {
        Some(i) => {
            let s = snakes[i as int];
            let body = s.body@;
            let keys = seq!["object"@, "id"@, "name"@, "health"@, "body"@];
            let vals = seq![
                JModel::Str("snake"@),
                JModel::Str(s.id.0@),
                JModel::Str(s.name@),
                JModel::Int(s.health as int),
                legacy_list(Seq::new(body.len(), |k: int| legacy_point(body[k], h))),
            ];
            assert(jm(y) == JModel::Object(keys, vals));
            assert(keys[0][0] != keys[1][0]);
            assert forall|j: int| 0 <= j < keys.len() implies keys[j] != "data"@ by {
                assert(keys[j][0] != "data"@[0]);
            }
            lemma_member_absent(y, keys, vals, "data"@);
            lemma_member_at(y, keys, vals, 1);
            lemma_str_model(json_get(y, "id"@)->Some_0, s.id.0@);
        },
        None => {
            lemma_member_absent(y, Seq::empty(), Seq::empty(), "data"@);
            lemma_member_absent(y, Seq::empty(), Seq::empty(), "id"@);
        },
    }
}

/// The keys of a legacy request.
spec fn legacy_keys() -> Seq<Seq<char>> {
    seq!["object"@, "id"@, "width"@, "height"@, "turn"@, "food"@, "snakes"@, "you"@]
}

/// A legacy request written for snake `you` reads back as the state it was written from, but for
/// the food: its turn (kept to 32 signed bits), board size, snakes (each read as alive, their rows
/// flipped on writing and flipped back on reading), the id `you` (the default `you` when no snake
/// has that id) and the food with its rows as written, counted from the top.
#[verifier::rlimit(60)]
pub proof fn lemma_legacy_request_reads_back(v: JsonValue, state: GameState, you: Seq<char>, game_id: Seq<char>)
    requires
        jm(v) == legacy_payload(state, you, game_id),
        legacy_state_fits(state),
    ensures
        request_spec(v) == Ok::<RequestModel, ApiError>(RequestModel {
            turn: state.turn as i32 as int,
            width: state.board.width as int,
            height: state.board.height as int,
            food: flipped_rows(state.board.food@, state.board.height as int),
            snakes: read_snakes(state.board.snakes@),
            you_id: if first_with_id(state.board.snakes@, you) is Some { you } else { "you"@ },
        }),
{
    reveal_strlit("object");
    reveal_strlit("id");
    reveal_strlit("width");
    reveal_strlit("height");
    reveal_strlit("turn");
    reveal_strlit("food");
    reveal_strlit("snakes");
    reveal_strlit("you");
    reveal_strlit("board");
    let h = state.board.height as int;
    let keys = legacy_keys();
    let vals = seq![
        JModel::Str("world"@),
        JModel::Str(game_id),
        JModel::Int(state.board.width as int),
        JModel::Int(state.board.height as int),
        JModel::Int(state.turn as int),
        legacy_food_model(state),
        legacy_snakes_model(state),
        legacy_you_model(state, you),
    ];
    assert(jm(v) == JModel::Object(keys, vals));
    assert forall|a: int, b: int| 0 <= a < b < keys.len() implies keys[a] != keys[b] by {
        assert(keys[a][0] != keys[b][0]);
    }
    assert forall|j: int| 0 <= j < keys.len() implies keys[j] != "board"@ by {
        assert(keys[j][0] != "board"@[0]);
    }
    lemma_member_absent(v, keys, vals, "board"@);
    lemma_member_at(v, keys, vals, 2);
    lemma_member_at(v, keys, vals, 3);
    lemma_member_at(v, keys, vals, 4);
    lemma_member_at(v, keys, vals, 5);
    lemma_member_at(v, keys, vals, 6);
    lemma_member_at(v, keys, vals, 7);
    lemma_int_model(json_get(v, "width"@)->Some_0, state.board.width as int);
    lemma_int_model(json_get(v, "height"@)->Some_0, h);
    lemma_int_model(json_get(v, "turn"@)->Some_0, state.turn as int);
    assert(rows_flip_within(state.board.food@, h));
    lemma_read_legacy_points(json_get(v, "food"@)->Some_0, state.board.food@, h);
    lemma_read_legacy_snakes(v, state);
    assert(state.board.snakes@.len() == state.board.snakes.len());
    lemma_read_legacy_you(json_get(v, "you"@)->Some_0, state, you);
    assert((state.turn as i64) as i32 == state.turn as i32);
}

} // verus!
