use strongsnake::api::{ApiError, ApiFlavor, build_move_payload, parse_move_request};
use strongsnake::json::JsonValue;
use strongsnake::types::{Board, GameState, Point, Snake};

fn s(x: &str) -> JsonValue {
    JsonValue::Str(x.to_owned())
}

fn obj(members: Vec<(&str, JsonValue)>) -> JsonValue {
    let keys = members.iter().map(|(k, _)| k.to_string()).collect();
    let values = members.into_iter().map(|(_, v)| v).collect();
    JsonValue::Object(keys, values)
}

fn pt(x: i64, y: i64) -> JsonValue {
    obj(vec![("x", JsonValue::Int(x)), ("y", JsonValue::Int(y))])
}

fn get<'a>(v: &'a JsonValue, k: &str) -> &'a JsonValue {
    v.get(k).expect("member")
}

fn num(v: &JsonValue) -> i64 {
    match v {
        JsonValue::Int(n) => *n,
        _ => panic!("not an integer"),
    }
}

fn text(v: &JsonValue) -> String {
    match v {
        JsonValue::Str(t) => t.clone(),
        _ => panic!("not a string"),
    }
}

fn items(v: &JsonValue) -> &Vec<JsonValue> {
    match v {
        JsonValue::Array(a) => a,
        _ => panic!("not an array"),
    }
}

#[test]
fn standard_request_is_read() {
    let body = obj(vec![
        ("turn", JsonValue::Int(12)),
        ("board", obj(vec![
            ("width", JsonValue::Int(11)),
            ("height", JsonValue::Int(11)),
            ("food", JsonValue::Array(vec![pt(1, 2)])),
            ("snakes", JsonValue::Array(vec![obj(vec![
                ("id", s("me")),
                ("name", s("Me")),
                ("health", JsonValue::Int(90)),
                ("body", JsonValue::Array(vec![pt(5, 5), pt(5, 4)])),
            ])])),
        ])),
        ("you", obj(vec![("id", s("me"))])),
    ]);
    let r = parse_move_request(&body).unwrap();
    assert_eq!(r.turn, 12);
    assert_eq!((r.width, r.height), (11, 11));
    assert_eq!(r.food, vec![Point { x: 1, y: 2 }]);
    assert_eq!(r.snakes.len(), 1);
    assert_eq!(r.snakes[0].id.0, "me");
    assert_eq!(r.snakes[0].health, 90);
    assert_eq!(r.snakes[0].body.iter().copied().collect::<Vec<_>>(), vec![Point { x: 5, y: 5 }, Point { x: 5, y: 4 }]);
    assert_eq!(r.you_id, "me");
}

#[test]
fn standard_request_without_width_fails() {
    let body = obj(vec![("board", obj(vec![("height", JsonValue::Int(11))])), ("you", obj(vec![]))]);
    assert_eq!(parse_move_request(&body).unwrap_err(), ApiError::MissingBoardWidth);
    assert_eq!(ApiError::MissingBoardWidth.message(), "missing board.width");
}

#[test]
fn legacy_request_is_unwrapped_and_flipped() {
    let list = |v: Vec<JsonValue>| obj(vec![("object", s("list")), ("data", JsonValue::Array(v))]);
    let body = obj(vec![
        ("width", JsonValue::Int(7)),
        ("height", JsonValue::Int(9)),
        ("food", list(vec![pt(0, 0)])),
        ("snakes", list(vec![obj(vec![
            ("id", s("a")),
            ("hp", JsonValue::Int(33)),
            ("body", list(vec![pt(1, 0), pt(1, 1)])),
        ])])),
        ("you", obj(vec![("object", s("snake")), ("data", obj(vec![("id", s("a"))]))])),
    ]);
    let r = parse_move_request(&body).unwrap();
    assert_eq!((r.width, r.height), (7, 9));
    assert_eq!(r.food, vec![Point { x: 0, y: 0 }]);
    assert_eq!(r.snakes[0].health, 33);
    assert_eq!(r.snakes[0].name, "snake");
    assert_eq!(r.snakes[0].body.iter().copied().collect::<Vec<_>>(), vec![Point { x: 1, y: 8 }, Point { x: 1, y: 7 }]);
    assert_eq!(r.you_id, "a");
}

#[test]
fn legacy_defaults() {
    let r = parse_move_request(&obj(vec![])).unwrap();
    assert_eq!((r.turn, r.width, r.height), (0, 15, 15));
    assert!(r.food.is_empty() && r.snakes.is_empty());
    assert_eq!(r.you_id, "you");
}

fn state() -> GameState {
    GameState {
        turn: 4,
        seed: 0,
        board: Board {
            width: 5,
            height: 6,
            food: vec![Point { x: 2, y: 1 }],
            snakes: vec![
                Snake::new("s1", "one", vec![Point { x: 0, y: 0 }, Point { x: 0, y: 1 }], 77),
                Snake::new("s2", "two", vec![Point { x: 4, y: 5 }], 50),
            ],
        },
    }
}

#[test]
fn standard_payload_shape() {
    let v = build_move_payload(&state(), "s2", ApiFlavor::Standard, "g", 100).unwrap();
    assert_eq!(num(get(&v, "turn")), 4);
    assert_eq!(text(get(get(&v, "game"), "id")), "g");
    assert_eq!(num(get(get(&v, "game"), "timeout")), 100);
    let board = get(&v, "board");
    assert_eq!(num(get(board, "height")), 6);
    assert_eq!(items(get(board, "snakes")).len(), 2);
    let you = get(&v, "you");
    assert_eq!(text(get(you, "name")), "two");
    assert_eq!(num(get(you, "length")), 1);
    assert_eq!(num(get(get(you, "head"), "x")), 4);
    let missing = build_move_payload(&state(), "zz", ApiFlavor::Standard, "g", 100).unwrap();
    assert_eq!(text(get(get(&missing, "you"), "id")), "zz");
}

#[test]
fn legacy_payload_flips_rows() {
    let v = build_move_payload(&state(), "s1", ApiFlavor::Legacy, "g", 100).unwrap();
    assert_eq!(text(get(&v, "object")), "world");
    let food = items(get(get(&v, "food"), "data"));
    assert_eq!(num(get(&food[0], "y")), 4);
    let you = get(&v, "you");
    let body = items(get(get(you, "body"), "data"));
    assert_eq!(num(get(&body[0], "y")), 5);
    assert_eq!(num(get(&body[1], "y")), 4);
    let parsed = parse_move_request(&v).unwrap();
    // Legacy food rows are written flipped but read back as they stand.
    assert_eq!(parsed.food, vec![Point { x: 2, y: 4 }]);
    assert_eq!(parsed.snakes[0].body.iter().copied().collect::<Vec<_>>(), vec![Point { x: 0, y: 0 }, Point { x: 0, y: 1 }]);
    let auto = build_move_payload(&state(), "nobody", ApiFlavor::Auto, "g", 1).unwrap();
    assert!(matches!(get(&auto, "you"), JsonValue::Object(k, _) if k.is_empty()));
}

#[test]
fn standard_payload_reads_back_as_the_state() {
    let mut s = state();
    s.board.snakes[1].alive = false;
    s.turn = 3_000_000_000;
    let v = build_move_payload(&s, "zz", ApiFlavor::Standard, "g", 100).unwrap();
    let r = parse_move_request(&v).unwrap();
    assert_eq!(r.turn, 3_000_000_000u32 as i32);
    assert_eq!((r.width, r.height), (5, 6));
    assert_eq!(r.food, s.board.food);
    assert_eq!(r.snakes.len(), 2);
    for (read, written) in r.snakes.iter().zip(s.board.snakes.iter()) {
        assert_eq!(read.id.0, written.id.0);
        assert_eq!(read.name, written.name);
        assert_eq!(read.health, written.health);
        assert_eq!(read.body, written.body);
        assert!(read.alive);
    }
    assert_eq!(r.you_id, "zz");
}

#[test]
fn legacy_payload_reads_back_with_food_rows_as_written() {
    let s = state();
    let v = build_move_payload(&s, "s2", ApiFlavor::Legacy, "g", 100).unwrap();
    let r = parse_move_request(&v).unwrap();
    assert_eq!((r.turn, r.width, r.height), (4, 5, 6));
    assert_eq!(r.food, vec![Point { x: 2, y: 4 }]);
    assert_eq!(r.snakes.len(), 2);
    for (read, written) in r.snakes.iter().zip(s.board.snakes.iter()) {
        assert_eq!(read.id.0, written.id.0);
        assert_eq!(read.name, written.name);
        assert_eq!(read.health, written.health);
        assert_eq!(read.body, written.body);
        assert!(read.alive);
    }
    assert_eq!(r.you_id, "s2");
    let nobody = build_move_payload(&s, "zz", ApiFlavor::Legacy, "g", 100).unwrap();
    assert_eq!(parse_move_request(&nobody).unwrap().you_id, "you");
}
