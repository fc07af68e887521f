use std::collections::VecDeque;
use strongsnake::api::{legacy_rows_ok, legacy_state_ok, normalize_chars};
use strongsnake::arena::{can_record, ArenaAccumulator, ArenaFindMode};
use strongsnake::brain::resolve_tt_entries;
use strongsnake::config::RuntimeConfig;
use strongsnake::direction::Direction;
use strongsnake::engine::{can_simulate, DeathEvent, TurnSummary};
use strongsnake::food::{build_occupied_map, in_bounds, point_idx};
use strongsnake::json::JsonValue;
use strongsnake::matches::{count_alive, find_snake, match_result, record_turn_deaths, DeathReasonCounts, MatchDeathSummary, MatchResult};
use strongsnake::playground::{compact_json_state, compact_sfen_state, parse_scenario_to_state, scenario_json_state};
use strongsnake::sfen::SnakeFen;
use strongsnake::scenario::Expectation;
use strongsnake::text::{find_char, lower_chars, parse_i32, parse_u32, parse_usize, split_chars, split_once_chars, split_whitespace_chars, trim_chars};
use strongsnake::tt::next_power_of_two;
use strongsnake::types::{Board, GameState, Point, Snake, SnakeId};

fn p(x: i32, y: i32) -> Point {
    Point { x, y }
}

fn chars(s: &str) -> Vec<char> {
    s.chars().collect()
}

fn text(v: &[char]) -> String {
    v.iter().collect()
}

fn obj(members: Vec<(&str, JsonValue)>) -> JsonValue {
    let keys = members.iter().map(|(k, _)| k.to_string()).collect();
    let values = members.into_iter().map(|(_, v)| v).collect();
    JsonValue::Object(keys, values)
}

fn num(n: i64) -> JsonValue {
    JsonValue::Int(n)
}

fn pt(x: i64, y: i64) -> JsonValue {
    obj(vec![("x", num(x)), ("y", num(y))])
}

fn arr(v: Vec<JsonValue>) -> JsonValue {
    JsonValue::Array(v)
}

fn state(width: i32, height: i32, food: Vec<Point>, snakes: Vec<Snake>) -> GameState {
    GameState { turn: 0, seed: 0, board: Board { width, height, food, snakes } }
}

fn body(s: &Snake) -> Vec<Point> {
    s.body.iter().copied().collect()
}

#[test]
fn compact_playground_document_is_read() {
    let doc = obj(vec![
        ("cols", num(7)),
        ("rows", num(5)),
        ("p", arr(vec![pt(1, 1), obj(vec![("x", num(9))]), pt(1, 0)])),
        ("a", arr(vec![pt(5, 3), pt(5, 4)])),
        ("foods", arr(vec![pt(3, 3)])),
        ("aHealth", num(42)),
        ("turn", num(12)),
        ("seed", num(-4)),
    ]);
    let g = parse_scenario_to_state(&doc).expect("a compact document");
    assert_eq!((g.board.width, g.board.height), (7, 5));
    assert_eq!(g.turn, 12);
    assert_eq!(g.seed, 0);
    assert_eq!(g.board.food, vec![p(3, 3)]);
    assert_eq!(g.board.snakes.len(), 2);
    assert_eq!(g.board.snakes[0].id.0, "s1");
    assert_eq!(body(&g.board.snakes[0]), vec![p(1, 1), p(1, 0)]);
    assert_eq!(g.board.snakes[0].health, 100);
    assert_eq!(g.board.snakes[1].id.0, "s2");
    assert_eq!(body(&g.board.snakes[1]), vec![p(5, 3), p(5, 4)]);
    assert_eq!(g.board.snakes[1].health, 42);
}

fn board_doc(you: &str, second_body: JsonValue) -> JsonValue {
    let snake = |id: &str, b: JsonValue, health: i64| obj(vec![("id", JsonValue::Str(id.to_owned())), ("body", b), ("health", num(health))]);
    obj(vec![
        ("you_id", JsonValue::Str(you.to_owned())),
        ("board", obj(vec![
            ("width", num(11)),
            ("height", num(11)),
            ("food", arr(vec![pt(0, 0)])),
            ("snakes", arr(vec![
                snake("alpha", arr(vec![pt(1, 1)]), 90),
                snake("beta", second_body, 80),
                snake("gamma", arr(vec![pt(9, 9)]), 70),
            ])),
        ])),
    ])
}

#[test]
fn board_playground_document_renames_the_sides() {
    let g = parse_scenario_to_state(&board_doc("gamma", arr(vec![pt(4, 4)]))).expect("a board document");
    assert_eq!((g.turn, g.seed), (0, 0));
    let ids: Vec<String> = g.board.snakes.iter().map(|s| s.id.0.clone()).collect();
    assert_eq!(ids, vec!["s1", "s_other_2", "s2"]);
    assert_eq!(g.board.snakes[2].health, 70);
    assert_eq!(body(&g.board.snakes[1]), vec![p(4, 4)]);
    let g = parse_scenario_to_state(&board_doc("", arr(vec![pt(4, 4)]))).expect("a board document");
    let ids: Vec<String> = g.board.snakes.iter().map(|s| s.id.0.clone()).collect();
    assert_eq!(ids, vec!["s1", "s2", "s_other_2"]);
}

#[test]
fn board_playground_document_with_a_bad_point_is_refused() {
    assert!(parse_scenario_to_state(&board_doc("gamma", arr(vec![obj(vec![("x", num(1))])]))).is_none());
    assert!(parse_scenario_to_state(&obj(vec![("cols", num(3))])).is_none());
}

#[test]
fn legacy_rows_checks() {
    let standard = obj(vec![("board", obj(vec![])), ("you", obj(vec![]))]);
    assert!(legacy_rows_ok(&standard));
    let legacy = |y: i64| obj(vec![("height", num(15)), ("snakes", arr(vec![obj(vec![("body", arr(vec![pt(1, y)]))])]))]);
    assert!(legacy_rows_ok(&legacy(3)));
    assert!(!legacy_rows_ok(&legacy(-2147483647)));
}

#[test]
fn legacy_state_checks() {
    let fine = state(11, 11, vec![p(1, 2)], vec![Snake::new("a", "a", vec![p(3, 3)], 100)]);
    assert!(legacy_state_ok(&fine));
    let low_food = state(11, 11, vec![p(1, i32::MIN)], vec![]);
    assert!(!legacy_state_ok(&low_food));
    let low_body = state(11, 11, vec![], vec![Snake::new("a", "a", vec![p(3, i32::MIN)], 100)]);
    assert!(!legacy_state_ok(&low_body));
}

#[test]
fn simulation_bounds() {
    let s = state(11, 11, vec![], vec![Snake::new("a", "a", vec![p(3, 3), p(3, 2)], 100)]);
    assert!(can_simulate(&s));
    let big = state(30, 30, vec![], vec![]);
    assert!(!can_simulate(&big));
    let mut last = state(5, 5, vec![], vec![]);
    last.turn = u32::MAX;
    assert!(!can_simulate(&last));
}

fn result(winner: &str) -> MatchResult {
    MatchResult {
        seed: 1,
        turns: 10,
        winner: winner.to_owned(),
        local_length: 4,
        opp_length: 3,
        death: MatchDeathSummary::default(),
        local_died: false,
    }
}

#[test]
fn accumulator_overflow_is_refused() {
    let mut acc = ArenaAccumulator::new();
    assert!(can_record(&acc, &result("local")));
    acc.wins_local = usize::MAX;
    assert!(!can_record(&acc, &result("local")));
}

#[test]
fn turn_deaths_are_counted_per_side() {
    let snakes = vec![
        Snake::new("me", "me", vec![p(1, 1)], 100),
        Snake::new("them", "them", vec![p(5, 5)], 100),
    ];
    let summary = TurnSummary {
        turn: 3,
        dead: vec![
            DeathEvent { snake_id: SnakeId("me".to_owned()), reason: "Wall".to_owned() },
            DeathEvent { snake_id: SnakeId("them".to_owned()), reason: "Head".to_owned() },
            DeathEvent { snake_id: SnakeId("other".to_owned()), reason: "Body".to_owned() },
        ],
        alive_ids: vec![],
    };
    let mut death = MatchDeathSummary::default();
    record_turn_deaths(&mut death, &summary, &snakes, Some(0), Some(1));
    assert_eq!(death.local, DeathReasonCounts { starvation: 0, wall: 1, body: 0, head: 0 });
    assert_eq!(death.opponent, DeathReasonCounts { starvation: 0, wall: 0, body: 0, head: 1 });
}

#[test]
fn alive_counts_and_lookups() {
    let mut dead = Snake::new("b", "b", vec![p(2, 2)], 0);
    dead.alive = false;
    let empty = Snake { id: SnakeId("c".to_owned()), name: "c".to_owned(), body: VecDeque::new(), health: 9, alive: true };
    let snakes = vec![Snake::new("a", "a", vec![p(1, 1)], 100), dead, empty, Snake::new("a", "a2", vec![p(4, 4)], 100)];
    assert_eq!(count_alive(&snakes), 2);
    assert_eq!(find_snake(&snakes, "a"), Some(0));
    assert_eq!(find_snake(&snakes, "c"), Some(2));
    assert_eq!(find_snake(&snakes, "z"), None);
}

#[test]
fn match_results_follow_the_final_state() {
    let mut loser = Snake::new("b", "b", vec![p(2, 2), p(2, 3)], 0);
    loser.alive = false;
    let mut s = state(7, 7, vec![], vec![Snake::new("a", "a", vec![p(1, 1), p(1, 2), p(1, 3)], 50), loser]);
    s.turn = 77;
    let r = match_result(9, &s, Some(0), Some(1), MatchDeathSummary::default());
    assert_eq!(r.seed, 9);
    assert_eq!(r.turns, 77);
    assert_eq!(r.winner, "local");
    assert_eq!((r.local_length, r.opp_length), (3, 2));
    assert!(!r.local_died);
    let r = match_result(9, &s, None, Some(0), MatchDeathSummary::default());
    assert_eq!(r.winner, "opponent");
    assert!(r.local_died);
}

#[test]
fn expectations_and_find_metrics() {
    assert!(Expectation::Exact { direction: Direction::Left }.passes(Direction::Left));
    assert!(!Expectation::Exact { direction: Direction::Left }.passes(Direction::Up));
    let avoid = Expectation::Avoid { directions: vec![Direction::Up, Direction::Down] };
    assert!(!avoid.passes(Direction::Down));
    assert!(avoid.passes(Direction::Right));
    let r = result("draw");
    assert_eq!(ArenaFindMode::Shortest.metric(&r), 10);
    assert_eq!(ArenaFindMode::LongestSnake.metric(&r), 4);
}

#[test]
fn numbers_are_parsed_within_their_types() {
    assert_eq!(parse_i32(&chars("-12")), Some(-12));
    assert_eq!(parse_i32(&chars("+7")), Some(7));
    assert_eq!(parse_i32(&chars("2147483648")), None);
    assert_eq!(parse_i32(&chars("-2147483648")), Some(i32::MIN));
    assert_eq!(parse_u32(&chars("4294967295")), Some(u32::MAX));
    assert_eq!(parse_u32(&chars("4294967296")), None);
    assert_eq!(parse_u32(&chars("")), None);
    assert_eq!(parse_u32(&chars("1x")), None);
    assert_eq!(parse_usize(&chars("0042")), Some(42));
}

#[test]
fn text_is_split_and_trimmed() {
    let pieces: Vec<String> = split_chars(&chars("a,b,,c"), ',').iter().map(|v| text(v)).collect();
    assert_eq!(pieces, vec!["a", "b", "", "c"]);
    let words: Vec<String> = split_whitespace_chars(&chars("  one two\tthree \n")).iter().map(|v| text(v)).collect();
    assert_eq!(words, vec!["one", "two", "three"]);
    assert_eq!(text(&trim_chars(&chars("  x y  "))), "x y");
    let (a, b) = split_once_chars(&chars("k=v=w"), '=').expect("a separator");
    assert_eq!((text(&a), text(&b)), ("k".to_owned(), "v=w".to_owned()));
    assert!(split_once_chars(&chars("kv"), '=').is_none());
    assert_eq!(find_char(&chars("abc"), 'c'), 2);
    assert_eq!(find_char(&chars("abc"), 'z'), 3);
    assert_eq!(text(&lower_chars(&chars("AbC1"))), "abc1");
    assert_eq!(text(&normalize_chars("  StAnDaRd ")), "standard");
}

#[test]
fn occupied_cells_and_indices() {
    let snakes = vec![Snake::new("a", "a", vec![p(0, 0), p(1, 0)], 100)];
    let occ = build_occupied_map(3, 2, &snakes, &[p(2, 1)]);
    assert_eq!(occ, vec![true, true, false, false, false, true]);
    assert!(in_bounds(3, 2, p(2, 1)));
    assert!(!in_bounds(3, 2, p(3, 0)));
    assert!(!in_bounds(3, 2, p(0, -1)));
    assert_eq!(point_idx(3, 2, p(2, 1)), 5);
    assert!(build_occupied_map(-1, 4, &snakes, &[]).is_empty());
}

#[test]
fn table_sizes_are_powers_of_two() {
    assert_eq!(next_power_of_two(0), 1);
    assert_eq!(next_power_of_two(1), 1);
    assert_eq!(next_power_of_two(5), 8);
    assert_eq!(next_power_of_two(64), 64);
    let auto = RuntimeConfig { threads: 0, hash_mb: 0 };
    assert_eq!(resolve_tt_entries(&auto, 6), 131072);
    let one_mib = RuntimeConfig { threads: 0, hash_mb: 1 };
    assert_eq!(resolve_tt_entries(&one_mib, 6), 32768);
}

#[test]
fn compact_playground_state_reads_back() {
    let mut s = state(9, 8, vec![p(4, 4), p(0, 7)], vec![
        Snake::new("s2", "AI", vec![p(6, 6), p(6, 5)], 55),
        Snake::new("x", "other", vec![p(1, 1)], 20),
        Snake::new("s1", "Player", vec![p(2, 2), p(2, 3), p(3, 3)], 81),
    ]);
    s.turn = 17;
    let doc = compact_json_state(&s, 4242);
    let g = parse_scenario_to_state(&doc).expect("a compact document");
    assert_eq!((g.board.width, g.board.height, g.turn, g.seed), (9, 8, 17, 4242));
    assert_eq!(g.board.food, vec![p(4, 4), p(0, 7)]);
    assert_eq!(g.board.snakes.len(), 2);
    assert_eq!(g.board.snakes[0].id.0, "s1");
    assert_eq!(body(&g.board.snakes[0]), vec![p(2, 2), p(2, 3), p(3, 3)]);
    assert_eq!(g.board.snakes[0].health, 81);
    assert_eq!(g.board.snakes[1].id.0, "s2");
    assert_eq!(body(&g.board.snakes[1]), vec![p(6, 6), p(6, 5)]);
    assert_eq!(g.board.snakes[1].health, 55);
}

#[test]
fn compact_state_without_a_side_has_full_health() {
    let s = state(5, 5, vec![], vec![Snake::new("s1", "Player", vec![p(1, 1)], 30)]);
    let g = parse_scenario_to_state(&compact_json_state(&s, 1)).expect("a compact document");
    assert!(g.board.snakes[1].body.is_empty());
    assert_eq!(g.board.snakes[1].health, 100);
    let f = compact_sfen_state(&s, 1);
    assert_eq!(f.a_health, 100);
    assert!(f.a_body.is_empty());
    assert_eq!(f.p_body, vec![p(1, 1)]);
    assert_eq!(f.to_sfen_string(), "sfen 5x5 0:1:30:100 1,1 - - -");
    assert_eq!(SnakeFen::parse(&f.to_sfen_string()).unwrap(), f);
}

fn text_of(v: &JsonValue) -> Option<&str> {
    match v {
        JsonValue::Str(t) => Some(t.as_str()),
        _ => None,
    }
}

#[test]
fn saved_scenario_reads_back_with_the_ai_first() {
    let mut s = state(7, 6, vec![p(3, 3)], vec![
        Snake::new("s1", "Player", vec![p(1, 1), p(1, 2)], 64),
        Snake::new("s2", "AI", vec![p(5, 4), p(5, 3), p(4, 3)], 92),
    ]);
    s.turn = 40;
    let doc = scenario_json_state(&s, "1700000000000", "corner", Direction::Left);
    match &doc {
        JsonValue::Object(keys, values) => {
            assert_eq!(keys, &vec!["id", "name", "you_id", "expectation", "board"]);
            assert_eq!(text_of(&values[0]), Some("1700000000000"));
            assert_eq!(text_of(&values[1]), Some("corner"));
            assert_eq!(text_of(&values[2]), Some("s2"));
            match &values[3] {
                JsonValue::Object(ek, ev) => {
                    assert_eq!(ek, &vec!["kind", "direction"]);
                    assert_eq!(text_of(&ev[0]), Some("exact"));
                    assert_eq!(text_of(&ev[1]), Some("left"));
                }
                _ => panic!("the expectation is an object"),
            }
        }
        _ => panic!("a saved scenario is an object"),
    }
    let g = parse_scenario_to_state(&doc).expect("a board document");
    assert_eq!((g.board.width, g.board.height, g.turn, g.seed), (7, 6, 0, 0));
    assert_eq!(g.board.food, vec![p(3, 3)]);
    assert_eq!(g.board.snakes.len(), 2);
    assert_eq!(g.board.snakes[0].id.0, "s2");
    assert_eq!(body(&g.board.snakes[0]), vec![p(5, 4), p(5, 3), p(4, 3)]);
    assert_eq!(g.board.snakes[0].health, 92);
    assert_eq!(g.board.snakes[1].id.0, "s1");
    assert_eq!(body(&g.board.snakes[1]), vec![p(1, 1), p(1, 2)]);
    assert_eq!(g.board.snakes[1].health, 64);
}
