use strongsnake::direction::Direction;
use strongsnake::engine::{simulate_turn, snake_head_direction, SimConfig};
use strongsnake::food::{FoodSettings, place_initial_standard_food, apply_standard_food_spawning};
use strongsnake::rng::{LcgRng, RngSource};
use strongsnake::types::{Board, GameState, Point, Snake, SnakeId};
use strongsnake::tt::{TranspositionTable, TtFlag};
use strongsnake::brain::{depth_based_tt_entries, format_duration_ns, resolve_thread_count, decision_log};
use strongsnake::config::RuntimeConfig;
use strongsnake::matches::{match_continues, play_match_turn, MatchDeathSummary};
use std::collections::VecDeque;

fn p(x: i32, y: i32) -> Point {
    Point { x, y }
}

fn two_snake_state() -> GameState {
    GameState {
        turn: 0,
        seed: 7,
        board: Board {
            width: 7,
            height: 7,
            food: vec![p(1, 4)],
            snakes: vec![
                Snake::new("a", "A", vec![p(1, 3), p(1, 2), p(1, 1)], 90),
                Snake::new("b", "B", vec![p(5, 3), p(5, 2), p(5, 1)], 90),
            ],
        },
    }
}

#[test]
fn lcg_is_deterministic() {
    let mut a = LcgRng::new(42);
    let mut b = LcgRng::new(42);
    for _ in 0..5 {
        assert_eq!(a.next_u32(), b.next_u32());
    }
    let mut c = LcgRng::new(0);
    assert_eq!(c.step(), 1_013_904_223);
    assert_eq!(c.state(), 1_013_904_223);
    assert!(c.rand_int(10) < 10);
    assert_eq!(c.rand_int(1), 0);
}

#[test]
fn snake_moves_and_eats() {
    let mut s = two_snake_state();
    let mut rng = LcgRng::new(1);
    let intents = vec![(SnakeId("a".to_owned()), Direction::Up), (SnakeId("b".to_owned()), Direction::Up)];
    let summary = simulate_turn(&mut s, &intents, &mut rng, SimConfig::default());
    assert_eq!(summary.turn, 1);
    assert_eq!(s.turn, 1);
    assert!(summary.dead.is_empty());
    let a = &s.board.snakes[0];
    assert_eq!(a.head(), Some(p(1, 4)));
    assert_eq!(a.health, 100);
    assert_eq!(a.len(), 4);
    let b = &s.board.snakes[1];
    assert_eq!(b.head(), Some(p(5, 4)));
    assert_eq!(b.health, 89);
    assert_eq!(b.len(), 3);
    assert!(!s.board.food.contains(&p(1, 4)));
    assert_eq!(summary.alive_ids.len(), 2);
}

#[test]
fn wall_and_starvation_deaths() {
    let mut s = GameState {
        turn: 3,
        seed: 0,
        board: Board {
            width: 5,
            height: 5,
            food: vec![],
            snakes: vec![
                Snake::new("w", "W", vec![p(0, 2), p(1, 2), p(2, 2)], 50),
                Snake::new("h", "H", vec![p(4, 4), p(4, 3), p(4, 2)], 1),
            ],
        },
    };
    let mut rng = LcgRng::new(9);
    let intents = vec![(SnakeId("w".to_owned()), Direction::Left), (SnakeId("h".to_owned()), Direction::Left)];
    let summary = simulate_turn(&mut s, &intents, &mut rng, SimConfig::default());
    assert_eq!(summary.dead.len(), 2);
    assert_eq!(summary.dead[0].snake_id.0, "w");
    assert_eq!(summary.dead[0].reason, "Wall");
    assert_eq!(summary.dead[1].snake_id.0, "h");
    assert_eq!(summary.dead[1].reason, "Starvation");
    assert!(s.board.snakes.iter().all(|sn| !sn.alive || sn.body.is_empty()) || s.board.snakes.is_empty());
    assert!(summary.alive_ids.is_empty());
}

#[test]
fn head_on_collision_kills_the_shorter() {
    let mut s = GameState {
        turn: 0,
        seed: 0,
        board: Board {
            width: 7,
            height: 7,
            food: vec![p(0, 0)],
            snakes: vec![
                Snake::new("long", "L", vec![p(2, 3), p(1, 3), p(0, 3), p(0, 4)], 80),
                Snake::new("short", "S", vec![p(4, 3), p(5, 3), p(6, 3)], 80),
            ],
        },
    };
    let mut rng = LcgRng::new(3);
    let intents = vec![(SnakeId("long".to_owned()), Direction::Right), (SnakeId("short".to_owned()), Direction::Left)];
    let summary = simulate_turn(&mut s, &intents, &mut rng, SimConfig::default());
    assert_eq!(summary.dead.len(), 1);
    assert_eq!(summary.dead[0].snake_id.0, "short");
    assert_eq!(summary.dead[0].reason, "Head");
    assert_eq!(summary.alive_ids.len(), 1);
    assert_eq!(summary.alive_ids[0].0, "long");
}

#[test]
fn head_direction_from_neck() {
    let body: VecDeque<Point> = vec![p(2, 3), p(2, 2)].into();
    assert_eq!(snake_head_direction(&body), Direction::Up);
    let body: VecDeque<Point> = vec![p(1, 2), p(2, 2)].into();
    assert_eq!(snake_head_direction(&body), Direction::Left);
    let short: VecDeque<Point> = vec![p(1, 2)].into();
    assert_eq!(snake_head_direction(&short), Direction::Up);
}

#[test]
fn initial_food_lands_on_distinct_free_cells() {
    let snakes = vec![Snake::new("a", "A", vec![p(0, 0), p(0, 1)], 100)];
    let mut food = Vec::new();
    let mut rng = LcgRng::new(11);
    let n = place_initial_standard_food(&mut rng, 3, 3, &snakes, &mut food, FoodSettings::default());
    assert_eq!(n, 3);
    assert_eq!(food.len(), 3);
    for f in &food {
        assert!(f.x >= 0 && f.x < 3 && f.y >= 0 && f.y < 3);
        assert!(*f != p(0, 0) && *f != p(0, 1));
    }
    assert!(food[0] != food[1] && food[1] != food[2] && food[0] != food[2]);
}

#[test]
fn full_board_gets_no_food() {
    let snakes = vec![Snake::new("a", "A", vec![p(0, 0), p(1, 0)], 100)];
    let mut food = Vec::new();
    let mut rng = LcgRng::new(5);
    let n = place_initial_standard_food(&mut rng, 2, 1, &snakes, &mut food, FoodSettings::default());
    assert_eq!(n, 0);
    assert!(food.is_empty());
    let m = apply_standard_food_spawning(&mut rng, 2, 1, &snakes, &mut food, FoodSettings::default());
    assert_eq!(m, 0);
}

#[test]
fn transposition_table_keeps_what_was_set() {
    let mut tt = TranspositionTable::new(16);
    assert!(tt.get(12345).is_none());
    tt.set(12345, 4, -17, TtFlag::Exact, 3, 2, 1);
    let e = tt.get(12345).expect("entry");
    assert_eq!(e.score, -17);
    assert_eq!(e.depth, 4);
    assert_eq!(e.flag, TtFlag::Exact);
    assert_eq!(e.get_direction(), Some(Direction::Down));
    assert!(tt.get(12346).is_none());
}

#[test]
fn table_sizes_by_depth_and_hash() {
    assert_eq!(depth_based_tt_entries(4), 32768);
    assert_eq!(depth_based_tt_entries(8), 131072);
    assert_eq!(depth_based_tt_entries(12), 524288);
    assert_eq!(depth_based_tt_entries(20), 2097152);
    assert_eq!(depth_based_tt_entries(21), 4194304);
    assert_eq!(TranspositionTable::entries_for_hash_mb(0), 0);
    assert_eq!(TranspositionTable::entries_for_hash_mb(1), 32768);
    let rc = RuntimeConfig { threads: 0, hash_mb: 0 };
    assert_eq!(resolve_thread_count(&rc, 6), 6);
    let rc2 = RuntimeConfig { threads: 3, hash_mb: 0 };
    assert_eq!(resolve_thread_count(&rc2, 6), 3);
}

#[test]
fn durations_are_formatted_in_milliseconds() {
    assert_eq!(format_duration_ns(0), "0.000000ms");
    assert_eq!(format_duration_ns(1_234_567), "1.234567ms");
    assert_eq!(format_duration_ns(5_000_042), "5.000042ms");
    assert_eq!(decision_log(-12, true, 2_000_001), "Score: -12 | FAILSAFE | 2.000001ms");
    assert_eq!(decision_log(7, false, 0), "Score: 7 | 0.000000ms");
}

#[test]
fn rand_int_is_the_next_value_modulo_the_bound() {
    let mut g = LcgRng::new(0);
    assert_eq!(g.rand_int(1), 0);
    assert_eq!(g.state(), 0);
    assert_eq!(g.rand_int(10), 1_013_904_223 % 10);
    assert_eq!(g.state(), 1_013_904_223);
    let mut h = LcgRng::new(0);
    assert_eq!(h.next_u32(), 1_013_904_223);
}

#[test]
fn head_on_with_no_spawn_chance_leaves_no_food() {
    let mut s = GameState {
        turn: 0,
        seed: 0,
        board: Board {
            width: 5,
            height: 5,
            food: vec![],
            snakes: vec![
                Snake::new("s1", "a", vec![p(1, 2), p(0, 2)], 100),
                Snake::new("s2", "b", vec![p(3, 2), p(4, 2)], 100),
            ],
        },
    };
    let intents = vec![(SnakeId("s1".into()), Direction::Right), (SnakeId("s2".into()), Direction::Left)];
    let mut rng = LcgRng::new(1);
    let cfg = SimConfig { max_health: 100, food: FoodSettings { initial_food: 0, minimum_food: 0, food_spawn_chance: 0 } };
    let r = simulate_turn(&mut s, &intents, &mut rng, cfg);
    assert_eq!((r.turn, s.turn), (1, 1));
    assert_eq!(r.dead.len(), 2);
    assert!(r.alive_ids.is_empty());
    assert!(s.board.food.is_empty());
    assert_eq!(rng.state(), 1);
}

#[test]
fn single_free_cell_is_taken_without_a_draw() {
    let mut rng = LcgRng::new(9);
    let snakes = vec![Snake::new("s1", "a", vec![p(0, 0)], 100)];
    let mut food = vec![];
    let settings = FoodSettings { initial_food: 3, minimum_food: 1, food_spawn_chance: 0 };
    assert_eq!(apply_standard_food_spawning(&mut rng, 2, 1, &snakes, &mut food, settings), 1);
    assert_eq!(food, vec![p(1, 0)]);
    assert_eq!(rng.state(), 9);
}

#[test]
fn initial_food_follows_the_shuffle() {
    let mut rng = LcgRng::new(0);
    let snakes = vec![Snake::new("s1", "a", vec![p(1, 0)], 100)];
    let mut food = vec![];
    let settings = FoodSettings { initial_food: 3, minimum_food: 1, food_spawn_chance: 15 };
    assert_eq!(place_initial_standard_food(&mut rng, 3, 1, &snakes, &mut food, settings), 2);
    // One draw: rand_int(2) on 1_013_904_223 gives 1, so the two free cells stay in order.
    assert_eq!(food, vec![p(0, 0), p(2, 0)]);
    assert_eq!(rng.state(), 1_013_904_223);
    let mut rng2 = LcgRng::new(0);
    let mut food2 = vec![];
    let none = FoodSettings { initial_food: 0, minimum_food: 1, food_spawn_chance: 15 };
    assert_eq!(place_initial_standard_food(&mut rng2, 3, 1, &snakes, &mut food2, none), 0);
    assert!(food2.is_empty());
    assert_eq!(rng2.state(), 0);
}

#[test]
fn a_game_is_determined_by_its_seed() {
    let (a, ra) = strongsnake::matches::build_playground_state(11, 11, 77);
    let (b, rb) = strongsnake::matches::build_playground_state(11, 11, 77);
    assert_eq!(a.board.food, b.board.food);
    assert_eq!(ra.state(), rb.state());
}

#[test]
fn a_match_turn_moves_both_sides_and_counts_deaths() {
    let mut s = two_snake_state();
    let mut rng = LcgRng::new(5);
    let mut death = MatchDeathSummary::default();
    assert!(match_continues(&s, 10));
    assert!(!match_continues(&s, 0));
    let summary = play_match_turn(&mut s, &mut rng, &mut death, Some(0), Some(1), Direction::Up, Direction::Right)
        .expect("the turn can be played");
    assert_eq!(summary.turn, 1);
    assert_eq!(s.turn, 1);
    assert_eq!(s.board.snakes[0].body.front().copied(), Some(p(1, 4)));
    assert_eq!(s.board.snakes[0].health, 100);
    assert_eq!(s.board.snakes[1].body.front().copied(), Some(p(6, 3)));
    assert_eq!(s.board.snakes[1].health, 89);
    assert!(summary.dead.is_empty());
    assert_eq!(death, MatchDeathSummary::default());
    let summary = play_match_turn(&mut s, &mut rng, &mut death, Some(0), Some(1), Direction::Up, Direction::Right)
        .expect("the turn can be played");
    assert_eq!(summary.dead.len(), 1);
    assert_eq!(summary.dead[0].reason, "Wall");
    assert_eq!(death.opponent.wall, 1);
    assert_eq!(death.local.wall, 0);
    assert!(!match_continues(&s, 10));
}

#[test]
fn a_match_turn_on_an_oversized_board_changes_nothing() {
    let mut s = two_snake_state();
    s.board.width = 30;
    s.board.height = 30;
    let mut rng = LcgRng::new(5);
    let mut death = MatchDeathSummary::default();
    assert!(play_match_turn(&mut s, &mut rng, &mut death, Some(0), Some(1), Direction::Up, Direction::Up).is_none());
    assert_eq!(s.turn, 0);
    assert_eq!(s.board.food, vec![p(1, 4)]);
    assert_eq!(s.board.snakes[0].body.front().copied(), Some(p(1, 3)));
    assert_eq!(s.board.snakes[1].body.front().copied(), Some(p(5, 3)));
    assert_eq!(death, MatchDeathSummary::default());
    assert_eq!(rng.state(), LcgRng::new(5).state());
}

#[test]
fn a_new_six_by_six_game_has_three_food_items() {
    let (st, _) = strongsnake::matches::build_playground_state(6, 6, 3);
    assert_eq!(st.board.food.len(), 3);
    for (i, f) in st.board.food.iter().enumerate() {
        assert!(f.x >= 0 && f.x < 6 && f.y >= 0 && f.y < 6);
        assert!(st.board.snakes.iter().all(|s| !s.body.contains(f)));
        assert!(st.board.food[..i].iter().all(|g| g != f));
    }
}
