use strongsnake::brain::{position_searchable, search_grid, SearchSettings};
use strongsnake::config::RuntimeConfig;
use strongsnake::direction::Direction;
use strongsnake::grid::Grid;
use strongsnake::heuristics::{FoodCurve, ScoreWeights, weights_in_bounds};
use strongsnake::model::{AgentState, FastBody};
use strongsnake::search::{make_move, order_moves, SearchMove};
use strongsnake::tt::TranspositionTable;
use strongsnake::types::Point;
use strongsnake::zobrist::{mix, Zobrist};

fn p(x: i32, y: i32) -> Point {
    Point { x, y }
}

fn agent(points: Vec<Point>, health: i32) -> AgentState {
    AgentState { body: FastBody::from_points(points), health }
}

fn flat_curve() -> FoodCurve {
    FoodCurve::new(100, vec![0; 101 * 101]).expect("a well-formed table")
}

fn settings(depth: usize) -> SearchSettings {
    SearchSettings {
        max_depth: depth,
        dense_tail_race_occupancy: 50,
        weights: ScoreWeights::default(),
        runtime: RuntimeConfig::default(),
    }
}

fn body_points(a: &AgentState) -> Vec<Point> {
    a.body.iter()
}

#[test]
fn mix_scrambles_distinct_inputs_apart() {
    assert_ne!(mix(1), mix(2));
    assert_eq!(mix(0), 0);
    assert_ne!(mix(1), 1);
    assert_eq!(mix(12345), mix(12345));
}

#[test]
fn zobrist_updates_undo_when_repeated() {
    let me = agent(vec![p(1, 1), p(1, 0)], 90);
    let en = agent(vec![p(4, 4), p(4, 3)], 80);
    let grid = Grid::from_state(6, 6, &[p(3, 3)], &me.body, &en.body);
    let z = Zobrist::new(6, 6);
    let h = z.compute_hash(&grid, 90, 80);
    let toggled = z.xor_unchecked(h, 2, 2, 2);
    assert_ne!(toggled, h);
    assert_eq!(z.xor_unchecked(toggled, 2, 2, 2), h);
    let moved = z.xor_health(h, 90, 89, true);
    assert_ne!(moved, h);
    assert_eq!(z.xor_health(moved, 89, 90, true), h);
    assert_ne!(z.compute_hash(&grid, 91, 80), h);
}

#[test]
fn zobrist_hash_follows_a_played_move() {
    let me = agent(vec![p(1, 1), p(1, 0)], 90);
    let en = agent(vec![p(4, 4), p(4, 3)], 80);
    let mut grid = Grid::from_state(6, 6, &[], &me.body, &en.body);
    let z = Zobrist::new(6, 6);
    let h = z.compute_hash(&grid, 90, 80);
    let mut mover = me.clone();
    let mv = SearchMove { x: 1, y: 2, dir: Direction::Up, dir_int: 0 };
    let (undo, next) = make_move(&mut grid, &mut mover, 0, mv, h, &z);
    assert!(!undo.ate_food);
    assert_eq!(mover.health, 89);
    assert_eq!(body_points(&mover), vec![p(1, 2), p(1, 1)]);
    assert_eq!(next, z.compute_hash(&grid, 89, 80));
}

#[test]
fn make_move_on_food_grows_and_heals() {
    let me = agent(vec![p(1, 1), p(1, 0)], 40);
    let en = agent(vec![p(4, 4), p(4, 3)], 80);
    let mut grid = Grid::from_state(6, 6, &[p(2, 1)], &me.body, &en.body);
    let z = Zobrist::new(6, 6);
    let mut mover = me.clone();
    let mv = SearchMove { x: 2, y: 1, dir: Direction::Right, dir_int: 3 };
    let (undo, _) = make_move(&mut grid, &mut mover, 0, mv, 0, &z);
    assert!(undo.ate_food);
    assert_eq!(mover.health, 100);
    assert_eq!(body_points(&mover), vec![p(2, 1), p(1, 1), p(1, 0)]);
    assert_eq!(grid.get(2, 1), 2);
}

#[test]
fn food_curve_rejects_malformed_tables() {
    assert!(FoodCurve::new(99, vec![0; 100 * 100]).is_none());
    assert!(FoodCurve::new(100, vec![0; 10]).is_none());
    let mut bad = vec![0; 101 * 101];
    bad[5] = -1;
    assert!(FoodCurve::new(100, bad).is_none());
    let mut table = vec![0; 101 * 101];
    table[50 * 101 + 7] = 1234;
    let c = FoodCurve::new(100, table).expect("valid");
    assert_eq!(c.penalty(7, 50), 1234);
    assert_eq!(c.penalty(6, 50), 0);
    assert_eq!(c.max_health(), 100);
}

#[test]
fn default_weights_are_within_bounds() {
    assert!(weights_in_bounds(&ScoreWeights::default()));
    let mut w = ScoreWeights::default();
    w.territory_control = 50_000;
    assert!(!weights_in_bounds(&w));
}

#[test]
fn order_moves_puts_the_table_move_first() {
    let me = agent(vec![p(2, 2), p(2, 1)], 90);
    let en = agent(vec![p(5, 5), p(5, 4)], 90);
    let grid = Grid::from_state(7, 7, &[], &me.body, &en.body);
    let hist = vec![0; 7 * 7 * 4];
    let up = SearchMove { x: 2, y: 3, dir: Direction::Up, dir_int: 0 };
    let left = SearchMove { x: 1, y: 2, dir: Direction::Left, dir_int: 2 };
    let right = SearchMove { x: 3, y: 2, dir: Direction::Right, dir_int: 3 };
    let out = order_moves(vec![up, left, right], &grid, &hist, 2 * 7 + 2, Some((1, 2)));
    assert_eq!(out[0].dir, Direction::Left);
    assert_eq!(out.len(), 3);
}

#[test]
fn order_moves_prefers_higher_history_then_food() {
    let me = agent(vec![p(2, 2), p(2, 1)], 90);
    let en = agent(vec![p(5, 5), p(5, 4)], 90);
    let grid = Grid::from_state(7, 7, &[p(0, 2)], &me.body, &en.body);
    let head_idx = 2 * 7 + 2;
    let mut hist = vec![0; 7 * 7 * 4];
    let up = SearchMove { x: 2, y: 3, dir: Direction::Up, dir_int: 0 };
    let left = SearchMove { x: 1, y: 2, dir: Direction::Left, dir_int: 2 };
    let right = SearchMove { x: 3, y: 2, dir: Direction::Right, dir_int: 3 };
    let by_food = order_moves(vec![up, right, left], &grid, &hist, head_idx, None);
    assert_eq!(by_food[0].dir, Direction::Left);
    hist[head_idx * 4 + 3] = 50;
    let by_history = order_moves(vec![up, right, left], &grid, &hist, head_idx, None);
    assert_eq!(by_history[0].dir, Direction::Right);
    assert_eq!(by_history[1].dir, Direction::Left);
}

#[test]
fn search_takes_the_only_safe_move() {
    // Boxed into the corner: down and left are walls, right is the own neck.
    let mut me = agent(vec![p(0, 0), p(1, 0), p(2, 0)], 90);
    let mut en = agent(vec![p(5, 5), p(5, 4), p(5, 3)], 90);
    let mut grid = Grid::from_state(7, 7, &[], &me.body, &en.body);
    let s = settings(3);
    let curve = flat_curve();
    assert!(position_searchable(&grid, &me, &en, &s, &curve));
    let mut tt = TranspositionTable::new(1);
    let before = format!("{:?}", grid);
    let report = search_grid(&mut grid, &mut me, &mut en, &s, &mut tt, &curve, 0);
    assert_eq!(report.best_move, Direction::Up);
    assert_eq!(format!("{:?}", grid), before);
    assert_eq!(body_points(&me), vec![p(0, 0), p(1, 0), p(2, 0)]);
    assert_eq!(me.health, 90);
    assert_eq!(report.root_children.len(), 1);
    assert_eq!(report.pv.first(), Some(&Direction::Up));
    assert!(report.search_nodes > 0);
}

#[test]
fn search_with_no_safe_move_scores_a_loss() {
    // Head at (0, 0) with its own body to the right and up; the board edge elsewhere.
    let mut me = agent(vec![p(0, 0), p(1, 0), p(1, 1), p(0, 1), p(0, 2)], 90);
    let mut en = agent(vec![p(5, 5), p(5, 4), p(5, 3)], 90);
    let mut grid = Grid::from_state(7, 7, &[], &me.body, &en.body);
    let s = settings(2);
    let curve = flat_curve();
    let mut tt = TranspositionTable::new(1);
    let report = search_grid(&mut grid, &mut me, &mut en, &s, &mut tt, &curve, 0);
    assert_eq!(report.score, ScoreWeights::default().loss - 2);
    assert!(report.root_children.is_empty());
}

#[test]
fn search_against_a_dead_enemy_scores_a_win() {
    let mut me = agent(vec![p(3, 3), p(3, 2)], 90);
    let mut en = agent(vec![p(5, 5), p(5, 4)], 0);
    let mut grid = Grid::from_state(7, 7, &[], &me.body, &en.body);
    let s = settings(4);
    let curve = flat_curve();
    let mut tt = TranspositionTable::new(1);
    let report = search_grid(&mut grid, &mut me, &mut en, &s, &mut tt, &curve, 0);
    assert_eq!(report.score, ScoreWeights::default().win + 4);
}

#[test]
fn search_leaves_the_position_unchanged() {
    let mut me = agent(vec![p(2, 2), p(2, 1), p(2, 0)], 70);
    let mut en = agent(vec![p(4, 4), p(4, 5), p(4, 6)], 70);
    let mut grid = Grid::from_state(7, 7, &[p(3, 3), p(0, 6)], &me.body, &en.body);
    let s = settings(4);
    let curve = flat_curve();
    let mut tt = TranspositionTable::new(1);
    let before = format!("{:?}", grid);
    let report = search_grid(&mut grid, &mut me, &mut en, &s, &mut tt, &curve, 0);
    assert_eq!(format!("{:?}", grid), before);
    assert_eq!(body_points(&me), vec![p(2, 2), p(2, 1), p(2, 0)]);
    assert_eq!(body_points(&en), vec![p(4, 4), p(4, 5), p(4, 6)]);
    assert_eq!((me.health, en.health), (70, 70));
    assert!(report.root_children.len() >= 1 && report.root_children.len() <= 3);
    assert!(report.pv.len() >= 1);
    // A second search reuses the table in a new generation and agrees on the move.
    let again = search_grid(&mut grid, &mut me, &mut en, &s, &mut tt, &curve, 0);
    assert_eq!(again.best_move, report.best_move);
}

#[test]
fn position_off_the_board_is_not_searchable() {
    let me = agent(vec![p(2, 2), p(2, 1)], 70);
    let en = agent(vec![p(9, 9), p(9, 8)], 70);
    let grid = Grid::from_state(7, 7, &[], &me.body, &en.body);
    assert!(!position_searchable(&grid, &me, &en, &settings(2), &flat_curve()));
    let healthy = agent(vec![p(4, 4), p(4, 3)], 70);
    let grid2 = Grid::from_state(7, 7, &[], &me.body, &healthy.body);
    assert!(position_searchable(&grid2, &me, &healthy, &settings(2), &flat_curve()));
    let starving = agent(vec![p(4, 4), p(4, 3)], 500);
    assert!(!position_searchable(&grid2, &me, &starving, &settings(2), &flat_curve()));
}

#[test]
fn search_works_on_a_wide_board() {
    let mut me = agent(vec![p(10, 1), p(9, 1), p(8, 1)], 80);
    let mut en = agent(vec![p(90, 2), p(91, 2), p(92, 2)], 80);
    let mut grid = Grid::from_state(100, 4, &[p(50, 1)], &me.body, &en.body);
    let s = settings(3);
    let curve = flat_curve();
    assert!(position_searchable(&grid, &me, &en, &s, &curve));
    let mut tt = TranspositionTable::new(1);
    let report = search_grid(&mut grid, &mut me, &mut en, &s, &mut tt, &curve, 0);
    assert!(!report.root_children.is_empty());
    let best = report.root_children.iter().map(|c| c.modified_score).max().unwrap();
    assert_eq!(report.score, best.max(-2_000_000_000));
    assert_eq!(report.pv.first(), Some(&report.best_move));
}

#[test]
fn root_score_is_the_best_child_score() {
    let mut me = agent(vec![p(2, 2), p(2, 1), p(2, 0)], 70);
    let mut en = agent(vec![p(4, 4), p(4, 5), p(4, 6)], 70);
    let mut grid = Grid::from_state(7, 7, &[p(3, 3)], &me.body, &en.body);
    let s = settings(3);
    let curve = flat_curve();
    let mut tt = TranspositionTable::new(1);
    let report = search_grid(&mut grid, &mut me, &mut en, &s, &mut tt, &curve, 0);
    let best = report.root_children.iter().map(|c| c.modified_score).max().unwrap();
    assert_eq!(report.score, best);
    assert!(report.root_children.iter().any(|c| c.mv.dir == report.best_move && c.modified_score == report.score));
    assert_eq!(report.pv[0], report.best_move);
}

#[test]
fn order_moves_keeps_equal_keys_in_their_given_order() {
    let me = agent(vec![p(3, 3), p(3, 2)], 90);
    let en = agent(vec![p(0, 0), p(0, 1)], 90);
    let grid = Grid::from_state(7, 7, &[], &me.body, &en.body);
    let head_idx = 3 * 7 + 3;
    let hist = vec![0; 7 * 7 * 4];
    let up = SearchMove { x: 3, y: 4, dir: Direction::Up, dir_int: 0 };
    let down = SearchMove { x: 3, y: 2, dir: Direction::Down, dir_int: 1 };
    let left = SearchMove { x: 2, y: 3, dir: Direction::Left, dir_int: 2 };
    let right = SearchMove { x: 4, y: 3, dir: Direction::Right, dir_int: 3 };
    let dirs = |v: Vec<SearchMove>| v.iter().map(|m| m.dir).collect::<Vec<_>>();
    assert_eq!(
        dirs(order_moves(vec![left, down, up, right], &grid, &hist, head_idx, None)),
        vec![Direction::Up, Direction::Right, Direction::Left, Direction::Down]
    );
    assert_eq!(
        dirs(order_moves(vec![right, up, down, left], &grid, &hist, head_idx, None)),
        vec![Direction::Right, Direction::Up, Direction::Down, Direction::Left]
    );
}
