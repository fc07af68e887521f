use strongsnake::direction::Direction;
use strongsnake::session::{get_line_path, is_opposite, sync_snake_state_after_edit, EditMode, Playground};
use strongsnake::types::{Point, Snake};

fn p(x: i32, y: i32) -> Point {
    Point { x, y }
}

fn body(s: &Snake) -> Vec<Point> {
    s.body.iter().copied().collect()
}

fn playground() -> Playground {
    Playground::new(7, 7)
}

#[test]
fn stroke_paths_walk_the_row_then_the_column() {
    assert_eq!(get_line_path((1, 1), (3, 0)), vec![(1, 1), (2, 1), (3, 1), (3, 0)]);
    assert_eq!(get_line_path((2, 2), (2, 2)), vec![(2, 2)]);
    assert_eq!(get_line_path((4, 0), (2, 2)), vec![(4, 0), (3, 0), (2, 0), (2, 1), (2, 2)]);
}

#[test]
fn opposite_directions() {
    assert!(is_opposite(Direction::Up, Direction::Down));
    assert!(is_opposite(Direction::Right, Direction::Left));
    assert!(!is_opposite(Direction::Up, Direction::Left));
    assert!(!is_opposite(Direction::Up, Direction::Up));
}

#[test]
fn snakes_follow_their_bodies_after_an_edit() {
    let mut empty = Snake::new("s1", "p", vec![], 50);
    empty.alive = true;
    let mut revived = Snake::new("s2", "a", vec![p(1, 1)], -3);
    revived.alive = false;
    let mut snakes = vec![empty, revived, Snake::new("x", "x", vec![p(2, 2)], 40)];
    sync_snake_state_after_edit(&mut snakes);
    assert!(!snakes[0].alive);
    assert_eq!(snakes[0].health, 0);
    assert!(snakes[1].alive);
    assert_eq!(snakes[1].health, 100);
    assert_eq!(snakes[2].health, 40);
}

#[test]
fn edits_paint_place_and_erase() {
    let mut g = playground();
    g.apply_edit_cell(EditMode::PaintP1, 3, 3, true);
    g.apply_edit_cell(EditMode::PaintP1, 3, 4, false);
    g.apply_edit_cell(EditMode::PaintP1, 4, 4, false);
    let s1 = g.state.board.snakes.iter().find(|s| s.id.0 == "s1").unwrap();
    assert_eq!(body(s1), vec![p(3, 3), p(3, 4), p(4, 4)]);
    assert_eq!(s1.health, 100);
    g.apply_edit_cell(EditMode::PaintP1, 3, 4, false);
    let s1 = g.state.board.snakes.iter().find(|s| s.id.0 == "s1").unwrap();
    assert_eq!(body(s1), vec![p(3, 3), p(3, 4)]);
    g.apply_edit_cell(EditMode::Erase, 0, 6, false);
    let food_before = g.state.board.food.len();
    g.apply_edit_cell(EditMode::Food, 0, 6, false);
    g.apply_edit_cell(EditMode::Food, 0, 6, false);
    assert_eq!(g.state.board.food.len(), food_before + 1);
    g.apply_edit_cell(EditMode::Erase, 0, 6, false);
    assert_eq!(g.state.board.food.len(), food_before);
    g.apply_edit_cell(EditMode::Erase, 3, 3, false);
    g.apply_edit_cell(EditMode::Erase, 3, 4, false);
    let s1 = g.state.board.snakes.iter().find(|s| s.id.0 == "s1").unwrap();
    assert!(s1.body.is_empty());
    assert!(!s1.alive);
    assert_eq!(s1.health, 0);
    assert!(!g.playground_can_run());
}

#[test]
fn turns_and_queued_input() {
    let mut g = playground();
    g.apply_edit_cell(EditMode::PaintP1, 3, 3, true);
    g.apply_edit_cell(EditMode::PaintP1, 3, 2, false);
    g.set_player_dir(Direction::Down);
    assert_eq!(g.player_dir, Direction::Up);
    g.set_player_dir(Direction::Left);
    assert_eq!(g.player_dir, Direction::Left);
    g.queue_player_input(Direction::Left);
    g.queue_player_input(Direction::Right);
    assert!(g.input_queue.is_empty());
    g.queue_player_input(Direction::Up);
    g.queue_player_input(Direction::Right);
    g.queue_player_input(Direction::Down);
    assert_eq!(g.input_queue, vec![Direction::Up, Direction::Right]);
    g.set_player_dir(Direction::Up);
    assert!(g.input_queue.is_empty());
}

#[test]
fn a_playground_turn() {
    let mut g = playground();
    g.set_playground_running(true);
    assert!(g.auto_run);
    g.queue_player_input(Direction::Right);
    g.pv_line = vec![Direction::Up, Direction::Down];
    let sides = g.begin_step().expect("both sides alive");
    assert!(g.pv_line.is_empty());
    assert_eq!(g.player_dir, Direction::Right);
    assert!(g.input_queue.is_empty());
    assert_eq!(g.state.board.snakes[sides.0].id.0, "s1");
    assert_eq!(g.state.board.snakes[sides.1].id.0, "s2");
    let head = g.state.board.snakes[sides.0].body[0];
    let summary = g.finish_step(Direction::Down).expect("a small board");
    assert_eq!(summary.turn, 1);
    assert_eq!(g.state.turn, 1);
    assert_eq!(g.state.board.snakes[sides.0].body[0], p(head.x + 1, head.y));
}

#[test]
fn projected_state_follows_the_line() {
    let mut g = playground();
    let start = g.state.clone();
    g.pv_line = vec![Direction::Up, Direction::Right, Direction::Up, Direction::Right, Direction::Up];
    g.pv_index = 5;
    let projected = g.get_projected_state();
    assert_eq!(projected.turn, 2);
    assert_eq!(g.state.turn, start.turn);
    let s1 = projected.board.snakes.iter().find(|s| s.id.0 == "s1").unwrap();
    let s1_start = start.board.snakes.iter().find(|s| s.id.0 == "s1").unwrap();
    assert_eq!(s1.body[0], p(s1_start.body[0].x + 2, s1_start.body[0].y));
    g.pv_index = 1;
    assert_eq!(g.get_projected_state().turn, 1);
}
