use strongsnake::direction::Direction;
use strongsnake::snapshot::{build_snapshot, quote_for_cli, snapshot_state, ArenaSnapshotFile, MatchTraceFrame, SnapshotError};
use strongsnake::types::{Board, GameState, Point, Snake};

fn p(x: i32, y: i32) -> Point {
    Point { x, y }
}

fn frame(turn: u32, rng_seed: u32, opponent_move: Direction, with_s2: bool) -> MatchTraceFrame {
    let mut snakes = vec![Snake::new("s1", "local", vec![p(1, turn as i32), p(1, 0)], 90 - turn as i32)];
    if with_s2 {
        snakes.push(Snake::new("s2", "opponent", vec![p(5, 5)], 70));
    }
    MatchTraceFrame {
        rng_seed,
        state: GameState { turn, seed: 0, board: Board { width: 7, height: 7, food: vec![p(turn as i32, 3)], snakes } },
        opponent_move,
    }
}

fn trace() -> Vec<MatchTraceFrame> {
    vec![
        frame(0, 11, Direction::Up, true),
        frame(1, 12, Direction::Left, true),
        frame(2, 13, Direction::Down, true),
    ]
}

#[test]
fn snapshot_starts_the_given_ticks_before_the_end() {
    let s = build_snapshot(&trace(), 2, 7, 7).expect("a snapshot");
    assert_eq!(s.turn, 1);
    assert_eq!(s.rng_seed, 12);
    assert_eq!(s.local_body, vec![p(1, 1), p(1, 0)]);
    assert_eq!(s.local_health, 89);
    assert_eq!(s.opponent_body, vec![p(5, 5)]);
    assert_eq!(s.opponent_health, 70);
    assert_eq!(s.foods, vec![p(1, 3)]);
    assert_eq!((s.cols, s.rows), (7, 7));
    assert_eq!(s.opponent_moves, vec!["left".to_owned(), "down".to_owned()]);
}

#[test]
fn snapshot_tick_edge_cases() {
    assert!(build_snapshot(&[], 3, 7, 7).is_none());
    let last = build_snapshot(&trace(), 0, 7, 7).expect("a snapshot");
    assert_eq!(last.turn, 2);
    assert_eq!(last.opponent_moves, vec!["down".to_owned()]);
    let whole = build_snapshot(&trace(), 10, 7, 7).expect("a snapshot");
    assert_eq!(whole.turn, 0);
    assert_eq!(whole.opponent_moves.len(), 3);
    let lone = build_snapshot(&[frame(4, 1, Direction::Right, false)], 1, 7, 7).expect("a snapshot");
    assert!(lone.opponent_body.is_empty());
    assert_eq!(lone.opponent_health, 0);
}

fn saved() -> ArenaSnapshotFile {
    ArenaSnapshotFile {
        opponent_body: vec![p(5, 5), p(5, 6)],
        local_body: vec![p(1, 1)],
        foods: vec![p(2, 2)],
        opponent_health: 40,
        local_health: 60,
        cols: 7,
        rows: 7,
        turn: 30,
        rng_seed: 99,
        opponent_moves: vec!["UP".to_owned(), " left ".to_owned(), "jump".to_owned(), "right".to_owned()],
    }
}

#[test]
fn snapshot_resumes_the_game() {
    let l = snapshot_state(saved(), 7, 7).expect("a matching board");
    assert_eq!(l.state.turn, 30);
    assert_eq!(l.state.seed, 99);
    assert_eq!(l.rng_seed, 99);
    assert_eq!(l.state.board.food, vec![p(2, 2)]);
    assert_eq!(l.state.board.snakes.len(), 2);
    assert_eq!(l.state.board.snakes[0].id.0, "s1");
    assert_eq!(l.state.board.snakes[0].name, "local");
    assert_eq!(l.state.board.snakes[0].health, 60);
    assert_eq!(l.state.board.snakes[1].id.0, "s2");
    assert_eq!(l.state.board.snakes[1].body.iter().copied().collect::<Vec<_>>(), vec![p(5, 5), p(5, 6)]);
    assert_eq!(l.opponent_moves, vec![Direction::Up, Direction::Left, Direction::Right]);
}

#[test]
fn snapshot_of_another_board_is_refused() {
    let e = snapshot_state(saved(), 11, 7).err().expect("a mismatch");
    assert_eq!(e, SnapshotError::BoardMismatch { snapshot_cols: 7, snapshot_rows: 7, width: 11, height: 7 });
}

#[test]
fn command_line_quoting() {
    assert_eq!(quote_for_cli("data/a b.json"), "\"data/a b.json\"");
    assert_eq!(quote_for_cli("data/ab.json"), "data/ab.json");
    assert_eq!(quote_for_cli(""), "");
}

#[test]
fn built_snapshot_resumes_at_its_frame() {
    let t = trace();
    let s = build_snapshot(&t, 2, 7, 7).expect("a snapshot");
    let l = snapshot_state(s, 7, 7).expect("a matching board");
    assert_eq!(l.state.turn, 1);
    assert_eq!(l.rng_seed, 12);
    assert_eq!(l.state.board.food, t[1].state.board.food);
    assert_eq!(l.state.board.snakes[0].body, t[1].state.board.snakes[0].body);
    assert_eq!(l.state.board.snakes[1].body, t[1].state.board.snakes[1].body);
    assert_eq!(l.opponent_moves, vec![Direction::Left, Direction::Down]);
}
