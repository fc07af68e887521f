use strongsnake::api::{ApiFlavor, normalize_api_type, normalize_move_name, invert_y};
use strongsnake::arena::{ArenaFindMode, ArenaAccumulator, parse_arena_find_modes, turn_bin_index, length_bin_index, format_death_row};
use strongsnake::direction::Direction;
use strongsnake::matches::{DeathReasonCounts, MatchDeathSummary, MatchResult, OpponentTarget, format_opponent_roster, resolve_opponent_target,
    build_playground_state, match_winner, resolve_match_snake_indices, build_intents};
use strongsnake::regression::{RegressionOutput, parse_depths, concise_expectation, default_scenario_dir, tally_depth, DepthResult, RegressionSummary};
use strongsnake::scenario::Expectation;
use strongsnake::types::{Board, GameState, Point, Snake};

fn result(winner: &str, turns: u32, local_length: usize, seed: u32) -> MatchResult {
    MatchResult {
        seed,
        turns,
        winner: winner.to_owned(),
        local_length,
        opp_length: 3,
        death: MatchDeathSummary::default(),
        local_died: winner != "local",
    }
}

#[test]
fn api_names() {
    assert_eq!(normalize_api_type(None), ApiFlavor::Legacy);
    assert_eq!(normalize_api_type(Some("  Standard ")), ApiFlavor::Standard);
    assert_eq!(normalize_api_type(Some("AUTO")), ApiFlavor::Auto);
    assert_eq!(normalize_api_type(Some("other")), ApiFlavor::Legacy);
    assert_eq!(normalize_move_name(" Left"), Some(Direction::Left));
    assert_eq!(normalize_move_name("north"), None);
    assert_eq!(invert_y(0, 11), 10);
}

#[test]
fn death_counts_record_by_reason() {
    let mut c = DeathReasonCounts::default();
    c.record("Wall");
    c.record("Wall");
    c.record("Head");
    c.record("Unknown");
    assert_eq!(c, DeathReasonCounts { starvation: 0, wall: 2, body: 0, head: 1 });
    assert_eq!(format_death_row(&c), "starvation=0 wall=2 body=0 head=1");
}

#[test]
fn winners() {
    assert_eq!(match_winner(true, false, 3, 9), "local");
    assert_eq!(match_winner(false, true, 9, 3), "opponent");
    assert_eq!(match_winner(true, true, 5, 4), "local");
    assert_eq!(match_winner(true, true, 4, 5), "opponent");
    assert_eq!(match_winner(true, true, 4, 4), "draw");
    assert_eq!(match_winner(false, false, 4, 1), "draw");
}

#[test]
fn opponent_roster_table() {
    let t = format_opponent_roster();
    let expected = "Available opponents:\n\
Name          API       URL\n\
------------  --------  ----------------------------------------\n\
local-old     standard  http://localhost:9000\n\
shapeshifter  standard  http://localhost:8080\n\
snek-two      legacy    http://localhost:7000\n";
    assert_eq!(t, expected);
}

#[test]
fn opponent_targets() {
    assert_eq!(resolve_opponent_target("local-old", true, ApiFlavor::Auto), OpponentTarget::Local);
    assert_eq!(
        resolve_opponent_target("http://x:1", false, ApiFlavor::Legacy),
        OpponentTarget::Http { url: "http://x:1".to_owned(), flavor: ApiFlavor::Legacy }
    );
    assert_eq!(resolve_opponent_target("LOCAL", false, ApiFlavor::Auto), OpponentTarget::Local);
    assert_eq!(
        resolve_opponent_target("snek-two", false, ApiFlavor::Auto),
        OpponentTarget::Http { url: "http://localhost:7000".to_owned(), flavor: ApiFlavor::Legacy }
    );
    assert_eq!(
        resolve_opponent_target("snek-two", false, ApiFlavor::Standard),
        OpponentTarget::Http { url: "http://localhost:7000".to_owned(), flavor: ApiFlavor::Standard }
    );
    assert_eq!(resolve_opponent_target("nobody", false, ApiFlavor::Auto), OpponentTarget::Local);
}

#[test]
fn playground_start_position() {
    let (s, _rng) = build_playground_state(11, 11, 7);
    assert_eq!(s.turn, 0);
    assert_eq!(s.seed, 7);
    assert_eq!(s.board.snakes.len(), 2);
    assert_eq!(s.board.snakes[0].body.iter().copied().collect::<Vec<_>>(), vec![Point { x: 2, y: 2 }, Point { x: 2, y: 1 }, Point { x: 2, y: 0 }]);
    assert_eq!(s.board.snakes[1].body.iter().copied().collect::<Vec<_>>(), vec![Point { x: 8, y: 8 }, Point { x: 8, y: 9 }, Point { x: 8, y: 10 }]);
    assert_eq!(s.board.food.len(), 3);
    let (again, _) = build_playground_state(11, 11, 7);
    assert_eq!(again.board.food, s.board.food);
}

#[test]
fn match_sides_follow_ids() {
    let st = GameState {
        turn: 0,
        seed: 0,
        board: Board {
            width: 5,
            height: 5,
            food: vec![],
            snakes: vec![
                Snake::new("x", "X", vec![Point { x: 0, y: 0 }], 100),
                Snake::new("s2", "B", vec![Point { x: 1, y: 0 }], 100),
                Snake::new("s1", "A", vec![Point { x: 2, y: 0 }], 100),
            ],
        },
    };
    assert_eq!(resolve_match_snake_indices(&st), (Some(2), Some(1)));
    let st2 = GameState { turn: 0, seed: 0, board: Board { width: 5, height: 5, food: vec![], snakes: vec![
        Snake::new("a", "A", vec![], 100),
        Snake::new("b", "B", vec![], 100),
    ] } };
    assert_eq!(resolve_match_snake_indices(&st2), (Some(0), Some(1)));
    assert_eq!(build_intents(3, Some(2), Some(0), Direction::Left, Direction::Down), vec![Direction::Down, Direction::Up, Direction::Left]);
}

#[test]
fn find_modes_parsing() {
    let (modes, invalid) = parse_arena_find_modes(&["st, LONGEST".to_owned(), "ss,,bogus".to_owned(), "shortest".to_owned()]);
    assert_eq!(modes, vec![ArenaFindMode::Shortest, ArenaFindMode::Longest, ArenaFindMode::ShortestSnake]);
    assert_eq!(invalid, vec!["bogus".to_owned()]);
    assert_eq!(ArenaFindMode::parse(" ls "), Some(ArenaFindMode::LongestSnake));
    assert_eq!(ArenaFindMode::LongestSnake.title(), "Longest Local Snake");
    assert_eq!(ArenaFindMode::ShortestSnake.slug(), "shortest-snake");
    let a = result("local", 50, 7, 1);
    let b = result("draw", 80, 4, 2);
    assert!(ArenaFindMode::Shortest.better(&a, &b));
    assert!(ArenaFindMode::LongestSnake.better(&a, &b));
    assert!(!ArenaFindMode::Longest.better(&a, &b));
    assert_eq!(ArenaFindMode::Longest.metric_label(&a), "50 turns");
    assert_eq!(ArenaFindMode::ShortestSnake.metric_label(&a), "7 local length");
}

#[test]
fn histogram_bins() {
    assert_eq!(turn_bin_index(0), 0);
    assert_eq!(turn_bin_index(100), 0);
    assert_eq!(turn_bin_index(101), 1);
    assert_eq!(turn_bin_index(1000), 9);
    assert_eq!(turn_bin_index(1001), 10);
    assert_eq!(length_bin_index(5), 0);
    assert_eq!(length_bin_index(6), 1);
    assert_eq!(length_bin_index(70), 13);
    assert_eq!(length_bin_index(71), 14);
}

#[test]
fn accumulator_tracks_totals_and_extremes() {
    let mut acc = ArenaAccumulator::new();
    acc.record_result(&result("local", 120, 10, 1));
    acc.record_result(&result("opponent", 30, 3, 2));
    acc.record_result(&result("draw", 120, 12, 3));
    assert_eq!((acc.wins_local, acc.wins_opponent, acc.draws), (1, 1, 1));
    assert_eq!(acc.total_turns, 270);
    assert_eq!(acc.total_local_length, 25);
    assert_eq!(acc.turn_bins[1], 2);
    assert_eq!(acc.turn_bins[0], 1);
    assert_eq!(acc.shortest_turn_game.unwrap().seed, 2);
    assert_eq!(acc.longest_turn_game.unwrap().seed, 1);
    assert_eq!(acc.longest_local_length_game.unwrap().length, 12);
    assert_eq!(acc.shortest_local_length_game.unwrap().length, 3);
}

#[test]
fn regression_output_levels() {
    assert_eq!(RegressionOutput::from_flags(false, false), RegressionOutput::Full);
    assert_eq!(RegressionOutput::from_flags(false, true), RegressionOutput::Summary);
    assert_eq!(RegressionOutput::from_flags(true, true), RegressionOutput::FailuresOnly);
    assert_eq!(RegressionOutput::from_flags(true, false), RegressionOutput::Silent);
    assert!(RegressionOutput::Summary.show_headers());
    assert!(!RegressionOutput::Summary.show_passes());
    assert!(RegressionOutput::FailuresOnly.show_fails());
    assert!(!RegressionOutput::Silent.show_fails());
}

#[test]
fn depth_lists() {
    assert_eq!(parse_depths("6"), vec![6]);
    assert_eq!(parse_depths("4, 2,4,0"), vec![1, 2, 4]);
    assert_eq!(parse_depths("1-5:2"), vec![1, 3, 5]);
    assert_eq!(parse_depths("8-6"), vec![6, 7, 8]);
    assert_eq!(parse_depths("2-9/3,x,3-y"), vec![2, 5, 8]);
    assert_eq!(parse_depths(""), Vec::<usize>::new());
}

#[test]
fn expectation_text_and_dirs() {
    assert_eq!(concise_expectation(&Expectation::Exact { direction: Direction::Up }), "up");
    assert_eq!(concise_expectation(&Expectation::Avoid { directions: vec![Direction::Up, Direction::Left] }), "not up,left");
    assert_eq!(default_scenario_dir("/repo"), "/repo/data/scenarios");
    assert_eq!(default_scenario_dir("/repo/"), "/repo/data/scenarios");
    assert_eq!(default_scenario_dir(""), "data/scenarios");
}

#[test]
fn regression_summary_totals() {
    let mut s = RegressionSummary::new(4);
    s.add_depth(DepthResult { depth: 2, passed: 3, failed: 1, skipped: 0, duration_ns: 1_500_000, nodes: 10, nps: 0 });
    s.add_depth(DepthResult { depth: 4, passed: 2, failed: 2, skipped: 0, duration_ns: 500_000, nodes: 30, nps: 0 });
    s.total_up();
    assert_eq!((s.passed, s.failed, s.nodes), (5, 3, 40));
    assert_eq!(s.duration_ns, 2_000_000);
    assert_eq!(s.duration_display(), "2.000000ms");
    assert_eq!(s.by_depth[1].duration_display(), "0.500000ms");
}

#[test]
fn depth_tally_counts_and_averages() {
    let outcomes = vec![Some(Direction::Up), None, Some(Direction::Left), Some(Direction::Down)];
    let expectations = vec![
        Expectation::Exact { direction: Direction::Up },
        Expectation::Exact { direction: Direction::Up },
        Expectation::Avoid { directions: vec![Direction::Left] },
        Expectation::Avoid { directions: vec![Direction::Left] },
    ];
    let r = tally_depth(5, &outcomes, &expectations, 900, 31, 3);
    assert_eq!((r.depth, r.passed, r.failed, r.skipped), (5, 2, 1, 1));
    assert_eq!((r.duration_ns, r.nodes, r.nps), (300, 10, 0));
}

#[test]
fn a_run_counts_every_game_once_and_keeps_the_first_extremes() {
    let games = vec![
        result("draw", 50, 4, 11),
        result("local", 30, 5, 12),
        result("opponent", 300, 6, 13),
        result("local", 30, 7, 14),
        result("tie", 300, 8, 15),
    ];
    let mut acc = ArenaAccumulator::new();
    for g in &games {
        acc.record_result(g);
    }
    assert_eq!(acc.wins_local, 2);
    assert_eq!(acc.wins_opponent, 1);
    assert_eq!(acc.draws, 2);
    assert_eq!(acc.wins_local + acc.wins_opponent + acc.draws, games.len());
    assert_eq!(acc.turn_bins.iter().sum::<usize>(), games.len());
    assert_eq!(acc.total_turns, 710);
    assert_eq!(acc.shortest_turn_game.unwrap().seed, 12);
    assert_eq!(acc.longest_turn_game.unwrap().seed, 13);
}
