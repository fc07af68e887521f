use strongsnake::direction::Direction;
use strongsnake::sfen::{SnakeFen, SnakeFenError, rle_encode, rle_decode, encode_body, decode_body, encode_foods, decode_foods, encode_moves, decode_moves};
use strongsnake::types::Point;

fn p(x: i32, y: i32) -> Point {
    Point { x, y }
}

fn chars(s: &str) -> Vec<char> {
    s.chars().collect()
}

fn text(v: &[char]) -> String {
    v.iter().collect()
}

#[test]
fn rle_round_trip() {
    assert_eq!(text(&rle_encode(&chars("UUUDLLR"))), "3UD2LR");
    assert_eq!(text(&rle_encode(&chars(""))), "");
    assert_eq!(text(&rle_decode(&chars("3UD2LR")).unwrap()), "UUUDLLR");
    assert_eq!(text(&rle_decode(&chars("12S")).unwrap()), "SSSSSSSSSSSS");
}

#[test]
fn rle_rejects_bad_counts() {
    assert_eq!(rle_decode(&chars("0U")), Err(SnakeFenError::InvalidRle("0U".to_owned())));
    assert_eq!(rle_decode(&chars("U3")), Err(SnakeFenError::InvalidRle("U3".to_owned())));
}

#[test]
fn body_encoding() {
    let body = vec![p(3, 4), p(3, 3), p(3, 2), p(4, 2), p(4, 2)];
    assert_eq!(text(&encode_body(&body)), "3,4:2DRS");
    assert_eq!(decode_body(&chars("3,4:2DRS")).unwrap(), body);
    assert_eq!(text(&encode_body(&[])), "-");
    assert_eq!(decode_body(&chars("-")).unwrap(), vec![]);
    assert_eq!(text(&encode_body(&[p(-1, 0)])), "-1,0");
    assert_eq!(decode_body(&chars("1;2")), Err(SnakeFenError::InvalidBody("1;2".to_owned())));
    assert_eq!(decode_body(&chars("1,2:Q")), Err(SnakeFenError::InvalidPathStep('Q')));
    assert_eq!(
        decode_body(&chars("a,2")),
        Err(SnakeFenError::InvalidNumber { field: "body_x", value: "a".to_owned() })
    );
}

#[test]
fn food_grid_encoding() {
    let foods = vec![p(0, 2), p(2, 0)];
    assert_eq!(text(&encode_foods(&foods, 3, 3)), "f2/3/2f");
    let decoded = decode_foods(&chars("f2/3/2f"), 3, 3).unwrap();
    assert_eq!(decoded, vec![p(0, 2), p(2, 0)]);
    assert_eq!(text(&encode_foods(&[], 3, 3)), "-");
    assert_eq!(decode_foods(&chars("f2/3"), 3, 3), Err(SnakeFenError::InvalidFoodGrid));
    assert_eq!(decode_foods(&chars("f1/3/3"), 3, 3), Err(SnakeFenError::InvalidFoodGrid));
    assert_eq!(decode_foods(&chars("0f2/3/3"), 3, 3), Err(SnakeFenError::InvalidFoodGrid));
}

#[test]
fn moves_encoding() {
    let m = vec![Direction::Up, Direction::Up, Direction::Left];
    assert_eq!(text(&encode_moves(&m)), "2UL");
    assert_eq!(decode_moves(&chars("2UL")).unwrap(), m);
    assert_eq!(text(&encode_moves(&[])), "-");
    assert_eq!(decode_moves(&chars("UX")), Err(SnakeFenError::InvalidMove('X')));
}

#[test]
fn parse_full_position() {
    let f = SnakeFen::parse("sfen 3x3 5:9:80:70 0,0:U 2,2:D f2/3/2f UL").unwrap();
    assert_eq!(f.cols, 3);
    assert_eq!(f.rows, 3);
    assert_eq!(f.turn, 5);
    assert_eq!(f.seed, 9);
    assert_eq!(f.p_health, 80);
    assert_eq!(f.a_health, 70);
    assert_eq!(f.p_body, vec![p(0, 0), p(0, 1)]);
    assert_eq!(f.a_body, vec![p(2, 2), p(2, 1)]);
    assert_eq!(f.foods, vec![p(0, 2), p(2, 0)]);
    assert_eq!(f.opponent_moves, vec![Direction::Up, Direction::Left]);
    assert_eq!(f.to_sfen_string(), "sfen 3x3 5:9:80:70 0,0:U 2,2:D f2/3/2f UL");
}

#[test]
fn parse_without_prefix_and_round_trip() {
    let f = SnakeFen::parse("  11x11 0:1:100:100 5,5:2D 1,1 - -  ").unwrap();
    assert_eq!(f.p_body.len(), 3);
    let again = SnakeFen::parse(&f.to_sfen_string()).unwrap();
    assert_eq!(again, f);
}

#[test]
fn parse_errors() {
    assert_eq!(SnakeFen::parse("   "), Err(SnakeFenError::EmptyInput));
    assert_eq!(SnakeFen::parse("sfen 3x3 1:1:1:1"), Err(SnakeFenError::BadFieldCount(2)));
    assert_eq!(SnakeFen::parse("a b c"), Err(SnakeFenError::BadFieldCount(3)));
    assert_eq!(SnakeFen::parse("3-3 0:0:1:1 - - - -"), Err(SnakeFenError::InvalidDims("3-3".to_owned())));
    assert_eq!(SnakeFen::parse("0x3 0:0:1:1 - - - -"), Err(SnakeFenError::InvalidBoardSize(0, 3)));
    assert_eq!(SnakeFen::parse("3x3 0:0:1 - - - -"), Err(SnakeFenError::InvalidMeta("0:0:1".to_owned())));
    assert_eq!(
        SnakeFen::parse("3x3 x:0:1:1 - - - -"),
        Err(SnakeFenError::InvalidNumber { field: "turn", value: "x".to_owned() })
    );
}

#[test]
fn into_game_state_names_both_snakes() {
    let f = SnakeFen::parse("SFEN 4x4 2:3:90:80 0,0 3,3 - -").unwrap();
    let g = f.into_game_state();
    assert_eq!(g.turn, 2);
    assert_eq!(g.seed, 3);
    assert_eq!(g.board.width, 4);
    assert_eq!(g.board.snakes.len(), 2);
    assert_eq!(g.board.snakes[0].id.0, "s1");
    assert_eq!(g.board.snakes[0].name, "Player");
    assert_eq!(g.board.snakes[1].id.0, "s2");
    assert_eq!(g.board.snakes[1].name, "AI");
    assert_eq!(g.board.snakes[1].health, 80);
}

#[test]
fn written_position_reads_back_with_board_food() {
    let f = SnakeFen {
        cols: 4,
        rows: 3,
        turn: 4294967295,
        seed: 7,
        p_health: -5,
        a_health: 2147483647,
        p_body: vec![p(1, 1), p(1, 1), p(2, 1), p(2, 2)],
        a_body: vec![p(-3, 0)],
        foods: vec![p(0, 0), p(9, 9), p(3, 2), p(0, 0)],
        opponent_moves: vec![Direction::Down, Direction::Down, Direction::Down, Direction::Right],
    };
    let again = SnakeFen::parse(&f.to_sfen_string()).unwrap();
    let expected = SnakeFen { foods: vec![p(3, 2), p(0, 0)], ..f.clone() };
    assert_eq!(again, expected);
}

#[test]
fn rle_encoding_is_never_longer() {
    for s in ["", "U", "UD", "UUUUUUUUUUUU", "LRLRLR", "SSSD"] {
        let e = rle_encode(&chars(s));
        assert!(e.len() <= s.len());
        assert_eq!(text(&rle_decode(&e).unwrap()), s);
    }
}

#[test]
fn a_body_with_a_jump_reads_back_as_a_bad_step() {
    let body = vec![p(1, 1), p(3, 1), p(3, 2)];
    let e = encode_body(&body);
    assert_eq!(decode_body(&e), Err(SnakeFenError::InvalidPathStep('X')));
}

#[test]
fn position_with_food_in_board_order_reads_back_exactly() {
    let f = SnakeFen {
        cols: 5,
        rows: 4,
        turn: 12,
        seed: 99,
        p_health: 80,
        a_health: 61,
        p_body: vec![p(0, 3), p(0, 2), p(1, 2)],
        a_body: vec![p(4, 0), p(4, 1)],
        foods: vec![p(1, 3), p(4, 3), p(2, 1), p(0, 0), p(3, 0)],
        opponent_moves: vec![Direction::Left],
    };
    assert_eq!(SnakeFen::parse(&f.to_sfen_string()).unwrap(), f);
    assert_eq!(decode_foods(&encode_foods(&f.foods, 5, 4), 5, 4).unwrap(), f.foods);
}
