use strongsnake::bitboard::{BitBoard, SearchContext};
use strongsnake::direction::Direction;
use strongsnake::grid::{Grid, EMPTY, FOOD, MY_BODY, ENEMY_BODY, OFF_BOARD};
use strongsnake::model::{FastBody, SearchBuffers, AgentState};
use strongsnake::types::Point;
use strongsnake::floodfill::flood_fill;
use strongsnake::voronoi::compute_voronoi;

fn p(x: i32, y: i32) -> Point {
    Point { x, y }
}

#[test]
fn bitboard_set_get_count() {
    let mut b = BitBoard::empty();
    assert!(b.is_empty());
    assert!(!b.any());
    b.set(0);
    b.set(63);
    b.set(64);
    b.set(447);
    assert_eq!(b.count_ones(), 4);
    assert!(b.get(63) && b.get(64) && b.get(447));
    assert!(!b.get(1));
    b.unset(63);
    assert_eq!(b.count_ones(), 3);
    assert_eq!(b.tzcnt(), 0);
}

#[test]
fn bitboard_pop_first_in_order() {
    let mut b = BitBoard::with_bit(200);
    b.set(5);
    b.set(130);
    assert_eq!(b.pop_first(), Some(5));
    assert_eq!(b.pop_first(), Some(130));
    assert_eq!(b.pop_first(), Some(200));
    assert_eq!(b.pop_first(), None);
    assert_eq!(b.tzcnt(), 448);
}

#[test]
fn bitboard_ops_and_shifts() {
    let a = BitBoard::with_bit(10);
    let b = BitBoard::with_bit(70);
    let u = a.bitor(b);
    assert_eq!(u.count_ones(), 2);
    assert_eq!(u.bitand(a).count_ones(), 1);
    assert_eq!(u.bitxor(a).count_ones(), 1);
    assert!(u.bitxor(a).get(70));
    assert_eq!(a.not().count_ones(), 447);
    let s = a.shl(60);
    assert!(s.get(70));
    assert!(s.shr(65).get(5));
    assert!(BitBoard::with_bit(447).shl(1).is_empty());
}

#[test]
fn search_context_neighbors_stay_on_board() {
    let ctx = SearchContext::new(3, 3);
    // The centre cell (1,1) has index 4; its neighbours are 1, 3, 5 and 7.
    let n = ctx.expand_neighbors(BitBoard::with_bit(4));
    assert_eq!(n.count_ones(), 4);
    for i in [1usize, 3, 5, 7] {
        assert!(n.get(i));
    }
    // The corner (2,0) has index 2: neighbours 1 and 5 only; no wrap to the next row.
    let c = ctx.expand_neighbors(BitBoard::with_bit(2));
    assert_eq!(c.count_ones(), 2);
    assert!(c.get(1) && c.get(5));
    assert!(!c.get(3));
}

#[test]
fn fast_body_ring_operations() {
    let mut b = FastBody::from_points(vec![p(1, 1), p(1, 0), p(0, 0)]);
    assert_eq!(b.len(), 3);
    assert_eq!(b.head(), p(1, 1));
    assert_eq!(b.last(), p(0, 0));
    b.push_front(p(1, 2));
    assert_eq!(b.head(), p(1, 2));
    assert_eq!(b.pop_back(), p(0, 0));
    assert_eq!(b.iter(), vec![p(1, 2), p(1, 1), p(1, 0)]);
    b.pop_front();
    b.push_back(p(2, 0));
    assert_eq!(b.iter(), vec![p(1, 1), p(1, 0), p(2, 0)]);
    assert!(!b.is_empty());
}

#[test]
fn search_buffers_generation_skips_zero() {
    let mut buf = SearchBuffers::new(121);
    assert_eq!(buf.next_gen(), 1);
    buf.current_gen = u16::MAX;
    assert_eq!(buf.next_gen(), 1);
}

#[test]
fn grid_from_state_layers() {
    let me = FastBody::from_points(vec![p(1, 1), p(1, 0)]);
    let en = FastBody::from_points(vec![p(3, 3), p(3, 2)]);
    let g = Grid::from_state(5, 5, &[p(0, 4), p(9, 9)], &me, &en);
    assert_eq!(g.get(1, 1), MY_BODY);
    assert_eq!(g.get(3, 2), ENEMY_BODY);
    assert_eq!(g.get(0, 4), FOOD);
    assert_eq!(g.get(2, 2), EMPTY);
    assert_eq!(g.get(-1, 0), OFF_BOARD);
    assert_eq!(g.get(5, 0), OFF_BOARD);
    assert!(g.is_safe(2, 2));
    assert!(!g.is_safe(1, 0));
    assert_eq!(g.idx(2, 3), 17);
}

#[test]
fn grid_set_overwrites_layers() {
    let mut g = Grid::new(4, 4);
    g.set(1, 2, FOOD);
    assert_eq!(g.get(1, 2), FOOD);
    g.set(1, 2, ENEMY_BODY);
    assert_eq!(g.get(1, 2), ENEMY_BODY);
    g.set(1, 2, EMPTY);
    assert_eq!(g.get(1, 2), EMPTY);
    assert_eq!(g.occupied().count_ones(), 0);
    assert_eq!(g.safe_cells().count_ones(), 16);
}

#[test]
fn flood_fill_open_board_counts_every_cell() {
    let me = FastBody::from_points(vec![]);
    let en = FastBody::from_points(vec![]);
    let g = Grid::from_state(4, 3, &[], &me, &en);
    let mut buf = SearchBuffers::new(12);
    let r = flood_fill(&g, 0, 0, 100, None, None, &mut buf);
    assert_eq!(r.count, 12);
    assert_eq!(r.min_turns_to_clear, i32::MAX);
    assert!(!r.has_food);
}

#[test]
fn flood_fill_depth_limit_and_off_board_start() {
    let me = FastBody::from_points(vec![]);
    let en = FastBody::from_points(vec![]);
    let g = Grid::from_state(5, 5, &[], &me, &en);
    let mut buf = SearchBuffers::new(25);
    // One layer from the centre reaches the start and its four neighbours.
    let r = flood_fill(&g, 2, 2, 1, None, None, &mut buf);
    assert_eq!(r.count, 5);
    let r0 = flood_fill(&g, 2, 2, 0, None, None, &mut buf);
    assert_eq!(r0.count, 1);
    let off = flood_fill(&g, 5, 0, 10, None, None, &mut buf);
    assert_eq!(off.count, 0);
    assert_eq!(off.min_turns_to_clear, i32::MAX);
}

#[test]
fn flood_fill_records_clearing_time_and_food() {
    // A 3x1 corridor: me at x=0 (head) with a body segment at x=1 blocking the way to x=2.
    let me = FastBody::from_points(vec![p(0, 0), p(1, 0)]);
    let en = FastBody::from_points(vec![]);
    let g = Grid::from_state(3, 1, &[p(2, 0)], &me, &en);
    let mut buf = SearchBuffers::new(3);
    // Start from the free cell x=2 (food): x=1 is my tail, which leaves after 1 turn.
    let r = flood_fill(&g, 2, 0, 5, Some(&me), None, &mut buf);
    assert_eq!(r.count, 1);
    assert_eq!(r.min_turns_to_clear, 1);
    assert!(r.has_food);
}

#[test]
fn voronoi_splits_a_corridor() {
    // A 5x1 corridor with heads at both ends: each reaches one cell first, the middle is tied.
    let me = FastBody::from_points(vec![p(0, 0)]);
    let en = FastBody::from_points(vec![p(4, 0)]);
    let g = Grid::from_state(5, 1, &[], &me, &en);
    let mut buf = SearchBuffers::new(5);
    let v = compute_voronoi(&g, p(0, 0), p(4, 0), &mut buf);
    assert_eq!(v.my_count, 1);
    assert_eq!(v.enemy_count, 1);
}

#[test]
fn voronoi_open_board_is_symmetric() {
    let me = FastBody::from_points(vec![p(0, 0)]);
    let en = FastBody::from_points(vec![p(3, 3)]);
    let g = Grid::from_state(4, 4, &[], &me, &en);
    let mut buf = SearchBuffers::new(16);
    let v = compute_voronoi(&g, p(0, 0), p(3, 3), &mut buf);
    assert_eq!(v.my_count, v.enemy_count);
    assert_eq!(v.my_count, 5);
}

#[test]
fn agent_state_holds_body_and_health() {
    let a = AgentState { body: FastBody::from_points(vec![p(0, 0)]), health: 42 };
    assert_eq!(a.health, 42);
    assert_eq!(a.body.len(), 1);
    assert_eq!(Direction::Left.index(), 2);
}

#[test]
fn draining_a_set_yields_each_member_once_in_order() {
    let mut b = BitBoard::empty();
    for i in [447usize, 3, 64, 63, 200, 0] {
        b.set(i);
    }
    let start = b.count_ones();
    let mut popped = Vec::new();
    while let Some(i) = b.pop_first() {
        popped.push(i);
        assert_eq!(b.count_ones() as usize + popped.len(), start as usize);
    }
    assert_eq!(popped, vec![0, 3, 63, 64, 200, 447]);
    assert!(b.is_empty());
    assert_eq!(b.pop_first(), None);
}

#[test]
fn voronoi_from_the_other_head_swaps_the_counts() {
    let me = FastBody::from_points(vec![p(1, 0), p(0, 0)]);
    let en = FastBody::from_points(vec![p(4, 3)]);
    let g = Grid::from_state(6, 4, &[], &me, &en);
    let mut buf = SearchBuffers::new(24);
    let a = compute_voronoi(&g, p(1, 0), p(4, 3), &mut buf);
    let b = compute_voronoi(&g, p(4, 3), p(1, 0), &mut buf);
    assert_eq!(a.my_count, b.enemy_count);
    assert_eq!(a.enemy_count, b.my_count);
    assert!(a.my_count + a.enemy_count <= 21);
}
