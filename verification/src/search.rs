use vstd::prelude::*;
use crate::direction::{Direction, spec_index, spec_vector};
use crate::types::Point;
use crate::grid::{Grid, GridModel, xy_in, EMPTY, FOOD, MY_BODY, ENEMY_BODY};
use crate::model::{AgentState, SearchBuffers};
use crate::zobrist::{Zobrist, cell_key, health_key};
use crate::heuristics::{ScoreWeights, FoodCurve, Evaluation, evaluate, leaf_score, leaf_value, eval_spec, eval_model,
    weights_bounded, lemma_eval_bounded, lemma_evaluate_restores_grid};
use crate::tt::{TranspositionTable, TtFlag, TtEntry, lookup, dir_of_byte, replaces, written_entry};

verus! {

/// Capacity of a principal variation line.
pub const PV_CAPACITY: usize = 64;

/// The expected line of play from a search, first move first.
#[derive(Debug, Clone)]
pub struct PvLine {
    pub moves: [Direction; 64],
    pub len: usize,
}

impl PvLine {
    /// The moves of the line.
    pub open spec fn line(&self) -> Seq<Direction> {
        self.moves@.subrange(0, self.len as int)
    }

    /// An empty line, its unused slots holding `Up`.
    pub fn new() -> (p: Self)
        ensures
            p.len == 0,
            p.line() == Seq::<Direction>::empty(),
            forall|i: int| 0 <= i < 64 ==> #[trigger] p.moves@[i] == Direction::Up,
    {
        PvLine { moves: [Direction::Up; 64], len: 0 }
    }

    /// Appends `dir` unless the line is full (64 moves).
    pub fn push(&mut self, dir: Direction)
        requires
            old(self).len <= 64,
        ensures
            final(self).len <= 64,
            final(self).len == if old(self).len < 64 { old(self).len + 1 } else { old(self).len as int },
            old(self).len < 64 ==> final(self).line() == old(self).line().push(dir),
            old(self).len == 64 ==> final(self).line() == old(self).line(),
    {
        if self.len < 64 {
            self.moves[self.len] = dir;
            self.len += 1;
            assert(self.line() =~= old(self).line().push(dir));
        }
    }
}

/// A move candidate: target cell, direction and table index of the direction.
#[derive(Debug, Clone, Copy)]
pub struct SearchMove {
    pub x: i32,
    pub y: i32,
    pub dir: Direction,
    pub dir_int: usize,
}

impl Default for SearchMove {
    fn default() -> (m: Self)
        ensures
            m.x == 0 && m.y == 0 && m.dir == Direction::Up && m.dir_int == 0,
    {
        SearchMove { x: 0, y: 0, dir: Direction::Up, dir_int: 0 }
    }
}

/// How one root move scored.
#[derive(Debug, Clone)]
pub struct RootChildRecord {
    pub mv: SearchMove,
    pub raw_recursion_score: i32,
    pub collision_penalty: i32,
    pub ate: bool,
    pub modified_score: i32,
}

/// The result of searching one node.
#[derive(Clone)]
pub struct SearchResult {
    pub score: i32,
    pub mv: Option<SearchMove>,
    pub children: Vec<RootChildRecord>,
    pub pv: PvLine,
    pub trace: Ghost<SearchTrace>,
}

/// The per-node search window and position data.
#[derive(Debug, Clone, Copy)]
pub struct SearchFrame<'a> {
    pub dist_map: Option<&'a [i16]>,
    pub depth: usize,
    pub alpha: i32,
    pub beta: i32,
    pub side: usize,
    pub current_hash: u64,
    pub q_depth: usize,
}

/// Up to four move candidates.
pub struct MoveList {
    moves: [SearchMove; 4],
    count: usize,
}

impl MoveList {
    /// The candidates, in insertion order.
    pub closed spec fn items(&self) -> Seq<SearchMove> {
        self.moves@.subrange(0, self.count as int)
    }

    /// The list never holds more than four moves.
    pub closed spec fn wf(&self) -> bool {
        self.count <= 4
    }

    /// An empty list.
    pub fn new() -> (l: Self)
        ensures
            l.wf(),
            l.items() == Seq::<SearchMove>::empty(),
    {
        let l = MoveList { moves: [SearchMove { x: 0, y: 0, dir: Direction::Up, dir_int: 0 }; 4], count: 0 };
        assert(l.items() =~= Seq::<SearchMove>::empty());
        l
    }

    /// Appends a candidate.
    pub fn push(&mut self, m: SearchMove)
        requires
            old(self).wf(),
            old(self).items().len() < 4,
        ensures
            final(self).wf(),
            final(self).items() == old(self).items().push(m),
    {
        self.moves[self.count] = m;
        self.count += 1;
        assert(self.items() =~= old(self).items().push(m));
    }

    /// The number of candidates.
    pub fn count(&self) -> (n: usize)
        requires
            self.wf(),
        ensures
            n == self.items().len(),
    {
        self.count
    }

    /// The candidates as a vector.
    pub fn as_mut_slice(&mut self) -> (v: Vec<SearchMove>)
        requires
            old(self).wf(),
        ensures
            v@ == old(self).items(),
            *final(self) == *old(self),
    {
        let mut v: Vec<SearchMove> = Vec::new();
        let mut i: usize = 0;
        while i < self.count
            invariant
                self.wf(),
                i <= self.count,
                v@ == self.items().subrange(0, i as int),
            decreases self.count - i,
        {
            v.push(self.moves[i]);
            i += 1;
            assert(v@ =~= self.items().subrange(0, i as int));
        }
        assert(v@ =~= self.items());
        v
    }
}

/// Coordinates small enough that the move arithmetic cannot overflow.
pub open spec fn coord_ok(p: Point) -> bool {
    -0x100000 <= p.x <= 0x100000 && -0x100000 <= p.y <= 0x100000
}

/// Whether cell `(x, y)` is on the board and holds no snake segment.
pub open spec fn unoccupied(g: Grid, x: int, y: int) -> bool {
    xy_in(g.width as int, g.height as int, x, y) && !g.my_body@[g.index_of(x, y)] && !g.enemy_body@[g.index_of(x, y)]
}

/// Whether the opponent's head or one of its four neighbours holds food.
pub open spec fn can_eat_next(g: Grid, eh: Point) -> bool {
    exists|d: (int, int)| #![trigger food_at(g, eh.x + d.0, eh.y + d.1)]
        (d == (0int, 0int) || d == (0int, 1int) || d == (0int, -1int) || d == (-1int, 0int) || d == (1int, 0int))
        && food_at(g, eh.x + d.0, eh.y + d.1)
}

/// Whether cell `(x, y)` is on the board and holds food.
pub open spec fn food_at(g: Grid, x: int, y: int) -> bool {
    xy_in(g.width as int, g.height as int, x, y) && g.food@[g.index_of(x, y)]
}

/// Whether a body's tail will move away next turn (its last two segments differ).
pub open spec fn tail_leaves(body: Seq<Point>) -> bool {
    body.len() > 1 && body[body.len() - 1] != body[body.len() - 2]
}

/// Whether moving `me`'s head one step in `d` is considered safe: the target is empty, or it is
/// `me`'s own tail that will move away, or the opponent's tail that will move away when the
/// opponent cannot eat next turn.
pub open spec fn move_safe(g: Grid, me: Seq<Point>, enemy: Seq<Point>, d: Direction) -> bool {
    let nx = me[0].x + spec_vector(d).0;
    let ny = me[0].y + spec_vector(d).1;
    ||| unoccupied(g, nx, ny)
    ||| (tail_leaves(me) && nx == me[me.len() - 1].x && ny == me[me.len() - 1].y)
    ||| (tail_leaves(enemy) && nx == enemy[enemy.len() - 1].x && ny == enemy[enemy.len() - 1].y
        && !(enemy.len() > 1 && can_eat_next(g, enemy[0])))
}

/// The candidate for moving `me`'s head in `d`.
pub open spec fn candidate(me: Seq<Point>, d: Direction) -> SearchMove {
    SearchMove {
        x: (me[0].x + spec_vector(d).0) as i32,
        y: (me[0].y + spec_vector(d).1) as i32,
        dir: d,
        dir_int: spec_index(d) as usize,
    }
}

/// The safe candidates among Up, Down, Left, Right, in that order.
pub open spec fn safe_moves(g: Grid, me: Seq<Point>, enemy: Seq<Point>) -> Seq<SearchMove> {
    if me.len() == 0 {
        Seq::empty()
    } else {
        seq![Direction::Up, Direction::Down, Direction::Left, Direction::Right]
            .filter(|d: Direction| move_safe(g, me, enemy, d))
            .map_values(|d: Direction| candidate(me, d))
    }
}


/// Whether cell `(x, y)` is on the board and holds food.
fn has_food_at(grid: &Grid, x: i32, y: i32) -> (r: bool)
    requires
        grid.wf(),
    ensures
        r == food_at(*grid, x as int, y as int),
{
    if x >= 0 && y >= 0 && x < grid.width && y < grid.height {
        let idx = grid.idx(x, y);
        grid.food.get(idx)
    } else {
        false
    }
}

/// Whether moving to `(nx, ny)` is safe given the tail facts computed once per node.
fn target_safe(
    grid: &Grid,
    nx: i32,
    ny: i32,
    my_tail: Option<Point>,
    my_tail_stacked: bool,
    opp_tail: Option<Point>,
    opp_tail_stacked: bool,
    enemy_can_eat: bool,
) -> (r: bool)
    requires
        grid.wf(),
    ensures
        r == (unoccupied(*grid, nx as int, ny as int)
            || (my_tail matches Some(t) && !my_tail_stacked && nx == t.x && ny == t.y)
            || (opp_tail matches Some(t) && !opp_tail_stacked && !enemy_can_eat && nx == t.x && ny == t.y)),
{
    let mut is_safe = false;
    if nx >= 0 && ny >= 0 && nx < grid.width && ny < grid.height {
        let idx = grid.idx(nx, ny);
        let occ = grid.occupied();
        is_safe = !occ.get(idx);
    }
    if !is_safe {
        if let Some(t) = my_tail {
            if nx == t.x && ny == t.y && !my_tail_stacked {
                is_safe = true;
            }
        }
        if !is_safe {
            if let Some(t) = opp_tail {
                if nx == t.x && ny == t.y && !opp_tail_stacked && !enemy_can_eat {
                    is_safe = true;
                }
            }
        }
    }
    is_safe
}

/// The safe moves for `me` (see `move_safe`), in the order Up, Down, Left, Right.
pub fn get_safe_neighbors(grid: &Grid, me: &AgentState, enemy: &AgentState) -> (list: MoveList)
    requires
        grid.wf(),
        me.body.wf(),
        enemy.body.wf(),
        me.body@.len() > 0 ==> coord_ok(me.body@[0]),
        enemy.body@.len() > 1 ==> coord_ok(enemy.body@[0]),
    ensures
        list.wf(),
        list.items() == safe_moves(*grid, me.body@, enemy.body@),
{
    let mut list = MoveList::new();
    let my_body = &me.body;
    if my_body.is_empty() {
        return list;
    }
    let opp_body = &enemy.body;
    let head = my_body.head();
    let mut my_tail: Option<Point> = None;
    let mut my_tail_stacked = false;
    if my_body.len() > 1 {
        let tail = my_body.last();
        let prev = my_body.get(my_body.len() - 2);
        my_tail = Some(tail);
        my_tail_stacked = tail.x == prev.x && tail.y == prev.y;
    }
    let mut opp_tail: Option<Point> = None;
    let mut opp_tail_stacked = false;
    let mut enemy_can_eat = false;
    if opp_body.len() > 1 {
        let tail = opp_body.last();
        let prev = opp_body.get(opp_body.len() - 2);
        opp_tail = Some(tail);
        opp_tail_stacked = tail.x == prev.x && tail.y == prev.y;
        let eh = opp_body.head();
        enemy_can_eat = has_food_at(grid, eh.x, eh.y) || has_food_at(grid, eh.x, eh.y + 1)
            || has_food_at(grid, eh.x, eh.y - 1) || has_food_at(grid, eh.x - 1, eh.y)
            || has_food_at(grid, eh.x + 1, eh.y);
        proof {
            let g = *grid;
            if enemy_can_eat {
                if food_at(g, eh.x + 0, eh.y + 0) {
                    assert(food_at(g, eh.x + (0int, 0int).0, eh.y + (0int, 0int).1));
                } else if food_at(g, eh.x + 0, eh.y + 1) {
                    assert(food_at(g, eh.x + (0int, 1int).0, eh.y + (0int, 1int).1));
                } else if food_at(g, eh.x + 0, eh.y - 1) {
                    assert(food_at(g, eh.x + (0int, -1int).0, eh.y + (0int, -1int).1));
                } else if food_at(g, eh.x - 1, eh.y + 0) {
                    assert(food_at(g, eh.x + (-1int, 0int).0, eh.y + (-1int, 0int).1));
                } else {
                    assert(food_at(g, eh.x + (1int, 0int).0, eh.y + (1int, 0int).1));
                }
            }
            assert(enemy_can_eat == can_eat_next(g, opp_body@[0]));
        }
    }
    let ghost me_s = me.body@;
    let ghost en_s = enemy.body@;
    let ghost g = *grid;
    proof {
        assert(my_tail_stacked == (me_s.len() > 1 && me_s[me_s.len() - 1] == me_s[me_s.len() - 2]));
        assert(opp_tail_stacked == (en_s.len() > 1 && en_s[en_s.len() - 1] == en_s[en_s.len() - 2]));
    }
    let up = target_safe(grid, head.x, head.y + 1, my_tail, my_tail_stacked, opp_tail, opp_tail_stacked, enemy_can_eat);
    if up {
        list.push(SearchMove { x: head.x, y: head.y + 1, dir: Direction::Up, dir_int: 0 });
    }
    let down = target_safe(grid, head.x, head.y - 1, my_tail, my_tail_stacked, opp_tail, opp_tail_stacked, enemy_can_eat);
    if down {
        list.push(SearchMove { x: head.x, y: head.y - 1, dir: Direction::Down, dir_int: 1 });
    }
    let left = target_safe(grid, head.x - 1, head.y, my_tail, my_tail_stacked, opp_tail, opp_tail_stacked, enemy_can_eat);
    if left {
        list.push(SearchMove { x: head.x - 1, y: head.y, dir: Direction::Left, dir_int: 2 });
    }
    let right = target_safe(grid, head.x + 1, head.y, my_tail, my_tail_stacked, opp_tail, opp_tail_stacked, enemy_can_eat);
    if right {
        list.push(SearchMove { x: head.x + 1, y: head.y, dir: Direction::Right, dir_int: 3 });
    }
    proof {
        assert(up == move_safe(g, me_s, en_s, Direction::Up));
        assert(down == move_safe(g, me_s, en_s, Direction::Down));
        assert(left == move_safe(g, me_s, en_s, Direction::Left));
        assert(right == move_safe(g, me_s, en_s, Direction::Right));
        let pred = |d: Direction| move_safe(g, me_s, en_s, d);
        let dirs = seq![Direction::Up, Direction::Down, Direction::Left, Direction::Right];
        reveal_with_fuel(Seq::filter, 5);
        assert(dirs.drop_last() =~= seq![Direction::Up, Direction::Down, Direction::Left]);
        assert(dirs.drop_last().drop_last() =~= seq![Direction::Up, Direction::Down]);
        assert(dirs.drop_last().drop_last().drop_last() =~= seq![Direction::Up]);
        assert(dirs.drop_last().drop_last().drop_last().drop_last() =~= Seq::<Direction>::empty());
        assert(list.items() =~= dirs.filter(pred).map_values(|d: Direction| candidate(me_s, d)));
    }
    list
}


/// The Manhattan distance between two cells.
pub open spec fn manhattan_spec(ax: int, ay: int, bx: int, by: int) -> int {
    (if ax >= bx { ax - bx } else { bx - ax }) + (if ay >= by { ay - by } else { by - ay })
}

/// The Manhattan distance between two cells with small coordinates.
pub fn manhattan(a: Point, b: Point) -> (d: i32)
    requires
        coord_ok(a),
        coord_ok(b),
    ensures
        d == manhattan_spec(a.x as int, a.y as int, b.x as int, b.y as int),
{
    let dx = if a.x >= b.x { a.x - b.x } else { b.x - a.x };
    let dy = if a.y >= b.y { a.y - b.y } else { b.y - a.y };
    dx + dy
}

/// The root tie-break score of a move: +20 next to a shorter enemy head, -10000 next to a longer
/// one, -5000 next to an equal one; -5 for stepping onto the enemy tail; and, in a crowded race of
/// two long snakes (occupancy at least 40%), -10 per step of distance from our own tail.
pub open spec fn tie_break_spec(me: Seq<Point>, enemy: Seq<Point>, cols: int, rows: int, mv: SearchMove) -> int {
    if me.len() == 0 {
        0
    } else {
        let pen = if enemy.len() > 0 && mv.x == enemy[enemy.len() - 1].x && mv.y == enemy[enemy.len() - 1].y { 5int } else { 0int };
        let contact = if enemy.len() > 0 && manhattan_spec(mv.x as int, mv.y as int, enemy[0].x as int, enemy[0].y as int) == 1 {
            if me.len() > enemy.len() { 20int } else if me.len() < enemy.len() { -10000int } else { -5000int }
        } else {
            0int
        };
        let tail = if cols > 0 && rows > 0 && me.len() >= 20 && enemy.len() >= 20
            && (((me.len() + enemy.len()) * 100) as int) / (cols * rows) >= 40 {
            -(manhattan_spec(mv.x as int, mv.y as int, me[me.len() - 1].x as int, me[me.len() - 1].y as int) * 10)
        } else {
            0int
        };
        tail + contact - pen
    }
}

/// Scores a root move for breaking ties between equally valued moves.
pub fn root_tie_breaker(me: &AgentState, enemy: &AgentState, cols: i32, rows: i32, mv: SearchMove) -> (r: i32)
    requires
        me.body.wf(),
        enemy.body.wf(),
        coord_ok(Point { x: mv.x, y: mv.y }),
        me.body@.len() > 0 ==> coord_ok(me.body@[me.body@.len() - 1]),
        enemy.body@.len() > 0 ==> coord_ok(enemy.body@[0]) && coord_ok(enemy.body@[enemy.body@.len() - 1]),
        cols > 0 && rows > 0 ==> cols * rows <= i32::MAX,
    ensures
        r == tie_break_spec(me.body@, enemy.body@, cols as int, rows as int, mv),
{
    if me.body.is_empty() {
        return 0;
    }
    let my_len = me.body.len();
    let enemy_len = enemy.body.len();
    let target = Point { x: mv.x, y: mv.y };
    let mut move_into_enemy_tail_penalty: i32 = 0;
    if !enemy.body.is_empty() {
        let enemy_tail = enemy.body.last();
        if mv.x == enemy_tail.x && mv.y == enemy_tail.y {
            move_into_enemy_tail_penalty = 5;
        }
    }
    let mut head_contact_bias: i32 = 0;
    if !enemy.body.is_empty() {
        let enemy_head = enemy.body.head();
        let dist = manhattan(target, enemy_head);
        if dist == 1 {
            if my_len > enemy_len {
                head_contact_bias += 20;
            } else if my_len < enemy_len {
                head_contact_bias -= 10000;
            } else {
                head_contact_bias -= 5000;
            }
        }
    }
    let mut tail_bias: i32 = 0;
    if cols > 0 && rows > 0 && my_len >= 20 && enemy_len >= 20 {
        let total_len = my_len + enemy_len;
        let total_area = (cols * rows) as usize;
        proof {
            assert(cols * rows > 0) by (nonlinear_arith) requires cols > 0, rows > 0;
        }
        if (total_len * 100) / total_area >= 40 {
            let my_tail = me.body.last();
            let tail_dist = manhattan(target, my_tail);
            tail_bias = -(tail_dist * 10);
        }
    }
    tail_bias + head_contact_bias - move_into_enemy_tail_penalty
}

/// Whether both snakes have at least 20 segments, occupancy is at least `occupancy` percent, and
/// one side has at most two safe moves.
pub open spec fn extend_spec(g: Grid, me: Seq<Point>, en: Seq<Point>, occupancy: int) -> bool {
    me.len() >= 20 && en.len() >= 20
        && (((me.len() + en.len()) * 100) as int) / ((g.width * g.height) as int) >= occupancy
        && (safe_moves(g, me, en).len() <= 2 || safe_moves(g, en, me).len() <= 2)
}

/// Whether a leaf of a crowded race between two long snakes deserves one more ply: both have at
/// least 20 segments, occupancy is at least `dense_tail_race_occupancy` percent, and one side has at
/// most two safe moves.
pub fn should_extend_leaf(grid: &Grid, me: &AgentState, enemy: &AgentState, dense_tail_race_occupancy: usize) -> (r: bool)
    requires
        grid.wf(),
        me.body.wf(),
        enemy.body.wf(),
        me.body@.len() > 0 ==> coord_ok(me.body@[0]),
        enemy.body@.len() > 0 ==> coord_ok(enemy.body@[0]),
        me.body@.len() >= 20 && enemy.body@.len() >= 20 ==> grid.width * grid.height > 0,
    ensures
        r == extend_spec(*grid, me.body@, enemy.body@, dense_tail_race_occupancy as int),
{
    let my_len = me.body.len();
    let enemy_len = enemy.body.len();
    if my_len < 20 || enemy_len < 20 {
        return false;
    }
    let total_len = my_len + enemy_len;
    let total_area = (grid.width * grid.height) as usize;
    if (total_len * 100) / total_area < dense_tail_race_occupancy {
        return false;
    }
    let mine = get_safe_neighbors(grid, me, enemy);
    if mine.count() <= 2 {
        return true;
    }
    let theirs = get_safe_neighbors(grid, enemy, me);
    theirs.count() <= 2
}


/// Whether `p` lies on a `w` by `h` board.
pub open spec fn point_in(w: int, h: int, p: Point) -> bool {
    xy_in(w, h, p.x as int, p.y as int)
}

/// Every segment of `body` lies on a `w` by `h` board.
pub open spec fn body_on_board(body: Seq<Point>, w: int, h: int) -> bool {
    forall|k: int| 0 <= k < body.len() ==> point_in(w, h, #[trigger] body[k])
}

/// A safe move is one step from the head in its direction, passes `move_safe`, and lands on the
/// board when both bodies lie on it.
pub proof fn lemma_safe_move_target(g: Grid, me: Seq<Point>, en: Seq<Point>, m: SearchMove)
    requires
        safe_moves(g, me, en).contains(m),
        body_on_board(me, g.width as int, g.height as int),
        body_on_board(en, g.width as int, g.height as int),
    ensures
        me.len() > 0,
        m == candidate(me, m.dir),
        move_safe(g, me, en, m.dir),
        xy_in(g.width as int, g.height as int, m.x as int, m.y as int),
        m.dir_int < 4,
{
    if me.len() == 0 {
        assert(safe_moves(g, me, en) =~= Seq::<SearchMove>::empty());
        assert(false);
    }
    let pred = |d: Direction| move_safe(g, me, en, d);
    let dirs = seq![Direction::Up, Direction::Down, Direction::Left, Direction::Right];
    let f = dirs.filter(pred);
    let sm = f.map_values(|d: Direction| candidate(me, d));
    assert(sm == safe_moves(g, me, en));
    let k = choose|k: int| 0 <= k < sm.len() && sm[k] == m;
    assert(sm[k] == candidate(me, f[k]));
    dirs.lemma_filter_pred(pred, k);
    assert(move_safe(g, me, en, f[k]));
    assert(m.dir == f[k]);
    assert(point_in(g.width as int, g.height as int, me[me.len() - 1]));
    if en.len() > 0 {
        assert(point_in(g.width as int, g.height as int, en[en.len() - 1]));
    }
}

/// At most four moves are safe.
pub proof fn lemma_safe_moves_len(g: Grid, me: Seq<Point>, en: Seq<Point>)
    ensures
        safe_moves(g, me, en).len() <= 4,
{
    if me.len() > 0 {
        let pred = |d: Direction| move_safe(g, me, en, d);
        let dirs = seq![Direction::Up, Direction::Down, Direction::Left, Direction::Right];
        dirs.lemma_filter_len(pred);
    }
}

/// The sort key of a move candidate.
#[derive(Debug, Clone, Copy)]
pub struct OrderKey {
    pub pv_rank: u8,
    pub neg_history: i64,
    pub food: i32,
    pub centre: i32,
}

/// A key as a tuple of integers.
pub open spec fn key_view(k: OrderKey) -> (int, int, int, int) {
    (k.pv_rank as int, k.neg_history as int, k.food as int, k.centre as int)
}

/// Lexicographic order on keys.
pub open spec fn key_lt(a: (int, int, int, int), b: (int, int, int, int)) -> bool {
    a.0 < b.0 || (a.0 == b.0 && (a.1 < b.1 || (a.1 == b.1 && (a.2 < b.2 || (a.2 == b.2 && a.3 < b.3)))))
}

/// The absolute value.
pub open spec fn abs_of(v: int) -> int {
    if v < 0 { -v } else { v }
}

/// Where a move stands in the search order: the table's move first, then higher history counts,
/// then nearer food (capped at 1000), then nearer the board's centre (`|2x - w| + |2y - h|`
/// orders moves as the distance from `(w / 2, h / 2)` does).
pub open spec fn order_key(g: Grid, hist: Seq<i32>, head_idx: int, pv: Option<(i32, i32)>, m: SearchMove) -> (int, int, int, int) {
    let w = g.width as int;
    let h = g.height as int;
    let nf = crate::heuristics::nearest_food(g.food@, w, Point { x: m.x, y: m.y }, 448);
    (
        if pv matches Some(p) && m.x == p.0 && m.y == p.1 { 0 } else { 1 },
        -(hist[head_idx * 4 + m.dir_int] as int),
        if nf < 1000 { nf } else { 1000 },
        abs_of(2 * m.x - w) + abs_of(2 * m.y - h),
    )
}

/// Whether a candidate lands on a `w` by `h` board with a direction index below 4.
pub open spec fn move_in(w: int, h: int, m: SearchMove) -> bool {
    xy_in(w, h, m.x as int, m.y as int) && m.dir_int < 4
}

/// The sort key of move `m` (see `order_key`).
fn order_key_of(grid: &Grid, hist: &Vec<i32>, head_idx: usize, pv: Option<(i32, i32)>, m: SearchMove) -> (k: OrderKey)
    requires
        grid.wf(),
        move_in(grid.width as int, grid.height as int, m),
        head_idx < 448,
        head_idx * 4 + 4 <= hist@.len(),
    ensures
        key_view(k) == order_key(*grid, hist@, head_idx as int, pv, m),
{
    let pv_rank: u8 = match pv {
        Some(p) => if m.x == p.0 && m.y == p.1 { 0 } else { 1 },
        None => 1,
    };
    let neg_history: i64 = -(hist[head_idx * 4 + m.dir_int] as i64);
    let nf = crate::heuristics::nearest_food_distance(&grid.food, grid.width, Point { x: m.x, y: m.y });
    let food = if nf < 1000 { nf } else { 1000 };
    let cx = 2 * m.x - grid.width;
    let cy = 2 * m.y - grid.height;
    let centre = (if cx < 0 { -cx } else { cx }) + (if cy < 0 { -cy } else { cy });
    OrderKey { pv_rank, neg_history, food, centre }
}

/// Whether key `a` sorts strictly before key `b`.
fn key_before(a: OrderKey, b: OrderKey) -> (r: bool)
    ensures
        r == key_lt(key_view(a), key_view(b)),
{
    if a.pv_rank != b.pv_rank {
        return a.pv_rank < b.pv_rank;
    }
    if a.neg_history != b.neg_history {
        return a.neg_history < b.neg_history;
    }
    if a.food != b.food {
        return a.food < b.food;
    }
    a.centre < b.centre
}

/// Where move `m` goes in the ordered list `s`, looking from `from` on: before the first move
/// whose key sorts strictly after its own, else at the end.
pub open spec fn insert_pos(g: Grid, hist: Seq<i32>, head_idx: int, pv: Option<(i32, i32)>, s: Seq<SearchMove>,
    m: SearchMove, from: int) -> int
    decreases s.len() - from,
{
    if from < 0 || from >= s.len() {
        s.len() as int
    } else if key_lt(order_key(g, hist, head_idx, pv, m), order_key(g, hist, head_idx, pv, s[from])) {
        from
    } else {
        insert_pos(g, hist, head_idx, pv, s, m, from + 1)
    }
}

/// The moves in search order: sorted by `order_key`, moves with equal keys in their given order.
pub open spec fn stable_order(g: Grid, hist: Seq<i32>, head_idx: int, pv: Option<(i32, i32)>, ms: Seq<SearchMove>)
    -> Seq<SearchMove>
    decreases ms.len(),
{
    if ms.len() == 0 {
        ms
    } else {
        let s = stable_order(g, hist, head_idx, pv, ms.drop_last());
        s.insert(insert_pos(g, hist, head_idx, pv, s, ms.last(), 0), ms.last())
    }
}

/// Placing the next move where `insert_pos` says extends the search order by one move.
proof fn lemma_stable_order_step(g: Grid, hist: Seq<i32>, head_idx: int, pv: Option<(i32, i32)>, ms: Seq<SearchMove>,
    k: int, before: Seq<SearchMove>, pos: int)
    requires
        0 <= k < ms.len(),
        before == stable_order(g, hist, head_idx, pv, ms.take(k)),
        pos == insert_pos(g, hist, head_idx, pv, before, ms[k], 0),
    ensures
        stable_order(g, hist, head_idx, pv, ms.take(k + 1)) == before.insert(pos, ms[k]),
{
    assert(ms.take(k + 1).drop_last() =~= ms.take(k));
    assert(ms.take(k + 1).last() == ms[k]);
}

/// The moves sorted by `order_key` (equal keys keep their order): the table's move first, then by
/// history, food and centre.
pub fn order_moves(moves: Vec<SearchMove>, grid: &Grid, hist: &Vec<i32>, head_idx: usize, pv: Option<(i32, i32)>) -> (out: Vec<SearchMove>)
    requires
        grid.wf(),
        moves@.len() <= 4,
        forall|k: int| 0 <= k < moves@.len() ==> move_in(grid.width as int, grid.height as int, #[trigger] moves@[k]),
        head_idx < 448,
        head_idx * 4 + 4 <= hist@.len(),
    ensures
        out@.len() == moves@.len(),
        forall|x: SearchMove| out@.contains(x) <==> moves@.contains(x),
        forall|i: int, j: int| 0 <= i < j < out@.len() ==>
            !key_lt(order_key(*grid, hist@, head_idx as int, pv, #[trigger] out@[j]),
                order_key(*grid, hist@, head_idx as int, pv, #[trigger] out@[i])),
        out@ == stable_order(*grid, hist@, head_idx as int, pv, moves@),
{
    let ghost key = |m: SearchMove| order_key(*grid, hist@, head_idx as int, pv, m);
    proof {
        assert(moves@.take(0) =~= Seq::<SearchMove>::empty());
    }
    let mut out: Vec<SearchMove> = Vec::new();
    let mut k: usize = 0;
    while k < moves.len()
        invariant
            grid.wf(),
            k <= moves@.len(),
            moves@.len() <= 4,
            forall|q: int| 0 <= q < moves@.len() ==> move_in(grid.width as int, grid.height as int, #[trigger] moves@[q]),
            head_idx < 448,
            head_idx * 4 + 4 <= hist@.len(),
            key == (|m: SearchMove| order_key(*grid, hist@, head_idx as int, pv, m)),
            out@.len() == k,
            forall|x: SearchMove| out@.contains(x) <==> moves@.subrange(0, k as int).contains(x),
            forall|i: int, j: int| 0 <= i < j < out@.len() ==> !key_lt(key(#[trigger] out@[j]), key(#[trigger] out@[i])),
            out@ == stable_order(*grid, hist@, head_idx as int, pv, moves@.take(k as int)),
        decreases moves@.len() - k,
    {
        let m = moves[k];
        let km = order_key_of(grid, hist, head_idx, pv, m);
        let mut pos: usize = 0;
        while pos < out.len()
            invariant
                grid.wf(),
                pos <= out@.len(),
                out@.len() == k,
                k < moves@.len(),
                moves@.len() <= 4,
                forall|q: int| 0 <= q < moves@.len() ==> move_in(grid.width as int, grid.height as int, #[trigger] moves@[q]),
                forall|x: SearchMove| out@.contains(x) <==> moves@.subrange(0, k as int).contains(x),
                head_idx < 448,
                head_idx * 4 + 4 <= hist@.len(),
                key_view(km) == key(m),
                key == (|m: SearchMove| order_key(*grid, hist@, head_idx as int, pv, m)),
                forall|i: int| 0 <= i < pos ==> !key_lt(key(m), key(#[trigger] out@[i])),
                insert_pos(*grid, hist@, head_idx as int, pv, out@, m, 0) == insert_pos(*grid, hist@, head_idx as int, pv, out@, m, pos as int),
                out@ == stable_order(*grid, hist@, head_idx as int, pv, moves@.take(k as int)),
                m == moves@[k as int],
            ensures
                pos <= out@.len(),
                pos < out@.len() ==> key_lt(key(m), key(out@[pos as int])),
                forall|i: int| 0 <= i < pos ==> !key_lt(key(m), key(#[trigger] out@[i])),
                insert_pos(*grid, hist@, head_idx as int, pv, out@, m, 0) == pos,
            decreases out@.len() - pos,
        {
            let o = out[pos];
            proof {
                assert(out@[pos as int] == o);
                assert(out@.contains(o));
                assert(moves@.subrange(0, k as int).contains(o));
                let jo = choose|jo: int| 0 <= jo < k && moves@.subrange(0, k as int)[jo] == o;
                assert(moves@[jo] == o);
            }
            let ko = order_key_of(grid, hist, head_idx, pv, o);
            if key_before(km, ko) {
                break;
            }
            pos += 1;
        }
        let ghost before = out@;
        out.insert(pos, m);
        proof {
            let k1: int = k as int + 1;
            lemma_stable_order_step(*grid, hist@, head_idx as int, pv, moves@, k as int, before, pos as int);
            assert(out@ == before.insert(pos as int, m));
            assert forall|x: SearchMove| out@.contains(x) <==> moves@.subrange(0, k1).contains(x) by {
                if out@.contains(x) {
                    let j = choose|j: int| 0 <= j < out@.len() && out@[j] == x;
                    if j < pos {
                        assert(before[j] == x);
                        assert(before.contains(x));
                    } else if j > pos {
                        assert(before[j - 1] == x);
                        assert(before.contains(x));
                    }
                    if x != m {
                        let jj = choose|jj: int| 0 <= jj < k && moves@.subrange(0, k as int)[jj] == x;
                        assert(moves@.subrange(0, k1)[jj] == x);
                    } else {
                        assert(moves@.subrange(0, k1)[k as int] == x);
                    }
                }
                if moves@.subrange(0, k1).contains(x) {
                    let jj = choose|jj: int| 0 <= jj < k1 && moves@.subrange(0, k1)[jj] == x;
                    if jj < k {
                        assert(moves@.subrange(0, k as int)[jj] == x);
                        assert(before.contains(x));
                        let j = choose|j: int| 0 <= j < before.len() && before[j] == x;
                        if j < pos {
                            assert(out@[j] == x);
                        } else {
                            assert(out@[j + 1] == x);
                        }
                    } else {
                        assert(out@[pos as int] == x);
                    }
                }
            }
            assert forall|i: int, j: int| 0 <= i < j < out@.len() implies !key_lt(key(#[trigger] out@[j]), key(#[trigger] out@[i])) by {
                if j < pos {
                    assert(out@[i] == before[i] && out@[j] == before[j]);
                } else if i > pos {
                    assert(out@[i] == before[i - 1] && out@[j] == before[j - 1]);
                } else if i == pos {
                    // out[j] == before[j - 1], at or after the first element sorting after `m`
                    assert(out@[j] == before[j - 1]);
                    if pos < before.len() {
                        assert(key_lt(key(m), key(before[pos as int])));
                        if j - 1 > pos {
                            assert(!key_lt(key(before[j - 1]), key(before[pos as int])));
                        }
                    }
                } else if j == pos {
                    assert(out@[i] == before[i]);
                } else {
                    assert(out@[i] == before[i] && out@[j] == before[j - 1]);
                }
            }
        }
        k += 1;
    }
    proof {
        assert(moves@.subrange(0, moves@.len() as int) =~= moves@);
        assert(moves@.take(moves@.len() as int) =~= moves@);
    }
    out
}


/// At most one layer is set at cell `i`.
pub open spec fn cell_single(m: GridModel, i: int) -> bool {
    &&& !(m.food[i] && m.mine[i])
    &&& !(m.food[i] && m.theirs[i])
    &&& !(m.mine[i] && m.theirs[i])
}

/// No cell holds two layers.
pub open spec fn layers_disjoint(m: GridModel) -> bool {
    forall|i: int| 0 <= i < 448 ==> #[trigger] cell_single(m, i)
}

/// The code of cell index `i` of a model, by the priority `Grid::get` uses.
pub open spec fn code_of(m: GridModel, i: int) -> i8 {
    if m.mine[i] { MY_BODY } else if m.theirs[i] { ENEMY_BODY } else if m.food[i] { FOOD } else { EMPTY }
}

/// Layer `code` cleared at cell `i` (codes other than 1, 2, 3 clear nothing).
pub open spec fn clear_layer(m: GridModel, i: int, code: i8) -> GridModel {
    GridModel {
        food: m.food.update(i, code != FOOD && m.food[i]),
        mine: m.mine.update(i, code != MY_BODY && m.mine[i]),
        theirs: m.theirs.update(i, code != ENEMY_BODY && m.theirs[i]),
        ..m
    }
}

/// Layer `code` set at cell `i` (codes other than 1, 2, 3 set nothing).
pub open spec fn set_layer(m: GridModel, i: int, code: i8) -> GridModel {
    GridModel {
        food: m.food.update(i, code == FOOD || m.food[i]),
        mine: m.mine.update(i, code == MY_BODY || m.mine[i]),
        theirs: m.theirs.update(i, code == ENEMY_BODY || m.theirs[i]),
        ..m
    }
}

/// What a move changed, so that it can be taken back.
#[derive(Debug, Clone, Copy)]
pub struct MoveUndo {
    pub mv: SearchMove,
    pub original_head_val: i8,
    pub cell_id: i8,
    pub ate_food: bool,
    pub old_health: i32,
    pub popped_tail: Option<Point>,
    pub tail_restore: Option<(i32, i32, i8)>,
}

/// The grid after a move: the tail cell's layer cleared when the undo record says so, then the
/// head cell's old code replaced by the mover's.
pub open spec fn made_model(g0: GridModel, u: MoveUndo) -> GridModel {
    let g1 = match u.tail_restore {
        Some(t) => clear_layer(g0, t.1 * g0.w + t.0, t.2),
        None => g0,
    };
    let ih = u.mv.y * g0.w + u.mv.x;
    set_layer(clear_layer(g1, ih, u.original_head_val), ih, u.cell_id)
}

/// The undo record of `make_move` for side `side` moving body `b` (health `health`) onto `mv` in
/// grid `g`: the tail's cell is cleared (and recorded) when the tail left a cell of its own layer
/// that the head did not enter.
pub open spec fn undo_spec(g: Grid, b: Seq<Point>, health: i32, side: int, mv: SearchMove) -> MoveUndo {
    let head = g.cell(mv.x as int, mv.y as int);
    let ate = head == FOOD;
    let cell_id: i8 = if side == 0 { MY_BODY } else { ENEMY_BODY };
    let tail = b.last();
    let moved_off = !ate && (tail.x != mv.x || tail.y != mv.y);
    MoveUndo {
        mv,
        original_head_val: head,
        cell_id,
        ate_food: ate,
        old_health: health,
        popped_tail: if ate { None } else { Some(tail) },
        tail_restore: if moved_off && g.cell(tail.x as int, tail.y as int) == cell_id {
            Some((tail.x, tail.y, cell_id))
        } else {
            None
        },
    }
}

/// The position hash after `make_move`: the health keys swapped, the head cell's old code and new
/// code toggled, and the tail cell's code toggled when the tail left a cell the head did not enter.
pub open spec fn made_hash(hash: u64, w: int, b: Seq<Point>, health: i32, side: int, mv: SearchMove, head: i8) -> u64 {
    let ate = head == FOOD;
    let new_health: i32 = if ate { 100 } else { (health - 1) as i32 };
    let cell_id: i8 = if side == 0 { MY_BODY } else { ENEMY_BODY };
    let h1 = hash ^ health_key(health, side == 0) ^ health_key(new_health, side == 0);
    let h2 = if head != EMPTY { h1 ^ cell_key(w, mv.x as int, mv.y as int, head) } else { h1 };
    let h3 = h2 ^ cell_key(w, mv.x as int, mv.y as int, cell_id);
    let tail = b.last();
    if !ate && (tail.x != mv.x || tail.y != mv.y) { h3 ^ cell_key(w, tail.x as int, tail.y as int, cell_id) } else { h3 }
}

/// The body after a move: the new head in front, the tail dropped unless food was eaten.
pub open spec fn made_body(b0: Seq<Point>, mv: SearchMove, ate: bool) -> Seq<Point> {
    let grown = seq![Point { x: mv.x, y: mv.y }] + b0;
    if ate { grown } else { grown.drop_last() }
}

/// Taking a move back restores a grid in which no cell holds two layers.
pub proof fn lemma_unmake_restores(g0: GridModel, u: MoveUndo)
    requires
        g0.food.len() == 448 && g0.mine.len() == 448 && g0.theirs.len() == 448,
        0 < g0.w,
        layers_disjoint(g0),
        xy_in(g0.w, g0.h, u.mv.x as int, u.mv.y as int),
        0 <= u.mv.y * g0.w + u.mv.x < 448,
        u.original_head_val == code_of(g0, u.mv.y * g0.w + u.mv.x),
        u.cell_id == MY_BODY || u.cell_id == ENEMY_BODY,
        u.tail_restore matches Some(t) ==> {
            &&& xy_in(g0.w, g0.h, t.0 as int, t.1 as int)
            &&& 0 <= t.1 * g0.w + t.0 < 448
            &&& (t.0 != u.mv.x || t.1 != u.mv.y)
            &&& t.2 == u.cell_id
            &&& code_of(g0, t.1 * g0.w + t.0) == u.cell_id
        },
    ensures
        ({
            let ih = u.mv.y * g0.w + u.mv.x;
            let g3 = set_layer(clear_layer(made_model(g0, u), ih, u.cell_id), ih, u.original_head_val);
            let g4 = match u.tail_restore {
                Some(t) => set_layer(clear_layer(g3, t.1 * g0.w + t.0, EMPTY), t.1 * g0.w + t.0, t.2),
                None => g3,
            };
            &&& g4 == g0
            &&& layers_disjoint(made_model(g0, u))
        }),
{
    let ih = u.mv.y * g0.w + u.mv.x;
    assert(cell_single(g0, ih));
    let mm = made_model(g0, u);
    let g3 = set_layer(clear_layer(mm, ih, u.cell_id), ih, u.original_head_val);
    match u.tail_restore {
        Some(t) => {
            let it = t.1 * g0.w + t.0;
            crate::bitboard::lemma_row_col(g0.w, u.mv.y as int, u.mv.x as int);
            crate::bitboard::lemma_row_col(g0.w, t.1 as int, t.0 as int);
            assert(it != ih);
            assert(cell_single(g0, it));
            let g4 = set_layer(clear_layer(g3, it, EMPTY), it, t.2);
            assert(g4.food =~= g0.food);
            assert(g4.mine =~= g0.mine);
            assert(g4.theirs =~= g0.theirs);
            assert forall|i: int| 0 <= i < 448 implies #[trigger] cell_single(mm, i) by {
                assert(cell_single(g0, i));
            }
        },
        None => {
            assert(g3.food =~= g0.food);
            assert(g3.mine =~= g0.mine);
            assert(g3.theirs =~= g0.theirs);
            assert forall|i: int| 0 <= i < 448 implies #[trigger] cell_single(mm, i) by {
                assert(cell_single(g0, i));
            }
        },
    }
}

/// Clears layer `code` at an on-board cell, as a model update.
fn clear_cell(grid: &mut Grid, x: i32, y: i32, code: i8)
    requires
        old(grid).wf(),
        xy_in(old(grid).width as int, old(grid).height as int, x as int, y as int),
    ensures
        final(grid).wf(),
        final(grid).width == old(grid).width,
        final(grid).height == old(grid).height,
        final(grid).ctx == old(grid).ctx,
        final(grid).model() == clear_layer(old(grid).model(), y * old(grid).width + x, code),
{
    grid.clear_unchecked(x, y, code);
    proof {
        let i = y * old(grid).width + x;
        assert(grid.model().food =~= clear_layer(old(grid).model(), i, code).food);
        assert(grid.model().mine =~= clear_layer(old(grid).model(), i, code).mine);
        assert(grid.model().theirs =~= clear_layer(old(grid).model(), i, code).theirs);
    }
}

/// Replaces layer `from` by layer `to` at an on-board cell, as a model update.
fn replace_cell(grid: &mut Grid, x: i32, y: i32, from: i8, to: i8)
    requires
        old(grid).wf(),
        xy_in(old(grid).width as int, old(grid).height as int, x as int, y as int),
    ensures
        final(grid).wf(),
        final(grid).width == old(grid).width,
        final(grid).height == old(grid).height,
        final(grid).ctx == old(grid).ctx,
        final(grid).model() == set_layer(clear_layer(old(grid).model(), y * old(grid).width + x, from), y * old(grid).width + x, to),
{
    grid.replace_unchecked(x, y, from, to);
    proof {
        let i = y * old(grid).width + x;
        let w = old(grid).width as int;
        let h = old(grid).height as int;
        assert(0 <= i < 448) by {
            assert(y * w + x < w * h) by (nonlinear_arith) requires 0 <= x < w, 0 <= y < h;
            assert(y * w + x >= 0) by (nonlinear_arith) requires 0 <= x < w, 0 <= y < h;
            assert(w * h <= 448);
        }
        let e = set_layer(clear_layer(old(grid).model(), i, from), i, to);
        assert(grid.model().food =~= e.food);
        assert(grid.model().mine =~= e.mine);
        assert(grid.model().theirs =~= e.theirs);
    }
}

/// Plays `mv` for `me` (side 0 writes code 2, side 1 code 3): the head moves, health drops by one
/// or resets to 100 on food, the tail leaves unless food was eaten (its cell cleared when it held
/// the mover's code), and the hash follows the changes.
pub fn make_move(grid: &mut Grid, me: &mut AgentState, side: usize, mv: SearchMove, hash: u64, zobrist: &Zobrist)
    -> (r: (MoveUndo, u64))
    requires
        old(grid).wf(),
        layers_disjoint(old(grid).model()),
        old(me).body.wf(),
        0 < old(me).body@.len() < 512,
        old(me).health > 0,
        body_on_board(old(me).body@, old(grid).width as int, old(grid).height as int),
        xy_in(old(grid).width as int, old(grid).height as int, mv.x as int, mv.y as int),
        side <= 1,
        zobrist.width == old(grid).width,
        zobrist.height == old(grid).height,
    ensures
        final(grid).wf(),
        final(grid).width == old(grid).width,
        final(grid).height == old(grid).height,
        final(grid).ctx == old(grid).ctx,
        final(grid).model() == made_model(old(grid).model(), r.0),
        layers_disjoint(final(grid).model()),
        final(me).body.wf(),
        final(me).body@ == made_body(old(me).body@, mv, r.0.ate_food),
        final(me).health == if r.0.ate_food { 100 } else { old(me).health - 1 },
        body_on_board(final(me).body@, old(grid).width as int, old(grid).height as int),
        r.0 == undo_spec(*old(grid), old(me).body@, old(me).health, side as int, mv),
        r.1 == made_hash(hash, old(grid).width as int, old(me).body@, old(me).health, side as int, mv,
            old(grid).cell(mv.x as int, mv.y as int)),
        r.0.mv == mv,
        r.0.old_health == old(me).health,
        r.0.cell_id == 2 + side,
        r.0.original_head_val == old(grid).cell(mv.x as int, mv.y as int),
        r.0.ate_food == (r.0.original_head_val == FOOD),
        r.0.ate_food ==> r.0.popped_tail is None && r.0.tail_restore is None,
        !r.0.ate_food ==> r.0.popped_tail == Some(old(me).body@.last()),
        r.0.tail_restore matches Some(t) ==> {
            &&& t.0 == old(me).body@.last().x && t.1 == old(me).body@.last().y
            &&& (t.0 != mv.x || t.1 != mv.y)
            &&& t.2 == r.0.cell_id
            &&& old(grid).cell(t.0 as int, t.1 as int) == r.0.cell_id
        },
{
    let ghost g0 = grid.model();
    let ghost b0 = me.body@;
    let w = grid.width;
    let original_head_val = grid.get(mv.x, mv.y);
    let ate_food = original_head_val == FOOD;
    let mut tail_restore: Option<(i32, i32, i8)> = None;
    let mut popped_tail: Option<Point> = None;
    let mut next_hash = hash;
    let old_health = me.health;
    let new_health = if ate_food { 100 } else { old_health - 1 };
    me.health = new_health;
    me.body.push_front(Point { x: mv.x, y: mv.y });
    let cell_id: i8 = if side == 0 { MY_BODY } else { ENEMY_BODY };
    next_hash = zobrist.xor_health(next_hash, old_health, new_health, side == 0);
    if original_head_val != EMPTY {
        next_hash = zobrist.xor_unchecked(next_hash, mv.x, mv.y, original_head_val);
    }
    next_hash = zobrist.xor_unchecked(next_hash, mv.x, mv.y, cell_id);
    proof {
        assert(point_in(w as int, grid.height as int, b0[b0.len() - 1]));
    }
    if !ate_food {
        let tail = me.body.pop_back();
        popped_tail = Some(tail);
        if tail.x != mv.x || tail.y != mv.y {
            let original_tail_val = grid.get(tail.x, tail.y);
            if original_tail_val == cell_id {
                clear_cell(grid, tail.x, tail.y, original_tail_val);
                tail_restore = Some((tail.x, tail.y, original_tail_val));
            }
            next_hash = zobrist.xor_unchecked(next_hash, tail.x, tail.y, cell_id);
        }
    }
    replace_cell(grid, mv.x, mv.y, original_head_val, cell_id);
    let undo = MoveUndo { mv, original_head_val, cell_id, ate_food, old_health, popped_tail, tail_restore };
    proof {
        let mp = Point { x: mv.x, y: mv.y };
        assert(me.body@ == made_body(b0, mv, ate_food)) by {
            if !ate_food {
                assert((seq![mp] + b0).last() == b0.last());
            }
        }
        assert forall|k: int| 0 <= k < me.body@.len() implies point_in(w as int, g0.h, #[trigger] me.body@[k]) by {
            if k > 0 {
                assert(me.body@[k] == b0[k - 1]);
            }
        }
        let ih = mv.y * g0.w + mv.x;
        assert(0 <= ih < 448) by {
            assert(mv.y * w + mv.x < w * g0.h) by (nonlinear_arith) requires 0 <= mv.x < w, 0 <= mv.y < g0.h;
            assert(mv.y * w + mv.x >= 0) by (nonlinear_arith) requires 0 <= mv.x < w, 0 <= mv.y < g0.h;
            assert(w * g0.h <= 448);
        }
        assert(original_head_val == code_of(g0, ih));
        if let Some(t) = tail_restore {
            let it = t.1 * g0.w + t.0;
            assert(0 <= it < 448) by {
                assert(t.1 * w + t.0 < w * g0.h) by (nonlinear_arith) requires 0 <= t.0 < w, 0 <= t.1 < g0.h;
                assert(t.1 * w + t.0 >= 0) by (nonlinear_arith) requires 0 <= t.0 < w, 0 <= t.1 < g0.h;
            }
        }
        lemma_unmake_restores(g0, undo);
    }
    (undo, next_hash)
}

/// Takes back a move made by `make_move` from grid `g0` and body `b0`.
fn unmake_move(grid: &mut Grid, me: &mut AgentState, u: MoveUndo, Ghost(g0): Ghost<GridModel>, Ghost(b0): Ghost<Seq<Point>>)
    requires
        old(grid).wf(),
        g0.w == old(grid).width && g0.h == old(grid).height,
        g0.food.len() == 448 && g0.mine.len() == 448 && g0.theirs.len() == 448,
        layers_disjoint(g0),
        old(grid).model() == made_model(g0, u),
        xy_in(g0.w, g0.h, u.mv.x as int, u.mv.y as int),
        u.original_head_val == code_of(g0, u.mv.y * g0.w + u.mv.x),
        u.cell_id == MY_BODY || u.cell_id == ENEMY_BODY,
        u.tail_restore matches Some(t) ==> {
            &&& xy_in(g0.w, g0.h, t.0 as int, t.1 as int)
            &&& (t.0 != u.mv.x || t.1 != u.mv.y)
            &&& t.2 == u.cell_id
            &&& code_of(g0, t.1 * g0.w + t.0) == u.cell_id
        },
        old(me).body.wf(),
        0 < b0.len() < 512,
        old(me).body@ == made_body(b0, u.mv, u.ate_food),
        u.ate_food ==> u.popped_tail is None,
        !u.ate_food ==> u.popped_tail == Some(b0.last()),
    ensures
        final(grid).wf(),
        final(grid).width == old(grid).width,
        final(grid).height == old(grid).height,
        final(grid).ctx == old(grid).ctx,
        final(grid).model() == g0,
        final(me).body.wf(),
        final(me).body@ == b0,
        final(me).health == u.old_health,
{
    let ghost w = g0.w;
    proof {
        crate::bitboard::lemma_row_col(w, u.mv.y as int, u.mv.x as int);
        assert(0 <= u.mv.y * w + u.mv.x < 448) by {
            assert(u.mv.y * w + u.mv.x < w * g0.h) by (nonlinear_arith) requires 0 <= u.mv.x < w, 0 <= u.mv.y < g0.h;
            assert(u.mv.y * w + u.mv.x >= 0) by (nonlinear_arith) requires 0 <= u.mv.x < w, 0 <= u.mv.y < g0.h;
            assert(w * g0.h <= 448);
        }
        if let Some(t) = u.tail_restore {
            assert(0 <= t.1 * w + t.0 < 448) by {
                assert(t.1 * w + t.0 < w * g0.h) by (nonlinear_arith) requires 0 <= t.0 < w, 0 <= t.1 < g0.h;
                assert(t.1 * w + t.0 >= 0) by (nonlinear_arith) requires 0 <= t.0 < w, 0 <= t.1 < g0.h;
            }
        }
        lemma_unmake_restores(g0, u);
    }
    replace_cell(grid, u.mv.x, u.mv.y, u.cell_id, u.original_head_val);
    if let Some((tx, ty, tv)) = u.tail_restore {
        replace_cell(grid, tx, ty, EMPTY, tv);
    }
    me.body.pop_front();
    if let Some(tail) = u.popped_tail {
        me.body.push_back(tail);
    }
    me.health = u.old_health;
    proof {
        let mp = Point { x: u.mv.x, y: u.mv.y };
        assert((seq![mp] + b0).drop_first() =~= b0);
        if !u.ate_food {
            assert((seq![mp] + b0).drop_last().drop_first() =~= b0.drop_last());
            assert(b0.drop_last().push(b0.last()) =~= b0);
        }
    }
}


/// How many plies a leaf may be extended by in a crowded race.
pub const QUIESCENCE_MAX_EXTENSIONS: usize = 8;

/// The score a node starts from, below every real score.
pub const SCORE_MIN: i32 = -2_000_000_000;

/// Everything one search carries besides the position: the depth it started at, the history
/// counters of both sides, the evaluation weights and food curve, the transposition table, the
/// hashing keys, scratch buffers, the thread's index (which rotates its root moves) and the number
/// of nodes visited.
pub struct SearchContext<'a> {
    pub root_depth: usize,
    pub history_table: [Vec<i32>; 2],
    pub weights: ScoreWeights,
    pub dense_tail_race_occupancy: usize,
    pub curve: &'a FoodCurve,
    pub tt: TranspositionTable,
    pub zobrist: Zobrist,
    pub buffers: SearchBuffers,
    pub thread_id: usize,
    pub nodes: u64,
}

/// A context usable on grid `g`: a well-formed table, bounded weights, a well-formed curve,
/// keys for the grid's size and history counters for every cell and direction.
pub open spec fn ctx_ready(c: SearchContext, g: Grid) -> bool {
    &&& c.tt.wf()
    &&& weights_bounded(c.weights)
    &&& c.dense_tail_race_occupancy <= 1_000_000
    &&& c.curve.wf()
    &&& 100 <= c.curve.spec_max_health()
    &&& c.zobrist.width == g.width
    &&& c.zobrist.height == g.height
    &&& c.history_table[0]@.len() >= 4 * (g.width * g.height)
    &&& c.history_table[1]@.len() >= 4 * (g.width * g.height)
}

/// A search changes only the table's slots and the history counters (not their lengths).
pub open spec fn ctx_kept(c0: SearchContext, c1: SearchContext) -> bool {
    &&& c1.root_depth == c0.root_depth
    &&& c1.weights == c0.weights
    &&& c1.dense_tail_race_occupancy == c0.dense_tail_race_occupancy
    &&& c1.curve == c0.curve
    &&& c1.zobrist == c0.zobrist
    &&& c1.thread_id == c0.thread_id
    &&& c1.buffers == c0.buffers
    &&& c1.tt.wf()
    &&& c1.tt.capacity() == c0.tt.capacity()
    &&& c1.tt.slots().len() == c0.tt.slots().len()
    &&& c1.tt.spec_generation() == c0.tt.spec_generation()
    &&& c1.history_table[0]@.len() == c0.history_table[0]@.len()
    &&& c1.history_table[1]@.len() == c0.history_table[1]@.len()
}

/// A position a search can start from: a well-formed grid with no cell holding two layers, both
/// bodies well formed and on the board, and healths the food curve covers.
pub open spec fn position_ready(g: Grid, me: AgentState, en: AgentState, curve: FoodCurve) -> bool {
    &&& g.wf()
    &&& layers_disjoint(g.model())
    &&& me.body.wf()
    &&& en.body.wf()
    &&& body_on_board(me.body@, g.width as int, g.height as int)
    &&& body_on_board(en.body@, g.width as int, g.height as int)
    &&& me.health <= curve.spec_max_health()
    &&& en.health <= curve.spec_max_health()
}

/// A distance map as a sequence.
pub open spec fn dist_view(d: Option<&[i16]>) -> Option<Seq<i16>> {
    match d {
        Some(m) => Some(m@),
        None => None,
    }
}

/// A frame a search can run: side 0 or 1, at most 8 extensions so far, room in both bodies for
/// every ply still to come, a nonempty window inside `-2_000_000_001..=2_000_000_001`, and a distance map
/// (if any) covering the board with no negative entry.
pub open spec fn frame_ready(f: SearchFrame, me: AgentState, en: AgentState) -> bool {
    &&& f.side <= 1
    &&& f.q_depth <= QUIESCENCE_MAX_EXTENSIONS
    &&& me.body@.len() + f.depth + QUIESCENCE_MAX_EXTENSIONS - f.q_depth < 512
    &&& en.body@.len() + f.depth + QUIESCENCE_MAX_EXTENSIONS - f.q_depth < 512
    &&& f.alpha >= -2_000_000_001
    &&& f.beta <= 2_000_000_001
    &&& f.alpha < f.beta
    &&& f.dist_map matches Some(m) ==> m@.len() >= 448 && forall|i: int| 0 <= i < m@.len() ==> m@[i] >= 0
}

/// The score of a leaf from the point of view of the side to move: side 0 evaluates for `me`,
/// side 1 evaluates for `en` and negates.
pub open spec fn leaf_spec(g: GridModel, me: AgentState, en: AgentState, side: usize, dist: Option<Seq<i16>>, c: SearchContext) -> int {
    if side == 0 {
        leaf_value(eval_spec(g, me, en, dist, c.weights, c.dense_tail_race_occupancy as int), me.health as int, *c.curve)
    } else {
        -leaf_value(eval_spec(g, en, me, dist, c.weights, c.dense_tail_race_occupancy as int), en.health as int, *c.curve)
    }
}

/// Whether a side still plays: it has a body and health.
pub open spec fn alive(a: AgentState) -> bool {
    a.body@.len() > 0 && a.health > 0
}

/// The evaluation of a leaf (see `leaf_spec`); the grid is left as it was.
fn evaluate_leaf(grid: &mut Grid, me: &AgentState, enemy: &AgentState, side: usize, dist_map: Option<&[i16]>,
    ctx: &mut SearchContext<'_>) -> (r: i32)
    requires
        position_ready(*old(grid), *me, *enemy, *old(ctx).curve),
        ctx_ready(*old(ctx), *old(grid)),
        alive(*me),
        alive(*enemy),
        side <= 1,
        me.body@.len() < 512,
        enemy.body@.len() < 512,
        dist_map matches Some(m) ==> m@.len() >= 448 && forall|i: int| 0 <= i < m@.len() ==> m@[i] >= 0,
    ensures
        final(grid).wf(),
        final(grid).width == old(grid).width,
        final(grid).height == old(grid).height,
        final(grid).ctx == old(grid).ctx,
        final(grid).model() == old(grid).model(),
        *final(ctx) == *old(ctx),
        r == leaf_spec(old(grid).model(), *me, *enemy, side, dist_view(dist_map), *old(ctx)),
        -1_960_000_000 <= r <= 1_960_000_000,
{
    let ghost g0 = grid.model();
    let ghost w = grid.width as int;
    let ghost h = grid.height as int;
    proof {
        let occ = ctx.dense_tail_race_occupancy as int;
        assert(point_in(w, h, me.body@[0]));
        assert(point_in(w, h, enemy.body@[0]));
        assert(point_in(w, h, me.body@[me.body@.len() - 1]));
        assert(point_in(w, h, enemy.body@[enemy.body@.len() - 1]));
        assert(w * h <= 448);
        lemma_eval_bounded(g0, *me, *enemy, dist_view(dist_map), ctx.weights, occ);
        lemma_eval_bounded(g0, *enemy, *me, dist_view(dist_map), ctx.weights, occ);
        let tm = me.body@.last();
        let te = enemy.body@.last();
        assert(0 <= tm.y * w + tm.x < 448) by {
            assert(tm.y * w + tm.x < w * h) by (nonlinear_arith) requires 0 <= tm.x < w, 0 <= tm.y < h;
            assert(tm.y * w + tm.x >= 0) by (nonlinear_arith) requires 0 <= tm.x < w, 0 <= tm.y < h;
        }
        assert(0 <= te.y * w + te.x < 448) by {
            assert(te.y * w + te.x < w * h) by (nonlinear_arith) requires 0 <= te.x < w, 0 <= te.y < h;
            assert(te.y * w + te.x >= 0) by (nonlinear_arith) requires 0 <= te.x < w, 0 <= te.y < h;
        }
        assert(cell_single(g0, tm.y * w + tm.x));
        assert(cell_single(g0, te.y * w + te.x));
        lemma_evaluate_restores_grid(g0, *me);
        lemma_evaluate_restores_grid(g0, *enemy);
        let mh = me.body@[0];
        let eh = enemy.body@[0];
        assert(0 <= mh.y * w + mh.x < 448) by {
            assert(mh.y * w + mh.x < w * h) by (nonlinear_arith) requires 0 <= mh.x < w, 0 <= mh.y < h;
            assert(mh.y * w + mh.x >= 0) by (nonlinear_arith) requires 0 <= mh.x < w, 0 <= mh.y < h;
        }
        assert(0 <= eh.y * w + eh.x < 448) by {
            assert(eh.y * w + eh.x < w * h) by (nonlinear_arith) requires 0 <= eh.x < w, 0 <= eh.y < h;
            assert(eh.y * w + eh.x >= 0) by (nonlinear_arith) requires 0 <= eh.x < w, 0 <= eh.y < h;
        }
    }
    if side == 0 {
        let e = evaluate(grid, me, enemy, dist_map, &ctx.weights, ctx.dense_tail_race_occupancy, &mut ctx.buffers);
        leaf_score(e, me.health, ctx.curve, &ctx.weights)
    } else {
        let e = evaluate(grid, enemy, me, dist_map, &ctx.weights, ctx.dense_tail_race_occupancy, &mut ctx.buffers);
        let v = leaf_score(e, enemy.health, ctx.curve, &ctx.weights);
        -v
    }
}

/// `a + b` clamped to `i32`, as `i32::saturating_add` computes it.
pub open spec fn sat_i32(a: int, b: int) -> i32 {
    if a + b > i32::MAX { i32::MAX } else if a + b < i32::MIN { i32::MIN } else { (a + b) as i32 }
}

/// `a + b` clamped to `i32`.
fn saturating_add_i32(a: i32, b: i32) -> (r: i32)
    ensures
        r == sat_i32(a as int, b as int),
{
    let t = a as i64 + b as i64;
    if t > i32::MAX as i64 {
        i32::MAX
    } else if t < i32::MIN as i64 {
        i32::MIN
    } else {
        t as i32
    }
}

/// The negation of `v` in two's complement (`i32::MIN` stays itself).
pub open spec fn wrapping_neg(v: i32) -> i32 {
    vstd::wrapping::i32_specs::wrapping_sub(0, v)
}

/// The score of a move from its child's score: negated; capped by a negative collision penalty;
/// outside the terminal band (`|score| >= |win| / 10 * 9`) raised by a positive kill bonus and,
/// after eating while not deep in a loss (above -50 000 000), by the eating reward; and finally
/// shifted by the root bonus. Scores read back from the table can be any `i32`, so the negation
/// and the absolute value wrap and the additions saturate.
pub open spec fn mod_score(child: i32, collision: i32, kill: i32, ate: bool, root_bonus: i32, win: i32, eat_reward: i32) -> i32 {
    let ms0 = wrapping_neg(child);
    let ms1 = if collision < 0 && collision < ms0 { collision } else { ms0 };
    let mag = if ms1 < 0 { wrapping_neg(ms1) } else { ms1 };
    let band = ((if win < 0 { -win } else { win as int }) / 10) * 9;
    let terminal = mag >= band;
    let ms2 = if !terminal && kill > 0 { sat_i32(ms1 as int, kill as int) } else { ms1 };
    let ms3 = if !terminal && ate && ms2 > -50_000_000 { sat_i32(ms2 as int, eat_reward as int) } else { ms2 };
    sat_i32(ms3 as int, root_bonus as int)
}

/// A negative collision penalty caps a move's score: without a kill bonus or an eating reward,
/// the adjusted score is at most the penalty plus the root bonus (or the lowest `i32`). A positive
/// kill bonus never lowers the adjusted score when eating is not rewarded with a negative amount,
/// and no penalty and no bonus leave the negated child score plus the root bonus.
pub proof fn lemma_mod_score_terms(child: i32, collision: i32, kill: i32, ate: bool, root_bonus: i32, win: i32, eat_reward: i32)
    ensures
        collision < 0 ==> {
            let r = mod_score(child, collision, 0, false, root_bonus, win, eat_reward) as int;
            r <= collision + root_bonus || r == i32::MIN
        },
        kill > 0 && (eat_reward >= 0 || !ate) ==>
            mod_score(child, 0, kill, ate, root_bonus, win, eat_reward) >= mod_score(child, 0, 0, ate, root_bonus, win, eat_reward),
        mod_score(child, 0, 0, false, root_bonus, win, eat_reward) == sat_i32(wrapping_neg(child) as int, root_bonus as int),
{
}

/// The score of a move from its child's score (see `mod_score`).
fn modified_score(child: i32, collision: i32, kill: i32, ate: bool, root_bonus: i32, win: i32, eat_reward: i32) -> (r: i32)
    requires
        -1_000_000_000 <= win <= 1_000_000_000,
    ensures
        r == mod_score(child, collision, kill, ate, root_bonus, win, eat_reward),
{
    let mut ms = 0i32.wrapping_sub(child);
    if collision < 0 && collision < ms {
        ms = collision;
    }
    let mag = if ms < 0 { 0i32.wrapping_sub(ms) } else { ms };
    let band = ((if win < 0 { -win } else { win }) / 10) * 9;
    let terminal = mag >= band;
    if !terminal {
        if kill > 0 {
            ms = saturating_add_i32(ms, kill);
        }
        if ate && ms > -50_000_000 {
            ms = saturating_add_i32(ms, eat_reward);
        }
    }
    saturating_add_i32(ms, root_bonus)
}

/// The root-only adjustment of a move, judged after it is played: the trap penalty when the mover
/// has no safe continuation, and in a crowded race of two long snakes a penalty of
/// `120 * |territory_control|` for a single continuation near the enemy head (within 5) and of
/// `2 * |territory_control|` for stepping onto the enemy tail.
pub open spec fn root_bonus_spec(g: Grid, me: Seq<Point>, en: Seq<Point>, mv: SearchMove, cfg: ScoreWeights, occupancy: int) -> int {
    let cont = safe_moves(g, me, en).len();
    let trap: int = if cont == 0 { cfg.trap_danger as int } else { 0 };
    let tc = abs_of(cfg.territory_control as int);
    let area = g.width * g.height;
    let dense = me.len() >= 20 && en.len() >= 20 && (((me.len() + en.len()) * 100) as int) / area >= occupancy;
    if dense && en.len() > 0 {
        let near: int = if cont == 1 && manhattan_spec(mv.x as int, mv.y as int, en[0].x as int, en[0].y as int) <= 5 { tc * 120 } else { 0 };
        let tail: int = if mv.x == en[en.len() - 1].x && mv.y == en[en.len() - 1].y { tc * 2 } else { 0 };
        trap - near - tail
    } else {
        trap
    }
}

/// The root-only adjustment of a move already played (see `root_bonus_spec`).
fn root_bonus(grid: &Grid, me: &AgentState, enemy: &AgentState, mv: SearchMove, cfg: &ScoreWeights, occupancy: usize) -> (r: i32)
    requires
        grid.wf(),
        me.body.wf(),
        enemy.body.wf(),
        me.body@.len() > 0,
        body_on_board(me.body@, grid.width as int, grid.height as int),
        body_on_board(enemy.body@, grid.width as int, grid.height as int),
        xy_in(grid.width as int, grid.height as int, mv.x as int, mv.y as int),
        weights_bounded(*cfg),
    ensures
        r == root_bonus_spec(*grid, me.body@, enemy.body@, mv, *cfg, occupancy as int),
{
    proof {
        assert(point_in(grid.width as int, grid.height as int, me.body@[0]));
        if enemy.body@.len() > 0 {
            assert(point_in(grid.width as int, grid.height as int, enemy.body@[0]));
            assert(point_in(grid.width as int, grid.height as int, enemy.body@[enemy.body@.len() - 1]));
        }
        assert(grid.width * grid.height > 0) by (nonlinear_arith)
            requires 0 <= mv.x < grid.width, 0 <= mv.y < grid.height;
    }
    let continuation_moves = get_safe_neighbors(grid, me, enemy).count();
    let mut bonus: i32 = 0;
    if continuation_moves == 0 {
        bonus = bonus + cfg.trap_danger;
    }
    let my_len = me.body.len();
    let enemy_len = enemy.body.len();
    let total_len = my_len + enemy_len;
    let total_area = (grid.width * grid.height) as usize;
    let dense_tail_race = my_len >= 20 && enemy_len >= 20 && (total_len * 100) / total_area >= occupancy;
    if dense_tail_race && !enemy.body.is_empty() {
        let tc = cfg.territory_control;
        let tc_abs = if tc < 0 { -tc } else { tc };
        let enemy_head = enemy.body.head();
        let enemy_head_dist = manhattan(Point { x: mv.x, y: mv.y }, enemy_head);
        if continuation_moves == 1 && enemy_head_dist <= 5 {
            bonus = bonus - tc_abs * 120;
        }
        let enemy_tail = enemy.body.last();
        if mv.x == enemy_tail.x && mv.y == enemy_tail.y {
            bonus = bonus - tc_abs * 2;
        }
    }
    bonus
}

/// The line `first` followed by `rest`, cut at 64 moves.
fn extend_line(first: Direction, rest: &PvLine) -> (p: PvLine)
    requires
        rest.len <= 64,
    ensures
        p.len <= 64,
        p.line() == (seq![first] + rest.line()).take(if rest.len < 64 { rest.len + 1 } else { 64 }),
{
    let mut p = PvLine::new();
    p.push(first);
    let mut i: usize = 0;
    while i < rest.len
        invariant
            rest.len <= 64,
            i <= rest.len,
            p.len <= 64,
            p.line() == (seq![first] + rest.line()).take(if i < 64 { i + 1 } else { 64 }),
        decreases rest.len - i,
    {
        let ghost before = p.line();
        p.push(rest.moves[i]);
        proof {
            let full = seq![first] + rest.line();
            assert(full[i + 1] == rest.moves@[i as int]);
            if i + 1 < 64 {
                assert(p.line() =~= full.take(i + 2));
            } else {
                assert(p.line() =~= full.take(64));
            }
        }
        i += 1;
    }
    p
}


/// `v` rotated left by `shift`: `v[shift..]` followed by `v[..shift]`.
fn rotate_moves(v: Vec<SearchMove>, shift: usize) -> (out: Vec<SearchMove>)
    requires
        shift <= v@.len(),
    ensures
        out@ == v@.subrange(shift as int, v@.len() as int) + v@.subrange(0, shift as int),
{
    let mut out: Vec<SearchMove> = Vec::new();
    let mut i: usize = shift;
    while i < v.len()
        invariant
            shift <= i <= v@.len(),
            out@ == v@.subrange(shift as int, i as int),
        decreases v@.len() - i,
    {
        out.push(v[i]);
        i += 1;
        assert(out@ =~= v@.subrange(shift as int, i as int));
    }
    let mut j: usize = 0;
    while j < shift
        invariant
            shift <= v@.len(),
            j <= shift,
            out@ == v@.subrange(shift as int, v@.len() as int) + v@.subrange(0, j as int),
        decreases shift - j,
    {
        out.push(v[j]);
        j += 1;
        assert(out@ =~= v@.subrange(shift as int, v@.len() as int) + v@.subrange(0, j as int));
    }
    out
}

/// The table entry's result: its score, no move, and its move (if any) as the line.
fn table_result(entry: TtEntry) -> (r: SearchResult)
    ensures
        r.score == entry.score,
        r.mv is None,
        r.children@.len() == 0,
        r.pv.len <= 1,
        r.pv.line() == table_line(entry),
        r.trace@ is Settled,
{
    let mut pv = PvLine::new();
    if let Some(d) = entry.get_direction() {
        pv.push(d);
        assert(pv.line() =~= seq![d]);
    } else {
        assert(pv.line() =~= Seq::<Direction>::empty());
    }
    SearchResult { score: entry.score, mv: None, children: Vec::new(), pv, trace: Ghost(SearchTrace::Settled) }
}

/// A result with a score only.
fn score_result(score: i32) -> (r: SearchResult)
    ensures
        r.score == score,
        r.mv is None,
        r.children@.len() == 0,
        r.pv.len == 0,
        r.trace@ is Settled,
{
    SearchResult { score, mv: None, children: Vec::new(), pv: PvLine::new(), trace: Ghost(SearchTrace::Settled) }
}

// ---------------------------------------------------------------------------------------------
// The search value: what `negamax` computes, node by node, with the table and history state
// threaded through the searches in the order they are made.
// ---------------------------------------------------------------------------------------------

/// The parts of a search context that a search changes: the table's slots, the two history
/// tables and the node count.
pub ghost struct CtxState {
    pub slots: Seq<TtEntry>,
    pub hist0: Seq<i32>,
    pub hist1: Seq<i32>,
    pub nodes: u64,
}

/// The changing parts of a context.
pub open spec fn ctx_state(c: SearchContext) -> CtxState {
    CtxState { slots: c.tt.slots(), hist0: c.history_table[0]@, hist1: c.history_table[1]@, nodes: c.nodes }
}

/// The parts of a search context that a search reads and never changes.
pub ghost struct SearchConsts {
    pub root_depth: int,
    pub weights: ScoreWeights,
    pub occupancy: int,
    pub curve: FoodCurve,
    pub capacity: int,
    pub generation: u16,
    pub thread_id: int,
}

/// The unchanging parts of a context.
pub open spec fn consts_of(c: SearchContext) -> SearchConsts {
    SearchConsts {
        root_depth: c.root_depth as int,
        weights: c.weights,
        occupancy: c.dense_tail_race_occupancy as int,
        curve: *c.curve,
        capacity: c.tt.capacity(),
        generation: c.tt.spec_generation(),
        thread_id: c.thread_id as int,
    }
}

/// One search that a node makes of a child position: the position, window and hash it was given,
/// the context state before and after it, and its result.
pub ghost struct CallTrace {
    pub grid: Grid,
    pub me: AgentState,
    pub en: AgentState,
    pub depth: int,
    pub alpha: int,
    pub beta: int,
    pub hash: u64,
    pub before: CtxState,
    pub after: CtxState,
    pub score: int,
    pub mv: Option<SearchMove>,
    pub trace: SearchTrace,
}

/// How a node was settled: without a further search; by one extended search of the same
/// position; or by searching its moves in the order given, with the searches made for each move
/// tried.
pub ghost enum SearchTrace {
    Settled,
    Extended(Seq<CallTrace>),
    Searched(Seq<SearchMove>, Seq<Seq<CallTrace>>),
}

/// The state between two moves of a node: the window's lower end, the best score, move and
/// tie-break so far, whether the window closed, and the context state.
pub ghost struct LoopState {
    pub alpha: int,
    pub best_score: int,
    pub best_move: SearchMove,
    pub best_tie: int,
    pub cut: bool,
    pub st: CtxState,
}

/// One more node counted (saturating).
pub open spec fn counted(s: CtxState) -> CtxState {
    CtxState { slots: s.slots, hist0: s.hist0, hist1: s.hist1, nodes: if s.nodes < u64::MAX { (s.nodes + 1) as u64 } else { s.nodes } }
}

/// The slot of a hash.
pub open spec fn slot_at(k: SearchConsts, hash: u64) -> int {
    (hash as usize) as int % k.capacity
}

/// The table's entry for a hash in the current generation.
pub open spec fn probe(k: SearchConsts, s: CtxState, hash: u64) -> Option<TtEntry> {
    lookup(s.slots, slot_at(k, hash), hash, k.generation)
}

/// The state after the table's `set`.
pub open spec fn stored(k: SearchConsts, s: CtxState, hash: u64, depth: int, score: int, flag: TtFlag, x: u8, y: u8, d: u8) -> CtxState {
    let slot = slot_at(k, hash);
    if replaces(s.slots[slot], hash, depth as usize, k.generation) {
        CtxState {
            slots: s.slots.update(slot, written_entry(hash, depth as usize, score as i32, flag, x, y, d, k.generation)),
            hist0: s.hist0,
            hist1: s.hist1,
            nodes: s.nodes,
        }
    } else {
        s
    }
}

/// The entry that settles a node (see `tt_cut`).
pub open spec fn settling(k: SearchConsts, entry: Option<TtEntry>, depth: int, alpha: int, beta: int) -> Option<TtEntry> {
    if depth != k.root_depth {
        match entry {
            Some(e) => if e.depth as int >= depth && (e.flag == TtFlag::Exact
                || (e.flag == TtFlag::LowerBound && (if e.score > alpha { e.score as int } else { alpha }) >= beta)
                || (e.flag == TtFlag::UpperBound && alpha >= (if e.score < beta { e.score as int } else { beta }))) {
                Some(e)
            } else {
                None
            },
            None => None,
        }
    } else {
        None
    }
}

/// The window after a table bound tightened it.
pub open spec fn window_after(k: SearchConsts, entry: Option<TtEntry>, depth: int, alpha: int, beta: int) -> (int, int) {
    match entry {
        Some(e) => if depth != k.root_depth && e.depth as int >= depth {
            if e.flag == TtFlag::LowerBound {
                (if e.score > alpha { e.score as int } else { alpha }, beta)
            } else if e.flag == TtFlag::UpperBound {
                (alpha, if e.score < beta { e.score as int } else { beta })
            } else {
                (alpha, beta)
            }
        } else {
            (alpha, beta)
        },
        None => (alpha, beta),
    }
}

/// The move of a table entry, as a target cell.
pub open spec fn pv_target_of(entry: Option<TtEntry>) -> Option<(i32, i32)> {
    match entry {
        Some(e) => if e.mv_x != 255 { Some((e.mv_x as i32, e.mv_y as i32)) } else { None },
        None => None,
    }
}

/// The collision penalty and kill bonus of side 0's move next to the enemy head.
pub open spec fn threat(side: int, me: AgentState, en: AgentState, mv: SearchMove, w: ScoreWeights) -> (int, int) {
    if side == 0 && en.body@.len() > 0
        && manhattan_spec(mv.x as int, mv.y as int, en.body@[0].x as int, en.body@[0].y as int) == 1 {
        if en.body@.len() > me.body@.len() {
            (w.head_on_collision as int, 0)
        } else if en.body@.len() == me.body@.len() {
            (w.draw as int, 0)
        } else {
            (0, w.kill_pressure as int)
        }
    } else {
        (0, 0)
    }
}

/// The leaf score (see `leaf_spec`).
pub open spec fn leaf_of(g: GridModel, me: AgentState, en: AgentState, side: int, dist: Option<Seq<i16>>, k: SearchConsts) -> int {
    if side == 0 {
        leaf_value(eval_spec(g, me, en, dist, k.weights, k.occupancy), me.health as int, k.curve)
    } else {
        -leaf_value(eval_spec(g, en, me, dist, k.weights, k.occupancy), en.health as int, k.curve)
    }
}

/// `v` rotated left by `shift`.
pub open spec fn rotated(v: Seq<SearchMove>, shift: int) -> Seq<SearchMove> {
    v.subrange(shift, v.len() as int) + v.subrange(0, shift)
}

/// The order a node tries its safe moves in: their search order (see `stable_order`) when there is more
/// than one, then at the root of a helper thread rotated by the thread's index.
pub open spec fn moves_ordered(g: Grid, hist: Seq<i32>, head_idx: int, pv: Option<(i32, i32)>, safe: Seq<SearchMove>,
    moves: Seq<SearchMove>, root: bool, thread_id: int) -> bool {
    if safe.len() <= 1 {
        moves == safe
    } else {
        exists|ordered: Seq<SearchMove>| {
            &&& ordered.len() == safe.len()
            &&& forall|x: SearchMove| ordered.contains(x) <==> safe.contains(x)
            &&& forall|i: int, j: int| 0 <= i < j < ordered.len() ==>
                !key_lt(order_key(g, hist, head_idx, pv, #[trigger] ordered[j]), order_key(g, hist, head_idx, pv, #[trigger] ordered[i]))
            &&& ordered == stable_order(g, hist, head_idx, pv, safe)
            &&& moves == if root && thread_id > 0 { rotated(ordered, thread_id % (ordered.len() as int)) } else { ordered }
        }
    }
}

/// Whether `call` is the search of the position after `me` (side `side`) plays `mv` in `g` against
/// `en`, to `depth` within `(alpha, beta)`, starting from context state `before`, and its result
/// is the search value (see `search_valid`).
pub open spec fn child_valid(k: SearchConsts, call: CallTrace, g: Grid, me: AgentState, en: AgentState, side: int,
    hash: u64, q: int, mv: SearchMove, depth: int, alpha: int, beta: int, before: CtxState) -> bool
    decreases (if depth >= 0 && 0 <= q <= 8 { depth + 2 * (8 - q) + 1 } else { 0 }) as nat, 0nat,
{
    let u = undo_spec(g, me.body@, me.health, side, mv);
    &&& depth >= 0
    &&& 0 <= q <= 8
    &&& call.grid.wf()
    &&& call.grid.width == g.width && call.grid.height == g.height && call.grid.ctx == g.ctx
    &&& call.grid.model() == made_model(g.model(), u)
    &&& call.me.body@ == en.body@ && call.me.health == en.health
    &&& call.en.body@ == made_body(me.body@, mv, u.ate_food)
    &&& call.en.health == (if u.ate_food { 100 } else { me.health - 1 })
    &&& call.hash == made_hash(hash, g.width as int, me.body@, me.health, side, mv, g.cell(mv.x as int, mv.y as int))
    &&& call.depth == depth && call.alpha == alpha && call.beta == beta
    &&& call.before == before
    &&& search_valid(call.grid, call.me, call.en, depth, alpha, beta, 1 - side, call.hash, q, None, k,
        before, call.after, call.score, call.mv, call.trace)
}

/// The searches made for one move tried at a node (the first with the full window; later ones by
/// a reduced null-window search when quiet and deep enough, then a null-window search, then a
/// full re-search when that falls inside the window): the child score used and the state after.
#[verifier::opaque]
pub open spec fn move_calls(k: SearchConsts, cs: Seq<CallTrace>, g: Grid, me: AgentState, en: AgentState, side: int,
    hash: u64, q: int, mv: SearchMove, depth: int, alpha: int, beta: int, first: bool, before: CtxState,
    coll: int, kill: int, rb: int) -> Option<(int, CtxState)>
    decreases (if depth >= 0 && 0 <= q <= 8 { depth + 2 * (8 - q) } else { 0 }) as nat, 1nat,
{
    let ate = undo_spec(g, me.body@, me.health, side, mv).ate_food;
    let md = |x: int| mod_score(x as i32, coll as i32, kill as i32, ate, rb as i32, k.weights.win, k.weights.eat_reward) as int;
    if depth < 1 || !(0 <= q <= 8) || cs.len() == 0 {
        None
    } else if first {
        if cs.len() == 1 && child_valid(k, cs[0], g, me, en, side, hash, q, mv, depth - 1, -beta, -alpha, before) {
            Some((cs[0].score, cs[0].after))
        } else {
            None
        }
    } else {
        let lmr = depth >= 5 && !ate && coll == 0 && kill == 0;
        let j: int = if lmr { 1 } else { 0 };
        if lmr && !child_valid(k, cs[0], g, me, en, side, hash, q, mv, depth - 2, -alpha - 1, -alpha, before) {
            None
        } else if lmr && md(cs[0].score) < alpha && !(md(cs[0].score) > 50_000_000) {
            if cs.len() == 1 { Some((cs[0].score, cs[0].after)) } else { None }
        } else {
            let b = if lmr { cs[0].after } else { before };
            if cs.len() < j + 1 || !child_valid(k, cs[j], g, me, en, side, hash, q, mv, depth - 1, -alpha - 1, -alpha, b) {
                None
            } else if md(cs[j].score) > alpha && md(cs[j].score) < beta {
                if cs.len() == j + 2 && child_valid(k, cs[j + 1], g, me, en, side, hash, q, mv, depth - 1, -beta, -alpha, cs[j].after) {
                    Some((cs[j + 1].score, cs[j + 1].after))
                } else {
                    None
                }
            } else {
                if cs.len() == j + 1 { Some((cs[j].score, cs[j].after)) } else { None }
            }
        }
    }
}

/// The state after the first `n` moves of a node have been tried, or `None` when the searches
/// recorded do not fit (or the window had already closed).
#[verifier::opaque]
pub open spec fn fold_moves(k: SearchConsts, g: Grid, me: AgentState, en: AgentState, depth: int, beta: int, side: int,
    hash: u64, q: int, root: bool, moves: Seq<SearchMove>, calls: Seq<Seq<CallTrace>>, n: int, start: LoopState) -> Option<LoopState>
    decreases (if depth >= 0 && 0 <= q <= 8 { depth + 2 * (8 - q) } else { 0 }) as nat, (if n > 0 { n + 2 } else { 0 }) as nat,
{
    if n <= 0 {
        Some(start)
    } else if n > 4 || n > moves.len() || n > calls.len() || depth < 1 || !(0 <= q <= 8) {
        None
    } else {
        match fold_moves(k, g, me, en, depth, beta, side, hash, q, root, moves, calls, n - 1, start) {
            None => None,
            Some(ls) => if ls.cut {
                None
            } else {
                let i = n - 1;
                let mv = moves[i];
                let cs = calls[i];
                let tc = threat(side, me, en, mv, k.weights);
                let ate = undo_spec(g, me.body@, me.health, side, mv).ate_food;
                let tie = if root { tie_break_spec(me.body@, en.body@, g.width as int, g.height as int, mv) } else { 0 };
                let rb = if root && cs.len() > 0 {
                    root_bonus_spec(cs[0].grid, cs[0].en.body@, en.body@, mv, k.weights, k.occupancy)
                } else {
                    0
                };
                match move_calls(k, cs, g, me, en, side, hash, q, mv, depth, ls.alpha, beta, i == 0, ls.st, tc.0, tc.1, rb) {
                    None => None,
                    Some((child, after)) => {
                        let m = mod_score(child as i32, tc.0 as i32, tc.1 as i32, ate, rb as i32, k.weights.win, k.weights.eat_reward) as int;
                        let better = m > ls.best_score || (m == ls.best_score && tie > ls.best_tie);
                        let best = if better { m } else { ls.best_score };
                        let a = if best > ls.alpha { best } else { ls.alpha };
                        Some(LoopState {
                            alpha: a,
                            best_score: best,
                            best_move: if better { mv } else { ls.best_move },
                            best_tie: if better { tie } else { ls.best_tie },
                            cut: a >= beta,
                            st: after,
                        })
                    },
                }
            },
        }
    }
}

/// A root record of move `mv`, searched by `cs`: its raw score is the last search's (the child
/// score the node used), its penalty and eating are the move's, and its adjusted score is
/// `mod_score` of the raw score with the move's kill bonus and root bonus.
pub open spec fn record_matches(rec: RootChildRecord, g: Grid, me: AgentState, en: AgentState, k: SearchConsts,
    mv: SearchMove, cs: Seq<CallTrace>) -> bool {
    let tc = threat(0, me, en, mv, k.weights);
    &&& rec.mv == mv
    &&& cs.len() > 0
    &&& rec.raw_recursion_score as int == cs.last().score
    &&& rec.collision_penalty as int == tc.0
    &&& rec.ate == undo_spec(g, me.body@, me.health, 0, mv).ate_food
    &&& rec.modified_score == mod_score(rec.raw_recursion_score, tc.0 as i32, tc.1 as i32, rec.ate,
        root_bonus_spec(cs[0].grid, cs[0].en.body@, en.body@, mv, k.weights, k.occupancy) as i32, k.weights.win, k.weights.eat_reward)
}

/// Whether the cell a move goes to touches the head of the snake with body `en`.
pub open spec fn next_to_head(mv: SearchMove, en: Seq<Point>) -> bool {
    en.len() > 0 && {
        let dx = mv.x as int - en[0].x as int;
        let dy = mv.y as int - en[0].y as int;
        (if dx < 0 { -dx } else { dx }) + (if dy < 0 { -dy } else { dy }) == 1
    }
}

/// A root record of a move next to the enemy head carries the head-on penalty and no kill bonus
/// when the enemy is longer, the draw score and no kill bonus when the lengths are equal, and the
/// kill bonus with no penalty when the enemy is shorter; a record of any other move carries
/// neither. The record's adjusted score is its child's score adjusted by that penalty and bonus.
pub proof fn lemma_root_record_threat(rec: RootChildRecord, g: Grid, me: AgentState, en: AgentState, k: SearchConsts,
    mv: SearchMove, cs: Seq<CallTrace>)
    requires
        record_matches(rec, g, me, en, k, mv, cs),
    ensures
        ({
            let ml = me.body@.len();
            let el = en.body@.len();
            let rb = root_bonus_spec(cs[0].grid, cs[0].en.body@, en.body@, mv, k.weights, k.occupancy) as i32;
            let adjusted = |p: i32, b: i32| mod_score(rec.raw_recursion_score, p, b, rec.ate, rb, k.weights.win, k.weights.eat_reward);
            &&& next_to_head(mv, en.body@) && el > ml ==> rec.collision_penalty == k.weights.head_on_collision
                && rec.modified_score == adjusted(k.weights.head_on_collision, 0)
            &&& next_to_head(mv, en.body@) && el == ml ==> rec.collision_penalty == k.weights.draw
                && rec.modified_score == adjusted(k.weights.draw, 0)
            &&& next_to_head(mv, en.body@) && el < ml ==> rec.collision_penalty == 0
                && rec.modified_score == adjusted(0, k.weights.kill_pressure)
            &&& !next_to_head(mv, en.body@) ==> rec.collision_penalty == 0 && rec.modified_score == adjusted(0, 0)
        }),
{
}

/// The root's records, one per move tried, in the order tried (see `record_matches`).
pub open spec fn records_match(r: SearchResult, g: Grid, me: AgentState, en: AgentState, k: SearchConsts) -> bool {
    r.trace@ matches SearchTrace::Searched(moves, calls) ==> {
        &&& r.children@.len() == calls.len()
        &&& calls.len() <= moves.len()
        &&& forall|i: int| 0 <= i < calls.len() ==> record_matches(#[trigger] r.children@[i], g, me, en, k, moves[i], calls[i])
    }
}

/// The state a searched node leaves: the history counter of its best move raised by `depth^2`
/// (wrapping), then the result stored in the table with its bound.
pub open spec fn node_out(k: SearchConsts, ls: LoopState, side: int, head_idx: int, depth: int, hash: u64,
    alpha0: int, beta: int) -> CtxState {
    let hidx = head_idx * 4 + ls.best_move.dir_int;
    let bump = (depth * depth) as i32;
    let h = if side == 0 {
        CtxState { slots: ls.st.slots, hist0: ls.st.hist0.update(hidx, ls.st.hist0[hidx].wrapping_add(bump)), hist1: ls.st.hist1, nodes: ls.st.nodes }
    } else {
        CtxState { slots: ls.st.slots, hist0: ls.st.hist0, hist1: ls.st.hist1.update(hidx, ls.st.hist1[hidx].wrapping_add(bump)), nodes: ls.st.nodes }
    };
    let flag = if ls.best_score <= alpha0 { TtFlag::UpperBound } else if ls.best_score >= beta { TtFlag::LowerBound } else { TtFlag::Exact };
    stored(k, h, hash, depth, ls.best_score, flag, ls.best_move.x as u8, ls.best_move.y as u8, spec_index(ls.best_move.dir) as u8)
}

/// A node that searched its safe moves: they were tried in order (see `moves_ordered`) from the
/// window `(a1, b1)` until all were tried or the window closed (see `fold_moves`); the best
/// adjusted child score is returned with its move, and the context leaves as `node_out` says.
#[verifier::opaque]
pub open spec fn node_valid(g: Grid, me: AgentState, en: AgentState, depth: int, alpha: int, a1: int, b1: int, side: int,
    hash: u64, q: int, k: SearchConsts, s1: CtxState, entry: Option<TtEntry>, s_out: CtxState, score: int,
    mv: Option<SearchMove>, t: SearchTrace) -> bool
    decreases (if depth >= 0 && 0 <= q <= 8 { depth + 2 * (8 - q) } else { 0 }) as nat, 50nat,
{
    let safe = safe_moves(g, me.body@, en.body@);
    t matches SearchTrace::Searched(moves, calls) && {
        let root = k.root_depth == depth && side == 0;
        let head_idx = me.body@[0].y * g.width + me.body@[0].x;
        let hist = if side == 0 { s1.hist0 } else { s1.hist1 };
        let init = LoopState { alpha: a1, best_score: SCORE_MIN as int, best_move: moves[0], best_tie: SCORE_MIN as int, cut: false, st: s1 };
        &&& moves_ordered(g, hist, head_idx, pv_target_of(entry), safe, moves, root, k.thread_id)
        &&& 1 <= calls.len() <= moves.len()
        &&& fold_moves(k, g, me, en, depth, b1, side, hash, q, root, moves, calls, calls.len() as int, init) matches Some(ls)
            && (calls.len() == moves.len() || ls.cut)
            && score == ls.best_score && mv == Some(ls.best_move)
            && s_out == node_out(k, ls, side, head_idx, depth, hash, alpha, b1)
    }
}

/// The search value of a node: the score and move `negamax` returns for `me` (side `side`) against
/// `en` in `g` to `depth` within `(alpha, beta)`, with the context going from state `s_in` to
/// `s_out`, as recorded by `t`. A table entry settles the node; a dead side loses or wins; at
/// depth 0 a crowded race is extended by a ply or the leaf is scored and stored; with no safe
/// move the node loses; otherwise the safe moves are tried in order (see `moves_ordered`,
/// `fold_moves`) and the best adjusted child score is returned with its move, counted in the
/// history and stored in the table (see `node_out`).
#[verifier::opaque]
pub open spec fn search_valid(g: Grid, me: AgentState, en: AgentState, depth: int, alpha: int, beta: int, side: int,
    hash: u64, q: int, dist: Option<Seq<i16>>, k: SearchConsts, s_in: CtxState, s_out: CtxState, score: int,
    mv: Option<SearchMove>, t: SearchTrace) -> bool
    decreases (if depth >= 0 && 0 <= q <= 8 { depth + 2 * (8 - q) } else { 0 }) as nat, 100nat,
{
    if depth < 0 || !(0 <= q <= 8) {
        false
    } else {
        let s1 = counted(s_in);
        let entry = probe(k, s_in, hash);
        match settling(k, entry, depth, alpha, beta) {
            Some(e) => score == e.score && mv is None && s_out == s1 && t is Settled,
            None => {
                let (a1, b1) = window_after(k, entry, depth, alpha, beta);
                if !alive(me) {
                    score == k.weights.loss - depth && mv is None && s_out == s1 && t is Settled
                } else if !alive(en) {
                    score == k.weights.win + depth && mv is None && s_out == s1 && t is Settled
                } else if depth == 0 {
                    if k.root_depth >= 3 && q < 8 && extend_spec(g, me.body@, en.body@, k.occupancy) {
                        t matches SearchTrace::Extended(cs) && cs.len() == 1 && {
                            let c0 = cs[0];
                            &&& c0.grid == g && c0.me == me && c0.en == en
                            &&& c0.depth == 1 && c0.alpha == a1 && c0.beta == b1 && c0.hash == hash
                            &&& c0.before == s1 && c0.after == s_out && c0.score == score && c0.mv == mv
                            &&& search_valid(g, me, en, 1, a1, b1, side, hash, q + 1, dist, k, s1, s_out, score, mv, c0.trace)
                        }
                    } else {
                        let v = leaf_of(g.model(), me, en, side, dist, k);
                        &&& score == v && mv is None && t is Settled
                        &&& s_out == stored(k, s1, hash, 0, v, TtFlag::Exact, 255, 255, 255)
                    }
                } else {
                    let safe = safe_moves(g, me.body@, en.body@);
                    if safe.len() == 0 {
                        score == k.weights.loss - depth && mv is None && s_out == s1 && t is Settled
                    } else {
                        node_valid(g, me, en, depth, alpha, a1, b1, side, hash, q, k, s1, entry, s_out, score, mv, t)
                    }
                }
            },
        }
    }
}


/// The table entry that settles a node before any move is searched: one stored for the same
/// position in the current generation, at least `depth` deep, at a node other than the root, that
/// is exact or whose bound closes the window.
pub open spec fn tt_cut(c: SearchContext, hash: u64, depth: usize, alpha: i32, beta: i32) -> Option<TtEntry> {
    if depth != c.root_depth {
        match lookup(c.tt.slots(), c.tt.slot_of(hash), hash, c.tt.spec_generation()) {
            Some(e) => if e.depth as int >= depth && (e.flag == TtFlag::Exact
                || (e.flag == TtFlag::LowerBound && (if e.score > alpha { e.score } else { alpha }) >= beta)
                || (e.flag == TtFlag::UpperBound && alpha >= (if e.score < beta { e.score } else { beta }))) {
                Some(e)
            } else {
                None
            },
            None => None,
        }
    } else {
        None
    }
}

/// The line a table entry gives: its move's direction, when it stores one.
pub open spec fn table_line(e: TtEntry) -> Seq<Direction> {
    match dir_of_byte(e.mv_dir) {
        Some(d) => seq![d],
        None => Seq::empty(),
    }
}

/// Whether a node is the root of the search for side 0.
pub open spec fn is_root_node(f: SearchFrame, c: SearchContext) -> bool {
    c.root_depth == f.depth && f.side == 0
}

/// What the root records of its searched moves: one record per move tried, in the order tried,
/// each a safe move whose adjusted score is at most the result's; the returned move is a record
/// whose adjusted score is the result's (or the first record, when every adjusted score fell
/// below `SCORE_MIN`, the score then being `SCORE_MIN`); and moves are left untried only when the
/// score reached `beta`.
pub open spec fn children_outcome(r: SearchResult, moves: Seq<SearchMove>, beta: i32, m: SearchMove) -> bool {
    let ch = r.children@;
    &&& 0 < ch.len() <= moves.len()
    &&& r.score >= SCORE_MIN
    &&& forall|k: int| 0 <= k < ch.len() ==> moves.contains((#[trigger] ch[k]).mv) && ch[k].modified_score <= r.score
    &&& exists|k: int| 0 <= k < ch.len() && (#[trigger] ch[k]).mv == m
        && (ch[k].modified_score == r.score || (k == 0 && r.score == SCORE_MIN))
    &&& ch.len() < moves.len() ==> r.score >= beta
}

/// What a search returns when no table entry settles the node: a loss (less the depth) when the
/// side to move is out, a win (plus the depth) when the other side is, a loss when no move is
/// safe, and at depth 0 without an extension the leaf score, each with no move, no records and an
/// empty line. When a move is safe, a move is returned and the line starts with it; the root also
/// records its children (see `children_outcome`), other nodes record none.
pub open spec fn search_outcome(g: Grid, me: AgentState, en: AgentState, f: SearchFrame, c: SearchContext, r: SearchResult) -> bool {
    let depth = f.depth as int;
    let moves = safe_moves(g, me.body@, en.body@);
    let settled = r.mv is None && r.children@.len() == 0 && r.pv.len == 0;
    &&& !alive(me) ==> r.score == c.weights.loss - depth && settled
    &&& alive(me) && !alive(en) ==> r.score == c.weights.win + depth && settled
    &&& alive(me) && alive(en) && depth > 0 ==> (r.mv is Some <==> moves.len() > 0)
    &&& alive(me) && alive(en) && depth > 0 && moves.len() == 0 ==> r.score == c.weights.loss - depth && settled
    &&& alive(me) && alive(en) && depth == 0
        && !(c.root_depth >= 3 && f.q_depth < QUIESCENCE_MAX_EXTENSIONS
            && extend_spec(g, me.body@, en.body@, c.dense_tail_race_occupancy as int))
        ==> r.score == leaf_spec(g.model(), me, en, f.side, dist_view(f.dist_map), c) && settled
    &&& alive(me) && alive(en) && depth > 0 && moves.len() > 0 ==> (r.mv matches Some(m)
        && r.pv.len >= 1 && r.pv.line()[0] == m.dir
        && if is_root_node(f, c) { children_outcome(r, moves, f.beta, m) } else { r.children@.len() == 0 })
}

/// `move_calls` reads a position only through the grid's model and geometry and the sides'
/// bodies and healths.
#[verifier::rlimit(60)]
#[verifier::spinoff_prover]
proof fn lemma_move_calls_congruent(k: SearchConsts, cs: Seq<CallTrace>, g1: Grid, me1: AgentState, en1: AgentState,
    g2: Grid, me2: AgentState, en2: AgentState, side: int, hash: u64, q: int, mv: SearchMove, depth: int, alpha: int,
    beta: int, first: bool, before: CtxState, coll: int, kill: int, rb: int)
    requires
        g1.model() == g2.model(),
        g1.width == g2.width && g1.height == g2.height && g1.ctx == g2.ctx,
        me1.body@ == me2.body@ && me1.health == me2.health,
        en1.body@ == en2.body@ && en1.health == en2.health,
    ensures
        move_calls(k, cs, g1, me1, en1, side, hash, q, mv, depth, alpha, beta, first, before, coll, kill, rb)
            == move_calls(k, cs, g2, me2, en2, side, hash, q, mv, depth, alpha, beta, first, before, coll, kill, rb),
        undo_spec(g1, me1.body@, me1.health, side, mv) == undo_spec(g2, me2.body@, me2.health, side, mv),
{
    reveal(move_calls);
    assert(g1.food@ == g2.food@ && g1.my_body@ == g2.my_body@ && g1.enemy_body@ == g2.enemy_body@);
    assert(g1.cell(mv.x as int, mv.y as int) == g2.cell(mv.x as int, mv.y as int));
    let t1 = me1.body@.last();
    assert(g1.cell(t1.x as int, t1.y as int) == g2.cell(t1.x as int, t1.y as int));
    assert(undo_spec(g1, me1.body@, me1.health, side, mv) == undo_spec(g2, me2.body@, me2.health, side, mv));
    assert forall|c: CallTrace, d: int, a: int, b: int, bf: CtxState|
        #[trigger] child_valid(k, c, g1, me1, en1, side, hash, q, mv, d, a, b, bf) == child_valid(k, c, g2, me2, en2, side, hash, q, mv, d, a, b, bf) by {
        reveal_with_fuel(child_valid, 1);
    }
}

/// `safe_moves` reads a grid only through its model and geometry.
proof fn lemma_safe_moves_congruent(g1: Grid, g2: Grid, me: Seq<Point>, en: Seq<Point>)
    requires
        g1.model() == g2.model(),
        g1.width == g2.width && g1.height == g2.height,
    ensures
        safe_moves(g1, me, en) == safe_moves(g2, me, en),
{
    assert(g1.food@ == g2.food@ && g1.my_body@ == g2.my_body@ && g1.enemy_body@ == g2.enemy_body@);
    assert forall|x: int, y: int| #[trigger] food_at(g1, x, y) == food_at(g2, x, y) by {}
    assert forall|x: int, y: int| #[trigger] unoccupied(g1, x, y) == unoccupied(g2, x, y) by {}
    if me.len() > 0 {
        assert forall|p: Point| #[trigger] can_eat_next(g1, p) == can_eat_next(g2, p) by {
            if can_eat_next(g1, p) {
                let d = choose|d: (int, int)| (d == (0int, 0int) || d == (0int, 1int) || d == (0int, -1int) || d == (-1int, 0int) || d == (1int, 0int))
                    && #[trigger] food_at(g1, p.x + d.0, p.y + d.1);
                assert(food_at(g2, p.x + d.0, p.y + d.1));
            }
            if can_eat_next(g2, p) {
                let d = choose|d: (int, int)| (d == (0int, 0int) || d == (0int, 1int) || d == (0int, -1int) || d == (-1int, 0int) || d == (1int, 0int))
                    && #[trigger] food_at(g2, p.x + d.0, p.y + d.1);
                assert(food_at(g1, p.x + d.0, p.y + d.1));
            }
        }
        let f1 = |d: Direction| move_safe(g1, me, en, d);
        let f2 = |d: Direction| move_safe(g2, me, en, d);
        assert(f1 =~= f2);
    }
}

/// The moves tried so far fold the same way whatever is recorded after them.
proof fn lemma_fold_prefix(k: SearchConsts, g: Grid, me: AgentState, en: AgentState, depth: int, beta: int, side: int,
    hash: u64, q: int, root: bool, moves: Seq<SearchMove>, calls: Seq<Seq<CallTrace>>, extra: Seq<CallTrace>, n: int, start: LoopState)
    requires
        n <= calls.len(),
    ensures
        fold_moves(k, g, me, en, depth, beta, side, hash, q, root, moves, calls.push(extra), n, start)
            == fold_moves(k, g, me, en, depth, beta, side, hash, q, root, moves, calls, n, start),
    decreases n,
{
    reveal(fold_moves);
    if n > 0 {
        lemma_fold_prefix(k, g, me, en, depth, beta, side, hash, q, root, moves, calls, extra, n - 1, start);
        assert(calls.push(extra)[n - 1] == calls[n - 1]);
    }
}

/// A recorded child search that fits the move and whose result is the search value.
#[verifier::rlimit(60)]
#[verifier::spinoff_prover]
proof fn lemma_child_valid_intro(k: SearchConsts, call: CallTrace, g: Grid, me: AgentState, en: AgentState, side: int,
    hash: u64, q: int, mv: SearchMove, depth: int, alpha: int, beta: int, before: CtxState)
    requires
        depth >= 0,
        0 <= q <= 8,
        call.grid.wf(),
        call.grid.width == g.width && call.grid.height == g.height && call.grid.ctx == g.ctx,
        call.grid.model() == made_model(g.model(), undo_spec(g, me.body@, me.health, side, mv)),
        call.me.body@ == en.body@ && call.me.health == en.health,
        call.en.body@ == made_body(me.body@, mv, undo_spec(g, me.body@, me.health, side, mv).ate_food),
        call.en.health == (if undo_spec(g, me.body@, me.health, side, mv).ate_food { 100 } else { me.health - 1 }),
        call.hash == made_hash(hash, g.width as int, me.body@, me.health, side, mv, g.cell(mv.x as int, mv.y as int)),
        call.depth == depth && call.alpha == alpha && call.beta == beta,
        call.before == before,
        search_valid(call.grid, call.me, call.en, depth, alpha, beta, 1 - side, call.hash, q, None, k,
            before, call.after, call.score, call.mv, call.trace),
    ensures
        child_valid(k, call, g, me, en, side, hash, q, mv, depth, alpha, beta, before),
{
}

/// What one move of a node yields: the child score used, its line, the adjusted score, the
/// root tie-break, the collision penalty, whether the move eats, and the searches made.
pub struct MoveOutcome {
    pub child_score: i32,
    pub child_pv: PvLine,
    pub modified: i32,
    pub tie_break: i32,
    pub collision: i32,
    pub ate: bool,
    pub calls: Ghost<Seq<CallTrace>>,
}

/// Whether a node's context and position allow a move to be searched to `depth` within
/// `(alpha, beta)`.
pub open spec fn move_ready(grid: Grid, me: AgentState, en: AgentState, c: SearchContext, depth: usize, alpha: i32,
    beta: i32, side: usize, q: usize) -> bool {
    &&& position_ready(grid, me, en, *c.curve)
    &&& ctx_ready(c, grid)
    &&& alive(me)
    &&& alive(en)
    &&& side <= 1
    &&& q <= QUIESCENCE_MAX_EXTENSIONS
    &&& 0 < depth
    &&& me.body@.len() + depth + QUIESCENCE_MAX_EXTENSIONS - q < 512
    &&& en.body@.len() + depth + QUIESCENCE_MAX_EXTENSIONS - q < 512
    &&& alpha >= -2_000_000_001
    &&& beta <= 2_000_000_001
    &&& alpha < beta
}

/// The searches of the child position after `mp` (side `side`) played `mv` in `gp`: the current
/// grid and `me` are that position. Gives the child score used, its line and the searches made
/// (see `move_calls`); the position is left as it was.
#[verifier::rlimit(100)]
#[verifier::spinoff_prover]
fn child_searches(grid: &mut Grid, me: &mut AgentState, enemy: &mut AgentState, ctx: &mut SearchContext<'_>, first: bool,
    depth: usize, alpha: i32, beta: i32, side: usize, next_hash: u64, q_depth: usize, ate: bool, coll: i32, kill: i32, rb: i32,
    Ghost(gp): Ghost<Grid>, Ghost(mp): Ghost<AgentState>, Ghost(hash): Ghost<u64>, Ghost(mv): Ghost<SearchMove>)
    -> (r: (i32, PvLine, Ghost<Seq<CallTrace>>))
    requires
        old(grid).wf(),
        old(grid).width == gp.width && old(grid).height == gp.height && old(grid).ctx == gp.ctx,
        old(grid).model() == made_model(gp.model(), undo_spec(gp, mp.body@, mp.health, side as int, mv)),
        ate == undo_spec(gp, mp.body@, mp.health, side as int, mv).ate_food,
        old(me).body@ == made_body(mp.body@, mv, ate),
        old(me).health == (if ate { 100 } else { mp.health - 1 }),
        next_hash == made_hash(hash, gp.width as int, mp.body@, mp.health, side as int, mv, gp.cell(mv.x as int, mv.y as int)),
        position_ready(*old(grid), *old(enemy), *old(me), *old(ctx).curve),
        ctx_ready(*old(ctx), *old(grid)),
        side <= 1,
        q_depth <= QUIESCENCE_MAX_EXTENSIONS,
        0 < depth,
        old(enemy).body@.len() + depth + QUIESCENCE_MAX_EXTENSIONS - q_depth < 513,
        old(me).body@.len() + depth + QUIESCENCE_MAX_EXTENSIONS - q_depth < 513,
        alpha >= -2_000_000_001,
        beta <= 2_000_000_001,
        alpha < beta,
        -1_000_000_000 <= old(ctx).weights.win <= 1_000_000_000,
    ensures
        final(grid).wf(),
        final(grid).width == old(grid).width,
        final(grid).height == old(grid).height,
        final(grid).ctx == old(grid).ctx,
        final(grid).model() == old(grid).model(),
        final(me).body.wf(),
        final(me).body@ == old(me).body@,
        final(me).health == old(me).health,
        final(enemy).body.wf(),
        final(enemy).body@ == old(enemy).body@,
        final(enemy).health == old(enemy).health,
        ctx_kept(*old(ctx), *final(ctx)),
        r.1.len <= 64,
        r.2@.len() > 0,
        r.2@[0].grid == *old(grid),
        r.2@[0].en.body@ == old(me).body@,
        r.0 as int == r.2@.last().score,
        move_calls(consts_of(*old(ctx)), r.2@, gp, mp, *old(enemy), side as int, hash, q_depth as int, mv, depth as int,
            alpha as int, beta as int, first, ctx_state(*old(ctx)), coll as int, kill as int, rb as int) == Some((r.0 as int, ctx_state(*final(ctx)))),
    decreases depth + 2 * (QUIESCENCE_MAX_EXTENSIONS - q_depth), 0nat,
{
    let win = ctx.weights.win;
    let eat = ctx.weights.eat_reward;
    let mut child_score: i32 = 0;
    let mut child_pv = PvLine::new();
    let ghost mut cs: Seq<CallTrace> = Seq::empty();
    let ghost st_move = ctx_state(*ctx);
    let ghost en_now = *enemy;
    let ghost me_now = *me;
    if first {
        let ghost gc = *grid;
        let ghost sb = ctx_state(*ctx);
        let child = negamax(grid, enemy, me, SearchFrame {
            dist_map: None, depth: depth - 1, alpha: -beta, beta: -alpha, side: 1 - side,
            current_hash: next_hash, q_depth,
        }, ctx);
        proof {
            let call = CallTrace { grid: gc, me: en_now, en: me_now, depth: depth - 1, alpha: -beta, beta: -alpha,
                hash: next_hash, before: sb, after: ctx_state(*ctx), score: child.score as int, mv: child.mv, trace: child.trace@ };
            lemma_child_valid_intro(consts_of(*old(ctx)), call, gp, mp, *old(enemy), side as int, hash, q_depth as int, mv,
                depth - 1, -beta, -alpha, call.before);
            cs = cs.push(call);
        }
        child_score = child.score;
        child_pv = child.pv;
    } else {
        let mut needs_full_search = true;
        if depth >= 5 && !ate && coll == 0 && kill == 0 {
            let ghost gc = *grid;
            let ghost sb = ctx_state(*ctx);
            let child_lmr = negamax(grid, enemy, me, SearchFrame {
                dist_map: None, depth: depth - 2, alpha: -alpha - 1, beta: -alpha, side: 1 - side,
                current_hash: next_hash, q_depth,
            }, ctx);
            proof {
                let call = CallTrace { grid: gc, me: en_now, en: me_now, depth: depth - 2, alpha: -alpha - 1, beta: -alpha,
                    hash: next_hash, before: sb, after: ctx_state(*ctx), score: child_lmr.score as int, mv: child_lmr.mv, trace: child_lmr.trace@ };
            lemma_child_valid_intro(consts_of(*old(ctx)), call, gp, mp, *old(enemy), side as int, hash, q_depth as int, mv,
                depth - 2, -alpha - 1, -alpha, call.before);
                cs = cs.push(call);
            }
            let temp_mod_lmr = modified_score(child_lmr.score, coll, kill, ate, rb, win, eat);
            let is_massive_win = temp_mod_lmr > 50_000_000;
            if temp_mod_lmr < alpha && !is_massive_win {
                child_score = child_lmr.score;
                child_pv = child_lmr.pv;
                needs_full_search = false;
            }
        }
        if needs_full_search {
            let ghost gc = *grid;
            let ghost sb = ctx_state(*ctx);
            let ghost mc = *enemy;
            let ghost ec = *me;
            let child = negamax(grid, enemy, me, SearchFrame {
                dist_map: None, depth: depth - 1, alpha: -alpha - 1, beta: -alpha, side: 1 - side,
                current_hash: next_hash, q_depth,
            }, ctx);
            proof {
                let call = CallTrace { grid: gc, me: mc, en: ec, depth: depth - 1, alpha: -alpha - 1, beta: -alpha,
                    hash: next_hash, before: sb, after: ctx_state(*ctx), score: child.score as int, mv: child.mv, trace: child.trace@ };
            lemma_child_valid_intro(consts_of(*old(ctx)), call, gp, mp, *old(enemy), side as int, hash, q_depth as int, mv,
                depth - 1, -alpha - 1, -alpha, call.before);
                cs = cs.push(call);
            }
            child_score = child.score;
            child_pv = child.pv;
            let temp_mod = modified_score(child_score, coll, kill, ate, rb, win, eat);
            if temp_mod > alpha && temp_mod < beta {
                let ghost gc2 = *grid;
                let ghost sb2 = ctx_state(*ctx);
                let ghost mc2 = *enemy;
                let ghost ec2 = *me;
                let child_re = negamax(grid, enemy, me, SearchFrame {
                    dist_map: None, depth: depth - 1, alpha: -beta, beta: -alpha, side: 1 - side,
                    current_hash: next_hash, q_depth,
                }, ctx);
                proof {
                    let call = CallTrace { grid: gc2, me: mc2, en: ec2, depth: depth - 1, alpha: -beta, beta: -alpha,
                        hash: next_hash, before: sb2, after: ctx_state(*ctx), score: child_re.score as int, mv: child_re.mv, trace: child_re.trace@ };
                    lemma_child_valid_intro(consts_of(*old(ctx)), call, gp, mp, *old(enemy), side as int, hash, q_depth as int, mv,
                        depth - 1, -beta, -alpha, call.before);
                    cs = cs.push(call);
                }
                child_score = child_re.score;
                child_pv = child_re.pv;
            }
        }
    }
    proof {
        assert(move_calls(consts_of(*old(ctx)), cs, gp, mp, *old(enemy), side as int, hash, q_depth as int, mv, depth as int,
            alpha as int, beta as int, first, st_move, coll as int, kill as int, rb as int)
            == Some((child_score as int, ctx_state(*ctx)))) by {
            reveal(move_calls);
        }
    }
    (child_score, child_pv, Ghost(cs))
}

/// Plays `mv` for `me`, searches the child position (see `move_calls`), adjusts the child's score
/// (see `mod_score`) and takes the move back.
#[verifier::rlimit(100)]
#[verifier::spinoff_prover]
fn search_move(grid: &mut Grid, me: &mut AgentState, enemy: &mut AgentState, ctx: &mut SearchContext<'_>, mv: SearchMove,
    first: bool, depth: usize, alpha: i32, beta: i32, side: usize, hash: u64, q_depth: usize, is_root: bool) -> (r: MoveOutcome)
    requires
        move_ready(*old(grid), *old(me), *old(enemy), *old(ctx), depth, alpha, beta, side, q_depth),
        safe_moves(*old(grid), old(me).body@, old(enemy).body@).contains(mv),
        is_root == (old(ctx).root_depth == depth && side == 0),
    ensures
        final(grid).wf(),
        final(grid).width == old(grid).width,
        final(grid).height == old(grid).height,
        final(grid).ctx == old(grid).ctx,
        final(grid).model() == old(grid).model(),
        final(me).body.wf(),
        final(me).body@ == old(me).body@,
        final(me).health == old(me).health,
        final(enemy).body.wf(),
        final(enemy).body@ == old(enemy).body@,
        final(enemy).health == old(enemy).health,
        ctx_kept(*old(ctx), *final(ctx)),
        r.child_pv.len <= 64,
        r.ate == undo_spec(*old(grid), old(me).body@, old(me).health, side as int, mv).ate_food,
        r.collision as int == threat(side as int, *old(me), *old(enemy), mv, old(ctx).weights).0,
        r.tie_break as int == if is_root { tie_break_spec(old(me).body@, old(enemy).body@, old(grid).width as int, old(grid).height as int, mv) } else { 0 },
        r.calls@.len() > 0,
        r.child_score as int == r.calls@.last().score,
        ({
            let tc = threat(side as int, *old(me), *old(enemy), mv, old(ctx).weights);
            let rb = if is_root {
                root_bonus_spec(r.calls@[0].grid, r.calls@[0].en.body@, old(enemy).body@, mv, old(ctx).weights, old(ctx).dense_tail_race_occupancy as int)
            } else {
                0
            };
            &&& move_calls(consts_of(*old(ctx)), r.calls@, *old(grid), *old(me), *old(enemy), side as int, hash, q_depth as int, mv,
                depth as int, alpha as int, beta as int, first, ctx_state(*old(ctx)), tc.0, tc.1, rb) == Some((r.child_score as int, ctx_state(*final(ctx))))
            &&& r.modified == mod_score(r.child_score, tc.0 as i32, tc.1 as i32, r.ate, rb as i32, old(ctx).weights.win, old(ctx).weights.eat_reward)
        }),
    decreases depth + 2 * (QUIESCENCE_MAX_EXTENSIONS - q_depth), 1nat,
{
    let ghost grid0 = *grid;
    let ghost g0 = grid.model();
    let ghost me0 = me.body@;
    let ghost en0 = enemy.body@;
    let ghost ctx0 = *ctx;
    let ghost w = grid0.width as int;
    let ghost h = grid0.height as int;
    proof {
        lemma_safe_move_target(grid0, me0, en0, mv);
        assert(point_in(w, h, me0[me0.len() - 1]));
        assert(point_in(w, h, en0[en0.len() - 1]));
    }
    let mut collision_penalty: i32 = 0;
    let mut kill_threat_bonus: i32 = 0;
    if side == 0 && !enemy.body.is_empty() {
        let opp_head = enemy.body.head();
        let dist = manhattan(Point { x: mv.x, y: mv.y }, opp_head);
        if dist == 1 {
            let my_len = me.body.len();
            let opp_len = enemy.body.len();
            if opp_len > my_len {
                collision_penalty = ctx.weights.head_on_collision;
            } else if opp_len == my_len {
                collision_penalty = ctx.weights.draw;
            } else {
                kill_threat_bonus = ctx.weights.kill_pressure;
            }
        }
    }
    let tie_break = if is_root { root_tie_breaker(me, enemy, grid.width, grid.height, mv) } else { 0 };
    let ghost grid_before = *grid;
    let (undo, next_hash) = make_move(grid, me, side, mv, hash, &ctx.zobrist);
    let ghost gm = grid.model();
    let ghost me_m = me.body@;
    let ghost mh_m = me.health;
    let mut rb: i32 = 0;
    if is_root {
        rb = root_bonus(grid, me, enemy, mv, &ctx.weights, ctx.dense_tail_race_occupancy);
    }
    let win = ctx.weights.win;
    let eat = ctx.weights.eat_reward;
    let (child_score, child_pv, cs_g) = child_searches(grid, me, enemy, ctx, first, depth, alpha, beta, side, next_hash, q_depth,
        undo.ate_food, collision_penalty, kill_threat_bonus, rb, Ghost(grid0), Ghost(*old(me)), Ghost(hash), Ghost(mv));
    let ghost cs = cs_g@;
    let modified = modified_score(child_score, collision_penalty, kill_threat_bonus, undo.ate_food, rb, win, eat);
    unmake_move(grid, me, undo, Ghost(g0), Ghost(me0));
    MoveOutcome { child_score, child_pv, modified, tie_break, collision: collision_penalty, ate: undo.ate_food, calls: Ghost(cs) }
}

/// One more move tried extends the fold by the step `fold_moves` takes.
#[verifier::rlimit(100)]
#[verifier::spinoff_prover]
proof fn lemma_fold_step(k: SearchConsts, g: Grid, me: AgentState, en: AgentState, depth: int, beta: int, side: int,
    hash: u64, q: int, root: bool, moves: Seq<SearchMove>, calls: Seq<Seq<CallTrace>>, cs: Seq<CallTrace>, start: LoopState,
    prev: LoopState, child: int, after: CtxState)
    requires
        calls.len() < moves.len(),
        calls.len() < 4,
        depth >= 1,
        0 <= q <= 8,
        fold_moves(k, g, me, en, depth, beta, side, hash, q, root, moves, calls, calls.len() as int, start) == Some(prev),
        !prev.cut,
        cs.len() > 0,
        move_calls(k, cs, g, me, en, side, hash, q, moves[calls.len() as int], depth, prev.alpha, beta, calls.len() == 0, prev.st,
            threat(side, me, en, moves[calls.len() as int], k.weights).0, threat(side, me, en, moves[calls.len() as int], k.weights).1,
            if root { root_bonus_spec(cs[0].grid, cs[0].en.body@, en.body@, moves[calls.len() as int], k.weights, k.occupancy) } else { 0 })
            == Some((child, after)),
    ensures
        ({
            let i = calls.len() as int;
            let mv = moves[i];
            let tc = threat(side, me, en, mv, k.weights);
            let ate = undo_spec(g, me.body@, me.health, side, mv).ate_food;
            let tie = if root { tie_break_spec(me.body@, en.body@, g.width as int, g.height as int, mv) } else { 0 };
            let rb = if root { root_bonus_spec(cs[0].grid, cs[0].en.body@, en.body@, mv, k.weights, k.occupancy) } else { 0 };
            let m = mod_score(child as i32, tc.0 as i32, tc.1 as i32, ate, rb as i32, k.weights.win, k.weights.eat_reward) as int;
            let better = m > prev.best_score || (m == prev.best_score && tie > prev.best_tie);
            let best = if better { m } else { prev.best_score };
            let a = if best > prev.alpha { best } else { prev.alpha };
            fold_moves(k, g, me, en, depth, beta, side, hash, q, root, moves, calls.push(cs), i + 1, start) == Some(LoopState {
                alpha: a,
                best_score: best,
                best_move: if better { mv } else { prev.best_move },
                best_tie: if better { tie } else { prev.best_tie },
                cut: a >= beta,
                st: after,
            })
        }),
{
    lemma_fold_prefix(k, g, me, en, depth, beta, side, hash, q, root, moves, calls, cs, calls.len() as int, start);
    assert(calls.push(cs)[calls.len() as int] == cs);
    reveal(fold_moves);
}

/// A searched node whose moves, searches and result fit `node_valid`.
#[verifier::rlimit(100)]
#[verifier::spinoff_prover]
proof fn lemma_node_valid_intro(g: Grid, me: AgentState, en: AgentState, depth: int, alpha: int, a1: int, b1: int, side: int,
    hash: u64, q: int, k: SearchConsts, s1: CtxState, entry: Option<TtEntry>, s_out: CtxState, score: int,
    mv: Option<SearchMove>, moves: Seq<SearchMove>, calls: Seq<Seq<CallTrace>>, ls: LoopState)
    requires
        moves_ordered(g, if side == 0 { s1.hist0 } else { s1.hist1 }, me.body@[0].y * g.width + me.body@[0].x,
            pv_target_of(entry), safe_moves(g, me.body@, en.body@), moves, k.root_depth == depth && side == 0, k.thread_id),
        1 <= calls.len() <= moves.len(),
        fold_moves(k, g, me, en, depth, b1, side, hash, q, k.root_depth == depth && side == 0, moves, calls, calls.len() as int,
            LoopState { alpha: a1, best_score: SCORE_MIN as int, best_move: moves[0], best_tie: SCORE_MIN as int, cut: false, st: s1 }) == Some(ls),
        calls.len() == moves.len() || ls.cut,
        score == ls.best_score,
        mv == Some(ls.best_move),
        s_out == node_out(k, ls, side, me.body@[0].y * g.width + me.body@[0].x, depth, hash, alpha, b1),
    ensures
        node_valid(g, me, en, depth, alpha, a1, b1, side, hash, q, k, s1, entry, s_out, score, mv, SearchTrace::Searched(moves, calls)),
{
    reveal(node_valid);
}

/// The searched node of `negamax`: both sides alive, depth positive, no table entry settling it,
/// and the window `(alpha, beta)` after the table's bound; `ctx_in` is the context before the
/// node was counted.
#[verifier::rlimit(100)]
#[verifier::spinoff_prover]
fn search_node(grid: &mut Grid, me: &mut AgentState, enemy: &mut AgentState, frame: SearchFrame<'_>, ctx: &mut SearchContext<'_>,
    alpha: i32, beta: i32, tt_entry: Option<TtEntry>, Ghost(ctx_in): Ghost<SearchContext<'_>>) -> (res: SearchResult)
    requires
        position_ready(*old(grid), *old(me), *old(enemy), *old(ctx).curve),
        ctx_ready(*old(ctx), *old(grid)),
        frame_ready(frame, *old(me), *old(enemy)),
        alive(*old(me)),
        alive(*old(enemy)),
        frame.depth > 0,
        ctx_kept(ctx_in, *old(ctx)),
        ctx_ready(ctx_in, *old(grid)),
        ctx_state(*old(ctx)) == counted(ctx_state(ctx_in)),
        tt_entry == probe(consts_of(ctx_in), ctx_state(ctx_in), frame.current_hash),
        tt_cut(ctx_in, frame.current_hash, frame.depth, frame.alpha, frame.beta) is None,
        settling(consts_of(ctx_in), tt_entry, frame.depth as int, frame.alpha as int, frame.beta as int) is None,
        window_after(consts_of(ctx_in), tt_entry, frame.depth as int, frame.alpha as int, frame.beta as int) == (alpha as int, beta as int),
        alpha >= -2_000_000_001,
        beta <= 2_000_000_001,
        alpha < beta,
        old(ctx).root_depth == frame.depth ==> alpha == frame.alpha && beta == frame.beta,
    ensures
        final(grid).wf(),
        final(grid).width == old(grid).width,
        final(grid).height == old(grid).height,
        final(grid).ctx == old(grid).ctx,
        final(grid).model() == old(grid).model(),
        final(me).body.wf(),
        final(me).body@ == old(me).body@,
        final(me).health == old(me).health,
        final(enemy).body.wf(),
        final(enemy).body@ == old(enemy).body@,
        final(enemy).health == old(enemy).health,
        ctx_kept(ctx_in, *final(ctx)),
        res.pv.len <= 64,
        res.children@.len() <= 4,
        res.mv matches Some(m) ==> safe_moves(*old(grid), old(me).body@, old(enemy).body@).contains(m),
        search_outcome(*old(grid), *old(me), *old(enemy), frame, ctx_in, res),
        search_valid(*old(grid), *old(me), *old(enemy), frame.depth as int, frame.alpha as int, frame.beta as int,
            frame.side as int, frame.current_hash, frame.q_depth as int, dist_view(frame.dist_map), consts_of(ctx_in),
            ctx_state(ctx_in), ctx_state(*final(ctx)), res.score as int, res.mv, res.trace@),
        is_root_node(frame, ctx_in) ==> records_match(res, *old(grid), *old(me), *old(enemy), consts_of(ctx_in)),
    decreases frame.depth + 2 * (QUIESCENCE_MAX_EXTENSIONS - frame.q_depth), 2nat,
{
    let ghost grid0 = *grid;
    let ghost g0 = grid.model();
    let ghost me0 = me.body@;
    let ghost en0 = enemy.body@;
    let ghost ctx0 = ctx_in;
    let ghost kc = consts_of(ctx_in);
    let ghost s1 = ctx_state(*ctx);
    let ghost a_start = alpha;
    let mut alpha = alpha;
    let beta = beta;
    let depth = frame.depth;
    let side = frame.side;
    let current_hash = frame.current_hash;
    let q_depth = frame.q_depth;
    let original_alpha = frame.alpha;
    let ghost w = grid0.width as int;
    let ghost h = grid0.height as int;
    proof {
        assert(point_in(w, h, me0[0]));
        assert(point_in(w, h, en0[0]));
        assert(w * h > 0) by (nonlinear_arith) requires 0 <= me0[0].x < w, 0 <= me0[0].y < h;
    }
    let is_root = ctx.root_depth == depth && side == 0;
    let head = me.body.head();
    proof {
        assert(0 <= head.y * w + head.x < w * h) by {
            assert(head.y * w + head.x < w * h) by (nonlinear_arith) requires 0 <= head.x < w, 0 <= head.y < h;
            assert(head.y * w + head.x >= 0) by (nonlinear_arith) requires 0 <= head.x < w, 0 <= head.y < h;
        }
        assert(w * h <= 448);
    }
    let head_idx = (head.y * grid.width + head.x) as usize;
    let mut move_list = get_safe_neighbors(grid, me, enemy);
    if move_list.count() == 0 {
                let r = score_result(ctx.weights.loss - depth as i32);
                proof {
                    assert(search_valid(*old(grid), *old(me), *old(enemy), frame.depth as int, frame.alpha as int, frame.beta as int,
                frame.side as int, frame.current_hash, frame.q_depth as int, dist_view(frame.dist_map), consts_of(ctx0),
                ctx_state(ctx0), ctx_state(*ctx), r.score as int, r.mv, r.trace@)) by {
                        reveal(search_valid);
                    }
                }
                return r;
            }
    let raw = move_list.as_mut_slice();
    let ghost safe = safe_moves(grid0, me0, en0);
    proof {
        assert forall|k: int| 0 <= k < raw@.len() implies move_in(w, h, #[trigger] raw@[k]) by {
            assert(safe.contains(raw@[k]));
            lemma_safe_move_target(grid0, me0, en0, raw@[k]);
        }
        lemma_safe_moves_len(grid0, me0, en0);
    }
    let pv_target: Option<(i32, i32)> = match tt_entry {
        Some(e) => if e.mv_x != 255 { Some((e.mv_x as i32, e.mv_y as i32)) } else { None },
        None => None,
    };
    let mut moves = raw;
    let ghost mut ordered: Seq<SearchMove> = moves@;
    if moves.len() > 1 {
        moves = order_moves(moves, grid, &ctx.history_table[side], head_idx, pv_target);
        proof {
            ordered = moves@;
        }
        if is_root && ctx.thread_id > 0 {
            let shift = ctx.thread_id % moves.len();
            let ghost before = moves@;
            moves = rotate_moves(moves, shift);
            proof {
                assert forall|x: SearchMove| moves@.contains(x) implies before.contains(x) by {
                    let j = choose|j: int| 0 <= j < moves@.len() && moves@[j] == x;
                    if j < before.len() - shift {
                        assert(before[j + shift] == x);
                    } else {
                        assert(before[j - (before.len() - shift)] == x);
                    }
                }
            }
        }
    }
    proof {
        assert forall|k: int| 0 <= k < moves@.len() implies safe.contains(#[trigger] moves@[k]) by {
            assert(moves@.contains(moves@[k]));
        }
    }
    let n = moves.len();
    let ghost init = LoopState { alpha: alpha as int, best_score: SCORE_MIN as int, best_move: moves@[0], best_tie: SCORE_MIN as int, cut: false, st: s1 };
    let ghost mut calls: Seq<Seq<CallTrace>> = Seq::empty();
    proof {
        assert(ctx_state(*ctx) == s1);
        assert(fold_moves(kc, grid0, *old(me), *old(enemy), depth as int, beta as int, side as int, current_hash, q_depth as int,
            is_root, moves@, calls, 0, init) == Some(init)) by {
            reveal(fold_moves);
        }
    }
    let mut child_records: Vec<RootChildRecord> = Vec::new();
    let mut best_move = moves[0];
    let mut best_score = SCORE_MIN;
    let mut best_tie_break = SCORE_MIN;
    let mut best_pv = PvLine::new();
    let mut i: usize = 0;
    let mut cut = false;
    let ghost mh0 = me.health;
    let ghost eh0 = enemy.health;
    proof {
        assert(moves@[0] == best_move);
        assert(moves@.contains(best_move));
    }
    while i < n && !cut
        invariant
            grid.wf(),
            grid.width == grid0.width,
            grid.height == grid0.height,
            grid.ctx == grid0.ctx,
            grid.model() == g0,
            g0 == grid0.model(),
            w == grid0.width as int,
            h == grid0.height as int,
            layers_disjoint(g0),
            me.body.wf(),
            me.body@ == me0,
            me.health == mh0,
            enemy.body.wf(),
            enemy.body@ == en0,
            enemy.health == eh0,
            0 < me0.len(),
            0 < en0.len(),
            0 < mh0 <= ctx0.curve.spec_max_health(),
            0 < eh0 <= ctx0.curve.spec_max_health(),
            body_on_board(me0, w, h),
            body_on_board(en0, w, h),
            ctx_kept(ctx0, *ctx),
            ctx_ready(ctx0, grid0),
            frame_ready(frame, *old(me), *old(enemy)),
            me0 == old(me).body@,
            en0 == old(enemy).body@,
            depth == frame.depth,
            depth > 0,
            side == frame.side,
            q_depth == frame.q_depth,
            current_hash == frame.current_hash,
            n == moves@.len(),
            0 < n <= 4,
            i <= n,
            forall|k: int| 0 <= k < n ==> safe.contains(#[trigger] moves@[k]),
            safe == safe_moves(grid0, me0, en0),
            moves@.contains(best_move),
            best_pv.len <= 64,
            child_records@.len() <= i,
            n == safe.len(),
            is_root == is_root_node(frame, ctx0),
            is_root ==> beta == frame.beta,
            is_root ==> child_records@.len() == i,
            !is_root ==> child_records@.len() == 0,
            is_root ==> forall|k: int| 0 <= k < i ==> (#[trigger] child_records@[k]).mv == moves@[k]
                && child_records@[k].modified_score <= best_score,
            is_root && i > 0 ==> exists|k: int| 0 <= k < i && (#[trigger] child_records@[k]).mv == best_move
                && (child_records@[k].modified_score == best_score || (k == 0 && best_score == SCORE_MIN)),
            best_score >= SCORE_MIN,
            i == 0 ==> best_move == moves@[0] && best_score == SCORE_MIN,
            cut ==> best_score >= beta && i > 0,
            mh0 == old(me).health && eh0 == old(enemy).health,
            calls.len() == i,
            is_root ==> forall|k: int| 0 <= k < i ==> record_matches(#[trigger] child_records@[k], grid0, *old(me), *old(enemy), kc, moves@[k], calls[k]),
            kc == consts_of(ctx0),
            consts_of(*ctx) == kc,
            fold_moves(kc, grid0, *old(me), *old(enemy), depth as int, beta as int, side as int, current_hash, q_depth as int,
                is_root, moves@, calls, i as int, init) == Some(LoopState {
                    alpha: alpha as int, best_score: best_score as int, best_move, best_tie: best_tie_break as int, cut, st: ctx_state(*ctx),
                }),
            alpha >= -2_000_000_001,
            beta <= 2_000_000_001,
            !cut ==> alpha < beta,
            head_idx as int == me0[0].y * w + me0[0].x,
            0 <= head_idx < w * h,
            w * h <= 448,
        decreases n - i,
    {
        let mv = moves[i];
        proof {
            assert(safe.contains(mv));
        }
        let ghost prev_ls = LoopState { alpha: alpha as int, best_score: best_score as int, best_move, best_tie: best_tie_break as int, cut, st: ctx_state(*ctx) };
        let ghost grid_at = *grid;
        let ghost me_at = *me;
        let ghost en_at = *enemy;
        let ghost st_at = ctx_state(*ctx);
        proof {
            assert(safe_moves(grid_at, me_at.body@, en_at.body@) == safe_moves(grid0, me0, en0)) by {
                lemma_safe_moves_congruent(grid_at, grid0, me0, en0);
            }
        }
        let out = search_move(grid, me, enemy, ctx, mv, i == 0, depth, alpha, beta, side, current_hash, q_depth, is_root);
        let child_score = out.child_score;
        let child_pv = out.child_pv;
        let modified = out.modified;
        let tie_break = out.tie_break;
        let collision_penalty = out.collision;
        let ghost cs = out.calls@;
        proof {
            let tc = threat(side as int, me_at, en_at, mv, kc.weights);
            let rb = if is_root {
                root_bonus_spec(cs[0].grid, cs[0].en.body@, en0, mv, kc.weights, kc.occupancy)
            } else {
                0
            };
            lemma_move_calls_congruent(kc, cs, grid_at, me_at, en_at, grid0, *old(me), *old(enemy), side as int, current_hash,
                q_depth as int, mv, depth as int, alpha as int, beta as int, i == 0, st_at, tc.0, tc.1, rb);
        }
        let ghost cr_before = child_records@;
        if is_root {
            child_records.push(RootChildRecord {
                mv,
                raw_recursion_score: child_score,
                collision_penalty,
                ate: out.ate,
                modified_score: modified,
            });
        }
        let ghost best_before = best_score;
        let ghost move_before = best_move;
        if modified > best_score || (modified == best_score && tie_break > best_tie_break) {
            best_score = modified;
            best_move = mv;
            best_tie_break = tie_break;
            best_pv = child_pv;
        }
        if best_score > alpha {
            alpha = best_score;
        }
        if alpha >= beta {
            cut = true;
        }
        proof {
            lemma_fold_step(kc, grid0, *old(me), *old(enemy), depth as int, beta as int, side as int, current_hash,
                q_depth as int, is_root, moves@, calls, cs, init, prev_ls, child_score as int, ctx_state(*ctx));
            let ghost calls_before = calls;
            calls = calls.push(cs);
            if is_root {
                assert(child_records@[i as int] == child_records@.last());
                assert(record_matches(child_records@[i as int], grid0, *old(me), *old(enemy), kc, moves@[i as int], calls[i as int]));
                assert forall|k: int| 0 <= k < i + 1 implies record_matches(#[trigger] child_records@[k], grid0, *old(me), *old(enemy), kc, moves@[k], calls[k]) by {
                    if k < i {
                        assert(child_records@[k] == cr_before[k]);
                        assert(calls[k] == calls_before[k]);
                    }
                }
            }
        }
        proof {
            if is_root {
                let cr = child_records@;
                assert(cr[i as int].mv == mv && cr[i as int].modified_score == modified);
                assert forall|k: int| 0 <= k < i + 1 implies (#[trigger] cr[k]).mv == moves@[k]
                    && cr[k].modified_score <= best_score by {
                    if k < i {
                        assert(cr[k] == cr_before[k]);
                    }
                }
                if best_move == mv && best_score == modified {
                    assert(cr[i as int].mv == best_move);
                } else if i == 0 {
                    assert(best_score == SCORE_MIN && best_move == moves@[0]);
                    assert(cr[0].mv == best_move);
                } else {
                    assert(best_score == best_before && best_move == move_before);
                    let k0 = choose|k: int| 0 <= k < i && (#[trigger] cr_before[k]).mv == move_before
                        && (cr_before[k].modified_score == best_before || (k == 0 && best_before == SCORE_MIN));
                    assert(cr[k0] == cr_before[k0]);
                    assert(cr[k0].mv == best_move);
                }
            }
        }
        i += 1;
    }
    proof {
        assert(safe.contains(best_move));
        lemma_safe_move_target(grid0, me0, en0, best_move);
    }
    proof {
        assert(depth * depth <= 511 * 511) by (nonlinear_arith) requires 0 < depth < 512;
    }
    let ghost ls_st = ctx_state(*ctx);
    let bump = (depth * depth) as i32;
    let hidx = head_idx * 4 + best_move.dir_int;
    let hv = ctx.history_table[side][hidx].wrapping_add(bump);
    ctx.history_table[side].set(hidx, hv);
    let ghost st_h = ctx_state(*ctx);
    proof {
        if side == 0 {
            assert(st_h.hist0 == ls_st.hist0.update(hidx as int, ls_st.hist0[hidx as int].wrapping_add(bump)));
            assert(st_h.hist1 == ls_st.hist1);
        } else {
            assert(st_h.hist1 == ls_st.hist1.update(hidx as int, ls_st.hist1[hidx as int].wrapping_add(bump)));
            assert(st_h.hist0 == ls_st.hist0);
        }
    }
    let tt_flag = if best_score <= original_alpha {
        TtFlag::UpperBound
    } else if best_score >= beta {
        TtFlag::LowerBound
    } else {
        TtFlag::Exact
    };
    let dir_byte: u8 = match best_move.dir {
        Direction::Up => 0,
        Direction::Down => 1,
        Direction::Left => 2,
        Direction::Right => 3,
    };
    ctx.tt.set(current_hash, depth, best_score, tt_flag, best_move.x as u8, best_move.y as u8, dir_byte);
    let final_pv = extend_line(best_move.dir, &best_pv);
    proof {
        assert(final_pv.line()[0] == best_move.dir);
        if is_root {
            let ch = child_records@;
            assert(i == n || best_score >= beta);
            assert forall|k: int| 0 <= k < ch.len() implies safe.contains((#[trigger] ch[k]).mv) && ch[k].modified_score <= best_score by {
                assert(ch[k].mv == moves@[k]);
            }
            let k0 = choose|k: int| 0 <= k < i && (#[trigger] ch[k]).mv == best_move
                && (ch[k].modified_score == best_score || (k == 0 && best_score == SCORE_MIN));
        }
    }
    let res = SearchResult { score: best_score, mv: Some(best_move), children: child_records, pv: final_pv,
        trace: Ghost(SearchTrace::Searched(moves@, calls)) };
    proof {
        let hist = if side == 0 { s1.hist0 } else { s1.hist1 };
        let hix = me0[0].y * grid0.width + me0[0].x;
        assert(head_idx as int == hix);
        assert(tt_entry == probe(kc, ctx_state(ctx0), current_hash));
        assert(pv_target == pv_target_of(tt_entry));
        if safe.len() > 1 {
            assert(moves_ordered(grid0, hist, hix, pv_target_of(tt_entry), safe, moves@, is_root, kc.thread_id)) by {
                assert(ordered.len() == safe.len());
            }
        }
        let ls = LoopState { alpha: alpha as int, best_score: best_score as int, best_move, best_tie: best_tie_break as int, cut, st: ls_st };
        assert(ctx_state(*ctx) == node_out(kc, ls, side as int, hix, depth as int, current_hash, frame.alpha as int, beta as int));
        assert(1 <= calls.len() <= moves@.len());
        assert(calls.len() == moves@.len() || cut);
        assert(init == LoopState { alpha: a_start as int, best_score: SCORE_MIN as int, best_move: moves@[0], best_tie: SCORE_MIN as int, cut: false, st: s1 });
        assert(fold_moves(kc, grid0, *old(me), *old(enemy), depth as int, beta as int, side as int, current_hash, q_depth as int,
            is_root, moves@, calls, calls.len() as int, init) == Some(ls));
        if safe.len() <= 1 {
            assert(moves@ == safe);
        }
        assert(moves_ordered(grid0, hist, hix, pv_target_of(tt_entry), safe, moves@, is_root, kc.thread_id));
        assert(counted(ctx_state(ctx0)) == s1);
        assert(is_root == (kc.root_depth == depth as int && side as int == 0));
        lemma_node_valid_intro(*old(grid), *old(me), *old(enemy), frame.depth as int, frame.alpha as int, a_start as int, beta as int,
            frame.side as int, frame.current_hash, frame.q_depth as int, kc, s1, tt_entry, ctx_state(*ctx), res.score as int, res.mv,
            moves@, calls, ls);
        assert(search_valid(*old(grid), *old(me), *old(enemy), frame.depth as int, frame.alpha as int, frame.beta as int,
            frame.side as int, frame.current_hash, frame.q_depth as int, dist_view(frame.dist_map), consts_of(ctx0),
            ctx_state(ctx0), ctx_state(*ctx), res.score as int, res.mv, res.trace@)) by {
            reveal(search_valid);
        }
    }
    proof {
        if is_root {
            assert(children_outcome(res, safe, frame.beta, best_move));
        }
        assert(res.pv.line().len() >= 1);
        assert(res.pv.len >= 1);
        assert(res.pv.line()[0] == best_move.dir);
        assert(is_root == is_root_node(frame, ctx0));
        assert(!is_root ==> res.children@.len() == 0);
        assert(safe_moves(grid0, old(me).body@, old(enemy).body@) == safe);
        assert(search_outcome(grid0, *old(me), *old(enemy), frame, ctx0, res));
    }
    res
}

/// Searches the position for `me` (side `frame.side`) to `frame.depth` plies within the window
/// `(frame.alpha, frame.beta)`, in negamax form: scores are from `me`'s point of view and a
/// child's score is negated. A table entry for the position can settle the node first. Dead
/// sides end the search with a loss or win adjusted by the depth; at depth 0 a crowded race may be
/// extended by a ply (at most eight times), otherwise the position is evaluated. Otherwise the
/// safe moves are tried in order (the table's move, then history, food and centre; helper
/// threads rotate the root moves): the first with a full window, later ones with a reduced
/// search when quiet and deep enough and a null window, re-searched when it falls inside the
/// window. Each child score is adjusted (see `mod_score`, with root-only bonuses and tie-breaks),
/// the best move is stored in the table and its history counter raised by `depth^2`. Every move
/// played is taken back: the grid, both bodies and both healths are left as they were.
#[verifier::rlimit(80)]
#[verifier::spinoff_prover]
pub fn negamax(grid: &mut Grid, me: &mut AgentState, enemy: &mut AgentState, frame: SearchFrame<'_>, ctx: &mut SearchContext<'_>) -> (res: SearchResult)
    requires
        position_ready(*old(grid), *old(me), *old(enemy), *old(ctx).curve),
        ctx_ready(*old(ctx), *old(grid)),
        frame_ready(frame, *old(me), *old(enemy)),
    ensures
        final(grid).wf(),
        final(grid).width == old(grid).width,
        final(grid).height == old(grid).height,
        final(grid).ctx == old(grid).ctx,
        final(grid).model() == old(grid).model(),
        final(me).body.wf(),
        final(me).body@ == old(me).body@,
        final(me).health == old(me).health,
        final(enemy).body.wf(),
        final(enemy).body@ == old(enemy).body@,
        final(enemy).health == old(enemy).health,
        ctx_kept(*old(ctx), *final(ctx)),
        res.pv.len <= 64,
        res.children@.len() <= 4,
        res.mv matches Some(m) ==> safe_moves(*old(grid), old(me).body@, old(enemy).body@).contains(m),
        match tt_cut(*old(ctx), frame.current_hash, frame.depth, frame.alpha, frame.beta) {
            Some(e) => res.score == e.score && res.mv is None && res.children@.len() == 0 && res.pv.line() == table_line(e),
            None => search_outcome(*old(grid), *old(me), *old(enemy), frame, *old(ctx), res),
        },
        search_valid(*old(grid), *old(me), *old(enemy), frame.depth as int, frame.alpha as int, frame.beta as int,
            frame.side as int, frame.current_hash, frame.q_depth as int, dist_view(frame.dist_map), consts_of(*old(ctx)),
            ctx_state(*old(ctx)), ctx_state(*final(ctx)), res.score as int, res.mv, res.trace@),
        is_root_node(frame, *old(ctx)) ==> records_match(res, *old(grid), *old(me), *old(enemy), consts_of(*old(ctx))),
    decreases frame.depth + 2 * (QUIESCENCE_MAX_EXTENSIONS - frame.q_depth), 3nat,
{
    let ghost grid0 = *grid;
    let ghost g0 = grid.model();
    let ghost me0 = me.body@;
    let ghost en0 = enemy.body@;
    let ghost ctx0 = *ctx;
    let depth = frame.depth;
    let mut alpha = frame.alpha;
    let mut beta = frame.beta;
    let side = frame.side;
    let current_hash = frame.current_hash;
    let q_depth = frame.q_depth;
    let dist_map = frame.dist_map;
    if ctx.nodes < u64::MAX {
        ctx.nodes = ctx.nodes + 1;
    }
    let ghost kc = consts_of(ctx0);
    let ghost s1 = ctx_state(*ctx);
    assert(s1 == counted(ctx_state(ctx0)));
    let original_alpha = alpha;
    let tt_entry = ctx.tt.get(current_hash);
    if depth != ctx.root_depth {
        if let Some(entry) = tt_entry {
            if entry.depth as usize >= depth {
                if entry.flag == TtFlag::Exact {
                let r = table_result(entry);
                proof {
                    assert(search_valid(*old(grid), *old(me), *old(enemy), frame.depth as int, frame.alpha as int, frame.beta as int,
                frame.side as int, frame.current_hash, frame.q_depth as int, dist_view(frame.dist_map), consts_of(ctx0),
                ctx_state(ctx0), ctx_state(*ctx), r.score as int, r.mv, r.trace@)) by {
                        reveal(search_valid);
                    }
                }
                return r;
            } else if entry.flag == TtFlag::LowerBound {
                    if entry.score > alpha {
                        alpha = entry.score;
                    }
                } else {
                    if entry.score < beta {
                        beta = entry.score;
                    }
                }
                if alpha >= beta {
                let r = table_result(entry);
                proof {
                    assert(search_valid(*old(grid), *old(me), *old(enemy), frame.depth as int, frame.alpha as int, frame.beta as int,
                frame.side as int, frame.current_hash, frame.q_depth as int, dist_view(frame.dist_map), consts_of(ctx0),
                ctx_state(ctx0), ctx_state(*ctx), r.score as int, r.mv, r.trace@)) by {
                        reveal(search_valid);
                    }
                }
                return r;
            }
            }
        }
    }
    assert(tt_cut(ctx0, current_hash, depth, frame.alpha, frame.beta) is None);
    if me.body.is_empty() || me.health <= 0 {
                let r = score_result(ctx.weights.loss - depth as i32);
                proof {
                    assert(search_valid(*old(grid), *old(me), *old(enemy), frame.depth as int, frame.alpha as int, frame.beta as int,
                frame.side as int, frame.current_hash, frame.q_depth as int, dist_view(frame.dist_map), consts_of(ctx0),
                ctx_state(ctx0), ctx_state(*ctx), r.score as int, r.mv, r.trace@)) by {
                        reveal(search_valid);
                    }
                }
                return r;
            }
    if enemy.body.is_empty() || enemy.health <= 0 {
                let r = score_result(ctx.weights.win + depth as i32);
                proof {
                    assert(search_valid(*old(grid), *old(me), *old(enemy), frame.depth as int, frame.alpha as int, frame.beta as int,
                frame.side as int, frame.current_hash, frame.q_depth as int, dist_view(frame.dist_map), consts_of(ctx0),
                ctx_state(ctx0), ctx_state(*ctx), r.score as int, r.mv, r.trace@)) by {
                        reveal(search_valid);
                    }
                }
                return r;
            }
    let ghost w = grid0.width as int;
    let ghost h = grid0.height as int;
    proof {
        assert(point_in(w, h, me0[0]));
        assert(point_in(w, h, en0[0]));
        assert(w * h > 0) by (nonlinear_arith) requires 0 <= me0[0].x < w, 0 <= me0[0].y < h;
    }
    if depth == 0 {
        if ctx.root_depth >= 3 && q_depth < QUIESCENCE_MAX_EXTENSIONS
            && should_extend_leaf(grid, me, enemy, ctx.dense_tail_race_occupancy) {
            let ghost s_call = ctx_state(*ctx);
            let r = negamax(grid, me, enemy, SearchFrame { dist_map, depth: 1, alpha, beta, side, current_hash, q_depth: q_depth + 1 }, ctx);
            let ghost call = CallTrace {
                grid: grid0, me: *old(me), en: *old(enemy), depth: 1, alpha: alpha as int, beta: beta as int,
                hash: current_hash, before: s_call, after: ctx_state(*ctx), score: r.score as int, mv: r.mv, trace: r.trace@,
            };
            let r2 = SearchResult { score: r.score, mv: r.mv, children: r.children, pv: r.pv, trace: Ghost(SearchTrace::Extended(seq![call])) };
            proof {
                assert(search_valid(*old(grid), *old(me), *old(enemy), frame.depth as int, frame.alpha as int, frame.beta as int,
                    frame.side as int, frame.current_hash, frame.q_depth as int, dist_view(frame.dist_map), consts_of(ctx0),
                    ctx_state(ctx0), ctx_state(*ctx), r2.score as int, r2.mv, r2.trace@)) by {
                    reveal(search_valid);
                }
            }
            return r2;
        }
        let score = evaluate_leaf(grid, me, enemy, side, dist_map, ctx);
        ctx.tt.set(current_hash, 0, score, TtFlag::Exact, 255, 255, 255);
        {
                let r = score_result(score);
                proof {
                    assert(search_valid(*old(grid), *old(me), *old(enemy), frame.depth as int, frame.alpha as int, frame.beta as int,
                frame.side as int, frame.current_hash, frame.q_depth as int, dist_view(frame.dist_map), consts_of(ctx0),
                ctx_state(ctx0), ctx_state(*ctx), r.score as int, r.mv, r.trace@)) by {
                        reveal(search_valid);
                    }
                }
                return r;
            }
    }
    proof {
        assert(settling(kc, tt_entry, depth as int, frame.alpha as int, frame.beta as int) is None);
        assert(window_after(kc, tt_entry, depth as int, frame.alpha as int, frame.beta as int) == (alpha as int, beta as int));
    }
    search_node(grid, me, enemy, frame, ctx, alpha, beta, tt_entry, Ghost(ctx0))
}

} // verus!
