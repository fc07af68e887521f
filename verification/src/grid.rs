use vstd::prelude::*;
use crate::bitboard::{BitBoard, SearchContext, on_board};
use crate::types::Point;
use crate::model::FastBody;

verus! {

/// Cell code for an empty cell.
pub const EMPTY: i8 = 0;
/// Cell code for food.
pub const FOOD: i8 = 1;
/// Cell code for a segment of the searching snake.
pub const MY_BODY: i8 = 2;
/// Cell code for a segment of the opponent.
pub const ENEMY_BODY: i8 = 3;
/// Cell code returned for coordinates off the board.
pub const OFF_BOARD: i8 = 9;

/// A board as three cell layers (food, own body, enemy body) plus precomputed geometry.
#[derive(Clone, Debug)]
pub struct Grid {
    pub width: i32,
    pub height: i32,
    pub ctx: SearchContext,
    pub food: BitBoard,
    pub my_body: BitBoard,
    pub enemy_body: BitBoard,
}

/// Whether `(x, y)` lies on a `w` by `h` board.
pub open spec fn xy_in(w: int, h: int, x: int, y: int) -> bool {
    0 <= x < w && 0 <= y < h
}

/// Every cell of `b` lies on a `w` by `h` board.
pub open spec fn on_board_only(b: BitBoard, w: int, h: int) -> bool {
    forall|i: int| 0 <= i < 448 && #[trigger] b@[i] ==> on_board(i, w, h)
}

/// A grid as its size and three cell layers.
pub ghost struct GridModel {
    pub w: int,
    pub h: int,
    pub food: Seq<bool>,
    pub mine: Seq<bool>,
    pub theirs: Seq<bool>,
}

/// The layers after setting cell `(x, y)` to exactly one layer (1, 2 or 3) or clearing it (any
/// other code); unchanged off the board.
pub open spec fn set_model(m: GridModel, x: int, y: int, val: i8) -> GridModel {
    if xy_in(m.w, m.h, x, y) {
        let i = y * m.w + x;
        GridModel {
            food: m.food.update(i, val == FOOD),
            mine: m.mine.update(i, val == MY_BODY),
            theirs: m.theirs.update(i, val == ENEMY_BODY),
            ..m
        }
    } else {
        m
    }
}

/// The code of cell `(x, y)` of a model, as `Grid::get` reports it.
pub open spec fn cell_model(m: GridModel, x: int, y: int) -> i8 {
    if !xy_in(m.w, m.h, x, y) {
        OFF_BOARD
    } else {
        let i = y * m.w + x;
        if m.mine[i] { MY_BODY } else if m.theirs[i] { ENEMY_BODY } else if m.food[i] { FOOD } else { EMPTY }
    }
}

impl Grid {
    /// The size and layers of this grid.
    pub open spec fn model(&self) -> GridModel {
        GridModel { w: self.width as int, h: self.height as int, food: self.food@, mine: self.my_body@, theirs: self.enemy_body@ }
    }

    /// The geometry matches the size and every layer lies on the board.
    pub open spec fn wf(&self) -> bool {
        &&& self.ctx.wf()
        &&& self.ctx.width as int == self.width
        &&& self.ctx.height as int == self.height
        &&& on_board_only(self.food, self.width as int, self.height as int)
        &&& on_board_only(self.my_body, self.width as int, self.height as int)
        &&& on_board_only(self.enemy_body, self.width as int, self.height as int)
    }

    /// The index of cell `(x, y)`.
    pub open spec fn index_of(&self, x: int, y: int) -> int {
        y * self.width + x
    }

    /// The code `get` reports for cell index `i` of an on-board cell.
    pub open spec fn code_at(&self, i: int) -> i8 {
        if self.my_body@[i] {
            MY_BODY
        } else if self.enemy_body@[i] {
            ENEMY_BODY
        } else if self.food@[i] {
            FOOD
        } else {
            EMPTY
        }
    }

    /// The code of cell `(x, y)`: off-board, own body, enemy body, food or empty, in that priority.
    pub open spec fn cell(&self, x: int, y: int) -> i8 {
        if !xy_in(self.width as int, self.height as int, x, y) {
            OFF_BOARD
        } else {
            self.code_at(self.index_of(x, y))
        }
    }

    /// An empty grid of `width` columns and `height` rows.
    pub fn new(width: i32, height: i32) -> (g: Self)
        requires
            0 < width < 256,
            0 <= height < 256,
            width * height <= 448,
        ensures
            g.wf(),
            g.width == width,
            g.height == height,
            forall|i: int| 0 <= i < 448 ==> !(#[trigger] g.food@[i]) && !g.my_body@[i] && !g.enemy_body@[i],
    {
        Grid {
            width,
            height,
            ctx: SearchContext::new(width, height),
            food: BitBoard::empty(),
            my_body: BitBoard::empty(),
            enemy_body: BitBoard::empty(),
        }
    }

    /// The index of an on-board cell.
    pub fn idx(&self, x: i32, y: i32) -> (i: usize)
        requires
            self.wf(),
            xy_in(self.width as int, self.height as int, x as int, y as int),
        ensures
            i == self.index_of(x as int, y as int),
            on_board(i as int, self.width as int, self.height as int),
            i < 448,
    {
        proof {
            assert(y * self.width + x < self.width * self.height) by (nonlinear_arith)
                requires 0 <= x < self.width, 0 <= y < self.height;
            assert(y * self.width + x >= 0) by (nonlinear_arith)
                requires 0 <= x < self.width, 0 <= y < self.height;
        }
        (y * self.width + x) as usize
    }

    /// The code of cell `(x, y)` (9 off the board).
    pub fn get(&self, x: i32, y: i32) -> (v: i8)
        requires
            self.wf(),
        ensures
            v == self.cell(x as int, y as int),
    {
        if x < 0 || y < 0 || x >= self.width || y >= self.height {
            return OFF_BOARD;
        }
        let idx = self.idx(x, y);
        if self.my_body.get(idx) {
            return MY_BODY;
        }
        if self.enemy_body.get(idx) {
            return ENEMY_BODY;
        }
        if self.food.get(idx) {
            return FOOD;
        }
        EMPTY
    }

    /// Sets cell `(x, y)` to exactly one layer (1 food, 2 own body, 3 enemy body) or clears it
    /// (any other code); does nothing off the board.
    pub fn set(&mut self, x: i32, y: i32, val: i8)
        requires
            old(self).wf(),
        ensures
            final(self).wf(),
            final(self).width == old(self).width,
            final(self).height == old(self).height,
            final(self).ctx == old(self).ctx,
            !xy_in(old(self).width as int, old(self).height as int, x as int, y as int) ==> *final(self) == *old(self),
            xy_in(old(self).width as int, old(self).height as int, x as int, y as int) ==> {
                let i = old(self).index_of(x as int, y as int);
                &&& final(self).food@ == old(self).food@.update(i, val == FOOD)
                &&& final(self).my_body@ == old(self).my_body@.update(i, val == MY_BODY)
                &&& final(self).enemy_body@ == old(self).enemy_body@.update(i, val == ENEMY_BODY)
            },
    {
        if x < 0 || y < 0 || x >= self.width || y >= self.height {
            return;
        }
        let idx = self.idx(x, y);
        self.food.unset(idx);
        self.my_body.unset(idx);
        self.enemy_body.unset(idx);
        if val == FOOD {
            self.food.set(idx);
        } else if val == MY_BODY {
            self.my_body.set(idx);
        } else if val == ENEMY_BODY {
            self.enemy_body.set(idx);
        }
        proof {
            assert(self.food@ =~= old(self).food@.update(idx as int, val == FOOD));
            assert(self.my_body@ =~= old(self).my_body@.update(idx as int, val == MY_BODY));
            assert(self.enemy_body@ =~= old(self).enemy_body@.update(idx as int, val == ENEMY_BODY));
        }
    }

    /// Clears layer `old_val` and sets layer `new_val` at an on-board cell; other layers are kept.
    pub fn replace_unchecked(&mut self, x: i32, y: i32, old_val: i8, new_val: i8)
        requires
            old(self).wf(),
            xy_in(old(self).width as int, old(self).height as int, x as int, y as int),
        ensures
            final(self).wf(),
            final(self).width == old(self).width,
            final(self).height == old(self).height,
            final(self).ctx == old(self).ctx,
            ({
                let i = old(self).index_of(x as int, y as int);
                &&& final(self).food@ == old(self).food@.update(i, new_val == FOOD || (old_val != FOOD && old(self).food@[i]))
                &&& final(self).my_body@ == old(self).my_body@.update(i, new_val == MY_BODY || (old_val != MY_BODY && old(self).my_body@[i]))
                &&& final(self).enemy_body@ == old(self).enemy_body@.update(i, new_val == ENEMY_BODY || (old_val != ENEMY_BODY && old(self).enemy_body@[i]))
            }),
    {
        let idx = self.idx(x, y);
        self.clear_unchecked(x, y, old_val);
        if new_val == FOOD {
            self.food.set(idx);
        } else if new_val == MY_BODY {
            self.my_body.set(idx);
        } else if new_val == ENEMY_BODY {
            self.enemy_body.set(idx);
        }
        proof {
            assert(self.food@ =~= old(self).food@.update(idx as int, new_val == FOOD || (old_val != FOOD && old(self).food@[idx as int])));
            assert(self.my_body@ =~= old(self).my_body@.update(idx as int, new_val == MY_BODY || (old_val != MY_BODY && old(self).my_body@[idx as int])));
            assert(self.enemy_body@ =~= old(self).enemy_body@.update(idx as int, new_val == ENEMY_BODY || (old_val != ENEMY_BODY && old(self).enemy_body@[idx as int])));
        }
    }

    /// Clears layer `old_val` at an on-board cell; other layers are kept.
    pub fn clear_unchecked(&mut self, x: i32, y: i32, old_val: i8)
        requires
            old(self).wf(),
            xy_in(old(self).width as int, old(self).height as int, x as int, y as int),
        ensures
            final(self).wf(),
            final(self).width == old(self).width,
            final(self).height == old(self).height,
            final(self).ctx == old(self).ctx,
            ({
                let i = old(self).index_of(x as int, y as int);
                &&& final(self).food@ == old(self).food@.update(i, old_val != FOOD && old(self).food@[i])
                &&& final(self).my_body@ == old(self).my_body@.update(i, old_val != MY_BODY && old(self).my_body@[i])
                &&& final(self).enemy_body@ == old(self).enemy_body@.update(i, old_val != ENEMY_BODY && old(self).enemy_body@[i])
            }),
    {
        let idx = self.idx(x, y);
        if old_val == FOOD {
            self.food.unset(idx);
        } else if old_val == MY_BODY {
            self.my_body.unset(idx);
        } else if old_val == ENEMY_BODY {
            self.enemy_body.unset(idx);
        }
        proof {
            assert(self.food@ =~= old(self).food@.update(idx as int, old_val != FOOD && old(self).food@[idx as int]));
            assert(self.my_body@ =~= old(self).my_body@.update(idx as int, old_val != MY_BODY && old(self).my_body@[idx as int]));
            assert(self.enemy_body@ =~= old(self).enemy_body@.update(idx as int, old_val != ENEMY_BODY && old(self).enemy_body@[idx as int]));
        }
    }

    /// Whether `(x, y)` is on the board and free of snake bodies.
    pub fn is_safe(&self, x: i32, y: i32) -> (r: bool)
        requires
            self.wf(),
        ensures
            r == (xy_in(self.width as int, self.height as int, x as int, y as int)
                && !self.my_body@[self.index_of(x as int, y as int)]
                && !self.enemy_body@[self.index_of(x as int, y as int)]),
    {
        if x < 0 || y < 0 || x >= self.width || y >= self.height {
            return false;
        }
        let idx = self.idx(x, y);
        !self.my_body.get(idx) && !self.enemy_body.get(idx)
    }

    /// The cells holding a snake segment.
    pub fn occupied(&self) -> (b: BitBoard)
        ensures
            b@ == Seq::new(448, |i: int| self.my_body@[i] || self.enemy_body@[i]),
    {
        self.my_body.bitor(self.enemy_body)
    }

    /// The on-board cells free of snake segments.
    pub fn safe_cells(&self) -> (b: BitBoard)
        requires
            self.wf(),
        ensures
            forall|i: int| 0 <= i < 448 ==> #[trigger] b@[i] == (on_board(i, self.width as int, self.height as int)
                && !self.my_body@[i] && !self.enemy_body@[i]),
    {
        self.ctx.valid_cells.bitand(self.occupied().not())
    }
}


/// Reading a cell after setting it to a code of `0..=3` gives that code back, and cells elsewhere
/// keep their codes.
pub proof fn lemma_set_then_get(before: Grid, after: Grid, x: int, y: int, val: i8, x2: int, y2: int)
    requires
        before.wf(),
        0 <= val <= 3,
        xy_in(before.width as int, before.height as int, x, y),
        after.width == before.width,
        after.height == before.height,
        after.food@ == before.food@.update(before.index_of(x, y), val == FOOD),
        after.my_body@ == before.my_body@.update(before.index_of(x, y), val == MY_BODY),
        after.enemy_body@ == before.enemy_body@.update(before.index_of(x, y), val == ENEMY_BODY),
    ensures
        after.cell(x, y) == val,
        (x2 != x || y2 != y) ==> after.cell(x2, y2) == before.cell(x2, y2),
{
    let w = before.width as int;
    let h = before.height as int;
    let i = before.index_of(x, y);
    assert(0 <= i < 448) by {
        assert(y * w + x < w * h) by (nonlinear_arith) requires 0 <= x < w, 0 <= y < h;
        assert(y * w + x >= 0) by (nonlinear_arith) requires 0 <= x < w, 0 <= y < h;
    }
    if (x2 != x || y2 != y) && xy_in(w, h, x2, y2) {
        crate::bitboard::lemma_row_col(w, y, x);
        crate::bitboard::lemma_row_col(w, y2, x2);
        assert(before.index_of(x2, y2) != i);
        assert(y2 * w + x2 < w * h) by (nonlinear_arith) requires 0 <= x2 < w, 0 <= y2 < h;
        assert(y2 * w + x2 >= 0) by (nonlinear_arith) requires 0 <= x2 < w, 0 <= y2 < h;
    }
}

/// Whether a cell's layers hold exactly `val` (1, 2 or 3) when `hit`, and are unchanged otherwise.
pub open spec fn stamped(before: Grid, after: Grid, i: int, hit: bool, val: i8) -> bool {
    &&& after.food@[i] == if hit { val == FOOD } else { before.food@[i] }
    &&& after.my_body@[i] == if hit { val == MY_BODY } else { before.my_body@[i] }
    &&& after.enemy_body@[i] == if hit { val == ENEMY_BODY } else { before.enemy_body@[i] }
}

impl Grid {
    /// Sets every on-board point of `points` to `val`, in order.
    fn stamp(&mut self, points: &[Point], val: i8)
        requires
            old(self).wf(),
        ensures
            final(self).wf(),
            final(self).width == old(self).width,
            final(self).height == old(self).height,
            final(self).ctx == old(self).ctx,
            forall|q: Point| xy_in(old(self).width as int, old(self).height as int, q.x as int, q.y as int) ==>
                #[trigger] stamped(*old(self), *final(self), old(self).index_of(q.x as int, q.y as int), points@.contains(q), val),
            forall|i: int| 0 <= i < 448 && !on_board(i, old(self).width as int, old(self).height as int) ==>
                #[trigger] stamped(*old(self), *final(self), i, false, val),
    {
        let ghost g0 = *self;
        let ghost w = self.width as int;
        let ghost h = self.height as int;
        let mut k: usize = 0;
        while k < points.len()
            invariant
                self.wf(),
                self.width == g0.width,
                self.height == g0.height,
                self.ctx == g0.ctx,
                w == g0.width,
                h == g0.height,
                k <= points@.len(),
                forall|q: Point| xy_in(w, h, q.x as int, q.y as int) ==>
                    #[trigger] stamped(g0, *self, g0.index_of(q.x as int, q.y as int), points@.subrange(0, k as int).contains(q), val),
                forall|i: int| 0 <= i < 448 && !on_board(i, w, h) ==> #[trigger] stamped(g0, *self, i, false, val),
            decreases points@.len() - k,
        {
            let p = points[k];
            let ghost before = *self;
            self.set(p.x, p.y, val);
            proof {
                assert forall|q: Point| xy_in(w, h, q.x as int, q.y as int) implies
                    #[trigger] stamped(g0, *self, g0.index_of(q.x as int, q.y as int), points@.subrange(0, k + 1).contains(q), val) by {
                    crate::food::lemma_cell_idx(w, h, q);
                    assert(stamped(g0, before, g0.index_of(q.x as int, q.y as int), points@.subrange(0, k as int).contains(q), val));
                    if xy_in(w, h, p.x as int, p.y as int) {
                        crate::food::lemma_cell_idx(w, h, p);
                    }
                    if points@.subrange(0, k as int).contains(q) {
                        let j = choose|j: int| 0 <= j < k && #[trigger] points@.subrange(0, k as int)[j] == q;
                        assert(points@.subrange(0, k + 1)[j] == q);
                    }
                    if points@.subrange(0, k + 1).contains(q) {
                        let j = choose|j: int| 0 <= j < k + 1 && #[trigger] points@.subrange(0, k + 1)[j] == q;
                        if j < k {
                            assert(points@.subrange(0, k as int)[j] == q);
                        }
                    }
                    if q == p {
                        assert(points@.subrange(0, k + 1)[k as int] == q);
                    }
                }
                assert forall|i: int| 0 <= i < 448 && !on_board(i, w, h) implies #[trigger] stamped(g0, *self, i, false, val) by {
                    assert(stamped(g0, before, i, false, val));
                    if xy_in(w, h, p.x as int, p.y as int) {
                        crate::food::lemma_cell_idx(w, h, p);
                    }
                }
            }
            k += 1;
        }
        proof {
            assert(points@.subrange(0, points@.len() as int) =~= points@);
        }
    }

    /// A grid of `cols` by `rows` holding `food`, then `my_body`, then `enemy_body` (later layers win).
    pub fn from_state(cols: i32, rows: i32, food: &[Point], my_body: &FastBody, enemy_body: &FastBody) -> (g: Self)
        requires
            0 < cols < 256,
            0 <= rows < 256,
            cols * rows <= 448,
            my_body.wf(),
            enemy_body.wf(),
        ensures
            g.wf(),
            g.width == cols,
            g.height == rows,
            forall|q: Point| xy_in(cols as int, rows as int, q.x as int, q.y as int) ==> {
                let i = #[trigger] g.index_of(q.x as int, q.y as int);
                &&& g.enemy_body@[i] == enemy_body@.contains(q)
                &&& g.my_body@[i] == (my_body@.contains(q) && !enemy_body@.contains(q))
                &&& g.food@[i] == (food@.contains(q) && !my_body@.contains(q) && !enemy_body@.contains(q))
            },
    {
        let mut g = Self::new(cols, rows);
        let ghost g0 = g;
        g.stamp(food, FOOD);
        let ghost g1 = g;
        let mine = my_body.iter();
        g.stamp(mine.as_slice(), MY_BODY);
        let ghost g2 = g;
        let theirs = enemy_body.iter();
        g.stamp(theirs.as_slice(), ENEMY_BODY);
        proof {
            assert forall|q: Point| xy_in(cols as int, rows as int, q.x as int, q.y as int) implies {
                let i = #[trigger] g.index_of(q.x as int, q.y as int);
                &&& g.enemy_body@[i] == enemy_body@.contains(q)
                &&& g.my_body@[i] == (my_body@.contains(q) && !enemy_body@.contains(q))
                &&& g.food@[i] == (food@.contains(q) && !my_body@.contains(q) && !enemy_body@.contains(q))
            } by {
                assert(stamped(g0, g1, g0.index_of(q.x as int, q.y as int), food@.contains(q), FOOD));
                assert(stamped(g1, g2, g1.index_of(q.x as int, q.y as int), mine@.contains(q), MY_BODY));
                assert(stamped(g2, g, g2.index_of(q.x as int, q.y as int), theirs@.contains(q), ENEMY_BODY));
                crate::food::lemma_cell_idx(cols as int, rows as int, q);
            }
        }
        g
    }
}

} // verus!
