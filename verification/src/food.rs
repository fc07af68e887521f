use vstd::prelude::*;
use crate::types::{Point, Snake};
use crate::rng::{RngSource, rand_int_spec};

verus! {

broadcast use vstd::std_specs::vecdeque::group_vec_dequeue_axioms;

/// How much food the standard rules keep on the board.
#[derive(Debug, Clone, Copy)]
pub struct FoodSettings {
    pub initial_food: usize,
    pub minimum_food: usize,
    pub food_spawn_chance: usize,
}

impl Default for FoodSettings {
    fn default() -> (s: Self)
        ensures
            s.initial_food == 3,
            s.minimum_food == 1,
            s.food_spawn_chance == 15,
    {
        FoodSettings { initial_food: 3, minimum_food: 1, food_spawn_chance: 15 }
    }
}

/// Whether `p` lies on a `w` by `h` board.
pub open spec fn in_bounds_spec(w: int, h: int, p: Point) -> bool {
    0 <= p.x < w && 0 <= p.y < h
}

/// The row-major index of `p` on a board `w` columns wide.
pub open spec fn cell_idx(w: int, p: Point) -> int {
    p.y * w + p.x
}

/// Whether some segment of some snake lies on `p`.
pub open spec fn snake_covers(snakes: Seq<Snake>, p: Point) -> bool {
    exists|s: int, k: int|
        0 <= s < snakes.len() && 0 <= k < snakes[s].body@.len() && #[trigger] snakes[s].body@[k] == p
}

/// Whether `p` is covered by a snake or by food.
pub open spec fn cell_taken(snakes: Seq<Snake>, food: Seq<Point>, p: Point) -> bool {
    snake_covers(snakes, p) || food.contains(p)
}

/// All cells of a `w` by `h` board in row-major order (row 0 first, `x` ascending).
pub open spec fn board_cells(w: int, h: int) -> Seq<Point> {
    Seq::new(if w > 0 && h > 0 { (w * h) as nat } else { 0 }, |i: int| Point { x: (i % w) as i32, y: (i / w) as i32 })
}

/// The predicate "not covered by a snake or food".
pub open spec fn free_pred(snakes: Seq<Snake>, food: Seq<Point>) -> spec_fn(Point) -> bool {
    |p: Point| !cell_taken(snakes, food, p)
}

/// The predicate "not marked in `occupied`".
pub open spec fn unmarked_pred(w: int, occupied: Seq<bool>) -> spec_fn(Point) -> bool {
    |p: Point| !occupied[cell_idx(w, p)]
}

/// The cells that are neither covered by a snake nor by food, in row-major order.
pub open spec fn free_cells(w: int, h: int, snakes: Seq<Snake>, food: Seq<Point>) -> Seq<Point> {
    board_cells(w, h).filter(free_pred(snakes, food))
}

/// The cells whose entry in `occupied` is `false`, in row-major order.
pub open spec fn unmarked_cells(w: int, h: int, occupied: Seq<bool>) -> Seq<Point> {
    board_cells(w, h).filter(unmarked_pred(w, occupied))
}

/// An in-bounds point has an index on the board, and the board lists it at that index.
pub proof fn lemma_cell_idx(w: int, h: int, p: Point)
    requires
        w > 0,
        h > 0,
        in_bounds_spec(w, h, p),
    ensures
        0 <= cell_idx(w, p) < w * h,
        board_cells(w, h)[cell_idx(w, p)] == p,
{
    crate::bitboard::lemma_row_col(w, p.y as int, p.x as int);
    assert(p.y * w + p.x < w * h) by (nonlinear_arith) requires 0 <= p.x < w, 0 <= p.y < h;
    assert(p.y * w + p.x >= 0) by (nonlinear_arith) requires 0 <= p.x < w, 0 <= p.y < h;
}

/// Every listed board cell is in bounds and sits at its own index.
pub proof fn lemma_board_cell(w: int, h: int, i: int)
    requires
        w > 0,
        h > 0,
        0 <= i < w * h,
        w * h <= i32::MAX,
    ensures
        in_bounds_spec(w, h, board_cells(w, h)[i]),
        cell_idx(w, board_cells(w, h)[i]) == i,
{
    vstd::arithmetic::div_mod::lemma_fundamental_div_mod(i, w);
    let q = i / w;
    let r = i % w;
    assert(0 <= r < w);
    assert(0 <= q < h) by (nonlinear_arith) requires i == w * q + r, 0 <= r < w, 0 <= i < w * h, w > 0;
    assert(q * w == w * q) by (nonlinear_arith);
}

/// Two filters agree when their predicates agree on the filtered sequence.
pub proof fn lemma_filter_congruent(s: Seq<Point>, p1: spec_fn(Point) -> bool, p2: spec_fn(Point) -> bool)
    requires
        forall|i: int| 0 <= i < s.len() ==> p1(#[trigger] s[i]) == p2(s[i]),
    ensures
        s.filter(p1) == s.filter(p2),
    decreases s.len(),
{
    reveal(Seq::filter);
    if s.len() > 0 {
        let t = s.drop_last();
        assert forall|i: int| 0 <= i < t.len() implies p1(#[trigger] t[i]) == p2(t[i]) by {
            assert(t[i] == s[i]);
        }
        lemma_filter_congruent(t, p1, p2);
        assert(p1(s[s.len() - 1]) == p2(s[s.len() - 1]));
    }
}

/// Board cells are listed without repetition.
pub proof fn lemma_board_cells_distinct(w: int, h: int)
    requires
        w > 0,
        h > 0,
        w * h <= i32::MAX,
    ensures
        board_cells(w, h).no_duplicates(),
{
    assert forall|i: int, j: int| 0 <= i < board_cells(w, h).len() && 0 <= j < board_cells(w, h).len() && i != j
        implies board_cells(w, h)[i] != board_cells(w, h)[j] by {
        lemma_board_cell(w, h, i);
        lemma_board_cell(w, h, j);
    }
}

/// Whether `point` lies on a `width` by `height` board.
pub fn in_bounds(width: i32, height: i32, point: Point) -> (r: bool)
    ensures
        r == in_bounds_spec(width as int, height as int, point),
{
    point.x >= 0 && point.x < width && point.y >= 0 && point.y < height
}

/// The row-major index of an in-bounds point.
pub fn point_idx(width: i32, height: i32, point: Point) -> (r: usize)
    requires
        in_bounds_spec(width as int, height as int, point),
        width * height <= i32::MAX,
    ensures
        r == cell_idx(width as int, point),
        r < width * height,
{
    proof {
        lemma_cell_idx(width as int, height as int, point);
    }
    (point.y * width + point.x) as usize
}

/// One flag per cell: whether a snake segment or a food item lies there.
pub fn build_occupied_map(width: i32, height: i32, snakes: &[Snake], food: &[Point]) -> (occ: Vec<bool>)
    requires
        (if width > 0 { width as int } else { 0 }) * (if height > 0 { height as int } else { 0 }) <= i32::MAX,
    ensures
        occ@.len() == (if width > 0 { width as int } else { 0 }) * (if height > 0 { height as int } else { 0 }),
        forall|p: Point| in_bounds_spec(width as int, height as int, p)
            ==> #[trigger] occ@[cell_idx(width as int, p)] == cell_taken(snakes@, food@, p),
{
    let w0 = if width > 0 { width } else { 0 };
    let h0 = if height > 0 { height } else { 0 };
    let area = (w0 * h0) as usize;
    let mut occupied: Vec<bool> = Vec::new();
    let mut i: usize = 0;
    while i < area
        invariant
            i <= area,
            occupied@.len() == i,
            forall|k: int| 0 <= k < i ==> !#[trigger] occupied@[k],
        decreases area - i,
    {
        occupied.push(false);
        i += 1;
    }
    if width <= 0 || height <= 0 {
        return occupied;
    }
    proof {
        assert forall|p: Point| in_bounds_spec(width as int, height as int, p)
            implies !#[trigger] occupied@[cell_idx(width as int, p)] by {
            lemma_cell_idx(width as int, height as int, p);
        }
    }
    let mut s: usize = 0;
    while s < snakes.len()
        invariant
            width > 0,
            height > 0,
            width * height <= i32::MAX,
            occupied@.len() == width * height,
            s <= snakes@.len(),
            forall|p: Point| in_bounds_spec(width as int, height as int, p)
                ==> #[trigger] occupied@[cell_idx(width as int, p)] == (exists|t: int, k: int|
                    0 <= t < s && 0 <= k < snakes@[t].body@.len() && #[trigger] snakes@[t].body@[k] == p),
        decreases snakes@.len() - s,
    {
        let mut k: usize = 0;
        while k < snakes[s].body.len()
            invariant
                width > 0,
                height > 0,
                width * height <= i32::MAX,
                occupied@.len() == width * height,
                s < snakes@.len(),
                k <= snakes@[s as int].body@.len(),
                forall|p: Point| in_bounds_spec(width as int, height as int, p)
                    ==> #[trigger] occupied@[cell_idx(width as int, p)] == ((exists|t: int, j: int|
                        0 <= t < s && 0 <= j < snakes@[t].body@.len() && #[trigger] snakes@[t].body@[j] == p)
                        || (exists|j: int| 0 <= j < k && #[trigger] snakes@[s as int].body@[j] == p)),
            decreases snakes@[s as int].body@.len() - k,
        {
            let part = snakes[s].body[k];
            let ghost old_occ = occupied@;
            if in_bounds(width, height, part) {
                let idx = point_idx(width, height, part);
                occupied[idx] = true;
            }
            proof {
                assert forall|p: Point| in_bounds_spec(width as int, height as int, p)
                    implies occupied@[cell_idx(width as int, p)] == (old_occ[cell_idx(width as int, p)] || p == part) by {
                    lemma_cell_idx(width as int, height as int, p);
                    if in_bounds_spec(width as int, height as int, part) {
                        lemma_cell_idx(width as int, height as int, part);
                    }
                }
                assert forall|p: Point| in_bounds_spec(width as int, height as int, p)
                    implies #[trigger] occupied@[cell_idx(width as int, p)] == ((exists|t: int, j: int|
                        0 <= t < s && 0 <= j < snakes@[t].body@.len() && #[trigger] snakes@[t].body@[j] == p)
                        || (exists|j: int| 0 <= j < k + 1 && #[trigger] snakes@[s as int].body@[j] == p)) by {
                    if p == part {
                        assert(snakes@[s as int].body@[k as int] == p);
                    }
                }
            }
            k += 1;
        }
        proof {
            assert forall|p: Point| in_bounds_spec(width as int, height as int, p)
                implies #[trigger] occupied@[cell_idx(width as int, p)] == (exists|t: int, j: int|
                    0 <= t < s + 1 && 0 <= j < snakes@[t].body@.len() && #[trigger] snakes@[t].body@[j] == p) by {
                if exists|t: int, j: int| 0 <= t < s + 1 && 0 <= j < snakes@[t].body@.len() && #[trigger] snakes@[t].body@[j] == p {
                    let (t, j) = choose|t: int, j: int| 0 <= t < s + 1 && 0 <= j < snakes@[t].body@.len() && #[trigger] snakes@[t].body@[j] == p;
                    if t == s {
                        assert(snakes@[s as int].body@[j] == p);
                    }
                }
            }
        }
        s += 1;
    }
    let mut f: usize = 0;
    while f < food.len()
        invariant
            width > 0,
            height > 0,
            width * height <= i32::MAX,
            occupied@.len() == width * height,
            f <= food@.len(),
            forall|p: Point| in_bounds_spec(width as int, height as int, p)
                ==> #[trigger] occupied@[cell_idx(width as int, p)] == (snake_covers(snakes@, p) || food@.subrange(0, f as int).contains(p)),
        decreases food@.len() - f,
    {
        let item = food[f];
        let ghost old_occ = occupied@;
        if in_bounds(width, height, item) {
            let idx = point_idx(width, height, item);
            occupied[idx] = true;
        }
        proof {
            assert forall|p: Point| in_bounds_spec(width as int, height as int, p)
                implies occupied@[cell_idx(width as int, p)] == (old_occ[cell_idx(width as int, p)] || p == item) by {
                lemma_cell_idx(width as int, height as int, p);
                if in_bounds_spec(width as int, height as int, item) {
                    lemma_cell_idx(width as int, height as int, item);
                }
            }
            assert forall|p: Point| in_bounds_spec(width as int, height as int, p)
                implies #[trigger] occupied@[cell_idx(width as int, p)] == (snake_covers(snakes@, p) || food@.subrange(0, f + 1).contains(p)) by {
                if food@.subrange(0, f as int).contains(p) {
                    let j = choose|j: int| 0 <= j < f && #[trigger] food@.subrange(0, f as int)[j] == p;
                    assert(food@.subrange(0, f + 1)[j] == p);
                }
                if food@.subrange(0, f + 1).contains(p) {
                    let j = choose|j: int| 0 <= j < f + 1 && #[trigger] food@.subrange(0, f + 1)[j] == p;
                    if j < f {
                        assert(food@.subrange(0, f as int)[j] == p);
                    }
                }
                if p == item {
                    assert(food@.subrange(0, f + 1)[f as int] == p);
                }
            }
        }
        f += 1;
    }
    assert(food@.subrange(0, food@.len() as int) =~= food@);
    occupied
}


/// Extending a row-major prefix by cell `(x, y)`.
proof fn lemma_prefix_step(w: int, h: int, y: int, x: int, pred: spec_fn(Point) -> bool)
    requires
        w > 0,
        h > 0,
        w * h <= i32::MAX,
        0 <= y < h,
        0 <= x < w,
    ensures
        y * w + x < w * h,
        board_cells(w, h).take(y * w + x + 1).filter(pred) == if pred(Point { x: x as i32, y: y as i32 }) {
            board_cells(w, h).take(y * w + x).filter(pred).push(Point { x: x as i32, y: y as i32 })
        } else {
            board_cells(w, h).take(y * w + x).filter(pred)
        },
{
    assert(w <= w * h && h <= w * h) by (nonlinear_arith) requires w > 0, h > 0;
    let p = Point { x: x as i32, y: y as i32 };
    assert(p.x == x && p.y == y);
    lemma_cell_idx(w, h, p);
    let n = y * w + x;
    assert(board_cells(w, h).take(n + 1) =~= board_cells(w, h).take(n).push(p));
    board_cells(w, h).take(n).lemma_filter_push(p, pred);
}

/// Reservoir sampling over `cells` in order: the `k`-th cell (counting from 1) replaces the pick
/// when `rand_int(k)` gives 0, so the first cell is taken without a draw. Gives the pick and the
/// source afterwards.
pub open spec fn reservoir<R: RngSource>(cells: Seq<Point>, rng: R) -> (Option<Point>, R)
    decreases cells.len(),
{
    if cells.len() == 0 {
        (None, rng)
    } else {
        let (sel, r1) = reservoir(cells.drop_last(), rng);
        let (pick, r2) = rand_int_spec(r1, cells.len() as int);
        (if pick == 0 { Some(cells.last()) } else { sel }, r2)
    }
}

/// Picks one unmarked cell, each with equal chance when `rng` is uniform (see `reservoir`);
/// `None` when all are marked.
fn sample_single_unoccupied<R: RngSource>(rng: &mut R, width: i32, height: i32, occupied: &[bool]) -> (r: Option<Point>)
    requires
        width > 0,
        height > 0,
        width * height <= i32::MAX,
        occupied@.len() >= width * height,
    ensures
        r.is_none() <==> unmarked_cells(width as int, height as int, occupied@).len() == 0,
        r matches Some(p) ==> unmarked_cells(width as int, height as int, occupied@).contains(p),
        (r, *final(rng)) == reservoir(unmarked_cells(width as int, height as int, occupied@), *old(rng)),
{
    let ghost w = width as int;
    let ghost h = height as int;
    let ghost pred = unmarked_pred(w, occupied@);
    let mut seen: usize = 0;
    let mut selected: Option<Point> = None;
    let mut y: i32 = 0;
    while y < height
        invariant
            width > 0,
            height > 0,
            width * height <= i32::MAX,
            occupied@.len() >= width * height,
            w == width,
            h == height,
            pred == unmarked_pred(w, occupied@),
            0 <= y <= height,
            seen == board_cells(w, h).take(y * w).filter(pred).len(),
            selected.is_none() <==> seen == 0,
            selected matches Some(p) ==> board_cells(w, h).take(y * w).filter(pred).contains(p),
            (selected, *rng) == reservoir(board_cells(w, h).take(y * w).filter(pred), *old(rng)),
        decreases height - y,
    {
        let mut x: i32 = 0;
        while x < width
            invariant
                width > 0,
                height > 0,
                width * height <= i32::MAX,
                occupied@.len() >= width * height,
                w == width,
                h == height,
                pred == unmarked_pred(w, occupied@),
                0 <= y < height,
                0 <= x <= width,
                seen == board_cells(w, h).take(y * w + x).filter(pred).len(),
                selected.is_none() <==> seen == 0,
                selected matches Some(p) ==> board_cells(w, h).take(y * w + x).filter(pred).contains(p),
                (selected, *rng) == reservoir(board_cells(w, h).take(y * w + x).filter(pred), *old(rng)),
            decreases width - x,
        {
            proof {
                lemma_prefix_step(w, h, y as int, x as int, pred);
                board_cells(w, h).take(y * w + x).lemma_filter_len(pred);
            }
            let idx = (y * width + x) as usize;
            let ghost before_cells = board_cells(w, h).take(y * w + x).filter(pred);
            if !occupied[idx] {
                seen += 1;
                let pick = rng.rand_int(seen);
                if pick == 0 {
                    selected = Some(Point { x, y });
                }
                proof {
                    let q = Point { x: x as i32, y: y as i32 };
                    assert(before_cells.push(q).drop_last() =~= before_cells);
                }
            }
            proof {
                let q = Point { x: x as i32, y: y as i32 };
                let before = board_cells(w, h).take(y * w + x).filter(pred);
                if let Some(p) = selected {
                    if p != q {
                        assert(before.contains(p));
                        let j = choose|j: int| 0 <= j < before.len() && before[j] == p;
                        assert(before.push(q)[j] == p);
                    } else {
                        assert(before.push(q)[before.len() as int] == q);
                    }
                }
            }
            x += 1;
        }
        proof {
            assert(y * w + w == (y + 1) * w) by (nonlinear_arith);
        }
        y += 1;
    }
    proof {
        assert(y * w == w * h) by (nonlinear_arith) requires y == h;
        assert(board_cells(w, h).take(w * h) =~= board_cells(w, h));
    }
    selected
}

/// The unmarked cells in row-major order.
fn collect_unoccupied_points(width: i32, height: i32, occupied: &[bool]) -> (points: Vec<Point>)
    requires
        width > 0,
        height > 0,
        width * height <= i32::MAX,
        occupied@.len() >= width * height,
    ensures
        points@ == unmarked_cells(width as int, height as int, occupied@),
{
    let ghost w = width as int;
    let ghost h = height as int;
    let ghost pred = unmarked_pred(w, occupied@);
    let mut points: Vec<Point> = Vec::new();
    let mut y: i32 = 0;
    while y < height
        invariant
            width > 0,
            height > 0,
            width * height <= i32::MAX,
            occupied@.len() >= width * height,
            w == width,
            h == height,
            pred == unmarked_pred(w, occupied@),
            0 <= y <= height,
            points@ == board_cells(w, h).take(y * w).filter(pred),
        decreases height - y,
    {
        let mut x: i32 = 0;
        while x < width
            invariant
                width > 0,
                height > 0,
                width * height <= i32::MAX,
                occupied@.len() >= width * height,
                w == width,
                h == height,
                pred == unmarked_pred(w, occupied@),
                0 <= y < height,
                0 <= x <= width,
                points@ == board_cells(w, h).take(y * w + x).filter(pred),
            decreases width - x,
        {
            proof {
                lemma_prefix_step(w, h, y as int, x as int, pred);
            }
            let idx = (y * width + x) as usize;
            if !occupied[idx] {
                points.push(Point { x, y });
            }
            x += 1;
        }
        proof {
            assert(y * w + w == (y + 1) * w) by (nonlinear_arith);
        }
        y += 1;
    }
    proof {
        assert(y * w == w * h) by (nonlinear_arith) requires y == h;
        assert(board_cells(w, h).take(w * h) =~= board_cells(w, h));
    }
    points
}


/// Filtering keeps a sequence free of repetitions.
pub proof fn lemma_filter_no_dups(s: Seq<Point>, pred: spec_fn(Point) -> bool)
    requires
        s.no_duplicates(),
    ensures
        s.filter(pred).no_duplicates(),
    decreases s.len(),
{
    reveal(Seq::filter);
    if s.len() > 0 {
        let t = s.drop_last();
        assert(t.no_duplicates());
        lemma_filter_no_dups(t, pred);
        if pred(s.last()) {
            if t.filter(pred).contains(s.last()) {
                t.lemma_filter_contains_rev(pred, s.last());
                let j = choose|j: int| 0 <= j < t.len() && t[j] == s.last();
                assert(s[j] == s[s.len() - 1]);
            }
        }
    }
}

/// Two sequences with the same elements agree on membership and on repetition.
pub proof fn lemma_same_multiset(a: Seq<Point>, b: Seq<Point>)
    requires
        a.to_multiset() == b.to_multiset(),
    ensures
        forall|x: Point| a.contains(x) <==> b.contains(x),
        b.no_duplicates() ==> a.no_duplicates(),
{
    broadcast use vstd::seq_lib::to_multiset_contains;
    assert forall|x: Point| a.contains(x) <==> b.contains(x) by {
        vstd::seq_lib::to_multiset_contains(a, x);
        vstd::seq_lib::to_multiset_contains(b, x);
    }
    if b.no_duplicates() {
        b.lemma_multiset_has_no_duplicates();
        a.lemma_multiset_has_no_duplicates_conv();
    }
}

/// The Fisher-Yates shuffle of the first `i` items of `s` driven by `rng`: for `k` from `i - 1`
/// down to `1`, item `k` is swapped with item `rand_int(k + 1)`. Gives the items and the source
/// afterwards.
pub open spec fn shuffle_from<R: RngSource>(s: Seq<Point>, rng: R, i: int) -> (Seq<Point>, R)
    decreases i,
{
    if i <= 1 {
        (s, rng)
    } else {
        let k = i - 1;
        let (j, next) = rand_int_spec(rng, i);
        shuffle_from(s.update(k, s[j]).update(j, s[k]), next, k)
    }
}

/// Reorders `arr` by a Fisher-Yates shuffle driven by `rng` (see `shuffle_from`).
fn shuffle_in_place<R: RngSource>(arr: &mut [Point], rng: &mut R)
    ensures
        (final(arr)@, *final(rng)) == shuffle_from(old(arr)@, *old(rng), old(arr)@.len() as int),
        final(arr)@.len() == old(arr)@.len(),
        final(arr)@.to_multiset() == old(arr)@.to_multiset(),
{
    broadcast use vstd::seq_lib::to_multiset_update;
    broadcast use vstd::multiset::group_multiset_axioms;
    if arr.len() <= 1 {
        return;
    }
    let mut i: usize = arr.len();
    while i > 1
        invariant
            1 <= i <= arr@.len(),
            arr@.len() == old(arr)@.len(),
            arr@.to_multiset() == old(arr)@.to_multiset(),
            shuffle_from(arr@, *rng, i as int) == shuffle_from(old(arr)@, *old(rng), old(arr)@.len() as int),
        decreases i,
    {
        let ghost r0 = *rng;
        let ghost a0 = arr@;
        i -= 1;
        let j = rng.rand_int(i + 1);
        let a = arr[i];
        let b = arr[j];
        let ghost s0 = arr@;
        arr[i] = b;
        let ghost s1 = arr@;
        arr[j] = a;
        proof {
            assert(s1 == s0.update(i as int, b));
            assert(arr@ == s1.update(j as int, a));
            assert(s1[j as int] == b);
            vstd::seq_lib::to_multiset_update(s0, i as int, b);
            vstd::seq_lib::to_multiset_update(s1, j as int, a);
            assert(arr@.to_multiset() =~= s0.to_multiset().insert(b).remove(a).insert(a).remove(b));
            assert(s0.to_multiset().insert(b).remove(a).insert(a).remove(b) =~= s0.to_multiset()) by {
                vstd::seq_lib::to_multiset_contains(s0, a);
            }
            assert(rand_int_spec(r0, i + 1) == (j as int, *rng));
            assert(arr@ == a0.update(i as int, a0[j as int]).update(j as int, a0[i as int]));
        }
    }
}

/// How many food items the standard rules ask for, and the source afterwards: enough to reach the
/// minimum without a draw; otherwise, when the chance is positive, one draw `v = rand_int(100)`
/// asks for one item when `100 - v < food_spawn_chance`; with chance 0 nothing and no draw.
pub open spec fn spawn_count_spec<R: RngSource>(rng: R, settings: FoodSettings, current: int) -> (int, R) {
    if current < settings.minimum_food {
        (settings.minimum_food - current, rng)
    } else if settings.food_spawn_chance > 0 {
        let (v, next) = rand_int_spec(rng, 100);
        (if 100 - v < settings.food_spawn_chance { 1 } else { 0 }, next)
    } else {
        (0, rng)
    }
}

/// The smaller of two counts.
pub open spec fn min_count(a: int, b: int) -> int {
    if a < b { a } else { b }
}

/// Where `count` new food items go and the source afterwards: nowhere on an empty board or for
/// no item; for one item, a reservoir pick over the free cells (see `reservoir`); for more, the
/// first `min(count, free)` of the free cells after a shuffle (see `shuffle_from`), with no draw
/// when there is no free cell.
pub open spec fn place_spec<R: RngSource>(rng: R, w: int, h: int, snakes: Seq<Snake>, food: Seq<Point>, count: int) -> (Seq<Point>, R) {
    let cells = free_cells(w, h, snakes, food);
    if count == 0 || w <= 0 || h <= 0 {
        (food, rng)
    } else if count == 1 {
        let (pick, next) = reservoir(cells, rng);
        (match pick { Some(p) => food.push(p), None => food }, next)
    } else if cells.len() == 0 {
        (food, rng)
    } else {
        let (shuffled, next) = shuffle_from(cells, rng, cells.len() as int);
        (food + shuffled.take(min_count(count, cells.len() as int)), next)
    }
}

/// The food after the standard rule has run once, and the source afterwards (see
/// `spawn_count_spec` and `place_spec`).
pub open spec fn spawn_spec<R: RngSource>(rng: R, w: int, h: int, snakes: Seq<Snake>, food: Seq<Point>, settings: FoodSettings) -> (Seq<Point>, R) {
    let (need, next) = spawn_count_spec(rng, settings, food.len() as int);
    if need == 0 { (food, next) } else { place_spec(next, w, h, snakes, food, need) }
}

/// How many food items the standard rules add this turn: enough to reach the minimum, otherwise
/// one item with probability `food_spawn_chance` percent (see `spawn_count_spec`).
fn check_food_needing_placement<R: RngSource>(rng: &mut R, settings: FoodSettings, current_food_count: usize) -> (n: usize)
    ensures
        current_food_count < settings.minimum_food ==> n == settings.minimum_food - current_food_count,
        current_food_count >= settings.minimum_food ==> n <= 1,
        current_food_count >= settings.minimum_food && settings.food_spawn_chance == 0 ==> n == 0,
        current_food_count >= settings.minimum_food && settings.food_spawn_chance > 100 ==> n == 1,
        (n as int, *final(rng)) == spawn_count_spec(*old(rng), settings, current_food_count as int),
{
    if current_food_count < settings.minimum_food {
        return settings.minimum_food - current_food_count;
    }
    if settings.food_spawn_chance > 0 && (100usize.saturating_sub(rng.rand_int(100))) < settings.food_spawn_chance {
        return 1;
    }
    0
}

/// Appends the first `min(count, positions.len())` of `positions` to `food` after shuffling them.
fn place_food_randomly_at_positions<R: RngSource>(rng: &mut R, food: &mut Vec<Point>, count: usize, positions: &mut [Point]) -> (n: usize)
    ensures
        n == if count < old(positions)@.len() { count } else { old(positions)@.len() as usize },
        final(positions)@.len() == old(positions)@.len(),
        final(positions)@.to_multiset() == old(positions)@.to_multiset(),
        final(food)@ == old(food)@ + final(positions)@.take(n as int),
        n == 0 ==> final(positions)@ == old(positions)@ && *final(rng) == *old(rng),
        n > 0 ==> (final(positions)@, *final(rng)) == shuffle_from(old(positions)@, *old(rng), old(positions)@.len() as int),
{
    let n = if count < positions.len() { count } else { positions.len() };
    if n == 0 {
        assert(food@ =~= food@ + positions@.take(0));
        return 0;
    }
    shuffle_in_place(positions, rng);
    let mut k: usize = 0;
    while k < n
        invariant
            n <= positions@.len(),
            k <= n,
            food@ == old(food)@ + positions@.take(k as int),
        decreases n - k,
    {
        food.push(positions[k]);
        k += 1;
        assert(food@ =~= old(food)@ + positions@.take(k as int));
    }
    n
}

/// The food appended after `old_food` consists of `n` distinct cells that were free before.
pub open spec fn added_free_food(w: int, h: int, snakes: Seq<Snake>, old_food: Seq<Point>, new_food: Seq<Point>, n: int) -> bool {
    &&& new_food.len() == old_food.len() + n
    &&& new_food.take(old_food.len() as int) == old_food
    &&& new_food.skip(old_food.len() as int).no_duplicates()
    &&& forall|k: int| old_food.len() <= k < new_food.len()
        ==> free_cells(w, h, snakes, old_food).contains(#[trigger] new_food[k])
}

/// Places up to `count` food items on distinct free cells and returns how many were placed.
fn place_food_randomly<R: RngSource>(rng: &mut R, width: i32, height: i32, snakes: &[Snake], food: &mut Vec<Point>, count: usize) -> (n: usize)
    requires
        (if width > 0 { width as int } else { 0 }) * (if height > 0 { height as int } else { 0 }) <= i32::MAX,
    ensures
        (count == 0 || width <= 0 || height <= 0) ==> n == 0 && final(food)@ == old(food)@,
        n == if count < free_cells(width as int, height as int, snakes@, old(food)@).len() { count as int }
            else { free_cells(width as int, height as int, snakes@, old(food)@).len() as int },
        added_free_food(width as int, height as int, snakes@, old(food)@, final(food)@, n as int),
        (final(food)@, *final(rng)) == place_spec(*old(rng), width as int, height as int, snakes@, old(food)@, count as int),
{
    let ghost w = width as int;
    let ghost h = height as int;
    let ghost old_food = food@;
    if count == 0 || width <= 0 || height <= 0 {
        proof {
            assert(board_cells(w, h).len() == 0 || count == 0);
            if board_cells(w, h).len() == 0 {
                board_cells(w, h).lemma_filter_len(free_pred(snakes@, old_food));
            }
            assert(food@.skip(old_food.len() as int) =~= Seq::<Point>::empty());
            assert(food@.take(old_food.len() as int) =~= old_food);
        }
        return 0;
    }
    let occupied = build_occupied_map(width, height, snakes, food.as_slice());
    proof {
        assert forall|i: int| 0 <= i < board_cells(w, h).len() implies
            unmarked_pred(w, occupied@)(#[trigger] board_cells(w, h)[i]) == free_pred(snakes@, old_food)(board_cells(w, h)[i]) by {
            lemma_board_cell(w, h, i);
        }
        lemma_filter_congruent(board_cells(w, h), unmarked_pred(w, occupied@), free_pred(snakes@, old_food));
        assert(unmarked_cells(w, h, occupied@) == free_cells(w, h, snakes@, old_food));
        lemma_board_cells_distinct(w, h);
        lemma_filter_no_dups(board_cells(w, h), free_pred(snakes@, old_food));
    }
    if count == 1 {
        if let Some(point) = sample_single_unoccupied(rng, width, height, occupied.as_slice()) {
            food.push(point);
            proof {
                assert(food@.skip(old_food.len() as int) =~= seq![point]);
                assert(food@.take(old_food.len() as int) =~= old_food);
            }
            return 1;
        }
        proof {
            assert(food@.skip(old_food.len() as int) =~= Seq::<Point>::empty());
            assert(food@.take(old_food.len() as int) =~= old_food);
        }
        return 0;
    }
    let mut unoccupied = collect_unoccupied_points(width, height, occupied.as_slice());
    let ghost free = unoccupied@;
    let n = place_food_randomly_at_positions(rng, food, count, unoccupied.as_mut_slice());
    proof {
        lemma_same_multiset(unoccupied@, free);
        let added = unoccupied@.take(n as int);
        assert(food@.skip(old_food.len() as int) =~= added);
        assert(food@.take(old_food.len() as int) =~= old_food);
        assert forall|k: int| old_food.len() <= k < food@.len() implies free.contains(#[trigger] food@[k]) by {
            assert(food@[k] == unoccupied@[k - old_food.len()]);
            assert(unoccupied@.contains(unoccupied@[k - old_food.len()]));
        }
    }
    n
}

/// Applies the standard food rule after a turn and returns how many items were placed.
pub fn apply_standard_food_spawning<R: RngSource>(
    rng: &mut R,
    width: i32,
    height: i32,
    snakes: &[Snake],
    food: &mut Vec<Point>,
    settings: FoodSettings,
) -> (n: usize)
    requires
        (if width > 0 { width as int } else { 0 }) * (if height > 0 { height as int } else { 0 }) <= i32::MAX,
    ensures
        old(food)@.len() < settings.minimum_food && width > 0 && height > 0 ==> n == if settings.minimum_food - old(food)@.len()
            < free_cells(width as int, height as int, snakes@, old(food)@).len() {
            settings.minimum_food - old(food)@.len()
        } else {
            free_cells(width as int, height as int, snakes@, old(food)@).len() as int
        },
        old(food)@.len() >= settings.minimum_food ==> n <= 1,
        old(food)@.len() >= settings.minimum_food && settings.food_spawn_chance == 0 ==> n == 0,
        n <= free_cells(width as int, height as int, snakes@, old(food)@).len(),
        added_free_food(width as int, height as int, snakes@, old(food)@, final(food)@, n as int),
        (final(food)@, *final(rng)) == spawn_spec(*old(rng), width as int, height as int, snakes@, old(food)@, settings),
{
    let needed = check_food_needing_placement(rng, settings, food.len());
    if needed == 0 {
        proof {
            assert(food@.skip(food@.len() as int) =~= Seq::<Point>::empty());
            assert(food@.take(food@.len() as int) =~= food@);
        }
        return 0;
    }
    place_food_randomly(rng, width, height, snakes, food, needed)
}

/// Places the initial food of a new game and returns how many items were placed.
pub fn place_initial_standard_food<R: RngSource>(
    rng: &mut R,
    width: i32,
    height: i32,
    snakes: &[Snake],
    food: &mut Vec<Point>,
    settings: FoodSettings,
) -> (n: usize)
    requires
        (if width > 0 { width as int } else { 0 }) * (if height > 0 { height as int } else { 0 }) <= i32::MAX,
    ensures
        n == if settings.initial_food < free_cells(width as int, height as int, snakes@, old(food)@).len() {
            settings.initial_food as int
        } else {
            free_cells(width as int, height as int, snakes@, old(food)@).len() as int
        },
        added_free_food(width as int, height as int, snakes@, old(food)@, final(food)@, n as int),
        (final(food)@, *final(rng)) == place_spec(*old(rng), width as int, height as int, snakes@, old(food)@, settings.initial_food as int),
{
    if settings.initial_food == 0 {
        proof {
            assert(food@.skip(food@.len() as int) =~= Seq::<Point>::empty());
            assert(food@.take(food@.len() as int) =~= food@);
        }
        return 0;
    }
    place_food_randomly(rng, width, height, snakes, food, settings.initial_food)
}

} // verus!
