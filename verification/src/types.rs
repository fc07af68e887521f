use vstd::prelude::*;
use std::collections::VecDeque;
use crate::direction::{Direction, spec_vector};

verus! {

/// A board cell. Coordinates may lie outside the board (a snake that left it).
#[derive(Debug, Clone, Copy, PartialEq, Eq, Hash, Structural)]
pub struct Point {
    pub x: i32,
    pub y: i32,
}

/// The point one step from `p` in direction `dir`, computed over the integers.
pub open spec fn spec_moved(p: Point, dir: Direction) -> (int, int) {
    (p.x + spec_vector(dir).0, p.y + spec_vector(dir).1)
}

impl Point {
    /// The neighbouring point in direction `dir`.
    pub fn moved(self, dir: Direction) -> (r: Self)
        requires
            i32::MIN < self.x < i32::MAX,
            i32::MIN < self.y < i32::MAX,
        ensures
            r.x == spec_moved(self, dir).0,
            r.y == spec_moved(self, dir).1,
    {
        let (dx, dy) = dir.vector();
        Point { x: self.x + dx, y: self.y + dy }
    }
}


/// The identifier a snake carries in game states and API payloads.
#[derive(Debug, Clone, PartialEq, Eq, Hash)]
pub struct SnakeId(pub String);

impl SnakeId {
    /// An identifier holding a copy of `value`.
    pub fn from_str(value: &str) -> (r: Self)
        ensures
            r.0@ == value@,
    {
        SnakeId(value.to_owned())
    }
}

/// A snake on the board. `body[0]` is the head.
#[derive(Debug, Clone)]
pub struct Snake {
    pub id: SnakeId,
    pub name: String,
    pub body: VecDeque<Point>,
    pub health: i32,
    pub alive: bool,
}

/// A double-ended queue holding the points of `points`, in order.
pub fn deque_from_points(points: &[Point]) -> (d: VecDeque<Point>)
    ensures
        d@ == points@,
{
    let mut d: VecDeque<Point> = VecDeque::new();
    let mut i: usize = 0;
    while i < points.len()
        invariant
            i <= points@.len(),
            d@ == points@.subrange(0, i as int),
        decreases points@.len() - i,
    {
        d.push_back(points[i]);
        i += 1;
        assert(d@ == points@.subrange(0, i as int));
    }
    d
}

/// The points of a double-ended queue, in order.
pub fn points_of_deque(d: &VecDeque<Point>) -> (v: Vec<Point>)
    ensures
        v@ == d@,
{
    broadcast use vstd::std_specs::vecdeque::group_vec_dequeue_axioms;
    let mut v: Vec<Point> = Vec::new();
    let mut i: usize = 0;
    while i < d.len()
        invariant
            i <= d@.len(),
            v@ == d@.subrange(0, i as int),
        decreases d@.len() - i,
    {
        v.push(d[i]);
        i += 1;
        assert(v@ == d@.subrange(0, i as int));
    }
    v
}

impl Snake {
    /// A live snake with the given identity, body and health.
    pub fn new(id: &str, name: &str, body: Vec<Point>, health: i32) -> (s: Self)
        ensures
            s.id.0@ == id@,
            s.name@ == name@,
            s.body@ == body@,
            s.health == health,
            s.alive,
    {
        Snake {
            id: SnakeId::from_str(id),
            name: name.to_owned(),
            body: deque_from_points(body.as_slice()),
            health,
            alive: true,
        }
    }

    /// The head, or `None` for an empty body.
    pub fn head(&self) -> (h: Option<Point>)
        ensures
            self.body@.len() == 0 ==> h.is_none(),
            self.body@.len() > 0 ==> h == Some(self.body@[0]),
    {
        broadcast use vstd::std_specs::vecdeque::group_vec_dequeue_axioms;
        if self.body.len() == 0 {
            None
        } else {
            Some(self.body[0])
        }
    }

    /// The number of body segments.
    pub fn len(&self) -> (n: usize)
        ensures
            n == self.body@.len(),
    {
        broadcast use vstd::std_specs::vecdeque::group_vec_dequeue_axioms;
        self.body.len()
    }

    /// Whether the body has no segments.
    pub fn is_empty(&self) -> (b: bool)
        ensures
            b == (self.body@.len() == 0),
    {
        broadcast use vstd::std_specs::vecdeque::group_vec_dequeue_axioms;
        self.body.len() == 0
    }
}

/// The playing field: its size, the food on it and the snakes.
#[derive(Debug, Clone)]
pub struct Board {
    pub width: i32,
    pub height: i32,
    pub food: Vec<Point>,
    pub snakes: Vec<Snake>,
}

/// A full game position.
#[derive(Debug, Clone)]
pub struct GameState {
    pub turn: u32,
    pub board: Board,
    pub seed: u64,
}

} // verus!
