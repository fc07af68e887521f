use vstd::prelude::*;
use crate::direction::Direction;
use crate::types::Point;
use crate::model::{AgentState, FastBody};

verus! {

/// A snake as stored in a scenario file.
#[derive(Debug, Clone)]
pub struct ScenarioSnake {
    pub id: String,
    pub name: String,
    pub body: Vec<Point>,
    pub health: i32,
}

/// A board as stored in a scenario file.
#[derive(Debug, Clone)]
pub struct ScenarioBoard {
    pub width: i32,
    pub height: i32,
    pub food: Vec<Point>,
    pub snakes: Vec<ScenarioSnake>,
}

/// What a scenario expects of the chosen move.
#[derive(Debug, Clone)]
pub enum Expectation {
    Exact { direction: Direction },
    Avoid { directions: Vec<Direction> },
}

/// Whether a move meets an expectation.
pub open spec fn passes_spec(e: Expectation, actual: Direction) -> bool {
    match e {
        Expectation::Exact { direction } => direction == actual,
        Expectation::Avoid { directions } => !directions@.contains(actual),
    }
}

impl Expectation {
    /// Whether `actual` meets the expectation: the exact move, or none of the forbidden ones.
    pub fn passes(&self, actual: Direction) -> (r: bool)
        ensures
            r == passes_spec(*self, actual),
    {
        match self {
            Expectation::Exact { direction } => *direction == actual,
            Expectation::Avoid { directions } => {
                let mut i: usize = 0;
                while i < directions.len()
                    invariant
                        i <= directions@.len(),
                        passes_spec(*self, actual) == !directions@.contains(actual),
                        forall|j: int| 0 <= j < i ==> directions@[j] != actual,
                    decreases directions@.len() - i,
                {
                    if directions[i] == actual {
                        proof {
                            assert(directions@[i as int] == actual);
                            assert(directions@.contains(actual));
                        }
                        return false;
                    }
                    i += 1;
                }
                true
            },
        }
    }
}

/// A regression position and its expectation.
#[derive(Debug, Clone)]
pub struct Scenario {
    pub id: String,
    pub name: String,
    pub board: ScenarioBoard,
    pub you_id: String,
    pub expectation: Expectation,
}

/// A scenario and the file it was read from.
#[derive(Debug, Clone)]
pub struct NamedScenario {
    pub file: String,
    pub scenario: Scenario,
}

/// The index of the first snake at or after `k` whose id is (or, when `want` is false, is not) `you`.
pub open spec fn first_snake_from(snakes: Seq<ScenarioSnake>, you: Seq<char>, want: bool, k: int) -> int
    decreases snakes.len() - k,
{
    if k < 0 || k >= snakes.len() {
        snakes.len() as int
    } else if (snakes[k].id@ == you) == want {
        k
    } else {
        first_snake_from(snakes, you, want, k + 1)
    }
}

/// The index of the first snake whose id equals (`want`) or differs from `you`.
fn find_snake(snakes: &Vec<ScenarioSnake>, you: &String, want: bool) -> (k: usize)
    ensures
        k == first_snake_from(snakes@, you@, want, 0),
        k <= snakes@.len(),
{
    let mut k: usize = 0;
    while k < snakes.len()
        invariant_except_break
            k <= snakes@.len(),
            first_snake_from(snakes@, you@, want, 0) == first_snake_from(snakes@, you@, want, k as int),
        ensures
            k == first_snake_from(snakes@, you@, want, 0),
            k <= snakes@.len(),
        decreases snakes@.len() - k,
    {
        if (snakes[k].id == *you) == want {
            break;
        }
        k += 1;
    }
    k
}

impl Scenario {
    /// The search inputs: our snake (the one named `you_id`), the first other snake (or an empty one
    /// with zero health), the food and the board size; `None` when no snake is named `you_id`.
    pub fn into_ai_inputs(&self) -> (r: Option<(AgentState, AgentState, Vec<Point>, i32, i32)>)
        requires
            forall|i: int| 0 <= i < self.board.snakes@.len() ==> (#[trigger] self.board.snakes@[i]).body@.len() <= 512,
        ensures
            ({
                let snakes = self.board.snakes@;
                let mi = first_snake_from(snakes, self.you_id@, true, 0);
                let ei = first_snake_from(snakes, self.you_id@, false, 0);
                match r {
                    None => mi == snakes.len(),
                    Some((me, enemy, food, w, h)) => {
                        &&& mi < snakes.len()
                        &&& me.body.wf() && me.body@ == snakes[mi].body@ && me.health == snakes[mi].health
                        &&& enemy.body.wf()
                        &&& ei < snakes.len() ==> enemy.body@ == snakes[ei].body@ && enemy.health == snakes[ei].health
                        &&& ei == snakes.len() ==> enemy.body@.len() == 0 && enemy.health == 0
                        &&& food@ == self.board.food@
                        &&& w == self.board.width && h == self.board.height
                    },
                }
            }),
    {
        let mi = find_snake(&self.board.snakes, &self.you_id, true);
        if mi >= self.board.snakes.len() {
            return None;
        }
        let ei = find_snake(&self.board.snakes, &self.you_id, false);
        let me = AgentState {
            body: FastBody::from_vec(self.board.snakes[mi].body.as_slice()),
            health: self.board.snakes[mi].health,
        };
        let enemy = if ei < self.board.snakes.len() {
            AgentState {
                body: FastBody::from_vec(self.board.snakes[ei].body.as_slice()),
                health: self.board.snakes[ei].health,
            }
        } else {
            let none: Vec<Point> = Vec::new();
            AgentState { body: FastBody::from_vec(none.as_slice()), health: 0 }
        };
        Some((me, enemy, self.board.food.clone(), self.board.width, self.board.height))
    }
}

} // verus!
