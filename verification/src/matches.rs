use vstd::prelude::*;
use crate::api::ApiFlavor;
use crate::direction::Direction;
use crate::types::{Point, Snake, SnakeId, Board, GameState, points_of_deque};
use crate::rng::LcgRng;
use crate::food::{FoodSettings, place_initial_standard_food, added_free_food, free_cells, place_spec, spawn_spec, board_cells,
    free_pred, snake_covers};
use crate::engine::{TurnSummary, SimConfig, simulate_turn, can_simulate, copy_id, same_intents, moved_state, turn_deaths,
    remove_dead, reports, models_of, alive_ids_of, turn_fits, lemma_move_phase_congruent, lemma_move_phase_frame, lemma_deaths_len};
use crate::model::{AgentState, FastBody};
use crate::text::{str_chars, string_from_chars, chars_eq, chars_eq_str, lower_chars, lower_spec};

verus! {

/// How often each cause of death occurred.
#[derive(Debug, Clone, Copy, PartialEq, Eq, Structural)]
pub struct DeathReasonCounts {
    pub starvation: usize,
    pub wall: usize,
    pub body: usize,
    pub head: usize,
}

impl Default for DeathReasonCounts {
    fn default() -> (d: Self)
        ensures
            d == (DeathReasonCounts { starvation: 0, wall: 0, body: 0, head: 0 }),
    {
        DeathReasonCounts { starvation: 0, wall: 0, body: 0, head: 0 }
    }
}

/// The counts after one death for `reason`: the matching counter goes up by one; an unknown
/// reason changes nothing.
pub open spec fn recorded(c: DeathReasonCounts, reason: Seq<char>) -> DeathReasonCounts {
    if reason == seq!['S', 't', 'a', 'r', 'v', 'a', 't', 'i', 'o', 'n'] {
        DeathReasonCounts { starvation: (c.starvation + 1) as usize, ..c }
    } else if reason == seq!['W', 'a', 'l', 'l'] {
        DeathReasonCounts { wall: (c.wall + 1) as usize, ..c }
    } else if reason == seq!['B', 'o', 'd', 'y'] {
        DeathReasonCounts { body: (c.body + 1) as usize, ..c }
    } else if reason == seq!['H', 'e', 'a', 'd'] {
        DeathReasonCounts { head: (c.head + 1) as usize, ..c }
    } else {
        c
    }
}

/// No counter is at its maximum.
pub open spec fn counts_below_max(c: DeathReasonCounts) -> bool {
    c.starvation < usize::MAX && c.wall < usize::MAX && c.body < usize::MAX && c.head < usize::MAX
}

impl DeathReasonCounts {
    /// Counts one death for `reason` ("Starvation", "Wall", "Body" or "Head").
    pub fn record(&mut self, reason: &str)
        requires
            counts_below_max(*old(self)),
        ensures
            *final(self) == recorded(*old(self), reason@),
    {
        let r = str_chars(reason);
        proof {
            reveal_strlit("Starvation");
            reveal_strlit("Wall");
            reveal_strlit("Body");
            reveal_strlit("Head");
            assert("Starvation"@ =~= seq!['S', 't', 'a', 'r', 'v', 'a', 't', 'i', 'o', 'n']);
            assert("Wall"@ =~= seq!['W', 'a', 'l', 'l']);
            assert("Body"@ =~= seq!['B', 'o', 'd', 'y']);
            assert("Head"@ =~= seq!['H', 'e', 'a', 'd']);
        }
        if chars_eq_str(r.as_slice(), "Starvation") {
            self.starvation += 1;
        } else if chars_eq_str(r.as_slice(), "Wall") {
            self.wall += 1;
        } else if chars_eq_str(r.as_slice(), "Body") {
            self.body += 1;
        } else if chars_eq_str(r.as_slice(), "Head") {
            self.head += 1;
        }
    }
}

/// The deaths of each side in one match.
#[derive(Debug, Clone, Copy, PartialEq, Eq, Structural)]
pub struct MatchDeathSummary {
    pub local: DeathReasonCounts,
    pub opponent: DeathReasonCounts,
}

impl Default for MatchDeathSummary {
    fn default() -> (d: Self)
        ensures
            d.local == (DeathReasonCounts { starvation: 0, wall: 0, body: 0, head: 0 }),
            d.opponent == (DeathReasonCounts { starvation: 0, wall: 0, body: 0, head: 0 }),
    {
        MatchDeathSummary { local: DeathReasonCounts::default(), opponent: DeathReasonCounts::default() }
    }
}

/// The outcome of one match between the local engine (`s1`) and an opponent (`s2`).
#[derive(Debug, Clone)]
pub struct MatchResult {
    pub seed: u32,
    pub turns: u32,
    /// "local", "opponent" or "draw".
    pub winner: String,
    pub local_length: usize,
    pub opp_length: usize,
    pub death: MatchDeathSummary,
    pub local_died: bool,
}

/// The winner of a match: the only survivor, else the longer of two survivors, else a draw.
pub open spec fn winner_text(s1_alive: bool, s2_alive: bool, s1_len: nat, s2_len: nat) -> Seq<char> {
    if s1_alive && !s2_alive {
        seq!['l', 'o', 'c', 'a', 'l']
    } else if s2_alive && !s1_alive {
        seq!['o', 'p', 'p', 'o', 'n', 'e', 'n', 't']
    } else if s1_alive && s2_alive && s1_len > s2_len {
        seq!['l', 'o', 'c', 'a', 'l']
    } else if s1_alive && s2_alive && s2_len > s1_len {
        seq!['o', 'p', 'p', 'o', 'n', 'e', 'n', 't']
    } else {
        seq!['d', 'r', 'a', 'w']
    }
}

/// The winner of a match from the two snakes' final states.
pub fn match_winner(s1_alive: bool, s2_alive: bool, s1_len: usize, s2_len: usize) -> (w: String)
    ensures
        w@ == winner_text(s1_alive, s2_alive, s1_len as nat, s2_len as nat),
{
    let local = vec!['l', 'o', 'c', 'a', 'l'];
    let opponent = vec!['o', 'p', 'p', 'o', 'n', 'e', 'n', 't'];
    let draw = vec!['d', 'r', 'a', 'w'];
    let w = if s1_alive && !s2_alive {
        local
    } else if s2_alive && !s1_alive {
        opponent
    } else if s1_alive && s2_alive {
        if s1_len > s2_len {
            local
        } else if s2_len > s1_len {
            opponent
        } else {
            draw
        }
    } else {
        draw
    };
    string_from_chars(w.as_slice())
}

/// The snake id at `idx`, if there is such a snake.
pub open spec fn id_at(snakes: Seq<Snake>, idx: Option<usize>) -> Option<Seq<char>> {
    match idx {
        Some(i) => if i < snakes.len() { Some(snakes[i as int].id.0@) } else { None },
        None => None,
    }
}

/// The tally after the deaths of `dead[..k]`: a death counts for the local side when its id is
/// `local`, else for the opponent when its id is `opponent`.
pub open spec fn deaths_tally(d: MatchDeathSummary, dead: Seq<crate::engine::DeathEvent>, local: Option<Seq<char>>, opponent: Option<Seq<char>>, k: nat) -> MatchDeathSummary
    decreases k,
{
    if k == 0 {
        d
    } else {
        let prev = deaths_tally(d, dead, local, opponent, (k - 1) as nat);
        let e = dead[k - 1];
        if local == Some(e.snake_id.0@) {
            MatchDeathSummary { local: recorded(prev.local, e.reason@), ..prev }
        } else if opponent == Some(e.snake_id.0@) {
            MatchDeathSummary { opponent: recorded(prev.opponent, e.reason@), ..prev }
        } else {
            prev
        }
    }
}

/// Adds the deaths of one turn to the match tally.
pub fn record_turn_deaths(death: &mut MatchDeathSummary, summary: &TurnSummary, snakes: &Vec<Snake>, local_idx: Option<usize>, opponent_idx: Option<usize>)
    requires
        old(death).local.starvation + summary.dead@.len() < usize::MAX,
        old(death).local.wall + summary.dead@.len() < usize::MAX,
        old(death).local.body + summary.dead@.len() < usize::MAX,
        old(death).local.head + summary.dead@.len() < usize::MAX,
        old(death).opponent.starvation + summary.dead@.len() < usize::MAX,
        old(death).opponent.wall + summary.dead@.len() < usize::MAX,
        old(death).opponent.body + summary.dead@.len() < usize::MAX,
        old(death).opponent.head + summary.dead@.len() < usize::MAX,
    ensures
        *final(death) == deaths_tally(*old(death), summary.dead@, id_at(snakes@, local_idx), id_at(snakes@, opponent_idx), summary.dead@.len()),
{
    let ghost local = id_at(snakes@, local_idx);
    let ghost opponent = id_at(snakes@, opponent_idx);
    let local_id: Option<Vec<char>> = match local_idx {
        Some(i) => if i < snakes.len() { Some(str_chars(snakes[i].id.0.as_str())) } else { None },
        None => None,
    };
    let opponent_id: Option<Vec<char>> = match opponent_idx {
        Some(i) => if i < snakes.len() { Some(str_chars(snakes[i].id.0.as_str())) } else { None },
        None => None,
    };
    let mut k: usize = 0;
    while k < summary.dead.len()
        invariant
            k <= summary.dead@.len(),
            local == id_at(snakes@, local_idx),
            opponent == id_at(snakes@, opponent_idx),
            match local_id { Some(v) => local == Some(v@), None => local is None },
            match opponent_id { Some(v) => opponent == Some(v@), None => opponent is None },
            *death == deaths_tally(*old(death), summary.dead@, local, opponent, k as nat),
            death.local.starvation <= old(death).local.starvation + k,
            death.local.wall <= old(death).local.wall + k,
            death.local.body <= old(death).local.body + k,
            death.local.head <= old(death).local.head + k,
            death.opponent.starvation <= old(death).opponent.starvation + k,
            death.opponent.wall <= old(death).opponent.wall + k,
            death.opponent.body <= old(death).opponent.body + k,
            death.opponent.head <= old(death).opponent.head + k,
            old(death).local.starvation + summary.dead@.len() < usize::MAX,
            old(death).local.wall + summary.dead@.len() < usize::MAX,
            old(death).local.body + summary.dead@.len() < usize::MAX,
            old(death).local.head + summary.dead@.len() < usize::MAX,
            old(death).opponent.starvation + summary.dead@.len() < usize::MAX,
            old(death).opponent.wall + summary.dead@.len() < usize::MAX,
            old(death).opponent.body + summary.dead@.len() < usize::MAX,
            old(death).opponent.head + summary.dead@.len() < usize::MAX,
        decreases summary.dead@.len() - k,
    {
        let e = &summary.dead[k];
        let eid = str_chars(e.snake_id.0.as_str());
        let is_local = match &local_id {
            Some(v) => chars_eq(eid.as_slice(), v.as_slice()),
            None => false,
        };
        let is_opponent = match &opponent_id {
            Some(v) => chars_eq(eid.as_slice(), v.as_slice()),
            None => false,
        };
        if is_local {
            death.local.record(e.reason.as_str());
        } else if is_opponent {
            death.opponent.record(e.reason.as_str());
        }
        k += 1;
    }
}

/// The number of snakes still alive with a non-empty body.
pub fn count_alive(snakes: &Vec<Snake>) -> (n: usize)
    ensures
        n == snakes@.filter(|s: Snake| s.alive && s.body@.len() > 0).len(),
{
    let mut n: usize = 0;
    let mut i: usize = 0;
    while i < snakes.len()
        invariant
            i <= snakes@.len(),
            n == snakes@.take(i as int).filter(|s: Snake| s.alive && s.body@.len() > 0).len(),
            n <= i,
        decreases snakes@.len() - i,
    {
        proof {
            assert(snakes@.take(i + 1) =~= snakes@.take(i as int).push(snakes@[i as int]));
            snakes@.take(i as int).lemma_filter_push(snakes@[i as int], |s: Snake| s.alive && s.body@.len() > 0);
        }
        if snakes[i].alive && !snakes[i].is_empty() {
            n += 1;
        }
        i += 1;
    }
    assert(snakes@.take(i as int) =~= snakes@);
    n
}

/// The move table for one turn: every snake goes up except the two sides, which take their moves.
pub fn build_intents(n: usize, s1_idx: Option<usize>, s2_idx: Option<usize>, dir_s1: Direction, dir_s2: Direction) -> (v: Vec<Direction>)
    ensures
        v@.len() == n,
        forall|i: int| 0 <= i < n ==> #[trigger] v@[i] == if s2_idx == Some(i as usize) {
            dir_s2
        } else if s1_idx == Some(i as usize) {
            dir_s1
        } else {
            Direction::Up
        },
{
    let mut v: Vec<Direction> = Vec::new();
    let mut i: usize = 0;
    while i < n
        invariant
            i <= n,
            v@ == Seq::new(i as nat, |k: int| Direction::Up),
        decreases n - i,
    {
        v.push(Direction::Up);
        i += 1;
        assert(v@ =~= Seq::new(i as nat, |k: int| Direction::Up));
    }
    if let Some(idx) = s1_idx {
        if idx < v.len() {
            v.set(idx, dir_s1);
        }
    }
    if let Some(idx) = s2_idx {
        if idx < v.len() {
            v.set(idx, dir_s2);
        }
    }
    v
}

/// The move snake `i` makes in a match turn: the opponent's move at its index, else the local
/// side's at its index, else up.
pub open spec fn intent_choice(i: int, s1_idx: Option<usize>, s2_idx: Option<usize>, dir_s1: Direction, dir_s2: Direction) -> Direction {
    if s2_idx == Some(i as usize) {
        dir_s2
    } else if s1_idx == Some(i as usize) {
        dir_s1
    } else {
        Direction::Up
    }
}

/// The move table of a match turn: each snake's identifier with its move.
pub open spec fn match_intents(snakes: Seq<Snake>, s1_idx: Option<usize>, s2_idx: Option<usize>, dir_s1: Direction,
    dir_s2: Direction) -> Seq<(SnakeId, Direction)> {
    Seq::new(snakes.len(), |i: int| (snakes[i].id, intent_choice(i, s1_idx, s2_idx, dir_s1, dir_s2)))
}

/// The rules a match is played with: health restored to 100 on eating, three initial food items,
/// at least one on the board, and a 15% chance of one more each turn.
pub open spec fn match_rules() -> SimConfig {
    SimConfig { max_health: 100, food: FoodSettings { initial_food: 3, minimum_food: 1, food_spawn_chance: 15 } }
}

/// Whether every death counter of `d` has room for `n` more deaths.
pub open spec fn tally_room(d: MatchDeathSummary, n: int) -> bool {
    &&& d.local.starvation + n < usize::MAX
    &&& d.local.wall + n < usize::MAX
    &&& d.local.body + n < usize::MAX
    &&& d.local.head + n < usize::MAX
    &&& d.opponent.starvation + n < usize::MAX
    &&& d.opponent.wall + n < usize::MAX
    &&& d.opponent.body + n < usize::MAX
    &&& d.opponent.head + n < usize::MAX
}

/// Whether every death counter of `d` has room for `n` more deaths.
pub fn tally_has_room(d: &MatchDeathSummary, n: usize) -> (r: bool)
    ensures
        r == tally_room(*d, n as int),
{
    let room = usize::MAX - n;
    d.local.starvation < room && d.local.wall < room && d.local.body < room && d.local.head < room
        && d.opponent.starvation < room && d.opponent.wall < room && d.opponent.body < room && d.opponent.head < room
}

/// Whether a match goes on: the turn limit is not reached and more than one snake is alive with
/// a body.
pub fn match_continues(state: &GameState, max_turns: u32) -> (r: bool)
    ensures
        r == (state.turn < max_turns && state.board.snakes@.filter(|s: Snake| s.alive && s.body@.len() > 0).len() > 1),
{
    state.turn < max_turns && count_alive(&state.board.snakes) > 1
}

/// The move table of a match turn (see `match_intents`), with copies of the identifiers.
fn turn_intents(snakes: &Vec<Snake>, s1_idx: Option<usize>, s2_idx: Option<usize>, dir_s1: Direction, dir_s2: Direction)
    -> (v: Vec<(SnakeId, Direction)>)
    ensures
        same_intents(v@, match_intents(snakes@, s1_idx, s2_idx, dir_s1, dir_s2)),
{
    let dirs = build_intents(snakes.len(), s1_idx, s2_idx, dir_s1, dir_s2);
    let ghost want = match_intents(snakes@, s1_idx, s2_idx, dir_s1, dir_s2);
    let mut v: Vec<(SnakeId, Direction)> = Vec::new();
    let mut i: usize = 0;
    while i < snakes.len()
        invariant
            i <= snakes@.len(),
            dirs@.len() == snakes@.len(),
            want == match_intents(snakes@, s1_idx, s2_idx, dir_s1, dir_s2),
            forall|k: int| 0 <= k < snakes@.len() ==> #[trigger] dirs@[k] == intent_choice(k, s1_idx, s2_idx, dir_s1, dir_s2),
            v@.len() == i,
            forall|k: int| 0 <= k < i ==> (#[trigger] v@[k]).0.0@ == want[k].0.0@ && v@[k].1 == want[k].1,
        decreases snakes@.len() - i,
    {
        let id = copy_id(&snakes[i].id);
        v.push((id, dirs[i]));
        i += 1;
    }
    v
}

/// One turn of a match: every snake moves as `match_intents` says (the two sides their moves, the
/// others up), the turn is played by `simulate_turn` under `match_rules`, and the turn's deaths of
/// the two sides are added to the tally (see `record_turn_deaths`, which looks the sides up at
/// their indices in the list the turn leaves). Returns the turn's summary. Returns `None`, and
/// changes nothing, when the turn cannot be played (see `can_simulate`) or a death counter has no
/// room for one death per snake.
pub fn play_match_turn(state: &mut GameState, rng: &mut LcgRng, death: &mut MatchDeathSummary,
    s1_idx: Option<usize>, s2_idx: Option<usize>, dir_s1: Direction, dir_s2: Direction) -> (r: Option<TurnSummary>)
    ensures
        r is None <==> !(0 <= old(state).board.width * old(state).board.height <= 448 && old(state).turn < u32::MAX
            && turn_fits(models_of(old(state).board.snakes@)) && tally_room(*old(death), old(state).board.snakes@.len() as int)),
        r is None ==> *final(state) == *old(state) && *final(rng) == *old(rng) && *final(death) == *old(death),
        r matches Some(summary) ==> {
            let intents = match_intents(old(state).board.snakes@, s1_idx, s2_idx, dir_s1, dir_s2);
            let moved = moved_state(*old(state), intents, match_rules());
            let events = turn_deaths(*old(state), intents, match_rules());
            &&& final(state).board.width == old(state).board.width
            &&& final(state).board.height == old(state).board.height
            &&& final(state).seed == old(state).seed
            &&& final(state).turn == old(state).turn + 1
            &&& summary.turn == final(state).turn
            &&& models_of(final(state).board.snakes@) == remove_dead(moved.0, events)
            &&& reports(summary.dead@, events)
            &&& summary.alive_ids@.map_values(|x: SnakeId| x.0@) == alive_ids_of(models_of(final(state).board.snakes@))
            &&& (final(state).board.food@, *final(rng)) == spawn_spec(*old(rng), old(state).board.width as int,
                old(state).board.height as int, final(state).board.snakes@, moved.1, match_rules().food)
            &&& *final(death) == deaths_tally(*old(death), summary.dead@, id_at(final(state).board.snakes@, s1_idx),
                id_at(final(state).board.snakes@, s2_idx), summary.dead@.len())
        },
{
    let rules = SimConfig::default();
    if !can_simulate(state) {
        return None;
    }
    if !tally_has_room(death, state.board.snakes.len()) {
        return None;
    }
    let intents = turn_intents(&state.board.snakes, s1_idx, s2_idx, dir_s1, dir_s2);
    let ghost st0 = *state;
    let ghost want = match_intents(st0.board.snakes@, s1_idx, s2_idx, dir_s1, dir_s2);
    proof {
        assert(rules == match_rules());
        let ms = models_of(st0.board.snakes@);
        lemma_move_phase_congruent(ms, st0.board.food@, intents@, want, 100, ms.len());
        lemma_move_phase_frame(ms, st0.board.food@, intents@, 100, ms.len());
        let moved = moved_state(st0, intents@, rules).0;
        lemma_deaths_len(moved, st0.board.width as int, st0.board.height as int, moved.len());
    }
    let summary = simulate_turn(state, intents.as_slice(), rng, rules);
    record_turn_deaths(death, &summary, &state.board.snakes, s1_idx, s2_idx);
    Some(summary)
}

/// The local side is the snake with id `s1` (else the first snake); the opponent is the snake
/// with id `s2` (else the first snake other than the local one).
pub open spec fn first_with_id(snakes: Seq<Snake>, id: Seq<char>) -> Option<usize> {
    if exists|i: int| 0 <= i < snakes.len() && snakes[i].id.0@ == id {
        Some((choose|i: int| 0 <= i < snakes.len() && snakes[i].id.0@ == id
            && forall|j: int| 0 <= j < i ==> snakes[j].id.0@ != id) as usize)
    } else {
        None
    }
}

/// Which snakes play the local and opponent sides.
pub open spec fn match_sides(snakes: Seq<Snake>) -> (Option<usize>, Option<usize>) {
    let s1 = first_with_id(snakes, seq!['s', '1']);
    let s2 = first_with_id(snakes, seq!['s', '2']);
    let local = match s1 {
        Some(i) => Some(i),
        None => if snakes.len() > 0 { Some(0usize) } else { None },
    };
    let opponent = match s2 {
        Some(i) => Some(i),
        None => match local {
            None => None,
            Some(l) => if l != 0 {
                Some(0usize)
            } else if snakes.len() > 1 {
                Some(1usize)
            } else {
                None
            },
        },
    };
    (local, opponent)
}

/// The index of the first snake whose id is `id`.
fn find_id(snakes: &Vec<Snake>, id: &str) -> (r: Option<usize>)
    ensures
        match r {
            Some(i) => i < snakes@.len() && snakes@[i as int].id.0@ == id@
                && forall|j: int| 0 <= j < i ==> snakes@[j].id.0@ != id@,
            None => forall|j: int| 0 <= j < snakes@.len() ==> snakes@[j].id.0@ != id@,
        },
{
    let want = str_chars(id);
    let mut i: usize = 0;
    while i < snakes.len()
        invariant
            i <= snakes@.len(),
            want@ == id@,
            forall|j: int| 0 <= j < i ==> snakes@[j].id.0@ != id@,
        decreases snakes@.len() - i,
    {
        let sid = str_chars(snakes[i].id.0.as_str());
        if chars_eq(sid.as_slice(), want.as_slice()) {
            return Some(i);
        }
        i += 1;
    }
    None
}

/// The index of the first snake whose id is `id`.
pub fn find_snake(snakes: &Vec<Snake>, id: &str) -> (r: Option<usize>)
    ensures
        r == first_with_id(snakes@, id@),
        r matches Some(i) ==> i < snakes@.len() && snakes@[i as int].id.0@ == id@,
{
    let r = find_id(snakes, id);
    proof {
        let ss = snakes@;
        match r {
            Some(i) => {
                let c = choose|k: int| 0 <= k < ss.len() && ss[k].id.0@ == id@
                    && forall|j: int| 0 <= j < k ==> ss[j].id.0@ != id@;
                assert(c == i as int) by {
                    if c < i { assert(ss[c].id.0@ != id@); }
                    if c > i { assert(ss[i as int].id.0@ != id@); }
                }
            },
            None => {},
        }
    }
    r
}

/// The indices of the local and opponent snakes of a position.
pub fn resolve_match_snake_indices(state: &GameState) -> (r: (Option<usize>, Option<usize>))
    ensures
        r == match_sides(state.board.snakes@),
{
    let snakes = &state.board.snakes;
    let ghost ss = snakes@;
    let s1 = find_id(snakes, "s1");
    let s2 = find_id(snakes, "s2");
    proof {
        reveal_strlit("s1");
        reveal_strlit("s2");
        assert("s1"@ =~= seq!['s', '1']);
        assert("s2"@ =~= seq!['s', '2']);
        match s1 {
            Some(i) => {
                assert(first_with_id(ss, seq!['s', '1']) == Some(i)) by {
                    let c = choose|k: int| 0 <= k < ss.len() && ss[k].id.0@ == seq!['s', '1']
                        && forall|j: int| 0 <= j < k ==> ss[j].id.0@ != seq!['s', '1'];
                    assert(c == i as int) by {
                        if c < i { assert(ss[c].id.0@ != seq!['s', '1']); }
                        if c > i { assert(ss[i as int].id.0@ != seq!['s', '1']); }
                    }
                }
            },
            None => {},
        }
        match s2 {
            Some(i) => {
                assert(first_with_id(ss, seq!['s', '2']) == Some(i)) by {
                    let c = choose|k: int| 0 <= k < ss.len() && ss[k].id.0@ == seq!['s', '2']
                        && forall|j: int| 0 <= j < k ==> ss[j].id.0@ != seq!['s', '2'];
                    assert(c == i as int) by {
                        if c < i { assert(ss[c].id.0@ != seq!['s', '2']); }
                        if c > i { assert(ss[i as int].id.0@ != seq!['s', '2']); }
                    }
                }
            },
            None => {},
        }
    }
    let local: Option<usize> = match s1 {
        Some(i) => Some(i),
        None => if snakes.len() > 0 { Some(0) } else { None },
    };
    let opponent: Option<usize> = match s2 {
        Some(i) => Some(i),
        None => {
            let mut found: Option<usize> = None;
            let mut i: usize = 0;
            while i < snakes.len()
                invariant_except_break
                    i <= snakes@.len(),
                    i <= 1,
                    i == 1 ==> local == Some(0usize),
                    found is None,
                ensures
                    match found {
                        Some(f) => f < snakes@.len() && local != Some(f) && (f == 0 || (f == 1 && local == Some(0usize))),
                        None => snakes@.len() == 0 || (snakes@.len() == 1 && local == Some(0usize)),
                    },
                decreases snakes@.len() - i,
            {
                if local != Some(i) {
                    found = Some(i);
                    break;
                }
                i += 1;
            }
            proof {
                if snakes@.len() > 1 {
                    assert(local == Some(0usize) ==> local != Some(1usize));
                }
            }
            found
        },
    };
    (local, opponent)
}

/// The lower-case name of an API flavor.
pub open spec fn flavor_name(f: ApiFlavor) -> Seq<char> {
    match f {
        ApiFlavor::Standard => "standard"@,
        ApiFlavor::Legacy => "legacy"@,
        ApiFlavor::Auto => "auto"@,
    }
}

/// The lower-case name of an API flavor.
pub fn flavor_text(f: ApiFlavor) -> (s: Vec<char>)
    ensures
        s@ == flavor_name(f),
{
    match f {
        ApiFlavor::Standard => str_chars("standard"),
        ApiFlavor::Legacy => str_chars("legacy"),
        ApiFlavor::Auto => str_chars("auto"),
    }
}

/// The built-in opponents, by name: name, API flavor and URL, in name order.
pub open spec fn roster_spec() -> Seq<(Seq<char>, ApiFlavor, Seq<char>)> {
    seq![
        ("local-old"@, ApiFlavor::Standard, "http://localhost:9000"@),
        ("shapeshifter"@, ApiFlavor::Standard, "http://localhost:8080"@),
        ("snek-two"@, ApiFlavor::Legacy, "http://localhost:7000"@),
    ]
}

/// The built-in opponents, in name order.
pub fn opponent_roster() -> (v: Vec<(Vec<char>, ApiFlavor, Vec<char>)>)
    ensures
        v@.len() == roster_spec().len(),
        forall|i: int| 0 <= i < v@.len() ==> (#[trigger] v@[i]).0@ == roster_spec()[i].0
            && v@[i].1 == roster_spec()[i].1 && v@[i].2@ == roster_spec()[i].2,
{
    vec![
        (str_chars("local-old"), ApiFlavor::Standard, str_chars("http://localhost:9000")),
        (str_chars("shapeshifter"), ApiFlavor::Standard, str_chars("http://localhost:8080")),
        (str_chars("snek-two"), ApiFlavor::Legacy, str_chars("http://localhost:7000")),
    ]
}

/// The widest of the first `k` names, at least `floor`.
pub open spec fn max_name_len(rows: Seq<(Seq<char>, ApiFlavor, Seq<char>)>, k: nat, floor: nat) -> nat
    decreases k,
{
    if k == 0 {
        floor
    } else {
        let m = max_name_len(rows, (k - 1) as nat, floor);
        if rows[k - 1].0.len() > m { rows[k - 1].0.len() } else { m }
    }
}

/// The widest of the first `k` flavor names, at least `floor`.
pub open spec fn max_api_len(rows: Seq<(Seq<char>, ApiFlavor, Seq<char>)>, k: nat, floor: nat) -> nat
    decreases k,
{
    if k == 0 {
        floor
    } else {
        let m = max_api_len(rows, (k - 1) as nat, floor);
        if flavor_name(rows[k - 1].1).len() > m { flavor_name(rows[k - 1].1).len() } else { m }
    }
}

/// `s` padded on the right with `fill` to at least `w` characters.
pub open spec fn pad_right(s: Seq<char>, w: nat, fill: char) -> Seq<char> {
    if s.len() < w { s + Seq::new((w - s.len()) as nat, |i: int| fill) } else { s }
}

/// One table line: two padded columns and the last column, two spaces apart.
pub open spec fn roster_line(a: Seq<char>, b: Seq<char>, c: Seq<char>, wa: nat, wb: nat) -> Seq<char> {
    pad_right(a, wa, ' ') + seq![' ', ' '] + pad_right(b, wb, ' ') + seq![' ', ' '] + c + seq!['\n']
}

/// The lines for the first `k` opponents.
pub open spec fn roster_lines(rows: Seq<(Seq<char>, ApiFlavor, Seq<char>)>, k: nat, wa: nat, wb: nat) -> Seq<char>
    decreases k,
{
    if k == 0 {
        Seq::empty()
    } else {
        roster_lines(rows, (k - 1) as nat, wa, wb) + roster_line(rows[k - 1].0, flavor_name(rows[k - 1].1), rows[k - 1].2, wa, wb)
    }
}

/// The opponent table: a title, a header, a rule and one line per opponent.
pub open spec fn roster_text(rows: Seq<(Seq<char>, ApiFlavor, Seq<char>)>) -> Seq<char> {
    let wa = max_name_len(rows, rows.len(), 4);
    let wb = max_api_len(rows, rows.len(), 3);
    "Available opponents:\n"@ + roster_line("Name"@, "API"@, "URL"@, wa, wb)
        + pad_right(Seq::empty(), wa, '-') + seq![' ', ' '] + pad_right(Seq::empty(), wb, '-') + seq![' ', ' ']
        + Seq::new(40, |i: int| '-') + seq!['\n'] + roster_lines(rows, rows.len(), wa, wb)
}

/// Appends `s` padded on the right with `fill` to at least `w` characters.
fn push_padded(out: &mut Vec<char>, s: &Vec<char>, w: usize, fill: char)
    ensures
        final(out)@ == old(out)@ + pad_right(s@, w as nat, fill),
{
    let mut k: usize = 0;
    while k < s.len()
        invariant
            k <= s@.len(),
            out@ == old(out)@ + s@.subrange(0, k as int),
        decreases s@.len() - k,
    {
        out.push(s[k]);
        k += 1;
        assert(out@ =~= old(out)@ + s@.subrange(0, k as int));
    }
    assert(s@.subrange(0, k as int) =~= s@);
    let ghost mid = out@;
    let mut n: usize = s.len();
    while n < w
        invariant
            s@.len() <= n <= w || (n == s@.len() && n >= w),
            out@ == mid + Seq::new((n - s@.len()) as nat, |i: int| fill),
        decreases w - n,
    {
        out.push(fill);
        n += 1;
        assert(out@ =~= mid + Seq::new((n - s@.len()) as nat, |i: int| fill));
    }
    proof {
        if s@.len() < w {
            assert(out@ =~= old(out)@ + pad_right(s@, w as nat, fill));
        } else {
            assert(out@ =~= old(out)@ + pad_right(s@, w as nat, fill));
        }
    }
}

/// Appends one table line.
fn push_roster_line(out: &mut Vec<char>, a: &Vec<char>, b: &Vec<char>, c: &Vec<char>, wa: usize, wb: usize)
    ensures
        final(out)@ == old(out)@ + roster_line(a@, b@, c@, wa as nat, wb as nat),
{
    push_padded(out, a, wa, ' ');
    out.push(' ');
    out.push(' ');
    push_padded(out, b, wb, ' ');
    out.push(' ');
    out.push(' ');
    push_padded(out, c, 0, ' ');
    out.push('\n');
    assert(out@ =~= old(out)@ + roster_line(a@, b@, c@, wa as nat, wb as nat));
}

/// The table of built-in opponents.
pub fn format_opponent_roster() -> (s: String)
    ensures
        s@ == roster_text(roster_spec()),
{
    let rows = opponent_roster();
    let ghost rs = roster_spec();
    let mut name_w: usize = 4;
    let mut api_w: usize = 3;
    let mut i: usize = 0;
    while i < rows.len()
        invariant
            rows@.len() == rs.len(),
            rs == roster_spec(),
            forall|j: int| 0 <= j < rows@.len() ==> (#[trigger] rows@[j]).0@ == rs[j].0
                && rows@[j].1 == rs[j].1 && rows@[j].2@ == rs[j].2,
            i <= rows@.len(),
            name_w == max_name_len(rs, i as nat, 4),
            api_w == max_api_len(rs, i as nat, 3),
        decreases rows@.len() - i,
    {
        let n = rows[i].0.len();
        if n > name_w {
            name_w = n;
        }
        let a = flavor_text(rows[i].1).len();
        if a > api_w {
            api_w = a;
        }
        i += 1;
    }
    let mut out = str_chars("Available opponents:\n");
    push_roster_line(&mut out, &str_chars("Name"), &str_chars("API"), &str_chars("URL"), name_w, api_w);
    let empty: Vec<char> = Vec::new();
    let ghost before_rule = out@;
    push_padded(&mut out, &empty, name_w, '-');
    out.push(' ');
    out.push(' ');
    push_padded(&mut out, &empty, api_w, '-');
    out.push(' ');
    out.push(' ');
    push_padded(&mut out, &empty, 40, '-');
    out.push('\n');
    proof {
        assert(pad_right(Seq::<char>::empty(), 40, '-') =~= Seq::new(40, |i: int| '-'));
    }
    let ghost head = out@;
    let mut k: usize = 0;
    while k < rows.len()
        invariant
            rows@.len() == rs.len(),
            rs == roster_spec(),
            forall|j: int| 0 <= j < rows@.len() ==> (#[trigger] rows@[j]).0@ == rs[j].0
                && rows@[j].1 == rs[j].1 && rows@[j].2@ == rs[j].2,
            k <= rows@.len(),
            out@ == head + roster_lines(rs, k as nat, name_w as nat, api_w as nat),
        decreases rows@.len() - k,
    {
        let api = flavor_text(rows[k].1);
        push_roster_line(&mut out, &rows[k].0, &api, &rows[k].2, name_w, api_w);
        k += 1;
    }
    proof {
        assert(out@ =~= roster_text(roster_spec()));
    }
    string_from_chars(out.as_slice())
}

/// Who plays the opponent side of a match.
#[derive(Debug, Clone, PartialEq, Eq)]
pub enum OpponentTarget {
    /// The local engine.
    Local,
    /// A move server at `url`.
    Http { url: String, flavor: ApiFlavor },
}

/// Whether `s` starts with `p`.
pub open spec fn starts_with(s: Seq<char>, p: Seq<char>) -> bool {
    s.len() >= p.len() && s.take(p.len() as int) == p
}

/// The roster entry named exactly `name`.
pub open spec fn roster_lookup(name: Seq<char>) -> Option<(Seq<char>, ApiFlavor, Seq<char>)> {
    if name == roster_spec()[0].0 {
        Some(roster_spec()[0])
    } else if name == roster_spec()[1].0 {
        Some(roster_spec()[1])
    } else if name == roster_spec()[2].0 {
        Some(roster_spec()[2])
    } else {
        None
    }
}

/// The opponent a match is played against: the local engine for self-play; a URL as given; the
/// local engine for `local` (any letter case); a built-in opponent by name, whose flavor is used
/// when `flavor` is `Auto`; and the local engine for anything else.
pub open spec fn target_of(opponent: Seq<char>, self_play: bool, flavor: ApiFlavor) -> Option<(Seq<char>, ApiFlavor)> {
    if self_play {
        None
    } else if starts_with(opponent, "http://"@) || starts_with(opponent, "https://"@) {
        Some((opponent, flavor))
    } else if lower_spec(opponent) == "local"@ {
        None
    } else {
        match roster_lookup(opponent) {
            Some(e) => Some((e.2, if flavor == ApiFlavor::Auto { e.1 } else { flavor })),
            None => None,
        }
    }
}

/// Whether `s` starts with `p`.
fn has_prefix(s: &Vec<char>, p: &Vec<char>) -> (r: bool)
    ensures
        r == starts_with(s@, p@),
{
    if s.len() < p.len() {
        return false;
    }
    let mut i: usize = 0;
    while i < p.len()
        invariant
            p@.len() <= s@.len(),
            i <= p@.len(),
            forall|j: int| 0 <= j < i ==> s@[j] == p@[j],
        decreases p@.len() - i,
    {
        if s[i] != p[i] {
            assert(s@.take(p@.len() as int)[i as int] != p@[i as int]);
            return false;
        }
        i += 1;
    }
    assert(s@.take(p@.len() as int) =~= p@);
    true
}

/// Resolves the opponent of a match (see `target_of`).
pub fn resolve_opponent_target(opponent: &str, self_play: bool, flavor: ApiFlavor) -> (t: OpponentTarget)
    ensures
        match t {
            OpponentTarget::Local => target_of(opponent@, self_play, flavor) is None,
            OpponentTarget::Http { url, flavor: f } => target_of(opponent@, self_play, flavor) == Some((url@, f)),
        },
{
    if self_play {
        return OpponentTarget::Local;
    }
    let o = str_chars(opponent);
    if has_prefix(&o, &str_chars("http://")) || has_prefix(&o, &str_chars("https://")) {
        return OpponentTarget::Http { url: string_from_chars(o.as_slice()), flavor };
    }
    let lowered = lower_chars(o.as_slice());
    if chars_eq_str(lowered.as_slice(), "local") {
        return OpponentTarget::Local;
    }
    let rows = opponent_roster();
    let mut i: usize = 0;
    while i < rows.len()
        invariant
            rows@.len() == roster_spec().len(),
            forall|j: int| 0 <= j < rows@.len() ==> (#[trigger] rows@[j]).0@ == roster_spec()[j].0
                && rows@[j].1 == roster_spec()[j].1 && rows@[j].2@ == roster_spec()[j].2,
            i <= rows@.len(),
            o@ == opponent@,
            forall|j: int| 0 <= j < i ==> opponent@ != roster_spec()[j].0,
            !self_play,
            !starts_with(opponent@, "http://"@),
            !starts_with(opponent@, "https://"@),
            lower_spec(opponent@) != "local"@,
        decreases rows@.len() - i,
    {
        if chars_eq(o.as_slice(), rows[i].0.as_slice()) {
            let f = match flavor {
                ApiFlavor::Auto => rows[i].1,
                other => other,
            };
            return OpponentTarget::Http { url: string_from_chars(rows[i].2.as_slice()), flavor: f };
        }
        i += 1;
    }
    OpponentTarget::Local
}

/// The starting bodies: the local snake down the column `x = 2` from `y = 2`, the opponent up
/// the column `x = width - 3` from `y = height - 3`.
pub open spec fn start_bodies(width: int, height: int) -> (Seq<Point>, Seq<Point>) {
    (
        seq![Point { x: 2, y: 2 }, Point { x: 2, y: 1 }, Point { x: 2, y: 0 }],
        seq![
            Point { x: (width - 3) as i32, y: (height - 3) as i32 },
            Point { x: (width - 3) as i32, y: (height - 2) as i32 },
            Point { x: (width - 3) as i32, y: (height - 1) as i32 },
        ],
    )
}

/// Whether `(st, rng)` is the new game of a `width` by `height` board from `seed`: turn 0, the
/// seed kept, `s1` ("local") and `s2` ("opponent") on their starting bodies with full health, and
/// the standard initial food placed by a generator seeded by `seed`, which ends as `rng`.
pub open spec fn fresh_game(st: GameState, rng: LcgRng, width: i32, height: i32, seed: u32) -> bool {
    &&& st.turn == 0
    &&& st.seed == seed as u64
    &&& st.board.width == width
    &&& st.board.height == height
    &&& st.board.snakes@.len() == 2
    &&& st.board.snakes@[0].id.0@ == "s1"@
    &&& st.board.snakes@[0].name@ == "local"@
    &&& st.board.snakes@[0].body@ == start_bodies(width as int, height as int).0
    &&& st.board.snakes@[0].health == 100
    &&& st.board.snakes@[0].alive
    &&& st.board.snakes@[1].id.0@ == "s2"@
    &&& st.board.snakes@[1].name@ == "opponent"@
    &&& st.board.snakes@[1].body@ == start_bodies(width as int, height as int).1
    &&& st.board.snakes@[1].health == 100
    &&& st.board.snakes@[1].alive
    &&& (st.board.food@, rng) == place_spec(LcgRng::with_state(seed), width as int, height as int, st.board.snakes@, Seq::empty(), 3)
}

/// On a board of at least 6 by 6 cells the two starting bodies leave at least three cells free,
/// so the standard initial food of a new game is three items (see `build_playground_state`).
pub proof fn lemma_start_leaves_room(width: i32, height: i32, snakes: Seq<Snake>)
    requires
        width >= 6,
        height >= 6,
        width * height <= i32::MAX,
        snakes.len() == 2,
        snakes[0].body@ == start_bodies(width as int, height as int).0,
        snakes[1].body@ == start_bodies(width as int, height as int).1,
    ensures
        free_cells(width as int, height as int, snakes, Seq::empty()).len() >= 3,
{
    let w = width as int;
    let h = height as int;
    let cells = board_cells(w, h);
    let pred = free_pred(snakes, Seq::empty());
    assert(w * h >= 36) by (nonlinear_arith) requires w >= 6, h >= 6;
    assert(cells.len() == w * h);
    vstd::arithmetic::div_mod::lemma_small_mod(0, w as nat);
    vstd::arithmetic::div_mod::lemma_small_mod(1, w as nat);
    vstd::arithmetic::div_mod::lemma_div_of0(w);
    vstd::arithmetic::div_mod::lemma_basic_div(1, w);
    vstd::arithmetic::div_mod::lemma_div_by_self(w);
    vstd::arithmetic::div_mod::lemma_fundamental_div_mod(w, w);
    assert(w % w == 0) by (nonlinear_arith) requires w == w * (w / w) + w % w, w / w == 1;
    assert(w < w * h) by (nonlinear_arith) requires w >= 6, h >= 6;
    let a = Point { x: 0, y: 0 };
    let b = Point { x: 1, y: 0 };
    let c = Point { x: 0, y: 1 };
    assert(cells[0] == a);
    assert(cells[1] == b);
    assert(cells[w] == c);
    let bodies = start_bodies(w, h);
    assert forall|p: Point| p.x <= 1 implies #[trigger] pred(p) by {
        if snake_covers(snakes, p) {
            let (s, k) = choose|s: int, k: int|
                0 <= s < snakes.len() && 0 <= k < snakes[s].body@.len() && #[trigger] snakes[s].body@[k] == p;
            if s == 0 {
                assert(bodies.0[k].x == 2);
            } else {
                assert(bodies.1[k].x == w - 3);
            }
        }
    }
    cells.filter_lemma(pred);
    let f = cells.filter(pred);
    assert(pred(cells[0]) && pred(cells[1]) && pred(cells[w]));
    assert(f.contains(cells[0]) && f.contains(cells[1]) && f.contains(cells[w]));
    let ia = choose|i: int| 0 <= i < f.len() && f[i] == a;
    let ib = choose|i: int| 0 <= i < f.len() && f[i] == b;
    let ic = choose|i: int| 0 <= i < f.len() && f[i] == c;
    assert(ia != ib && ib != ic && ia != ic);
}

/// A new game is determined by its board size and seed: two new games of the same size and seed
/// agree on the turn, the seed, every snake, the food and the generator.
pub proof fn lemma_fresh_game_determined(st1: GameState, rng1: LcgRng, st2: GameState, rng2: LcgRng, width: i32,
    height: i32, seed: u32)
    requires
        fresh_game(st1, rng1, width, height, seed),
        fresh_game(st2, rng2, width, height, seed),
    ensures
        st1.turn == st2.turn && st1.seed == st2.seed,
        st1.board.width == st2.board.width && st1.board.height == st2.board.height,
        models_of(st1.board.snakes@) == models_of(st2.board.snakes@),
        st1.board.food@ == st2.board.food@,
        rng1 == rng2,
{
    let w = width as int;
    let h = height as int;
    let s1 = st1.board.snakes@;
    let s2 = st2.board.snakes@;
    assert(models_of(s1) =~= models_of(s2));
    let p1 = free_pred(s1, Seq::empty());
    let p2 = free_pred(s2, Seq::empty());
    assert forall|p: Point| #[trigger] p1(p) == p2(p) by {
        if snake_covers(s1, p) {
            let (s, k) = choose|s: int, k: int| 0 <= s < s1.len() && 0 <= k < s1[s].body@.len() && #[trigger] s1[s].body@[k] == p;
            assert(s2[s].body@[k] == p);
        }
        if snake_covers(s2, p) {
            let (s, k) = choose|s: int, k: int| 0 <= s < s2.len() && 0 <= k < s2[s].body@.len() && #[trigger] s2[s].body@[k] == p;
            assert(s1[s].body@[k] == p);
        }
    }
    crate::food::lemma_filter_congruent(board_cells(w, h), p1, p2);
    assert(free_cells(w, h, s1, Seq::empty()) == free_cells(w, h, s2, Seq::empty()));
}

/// A new game: `s1` ("local") and `s2` ("opponent") with three segments and full health at
/// opposite corners, and the standard initial food placed with a generator seeded by `seed` (see
/// `place_spec`), so a game is determined by its size and seed. Returns the position and the
/// generator after placing the food.
pub fn build_playground_state(width: i32, height: i32, seed: u32) -> (r: (GameState, LcgRng))
    requires
        width >= i32::MIN + 3,
        height >= i32::MIN + 3,
        (if width > 0 { width as int } else { 0 }) * (if height > 0 { height as int } else { 0 }) <= i32::MAX,
    ensures
        r.0.turn == 0,
        r.0.seed == seed as u64,
        r.0.board.width == width,
        r.0.board.height == height,
        r.0.board.snakes@.len() == 2,
        r.0.board.snakes@[0].id.0@ == "s1"@,
        r.0.board.snakes@[0].name@ == "local"@,
        r.0.board.snakes@[0].body@ == start_bodies(width as int, height as int).0,
        r.0.board.snakes@[0].health == 100,
        r.0.board.snakes@[0].alive,
        r.0.board.snakes@[1].id.0@ == "s2"@,
        r.0.board.snakes@[1].name@ == "opponent"@,
        r.0.board.snakes@[1].body@ == start_bodies(width as int, height as int).1,
        r.0.board.snakes@[1].health == 100,
        r.0.board.snakes@[1].alive,
        ({
            let free = free_cells(width as int, height as int, r.0.board.snakes@, Seq::empty());
            let n = if 3 < free.len() { 3 } else { free.len() as int };
            added_free_food(width as int, height as int, r.0.board.snakes@, Seq::empty(), r.0.board.food@, n)
        }),
        (r.0.board.food@, r.1) == place_spec(LcgRng::with_state(seed), width as int, height as int, r.0.board.snakes@, Seq::empty(), 3),
        fresh_game(r.0, r.1, width, height, seed),
        width >= 6 && height >= 6 ==> r.0.board.food@.len() == 3,
{
    let r = build_initial_state(width, height, seed);
    proof {
        if width >= 6 && height >= 6 {
            assert(width * height <= i32::MAX);
            lemma_start_leaves_room(width, height, r.0.board.snakes@);
        }
    }
    r
}

/// A new game (see `build_playground_state`).
fn build_initial_state(width: i32, height: i32, seed: u32) -> (r: (GameState, LcgRng))
    requires
        width >= i32::MIN + 3,
        height >= i32::MIN + 3,
        (if width > 0 { width as int } else { 0 }) * (if height > 0 { height as int } else { 0 }) <= i32::MAX,
    ensures
        r.0.turn == 0,
        r.0.seed == seed as u64,
        r.0.board.width == width,
        r.0.board.height == height,
        r.0.board.snakes@.len() == 2,
        r.0.board.snakes@[0].id.0@ == "s1"@,
        r.0.board.snakes@[0].name@ == "local"@,
        r.0.board.snakes@[0].body@ == start_bodies(width as int, height as int).0,
        r.0.board.snakes@[0].health == 100,
        r.0.board.snakes@[0].alive,
        r.0.board.snakes@[1].id.0@ == "s2"@,
        r.0.board.snakes@[1].name@ == "opponent"@,
        r.0.board.snakes@[1].body@ == start_bodies(width as int, height as int).1,
        r.0.board.snakes@[1].health == 100,
        r.0.board.snakes@[1].alive,
        ({
            let free = free_cells(width as int, height as int, r.0.board.snakes@, Seq::empty());
            let n = if 3 < free.len() { 3 } else { free.len() as int };
            added_free_food(width as int, height as int, r.0.board.snakes@, Seq::empty(), r.0.board.food@, n)
        }),
        (r.0.board.food@, r.1) == place_spec(LcgRng::with_state(seed), width as int, height as int, r.0.board.snakes@, Seq::empty(), 3),
{
    let mut rng = LcgRng::new(seed);
    proof {
        LcgRng::lemma_with_state(seed);
    }
    let pad: i32 = 2;
    let p0 = Point { x: pad, y: pad };
    let p1 = Point { x: pad, y: pad - 1 };
    let p2 = Point { x: pad, y: pad - 2 };
    let s1 = Snake::new("s1", "local", vec![p0, p1, p2], 100);
    let ox = width - pad - 1;
    let q0 = Point { x: ox, y: height - pad - 1 };
    let q1 = Point { x: ox, y: height - pad };
    let q2 = Point { x: ox, y: height - pad + 1 };
    let s2 = Snake::new("s2", "opponent", vec![q0, q1, q2], 100);
    let snakes = vec![s1, s2];
    let mut food: Vec<Point> = Vec::new();
    let settings = FoodSettings::default();
    place_initial_standard_food(&mut rng, width, height, snakes.as_slice(), &mut food, settings);
    proof {
        assert(s1.body@ =~= start_bodies(width as int, height as int).0);
        assert(s2.body@ =~= start_bodies(width as int, height as int).1);
    }
    let state = GameState {
        turn: 0,
        seed: seed as u64,
        board: Board { width, height, food, snakes },
    };
    (state, rng)
}

/// The body and health of the snake at `idx`, or an empty body with no health.
pub open spec fn agent_of(snakes: Seq<Snake>, idx: Option<usize>) -> (Seq<Point>, int) {
    match idx {
        Some(i) => if i < snakes.len() { (snakes[i as int].body@, snakes[i as int].health as int) } else { (Seq::empty(), 0) },
        None => (Seq::empty(), 0),
    }
}

/// The search inputs for one side: its own snake and the other side's, each empty when absent.
pub fn extract_agent_pair(state: &GameState, me_idx: Option<usize>, enemy_idx: Option<usize>) -> (r: (AgentState, AgentState))
    requires
        agent_of(state.board.snakes@, me_idx).0.len() <= 512,
        agent_of(state.board.snakes@, enemy_idx).0.len() <= 512,
    ensures
        r.0.body.wf(),
        r.1.body.wf(),
        r.0.body@ == agent_of(state.board.snakes@, me_idx).0,
        r.0.health == agent_of(state.board.snakes@, me_idx).1,
        r.1.body@ == agent_of(state.board.snakes@, enemy_idx).0,
        r.1.health == agent_of(state.board.snakes@, enemy_idx).1,
{
    let me = agent_from(&state.board.snakes, me_idx);
    let enemy = agent_from(&state.board.snakes, enemy_idx);
    (me, enemy)
}

/// The search input for the snake at `idx`.
fn agent_from(snakes: &Vec<Snake>, idx: Option<usize>) -> (a: AgentState)
    requires
        agent_of(snakes@, idx).0.len() <= 512,
    ensures
        a.body.wf(),
        a.body@ == agent_of(snakes@, idx).0,
        a.health == agent_of(snakes@, idx).1,
{
    match idx {
        Some(i) => if i < snakes.len() {
            let pts = points_of_deque(&snakes[i].body);
            AgentState { body: FastBody::from_points(pts), health: snakes[i].health }
        } else {
            AgentState { body: FastBody::from_points(Vec::new()), health: 0 }
        },
        None => AgentState { body: FastBody::from_points(Vec::new()), health: 0 },
    }
}

/// The result of a finished match from its final position.
pub fn match_result(seed: u32, state: &GameState, s1_idx: Option<usize>, s2_idx: Option<usize>, death: MatchDeathSummary) -> (r: MatchResult)
    ensures
        ({
            let ss = state.board.snakes@;
            let a1 = match s1_idx { Some(i) => i < ss.len() && ss[i as int].alive, None => false };
            let a2 = match s2_idx { Some(i) => i < ss.len() && ss[i as int].alive, None => false };
            let l1 = agent_of(ss, s1_idx).0.len();
            let l2 = agent_of(ss, s2_idx).0.len();
            &&& r.seed == seed
            &&& r.turns == state.turn
            &&& r.winner@ == winner_text(a1, a2, l1, l2)
            &&& r.local_length == l1
            &&& r.opp_length == l2
            &&& r.death == death
            &&& r.local_died == !a1
        }),
{
    let snakes = &state.board.snakes;
    let (a1, l1) = match s1_idx {
        Some(i) => if i < snakes.len() { (snakes[i].alive, snakes[i].len()) } else { (false, 0) },
        None => (false, 0),
    };
    let (a2, l2) = match s2_idx {
        Some(i) => if i < snakes.len() { (snakes[i].alive, snakes[i].len()) } else { (false, 0) },
        None => (false, 0),
    };
    MatchResult {
        seed,
        turns: state.turn,
        winner: match_winner(a1, a2, l1, l2),
        local_length: l1,
        opp_length: l2,
        death,
        local_died: !a1,
    }
}

} // verus!
