use vstd::prelude::*;
use crate::direction::{Direction, spec_lower_name};
use crate::types::{Point, Snake, Board, GameState, points_of_deque};
use crate::engine::{SnakeModel, models_of, model_of};
use crate::matches::{find_snake, first_with_id};
use crate::api::{normalize_move_name, move_of};
use crate::text::texts;

verus! {

/// One turn of a recorded game: the generator's state and the position before the turn, and the
/// move the opponent played in it.
#[derive(Debug, Clone)]
pub struct MatchTraceFrame {
    pub rng_seed: u32,
    pub state: GameState,
    pub opponent_move: Direction,
}

/// A saved position to replay the end of a game from: both sides' bodies and health, the food,
/// the board size, the turn and generator state, and the opponent's moves from there on (by name).
#[derive(Debug, Clone)]
pub struct ArenaSnapshotFile {
    pub opponent_body: Vec<Point>,
    pub local_body: Vec<Point>,
    pub foods: Vec<Point>,
    pub opponent_health: i32,
    pub local_health: i32,
    pub cols: i32,
    pub rows: i32,
    pub turn: u32,
    pub rng_seed: u32,
    pub opponent_moves: Vec<String>,
}

/// A snapshot turned back into a game to play on.
#[derive(Debug, Clone)]
pub struct LoadedSnapshot {
    pub state: GameState,
    pub rng_seed: u32,
    pub opponent_moves: Vec<Direction>,
}

/// Why a snapshot cannot be replayed.
#[derive(Debug, Clone, Copy, PartialEq, Eq)]
pub enum SnapshotError {
    /// The snapshot's board size differs from the arena's.
    BoardMismatch { snapshot_cols: i32, snapshot_rows: i32, width: i32, height: i32 },
}

/// The frame a snapshot starts from: `ticks` frames (at least one) before the end of a trace of
/// `len` frames, or the first frame of a shorter trace.
pub open spec fn snapshot_start(len: int, ticks: int) -> int {
    let t = if ticks < 1 { 1 } else { ticks };
    if len >= t { len - t } else { 0 }
}

/// The body and health of the first snake with id `id`, or an empty body and no health.
pub open spec fn side_of(snakes: Seq<Snake>, id: Seq<char>) -> (Seq<Point>, int) {
    match first_with_id(snakes, id) {
        Some(i) => (snakes[i as int].body@, snakes[i as int].health as int),
        None => (Seq::empty(), 0),
    }
}

/// The body and health of the first snake with id `id` (see `side_of`).
fn side_in(snakes: &Vec<Snake>, id: &str) -> (r: (Vec<Point>, i32))
    ensures
        (r.0@, r.1 as int) == side_of(snakes@, id@),
{
    match find_snake(snakes, id) {
        Some(i) => (points_of_deque(&snakes[i].body), snakes[i].health),
        None => (Vec::new(), 0),
    }
}

/// The snapshot of a recorded game `snapshot_ticks` turns (at least one) before its end, or from
/// its first turn when it is shorter; `None` for an empty record. The local side is snake `s1`,
/// the opponent `s2`; a side that is missing has an empty body and no health.
pub fn build_snapshot(trace: &[MatchTraceFrame], snapshot_ticks: usize, width: i32, height: i32) -> (r: Option<ArenaSnapshotFile>)
    ensures
        r is None <==> trace@.len() == 0,
        r matches Some(s) ==> {
            let k = snapshot_start(trace@.len() as int, snapshot_ticks as int);
            let f = trace@[k];
            &&& (s.local_body@, s.local_health as int) == side_of(f.state.board.snakes@, "s1"@)
            &&& (s.opponent_body@, s.opponent_health as int) == side_of(f.state.board.snakes@, "s2"@)
            &&& s.foods@ == f.state.board.food@
            &&& s.cols == width
            &&& s.rows == height
            &&& s.turn == f.state.turn
            &&& s.rng_seed == f.rng_seed
            &&& s.opponent_moves@.len() == trace@.len() - k
            &&& forall|j: int| 0 <= j < s.opponent_moves@.len() ==>
                (#[trigger] s.opponent_moves@[j])@ == spec_lower_name(trace@[k + j].opponent_move)
        },
{
    if trace.len() == 0 {
        return None;
    }
    let ticks = if snapshot_ticks < 1 { 1 } else { snapshot_ticks };
    let idx = if trace.len() >= ticks { trace.len() - ticks } else { 0 };
    let frame = &trace[idx];
    let (local_body, local_health) = side_in(&frame.state.board.snakes, "s1");
    let (opponent_body, opponent_health) = side_in(&frame.state.board.snakes, "s2");
    let mut moves: Vec<String> = Vec::new();
    let mut i: usize = idx;
    while i < trace.len()
        invariant
            idx <= i <= trace@.len(),
            moves@.len() == i - idx,
            forall|j: int| 0 <= j < moves@.len() ==> (#[trigger] moves@[j])@ == spec_lower_name(trace@[idx + j].opponent_move),
        decreases trace@.len() - i,
    {
        let name = trace[i].opponent_move.as_lower().to_owned();
        moves.push(name);
        i += 1;
    }
    Some(ArenaSnapshotFile {
        opponent_body,
        local_body,
        foods: frame.state.board.food.clone(),
        opponent_health,
        local_health,
        cols: width,
        rows: height,
        turn: frame.state.turn,
        rng_seed: frame.rng_seed,
        opponent_moves: moves,
    })
}

/// The moves that `names` name, in order, the names of no move left out.
pub open spec fn named_moves(names: Seq<Seq<char>>) -> Seq<Direction>
    decreases names.len(),
{
    if names.len() == 0 {
        Seq::empty()
    } else {
        let rest = named_moves(names.drop_last());
        match move_of(names.last()) {
            Some(d) => rest.push(d),
            None => rest,
        }
    }
}

/// The game a snapshot resumes on a `width` by `height` arena board: `s1` ("local") and `s2`
/// ("opponent") with the saved bodies and health, the saved food, turn and generator state, and
/// the opponent's named moves (names of no move left out). A snapshot of another board size is
/// refused.
pub fn snapshot_state(snapshot: ArenaSnapshotFile, width: i32, height: i32) -> (r: Result<LoadedSnapshot, SnapshotError>)
    ensures
        r is Err <==> (snapshot.cols != width || snapshot.rows != height),
        r matches Err(e) ==> e == (SnapshotError::BoardMismatch {
            snapshot_cols: snapshot.cols,
            snapshot_rows: snapshot.rows,
            width,
            height,
        }),
        r matches Ok(l) ==> {
            &&& l.state.turn == snapshot.turn
            &&& l.state.seed == snapshot.rng_seed as u64
            &&& l.state.board.width == width
            &&& l.state.board.height == height
            &&& l.state.board.food@ == snapshot.foods@
            &&& models_of(l.state.board.snakes@) == seq![
                SnakeModel { id: "s1"@, name: "local"@, body: snapshot.local_body@, health: snapshot.local_health as int, alive: true },
                SnakeModel { id: "s2"@, name: "opponent"@, body: snapshot.opponent_body@, health: snapshot.opponent_health as int, alive: true },
            ]
            &&& l.rng_seed == snapshot.rng_seed
            &&& l.opponent_moves@ == named_moves(texts(snapshot.opponent_moves@))
        },
{
    if snapshot.cols != width || snapshot.rows != height {
        return Err(SnapshotError::BoardMismatch {
            snapshot_cols: snapshot.cols,
            snapshot_rows: snapshot.rows,
            width,
            height,
        });
    }
    let mut moves: Vec<Direction> = Vec::new();
    let mut i: usize = 0;
    while i < snapshot.opponent_moves.len()
        invariant
            i <= snapshot.opponent_moves@.len(),
            moves@ == named_moves(texts(snapshot.opponent_moves@.subrange(0, i as int))),
        decreases snapshot.opponent_moves@.len() - i,
    {
        let ghost before = snapshot.opponent_moves@.subrange(0, i as int);
        let ghost after = snapshot.opponent_moves@.subrange(0, i + 1);
        proof {
            assert(texts(after).drop_last() =~= texts(before));
            assert(texts(after).last() == snapshot.opponent_moves@[i as int]@);
        }
        match normalize_move_name(snapshot.opponent_moves[i].as_str()) {
            Some(d) => moves.push(d),
            None => {},
        }
        i += 1;
    }
    proof {
        assert(snapshot.opponent_moves@.subrange(0, i as int) =~= snapshot.opponent_moves@);
    }
    let local = Snake::new("s1", "local", snapshot.local_body, snapshot.local_health);
    let opponent = Snake::new("s2", "opponent", snapshot.opponent_body, snapshot.opponent_health);
    let snakes = vec![local, opponent];
    proof {
        assert(models_of(snakes@) =~= seq![model_of(local), model_of(opponent)]);
    }
    Ok(LoadedSnapshot {
        state: GameState {
            turn: snapshot.turn,
            seed: snapshot.rng_seed as u64,
            board: Board { width, height, food: snapshot.foods, snakes },
        },
        rng_seed: snapshot.rng_seed,
        opponent_moves: moves,
    })
}

/// The lower-case name of a move reads back as that move.
proof fn lemma_move_name_reads_back(d: Direction)
    ensures
        move_of(spec_lower_name(d)) == Some(d),
{
    let n = spec_lower_name(d);
    assert(crate::text::lead_ws(n) == 0);
    assert(crate::text::trail_ws(n) == 0);
    assert(n.subrange(0, n.len() as int) =~= n);
    assert(crate::text::trim_spec(n) == n);
    assert(crate::text::lower_spec(n) =~= n);
    assert(crate::api::normalized(n) == n);
}

/// The opponent's moves as a snapshot writes them (by lower-case name) read back as the same
/// moves.
pub proof fn lemma_snapshot_moves_read_back(names: Seq<Seq<char>>, moves: Seq<Direction>)
    requires
        names.len() == moves.len(),
        forall|j: int| 0 <= j < names.len() ==> #[trigger] names[j] == spec_lower_name(moves[j]),
    ensures
        named_moves(names) == moves,
    decreases names.len(),
{
    if names.len() > 0 {
        let k = names.len() - 1;
        assert forall|j: int| 0 <= j < names.drop_last().len() implies #[trigger] names.drop_last()[j] == spec_lower_name(moves.drop_last()[j]) by {
            assert(names[j] == spec_lower_name(moves[j]));
        }
        lemma_snapshot_moves_read_back(names.drop_last(), moves.drop_last());
        assert(names[k] == spec_lower_name(moves[k]));
        lemma_move_name_reads_back(moves[k]);
        assert(moves.drop_last().push(moves.last()) =~= moves);
    } else {
        assert(moves =~= Seq::<Direction>::empty());
    }
}

/// `value` in double quotes when it holds a space, as a command-line argument.
pub fn quote_for_cli(value: &str) -> (r: String)
    ensures
        r@ == if value@.contains(' ') { seq!['"'] + value@ + seq!['"'] } else { value@ },
{
    let chars = crate::text::str_chars(value);
    let mut has_space = false;
    let mut k: usize = 0;
    while k < chars.len()
        invariant
            k <= chars@.len(),
            chars@ == value@,
            has_space <==> exists|j: int| 0 <= j < k && chars@[j] == ' ',
        decreases chars@.len() - k,
    {
        if chars[k] == ' ' {
            has_space = true;
        }
        k += 1;
    }
    if has_space {
        let mut out: Vec<char> = Vec::new();
        out.push('"');
        let mut i: usize = 0;
        while i < chars.len()
            invariant
                i <= chars@.len(),
                out@ == seq!['"'] + chars@.subrange(0, i as int),
            decreases chars@.len() - i,
        {
            out.push(chars[i]);
            i += 1;
            proof {
                assert(out@ =~= seq!['"'] + chars@.subrange(0, i as int));
            }
        }
        out.push('"');
        proof {
            assert(chars@.subrange(0, i as int) =~= chars@);
        }
        crate::text::string_from_chars(out.as_slice())
    } else {
        value.to_owned()
    }
}

} // verus!
