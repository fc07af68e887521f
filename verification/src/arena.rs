use vstd::prelude::*;
use crate::api::ApiFlavor;
use crate::matches::{DeathReasonCounts, MatchResult, MatchDeathSummary};
use crate::text::{
    str_chars, string_from_chars, chars_eq_str, trim_chars, trim_spec, lower_chars, lower_spec, split_chars,
    split_spec, views, push_dec, dec_string,
};

verus! {

/// A kind of extreme game to look for in an arena run.
#[derive(Debug, Clone, Copy, PartialEq, Eq, Hash, Structural)]
pub enum ArenaFindMode {
    Shortest,
    Longest,
    ShortestSnake,
    LongestSnake,
}

/// The mode a (trimmed, lower-cased) name denotes.
pub open spec fn mode_named(n: Seq<char>) -> Option<ArenaFindMode> {
    if n == "shortest"@ || n == "shortest-turns"@ || n == "st"@ {
        Some(ArenaFindMode::Shortest)
    } else if n == "longest"@ || n == "longest-turns"@ || n == "lt"@ {
        Some(ArenaFindMode::Longest)
    } else if n == "shortest-snake"@ || n == "ss"@ {
        Some(ArenaFindMode::ShortestSnake)
    } else if n == "longest-snake"@ || n == "ls"@ {
        Some(ArenaFindMode::LongestSnake)
    } else {
        None
    }
}

/// The mode `raw` names, ignoring surrounding white space and letter case.
pub open spec fn mode_of(raw: Seq<char>) -> Option<ArenaFindMode> {
    mode_named(lower_spec(trim_spec(raw)))
}

/// The heading of a mode.
pub open spec fn mode_title(m: ArenaFindMode) -> Seq<char> {
    match m {
        ArenaFindMode::Shortest => "Shortest Turns"@,
        ArenaFindMode::Longest => "Longest Turns"@,
        ArenaFindMode::ShortestSnake => "Shortest Local Snake"@,
        ArenaFindMode::LongestSnake => "Longest Local Snake"@,
    }
}

/// The file-name tag of a mode.
pub open spec fn mode_slug(m: ArenaFindMode) -> Seq<char> {
    match m {
        ArenaFindMode::Shortest => "shortest"@,
        ArenaFindMode::Longest => "longest"@,
        ArenaFindMode::ShortestSnake => "shortest-snake"@,
        ArenaFindMode::LongestSnake => "longest-snake"@,
    }
}

/// The quantity a mode ranks games by: the number of turns, or the local snake's length.
pub open spec fn mode_metric(m: ArenaFindMode, r: MatchResult) -> int {
    match m {
        ArenaFindMode::Shortest | ArenaFindMode::Longest => r.turns as int,
        ArenaFindMode::ShortestSnake | ArenaFindMode::LongestSnake => r.local_length as i64 as int,
    }
}

/// Whether a mode looks for the smallest value of its metric.
pub open spec fn mode_minimizes(m: ArenaFindMode) -> bool {
    m == ArenaFindMode::Shortest || m == ArenaFindMode::ShortestSnake
}

impl ArenaFindMode {
    /// The mode named by `raw` (case-insensitive, surrounding white space ignored).
    pub fn parse(raw: &str) -> (m: Option<Self>)
        ensures
            m == mode_of(raw@),
    {
        let chars = str_chars(raw);
        let t = trim_chars(chars.as_slice());
        let n = lower_chars(t.as_slice());
        let s = n.as_slice();
        if chars_eq_str(s, "shortest") || chars_eq_str(s, "shortest-turns") || chars_eq_str(s, "st") {
            Some(ArenaFindMode::Shortest)
        } else if chars_eq_str(s, "longest") || chars_eq_str(s, "longest-turns") || chars_eq_str(s, "lt") {
            Some(ArenaFindMode::Longest)
        } else if chars_eq_str(s, "shortest-snake") || chars_eq_str(s, "ss") {
            Some(ArenaFindMode::ShortestSnake)
        } else if chars_eq_str(s, "longest-snake") || chars_eq_str(s, "ls") {
            Some(ArenaFindMode::LongestSnake)
        } else {
            None
        }
    }

    /// The heading of this mode.
    pub fn title(self) -> (s: &'static str)
        ensures
            s@ == mode_title(self),
    {
        match self {
            ArenaFindMode::Shortest => "Shortest Turns",
            ArenaFindMode::Longest => "Longest Turns",
            ArenaFindMode::ShortestSnake => "Shortest Local Snake",
            ArenaFindMode::LongestSnake => "Longest Local Snake",
        }
    }

    /// The file-name tag of this mode.
    pub fn slug(self) -> (s: &'static str)
        ensures
            s@ == mode_slug(self),
    {
        match self {
            ArenaFindMode::Shortest => "shortest",
            ArenaFindMode::Longest => "longest",
            ArenaFindMode::ShortestSnake => "shortest-snake",
            ArenaFindMode::LongestSnake => "longest-snake",
        }
    }

    /// The quantity this mode ranks a game by.
    pub fn metric(self, result: &MatchResult) -> (v: i64)
        ensures
            v == mode_metric(self, *result),
    {
        match self {
            ArenaFindMode::Shortest | ArenaFindMode::Longest => result.turns as i64,
            ArenaFindMode::ShortestSnake | ArenaFindMode::LongestSnake => result.local_length as i64,
        }
    }

    /// The metric of a game as shown: `<turns> turns` or `<length> local length`.
    pub fn metric_label(self, result: &MatchResult) -> (s: String)
        ensures
            s@ == match self {
                ArenaFindMode::Shortest | ArenaFindMode::Longest => dec_string(result.turns as nat) + " turns"@,
                ArenaFindMode::ShortestSnake | ArenaFindMode::LongestSnake => dec_string(result.local_length as nat) + " local length"@,
            },
    {
        let mut out: Vec<char> = Vec::new();
        let tail = match self {
            ArenaFindMode::Shortest | ArenaFindMode::Longest => {
                push_dec(&mut out, result.turns as u128);
                str_chars(" turns")
            },
            ArenaFindMode::ShortestSnake | ArenaFindMode::LongestSnake => {
                push_dec(&mut out, result.local_length as u128);
                str_chars(" local length")
            },
        };
        let ghost head = out@;
        let mut k: usize = 0;
        while k < tail.len()
            invariant
                k <= tail@.len(),
                out@ == head + tail@.subrange(0, k as int),
            decreases tail@.len() - k,
        {
            out.push(tail[k]);
            k += 1;
            assert(out@ =~= head + tail@.subrange(0, k as int));
        }
        assert(tail@.subrange(0, k as int) =~= tail@);
        string_from_chars(out.as_slice())
    }

    /// Whether `candidate` beats `current` for this mode (strictly smaller or larger metric).
    pub fn better(self, candidate: &MatchResult, current: &MatchResult) -> (b: bool)
        ensures
            b == if mode_minimizes(self) {
                mode_metric(self, *candidate) < mode_metric(self, *current)
            } else {
                mode_metric(self, *candidate) > mode_metric(self, *current)
            },
    {
        let cand = self.metric(candidate);
        let best = self.metric(current);
        match self {
            ArenaFindMode::Shortest | ArenaFindMode::ShortestSnake => cand < best,
            ArenaFindMode::Longest | ArenaFindMode::LongestSnake => cand > best,
        }
    }
}

/// The modes and rejected names after one more comma-separated piece: empty pieces are skipped,
/// a known mode is kept once, anything else is rejected (trimmed).
pub open spec fn add_token(acc: (Seq<ArenaFindMode>, Seq<Seq<char>>), piece: Seq<char>) -> (Seq<ArenaFindMode>, Seq<Seq<char>>) {
    let t = trim_spec(piece);
    if t.len() == 0 {
        acc
    } else {
        match mode_of(t) {
            Some(m) => if acc.0.contains(m) { acc } else { (acc.0.push(m), acc.1) },
            None => (acc.0, acc.1.push(t)),
        }
    }
}

/// The result after the pieces `toks`, in order.
pub open spec fn add_tokens(acc: (Seq<ArenaFindMode>, Seq<Seq<char>>), toks: Seq<Seq<char>>) -> (Seq<ArenaFindMode>, Seq<Seq<char>>)
    decreases toks.len(),
{
    if toks.len() == 0 { acc } else { add_token(add_tokens(acc, toks.drop_last()), toks.last()) }
}

/// The modes and rejected names from the first `i` values, each split at commas.
pub open spec fn find_modes_after(values: Seq<Seq<char>>, i: nat) -> (Seq<ArenaFindMode>, Seq<Seq<char>>)
    decreases i,
{
    if i == 0 {
        (Seq::empty(), Seq::empty())
    } else {
        add_tokens(find_modes_after(values, (i - 1) as nat), split_spec(values[i - 1], ','))
    }
}

/// Reads find modes from command-line values, each a comma-separated list. Returns the distinct
/// modes in order of first mention and the names that are not modes.
pub fn parse_arena_find_modes(values: &[String]) -> (r: (Vec<ArenaFindMode>, Vec<String>))
    ensures
        ({
            let spec_r = find_modes_after(values@.map_values(|v: String| v@), values@.len());
            &&& r.0@ == spec_r.0
            &&& r.1@.map_values(|v: String| v@) == spec_r.1
        }),
{
    let ghost vals = values@.map_values(|v: String| v@);
    let mut parsed: Vec<ArenaFindMode> = Vec::new();
    let mut invalid: Vec<String> = Vec::new();
    let mut i: usize = 0;
    while i < values.len()
        invariant
            vals == values@.map_values(|v: String| v@),
            i <= values@.len(),
            parsed@ == find_modes_after(vals, i as nat).0,
            invalid@.map_values(|v: String| v@) == find_modes_after(vals, i as nat).1,
        decreases values@.len() - i,
    {
        let chars = str_chars(values[i].as_str());
        let pieces = split_chars(chars.as_slice(), ',');
        let ghost toks = views(pieces@);
        let ghost base = find_modes_after(vals, i as nat);
        assert(toks == split_spec(vals[i as int], ','));
        let mut j: usize = 0;
        while j < pieces.len()
            invariant
                toks == views(pieces@),
                j <= pieces@.len(),
                parsed@ == add_tokens(base, toks.take(j as int)).0,
                invalid@.map_values(|v: String| v@) == add_tokens(base, toks.take(j as int)).1,
            decreases pieces@.len() - j,
        {
            let ghost before = add_tokens(base, toks.take(j as int));
            proof {
                assert(toks.take(j + 1).drop_last() =~= toks.take(j as int));
                assert(toks.take(j + 1).last() == pieces@[j as int]@);
            }
            let t = trim_chars(pieces[j].as_slice());
            if t.len() > 0 {
                let ts = string_from_chars(t.as_slice());
                match ArenaFindMode::parse(ts.as_str()) {
                    Some(m) => {
                        let mut seen = false;
                        let mut k: usize = 0;
                        while k < parsed.len()
                            invariant
                                k <= parsed@.len(),
                                seen == exists|q: int| 0 <= q < k && parsed@[q] == m,
                            decreases parsed@.len() - k,
                        {
                            if parsed[k] == m {
                                seen = true;
                            }
                            k += 1;
                        }
                        proof {
                            if seen {
                                let q = choose|q: int| 0 <= q < k && parsed@[q] == m;
                                assert(parsed@.contains(m));
                            } else {
                                assert(!parsed@.contains(m));
                            }
                        }
                        if !seen {
                            parsed.push(m);
                        }
                    },
                    None => {
                        let ghost inv0 = invalid@;
                        invalid.push(ts);
                        proof {
                            assert(invalid@.map_values(|v: String| v@) =~= inv0.map_values(|v: String| v@).push(t@));
                        }
                    },
                }
            }
            j += 1;
        }
        proof {
            assert(toks.take(j as int) =~= toks);
        }
        i += 1;
    }
    (parsed, invalid)
}

/// Each find mode is kept at most once, whatever the values.
pub proof fn lemma_find_modes_distinct(values: Seq<Seq<char>>, i: nat)
    ensures
        find_modes_after(values, i).0.no_duplicates(),
    decreases i,
{
    if i > 0 {
        lemma_find_modes_distinct(values, (i - 1) as nat);
        lemma_add_tokens_distinct(find_modes_after(values, (i - 1) as nat), split_spec(values[i - 1], ','));
    }
}

/// Adding pieces keeps the modes free of duplicates.
proof fn lemma_add_tokens_distinct(acc: (Seq<ArenaFindMode>, Seq<Seq<char>>), toks: Seq<Seq<char>>)
    requires
        acc.0.no_duplicates(),
    ensures
        add_tokens(acc, toks).0.no_duplicates(),
    decreases toks.len(),
{
    if toks.len() > 0 {
        lemma_add_tokens_distinct(acc, toks.drop_last());
        let prev = add_tokens(acc, toks.drop_last());
        let t = trim_spec(toks.last());
        if t.len() > 0 {
            match mode_of(t) {
                Some(m) => if !prev.0.contains(m) {
                    assert forall|a: int, b: int| 0 <= a < b < prev.0.push(m).len() implies prev.0.push(m)[a] != prev.0.push(m)[b] by {
                        if b == prev.0.len() {
                            assert(prev.0[a] != m);
                        }
                    }
                },
                None => {},
            }
        }
    }
}

/// Settings of an arena run.
#[derive(Debug, Clone)]
pub struct ArenaOptions {
    pub games: usize,
    pub seed: u32,
    pub width: i32,
    pub height: i32,
    pub max_turns: u32,
    pub opponent: String,
    pub self_play: bool,
    pub api_flavor: ApiFlavor,
    pub request_timeout_ms: u64,
    pub payload_timeout_ms: u32,
    pub find_modes: Vec<ArenaFindMode>,
    pub invalid_find_modes: Vec<String>,
    pub only_loss: bool,
    pub resume: bool,
    pub snapshot_file: String,
    pub snapshot_ticks: usize,
}

impl ArenaOptions {
    pub const DEFAULT_GAMES: usize = 100;
    pub const DEFAULT_SEED: u32 = 1;
    pub const DEFAULT_WIDTH: i32 = 16;
    pub const DEFAULT_HEIGHT: i32 = 9;
    pub const DEFAULT_MAX_TURNS: u32 = 2000;
    pub const DEFAULT_SELF_PLAY: bool = false;
    pub const DEFAULT_REQUEST_TIMEOUT_MS: u64 = 700;
    pub const DEFAULT_PAYLOAD_TIMEOUT_MS: u32 = 100;
    pub const DEFAULT_ONLY_LOSS: bool = false;
    pub const DEFAULT_RESUME: bool = false;
    pub const DEFAULT_SNAPSHOT_TICKS: usize = 10;

    /// The default opponent name.
    pub fn default_opponent() -> (s: &'static str)
        ensures
            s@ == "local-old"@,
    {
        "local-old"
    }

    /// The default API setting.
    pub fn default_api_raw() -> (s: &'static str)
        ensures
            s@ == "auto"@,
    {
        "auto"
    }
}

/// Deaths by cause over a run, for each side.
#[derive(Debug, Clone, Copy, PartialEq, Eq, Structural)]
pub struct ArenaDeathStats {
    pub local: DeathReasonCounts,
    pub opponent: DeathReasonCounts,
}

/// A game identified by seed, with its number of turns.
#[derive(Debug, Clone, Copy, PartialEq, Eq, Structural)]
pub struct ArenaTurnsExtreme {
    pub seed: u32,
    pub turns: u32,
}

/// A game identified by seed, with the local snake's final length.
#[derive(Debug, Clone, Copy, PartialEq, Eq, Structural)]
pub struct ArenaLengthExtreme {
    pub seed: u32,
    pub length: usize,
}

/// A game found for one find mode, with the hints to replay it.
#[derive(Debug, Clone)]
pub struct ArenaFindResult {
    pub mode: ArenaFindMode,
    pub mode_title: String,
    pub seed: u32,
    pub winner: String,
    pub turns: u32,
    pub local_length: usize,
    pub metric_label: String,
    pub snapshot_file: Option<String>,
    pub reproduce_hint: String,
    pub resume_hint: Option<String>,
}

/// The histogram bin of a game length in turns: 0-100, 101-200, ..., 901-1000, then 1000+.
pub open spec fn turn_bin(turns: int) -> int {
    if turns <= 100 { 0 } else if turns > 1000 { 10 } else { (turns - 1) / 100 }
}

/// The histogram bin of a snake length: 0-5, 6-10, ..., 66-70, then 70+.
pub open spec fn length_bin(length: int) -> int {
    if length <= 5 { 0 } else if length > 70 { 14 } else { (length - 1) / 5 }
}

/// The histogram bin of a game length in turns.
pub fn turn_bin_index(turns: u32) -> (i: usize)
    ensures
        i == turn_bin(turns as int),
        i < 11,
{
    if turns <= 100 {
        0
    } else if turns > 1000 {
        10
    } else {
        ((turns - 1) / 100) as usize
    }
}

/// The histogram bin of a snake length.
pub fn length_bin_index(length: usize) -> (i: usize)
    ensures
        i == length_bin(length as int),
        i < 15,
{
    if length <= 5 {
        0
    } else if length > 70 {
        14
    } else {
        (length - 1) / 5
    }
}

/// Adds the counts of `source` into `target`.
pub fn add_death_counts(target: &mut DeathReasonCounts, source: &DeathReasonCounts)
    requires
        old(target).starvation + source.starvation <= usize::MAX,
        old(target).wall + source.wall <= usize::MAX,
        old(target).body + source.body <= usize::MAX,
        old(target).head + source.head <= usize::MAX,
    ensures
        final(target).starvation == old(target).starvation + source.starvation,
        final(target).wall == old(target).wall + source.wall,
        final(target).body == old(target).body + source.body,
        final(target).head == old(target).head + source.head,
{
    target.starvation += source.starvation;
    target.wall += source.wall;
    target.body += source.body;
    target.head += source.head;
}

/// `starvation=<n> wall=<n> body=<n> head=<n>`.
pub open spec fn death_row_text(v: DeathReasonCounts) -> Seq<char> {
    "starvation="@ + dec_string(v.starvation as nat) + " wall="@ + dec_string(v.wall as nat)
        + " body="@ + dec_string(v.body as nat) + " head="@ + dec_string(v.head as nat)
}

/// Appends the characters of a string literal.
fn push_str(out: &mut Vec<char>, s: &str)
    ensures
        final(out)@ == old(out)@ + s@,
{
    let t = str_chars(s);
    let mut k: usize = 0;
    while k < t.len()
        invariant
            k <= t@.len(),
            out@ == old(out)@ + t@.subrange(0, k as int),
        decreases t@.len() - k,
    {
        out.push(t[k]);
        k += 1;
        assert(out@ =~= old(out)@ + t@.subrange(0, k as int));
    }
    assert(t@.subrange(0, k as int) =~= t@);
}

/// One line of death counts.
pub fn format_death_row(v: &DeathReasonCounts) -> (s: String)
    ensures
        s@ == death_row_text(*v),
{
    let mut out: Vec<char> = Vec::new();
    push_str(&mut out, "starvation=");
    push_dec(&mut out, v.starvation as u128);
    push_str(&mut out, " wall=");
    push_dec(&mut out, v.wall as u128);
    push_str(&mut out, " body=");
    push_dec(&mut out, v.body as u128);
    push_str(&mut out, " head=");
    push_dec(&mut out, v.head as u128);
    assert(out@ =~= death_row_text(*v));
    string_from_chars(out.as_slice())
}

/// Running totals of an arena run.
#[derive(Debug, Clone)]
pub struct ArenaAccumulator {
    pub wins_local: usize,
    pub wins_opponent: usize,
    pub draws: usize,
    pub total_turns: u64,
    pub total_local_length: u64,
    pub total_opponent_length: u64,
    pub death_stats: ArenaDeathStats,
    pub turn_bins: [usize; 11],
    pub local_length_bins: [usize; 15],
    pub opponent_length_bins: [usize; 15],
    pub shortest_turn_game: Option<ArenaTurnsExtreme>,
    pub longest_turn_game: Option<ArenaTurnsExtreme>,
    pub shortest_local_length_game: Option<ArenaLengthExtreme>,
    pub longest_local_length_game: Option<ArenaLengthExtreme>,
}

/// No counter of `a` overflows when `r` is recorded.
pub open spec fn record_fits(a: ArenaAccumulator, r: MatchResult) -> bool {
    &&& a.wins_local < usize::MAX
    &&& a.wins_opponent < usize::MAX
    &&& a.draws < usize::MAX
    &&& a.total_turns + r.turns <= u64::MAX
    &&& a.total_local_length + r.local_length <= u64::MAX
    &&& a.total_opponent_length + r.opp_length <= u64::MAX
    &&& a.death_stats.local.starvation + r.death.local.starvation <= usize::MAX
    &&& a.death_stats.local.wall + r.death.local.wall <= usize::MAX
    &&& a.death_stats.local.body + r.death.local.body <= usize::MAX
    &&& a.death_stats.local.head + r.death.local.head <= usize::MAX
    &&& a.death_stats.opponent.starvation + r.death.opponent.starvation <= usize::MAX
    &&& a.death_stats.opponent.wall + r.death.opponent.wall <= usize::MAX
    &&& a.death_stats.opponent.body + r.death.opponent.body <= usize::MAX
    &&& a.death_stats.opponent.head + r.death.opponent.head <= usize::MAX
    &&& forall|i: int| 0 <= i < 11 ==> a.turn_bins[i] < usize::MAX
    &&& forall|i: int| 0 <= i < 15 ==> a.local_length_bins[i] < usize::MAX
    &&& forall|i: int| 0 <= i < 15 ==> a.opponent_length_bins[i] < usize::MAX
}

/// Whether recording `r` into `a` overflows no counter (see `record_fits`).
pub fn can_record(a: &ArenaAccumulator, r: &MatchResult) -> (ok: bool)
    ensures
        ok == record_fits(*a, *r),
{
    let mut bins_ok = true;
    let mut i: usize = 0;
    while i < 11
        invariant
            i <= 11,
            bins_ok == forall|k: int| 0 <= k < i ==> a.turn_bins[k] < usize::MAX,
        decreases 11 - i,
    {
        bins_ok = bins_ok && a.turn_bins[i] < usize::MAX;
        i += 1;
    }
    let mut j: usize = 0;
    while j < 15
        invariant
            j <= 15,
            bins_ok == ((forall|k: int| 0 <= k < 11 ==> a.turn_bins[k] < usize::MAX)
                && (forall|k: int| 0 <= k < j ==> a.local_length_bins[k] < usize::MAX)
                && (forall|k: int| 0 <= k < j ==> a.opponent_length_bins[k] < usize::MAX)),
        decreases 15 - j,
    {
        bins_ok = bins_ok && a.local_length_bins[j] < usize::MAX && a.opponent_length_bins[j] < usize::MAX;
        j += 1;
    }
    let d = &a.death_stats;
    let e = &r.death;
    bins_ok
        && a.wins_local < usize::MAX
        && a.wins_opponent < usize::MAX
        && a.draws < usize::MAX
        && a.total_turns <= u64::MAX - r.turns as u64
        && (r.local_length as u128) <= (u64::MAX - a.total_local_length) as u128
        && (r.opp_length as u128) <= (u64::MAX - a.total_opponent_length) as u128
        && d.local.starvation <= usize::MAX - e.local.starvation
        && d.local.wall <= usize::MAX - e.local.wall
        && d.local.body <= usize::MAX - e.local.body
        && d.local.head <= usize::MAX - e.local.head
        && d.opponent.starvation <= usize::MAX - e.opponent.starvation
        && d.opponent.wall <= usize::MAX - e.opponent.wall
        && d.opponent.body <= usize::MAX - e.opponent.body
        && d.opponent.head <= usize::MAX - e.opponent.head
}

/// Empty totals: every counter at zero and no extreme game yet.
pub open spec fn fresh_totals(a: ArenaAccumulator) -> bool {
    &&& a.wins_local == 0 && a.wins_opponent == 0 && a.draws == 0
    &&& a.total_turns == 0 && a.total_local_length == 0 && a.total_opponent_length == 0
    &&& a.death_stats.local == (DeathReasonCounts { starvation: 0, wall: 0, body: 0, head: 0 })
    &&& a.death_stats.opponent == (DeathReasonCounts { starvation: 0, wall: 0, body: 0, head: 0 })
    &&& forall|i: int| 0 <= i < 11 ==> a.turn_bins[i] == 0
    &&& forall|i: int| 0 <= i < 15 ==> a.local_length_bins[i] == 0
    &&& forall|i: int| 0 <= i < 15 ==> a.opponent_length_bins[i] == 0
    &&& a.shortest_turn_game is None && a.longest_turn_game is None
    &&& a.shortest_local_length_game is None && a.longest_local_length_game is None
}

/// The totals `after` recording game `r` into `before`: the winner's counter (a draw for any
/// other text), the sums, the deaths and the histogram bins go up, and an extreme game is
/// replaced when `r` is strictly more extreme (earlier games win ties).
pub open spec fn record_step(before: ArenaAccumulator, after: ArenaAccumulator, r: MatchResult) -> bool {
    &&& after.wins_local == before.wins_local + if r.winner@ == "local"@ { 1int } else { 0 }
    &&& after.wins_opponent == before.wins_opponent + if r.winner@ == "opponent"@ { 1int } else { 0 }
    &&& after.draws == before.draws + if r.winner@ != "local"@ && r.winner@ != "opponent"@ { 1int } else { 0 }
    &&& after.total_turns == before.total_turns + r.turns
    &&& after.total_local_length == before.total_local_length + r.local_length
    &&& after.total_opponent_length == before.total_opponent_length + r.opp_length
    &&& after.death_stats.local.starvation == before.death_stats.local.starvation + r.death.local.starvation
    &&& after.death_stats.local.wall == before.death_stats.local.wall + r.death.local.wall
    &&& after.death_stats.local.body == before.death_stats.local.body + r.death.local.body
    &&& after.death_stats.local.head == before.death_stats.local.head + r.death.local.head
    &&& after.death_stats.opponent.starvation == before.death_stats.opponent.starvation + r.death.opponent.starvation
    &&& after.death_stats.opponent.wall == before.death_stats.opponent.wall + r.death.opponent.wall
    &&& after.death_stats.opponent.body == before.death_stats.opponent.body + r.death.opponent.body
    &&& after.death_stats.opponent.head == before.death_stats.opponent.head + r.death.opponent.head
    &&& forall|i: int| 0 <= i < 11 ==> after.turn_bins[i] == before.turn_bins[i]
        + if i == turn_bin(r.turns as int) { 1int } else { 0 }
    &&& forall|i: int| 0 <= i < 15 ==> after.local_length_bins[i] == before.local_length_bins[i]
        + if i == length_bin(r.local_length as int) { 1int } else { 0 }
    &&& forall|i: int| 0 <= i < 15 ==> after.opponent_length_bins[i] == before.opponent_length_bins[i]
        + if i == length_bin(r.opp_length as int) { 1int } else { 0 }
    &&& after.shortest_turn_game == match before.shortest_turn_game {
        Some(c) => if r.turns < c.turns { Some(ArenaTurnsExtreme { seed: r.seed, turns: r.turns }) } else { Some(c) },
        None => Some(ArenaTurnsExtreme { seed: r.seed, turns: r.turns }),
    }
    &&& after.longest_turn_game == match before.longest_turn_game {
        Some(c) => if r.turns > c.turns { Some(ArenaTurnsExtreme { seed: r.seed, turns: r.turns }) } else { Some(c) },
        None => Some(ArenaTurnsExtreme { seed: r.seed, turns: r.turns }),
    }
    &&& after.shortest_local_length_game == match before.shortest_local_length_game {
        Some(c) => if r.local_length < c.length { Some(ArenaLengthExtreme { seed: r.seed, length: r.local_length }) } else { Some(c) },
        None => Some(ArenaLengthExtreme { seed: r.seed, length: r.local_length }),
    }
    &&& after.longest_local_length_game == match before.longest_local_length_game {
        Some(c) => if r.local_length > c.length { Some(ArenaLengthExtreme { seed: r.seed, length: r.local_length }) } else { Some(c) },
        None => Some(ArenaLengthExtreme { seed: r.seed, length: r.local_length }),
    }
}

/// Every recorded game counts exactly once as a local win, an opponent win or a draw.
pub proof fn lemma_record_counts_one_game(before: ArenaAccumulator, after: ArenaAccumulator, winner: Seq<char>)
    requires
        after.wins_local == before.wins_local + if winner == "local"@ { 1int } else { 0 },
        after.wins_opponent == before.wins_opponent + if winner == "opponent"@ { 1int } else { 0 },
        after.draws == before.draws + if winner != "local"@ && winner != "opponent"@ { 1int } else { 0 },
    ensures
        after.wins_local + after.wins_opponent + after.draws == before.wins_local + before.wins_opponent + before.draws + 1,
{
    reveal_strlit("local");
    reveal_strlit("opponent");
    assert("local"@.len() != "opponent"@.len());
}

/// The totals of a run: `accs[k]` holds the first `k` games of `rs`, recorded in order into
/// empty totals.
pub open spec fn recorded_run(accs: Seq<ArenaAccumulator>, rs: Seq<MatchResult>) -> bool {
    &&& accs.len() == rs.len() + 1
    &&& fresh_totals(accs[0])
    &&& forall|k: int| 0 <= k < rs.len() ==> #[trigger] record_step(accs[k], accs[k + 1], rs[k])
}

/// The sum of a row of counters.
pub open spec fn counters_total(s: Seq<usize>) -> int
    decreases s.len(),
{
    if s.len() == 0 { 0 } else { counters_total(s.drop_last()) + s.last() }
}

/// The sum of the games' turns.
pub open spec fn turns_total(rs: Seq<MatchResult>) -> int
    decreases rs.len(),
{
    if rs.len() == 0 { 0 } else { turns_total(rs.drop_last()) + rs.last().turns }
}

/// Game `j` is the first of the fewest turns.
pub open spec fn first_shortest(rs: Seq<MatchResult>, j: int) -> bool {
    &&& 0 <= j < rs.len()
    &&& forall|i: int| 0 <= i < rs.len() ==> rs[j].turns <= #[trigger] rs[i].turns
    &&& forall|i: int| 0 <= i < j ==> #[trigger] rs[i].turns > rs[j].turns
}

/// Game `j` is the first of the most turns.
pub open spec fn first_longest(rs: Seq<MatchResult>, j: int) -> bool {
    &&& 0 <= j < rs.len()
    &&& forall|i: int| 0 <= i < rs.len() ==> rs[j].turns >= #[trigger] rs[i].turns
    &&& forall|i: int| 0 <= i < j ==> #[trigger] rs[i].turns < rs[j].turns
}

/// What the totals of the games `rs` hold: each game counted once, as a local win, an opponent
/// win or a draw; each game in one turn bin; the sum of the turns; and the first shortest and
/// first longest game.
pub open spec fn run_totals(a: ArenaAccumulator, rs: Seq<MatchResult>) -> bool {
    &&& a.wins_local == rs.filter(|r: MatchResult| r.winner@ == "local"@).len()
    &&& a.wins_opponent == rs.filter(|r: MatchResult| r.winner@ == "opponent"@).len()
    &&& a.wins_local + a.wins_opponent + a.draws == rs.len()
    &&& counters_total(a.turn_bins@) == rs.len()
    &&& a.total_turns == turns_total(rs)
    &&& rs.len() == 0 ==> a.shortest_turn_game is None && a.longest_turn_game is None
    &&& rs.len() > 0 ==> exists|j: int| #[trigger] first_shortest(rs, j)
        && a.shortest_turn_game == Some(ArenaTurnsExtreme { seed: rs[j].seed, turns: rs[j].turns })
    &&& rs.len() > 0 ==> exists|j: int| #[trigger] first_longest(rs, j)
        && a.longest_turn_game == Some(ArenaTurnsExtreme { seed: rs[j].seed, turns: rs[j].turns })
}

/// Raising one counter of a row by one raises the row's sum by one.
proof fn lemma_counters_bump(a: Seq<usize>, b: Seq<usize>, k: int)
    requires
        a.len() == b.len(),
        0 <= k < a.len(),
        b[k] == a[k] + 1,
        forall|i: int| 0 <= i < a.len() && i != k ==> b[i] == a[i],
    ensures
        counters_total(b) == counters_total(a) + 1,
    decreases a.len(),
{
    if k < a.len() - 1 {
        lemma_counters_bump(a.drop_last(), b.drop_last(), k);
    } else {
        assert(a.drop_last() =~= b.drop_last());
    }
}

/// A row of zero counters sums to zero.
proof fn lemma_counters_zero(a: Seq<usize>)
    requires
        forall|i: int| 0 <= i < a.len() ==> a[i] == 0,
    ensures
        counters_total(a) == 0,
    decreases a.len(),
{
    if a.len() > 0 {
        lemma_counters_zero(a.drop_last());
    }
}

/// The totals after the first `k` games of a run hold those games (see `run_totals`).
proof fn lemma_run_prefix(accs: Seq<ArenaAccumulator>, rs: Seq<MatchResult>, k: int)
    requires
        recorded_run(accs, rs),
        0 <= k <= rs.len(),
    ensures
        run_totals(accs[k], rs.take(k)),
    decreases k,
{
    reveal_strlit("local");
    reveal_strlit("opponent");
    assert("local"@.len() != "opponent"@.len());
    if k == 0 {
        let a = accs[0];
        assert(rs.take(0) =~= Seq::<MatchResult>::empty());
        lemma_counters_zero(a.turn_bins@);
    } else {
        lemma_run_prefix(accs, rs, k - 1);
        let p = rs.take(k - 1);
        let q = rs.take(k);
        let r = rs[k - 1];
        let a = accs[k - 1];
        let j = k - 1;
        assert(record_step(accs[j], accs[j + 1], rs[j]));
        let b = accs[k];
        assert(q =~= p.push(r));
        assert(q.drop_last() =~= p);
        p.lemma_filter_push(r, |x: MatchResult| x.winner@ == "local"@);
        p.lemma_filter_push(r, |x: MatchResult| x.winner@ == "opponent"@);
        let t = turn_bin(r.turns as int);
        assert(0 <= t < 11);
        lemma_counters_bump(a.turn_bins@, b.turn_bins@, t);
        if p.len() == 0 {
            assert(first_shortest(q, 0));
            assert(first_longest(q, 0));
        } else {
            let js = choose|j: int| #[trigger] first_shortest(p, j)
                && a.shortest_turn_game == Some(ArenaTurnsExtreme { seed: p[j].seed, turns: p[j].turns });
            if r.turns < p[js].turns {
                assert(first_shortest(q, k - 1));
            } else {
                assert(first_shortest(q, js));
            }
            let jl = choose|j: int| #[trigger] first_longest(p, j)
                && a.longest_turn_game == Some(ArenaTurnsExtreme { seed: p[j].seed, turns: p[j].turns });
            if r.turns > p[jl].turns {
                assert(first_longest(q, k - 1));
            } else {
                assert(first_longest(q, jl));
            }
        }
    }
}

/// Recording a run of games, in order, into empty totals counts each game once as a local win,
/// an opponent win or a draw, puts each in one turn bin, sums their turns, and keeps the first
/// shortest and the first longest game.
pub proof fn lemma_recorded_run(accs: Seq<ArenaAccumulator>, rs: Seq<MatchResult>)
    requires
        recorded_run(accs, rs),
    ensures
        run_totals(accs.last(), rs),
{
    lemma_run_prefix(accs, rs, rs.len() as int);
    assert(rs.take(rs.len() as int) =~= rs);
}

impl ArenaAccumulator {
    /// Empty totals.
    pub fn new() -> (a: Self)
        ensures
            fresh_totals(a),
    {
        ArenaAccumulator {
            wins_local: 0,
            wins_opponent: 0,
            draws: 0,
            total_turns: 0,
            total_local_length: 0,
            total_opponent_length: 0,
            death_stats: ArenaDeathStats { local: DeathReasonCounts::default(), opponent: DeathReasonCounts::default() },
            turn_bins: [0usize; 11],
            local_length_bins: [0usize; 15],
            opponent_length_bins: [0usize; 15],
            shortest_turn_game: None,
            longest_turn_game: None,
            shortest_local_length_game: None,
            longest_local_length_game: None,
        }
    }

    /// Adds one game: its winner, totals, deaths and histogram bins, and replaces an extreme
    /// game when this one is strictly more extreme (earlier games win ties).
    pub fn record_result(&mut self, result: &MatchResult)
        requires
            record_fits(*old(self), *result),
        ensures
            record_step(*old(self), *final(self), *result),
    {
        let w = str_chars(result.winner.as_str());
        proof {
            reveal_strlit("local");
            reveal_strlit("opponent");
            assert("local"@.len() != "opponent"@.len());
        }
        if chars_eq_str(w.as_slice(), "local") {
            self.wins_local += 1;
        } else if chars_eq_str(w.as_slice(), "opponent") {
            self.wins_opponent += 1;
        } else {
            self.draws += 1;
        }
        self.total_turns += result.turns as u64;
        self.total_local_length += result.local_length as u64;
        self.total_opponent_length += result.opp_length as u64;

        add_death_counts(&mut self.death_stats.local, &result.death.local);
        add_death_counts(&mut self.death_stats.opponent, &result.death.opponent);

        let tb = turn_bin_index(result.turns);
        self.turn_bins[tb] = self.turn_bins[tb] + 1;
        let lb = length_bin_index(result.local_length);
        self.local_length_bins[lb] = self.local_length_bins[lb] + 1;
        let ob = length_bin_index(result.opp_length);
        self.opponent_length_bins[ob] = self.opponent_length_bins[ob] + 1;

        let replace_short = match self.shortest_turn_game {
            Some(c) => result.turns < c.turns,
            None => true,
        };
        if replace_short {
            self.shortest_turn_game = Some(ArenaTurnsExtreme { seed: result.seed, turns: result.turns });
        }
        let replace_long = match self.longest_turn_game {
            Some(c) => result.turns > c.turns,
            None => true,
        };
        if replace_long {
            self.longest_turn_game = Some(ArenaTurnsExtreme { seed: result.seed, turns: result.turns });
        }
        let replace_short_len = match self.shortest_local_length_game {
            Some(c) => result.local_length < c.length,
            None => true,
        };
        if replace_short_len {
            self.shortest_local_length_game = Some(ArenaLengthExtreme { seed: result.seed, length: result.local_length });
        }
        let replace_long_len = match self.longest_local_length_game {
            Some(c) => result.local_length > c.length,
            None => true,
        };
        if replace_long_len {
            self.longest_local_length_game = Some(ArenaLengthExtreme { seed: result.seed, length: result.local_length });
        }
    }
}

} // verus!
