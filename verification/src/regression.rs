use vstd::prelude::*;
use crate::direction::{Direction, spec_lower_name};
use crate::scenario::{Expectation, passes_spec};
use crate::brain::{format_duration_ns, duration_text};
use crate::text::{
    str_chars, string_from_chars, trim_chars, trim_spec, split_chars, split_spec, views, split_once_chars,
    split_once_spec, parse_usize, parse_unsigned_spec,
};

verus! {

/// How much a regression run prints.
#[derive(Debug, Clone, Copy, PartialEq, Eq, Structural)]
pub enum RegressionOutput {
    /// Headers, passes, failures and summaries.
    Full,
    /// Headers, failures and summaries.
    Summary,
    /// Failures only.
    FailuresOnly,
    /// Nothing.
    Silent,
}

impl Default for RegressionOutput {
    fn default() -> (o: Self)
        ensures
            o == RegressionOutput::Full,
    {
        RegressionOutput::Full
    }
}

impl RegressionOutput {
    /// The output level for the `--quiet` and `--fail-only` flags.
    pub fn from_flags(quiet: bool, fail_only: bool) -> (o: Self)
        ensures
            o == if !quiet && !fail_only {
                RegressionOutput::Full
            } else if !quiet && fail_only {
                RegressionOutput::Summary
            } else if quiet && fail_only {
                RegressionOutput::FailuresOnly
            } else {
                RegressionOutput::Silent
            },
    {
        match (quiet, fail_only) {
            (false, false) => RegressionOutput::Full,
            (false, true) => RegressionOutput::Summary,
            (true, true) => RegressionOutput::FailuresOnly,
            (true, false) => RegressionOutput::Silent,
        }
    }

    /// Whether run and depth headers and summaries are printed.
    pub fn show_headers(&self) -> (b: bool)
        ensures
            b == (*self == RegressionOutput::Full || *self == RegressionOutput::Summary),
    {
        match self {
            RegressionOutput::Full | RegressionOutput::Summary => true,
            _ => false,
        }
    }

    /// Whether passing scenarios are printed.
    pub fn show_passes(&self) -> (b: bool)
        ensures
            b == (*self == RegressionOutput::Full),
    {
        match self {
            RegressionOutput::Full => true,
            _ => false,
        }
    }

    /// Whether failing scenarios are printed.
    pub fn show_fails(&self) -> (b: bool)
        ensures
            b == (*self != RegressionOutput::Silent),
    {
        match self {
            RegressionOutput::Silent => false,
            _ => true,
        }
    }
}

/// Settings of a regression run.
#[derive(Debug, Clone)]
pub struct RegressionOptions {
    pub scenario_dir: String,
    pub depths: Vec<usize>,
    pub output: RegressionOutput,
    pub repeat: usize,
}

impl RegressionOptions {
    /// The default depth list.
    pub fn default_depths_raw() -> (s: &'static str)
        ensures
            s@ == "6"@,
    {
        "6"
    }
}

/// The outcome of the scenarios at one search depth.
#[derive(Debug, Clone, Copy, PartialEq, Eq, Structural)]
pub struct DepthResult {
    pub depth: usize,
    pub passed: usize,
    pub failed: usize,
    pub skipped: usize,
    pub duration_ns: u128,
    pub nodes: u64,
    pub nps: u64,
}

/// The tally of the first `n` scenarios at one depth: how many passed, failed and were skipped
/// (a scenario is skipped when no move was decided for it).
pub open spec fn tally_spec(outcomes: Seq<Option<Direction>>, expectations: Seq<Expectation>, n: int) -> (nat, nat, nat)
    decreases n,
{
    if n <= 0 {
        (0, 0, 0)
    } else {
        let (p, f, s) = tally_spec(outcomes, expectations, n - 1);
        match outcomes[n - 1] {
            None => (p, f, s + 1),
            Some(d) => if passes_spec(expectations[n - 1], d) { (p + 1, f, s) } else { (p, f + 1, s) },
        }
    }
}

/// The tally never counts more scenarios than it has seen.
proof fn lemma_tally_bounded(outcomes: Seq<Option<Direction>>, expectations: Seq<Expectation>, n: int)
    requires
        n >= 0,
    ensures
        tally_spec(outcomes, expectations, n).0 + tally_spec(outcomes, expectations, n).1 + tally_spec(outcomes, expectations, n).2 == n,
    decreases n,
{
    if n > 0 {
        lemma_tally_bounded(outcomes, expectations, n - 1);
    }
}

/// The result of one depth: scenario `i` decided `outcomes[i]` (`None` when skipped) against
/// `expectations[i]`; the time and node totals over all repeats are averaged per repeat. The node
/// rate, a floating-point quotient, is left at 0.
pub fn tally_depth(depth: usize, outcomes: &[Option<Direction>], expectations: &[Expectation], duration_ns: u128,
    nodes: u64, repeats: usize) -> (r: DepthResult)
    requires
        outcomes@.len() == expectations@.len(),
        repeats >= 1,
    ensures
        r.depth == depth,
        (r.passed as nat, r.failed as nat, r.skipped as nat) == tally_spec(outcomes@, expectations@, outcomes@.len() as int),
        r.duration_ns == duration_ns / (repeats as u128),
        r.nodes == nodes / (repeats as u64),
        r.nps == 0,
{
    let mut passed: usize = 0;
    let mut failed: usize = 0;
    let mut skipped: usize = 0;
    let mut i: usize = 0;
    while i < outcomes.len()
        invariant
            outcomes@.len() == expectations@.len(),
            i <= outcomes@.len(),
            (passed as nat, failed as nat, skipped as nat) == tally_spec(outcomes@, expectations@, i as int),
        decreases outcomes@.len() - i,
    {
        proof {
            lemma_tally_bounded(outcomes@, expectations@, i as int);
        }
        match outcomes[i] {
            None => {
                skipped += 1;
            },
            Some(d) => {
                if expectations[i].passes(d) {
                    passed += 1;
                } else {
                    failed += 1;
                }
            },
        }
        i += 1;
    }
    DepthResult {
        depth,
        passed,
        failed,
        skipped,
        duration_ns: duration_ns / (repeats as u128),
        nodes: nodes / (repeats as u64),
        nps: 0,
    }
}

/// The outcome of a whole regression run.
#[derive(Debug, Clone)]
pub struct RegressionSummary {
    pub passed: usize,
    pub failed: usize,
    pub skipped: usize,
    pub scenarios: usize,
    pub by_depth: Vec<DepthResult>,
    pub duration_ns: u128,
    pub nodes: u64,
    pub nps: u64,
}

impl DepthResult {
    /// The time spent, as `<ms>.<ns, six digits>ms`.
    pub fn duration_display(&self) -> (s: String)
        ensures
            s@ == duration_text(self.duration_ns as nat),
    {
        format_duration_ns(self.duration_ns)
    }
}

/// The sum of the durations of `rs`.
pub open spec fn total_duration(rs: Seq<DepthResult>) -> nat
    decreases rs.len(),
{
    if rs.len() == 0 { 0 } else { total_duration(rs.drop_last()) + rs.last().duration_ns as nat }
}

impl RegressionSummary {
    /// An empty summary for `scenarios` scenarios.
    pub fn new(scenarios: usize) -> (s: Self)
        ensures
            s.passed == 0 && s.failed == 0 && s.skipped == 0,
            s.scenarios == scenarios,
            s.by_depth@.len() == 0,
            s.duration_ns == 0 && s.nodes == 0 && s.nps == 0,
    {
        RegressionSummary { passed: 0, failed: 0, skipped: 0, scenarios, by_depth: Vec::new(), duration_ns: 0, nodes: 0, nps: 0 }
    }

    /// The total time spent, as `<ms>.<ns, six digits>ms`.
    pub fn duration_display(&self) -> (s: String)
        ensures
            s@ == duration_text(self.duration_ns as nat),
    {
        format_duration_ns(self.duration_ns)
    }

    /// Adds the outcome at one depth to the totals.
    pub fn add_depth(&mut self, r: DepthResult)
        requires
            old(self).passed + r.passed <= usize::MAX,
            old(self).failed + r.failed <= usize::MAX,
            old(self).skipped + r.skipped <= usize::MAX,
            old(self).nodes + r.nodes <= u64::MAX,
        ensures
            final(self).passed == old(self).passed + r.passed,
            final(self).failed == old(self).failed + r.failed,
            final(self).skipped == old(self).skipped + r.skipped,
            final(self).nodes == old(self).nodes + r.nodes,
            final(self).by_depth@ == old(self).by_depth@.push(r),
            final(self).scenarios == old(self).scenarios,
            final(self).duration_ns == old(self).duration_ns,
            final(self).nps == old(self).nps,
    {
        self.passed += r.passed;
        self.failed += r.failed;
        self.skipped += r.skipped;
        self.nodes += r.nodes;
        self.by_depth.push(r);
    }

    /// Sets the total duration to the sum over the depths.
    pub fn total_up(&mut self)
        requires
            total_duration(old(self).by_depth@) <= u128::MAX,
        ensures
            final(self).duration_ns == total_duration(old(self).by_depth@),
            final(self).by_depth@ == old(self).by_depth@,
            final(self).passed == old(self).passed,
            final(self).failed == old(self).failed,
            final(self).skipped == old(self).skipped,
            final(self).scenarios == old(self).scenarios,
            final(self).nodes == old(self).nodes,
            final(self).nps == old(self).nps,
    {
        let mut total: u128 = 0;
        let mut i: usize = 0;
        while i < self.by_depth.len()
            invariant
                i <= self.by_depth@.len(),
                total == total_duration(self.by_depth@.take(i as int)),
                total_duration(self.by_depth@) <= u128::MAX,
            decreases self.by_depth@.len() - i,
        {
            proof {
                assert(self.by_depth@.take(i + 1).drop_last() =~= self.by_depth@.take(i as int));
                lemma_total_duration_prefix(self.by_depth@, i + 1);
            }
            total = total + self.by_depth[i].duration_ns;
            i += 1;
        }
        assert(self.by_depth@.take(i as int) =~= self.by_depth@);
        self.duration_ns = total;
    }
}

/// The duration of a prefix is at most the whole.
pub proof fn lemma_total_duration_prefix(rs: Seq<DepthResult>, k: int)
    requires
        0 <= k <= rs.len(),
    ensures
        total_duration(rs.take(k)) <= total_duration(rs),
    decreases rs.len(),
{
    if k < rs.len() {
        assert(rs.drop_last().take(k) =~= rs.take(k));
        lemma_total_duration_prefix(rs.drop_last(), k);
    } else {
        assert(rs.take(k) =~= rs);
    }
}

/// An expectation as shown in a failure line: the move, or `not ` and the forbidden moves.
pub open spec fn expectation_text(e: Expectation) -> Seq<char> {
    match e {
        Expectation::Exact { direction } => spec_lower_name(direction),
        Expectation::Avoid { directions } => "not "@ + joined_names(directions@, directions@.len()),
    }
}

/// The names of the first `k` moves, joined with commas.
pub open spec fn joined_names(ds: Seq<Direction>, k: nat) -> Seq<char>
    decreases k,
{
    if k == 0 {
        Seq::empty()
    } else if k == 1 {
        spec_lower_name(ds[0])
    } else {
        joined_names(ds, (k - 1) as nat) + seq![','] + spec_lower_name(ds[k - 1])
    }
}

/// Appends the characters of `s`.
fn push_all(out: &mut Vec<char>, s: &Vec<char>)
    ensures
        final(out)@ == old(out)@ + s@,
{
    let mut k: usize = 0;
    while k < s.len()
        invariant
            k <= s@.len(),
            out@ == old(out)@ + s@.subrange(0, k as int),
        decreases s@.len() - k,
    {
        out.push(s[k]);
        k += 1;
        assert(out@ =~= old(out)@ + s@.subrange(0, k as int));
    }
    assert(s@.subrange(0, k as int) =~= s@);
}

/// The lower-case name of a move.
fn lower_name(d: Direction) -> (s: Vec<char>)
    ensures
        s@ == spec_lower_name(d),
{
    match d {
        Direction::Up => vec!['u', 'p'],
        Direction::Down => vec!['d', 'o', 'w', 'n'],
        Direction::Left => vec!['l', 'e', 'f', 't'],
        Direction::Right => vec!['r', 'i', 'g', 'h', 't'],
    }
}

/// An expectation as shown in a failure line.
pub fn concise_expectation(expectation: &Expectation) -> (s: String)
    ensures
        s@ == expectation_text(*expectation),
{
    match expectation {
        Expectation::Exact { direction } => string_from_chars(lower_name(*direction).as_slice()),
        Expectation::Avoid { directions } => {
            let mut out = str_chars("not ");
            let ghost head = out@;
            let mut i: usize = 0;
            while i < directions.len()
                invariant
                    i <= directions@.len(),
                    out@ == head + joined_names(directions@, i as nat),
                decreases directions@.len() - i,
            {
                if i > 0 {
                    out.push(',');
                }
                push_all(&mut out, &lower_name(directions[i]));
                i += 1;
                assert(out@ =~= head + joined_names(directions@, i as nat));
            }
            string_from_chars(out.as_slice())
        },
    }
}

// ---------------------------------------------------------------------------------------------
// Depth lists: comma-separated depths and ranges `a-b`, `a-b:step` or `a-b/step`.
// ---------------------------------------------------------------------------------------------

/// `str::parse::<usize>`.
pub open spec fn usize_of(s: Seq<char>) -> Option<nat> {
    match parse_unsigned_spec(s) {
        Some(v) => if v <= usize::MAX { Some(v) } else { None },
        None => None,
    }
}

/// Whether `v` is listed by a range from `a` to `b` (in either order, at least 1) with `step`
/// (at least 1): the values `from`, `from + step`, ... up to `to`.
pub open spec fn in_range(a: nat, b: nat, step: nat, v: int) -> bool {
    let from = if a < b { a } else { b };
    let from = if from < 1 { 1 } else { from };
    let to = if a > b { a } else { b };
    let to = if to < 1 { 1 } else { to };
    let step = if step < 1 { 1 } else { step };
    from <= v <= to && (v - from) % (step as int) == 0
}

/// Whether the trimmed, non-empty token `t` lists depth `v`.
pub open spec fn token_lists(t: Seq<char>, v: int) -> bool {
    match split_once_spec(t, '-') {
        Some((lhs, rhs)) => {
            let (rhs_num, step) = match split_once_spec(rhs, ':') {
                Some((r, s)) => (r, match usize_of(s) { Some(n) => n, None => 1 }),
                None => match split_once_spec(rhs, '/') {
                    Some((r, s)) => (r, match usize_of(s) { Some(n) => n, None => 1 }),
                    None => (rhs, 1nat),
                },
            };
            match (usize_of(lhs), usize_of(rhs_num)) {
                (Some(a), Some(b)) => in_range(a, b, step, v),
                _ => false,
            }
        },
        None => match usize_of(t) {
            Some(n) => v == if n < 1 { 1 } else { n as int },
            None => false,
        },
    }
}

/// Whether piece `k` of a comma-split depth list lists depth `v`.
pub open spec fn piece_lists(ps: Seq<Seq<char>>, k: int, v: int) -> bool {
    trim_spec(ps[k]).len() > 0 && token_lists(trim_spec(ps[k]), v)
}

/// Whether the depth list `raw` lists depth `v`.
pub open spec fn depths_list(raw: Seq<char>, v: int) -> bool {
    exists|k: int| 0 <= k < split_spec(raw, ',').len() && #[trigger] piece_lists(split_spec(raw, ','), k, v)
}

/// The depths listed by the first `i` pieces.
pub open spec fn listed_upto(ps: Seq<Seq<char>>, i: int) -> Set<usize> {
    Set::new(|v: usize| exists|k: int| 0 <= k < i && #[trigger] piece_lists(ps, k, v as int))
}

/// `v` is strictly increasing.
pub open spec fn strictly_increasing(v: Seq<usize>) -> bool {
    forall|i: int, j: int| 0 <= i < j < v.len() ==> v[i] < v[j]
}

/// Inserts `x` into the strictly increasing `out` unless it is already there.
fn insert_sorted(out: &mut Vec<usize>, x: usize)
    requires
        strictly_increasing(old(out)@),
    ensures
        strictly_increasing(final(out)@),
        final(out)@.to_set() == old(out)@.to_set().insert(x),
{
    let mut i: usize = out.len();
    while i > 0 && out[i - 1] > x
        invariant
            i <= out@.len(),
            strictly_increasing(out@),
            out@ == old(out)@,
            forall|j: int| i <= j < out@.len() ==> out@[j] > x,
        decreases i,
    {
        i -= 1;
    }
    if i > 0 && out[i - 1] == x {
        proof {
            assert(out@[i - 1] == x);
            assert(out@.to_set() =~= old(out)@.to_set().insert(x));
        }
        return;
    }
    let ghost before = out@;
    out.insert(i, x);
    proof {
        assert forall|a: int, b: int| 0 <= a < b < out@.len() implies out@[a] < out@[b] by {
            if a < i as int && b > i as int {
                assert(out@[a] == before[a] && out@[b] == before[b - 1]);
            }
        }
        assert forall|v: usize| #[trigger] out@.to_set().contains(v) <==> before.to_set().insert(x).contains(v) by {
            if out@.contains(v) {
                let k = choose|k: int| 0 <= k < out@.len() && out@[k] == v;
                if k < i as int {
                    assert(before[k] == v);
                } else if k > i as int {
                    assert(before[k - 1] == v);
                }
            }
            if before.contains(v) {
                let k = choose|k: int| 0 <= k < before.len() && before[k] == v;
                if k < i as int {
                    assert(out@[k] == v);
                } else {
                    assert(out@[k + 1] == v);
                }
            }
            if v == x {
                assert(out@[i as int] == x);
            }
        }
        assert(out@.to_set() =~= before.to_set().insert(x));
    }
}

/// Parses a depth list into its distinct depths in increasing order. Single depths below 1 count
/// as 1; range bounds and steps below 1 count as 1; malformed entries are skipped.
pub fn parse_depths(raw: &str) -> (r: Vec<usize>)
    ensures
        strictly_increasing(r@),
        r@.to_set() == Set::new(|v: usize| depths_list(raw@, v as int)),
{
    let chars = str_chars(raw);
    let pieces = split_chars(chars.as_slice(), ',');
    let ghost ps = split_spec(raw@, ',');
    let mut out: Vec<usize> = Vec::new();
    let mut i: usize = 0;
    assert(out@.to_set() =~= listed_upto(ps, 0));
    while i < pieces.len()
        invariant
            views(pieces@) == ps,
            ps == split_spec(raw@, ','),
            i <= pieces@.len(),
            strictly_increasing(out@),
            out@.to_set() == listed_upto(ps, i as int),
        decreases pieces@.len() - i,
    {
        let t = trim_chars(pieces[i].as_slice());
        let ghost before = out@;
        assert(pieces@[i as int]@ == ps[i as int]);
        if t.len() > 0 {
            add_token_depths(&mut out, &t);
        }
        proof {
            assert(t@ == trim_spec(ps[i as int]));
            assert forall|v: usize| #[trigger] out@.to_set().contains(v) <==> listed_upto(ps, i + 1).contains(v) by {
                assert(before.to_set().contains(v) <==> listed_upto(ps, i as int).contains(v));
                if t@.len() > 0 {
                    assert(out@.to_set().contains(v) <==> (before.to_set().contains(v) || token_lists(t@, v as int)));
                } else {
                    assert(out@ == before);
                }
                if listed_upto(ps, i + 1).contains(v) {
                    let k = choose|k: int| 0 <= k < i + 1 && #[trigger] piece_lists(ps, k, v as int);
                    if k < i {
                        assert(listed_upto(ps, i as int).contains(v));
                    }
                }
                if listed_upto(ps, i as int).contains(v) {
                    let k = choose|k: int| 0 <= k < i && #[trigger] piece_lists(ps, k, v as int);
                    assert(piece_lists(ps, k, v as int));
                }
                if t@.len() > 0 && token_lists(t@, v as int) {
                    assert(piece_lists(ps, i as int, v as int));
                }
            }
            assert(out@.to_set() =~= listed_upto(ps, i + 1));
        }
        i += 1;
    }
    proof {
        assert(out@.to_set() =~= Set::new(|v: usize| depths_list(raw@, v as int))) by {
            assert forall|v: usize| #[trigger] out@.to_set().contains(v) <==> depths_list(raw@, v as int) by {
                if depths_list(raw@, v as int) {
                    let k = choose|k: int| 0 <= k < split_spec(raw@, ',').len() && #[trigger] piece_lists(split_spec(raw@, ','), k, v as int);
                    assert(piece_lists(ps, k, v as int));
                }
                if listed_upto(ps, i as int).contains(v) {
                    let k = choose|k: int| 0 <= k < i && #[trigger] piece_lists(ps, k, v as int);
                    assert(piece_lists(ps, k, v as int));
                }
            }
        }
    }
    out
}

/// The step of a range, 1 when it is missing or not a number.
fn step_of(s: &Vec<char>) -> (n: usize)
    ensures
        n == match usize_of(s@) { Some(v) => v, None => 1 },
{
    match parse_usize(s.as_slice()) {
        Some(v) => v,
        None => 1,
    }
}

/// Adds the depths listed by one trimmed, non-empty token.
fn add_token_depths(out: &mut Vec<usize>, t: &Vec<char>)
    requires
        strictly_increasing(old(out)@),
    ensures
        strictly_increasing(final(out)@),
        final(out)@.to_set() == old(out)@.to_set().union(Set::new(|v: usize| token_lists(t@, v as int))),
{
    match split_once_chars(t.as_slice(), '-') {
        Some((lhs, rhs)) => {
            let ghost (rn_spec, st_spec) = match split_once_spec(rhs@, ':') {
                Some((r, s)) => (r, match usize_of(s) { Some(n) => n, None => 1 }),
                None => match split_once_spec(rhs@, '/') {
                    Some((r, s)) => (r, match usize_of(s) { Some(n) => n, None => 1 }),
                    None => (rhs@, 1nat),
                },
            };
            let (rhs_num, step): (Vec<char>, usize) = match split_once_chars(rhs.as_slice(), ':') {
                Some((r, s)) => (r, step_of(&s)),
                None => match split_once_chars(rhs.as_slice(), '/') {
                    Some((r, s)) => (r, step_of(&s)),
                    None => (rhs, 1),
                },
            };
            assert(rhs_num@ == rn_spec && step as nat == st_spec);
            assert(forall|w: int| token_lists(t@, w) == match (usize_of(lhs@), usize_of(rn_spec)) {
                (Some(a), Some(b)) => in_range(a, b, st_spec, w),
                _ => false,
            });
            match (parse_usize(lhs.as_slice()), parse_usize(rhs_num.as_slice())) {
                (Some(a), Some(b)) => {
                    let lo = if a < b { a } else { b };
                    let from = if lo < 1 { 1 } else { lo };
                    let hi = if a > b { a } else { b };
                    let to = if hi < 1 { 1 } else { hi };
                    let st = if step < 1 { 1 } else { step };
                    let mut v = from;
                    let ghost start = out@;
                    let ghost full = Set::new(|w: usize| from <= w <= to && (w - from) % (st as int) == 0);
                    assert(out@.to_set() =~= start.to_set().union(Set::new(|w: usize| from <= w < v && (w - from) % (st as int) == 0)));
                    loop
                        invariant_except_break
                            from <= v <= to,
                            (v - from) % (st as int) == 0,
                            out@.to_set() == start.to_set().union(Set::new(|w: usize| from <= w < v && (w - from) % (st as int) == 0)),
                        invariant
                            1 <= from <= to,
                            st >= 1,
                            strictly_increasing(out@),
                            full == Set::new(|w: usize| from <= w <= to && (w - from) % (st as int) == 0),
                        ensures
                            out@.to_set() == start.to_set().union(full),
                        decreases to - v,
                    {
                        insert_sorted(out, v);
                        if to - v < st {
                            proof {
                                assert forall|w: usize| #[trigger] out@.to_set().contains(w) <==> start.to_set().union(full).contains(w) by {
                                    if from <= w <= to && (w - from) % (st as int) == 0 && w > v {
                                        lemma_step_gap(from as int, v as int, w as int, st as int);
                                    }
                                }
                                assert(out@.to_set() =~= start.to_set().union(full));
                            }
                            break;
                        }
                        proof {
                            lemma_step_next(from as int, v as int, st as int);
                            let nxt = Set::new(|w: usize| from <= w < v + st && (w - from) % (st as int) == 0);
                            assert forall|w: usize| #[trigger] out@.to_set().contains(w) <==> start.to_set().union(nxt).contains(w) by {
                                if from <= w < v + st && (w - from) % (st as int) == 0 && w > v {
                                    lemma_step_gap(from as int, v as int, w as int, st as int);
                                }
                            }
                            assert(out@.to_set() =~= start.to_set().union(nxt));
                        }
                        v = v + st;
                    }
                    proof {
                        assert(Set::new(|w: usize| token_lists(t@, w as int)) =~= full);
                    }
                },
                _ => {
                    proof {
                        assert(Set::new(|v: usize| token_lists(t@, v as int)) =~= Set::<usize>::empty());
                        assert(old(out)@.to_set().union(Set::<usize>::empty()) =~= old(out)@.to_set());
                    }
                },
            }
        },
        None => {
            match parse_usize(t.as_slice()) {
                Some(n) => {
                    let d = if n < 1 { 1 } else { n };
                    insert_sorted(out, d);
                    proof {
                        assert(Set::new(|v: usize| token_lists(t@, v as int)) =~= set![d]);
                        assert(old(out)@.to_set().insert(d) =~= old(out)@.to_set().union(set![d]));
                    }
                },
                None => {
                    proof {
                        assert(Set::new(|v: usize| token_lists(t@, v as int)) =~= Set::<usize>::empty());
                        assert(old(out)@.to_set().union(Set::<usize>::empty()) =~= old(out)@.to_set());
                    }
                },
            }
        },
    }
}

/// Two points of the same progression differ by at least the step.
proof fn lemma_step_gap(from: int, v: int, w: int, st: int)
    requires
        st >= 1,
        v >= from,
        (v - from) % st == 0,
        (w - from) % st == 0,
        w > v,
    ensures
        w - v >= st,
{
    vstd::arithmetic::div_mod::lemma_fundamental_div_mod(v - from, st);
    vstd::arithmetic::div_mod::lemma_fundamental_div_mod(w - from, st);
    let q1 = (w - from) / st;
    let q2 = (v - from) / st;
    assert(w - v == st * (q1 - q2)) by (nonlinear_arith)
        requires w - from == st * q1, v - from == st * q2;
    assert(q1 - q2 >= 1) by (nonlinear_arith)
        requires w - v == st * (q1 - q2), w > v, st >= 1;
    assert(st * (q1 - q2) >= st) by (nonlinear_arith)
        requires q1 - q2 >= 1, st >= 1;
}

/// The next point of a progression is one step on.
proof fn lemma_step_next(from: int, v: int, st: int)
    requires
        st >= 1,
        v >= from,
        (v - from) % st == 0,
    ensures
        ((v + st) - from) % st == 0,
{
    vstd::arithmetic::div_mod::lemma_mod_add_multiples_vanish(v - from, st);
}

/// `b` appended to `a` as path components: `b` alone when `a` is empty, else separated by one `/`.
pub open spec fn join_path(a: Seq<char>, b: Seq<char>) -> Seq<char> {
    if a.len() == 0 { b } else if a.last() == '/' { a + b } else { a + seq!['/'] + b }
}

/// `a` followed by the path component `b`.
fn push_component(a: &Vec<char>, b: &str) -> (r: Vec<char>)
    ensures
        r@ == join_path(a@, b@),
{
    let mut out: Vec<char> = Vec::new();
    push_all(&mut out, a);
    if a.len() > 0 && a[a.len() - 1] != '/' {
        out.push('/');
    }
    push_all(&mut out, &str_chars(b));
    assert(out@ =~= join_path(a@, b@));
    out
}

/// The scenario directory of a checkout: `<root>/data/scenarios`.
pub fn default_scenario_dir(rust_root: &str) -> (s: String)
    ensures
        s@ == join_path(join_path(rust_root@, "data"@), "scenarios"@),
{
    let root = str_chars(rust_root);
    let data = push_component(&root, "data");
    let dir = push_component(&data, "scenarios");
    string_from_chars(dir.as_slice())
}

} // verus!
