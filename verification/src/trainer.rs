use vstd::prelude::*;
use crate::api::ApiFlavor;
use crate::matches::{OpponentTarget, target_of, resolve_opponent_target};
use crate::text::{str_chars, texts};

verus! {

// ---------------------------------------------------------------------------------------------
// The order of `str`'s comparison: by code point, a proper prefix first.
// ---------------------------------------------------------------------------------------------

/// Whether `a` comes before `b` when compared as `str` does.
pub open spec fn text_lt(a: Seq<char>, b: Seq<char>) -> bool
    decreases a.len(),
{
    if a.len() == 0 {
        b.len() > 0
    } else if b.len() == 0 {
        false
    } else if a[0] != b[0] {
        a[0] < b[0]
    } else {
        text_lt(a.drop_first(), b.drop_first())
    }
}

/// Of two different texts, exactly one comes first; no text comes before itself.
pub proof fn lemma_text_lt_total(a: Seq<char>, b: Seq<char>)
    ensures
        !(text_lt(a, b) && text_lt(b, a)),
        a != b ==> text_lt(a, b) || text_lt(b, a),
        !text_lt(a, a),
    decreases a.len(),
{
    if a.len() > 0 && b.len() > 0 {
        lemma_text_lt_total(a.drop_first(), b.drop_first());
        lemma_text_lt_total(a.drop_first(), a.drop_first());
        if a[0] == b[0] && a != b {
            assert(a =~= seq![a[0]] + a.drop_first());
            assert(b =~= seq![b[0]] + b.drop_first());
        }
    } else if a.len() > 0 {
        lemma_text_lt_total(a.drop_first(), a.drop_first());
    } else if b.len() == 0 {
        assert(a =~= b);
    }
}

/// The order is transitive.
pub proof fn lemma_text_lt_trans(a: Seq<char>, b: Seq<char>, c: Seq<char>)
    requires
        text_lt(a, b),
        text_lt(b, c),
    ensures
        text_lt(a, c),
    decreases a.len(),
{
    if a.len() > 0 && b.len() > 0 && c.len() > 0 && a[0] == b[0] && b[0] == c[0] {
        lemma_text_lt_trans(a.drop_first(), b.drop_first(), c.drop_first());
    }
}

/// Whether `a` comes before `b` (see `text_lt`).
fn text_less(a: &[char], b: &[char]) -> (r: bool)
    ensures
        r == text_lt(a@, b@),
{
    let mut i: usize = 0;
    proof {
        assert(a@.skip(0) =~= a@);
        assert(b@.skip(0) =~= b@);
    }
    while i < a.len() && i < b.len() && a[i] == b[i]
        invariant
            i <= a@.len(),
            i <= b@.len(),
            text_lt(a@, b@) == text_lt(a@.skip(i as int), b@.skip(i as int)),
        decreases a@.len() - i,
    {
        proof {
            assert(a@.skip(i as int).drop_first() =~= a@.skip(i + 1));
            assert(b@.skip(i as int).drop_first() =~= b@.skip(i + 1));
        }
        i += 1;
    }
    if i == a.len() {
        i < b.len()
    } else if i == b.len() {
        false
    } else {
        a[i] < b[i]
    }
}

/// Whether two texts are equal.
fn same_text(a: &[char], b: &[char]) -> (r: bool)
    ensures
        r == (a@ == b@),
{
    if a.len() != b.len() {
        return false;
    }
    let mut k: usize = 0;
    while k < a.len()
        invariant
            k <= a@.len(),
            a@.len() == b@.len(),
            forall|j: int| 0 <= j < k ==> a@[j] == b@[j],
        decreases a@.len() - k,
    {
        if a[k] != b[k] {
            return false;
        }
        k += 1;
    }
    proof {
        assert(a@ =~= b@);
    }
    true
}

/// Whether a list of texts is in strictly increasing order (so holds each text once).
pub open spec fn strictly_sorted(s: Seq<Seq<char>>) -> bool {
    forall|i: int, j: int| 0 <= i < j < s.len() ==> text_lt(#[trigger] s[i], #[trigger] s[j])
}

// ---------------------------------------------------------------------------------------------
// Training opponents.
// ---------------------------------------------------------------------------------------------

/// Whether `t` is one of the opponents a training run plays: the configured ones (`local-old`
/// when none is), and the local engine when it also plays itself.
pub open spec fn wanted_target(opponents: Seq<Seq<char>>, self_play: bool, t: Seq<char>) -> bool {
    (if opponents.len() == 0 { t == "local-old"@ } else { opponents.contains(t) })
        || (self_play && t == "local"@)
}

/// `out` with `x` put in its place, when it is not already there.
fn insert_sorted(out: &mut Vec<String>, x: String)
    requires
        strictly_sorted(texts(old(out)@)),
    ensures
        strictly_sorted(texts(final(out)@)),
        forall|t: Seq<char>| texts(final(out)@).contains(t) <==> (texts(old(out)@).contains(t) || t == x@),
{
    let xc = str_chars(x.as_str());
    let ghost before = texts(out@);
    let mut p: usize = 0;
    while p < out.len()
        invariant
            p <= out@.len(),
            out@ == old(out)@,
            xc@ == x@,
            before == texts(out@),
            forall|k: int| 0 <= k < p ==> text_lt(#[trigger] before[k], x@),
        ensures
            p <= out@.len(),
            out@ == old(out)@,
            forall|k: int| 0 <= k < p ==> text_lt(#[trigger] before[k], x@),
            p < out@.len() ==> !text_lt(before[p as int], x@),
        decreases out@.len() - p,
    {
        let oc = str_chars(out[p].as_str());
        if !text_less(oc.as_slice(), xc.as_slice()) {
            break;
        }
        p += 1;
    }
    proof {
        assert(before.len() == out@.len());
    }
    if p < out.len() {
        let oc = str_chars(out[p].as_str());
        if same_text(oc.as_slice(), xc.as_slice()) {
            return;
        }
    }
    proof {
        if p < before.len() {
            lemma_text_lt_total(before[p as int], x@);
        }
    }
    let ghost old_out = out@;
    out.insert(p, x);
    proof {
        let after = texts(out@);
        assert(after =~= before.insert(p as int, x@));
        assert forall|m: int| p <= m < before.len() implies text_lt(x@, #[trigger] before[m]) by {
            if m > p {
                assert(text_lt(before[p as int], before[m]));
                lemma_text_lt_trans(x@, before[p as int], before[m]);
            }
        }
        assert forall|i: int, j: int| 0 <= i < j < after.len() implies text_lt(#[trigger] after[i], #[trigger] after[j]) by {
            if j < p {
                assert(after[i] == before[i] && after[j] == before[j]);
            } else if i < p && j == p {
                assert(after[i] == before[i]);
            } else if i < p && j > p {
                assert(after[i] == before[i] && after[j] == before[j - 1]);
                assert(text_lt(x@, before[j - 1]));
                lemma_text_lt_trans(before[i], x@, before[j - 1]);
            } else if i == p {
                assert(after[j] == before[j - 1]);
                assert(text_lt(x@, before[j - 1]));
            } else {
                assert(after[i] == before[i - 1] && after[j] == before[j - 1]);
            }
        }
        assert forall|t: Seq<char>| after.contains(t) <==> (before.contains(t) || t == x@) by {
            if after.contains(t) {
                let i = choose|i: int| 0 <= i < after.len() && after[i] == t;
                if i < p {
                    assert(before[i] == t);
                } else if i > p {
                    assert(before[i - 1] == t);
                }
            }
            if before.contains(t) {
                let i = choose|i: int| 0 <= i < before.len() && before[i] == t;
                if i < p {
                    assert(after[i] == t);
                } else {
                    assert(after[i + 1] == t);
                }
            }
            if t == x@ {
                assert(after[p as int] == t);
            }
        }
    }
}

/// The opponents of a training run, each once, in `str` order: the configured ones (`local-old`
/// when none is), and `local` when the engine also plays itself.
pub fn trainer_targets(opponents: &Vec<String>, self_play: bool) -> (r: Vec<String>)
    ensures
        strictly_sorted(texts(r@)),
        forall|t: Seq<char>| texts(r@).contains(t) <==> wanted_target(texts(opponents@), self_play, t),
{
    let mut out: Vec<String> = Vec::new();
    if opponents.len() == 0 {
        insert_sorted(&mut out, "local-old".to_owned());
    } else {
        let mut i: usize = 0;
        while i < opponents.len()
            invariant
                i <= opponents@.len(),
                strictly_sorted(texts(out@)),
                forall|t: Seq<char>| texts(out@).contains(t) <==> texts(opponents@).subrange(0, i as int).contains(t),
            decreases opponents@.len() - i,
        {
            let ghost prev = texts(out@);
            insert_sorted(&mut out, opponents[i].clone());
            proof {
                let o = texts(opponents@);
                let s0 = o.subrange(0, i as int);
                let s1 = o.subrange(0, i + 1);
                assert forall|t: Seq<char>| texts(out@).contains(t) <==> s1.contains(t) by {
                    if s1.contains(t) {
                        let k = choose|k: int| 0 <= k < s1.len() && s1[k] == t;
                        if k < i {
                            assert(s0[k] == t);
                        }
                    }
                    if s0.contains(t) {
                        let k = choose|k: int| 0 <= k < s0.len() && s0[k] == t;
                        assert(s1[k] == t);
                    }
                    if t == opponents@[i as int]@ {
                        assert(s1[i as int] == t);
                    }
                }
            }
            i += 1;
        }
        proof {
            assert(texts(opponents@).subrange(0, i as int) =~= texts(opponents@));
        }
    }
    if self_play {
        insert_sorted(&mut out, "local".to_owned());
    }
    out
}

/// One opponent of a training run and the number of games against it.
#[derive(Debug, Clone)]
pub struct TrainerMatchup {
    pub label: String,
    pub target: OpponentTarget,
    pub games: usize,
}

/// A matchup as plain values: the label, the move server played (none for the local engine) and
/// the number of games.
pub ghost struct MatchupModel {
    pub label: Seq<char>,
    pub target: Option<(Seq<char>, ApiFlavor)>,
    pub games: int,
}

/// The model of a matchup.
pub open spec fn matchup_model(m: TrainerMatchup) -> MatchupModel {
    MatchupModel {
        label: m.label@,
        target: match m.target {
            OpponentTarget::Local => None,
            OpponentTarget::Http { url, flavor } => Some((url@, flavor)),
        },
        games: m.games as int,
    }
}

/// `n`, or 1 when it is 0.
pub open spec fn at_least_one(n: int) -> int {
    if n < 1 { 1 } else { n }
}

/// The matchups of a training run for `targets`: each target resolved with `flavor`, with
/// `http_games` games against a move server and `games` against the local engine (at least one
/// each); with `only_http` the local engine is left out.
pub open spec fn kept_matchups(targets: Seq<Seq<char>>, only_http: bool, flavor: ApiFlavor, games: int, http_games: int) -> Seq<MatchupModel>
    decreases targets.len(),
{
    if targets.len() == 0 {
        Seq::empty()
    } else {
        let rest = kept_matchups(targets.drop_last(), only_http, flavor, games, http_games);
        let t = target_of(targets.last(), false, flavor);
        if only_http && t is None {
            rest
        } else {
            rest.push(MatchupModel {
                label: targets.last(),
                target: t,
                games: if t is Some { at_least_one(http_games) } else { at_least_one(games) },
            })
        }
    }
}

/// The matchups of a training run: those of `kept_matchups`, or one against the local engine when
/// there are none.
pub open spec fn matchups_spec(targets: Seq<Seq<char>>, only_http: bool, flavor: ApiFlavor, games: int, http_games: int) -> Seq<MatchupModel> {
    let kept = kept_matchups(targets, only_http, flavor, games, http_games);
    if kept.len() == 0 {
        seq![MatchupModel { label: "local"@, target: None, games: at_least_one(games) }]
    } else {
        kept
    }
}

/// The matchups of a training run against `targets` (see `matchups_spec`); servers are spoken to
/// in the legacy format when `legacy_http` is set, else in `http_api_mode`.
pub fn build_trainer_matchups(
    targets: &Vec<String>,
    only_http: bool,
    legacy_http: bool,
    http_api_mode: ApiFlavor,
    games: usize,
    http_games: usize,
) -> (out: Vec<TrainerMatchup>)
    ensures
        out@.map_values(|m: TrainerMatchup| matchup_model(m)) == matchups_spec(
            texts(targets@),
            only_http,
            if legacy_http { ApiFlavor::Legacy } else { http_api_mode },
            games as int,
            http_games as int,
        ),
{
    let flavor = if legacy_http { ApiFlavor::Legacy } else { http_api_mode };
    let ghost ts = texts(targets@);
    let mut out: Vec<TrainerMatchup> = Vec::new();
    let mut i: usize = 0;
    while i < targets.len()
        invariant
            i <= targets@.len(),
            ts == texts(targets@),
            flavor == (if legacy_http { ApiFlavor::Legacy } else { http_api_mode }),
            out@.map_values(|m: TrainerMatchup| matchup_model(m)) == kept_matchups(ts.subrange(0, i as int), only_http, flavor, games as int, http_games as int),
        decreases targets@.len() - i,
    {
        let ghost prev = out@;
        proof {
            assert(ts.subrange(0, i + 1).drop_last() =~= ts.subrange(0, i as int));
            assert(ts.subrange(0, i + 1).last() == targets@[i as int]@);
        }
        let target = resolve_opponent_target(targets[i].as_str(), false, flavor);
        let is_http = match &target {
            OpponentTarget::Http { .. } => true,
            OpponentTarget::Local => false,
        };
        if only_http && !is_http {
        } else {
            let n = if is_http {
                if http_games < 1 { 1 } else { http_games }
            } else {
                if games < 1 { 1 } else { games }
            };
            let m = TrainerMatchup { label: targets[i].clone(), target, games: n };
            out.push(m);
            proof {
                assert(out@.map_values(|m: TrainerMatchup| matchup_model(m))
                    =~= prev.map_values(|m: TrainerMatchup| matchup_model(m)).push(matchup_model(m)));
            }
        }
        i += 1;
    }
    proof {
        assert(ts.subrange(0, i as int) =~= ts);
    }
    if out.len() == 0 {
        let n = if games < 1 { 1 } else { games };
        out.push(TrainerMatchup { label: "local".to_owned(), target: OpponentTarget::Local, games: n });
        proof {
            assert(out@.map_values(|m: TrainerMatchup| matchup_model(m)) =~= seq![matchup_model(out@[0])]);
        }
    }
    out
}

// ---------------------------------------------------------------------------------------------
// Training sizes.
// ---------------------------------------------------------------------------------------------

/// The counts of a training run: population, generations, kept elite, and games per opponent.
#[derive(Debug, Clone, Copy, PartialEq, Eq)]
pub struct TrainerCounts {
    pub pop: usize,
    pub gens: usize,
    pub elite: usize,
    pub games: usize,
    pub http_games: usize,
    pub self_games: usize,
}

impl TrainerCounts {
    /// Raises the counts to workable values: a population of at least two, at least one
    /// generation, an elite of one up to the population, and at least one game of each kind.
    pub fn normalize(&mut self)
        ensures
            final(self).pop == if old(self).pop < 2 { 2 } else { old(self).pop },
            final(self).gens == at_least_one(old(self).gens as int),
            final(self).elite == at_least_one(if old(self).elite < final(self).pop { old(self).elite as int } else { final(self).pop as int }),
            final(self).games == at_least_one(old(self).games as int),
            final(self).http_games == at_least_one(old(self).http_games as int),
            final(self).self_games == at_least_one(old(self).self_games as int),
    {
        if self.pop < 2 {
            self.pop = 2;
        }
        if self.gens < 1 {
            self.gens = 1;
        }
        if self.elite > self.pop {
            self.elite = self.pop;
        }
        if self.elite < 1 {
            self.elite = 1;
        }
        if self.games < 1 {
            self.games = 1;
        }
        if self.http_games < 1 {
            self.http_games = 1;
        }
        if self.self_games < 1 {
            self.self_games = 1;
        }
    }
}

} // verus!
