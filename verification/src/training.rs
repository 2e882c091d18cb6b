//! Scheduling for self-play training and arena evaluation: which ruleset and
//! colours each game uses, reproducible per-game seeds, the arena tally,
//! the bounded replay window, and the most visited search action.

use vstd::prelude::*;
use crate::model::{GameOutcome, Ruleset, Side};

verus! {

/// Which rulesets a training run plays.
#[derive(Clone, Copy, Debug, PartialEq, Eq, Structural)]
pub enum RuleSelection {
    Classic,
    Multiverse,
    Both,
}

/// The ruleset of game `index`: the selected one, or classic and
/// multiverse in turn when both are selected.
pub open spec fn ruleset_for(selection: RuleSelection, index: int) -> Ruleset {
    match selection {
        RuleSelection::Classic => Ruleset::Classic,
        RuleSelection::Multiverse => Ruleset::Multiverse,
        RuleSelection::Both => if index % 2 == 0 {
            Ruleset::Classic
        } else {
            Ruleset::Multiverse
        },
    }
}

/// The candidate's colour in arena game `index`: colours alternate within
/// each ruleset's own sequence of games.
pub open spec fn side_for(selection: RuleSelection, index: int) -> Side {
    let within = match selection {
        RuleSelection::Both => index / 2,
        _ => index,
    };
    if within % 2 == 0 {
        Side::Attacker
    } else {
        Side::Defender
    }
}

pub fn selected_ruleset(selection: RuleSelection, index: usize) -> (r: Ruleset)
    ensures
        r == ruleset_for(selection, index as int),
{
    match selection {
        RuleSelection::Classic => Ruleset::Classic,
        RuleSelection::Multiverse => Ruleset::Multiverse,
        RuleSelection::Both => if index % 2 == 0 {
            Ruleset::Classic
        } else {
            Ruleset::Multiverse
        },
    }
}

pub fn candidate_side(selection: RuleSelection, game_index: usize) -> (r: Side)
    ensures
        r == side_for(selection, game_index as int),
{
    let within = match selection {
        RuleSelection::Classic | RuleSelection::Multiverse => game_index,
        RuleSelection::Both => game_index / 2,
    };
    if within % 2 == 0 {
        Side::Attacker
    } else {
        Side::Defender
    }
}

/// The SplitMix64 output function.
pub open spec fn splitmix(value: u64) -> u64 {
    let a = value.wrapping_add(0x9e37_79b9_7f4a_7c15);
    let b = (a ^ (a >> 30u64)).wrapping_mul(0xbf58_476d_1ce4_e5b9);
    let c = (b ^ (b >> 27u64)).wrapping_mul(0x94d0_49bb_1331_11eb);
    c ^ (c >> 31u64)
}

/// `value` rotated left by `k` bits.
pub open spec fn rotl(value: u64, k: u64) -> u64 {
    (value << k) | (value >> (64 - k) as u64)
}

pub fn splitmix64(value: u64) -> (r: u64)
    ensures
        r == splitmix(value),
{
    let a = value.wrapping_add(0x9e37_79b9_7f4a_7c15);
    let b = (a ^ (a >> 30u64)).wrapping_mul(0xbf58_476d_1ce4_e5b9);
    let c = (b ^ (b >> 27u64)).wrapping_mul(0x94d0_49bb_1331_11eb);
    c ^ (c >> 31u64)
}

fn rotate_left(value: u64, k: u64) -> (r: u64)
    requires
        0 < k < 64,
    ensures
        r == rotl(value, k),
{
    (value << k) | (value >> (64 - k))
}

/// The seed of one game: the run's seed mixed with the phase, the position
/// in the run and the game's index.
pub fn derived_seed(base: u64, phase: u64, sequence: u64, index: u64) -> (r: u64)
    ensures
        r == splitmix(base ^ phase ^ rotl(sequence, 17) ^ rotl(index, 41)),
{
    splitmix64(base ^ phase ^ rotate_left(sequence, 17) ^ rotate_left(index, 41))
}

/// How arena games between a candidate and the incumbent ended.
#[derive(Clone, Copy, Debug, PartialEq, Eq, Structural)]
pub struct ArenaReport {
    pub candidate_wins: usize,
    pub incumbent_wins: usize,
    pub draws: usize,
}

impl Default for ArenaReport {
    fn default() -> (r: Self)
        ensures
            r == (ArenaReport { candidate_wins: 0, incumbent_wins: 0, draws: 0 }),
    {
        ArenaReport { candidate_wins: 0, incumbent_wins: 0, draws: 0 }
    }
}

/// Candidate wins, incumbent wins and draws among the first `n` results,
/// each the candidate's colour and the game's outcome.
pub open spec fn tally_upto(results: Seq<(Side, Option<GameOutcome>)>, n: nat) -> (nat, nat, nat)
    decreases n,
{
    if n == 0 {
        (0, 0, 0)
    } else {
        let (c, i, d) = tally_upto(results, (n - 1) as nat);
        match results[n - 1].1 {
            Some(o) => if o.winner == results[n - 1].0 {
                (c + 1, i, d)
            } else {
                (c, i + 1, d)
            },
            None => (c, i, d + 1),
        }
    }
}

/// The arena report counts every game exactly once.
pub proof fn lemma_tally_bound(results: Seq<(Side, Option<GameOutcome>)>, n: nat)
    ensures
        tally_upto(results, n).0 + tally_upto(results, n).1 + tally_upto(results, n).2 == n,
    decreases n,
{
    if n > 0 {
        lemma_tally_bound(results, (n - 1) as nat);
    }
}

/// The report of a finished arena: a game counts for the candidate when
/// the winner is the candidate's colour, for the incumbent when the other
/// colour won, and as a draw when no one won.
pub fn tally_arena(results: &Vec<(Side, Option<GameOutcome>)>) -> (r: ArenaReport)
    ensures
        (r.candidate_wins as nat, r.incumbent_wins as nat, r.draws as nat) == tally_upto(
            results@,
            results@.len(),
        ),
{
    let mut report = ArenaReport::default();
    let mut k: usize = 0;
    while k < results.len()
        invariant
            k <= results@.len(),
            (report.candidate_wins as nat, report.incumbent_wins as nat, report.draws as nat)
                == tally_upto(results@, k as nat),
        decreases results@.len() - k,
    {
        proof {
            lemma_tally_bound(results@, k as nat);
        }
        let (side, outcome) = results[k];
        match outcome {
            Some(o) => {
                if o.winner == side {
                    report.candidate_wins = report.candidate_wins + 1;
                } else {
                    report.incumbent_wins = report.incumbent_wins + 1;
                }
            },
            None => {
                report.draws = report.draws + 1;
            },
        }
        k = k + 1;
    }
    report
}

/// With both rulesets selected, consecutive games switch ruleset, and
/// within each ruleset the candidate alternates colours from game to game.
pub proof fn lemma_mixed_schedule_alternates(i: int)
    requires
        0 <= i,
    ensures
        ruleset_for(RuleSelection::Both, i + 1) != ruleset_for(RuleSelection::Both, i),
        ruleset_for(RuleSelection::Both, i + 2) == ruleset_for(RuleSelection::Both, i),
        side_for(RuleSelection::Both, i + 2) == side_for(RuleSelection::Both, i).other(),
{
}

/// With one ruleset selected, the candidate alternates colours every game.
pub proof fn lemma_single_schedule_alternates(selection: RuleSelection, i: int)
    requires
        0 <= i,
        selection != RuleSelection::Both,
    ensures
        ruleset_for(selection, i + 1) == ruleset_for(selection, i),
        side_for(selection, i + 1) == side_for(selection, i).other(),
{
}


/// The total of `counts` from index `i` on.
pub open spec fn sum_from(counts: Seq<usize>, i: int) -> int
    decreases counts.len() - i,
{
    if i < 0 || i >= counts.len() {
        0
    } else {
        counts[i] + sum_from(counts, i + 1)
    }
}

/// How many games, oldest first and from index `i` on, leave the replay
/// window: the oldest goes while more than one game remains and the steps
/// still exceed `capacity`.
pub open spec fn games_dropped(counts: Seq<usize>, capacity: int, i: int) -> int
    decreases counts.len() - i,
{
    if i < 0 || counts.len() - i <= 1 || sum_from(counts, i) <= capacity {
        0
    } else {
        1 + games_dropped(counts, capacity, i + 1)
    }
}

proof fn lemma_sum_from_shrinks(counts: Seq<usize>, i: int, j: int)
    requires
        0 <= i <= j,
    ensures
        sum_from(counts, j) <= sum_from(counts, i),
        sum_from(counts, j) >= 0,
    decreases j - i,
{
    if i < j {
        lemma_sum_from_shrinks(counts, i + 1, j);
    } else {
        lemma_sum_nonneg(counts, j);
    }
}

proof fn lemma_sum_nonneg(counts: Seq<usize>, i: int)
    ensures
        sum_from(counts, i) >= 0,
    decreases counts.len() - i,
{
    if 0 <= i < counts.len() {
        lemma_sum_nonneg(counts, i + 1);
    }
}

/// How many of the oldest games to drop so that the replay window, whose
/// games hold `step_counts` steps, keeps at most `capacity` steps or a
/// single game.
pub fn games_to_drop(step_counts: &Vec<usize>, capacity: usize) -> (r: usize)
    requires
        sum_from(step_counts@, 0) <= usize::MAX,
    ensures
        r == games_dropped(step_counts@, capacity as int, 0),
{
    let ghost counts = step_counts@;
    let mut total: usize = 0;
    let mut k: usize = step_counts.len();
    while k > 0
        invariant
            k <= counts.len(),
            counts == step_counts@,
            total == sum_from(counts, k as int),
            sum_from(counts, 0) <= usize::MAX,
        decreases k,
    {
        proof {
            lemma_sum_from_shrinks(counts, 0, k - 1);
        }
        total = total + step_counts[k - 1];
        k = k - 1;
    }
    let mut dropped: usize = 0;
    while step_counts.len() - dropped > 1 && total > capacity
        invariant
            dropped < step_counts@.len() || step_counts@.len() == 0,
            dropped <= step_counts@.len(),
            counts == step_counts@,
            total == sum_from(counts, dropped as int),
            games_dropped(counts, capacity as int, 0) == dropped + games_dropped(
                counts,
                capacity as int,
                dropped as int,
            ),
        decreases step_counts@.len() - dropped,
    {
        proof {
            lemma_sum_nonneg(counts, dropped + 1);
        }
        total = total - step_counts[dropped];
        dropped = dropped + 1;
    }
    dropped
}

/// The index of the most visited action; where several tie, the last of
/// them; nothing when there are no actions.
pub open spec fn most_visited(visits: Seq<u32>) -> Option<int>
    decreases visits.len(),
{
    if visits.len() == 0 {
        None
    } else {
        match most_visited(visits.drop_last()) {
            None => Some(visits.len() - 1),
            Some(i) => if visits.last() >= visits[i] {
                Some(visits.len() - 1)
            } else {
                Some(i)
            },
        }
    }
}

/// The index of the search's most visited action, the last one on a tie.
pub fn best_action_index(visits: &Vec<u32>) -> (r: Option<usize>)
    ensures
        match r {
            Some(i) => most_visited(visits@) == Some(i as int),
            None => most_visited(visits@) is None,
        },
{
    let mut best: Option<usize> = None;
    let mut k: usize = 0;
    while k < visits.len()
        invariant
            k <= visits@.len(),
            match best {
                Some(i) => i < k && most_visited(visits@.subrange(0, k as int)) == Some(i as int),
                None => k == 0,
            },
        decreases visits@.len() - k,
    {
        proof {
            let next = visits@.subrange(0, k + 1);
            assert(next.drop_last() =~= visits@.subrange(0, k as int));
            assert(next.last() == visits@[k as int]);
        }
        best = match best {
            None => Some(k),
            Some(i) => if visits[k] >= visits[i] {
                Some(k)
            } else {
                Some(i)
            },
        };
        proof {
            if k == 0 {
                assert(most_visited(visits@.subrange(0, 0)) is None);
            }
        }
        k = k + 1;
    }
    proof {
        assert(visits@.subrange(0, k as int) =~= visits@);
    }
    best
}

/// The most visited action's index is that of a maximum: no action has more
/// visits, and none after it has as many.
pub proof fn lemma_most_visited_is_last_maximum(visits: Seq<u32>)
    ensures
        match most_visited(visits) {
            Some(i) => 0 <= i < visits.len() && (forall|j: int| 0 <= j < visits.len() ==> visits[j]
                <= visits[i]) && (forall|j: int| i < j < visits.len() ==> visits[j] < visits[i]),
            None => visits.len() == 0,
        },
    decreases visits.len(),
{
    if visits.len() > 0 {
        let rest = visits.drop_last();
        lemma_most_visited_is_last_maximum(rest);
        assert forall|j: int| 0 <= j < rest.len() implies rest[j] == visits[j] by {}
    }
}

} // verus!
