//! Deciding on a move: many searches over imagined positions, merged.

use crate::laws::lemma_actor_seated;
use crate::model::Action;
use crate::card::Card;
use crate::ranking::{
    action_key, normalize_action_key, rank_results, ranked, ranking, reports, visits_total,
    ActionKey, RolloutActionResult,
};
use crate::rules::GameView;
use crate::random::seeded_rng;
use crate::search::{search, search_result, selects_a_child, NodeStats};
use crate::state::GameState;
use vstd::prelude::*;
use vstd::seq_lib::to_multiset_contains;

verus! {

/// The merged result of the searches: how many positions were imagined, how
/// many rollouts were made in all, and the legal moves with their merged
/// statistics, the best score first.
#[derive(Debug, Clone, PartialEq, Eq)]
pub struct SolveAggregate {
    pub determinizations: u32,
    pub total_visits: u32,
    pub actions: Vec<RolloutActionResult>,
}

/// The visits of the entries whose move has the key `key`, added up.
pub open spec fn matching_visits(list: Seq<RolloutActionResult>, key: ActionKey) -> int
    decreases list.len(),
{
    if list.len() == 0 {
        0
    } else {
        matching_visits(list.drop_last(), key) + if action_key(list.last().action) == key {
            list.last().visits as int
        } else {
            0
        }
    }
}

/// The wins of the entries whose move has the key `key`, added up.
pub open spec fn matching_wins(list: Seq<RolloutActionResult>, key: ActionKey) -> int
    decreases list.len(),
{
    if list.len() == 0 {
        0
    } else {
        matching_wins(list.drop_last(), key) + if action_key(list.last().action) == key {
            list.last().wins as int
        } else {
            0
        }
    }
}

/// The entries for one key have no more wins than visits, and no more
/// visits than all entries together.
pub proof fn lemma_matching_bounds(list: Seq<RolloutActionResult>, key: ActionKey)
    requires
        forall|k: int| 0 <= k < list.len() ==> (#[trigger] list[k]).wins <= list[k].visits,
    ensures
        0 <= matching_wins(list, key) <= matching_visits(list, key) <= visits_total(list),
    decreases list.len(),
{
    if list.len() > 0 {
        let rest = list.drop_last();
        assert(forall|k: int| 0 <= k < rest.len() ==> rest[k] == list[k]);
        lemma_matching_bounds(rest, key);
        assert(list.last() == list[list.len() - 1]);
    }
}

/// The totals after the statistics of `list` are added: each total gains
/// the visits and wins of the entries of `list` that have its key.
pub open spec fn absorbed(totals: Seq<RolloutActionResult>, list: Seq<RolloutActionResult>) -> Seq<
    RolloutActionResult,
> {
    Seq::new(
        totals.len(),
        |j: int|
            RolloutActionResult {
                action: totals[j].action,
                visits: (totals[j].visits + matching_visits(list, action_key(totals[j].action))) as u32,
                wins: (totals[j].wins + matching_wins(list, action_key(totals[j].action))) as u32,
            },
    )
}

/// The statistics of the moves after the results of the searches are
/// merged, one after another, starting from nothing.
pub open spec fn merged(moves: Seq<Action>, evals: Seq<Seq<RolloutActionResult>>) -> Seq<
    RolloutActionResult,
>
    decreases evals.len(),
{
    if evals.len() == 0 {
        Seq::new(moves.len(), |j: int| RolloutActionResult { action: moves[j], visits: 0, wins: 0 })
    } else {
        absorbed(merged(moves, evals.drop_last()), evals.last())
    }
}

/// No two entries have moves with the same key.
pub open spec fn distinct_keys(list: Seq<RolloutActionResult>) -> bool {
    forall|i: int, j: int|
        0 <= i < list.len() && 0 <= j < list.len() && i != j ==> action_key(
            (#[trigger] list[i]).action,
        ) != action_key((#[trigger] list[j]).action)
}

/// No two moves have the same key.
pub open spec fn distinct_move_keys(moves: Seq<Action>) -> bool {
    forall|i: int, j: int|
        0 <= i < moves.len() && 0 <= j < moves.len() && i != j ==> action_key(#[trigger] moves[i])
            != action_key(#[trigger] moves[j])
}

/// What the totals gain together from `list`.
pub open spec fn matched_total(totals: Seq<RolloutActionResult>, list: Seq<RolloutActionResult>) -> int
    decreases totals.len(),
{
    if totals.len() == 0 {
        0
    } else {
        matched_total(totals.drop_last(), list) + matching_visits(
            list,
            action_key(totals.last().action),
        )
    }
}

/// What the totals gain together from the one entry `e`.
pub open spec fn share_of(totals: Seq<RolloutActionResult>, e: RolloutActionResult) -> int
    decreases totals.len(),
{
    if totals.len() == 0 {
        0
    } else {
        share_of(totals.drop_last(), e) + if action_key(e.action) == action_key(
            totals.last().action,
        ) {
            e.visits as int
        } else {
            0
        }
    }
}

/// Totals with different keys gain from an entry no more than its visits.
proof fn lemma_share_of(totals: Seq<RolloutActionResult>, e: RolloutActionResult)
    requires
        distinct_keys(totals),
    ensures
        0 <= share_of(totals, e) <= e.visits,
        (forall|j: int|
            0 <= j < totals.len() ==> action_key((#[trigger] totals[j]).action) != action_key(
                e.action,
            )) ==> share_of(totals, e) == 0,
    decreases totals.len(),
{
    if totals.len() > 0 {
        let rest = totals.drop_last();
        assert(forall|j: int| 0 <= j < rest.len() ==> rest[j] == totals[j]);
        lemma_share_of(rest, e);
        if action_key(e.action) == action_key(totals.last().action) {
            assert forall|j: int| 0 <= j < rest.len() implies action_key(
                (#[trigger] rest[j]).action,
            ) != action_key(e.action) by {
                assert(action_key(totals[j].action) != action_key(
                    totals[totals.len() - 1].action,
                ));
            }
        }
    }
}

/// What the totals gain from a list is what they gain from its entries.
proof fn lemma_matched_total_step(totals: Seq<RolloutActionResult>, list: Seq<RolloutActionResult>)
    requires
        list.len() > 0,
    ensures
        matched_total(totals, list) == matched_total(totals, list.drop_last()) + share_of(
            totals,
            list.last(),
        ),
    decreases totals.len(),
{
    if totals.len() > 0 {
        lemma_matched_total_step(totals.drop_last(), list);
    }
}

/// Totals with different keys gain from a list no more than its visits.
pub proof fn lemma_matched_total(totals: Seq<RolloutActionResult>, list: Seq<RolloutActionResult>)
    requires
        distinct_keys(totals),
    ensures
        0 <= matched_total(totals, list) <= visits_total(list),
    decreases list.len(),
{
    if list.len() == 0 {
        lemma_matched_total_empty(totals, list);
    } else {
        lemma_matched_total(totals, list.drop_last());
        lemma_matched_total_step(totals, list);
        lemma_share_of(totals, list.last());
    }
}

/// From an empty list the totals gain nothing.
proof fn lemma_matched_total_empty(totals: Seq<RolloutActionResult>, list: Seq<RolloutActionResult>)
    requires
        list.len() == 0,
    ensures
        matched_total(totals, list) == 0,
    decreases totals.len(),
{
    if totals.len() > 0 {
        lemma_matched_total_empty(totals.drop_last(), list);
    }
}

/// The visits of the totals grow by what they gain, where no count runs
/// over.
pub proof fn lemma_absorbed_total(totals: Seq<RolloutActionResult>, list: Seq<RolloutActionResult>)
    requires
        forall|j: int|
            0 <= j < totals.len() ==> (#[trigger] totals[j]).visits + matching_visits(
                list,
                action_key(totals[j].action),
            ) <= u32::MAX,
        forall|k: int| 0 <= k < list.len() ==> (#[trigger] list[k]).wins <= list[k].visits,
    ensures
        visits_total(absorbed(totals, list)) == visits_total(totals) + matched_total(totals, list),
    decreases totals.len(),
{
    if totals.len() > 0 {
        let rest = totals.drop_last();
        assert(forall|j: int| 0 <= j < rest.len() ==> rest[j] == totals[j]);
        lemma_absorbed_total(rest, list);
        assert(absorbed(totals, list).drop_last() =~= absorbed(rest, list));
        lemma_matching_bounds(list, action_key(totals.last().action));
        assert(totals.last() == totals[totals.len() - 1]);
    }
}

/// Adds the statistics of `results` to the running totals: each total
/// gains the visits and wins of the results whose move has the same key as
/// its own, whatever the visibility of the cards. Results for other moves
/// are left out.
pub fn absorb_results(totals: &mut Vec<RolloutActionResult>, results: &Vec<RolloutActionResult>)
    requires
        forall|j: int|
            0 <= j < old(totals)@.len() ==> (#[trigger] old(totals)@[j]).action.names_known_card()
                && old(totals)@[j].visits + visits_total(results@) <= u32::MAX && old(
                totals,
            )@[j].wins <= old(totals)@[j].visits,
        forall|k: int|
            0 <= k < results@.len() ==> (#[trigger] results@[k]).action.names_known_card()
                && results@[k].wins <= results@[k].visits,
    ensures
        final(totals)@ == absorbed(old(totals)@, results@),
        final(totals)@.len() == old(totals)@.len(),
        forall|j: int|
            0 <= j < old(totals)@.len() ==> {
                let key = action_key(old(totals)@[j].action);
                &&& (#[trigger] final(totals)@[j]).action == old(totals)@[j].action
                &&& final(totals)@[j].visits == old(totals)@[j].visits + matching_visits(
                    results@,
                    key,
                )
                &&& final(totals)@[j].wins == old(totals)@[j].wins + matching_wins(results@, key)
            },
{
    let mut j: usize = 0;
    while j < totals.len()
        invariant
            j <= totals.len(),
            totals@.len() == old(totals)@.len(),
            forall|i: int|
                0 <= i < old(totals)@.len() ==> (#[trigger] old(totals)@[i]).action.names_known_card()
                    && old(totals)@[i].visits + visits_total(results@) <= u32::MAX && old(
                    totals,
                )@[i].wins <= old(totals)@[i].visits,
            forall|k: int|
                0 <= k < results@.len() ==> (#[trigger] results@[k]).action.names_known_card()
                    && results@[k].wins <= results@[k].visits,
            forall|i: int| j <= i < totals@.len() ==> #[trigger] totals@[i] == old(totals)@[i],
            forall|i: int|
                0 <= i < j ==> {
                    let key = action_key(old(totals)@[i].action);
                    &&& (#[trigger] totals@[i]).action == old(totals)@[i].action
                    &&& totals@[i].visits == old(totals)@[i].visits + matching_visits(results@, key)
                    &&& totals@[i].wins == old(totals)@[i].wins + matching_wins(results@, key)
                },
        decreases totals.len() - j,
    {
        let mine = totals[j];
        let key = normalize_action_key(&mine.action);
        let mut visits = mine.visits;
        let mut wins = mine.wins;
        let mut k: usize = 0;
        proof {
            lemma_matching_bounds(results@, key);
        }
        while k < results.len()
            invariant
                k <= results.len(),
                key == action_key(mine.action),
                mine.visits + visits_total(results@) <= u32::MAX,
                mine.wins <= mine.visits,
                forall|i: int|
                    0 <= i < results@.len() ==> (#[trigger] results@[i]).action.names_known_card()
                        && results@[i].wins <= results@[i].visits,
                visits == mine.visits + matching_visits(results@.take(k as int), key),
                wins == mine.wins + matching_wins(results@.take(k as int), key),
                matching_visits(results@, key) <= visits_total(results@),
            decreases results.len() - k,
        {
            proof {
                assert(results@.take(k as int + 1).drop_last() == results@.take(k as int));
                lemma_matching_prefix(results@, key, k as int + 1);
                lemma_matching_bounds(results@.take(k as int + 1), key);
            }
            let r = results[k];
            if normalize_action_key(&r.action) == key {
                visits = visits + r.visits;
                wins = wins + r.wins;
            }
            k = k + 1;
        }
        assert(results@.take(k as int) == results@);
        totals.set(j, RolloutActionResult { action: mine.action, visits, wins });
        j = j + 1;
    }
    proof {
        assert forall|i: int| 0 <= i < totals@.len() implies totals@[i] == absorbed(
            old(totals)@,
            results@,
        )[i] by {
            lemma_matching_bounds(results@, action_key(old(totals)@[i].action));
        }
        assert(totals@ =~= absorbed(old(totals)@, results@));
    }
}

/// A prefix of the entries has no more visits for a key than all of them.
pub proof fn lemma_matching_prefix(list: Seq<RolloutActionResult>, key: ActionKey, k: int)
    requires
        0 <= k <= list.len(),
    ensures
        matching_visits(list.take(k), key) <= matching_visits(list, key),
    decreases list.len() - k,
{
    if k < list.len() {
        assert(list.take(k + 1).drop_last() == list.take(k));
        lemma_matching_prefix(list, key, k + 1);
    } else {
        assert(list.take(k) == list);
    }
}

/// One search of the position `v` as its player to move may imagine it:
/// `pool` holds the cards that are not accounted for, in some order, and
/// `eval` is what a search of `rollouts` rollouts reports of the position
/// with these cards dealt to the hidden places.
pub open spec fn one_search(
    v: GameView,
    rollouts: nat,
    pool: Seq<Card>,
    eval: Seq<RolloutActionResult>,
) -> bool {
    &&& pool.to_multiset() == v.unseen_pool(Some(v.actor())).to_multiset()
    &&& search_result(eval, v.revealed(v.actor(), pool).legal(), rollouts)
    &&& ranked(eval, true)
}

/// The searches behind a decision: one for each pool, each as `one_search` says.
pub open spec fn searches_of(
    v: GameView,
    rollouts: nat,
    pools: Seq<Seq<Card>>,
    evals: Seq<Seq<RolloutActionResult>>,
) -> bool {
    pools.len() == evals.len() && forall|d: int|
        0 <= d < evals.len() ==> #[trigger] one_search(v, rollouts, pools[d], evals[d])
}

/// The statistics merged from searches keep within the rollouts made:
/// every move has been won no more often than visited, and visited no
/// more often than rollouts were made in all; and where the moves have
/// different keys, so have their visits together.
proof fn lemma_merged(moves: Seq<Action>, evals: Seq<Seq<RolloutActionResult>>, rollouts: nat)
    requires
        forall|d: int|
            0 <= d < evals.len() ==> visits_total(#[trigger] evals[d]) <= rollouts && (forall|
                k: int,
            |
                0 <= k < evals[d].len() ==> (#[trigger] evals[d][k]).wins <= evals[d][k].visits),
        evals.len() * rollouts <= u32::MAX,
    ensures
        merged(moves, evals).len() == moves.len(),
        forall|j: int|
            0 <= j < moves.len() ==> {
                let e = #[trigger] merged(moves, evals)[j];
                e.action == moves[j] && e.wins <= e.visits <= evals.len() * rollouts
            },
        distinct_keys(merged(moves, evals)) ==> visits_total(merged(moves, evals)) <= evals.len()
            * rollouts,
        distinct_keys(merged(moves, evals)) <==> distinct_keys(merged(moves, Seq::empty())),
    decreases evals.len(),
{
    let out = merged(moves, evals);
    let start = merged(moves, Seq::empty());
    if evals.len() == 0 {
        assert(evals =~= Seq::empty());
        lemma_zero_total(out);
    } else {
        let rest = evals.drop_last();
        let last = evals.last();
        let inner = merged(moves, rest);
        assert(forall|d: int| 0 <= d < rest.len() ==> rest[d] == evals[d]);
        assert(last == evals[evals.len() - 1]);
        assert(rest.len() * rollouts + rollouts == evals.len() * rollouts) by (nonlinear_arith)
            requires
                rest.len() + 1 == evals.len(),
        ;
        lemma_merged(moves, rest, rollouts);
        assert forall|j: int| 0 <= j < moves.len() implies {
            let e = #[trigger] out[j];
            e.action == moves[j] && e.wins <= e.visits <= evals.len() * rollouts
        } by {
            lemma_matching_bounds(last, action_key(inner[j].action));
        }
        assert forall|j: int| 0 <= j < inner.len() implies (#[trigger] inner[j]).visits
            + matching_visits(last, action_key(inner[j].action)) <= u32::MAX by {
            lemma_matching_bounds(last, action_key(inner[j].action));
        }
        lemma_absorbed_total(inner, last);
        assert forall|i: int| 0 <= i < out.len() implies (#[trigger] out[i]).action
            == inner[i].action by {}
        if distinct_keys(inner) {
            lemma_matched_total(inner, last);
            assert forall|i: int, j: int|
                0 <= i < out.len() && 0 <= j < out.len() && i != j implies action_key(
                (#[trigger] out[i]).action,
            ) != action_key((#[trigger] out[j]).action) by {
                assert(action_key(inner[i].action) != action_key(inner[j].action));
            }
        }
        if distinct_keys(out) {
            assert forall|i: int, j: int|
                0 <= i < inner.len() && 0 <= j < inner.len() && i != j implies action_key(
                (#[trigger] inner[i]).action,
            ) != action_key((#[trigger] inner[j]).action) by {
                assert(action_key(out[i].action) != action_key(out[j].action));
            }
        }
    }
}

/// Entries never visited have no visits together.
proof fn lemma_zero_total(list: Seq<RolloutActionResult>)
    requires
        forall|j: int| 0 <= j < list.len() ==> (#[trigger] list[j]).visits == 0,
    ensures
        visits_total(list) == 0,
    decreases list.len(),
{
    if list.len() > 0 {
        assert(forall|j: int| 0 <= j < list.len() - 1 ==> list.drop_last()[j] == list[j]);
        lemma_zero_total(list.drop_last());
        assert(list.last() == list[list.len() - 1]);
    }
}

/// Evaluates the legal moves of `state` for the player to move. For each
/// seed the cards hidden from that player are dealt at random and the
/// position so imagined is searched with `rollouts` rollouts; the
/// statistics of the searches are merged by move, whatever the visibility
/// of the cards, and the moves are ranked by score, the best first.
pub fn solve<F: Fn(&Vec<NodeStats>, u32) -> usize>(
    state: &GameState,
    seeds: &Vec<u64>,
    rollouts: u32,
    max_depth: u32,
    select: F,
) -> (out: SolveAggregate)
    requires
        state@.wf(),
        selects_a_child(select),
        seeds@.len() <= u32::MAX,
        seeds@.len() * rollouts <= u32::MAX,
    ensures
        out.determinizations == seeds@.len(),
        out.total_visits == (if state@.legal().len() == 0 {
            0
        } else {
            seeds@.len() * rollouts
        }),
        state@.legal().len() > 0 ==> exists|
            pools: Seq<Seq<Card>>,
            evals: Seq<Seq<RolloutActionResult>>,
        |
            evals.len() == seeds@.len() && #[trigger] searches_of(
                state@,
                rollouts as nat,
                pools,
                evals,
            ) && out.actions@ == ranking(merged(state@.legal(), evals), false),
        distinct_move_keys(state@.legal()) ==> visits_total(out.actions@) <= out.total_visits,
        out.actions@.len() == state@.legal().len(),
        forall|j: int|
            0 <= j < state@.legal().len() ==> reports(out.actions@, #[trigger] state@.legal()[j]),
        forall|k: int|
            0 <= k < out.actions@.len() ==> {
                let e = #[trigger] out.actions@[k];
                state@.legal().contains(e.action) && e.wins <= e.visits <= out.total_visits
            },
        ranked(out.actions@, false),
{
    let perspective = state.actor_to_move();
    let root_actions = state.legal_actions();
    let determinizations = seeds.len() as u32;
    if root_actions.len() == 0 {
        let actions: Vec<RolloutActionResult> = Vec::new();
        proof {
            lemma_zero_total(actions@);
        }
        return SolveAggregate { determinizations, total_visits: 0, actions };
    }
    let ghost legal = state@.legal();
    let mut totals: Vec<RolloutActionResult> = Vec::new();
    let mut j: usize = 0;
    while j < root_actions.len()
        invariant
            j <= root_actions.len(),
            totals@.len() == j,
            forall|i: int|
                0 <= i < j ==> #[trigger] totals@[i] == (RolloutActionResult {
                    action: root_actions@[i],
                    visits: 0,
                    wins: 0,
                }),
        decreases root_actions.len() - j,
    {
        totals.push(RolloutActionResult { action: root_actions[j], visits: 0, wins: 0 });
        j = j + 1;
    }
    let mut total_visits: u32 = 0;
    let mut d: usize = 0;
    let ghost mut pools: Seq<Seq<Card>> = Seq::empty();
    let ghost mut evals: Seq<Seq<RolloutActionResult>> = Seq::empty();
    proof {
        lemma_actor_seated(state@);
        assert(totals@ =~= merged(legal, evals));
    }
    while d < seeds.len()
        invariant
            d <= seeds.len(),
            state@.wf(),
            selects_a_child(select),
            perspective == state@.actor(),
            perspective.spec_index() < state.hands.len(),
            seeds@.len() * rollouts <= u32::MAX,
            legal == root_actions@,
            legal == state@.legal(),
            forall|i: int| 0 <= i < legal.len() ==> (#[trigger] legal[i]).names_known_card(),
            total_visits == d * rollouts,
            evals.len() == d,
            searches_of(state@, rollouts as nat, pools, evals),
            totals@ == merged(legal, evals),
            totals@.len() == legal.len(),
            forall|i: int|
                0 <= i < totals@.len() ==> (#[trigger] totals@[i]).action == legal[i]
                    && totals@[i].wins <= totals@[i].visits <= total_visits,
        decreases seeds.len() - d,
    {
        let seed = seeds[d];
        let mut rng = seeded_rng(seed);
        let imagined = state.determinize(perspective, &mut rng);
        let ghost pool = choose|pool: Seq<Card>|
            pool.to_multiset() == state@.unseen_pool(Some(perspective)).to_multiset()
                && #[trigger] state@.revealed(perspective, pool) == imagined@;
        let eval = search(&imagined, seed, perspective, rollouts, max_depth, &select);
        proof {
            assert((d + 1) * rollouts <= seeds@.len() * rollouts) by (nonlinear_arith)
                requires
                    d + 1 <= seeds@.len(),
                    rollouts >= 0,
            ;
            assert((d + 1) * rollouts == d * rollouts + rollouts) by (nonlinear_arith);
            assert forall|i: int| 0 <= i < totals@.len() implies {
                let key = action_key((#[trigger] totals@[i]).action);
                0 <= matching_wins(eval.actions@, key) <= matching_visits(eval.actions@, key)
                    <= rollouts
            } by {
                lemma_matching_bounds(eval.actions@, action_key(totals@[i].action));
            }
            assert(one_search(state@, rollouts as nat, pool, eval.actions@));
            assert(evals.push(eval.actions@).drop_last() == evals);
            let more_pools = pools.push(pool);
            let more_evals = evals.push(eval.actions@);
            assert forall|k: int| 0 <= k < more_evals.len() implies #[trigger] one_search(
                state@,
                rollouts as nat,
                more_pools[k],
                more_evals[k],
            ) by {
                if k < evals.len() {
                    assert(one_search(state@, rollouts as nat, pools[k], evals[k]));
                }
            }
            pools = more_pools;
            evals = more_evals;
        }
        total_visits = total_visits + eval.total_rollouts;
        absorb_results(&mut totals, &eval.actions);
        d = d + 1;
    }
    let ghost unranked = totals@;
    rank_results(&mut totals, false);
    proof {
        assert forall|j: int| 0 <= j < legal.len() implies reports(totals@, #[trigger] legal[j]) by {
            assert(unranked.contains(unranked[j]));
            to_multiset_contains(unranked, unranked[j]);
            to_multiset_contains(totals@, unranked[j]);
            let k = choose|k: int| 0 <= k < totals@.len() && totals@[k] == unranked[j];
            assert(totals@[k].action == legal[j]);
        }
        assert forall|k: int| 0 <= k < totals@.len() implies {
            let e = #[trigger] totals@[k];
            legal.contains(e.action) && e.wins <= e.visits <= total_visits
        } by {
            assert(totals@.contains(totals@[k]));
            to_multiset_contains(totals@, totals@[k]);
            to_multiset_contains(unranked, totals@[k]);
            let i = choose|i: int| 0 <= i < unranked.len() && unranked[i] == totals@[k];
            assert(unranked[i].action == legal[i]);
        }
        if distinct_move_keys(legal) {
            assert forall|i: int, j: int|
                0 <= i < unranked.len() && 0 <= j < unranked.len() && i != j implies action_key(
                (#[trigger] unranked[i]).action,
            ) != action_key((#[trigger] unranked[j]).action) by {
                assert(action_key(legal[i]) != action_key(legal[j]));
            }
            assert forall|t: int| 0 <= t < evals.len() implies visits_total(#[trigger] evals[t])
                <= rollouts && (forall|k: int|
                0 <= k < evals[t].len() ==> (#[trigger] evals[t][k]).wins <= evals[t][k].visits) by {
                assert(one_search(state@, rollouts as nat, pools[t], evals[t]));
            }
            lemma_merged(legal, evals, rollouts as nat);
        }
    }
    SolveAggregate { determinizations, total_visits, actions: totals }
}

} // verus!
