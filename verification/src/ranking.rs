//! Statistics of moves, their canonical keys, and how moves are ranked.

use crate::card::Card;
use crate::model::Action;
use vstd::prelude::*;

verus! {

impl Action {
    /// Whether two moves are the same move, card visibility included.
    pub fn same_as(&self, other: &Action) -> (b: bool)
        ensures
            b == (*self == *other),
    {
        match (self, other) {
            (Action::Attack { card: a }, Action::Attack { card: b }) => *a == *b,
            (Action::PassAttack, Action::PassAttack) => true,
            (
                Action::Defend { pile_index: i, card: a },
                Action::Defend { pile_index: j, card: b },
            ) => *i == *j && *a == *b,
            (Action::Take, Action::Take) => true,
            (Action::Throw { card: a }, Action::Throw { card: b }) => match (a, b) {
                (Some(x), Some(y)) => *x == *y,
                (None, None) => true,
                _ => false,
            },
            (Action::Reflect { card: a }, Action::Reflect { card: b }) => *a == *b,
            (Action::ReflectTrump { card: a }, Action::ReflectTrump { card: b }) => *a == *b,
            _ => false,
        }
    }

    /// The move names no unknown card.
    pub open spec fn names_known_card(self) -> bool {
        self.card() matches Some(c) ==> c.known()
    }
}

/// The kind of a move, a finished throw counted as a kind of its own.
#[derive(Debug, Clone, Copy, PartialEq, Eq, Hash, Structural)]
pub enum ActionKind {
    Attack,
    PassAttack,
    Defend,
    Take,
    Throw,
    ThrowDone,
    Reflect,
    ReflectTrump,
}

/// What identifies a move whatever the visibility of its card: its kind,
/// the pile it goes to, and the suit and rank of its card. A move without a
/// pile or card has zeros there.
#[derive(Debug, Clone, Copy, PartialEq, Eq, Hash, Structural)]
pub struct ActionKey {
    pub kind: ActionKind,
    pub pile_index: usize,
    pub suit: u8,
    pub rank: u8,
}

/// The key of a move that is of kind `kind` and names `card`.
pub open spec fn card_key(kind: ActionKind, pile_index: usize, card: Card) -> ActionKey {
    ActionKey {
        kind,
        pile_index,
        suit: card.spec_suit().spec_index(),
        rank: card.spec_rank().spec_value(),
    }
}

/// The key of a move.
pub open spec fn action_key(action: Action) -> ActionKey {
    match action {
        Action::Attack { card } => card_key(ActionKind::Attack, 0, card),
        Action::PassAttack => ActionKey {
            kind: ActionKind::PassAttack,
            pile_index: 0,
            suit: 0,
            rank: 0,
        },
        Action::Defend { pile_index, card } => card_key(ActionKind::Defend, pile_index, card),
        Action::Take => ActionKey { kind: ActionKind::Take, pile_index: 0, suit: 0, rank: 0 },
        Action::Throw { card: Some(card) } => card_key(ActionKind::Throw, 0, card),
        Action::Throw { card: None } => ActionKey {
            kind: ActionKind::ThrowDone,
            pile_index: 0,
            suit: 0,
            rank: 0,
        },
        Action::Reflect { card } => card_key(ActionKind::Reflect, 0, card),
        Action::ReflectTrump { card } => card_key(ActionKind::ReflectTrump, 0, card),
    }
}

fn key_of_card(kind: ActionKind, pile_index: usize, card: &Card) -> (key: ActionKey)
    requires
        card.known(),
    ensures
        key == card_key(kind, pile_index, *card),
{
    ActionKey { kind, pile_index, suit: card.suit().index(), rank: card.rank().value() }
}

/// The key under which the statistics of a move are kept: the move without
/// the visibility of its card, so that the same move found in different
/// imagined positions counts as one.
pub fn normalize_action_key(action: &Action) -> (key: ActionKey)
    requires
        action.names_known_card(),
    ensures
        key == action_key(*action),
{
    match action {
        Action::Attack { card } => key_of_card(ActionKind::Attack, 0, card),
        Action::PassAttack => ActionKey {
            kind: ActionKind::PassAttack,
            pile_index: 0,
            suit: 0,
            rank: 0,
        },
        Action::Defend { pile_index, card } => key_of_card(ActionKind::Defend, *pile_index, card),
        Action::Take => ActionKey { kind: ActionKind::Take, pile_index: 0, suit: 0, rank: 0 },
        Action::Throw { card: Some(card) } => key_of_card(ActionKind::Throw, 0, card),
        Action::Throw { card: None } => ActionKey {
            kind: ActionKind::ThrowDone,
            pile_index: 0,
            suit: 0,
            rank: 0,
        },
        Action::Reflect { card } => key_of_card(ActionKind::Reflect, 0, card),
        Action::ReflectTrump { card } => key_of_card(ActionKind::ReflectTrump, 0, card),
    }
}

/// Two moves with known cards have the same key exactly when they are of
/// the same kind, go to the same pile, and name cards that match.
pub proof fn law_key_ignores_visibility(a: Action, b: Action)
    requires
        a.names_known_card(),
        b.names_known_card(),
    ensures
        action_key(a) == action_key(b) <==> match (a, b) {
            (Action::Attack { card: x }, Action::Attack { card: y }) => x.spec_matches(y),
            (Action::PassAttack, Action::PassAttack) => true,
            (
                Action::Defend { pile_index: i, card: x },
                Action::Defend { pile_index: j, card: y },
            ) => i == j && x.spec_matches(y),
            (Action::Take, Action::Take) => true,
            (Action::Throw { card: Some(x) }, Action::Throw { card: Some(y) }) => x.spec_matches(y),
            (Action::Throw { card: None }, Action::Throw { card: None }) => true,
            (Action::Reflect { card: x }, Action::Reflect { card: y }) => x.spec_matches(y),
            (Action::ReflectTrump { card: x }, Action::ReflectTrump { card: y }) => x.spec_matches(
                y,
            ),
            _ => false,
        },
{
}

/// How often a move was tried in search and how often the try was won.
#[derive(Debug, Clone, Copy, PartialEq, Eq)]
pub struct RolloutActionResult {
    /// The move evaluated.
    pub action: Action,
    /// Number of rollouts that went through this move.
    pub visits: u32,
    /// Number of those rollouts that were won. The score of the move is
    /// `wins / visits`, and 0 for a move never visited.
    pub wins: u32,
}

impl RolloutActionResult {
    /// The score of `self` is at least the score of `other`: the fractions
    /// `wins / visits` compared exactly, a move never visited scoring 0.
    pub open spec fn scores_at_least(self, other: RolloutActionResult) -> bool {
        let (w1, v1) = if self.visits == 0 {
            (0int, 1int)
        } else {
            (self.wins as int, self.visits as int)
        };
        let (w2, v2) = if other.visits == 0 {
            (0int, 1int)
        } else {
            (other.wins as int, other.visits as int)
        };
        w1 * v2 >= w2 * v1
    }

    /// `self` may stand before `other` in a ranking. With `by_visits`, more
    /// visits come first and equal visits are ordered by score; without, the
    /// score alone decides.
    pub open spec fn ranks_before(self, other: RolloutActionResult, by_visits: bool) -> bool {
        if by_visits {
            self.visits > other.visits || (self.visits == other.visits && self.scores_at_least(
                other,
            ))
        } else {
            self.scores_at_least(other)
        }
    }

    fn has_score_at_least(&self, other: &RolloutActionResult) -> (b: bool)
        ensures
            b == self.scores_at_least(*other),
    {
        let (w1, v1): (u64, u64) = if self.visits == 0 {
            (0, 1)
        } else {
            (self.wins as u64, self.visits as u64)
        };
        let (w2, v2): (u64, u64) = if other.visits == 0 {
            (0, 1)
        } else {
            (other.wins as u64, other.visits as u64)
        };
        assert(w1 * v2 <= 0xffff_ffff * 0xffff_ffff) by (nonlinear_arith)
            requires
                w1 <= 0xffff_ffff,
                v2 <= 0xffff_ffff,
        ;
        assert(w2 * v1 <= 0xffff_ffff * 0xffff_ffff) by (nonlinear_arith)
            requires
                w2 <= 0xffff_ffff,
                v1 <= 0xffff_ffff,
        ;
        w1 * v2 >= w2 * v1
    }

    fn may_stand_before(&self, other: &RolloutActionResult, by_visits: bool) -> (b: bool)
        ensures
            b == self.ranks_before(*other, by_visits),
    {
        if by_visits {
            self.visits > other.visits || (self.visits == other.visits && self.has_score_at_least(
                other,
            ))
        } else {
            self.has_score_at_least(other)
        }
    }
}

/// Each entry may stand before the next.
pub open spec fn ranked(list: Seq<RolloutActionResult>, by_visits: bool) -> bool {
    forall|i: int|
        0 <= i < list.len() - 1 ==> (#[trigger] list[i]).ranks_before(list[i + 1], by_visits)
}

/// Some entry of the list is about `action`.
pub open spec fn reports(list: Seq<RolloutActionResult>, action: Action) -> bool {
    exists|k: int| 0 <= k < list.len() && (#[trigger] list[k]).action == action
}

/// No two entries are about the same move.
pub open spec fn distinct_moves(list: Seq<RolloutActionResult>) -> bool {
    forall|i: int, j: int|
        0 <= i < list.len() && 0 <= j < list.len() && i != j ==> (#[trigger] list[i]).action != (
        #[trigger] list[j]).action
}

/// The visits of all entries, added up.
pub open spec fn visits_total(list: Seq<RolloutActionResult>) -> int
    decreases list.len(),
{
    if list.len() == 0 {
        0
    } else {
        visits_total(list.drop_last()) + list.last().visits
    }
}

/// Of two entries one may stand before the other.
proof fn lemma_ranks_total(a: RolloutActionResult, b: RolloutActionResult, by_visits: bool)
    ensures
        a.ranks_before(b, by_visits) || b.ranks_before(a, by_visits),
{
}

/// The ranked list with one more entry: the entry goes in behind the last
/// entry that may stand before it, so behind every entry it ties with.
pub open spec fn placed(list: Seq<RolloutActionResult>, e: RolloutActionResult, by_visits: bool) -> Seq<
    RolloutActionResult,
>
    decreases list.len(),
{
    if list.len() == 0 || list.last().ranks_before(e, by_visits) {
        list.push(e)
    } else {
        placed(list.drop_last(), e, by_visits).push(list.last())
    }
}

/// The entries in ranked order, entries that tie in the order in which
/// they stood.
pub open spec fn ranking(list: Seq<RolloutActionResult>, by_visits: bool) -> Seq<
    RolloutActionResult,
>
    decreases list.len(),
{
    if list.len() == 0 {
        list
    } else {
        placed(ranking(list.drop_last(), by_visits), list.last(), by_visits)
    }
}

/// Placing an entry adds it and nothing else, and keeps a ranked list ranked.
pub proof fn lemma_placed(list: Seq<RolloutActionResult>, e: RolloutActionResult, by_visits: bool)
    ensures
        placed(list, e, by_visits).len() == list.len() + 1,
        placed(list, e, by_visits).to_multiset() == list.to_multiset().insert(e),
        visits_total(placed(list, e, by_visits)) == visits_total(list) + e.visits,
        placed(list, e, by_visits).last() == e || (list.len() > 0 && placed(
            list,
            e,
            by_visits,
        ).last() == list.last()),
        ranked(list, by_visits) ==> ranked(placed(list, e, by_visits), by_visits),
        forall|k: int|
            0 <= k < placed(list, e, by_visits).len() ==> (#[trigger] placed(list, e, by_visits)[k])
                == e || list.contains(placed(list, e, by_visits)[k]),
        distinct_moves(list) && (forall|k: int|
            0 <= k < list.len() ==> (#[trigger] list[k]).action != e.action) ==> distinct_moves(
            placed(list, e, by_visits),
        ),
    decreases list.len(),
{
    broadcast use vstd::seq_lib::to_multiset_build;

    let out = placed(list, e, by_visits);
    if list.len() == 0 || list.last().ranks_before(e, by_visits) {
        assert(out.drop_last() == list);
        assert forall|k: int| 0 <= k < out.len() implies (#[trigger] out[k]) == e || list.contains(
            out[k],
        ) by {
            if k < list.len() {
                assert(out[k] == list[k]);
            }
        }
        if ranked(list, by_visits) {
            assert forall|k: int| 0 <= k < out.len() - 1 implies (#[trigger] out[k]).ranks_before(
                out[k + 1],
                by_visits,
            ) by {
                if k < list.len() - 1 {
                    assert(list[k].ranks_before(list[k + 1], by_visits));
                }
            }
        }
    } else {
        let rest = list.drop_last();
        let last = list.last();
        let inner = placed(rest, e, by_visits);
        lemma_placed(rest, e, by_visits);
        assert(list == rest.push(last));
        assert(out.drop_last() == inner);
        assert(out.to_multiset() =~= list.to_multiset().insert(e)) by {
            broadcast use vstd::multiset::group_multiset_axioms;

        }
        assert forall|k: int| 0 <= k < out.len() implies (#[trigger] out[k]) == e || list.contains(
            out[k],
        ) by {
            if k < inner.len() {
                assert(out[k] == inner[k]);
                if inner[k] != e {
                    assert(rest.contains(inner[k]));
                    let m = choose|m: int| 0 <= m < rest.len() && rest[m] == inner[k];
                    assert(list[m] == inner[k]);
                }
            } else {
                assert(list[list.len() - 1] == out[k]);
            }
        }
        if ranked(list, by_visits) {
            assert forall|k: int| 0 <= k < rest.len() - 1 implies (#[trigger] rest[k]).ranks_before(
                rest[k + 1],
                by_visits,
            ) by {
                assert(list[k].ranks_before(list[k + 1], by_visits));
            }
            lemma_ranks_total(last, e, by_visits);
            if inner.last() != e {
                assert(rest.len() > 0);
                assert(list[rest.len() - 1].ranks_before(list[rest.len() as int], by_visits));
            }
            assert forall|k: int| 0 <= k < out.len() - 1 implies (#[trigger] out[k]).ranks_before(
                out[k + 1],
                by_visits,
            ) by {
                if k < inner.len() - 1 {
                    assert(inner[k].ranks_before(inner[k + 1], by_visits));
                }
            }
        }
        if distinct_moves(list) && (forall|k: int|
            0 <= k < list.len() ==> (#[trigger] list[k]).action != e.action) {
            assert forall|i: int, j: int|
                0 <= i < rest.len() && 0 <= j < rest.len() && i != j implies (#[trigger] rest[i]).action
                != (#[trigger] rest[j]).action by {
                assert(list[i].action != list[j].action);
            }
            assert forall|k: int| 0 <= k < rest.len() implies (#[trigger] rest[k]).action
                != e.action by {
                assert(list[k].action != e.action);
            }
            assert forall|k: int| 0 <= k < inner.len() implies (#[trigger] inner[k]).action
                != last.action by {
                if inner[k] == e {
                    assert(list[list.len() - 1].action != e.action);
                } else {
                    assert(rest.contains(inner[k]));
                    let m = choose|m: int| 0 <= m < rest.len() && rest[m] == inner[k];
                    assert(list[m].action != list[list.len() - 1].action);
                }
            }
            assert forall|i: int, j: int|
                0 <= i < out.len() && 0 <= j < out.len() && i != j implies (#[trigger] out[i]).action
                != (#[trigger] out[j]).action by {
                if i < inner.len() && j < inner.len() {
                    assert(inner[i].action != inner[j].action);
                } else if i < inner.len() {
                    assert(inner[i].action != last.action);
                } else {
                    assert(inner[j].action != last.action);
                }
            }
        }
    }
}

/// Ranking keeps the entries, orders them, and keeps entries about
/// different moves apart.
pub proof fn lemma_ranking(list: Seq<RolloutActionResult>, by_visits: bool)
    ensures
        ranking(list, by_visits).len() == list.len(),
        ranking(list, by_visits).to_multiset() == list.to_multiset(),
        visits_total(ranking(list, by_visits)) == visits_total(list),
        ranked(ranking(list, by_visits), by_visits),
        distinct_moves(list) ==> distinct_moves(ranking(list, by_visits)),
    decreases list.len(),
{
    broadcast use vstd::seq_lib::to_multiset_build;

    if list.len() > 0 {
        let rest = list.drop_last();
        let last = list.last();
        let inner = ranking(rest, by_visits);
        lemma_ranking(rest, by_visits);
        lemma_placed(inner, last, by_visits);
        assert(list == rest.push(last));
        if distinct_moves(list) {
            assert forall|i: int, j: int|
                0 <= i < rest.len() && 0 <= j < rest.len() && i != j implies (#[trigger] rest[i]).action
                != (#[trigger] rest[j]).action by {
                assert(list[i].action != list[j].action);
            }
            assert forall|k: int| 0 <= k < inner.len() implies (#[trigger] inner[k]).action
                != last.action by {
                assert(inner.contains(inner[k]));
                vstd::seq_lib::to_multiset_contains(inner, inner[k]);
                vstd::seq_lib::to_multiset_contains(rest, inner[k]);
                let m = choose|m: int| 0 <= m < rest.len() && rest[m] == inner[k];
                assert(list[m].action != list[list.len() - 1].action);
            }
        }
    }
}

/// Moves the entry at `i` forward to its place among the entries before
/// it, which are ranked.
fn place(list: &mut Vec<RolloutActionResult>, i: usize, by_visits: bool)
    requires
        i < old(list)@.len(),
    ensures
        final(list)@.len() == old(list)@.len(),
        final(list)@.take(i as int + 1) == placed(
            old(list)@.take(i as int),
            old(list)@[i as int],
            by_visits,
        ),
        forall|k: int| i < k < final(list)@.len() ==> final(list)@[k] == old(list)@[k],
{
    let ghost sorted = list@.take(i as int);
    let ghost entry = list@[i as int];
    let mut j: usize = i;
    let mut settled = false;
    proof {
        assert(sorted.take(i as int) == sorted);
        assert(placed(sorted, entry, by_visits) =~= placed(sorted, entry, by_visits) + sorted.skip(
            i as int,
        ));
        assert(list@.take(i as int + 1) =~= sorted.push(entry) + sorted.skip(i as int));
    }
    while j > 0 && !settled
        invariant
            j <= i < list@.len(),
            sorted.len() == i,
            list@.len() == old(list)@.len(),
            list@.take(i as int + 1) == sorted.take(j as int).push(entry) + sorted.skip(j as int),
            placed(sorted, entry, by_visits) == placed(sorted.take(j as int), entry, by_visits)
                + sorted.skip(j as int),
            settled ==> j > 0 && sorted[j - 1].ranks_before(entry, by_visits),
            forall|k: int| i < k < list@.len() ==> list@[k] == old(list)@[k],
        decreases j + if settled { 0int } else { 1int },
    {
        let ghost shown = sorted.take(j as int).push(entry) + sorted.skip(j as int);
        proof {
            assert(list@[j as int] == list@.take(i as int + 1)[j as int]);
            assert(list@[j - 1] == list@.take(i as int + 1)[j - 1]);
            assert(shown[j as int] == entry);
            assert(shown[j - 1] == sorted[j - 1]);
            assert(sorted.take(j as int).last() == sorted[j - 1]);
            assert(sorted.take(j as int).drop_last() == sorted.take(j - 1));
        }
        let here = list[j];
        let left = list[j - 1];
        if left.may_stand_before(&here, by_visits) {
            settled = true;
        } else {
            let ghost before = list@;
            list.set(j, left);
            list.set(j - 1, here);
            proof {
                let target = sorted.take(j - 1).push(entry) + sorted.skip(j - 1);
                assert(target.len() == i + 1);
                assert forall|k: int| 0 <= k < i + 1 implies list@.take(i as int + 1)[k]
                    == target[k] by {
                    assert(before[k] == before.take(i as int + 1)[k]);
                    assert(before[k] == shown[k]);
                    if k < j - 1 {
                        assert(shown[k] == sorted[k]);
                        assert(target[k] == sorted[k]);
                    } else if k == j - 1 {
                        assert(target[k] == entry);
                    } else if k == j {
                        assert(target[k] == sorted[j - 1]);
                    } else {
                        assert(shown[k] == sorted[k - 1]);
                        assert(target[k] == sorted[k - 1]);
                    }
                }
                assert(list@.take(i as int + 1) =~= target);
                assert(placed(sorted.take(j - 1), entry, by_visits).push(sorted[j - 1])
                    + sorted.skip(j as int) =~= placed(sorted.take(j - 1), entry, by_visits)
                    + sorted.skip(j - 1));
            }
            j = j - 1;
        }
    }
    proof {
        if j > 0 {
            assert(sorted.take(j as int).last() == sorted[j - 1]);
        }
        assert(placed(sorted.take(j as int), entry, by_visits) == sorted.take(j as int).push(entry));
    }
}

/// Ranks the entries: the same entries, each standing before the next as
/// `ranks_before` allows, and entries that tie in the order in which they
/// stood.
pub fn rank_results(list: &mut Vec<RolloutActionResult>, by_visits: bool)
    ensures
        final(list)@ == ranking(old(list)@, by_visits),
        final(list)@.to_multiset() == old(list)@.to_multiset(),
        final(list)@.len() == old(list)@.len(),
        visits_total(final(list)@) == visits_total(old(list)@),
        distinct_moves(old(list)@) ==> distinct_moves(final(list)@),
        ranked(final(list)@, by_visits),
{
    let mut i: usize = 0;
    assert(list@.take(0) =~= ranking(old(list)@.take(0), by_visits));
    while i < list.len()
        invariant
            i <= list@.len(),
            list@.len() == old(list)@.len(),
            list@.take(i as int) == ranking(old(list)@.take(i as int), by_visits),
            forall|k: int| i <= k < list@.len() ==> list@[k] == old(list)@[k],
        decreases list.len() - i,
    {
        proof {
            assert(old(list)@.take(i as int + 1).drop_last() == old(list)@.take(i as int));
        }
        place(list, i, by_visits);
        i = i + 1;
    }
    proof {
        assert(list@.take(i as int) == list@);
        assert(old(list)@.take(i as int) == old(list)@);
        lemma_ranking(old(list)@, by_visits);
    }
}

} // verus!
