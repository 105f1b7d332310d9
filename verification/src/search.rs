//! Monte Carlo tree search over a position in which every card is known.

use crate::legal::{legal_line, lemma_known_move_asks_nothing, played};
use crate::model::Action;
use crate::player::PlayerId;
use crate::random::{random_below, seeded_rng};
use crate::ranking::{
    distinct_moves, rank_results, ranked, reports, visits_total, RolloutActionResult,
};
use crate::rules::{total_cards, GameView};
use crate::state::GameState;
use rand::rngs::StdRng;
use vstd::prelude::*;

verus! {

/// What the selection rule is told of a child: how often it was visited and
/// how often a visit was won.
#[derive(Debug, Clone, Copy, PartialEq, Eq)]
pub struct NodeStats {
    pub wins: u32,
    pub visits: u32,
}

/// A node of the search tree. The nodes of a tree stand in one list, the
/// root first, and name each other by position. Their counts of visits and
/// wins stand in two lists beside it.
pub(crate) struct MCTSNode {
    /// The move that leads here from the parent.
    pub(crate) action: Action,
    pub(crate) parent: usize,
    /// The children, each reached by a move of its own.
    pub(crate) children: Vec<usize>,
    /// The legal moves not tried yet.
    pub(crate) unexplored: Vec<Action>,
}

/// Node `i` is well placed in the tree: its moves name known cards; it
/// comes after its parent in the list; its children come after it, know it
/// as their parent, and no two of them are the same node or reached by the
/// same move.
pub(crate) open spec fn node_shape(nodes: Seq<MCTSNode>, i: int) -> bool {
    let n = nodes[i];
    &&& n.action.names_known_card()
    &&& i > 0 ==> n.parent < i
    &&& forall|k: int|
        0 <= k < n.unexplored@.len() ==> (#[trigger] n.unexplored@[k]).names_known_card()
    &&& forall|k: int|
        0 <= k < n.children@.len() ==> i < (#[trigger] n.children@[k]) < nodes.len()
            && nodes[n.children@[k] as int].parent == i
    &&& forall|k1: int, k2: int|
        0 <= k1 < k2 < n.children@.len() ==> (#[trigger] n.children@[k1]) != (
        #[trigger] n.children@[k2]) && nodes[n.children@[k1] as int].action
            != nodes[n.children@[k2] as int].action
}

/// The tree has a root and every node is well placed.
pub(crate) open spec fn tree_shape(nodes: Seq<MCTSNode>) -> bool {
    nodes.len() >= 1 && forall|i: int| 0 <= i < nodes.len() ==> #[trigger] node_shape(nodes, i)
}

/// After `done` rollouts every node has been won no more often than
/// visited, and visited no more often than rollouts were made.
pub(crate) open spec fn counts_ok(wins: Seq<u32>, visits: Seq<u32>, len: nat, done: nat) -> bool {
    &&& wins.len() == len
    &&& visits.len() == len
    &&& forall|i: int| 0 <= i < len ==> wins[i] <= #[trigger] visits[i] <= done
}

/// The visits of the nodes in `list`, added up.
pub(crate) open spec fn visits_of(visits: Seq<u32>, list: Seq<usize>) -> int
    decreases list.len(),
{
    if list.len() == 0 {
        0
    } else {
        visits_of(visits, list.drop_last()) + visits[list.last() as int]
    }
}

/// Where no node of the list is visited more often in `b` than in `a`, the
/// list has no more visits in `b`.
pub(crate) proof fn lemma_visits_of_le(a: Seq<u32>, b: Seq<u32>, list: Seq<usize>)
    requires
        forall|k: int| 0 <= k < list.len() ==> b[(#[trigger] list[k]) as int] <= a[list[k] as int],
    ensures
        visits_of(b, list) <= visits_of(a, list),
    decreases list.len(),
{
    if list.len() > 0 {
        let rest = list.drop_last();
        assert(forall|k: int| 0 <= k < rest.len() ==> rest[k] == list[k]);
        lemma_visits_of_le(a, b, rest);
        assert(list.last() == list[list.len() - 1]);
    }
}

/// Where one node `x` has one visit more in `b` and every other node has as
/// many as in `a`, a list that names no node twice has one visit more in
/// `b` if it names `x`, and as many if it does not.
pub(crate) proof fn lemma_visits_of_bump(a: Seq<u32>, b: Seq<u32>, list: Seq<usize>, x: usize)
    requires
        b[x as int] == a[x as int] + 1,
        forall|k: int|
            0 <= k < list.len() && (#[trigger] list[k]) != x ==> b[list[k] as int] == a[list[k] as int],
        forall|k1: int, k2: int|
            0 <= k1 < k2 < list.len() ==> (#[trigger] list[k1]) != (#[trigger] list[k2]),
    ensures
        visits_of(b, list) <= visits_of(a, list) + 1,
        (forall|k: int| 0 <= k < list.len() ==> (#[trigger] list[k]) != x) ==> visits_of(b, list)
            == visits_of(a, list),
        list.contains(x) ==> visits_of(b, list) == visits_of(a, list) + 1,
    decreases list.len(),
{
    if list.len() > 0 {
        let rest = list.drop_last();
        assert(forall|k: int| 0 <= k < rest.len() ==> rest[k] == list[k]);
        lemma_visits_of_bump(a, b, rest, x);
        let last = list[list.len() - 1];
        assert(list.last() == last);
        if last == x {
            assert forall|k: int| 0 <= k < rest.len() implies (#[trigger] rest[k]) != x by {
                assert(list[k] != list[list.len() - 1]);
            }
        } else if list.contains(x) {
            let k = choose|k: int| 0 <= k < list.len() && list[k] == x;
            assert(rest[k] == x);
            assert(rest.contains(x));
        }
    }
}

/// The position among the children of `parent` of the child reached by `action`.
fn find_child(nodes: &Vec<MCTSNode>, parent: usize, action: &Action) -> (found: Option<usize>)
    requires
        tree_shape(nodes@),
        parent < nodes.len(),
    ensures
        match found {
            Some(k) => k < nodes@[parent as int].children@.len()
                && nodes@[nodes@[parent as int].children@[k as int] as int].action == *action,
            None => forall|k: int|
                0 <= k < nodes@[parent as int].children@.len() ==> nodes@[(
                #[trigger] nodes@[parent as int].children@[k]) as int].action != *action,
        },
{
    assert(node_shape(nodes@, parent as int));
    let mut k: usize = 0;
    while k < nodes[parent].children.len()
        invariant
            parent < nodes.len(),
            node_shape(nodes@, parent as int),
            k <= nodes@[parent as int].children@.len(),
            forall|j: int|
                0 <= j < k ==> nodes@[(#[trigger] nodes@[parent as int].children@[j]) as int].action
                    != *action,
        decreases nodes@[parent as int].children@.len() - k,
    {
        let c = nodes[parent].children[k];
        if nodes[c].action.same_as(action) {
            return Some(k);
        }
        k = k + 1;
    }
    None
}

/// Every node of `a` but the one at `except` is in `b` with the same move,
/// parent and untried moves.
pub(crate) open spec fn kept_but(a: Seq<MCTSNode>, b: Seq<MCTSNode>, except: int) -> bool {
    &&& a.len() <= b.len()
    &&& forall|i: int|
        0 <= i < a.len() && i != except ==> {
            &&& (#[trigger] b[i]).action == a[i].action
            &&& b[i].parent == a[i].parent
            &&& b[i].unexplored@ == a[i].unexplored@
        }
}

/// Gives `parent` a fresh child reached by `action`. A child that `parent`
/// already had for that move gives way to the fresh one.
fn add_child(nodes: &mut Vec<MCTSNode>, parent: usize, action: Action, unexplored: Vec<Action>) -> (child:
    usize)
    requires
        tree_shape(old(nodes)@),
        parent < old(nodes).len(),
        action.names_known_card(),
        forall|k: int| 0 <= k < unexplored@.len() ==> (#[trigger] unexplored@[k]).names_known_card(),
    ensures
        tree_shape(final(nodes)@),
        parent < child < final(nodes).len(),
        child <= old(nodes).len(),
        final(nodes).len() == (if child == old(nodes).len() {
            old(nodes).len() + 1
        } else {
            old(nodes).len() as int
        }),
        final(nodes)@[child as int].parent == parent,
        final(nodes)@[child as int].action == action,
        final(nodes)@[child as int].unexplored@ == unexplored@,
        final(nodes)@[child as int].children@.len() == 0,
        child < old(nodes).len() ==> old(nodes)@[parent as int].children@.contains(child) && old(
            nodes,
        )@[child as int].action == action,
        child == old(nodes).len() ==> forall|k: int|
            0 <= k < old(nodes)@[parent as int].children@.len() ==> old(nodes)@[(
            #[trigger] old(nodes)@[parent as int].children@[k]) as int].action != action,
        kept_but(old(nodes)@, final(nodes)@, child as int),
        final(nodes)@[parent as int].unexplored@ == old(nodes)@[parent as int].unexplored@,
        forall|i: int|
            0 <= i < old(nodes).len() && i != parent && i != child ==> (
            #[trigger] final(nodes)@[i]).children@ == old(nodes)@[i].children@,
        child < old(nodes).len() ==> final(nodes)@[parent as int].children@ == old(
            nodes,
        )@[parent as int].children@,
        child == old(nodes).len() ==> final(nodes)@[parent as int].children@ == old(
            nodes,
        )@[parent as int].children@.push(child),
        exists|k: int|
            0 <= k < final(nodes)@[parent as int].children@.len() && (
            #[trigger] final(nodes)@[parent as int].children@[k]) == child,
{
    let node = MCTSNode { action, parent, children: Vec::new(), unexplored };
    assert(node_shape(nodes@, parent as int));
    match find_child(nodes, parent, &action) {
        Some(k) => {
            let child = nodes[parent].children[k];
            nodes.set(child, node);
            proof {
                assert forall|i: int| 0 <= i < nodes.len() implies #[trigger] node_shape(
                    nodes@,
                    i,
                ) by {
                    assert(node_shape(old(nodes)@, i));
                    if i != child {
                        assert(nodes@[i].children@ == old(nodes)@[i].children@);
                        assert forall|j: int| 0 <= j < nodes@[i].children@.len() implies nodes@[(
                        #[trigger] nodes@[i].children@[j]) as int].action == old(
                            nodes,
                        )@[nodes@[i].children@[j] as int].action && nodes@[nodes@[i].children@[j] as int].parent
                            == i by {
                            let c = nodes@[i].children@[j];
                            if c == child {
                                assert(old(nodes)@[c as int].parent == i);
                            }
                        }
                    }
                }
            }
            child
        },
        None => {
            let child = nodes.len();
            nodes.push(node);
            let slot = &mut nodes[parent];
            slot.children.push(child);
            proof {
                let old_children = old(nodes)@[parent as int].children@;
                assert(nodes@[parent as int].children@ == old_children.push(child));
                assert(nodes@[parent as int].children@[old_children.len() as int] == child);
                assert forall|i: int| 0 <= i < nodes.len() implies #[trigger] node_shape(
                    nodes@,
                    i,
                ) by {
                    if i < old(nodes).len() {
                        assert(node_shape(old(nodes)@, i));
                        if i == parent {
                            assert forall|k1: int, k2: int|
                                0 <= k1 < k2 < nodes@[i].children@.len() implies (
                            #[trigger] nodes@[i].children@[k1]) != (
                            #[trigger] nodes@[i].children@[k2])
                                && nodes@[nodes@[i].children@[k1] as int].action
                                != nodes@[nodes@[i].children@[k2] as int].action by {
                                if k2 == old_children.len() {
                                    assert(old_children[k1] < old(nodes).len());
                                }
                            }
                        } else {
                            assert(nodes@[i].children@ == old(nodes)@[i].children@);
                        }
                    }
                }
            }
            child
        },
    }
}

/// The children of node `i` as the selection rule sees them.
fn child_stats(nodes: &Vec<MCTSNode>, wins: &Vec<u32>, visits: &Vec<u32>, i: usize) -> (stats: Vec<
    NodeStats,
>)
    requires
        tree_shape(nodes@),
        wins@.len() == nodes@.len(),
        visits@.len() == nodes@.len(),
        i < nodes.len(),
    ensures
        stats@.len() == nodes@[i as int].children@.len(),
        forall|k: int|
            0 <= k < stats@.len() ==> #[trigger] stats@[k] == (NodeStats {
                wins: wins@[nodes@[i as int].children@[k] as int],
                visits: visits@[nodes@[i as int].children@[k] as int],
            }),
{
    assert(node_shape(nodes@, i as int));
    let mut stats: Vec<NodeStats> = Vec::new();
    let mut k: usize = 0;
    while k < nodes[i].children.len()
        invariant
            i < nodes.len(),
            wins@.len() == nodes@.len(),
            visits@.len() == nodes@.len(),
            node_shape(nodes@, i as int),
            k <= nodes@[i as int].children@.len(),
            stats@.len() == k,
            forall|j: int|
                0 <= j < k ==> #[trigger] stats@[j] == (NodeStats {
                    wins: wins@[nodes@[i as int].children@[j] as int],
                    visits: visits@[nodes@[i as int].children@[j] as int],
                }),
        decreases nodes@[i as int].children@.len() - k,
    {
        let c = nodes[i].children[k];
        stats.push(NodeStats { wins: wins[c], visits: visits[c] });
        k = k + 1;
    }
    stats
}

/// The path leads down the tree from a child of the root, each node the
/// parent of the next.
pub(crate) open spec fn path_ok(nodes: Seq<MCTSNode>, path: Seq<usize>) -> bool {
    forall|k: int|
        0 <= k < path.len() ==> 0 < (#[trigger] path[k]) < nodes.len() && nodes[path[k] as int].parent
            == (if k == 0 {
            0
        } else {
            path[k - 1]
        })
}

/// On a path down the tree only the first node is a child of the root, and
/// each node comes later in the list than the one before.
proof fn lemma_path(nodes: Seq<MCTSNode>, path: Seq<usize>, k: int)
    requires
        tree_shape(nodes),
        path_ok(nodes, path),
        0 < k < path.len(),
    ensures
        path[k] > path[k - 1],
        forall|j: int|
            0 <= j < nodes[0].children@.len() ==> (#[trigger] nodes[0].children@[j]) != path[k],
{
    assert(node_shape(nodes, path[k] as int));
    assert(node_shape(nodes, 0));
    assert(path[k - 1] > 0);
}

/// Counts one more rollout for the root and for every node on the path, and
/// one more win for each of them if the rollout was won.
fn backpropagate(
    nodes: &Vec<MCTSNode>,
    wins: &mut Vec<u32>,
    visits: &mut Vec<u32>,
    path: &Vec<usize>,
    win: bool,
    done: u32,
)
    requires
        tree_shape(nodes@),
        counts_ok(old(wins)@, old(visits)@, nodes@.len(), done as nat),
        done < u32::MAX,
        path_ok(nodes@, path@),
        old(visits)@[0] == done,
        visits_of(old(visits)@, nodes@[0].children@) <= done,
    ensures
        counts_ok(final(wins)@, final(visits)@, nodes@.len(), (done + 1) as nat),
        final(visits)@[0] == done + 1,
        visits_of(final(visits)@, nodes@[0].children@) <= done + 1,
        visits_of(final(visits)@, nodes@[0].children@) == visits_of(
            old(visits)@,
            nodes@[0].children@,
        ) + (if path@.len() > 0 && nodes@[0].children@.contains(path@[0]) {
            1int
        } else {
            0int
        }),
        forall|i: int| 0 <= i < nodes.len() ==> #[trigger] final(visits)@[i] >= old(visits)@[i],
        forall|k: int| 0 <= k < path@.len() ==> final(visits)@[(#[trigger] path@[k]) as int] >= 1,
{
    let ghost roots = nodes@[0].children@;
    let ghost n = nodes@.len();
    proof {
        assert(node_shape(nodes@, 0));
        assert forall|k: int| 0 < k < path@.len() implies path@[k] > #[trigger] path@[k - 1]
            && !roots.contains(path@[k]) by {
            lemma_path(nodes@, path@, k);
        }
    }
    visits.set(0, visits[0] + 1);
    if win {
        wins.set(0, wins[0] + 1);
    }
    proof {
        lemma_visits_of_le(old(visits)@, visits@, roots);
        lemma_visits_of_le(visits@, old(visits)@, roots);
    }
    let mut k: usize = 0;
    while k < path.len()
        invariant
            k <= path.len(),
            done < u32::MAX,
            wins@.len() == n,
            visits@.len() == n,
            old(visits)@.len() == n,
            visits@[0] == done + 1,
            forall|j: int| 0 <= j < path@.len() ==> 0 < #[trigger] path@[j] < n,
            forall|j: int| 0 < j < path@.len() ==> path@[j] > #[trigger] path@[j - 1] && !roots.contains(path@[j]),
            forall|j: int| 0 <= j < roots.len() ==> #[trigger] roots[j] < n,
            forall|j: int, l: int|
                0 <= j < l < roots.len() ==> (#[trigger] roots[j]) != (#[trigger] roots[l]),
            forall|i: int| 0 <= i < n ==> wins@[i] <= #[trigger] visits@[i] <= done + 1,
            forall|i: int| 0 <= i < n ==> #[trigger] visits@[i] >= old(visits)@[i],
            forall|i: int|
                0 < i < n && (k > 0 ==> i > path@[k - 1]) ==> #[trigger] visits@[i] <= done,
            forall|j: int| 0 <= j < k ==> visits@[(#[trigger] path@[j]) as int] >= 1,
            visits_of(visits@, roots) <= done + (if k == 0 {
                0int
            } else {
                1int
            }),
            visits_of(visits@, roots) == visits_of(old(visits)@, roots) + (if k > 0
                && roots.contains(path@[0]) {
                1int
            } else {
                0int
            }),
        decreases path.len() - k,
    {
        let x = path[k];
        let ghost prev = visits@;
        proof {
            assert(0 < path@[k as int] < n);
            if k > 0 {
                assert(path@[k as int] > path@[k - 1]);
            }
        }
        visits.set(x, visits[x] + 1);
        if win {
            wins.set(x, wins[x] + 1);
        }
        proof {
            assert(visits@ == prev.update(x as int, (prev[x as int] + 1) as u32));
            lemma_visits_of_bump(prev, visits@, roots, x);
            if k == 0 && !roots.contains(x) {
                assert forall|j: int| 0 <= j < roots.len() implies (#[trigger] roots[j]) != x by {
                    assert(roots.contains(roots[j]));
                }
            }
            if k > 0 {
                assert(!roots.contains(x));
                assert forall|j: int| 0 <= j < roots.len() implies (#[trigger] roots[j]) != x by {
                    assert(roots.contains(roots[j]));
                }
            }
            assert forall|j: int| 0 <= j < k + 1 implies visits@[(#[trigger] path@[j]) as int]
                >= 1 by {
                if j < k {
                    assert(prev[path@[j] as int] >= 1);
                }
            }
        }
        k = k + 1;
    }
}

/// Result of a search: the moves tried at the root with their statistics,
/// ranked, and the number of rollouts made.
#[derive(Debug, Clone, PartialEq, Eq)]
pub struct MCTSEvalAll {
    pub actions: Vec<RolloutActionResult>,
    pub total_rollouts: u32,
}

/// The selection rule can be asked about any node that has children, and
/// answers with the position of one of them.
pub open spec fn selects_a_child<F: Fn(&Vec<NodeStats>, u32) -> usize>(select: F) -> bool {
    &&& forall|stats: &Vec<NodeStats>, n: u32|
        stats@.len() > 0 ==> #[trigger] call_requires(select, (stats, n))
    &&& forall|stats: &Vec<NodeStats>, n: u32, k: usize| #[trigger]
        call_ensures(select, (stats, n), k) ==> k < stats@.len()
}

/// Plays random legal moves until no move is legal, as when the game is
/// over, or until `max_depth` moves have been played: the position reached
/// is the one after a line of at most `max_depth` moves, each legal where
/// it was played, and the line is shorter than `max_depth` only where it
/// ends in a position without a legal move.
pub fn simulate(state: &mut GameState, rng: &mut StdRng, max_depth: u32)
    requires
        old(state)@.wf(),
    ensures
        exists|moves: Seq<Action>|
            #[trigger] played(old(state)@, moves) == final(state)@ && moves.len() <= max_depth
                && legal_line(old(state)@, moves) && (moves.len() == max_depth
                || final(state)@.legal().len() == 0),
        final(state)@.wf(),
        old(state)@.coherent() ==> final(state)@.coherent(),
        total_cards(final(state)@) == total_cards(old(state)@),
        max_depth == 0 || old(state)@.legal().len() == 0 ==> final(state)@ == old(state)@,
{
    let mut depth: u32 = 0;
    let mut stuck = false;
    let ghost mut moves: Seq<Action> = Seq::empty();
    while !stuck && depth < max_depth && !state.is_terminal()
        invariant
            state@.wf(),
            old(state)@.coherent() ==> state@.coherent(),
            total_cards(state@) == total_cards(old(state)@),
            depth == 0 ==> state@ == old(state)@,
            depth > 0 ==> max_depth > 0 && old(state)@.legal().len() > 0,
            depth <= max_depth,
            moves.len() == depth,
            legal_line(old(state)@, moves),
            played(old(state)@, moves) == state@,
            stuck ==> state@.legal().len() == 0,
        decreases max_depth - depth + if stuck { 0int } else { 1int },
    {
        let acts = state.legal_actions();
        if acts.len() == 0 {
            stuck = true;
        } else {
            let idx = random_below(rng, acts.len());
            proof {
                lemma_known_move_asks_nothing(state@, acts@[idx as int]);
                assert(state@.legal().contains(acts@[idx as int]));
                assert(moves.push(acts@[idx as int]).drop_last() == moves);
            }
            let ghost before = state@;
            let _ = state.apply(&acts[idx]);
            proof {
                assert(state@ == before.after(acts@[idx as int]));
                moves = moves.push(acts@[idx as int]);
            }
            depth = depth + 1;
        }
    }
}

/// Picks a legal move at random. `None` when no move is legal, as when the
/// game is over.
pub fn pick_random_action(state: &GameState, seed: u64) -> (picked: Option<Action>)
    requires
        state@.wf(),
    ensures
        picked is None <==> state@.legal().len() == 0,
        picked matches Some(a) ==> state@.legal().contains(a),
{
    let actions = state.legal_actions();
    if actions.len() == 0 {
        return None;
    }
    let mut rng = seeded_rng(seed);
    let idx = random_below(&mut rng, actions.len());
    assert(actions@[idx as int] == state@.legal()[idx as int]);
    Some(actions[idx])
}

/// What holds of the search between rollouts, `done` of them made: the tree
/// is in order; the root has been visited `done` times and its children
/// together no more often; every child of the root has been visited, stands
/// for one of `moves`, and so does every untried move of the root; and the
/// root has no more children than rollouts were made.
pub(crate) open spec fn search_ok(
    nodes: Seq<MCTSNode>,
    wins: Seq<u32>,
    visits: Seq<u32>,
    moves: Seq<Action>,
    done: nat,
) -> bool {
    &&& tree_shape(nodes)
    &&& counts_ok(wins, visits, nodes.len(), done)
    &&& visits[0] == done
    &&& visits_of(visits, nodes[0].children@) <= done
    &&& nodes[0].children@.len() <= done
    &&& nodes[0].children@.len() + nodes[0].unexplored@.len() <= moves.len()
    &&& roots_from(nodes, moves)
    &&& forall|j: int|
        0 <= j < nodes[0].children@.len() ==> visits[(#[trigger] nodes[0].children@[j]) as int] >= 1
}

/// How far the root has come after `done` rollouts from a position with
/// the legal moves `moves`: its untried moves are the first of `moves`, the
/// last having been tried first; once a rollout is made it has a child if
/// there is a move at all; and where no move is listed twice, every move
/// tried has a child of its own, in the order in which they were tried,
/// one more for each rollout until all are tried, and the children have
/// been visited as often as rollouts were made.
pub(crate) open spec fn search_tally(
    nodes: Seq<MCTSNode>,
    visits: Seq<u32>,
    moves: Seq<Action>,
    done: nat,
) -> bool {
    let untried = nodes[0].unexplored@;
    let roots = nodes[0].children@;
    &&& untried.len() <= moves.len()
    &&& untried == moves.take(untried.len() as int)
    &&& moves.len() > 0 ==> roots.len() >= 1 || untried.len() > 0
    &&& done >= 1 && moves.len() > 0 ==> roots.len() >= 1
    &&& moves.no_duplicates() ==> {
        &&& roots.len() + untried.len() == moves.len()
        &&& roots.len() == (if done <= moves.len() {
            done
        } else {
            moves.len()
        })
        &&& forall|k: int|
            0 <= k < roots.len() ==> nodes[(#[trigger] roots[k]) as int].action == moves[moves.len()
                - 1 - k]
        &&& moves.len() > 0 ==> visits_of(visits, roots) == done
    }
}

/// Every child of the root stands for one of `moves`, and so does every
/// untried move of the root.
pub(crate) open spec fn roots_from(nodes: Seq<MCTSNode>, moves: Seq<Action>) -> bool {
    &&& forall|j: int|
        0 <= j < nodes[0].children@.len() ==> moves.contains(
            nodes[(#[trigger] nodes[0].children@[j]) as int].action,
        )
    &&& forall|j: int|
        0 <= j < nodes[0].unexplored@.len() ==> moves.contains(#[trigger] nodes[0].unexplored@[j])
}

/// The node a path ends at: the root for the empty path.
pub(crate) open spec fn path_end(path: Seq<usize>) -> usize {
    if path.len() == 0 {
        0
    } else {
        path[path.len() - 1]
    }
}

/// The moves that lead along the path, from the root down.
pub(crate) open spec fn path_moves(nodes: Seq<MCTSNode>, path: Seq<usize>) -> Seq<Action> {
    Seq::new(path.len(), |k: int| nodes[path[k] as int].action)
}

/// The children of node `i` as the selection rule sees them.
pub(crate) open spec fn stats_of(
    nodes: Seq<MCTSNode>,
    wins: Seq<u32>,
    visits: Seq<u32>,
    i: int,
) -> Seq<NodeStats> {
    Seq::new(
        nodes[i].children@.len(),
        |k: int|
            NodeStats {
                wins: wins[nodes[i].children@[k] as int],
                visits: visits[nodes[i].children@[k] as int],
            },
    )
}

/// The selection rule, asked about the children of `parent`, has picked `child`.
pub(crate) open spec fn picked_by<F: Fn(&Vec<NodeStats>, u32) -> usize>(
    select: F,
    nodes: Seq<MCTSNode>,
    wins: Seq<u32>,
    visits: Seq<u32>,
    parent: usize,
    child: usize,
) -> bool {
    exists|stats: &Vec<NodeStats>, k: usize|
        stats@ == stats_of(nodes, wins, visits, parent as int) && #[trigger] call_ensures(
            select,
            (stats, visits[parent as int]),
            k,
        ) && k < nodes[parent as int].children@.len() && nodes[parent as int].children@[k as int]
            == child
}

/// Step `k` of the path is a step of selection: it leaves a node that has
/// no untried move, in a position in which the game goes on, for the child
/// that the selection rule picked.
pub(crate) open spec fn selected_step<F: Fn(&Vec<NodeStats>, u32) -> usize>(
    select: F,
    nodes: Seq<MCTSNode>,
    wins: Seq<u32>,
    visits: Seq<u32>,
    start: GameView,
    path: Seq<usize>,
    k: int,
) -> bool {
    let parent = if k == 0 {
        0
    } else {
        path[k - 1]
    };
    &&& nodes[parent as int].unexplored@.len() == 0
    &&& !played(start, path_moves(nodes, path.take(k))).is_terminal()
    &&& picked_by(select, nodes, wins, visits, parent, path[k])
}

/// Selection: walks down the tree by the selection rule while the node at
/// hand has no untried move, has children, and the game goes on; each move
/// on the way is applied to `state`. The path ends at the first node that
/// has an untried move or no children, or at which the game is over.
fn select_path<F: Fn(&Vec<NodeStats>, u32) -> usize>(
    nodes: &Vec<MCTSNode>,
    wins: &Vec<u32>,
    visits: &Vec<u32>,
    state: &mut GameState,
    select: &F,
) -> (path: Vec<usize>)
    requires
        tree_shape(nodes@),
        wins@.len() == nodes@.len(),
        visits@.len() == nodes@.len(),
        old(state)@.wf(),
        selects_a_child(*select),
    ensures
        final(state)@ == played(old(state)@, path_moves(nodes@, path@)),
        forall|k: int|
            0 <= k < path@.len() ==> #[trigger] selected_step(
                *select,
                nodes@,
                wins@,
                visits@,
                old(state)@,
                path@,
                k,
            ),
        nodes@[path_end(path@) as int].unexplored@.len() > 0 || nodes@[path_end(
            path@,
        ) as int].children@.len() == 0 || final(state)@.is_terminal(),
        final(state)@.wf(),
        path_ok(nodes@, path@),
        path_end(path@) < nodes@.len(),
{
    let mut path: Vec<usize> = Vec::new();
    let mut node: usize = 0;
    let mut going = true;
    assert(path_moves(nodes@, path@) =~= Seq::<Action>::empty());
    while going
        invariant
            tree_shape(nodes@),
            wins@.len() == nodes@.len(),
            visits@.len() == nodes@.len(),
            state@.wf(),
            selects_a_child(*select),
            node < nodes@.len(),
            node == path_end(path@),
            path_ok(nodes@, path@),
            state@ == played(old(state)@, path_moves(nodes@, path@)),
            forall|k: int|
                0 <= k < path@.len() ==> #[trigger] selected_step(
                    *select,
                    nodes@,
                    wins@,
                    visits@,
                    old(state)@,
                    path@,
                    k,
                ),
            !going ==> nodes@[node as int].unexplored@.len() > 0 || nodes@[node as int].children@.len()
                == 0 || state@.is_terminal(),
        decreases nodes@.len() - node + if going { 1int } else { 0int },
    {
        if nodes[node].unexplored.len() == 0 && nodes[node].children.len() > 0
            && !state.is_terminal() {
            let stats = child_stats(nodes, wins, visits, node);
            let k = select(&stats, visits[node]);
            assert(node_shape(nodes@, node as int));
            let child = nodes[node].children[k];
            assert(node_shape(nodes@, child as int));
            let action = nodes[child].action;
            proof {
                lemma_known_move_asks_nothing(state@, action);
                assert(stats@ =~= stats_of(nodes@, wins@, visits@, node as int));
                assert(picked_by(*select, nodes@, wins@, visits@, node, child));
            }
            let ghost position = state@;
            let _ = state.apply(&action);
            let ghost before = path@;
            path.push(child);
            proof {
                assert forall|j: int| 0 <= j < path@.len() implies 0 < (#[trigger] path@[j])
                    < nodes@.len() && nodes@[path@[j] as int].parent == (if j == 0 {
                    0
                } else {
                    path@[j - 1]
                }) by {
                    if j < before.len() {
                        assert(path@[j] == before[j]);
                    }
                }
                assert(path_moves(nodes@, path@) =~= path_moves(nodes@, before).push(action));
                assert(path_moves(nodes@, path@).drop_last() == path_moves(nodes@, before));
                assert(state@ == position.after(action));
                assert forall|j: int| 0 <= j < path@.len() implies #[trigger] selected_step(
                    *select,
                    nodes@,
                    wins@,
                    visits@,
                    old(state)@,
                    path@,
                    j,
                ) by {
                    if j < before.len() {
                        assert(selected_step(
                            *select,
                            nodes@,
                            wins@,
                            visits@,
                            old(state)@,
                            before,
                            j,
                        ));
                        assert(path@.take(j) == before.take(j));
                        assert(path@[j] == before[j]);
                        if j > 0 {
                            assert(path@[j - 1] == before[j - 1]);
                        }
                    } else {
                        assert(path@.take(j) == before);
                    }
                }
            }
            node = child;
        } else {
            going = false;
        }
    }
    path
}

/// Expansion: where the node at the end of the path has an untried move,
/// takes the last one, applies it to `state`, gives the node a fresh child
/// for it, seeded with the legal moves of the position reached and never
/// visited, and lengthens the path by that child. Where the node has no
/// untried move nothing changes.
#[verifier::rlimit(80)]
fn expand(
    nodes: &mut Vec<MCTSNode>,
    wins: &mut Vec<u32>,
    visits: &mut Vec<u32>,
    state: &mut GameState,
    path: &mut Vec<usize>,
    Ghost(moves): Ghost<Seq<Action>>,
    Ghost(done): Ghost<nat>,
)
    requires
        search_ok(old(nodes)@, old(wins)@, old(visits)@, moves, done),
        old(state)@.wf(),
        path_ok(old(nodes)@, old(path)@),
        path_end(old(path)@) < old(nodes)@.len(),
    ensures
        old(nodes)@[path_end(old(path)@) as int].unexplored@.len() == 0 ==> {
            &&& final(nodes)@ == old(nodes)@
            &&& final(wins)@ == old(wins)@
            &&& final(visits)@ == old(visits)@
            &&& final(state)@ == old(state)@
            &&& final(path)@ == old(path)@
        },
        old(nodes)@[path_end(old(path)@) as int].unexplored@.len() > 0 ==> {
            let node = path_end(old(path)@) as int;
            let untried = old(nodes)@[node].unexplored@;
            let child = path_end(final(path)@) as int;
            &&& final(path)@ == old(path)@.push(child as usize)
            &&& final(state)@ == old(state)@.after(untried.last())
            &&& final(nodes)@[node].unexplored@ == untried.drop_last()
            &&& final(nodes)@[node].action == old(nodes)@[node].action
            &&& final(nodes)@[node].parent == old(nodes)@[node].parent
            &&& final(nodes)@[node].children@.contains(child as usize)
            &&& child < old(nodes)@.len() ==> old(nodes)@[node].children@.contains(child as usize)
                && old(nodes)@[child].action == untried.last() && final(nodes)@[node].children@
                == old(nodes)@[node].children@ && final(nodes)@.len() == old(nodes)@.len()
            &&& child >= old(nodes)@.len() ==> child == old(nodes)@.len() && final(nodes)@.len()
                == old(nodes)@.len() + 1 && final(nodes)@[node].children@ == old(
                nodes,
            )@[node].children@.push(child as usize) && (forall|k: int|
                0 <= k < old(nodes)@[node].children@.len() ==> old(nodes)@[(
                #[trigger] old(nodes)@[node].children@[k]) as int].action != untried.last())
            &&& final(nodes)@[child].action == untried.last()
            &&& final(nodes)@[child].parent == node
            &&& final(nodes)@[child].children@.len() == 0
            &&& final(nodes)@[child].unexplored@ == final(state)@.legal()
            &&& final(wins)@[child] == 0
            &&& final(visits)@[child] == 0
            &&& forall|i: int|
                0 <= i < old(nodes)@.len() && i != child ==> #[trigger] final(visits)@[i] == old(
                    visits,
                )@[i] && final(wins)@[i] == old(wins)@[i]
            &&& forall|i: int|
                0 <= i < old(nodes)@.len() && i != child && i != node ==> {
                    &&& (#[trigger] final(nodes)@[i]).action == old(nodes)@[i].action
                    &&& final(nodes)@[i].parent == old(nodes)@[i].parent
                    &&& final(nodes)@[i].children@ == old(nodes)@[i].children@
                    &&& final(nodes)@[i].unexplored@ == old(nodes)@[i].unexplored@
                }
        },
        final(state)@.wf(),
        tree_shape(final(nodes)@),
        counts_ok(final(wins)@, final(visits)@, final(nodes)@.len(), done),
        final(visits)@[0] == done,
        visits_of(final(visits)@, final(nodes)@[0].children@) <= done,
        final(nodes)@[0].children@.len() <= done + 1,
        final(nodes)@[0].children@.len() + final(nodes)@[0].unexplored@.len() <= moves.len(),
        roots_from(final(nodes)@, moves),
        path_ok(final(nodes)@, final(path)@),
        forall|j: int|
            0 <= j < final(nodes)@[0].children@.len() ==> final(visits)@[(
            #[trigger] final(nodes)@[0].children@[j]) as int] >= 1 || final(path)@.contains(
                final(nodes)@[0].children@[j],
            ),
{
    let node: usize = if path.len() == 0 {
        0
    } else {
        path[path.len() - 1]
    };
    let ghost before = nodes@;
    let ghost roots = nodes@[0].children@;
    proof {
        assert(node_shape(before, node as int));
        assert(node_shape(before, 0));
    }
    if nodes[node].unexplored.len() == 0 {
        return ;
    }
    let popped = {
        let slot = &mut nodes[node];
        slot.unexplored.pop()
    };
    let action = match popped {
        Some(a) => a,
        None => {
            return ;
        },
    };
    let ghost popped_tree = nodes@;
    proof {
        let taken = before[node as int].unexplored@;
        assert(action == taken[taken.len() - 1]);
        assert(action.names_known_card());
        assert(popped_tree[node as int].unexplored@ == taken.take(taken.len() - 1));
        assert forall|i: int| 0 <= i < popped_tree.len() implies #[trigger] node_shape(
            popped_tree,
            i,
        ) by {
            assert(node_shape(before, i));
            if i != node {
                assert(popped_tree[i] == before[i]);
            }
            assert forall|j: int| 0 <= j < popped_tree[i].children@.len() implies popped_tree[(
            #[trigger] popped_tree[i].children@[j]) as int].parent == before[popped_tree[i].children@[j] as int].parent
                && popped_tree[popped_tree[i].children@[j] as int].action
                == before[popped_tree[i].children@[j] as int].action by {}
        }
        if node == 0 {
            assert(moves.contains(action));
        }
        lemma_known_move_asks_nothing(state@, action);
    }
    let _ = state.apply(&action);
    let fresh = state.legal_actions();
    let child = add_child(nodes, node, action, fresh);
    if child == wins.len() {
        wins.push(0);
        visits.push(0);
    } else {
        wins.set(child, 0);
        visits.set(child, 0);
    }
    let ghost before_path = path@;
    path.push(child);
    proof {
        let new_roots = nodes@[0].children@;
        assert(node_shape(nodes@, 0));
        assert(node_shape(nodes@, child as int));
        // the path still leads down the tree
        assert forall|j: int| 0 <= j < path@.len() implies 0 < (#[trigger] path@[j]) < nodes@.len()
            && nodes@[path@[j] as int].parent == (if j == 0 {
            0
        } else {
            path@[j - 1]
        }) by {
            if j < before_path.len() {
                assert(path@[j] == before_path[j]);
                lemma_path_below(before, before_path);
                assert(before_path[j] <= path_end(before_path));
                if j > 0 {
                    assert(path@[j - 1] == before_path[j - 1]);
                }
            }
        }
        // the visits of the root's children have not grown
        assert forall|j: int| 0 <= j < roots.len() implies visits@[(#[trigger] roots[j]) as int]
            <= old(visits)@[roots[j] as int] by {}
        lemma_visits_of_le(old(visits)@, visits@, roots);
        if node == 0 && child == before.len() {
            assert(new_roots == roots.push(child));
            assert(new_roots.drop_last() == roots);
        } else {
            assert(new_roots == roots);
        }
        // the root's children stand for moves of the list
        assert forall|j: int| 0 <= j < new_roots.len() implies moves.contains(
            nodes@[(#[trigger] new_roots[j]) as int].action,
        ) by {
            if new_roots[j] != child {
                assert(roots[j] == new_roots[j]);
            }
        }
        assert forall|j: int| 0 <= j < nodes@[0].unexplored@.len() implies moves.contains(
            #[trigger] nodes@[0].unexplored@[j],
        ) by {
            assert(nodes@[0].unexplored@[j] == before[0].unexplored@[j]);
        }
        assert forall|j: int| 0 <= j < new_roots.len() implies visits@[(#[trigger] new_roots[j]) as int]
            >= 1 || path@.contains(new_roots[j]) by {
            if new_roots[j] == child {
                assert(path@[path@.len() - 1] == child);
            } else {
                assert(roots[j] == new_roots[j]);
            }
        }
        // what the expansion did
        let untried = before[node as int].unexplored@;
        assert(popped_tree[node as int].children@ == before[node as int].children@);
        assert(popped_tree[node as int].action == before[node as int].action);
        assert(popped_tree[node as int].parent == before[node as int].parent);
        if child < before.len() {
            assert(popped_tree[child as int].action == before[child as int].action);
        } else {
            assert forall|k: int| 0 <= k < before[node as int].children@.len() implies before[(
            #[trigger] before[node as int].children@[k]) as int].action != untried.last() by {
                let c = before[node as int].children@[k];
                assert(popped_tree[node as int].children@[k] == c);
                assert(popped_tree[c as int].action == before[c as int].action);
            }
        }
        assert(path@[path@.len() - 1] == child);
        assert(untried.take(untried.len() - 1) == untried.drop_last());
        let k = choose|k: int|
            0 <= k < nodes@[node as int].children@.len() && (
            #[trigger] nodes@[node as int].children@[k]) == child;
        assert(nodes@[node as int].children@[k] == child);
        assert forall|i: int| 0 <= i < before.len() && i != child && i != node implies {
            &&& (#[trigger] nodes@[i]).action == before[i].action
            &&& nodes@[i].parent == before[i].parent
            &&& nodes@[i].children@ == before[i].children@
            &&& nodes@[i].unexplored@ == before[i].unexplored@
        } by {
            assert(popped_tree[i] == before[i]);
        }
    }
}

/// Every node on a path down the tree comes no later in the list than the
/// node the path ends at.
proof fn lemma_path_below(nodes: Seq<MCTSNode>, path: Seq<usize>)
    requires
        tree_shape(nodes),
        path_ok(nodes, path),
    ensures
        forall|j: int| 0 <= j < path.len() ==> #[trigger] path[j] <= path_end(path),
{
    assert forall|k: int| 0 < k < path.len() implies path[k] > #[trigger] path[k - 1] by {
        lemma_path(nodes, path, k);
    }
    lemma_rising_below(path, 0);
}

/// In a rising list every entry from `j` on is at most the last.
proof fn lemma_rising_below(path: Seq<usize>, j: int)
    requires
        forall|k: int| 0 < k < path.len() ==> path[k] > #[trigger] path[k - 1],
        0 <= j,
    ensures
        forall|i: int| j <= i < path.len() ==> #[trigger] path[i] <= path_end(path),
    decreases path.len() - j,
{
    if j < path.len() - 1 {
        lemma_rising_below(path, j + 1);
        assert(path[j + 1] > path[j + 1 - 1]);
    }
}

/// One rollout: selection, expansion, a random playout, and the count of
/// its outcome along the path.
#[verifier::rlimit(60)]
fn run_rollout<F: Fn(&Vec<NodeStats>, u32) -> usize>(
    nodes: &mut Vec<MCTSNode>,
    wins: &mut Vec<u32>,
    visits: &mut Vec<u32>,
    state: &GameState,
    rng: &mut StdRng,
    perspective: PlayerId,
    max_depth: u32,
    select: &F,
    done: u32,
    Ghost(moves): Ghost<Seq<Action>>,
)
    requires
        search_ok(old(nodes)@, old(wins)@, old(visits)@, moves, done as nat),
        search_tally(old(nodes)@, old(visits)@, moves, done as nat),
        moves == state@.legal(),
        done < u32::MAX,
        state@.wf(),
        selects_a_child(*select),
    ensures
        search_ok(final(nodes)@, final(wins)@, final(visits)@, moves, (done + 1) as nat),
        search_tally(final(nodes)@, final(visits)@, moves, (done + 1) as nat),
{
    let ghost nodes0 = nodes@;
    let ghost visits0 = visits@;
    let ghost roots0 = nodes@[0].children@;
    let ghost untried0 = nodes@[0].unexplored@;
    let mut s = state.clone();
    let mut path = select_path(nodes, wins, visits, &mut s, select);
    let ghost path1 = path@;
    proof {
        assert(node_shape(nodes0, 0));
        if path1.len() > 0 {
            assert(selected_step(*select, nodes0, wins@, visits0, state@, path1, 0));
            assert(roots0.contains(path1[0]));
        } else {
            assert(path_moves(nodes0, path1) =~= Seq::<Action>::empty());
        }
    }
    expand(nodes, wins, visits, &mut s, &mut path, Ghost(moves), Ghost(done as nat));
    let ghost nodes2 = nodes@;
    let ghost visits2 = visits@;
    let ghost roots2 = nodes@[0].children@;
    let ghost path2 = path@;
    proof {
        lemma_after_expansion(nodes0, visits0, nodes2, visits2, path1, path2, moves, done as nat);
    }
    simulate(&mut s, rng, max_depth);
    let win = match s.durak() {
        Some(d) => d != perspective,
        None => false,
    };
    backpropagate(nodes, wins, visits, &path, win, done);
    proof {
        let roots = nodes@[0].children@;
        assert(node_shape(nodes@, 0));
        assert forall|j: int| 0 <= j < roots.len() implies visits@[(#[trigger] roots[j]) as int]
            >= 1 by {
            assert(roots[j] < nodes@.len());
            assert(visits@[roots[j] as int] >= visits2[roots[j] as int]);
            if visits2[roots[j] as int] >= 1 {
            } else {
                assert(path@.contains(roots[j]));
                let k = choose|k: int| 0 <= k < path@.len() && path@[k] == roots[j];
                assert(visits@[path@[k] as int] >= 1);
            }
        }
    }
}

/// What holds of the root after selection and expansion, before the
/// rollout is counted.
pub(crate) open spec fn expanded_tally(
    nodes: Seq<MCTSNode>,
    visits: Seq<u32>,
    path: Seq<usize>,
    moves: Seq<Action>,
    done: nat,
) -> bool {
    let untried = nodes[0].unexplored@;
    let roots = nodes[0].children@;
    &&& untried.len() <= moves.len()
    &&& untried == moves.take(untried.len() as int)
    &&& moves.len() > 0 ==> roots.len() >= 1 && path.len() > 0 && roots.contains(path[0])
    &&& moves.no_duplicates() ==> {
        &&& roots.len() + untried.len() == moves.len()
        &&& roots.len() == (if done + 1 <= moves.len() {
            done + 1
        } else {
            moves.len()
        })
        &&& forall|k: int|
            0 <= k < roots.len() ==> nodes[(#[trigger] roots[k]) as int].action == moves[moves.len()
                - 1 - k]
        &&& moves.len() > 0 ==> visits_of(visits, roots) == done
    }
}

/// The step from the tally before a rollout to the tally after its
/// expansion: `before` and `after` are the tree and the visits around the
/// expansion, `chosen` the path that selection took and `grown` the path
/// after the expansion.
proof fn lemma_after_expansion(
    before: Seq<MCTSNode>,
    seen: Seq<u32>,
    after: Seq<MCTSNode>,
    counted: Seq<u32>,
    chosen: Seq<usize>,
    grown: Seq<usize>,
    moves: Seq<Action>,
    done: nat,
)
    requires
        tree_shape(before),
        tree_shape(after),
        seen.len() == before.len(),
        counted.len() == after.len(),
        search_tally(before, seen, moves, done),
        path_ok(before, chosen),
        path_end(chosen) < before.len(),
        chosen.len() > 0 ==> before[0].unexplored@.len() == 0 && before[0].children@.contains(
            chosen[0],
        ),
        chosen.len() == 0 && before[0].unexplored@.len() == 0 ==> moves.len() == 0,
        before[path_end(chosen) as int].unexplored@.len() == 0 ==> after == before && counted
            == seen && grown == chosen,
        before[path_end(chosen) as int].unexplored@.len() > 0 ==> {
            let node = path_end(chosen) as int;
            let untried = before[node].unexplored@;
            let child = path_end(grown) as int;
            &&& grown == chosen.push(child as usize)
            &&& after[node].unexplored@ == untried.drop_last()
            &&& after[node].action == before[node].action
            &&& after[node].children@.contains(child as usize)
            &&& after[child].action == untried.last()
            &&& after[child].parent == node
            &&& counted[child] == 0
            &&& child < before.len() ==> before[node].children@.contains(child as usize)
                && before[child].action == untried.last() && after[node].children@
                == before[node].children@ && after.len() == before.len()
            &&& child >= before.len() ==> child == before.len() && after.len() == before.len() + 1
                && after[node].children@ == before[node].children@.push(child as usize)
            &&& forall|i: int|
                0 <= i < before.len() && i != child ==> #[trigger] counted[i] == seen[i]
            &&& forall|i: int|
                0 <= i < before.len() && i != child && i != node ==> {
                    &&& (#[trigger] after[i]).action == before[i].action
                    &&& after[i].children@ == before[i].children@
                    &&& after[i].unexplored@ == before[i].unexplored@
                }
        },
    ensures
        expanded_tally(after, counted, grown, moves, done),
{
    let node = path_end(chosen) as int;
    let untried0 = before[0].unexplored@;
    let roots0 = before[0].children@;
    let roots2 = after[0].children@;
    let len = moves.len() as int;
    assert(node_shape(before, 0));
    assert(node_shape(after, 0));
    assert(node_shape(before, node));
    if chosen.len() > 0 {
        assert(chosen[chosen.len() - 1] > 0);
    }
    if before[node].unexplored@.len() == 0 {
    } else {
        let untried = before[node].unexplored@;
        let child = path_end(grown) as int;
        assert(grown[grown.len() - 1] == child);
        assert(node_shape(after, node));
        assert(child > node);
        if node == 0 {
            // the root tries one more move
            let m = untried0.len() as int;
            assert(untried0.drop_last() =~= moves.take(m - 1));
            assert(untried0.last() == moves[m - 1]);
            assert(grown[0] == child);
            if moves.no_duplicates() {
                if child < before.len() {
                    let k = choose|k: int| 0 <= k < roots0.len() && roots0[k] == child;
                    assert(before[roots0[k] as int].action == moves[len - 1 - k]);
                    assert(moves[m - 1] != moves[len - 1 - k]);
                }
                assert(roots2 == roots0.push(child as usize));
                assert(roots2.drop_last() == roots0);
                assert forall|k: int| 0 <= k < roots2.len() implies after[(
                #[trigger] roots2[k]) as int].action == moves[len - 1 - k] by {
                    if k < roots0.len() {
                        assert(roots2[k] == roots0[k]);
                        assert(roots0[k] != 0);
                        assert(after[roots0[k] as int].action == before[roots0[k] as int].action);
                    }
                }
                assert forall|k: int| 0 <= k < roots0.len() implies counted[(
                #[trigger] roots0[k]) as int] == seen[roots0[k] as int] by {}
                lemma_visits_of_le(seen, counted, roots0);
                lemma_visits_of_le(counted, seen, roots0);
            }
        } else {
            // a node further down is expanded: the root stays as it is
            assert(after[0].children@ == before[0].children@);
            assert(after[0].unexplored@ == before[0].unexplored@);
            assert(grown[0] == chosen[0]);
            assert(node_shape(after, child));
            assert forall|k: int| 0 <= k < roots0.len() implies (#[trigger] roots0[k]) != child by {
                assert(roots2[k] == roots0[k]);
                assert(after[roots2[k] as int].parent == 0);
            }
            if moves.no_duplicates() {
                assert forall|k: int| 0 <= k < roots2.len() implies after[(
                #[trigger] roots2[k]) as int].action == moves[len - 1 - k] by {
                    assert(roots2[k] == roots0[k]);
                    assert(before[roots0[k] as int].action == moves[len - 1 - k]);
                }
                assert forall|k: int| 0 <= k < roots0.len() implies counted[(
                #[trigger] roots0[k]) as int] == seen[roots0[k] as int] by {}
                lemma_visits_of_le(seen, counted, roots0);
                lemma_visits_of_le(counted, seen, roots0);
            }
        }
    }
}

/// What holds of the moves a search reports after `rollouts` rollouts from
/// a position with the legal moves `moves`. Where there is a legal move
/// and a rollout was made, a move is reported. Where no legal move is
/// listed twice, one more move is reported for each rollout until all are,
/// the last legal move first to be tried, and the visits of the reported
/// moves add up to the rollouts. In every case there are no more moves
/// reported than rollouts or legal moves, and together they were visited
/// no more often than rollouts were made; each is one of
/// `moves`, names no unknown card, was visited, and won no more often than
/// visited; and no move is reported twice.
pub open spec fn search_result(
    list: Seq<RolloutActionResult>,
    moves: Seq<Action>,
    rollouts: nat,
) -> bool {
    &&& rollouts >= 1 && moves.len() > 0 ==> list.len() >= 1
    &&& moves.no_duplicates() ==> {
        &&& list.len() == (if rollouts <= moves.len() {
            rollouts
        } else {
            moves.len()
        })
        &&& moves.len() > 0 ==> visits_total(list) == rollouts
        &&& forall|j: int|
            moves.len() - list.len() <= j < moves.len() ==> reports(list, #[trigger] moves[j])
    }
    &&& list.len() <= rollouts
    &&& list.len() <= moves.len()
    &&& visits_total(list) <= rollouts
    &&& forall|k: int|
        0 <= k < list.len() ==> {
            let e = #[trigger] list[k];
            &&& 1 <= e.visits
            &&& e.wins <= e.visits
            &&& moves.contains(e.action)
            &&& e.action.names_known_card()
        }
    &&& distinct_moves(list)
}

/// The statistics of the root's children, in the order in which they were made.
fn root_results(nodes: &Vec<MCTSNode>, wins: &Vec<u32>, visits: &Vec<u32>) -> (list: Vec<
    RolloutActionResult,
>)
    requires
        tree_shape(nodes@),
        wins@.len() == nodes@.len(),
        visits@.len() == nodes@.len(),
    ensures
        list@.len() == nodes@[0].children@.len(),
        forall|k: int|
            0 <= k < list@.len() ==> #[trigger] list@[k] == (RolloutActionResult {
                action: nodes@[nodes@[0].children@[k] as int].action,
                visits: visits@[nodes@[0].children@[k] as int],
                wins: wins@[nodes@[0].children@[k] as int],
            }),
        visits_total(list@) == visits_of(visits@, nodes@[0].children@),
{
    assert(node_shape(nodes@, 0));
    let ghost roots = nodes@[0].children@;
    let mut list: Vec<RolloutActionResult> = Vec::new();
    let mut k: usize = 0;
    while k < nodes[0].children.len()
        invariant
            0 < nodes.len(),
            wins@.len() == nodes@.len(),
            visits@.len() == nodes@.len(),
            node_shape(nodes@, 0),
            roots == nodes@[0].children@,
            k <= roots.len(),
            list@.len() == k,
            forall|j: int|
                0 <= j < k ==> #[trigger] list@[j] == (RolloutActionResult {
                    action: nodes@[roots[j] as int].action,
                    visits: visits@[roots[j] as int],
                    wins: wins@[roots[j] as int],
                }),
            visits_total(list@) == visits_of(visits@, roots.take(k as int)),
        decreases roots.len() - k,
    {
        let c = nodes[0].children[k];
        let ghost before = list@;
        list.push(RolloutActionResult { action: nodes[c].action, visits: visits[c], wins: wins[c] });
        proof {
            assert(list@.drop_last() == before);
            assert(roots.take(k as int + 1).drop_last() == roots.take(k as int));
        }
        k = k + 1;
    }
    assert(roots.take(k as int) == roots);
    list
}

/// The search with the selection rule handed over by reference.
pub(crate) fn search<F: Fn(&Vec<NodeStats>, u32) -> usize>(
    state: &GameState,
    seed: u64,
    perspective: PlayerId,
    rollouts: u32,
    max_depth: u32,
    select: &F,
) -> (eval: MCTSEvalAll)
    requires
        state@.wf(),
        selects_a_child(*select),
    ensures
        eval.total_rollouts == rollouts,
        search_result(eval.actions@, state@.legal(), rollouts as nat),
        ranked(eval.actions@, true),
{
    let mut rng = seeded_rng(seed);
    let moves = state.legal_actions();
    let ghost legal = moves@;
    let root = MCTSNode { action: Action::Take, parent: 0, children: Vec::new(), unexplored: moves };
    let mut nodes: Vec<MCTSNode> = Vec::new();
    nodes.push(root);
    let mut wins: Vec<u32> = Vec::new();
    wins.push(0);
    let mut visits: Vec<u32> = Vec::new();
    visits.push(0);
    proof {
        assert(node_shape(nodes@, 0));
        assert forall|j: int| 0 <= j < nodes@[0].unexplored@.len() implies legal.contains(
            #[trigger] nodes@[0].unexplored@[j],
        ) by {}
        assert(legal.take(legal.len() as int) == legal);
    }
    let mut done: u32 = 0;
    while done < rollouts
        invariant
            done <= rollouts,
            state@.wf(),
            selects_a_child(*select),
            legal == state@.legal(),
            search_ok(nodes@, wins@, visits@, legal, done as nat),
            search_tally(nodes@, visits@, legal, done as nat),
        decreases rollouts - done,
    {
        run_rollout(
            &mut nodes,
            &mut wins,
            &mut visits,
            state,
            &mut rng,
            perspective,
            max_depth,
            select,
            done,
            Ghost(legal),
        );
        done = done + 1;
    }
    let mut results = root_results(&nodes, &wins, &visits);
    let ghost unranked = results@;
    proof {
        assert(node_shape(nodes@, 0));
        assert forall|k: int| 0 <= k < unranked.len() implies {
            let e = #[trigger] unranked[k];
            &&& 1 <= e.visits
            &&& e.wins <= e.visits
            &&& legal.contains(e.action)
            &&& e.action.names_known_card()
        } by {
            let c = nodes@[0].children@[k];
            assert(node_shape(nodes@, c as int));
        }
        assert forall|i: int, j: int|
            0 <= i < unranked.len() && 0 <= j < unranked.len() && i != j implies (
        #[trigger] unranked[i]).action != (#[trigger] unranked[j]).action by {
            let ci = nodes@[0].children@[i];
            let cj = nodes@[0].children@[j];
            if i < j {
                assert(nodes@[ci as int].action != nodes@[cj as int].action);
            } else {
                assert(nodes@[cj as int].action != nodes@[ci as int].action);
            }
        }
    }
    rank_results(&mut results, true);
    proof {
        if legal.no_duplicates() {
            assert forall|j: int| legal.len() - results@.len() <= j < legal.len() implies reports(
                results@,
                #[trigger] legal[j],
            ) by {
                let k = legal.len() - 1 - j;
                assert(nodes@[nodes@[0].children@[k] as int].action == legal[j]);
                assert(unranked[k].action == legal[j]);
                assert(unranked.contains(unranked[k]));
                vstd::seq_lib::to_multiset_contains(unranked, unranked[k]);
                vstd::seq_lib::to_multiset_contains(results@, unranked[k]);
                let i = choose|i: int| 0 <= i < results@.len() && results@[i] == unranked[k];
                assert(results@[i].action == legal[j]);
            }
        }
        assert forall|k: int| 0 <= k < results@.len() implies {
            let e = #[trigger] results@[k];
            &&& 1 <= e.visits
            &&& e.wins <= e.visits
            &&& legal.contains(e.action)
            &&& e.action.names_known_card()
        } by {
            assert(results@.contains(results@[k]));
            vstd::seq_lib::to_multiset_contains(results@, results@[k]);
            vstd::seq_lib::to_multiset_contains(unranked, results@[k]);
            let i = choose|i: int| 0 <= i < unranked.len() && unranked[i] == results@[k];
            assert(unranked[i] == results@[k]);
        }
    }
    MCTSEvalAll { actions: results, total_rollouts: rollouts }
}

/// Searches the tree of moves from `state`, in which every card must be
/// known, with `rollouts` rollouts of at most `max_depth` random moves each,
/// and reports the moves tried at the root: ranked by visits, the most
/// visited first, and among equally visited moves by score. A rollout counts
/// as won when it ends with a loser other than `perspective`. The rule
/// `select` picks the child to descend to, given the statistics of the
/// children and the visits of their parent.
pub fn mcts_evaluate_actions<F: Fn(&Vec<NodeStats>, u32) -> usize>(
    state: &GameState,
    seed: u64,
    perspective: PlayerId,
    rollouts: u32,
    max_depth: u32,
    select: F,
) -> (eval: MCTSEvalAll)
    requires
        state@.wf(),
        selects_a_child(select),
    ensures
        eval.total_rollouts == rollouts,
        search_result(eval.actions@, state@.legal(), rollouts as nat),
        ranked(eval.actions@, true),
        rollouts == 0 ==> eval.actions@.len() == 0,
{
    search(state, seed, perspective, rollouts, max_depth, &select)
}

} // verus!
