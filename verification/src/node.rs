//! The nodes of the search tree.
//!
//! The tree is a list of nodes. A node names its children by their place in
//! the list, so a child always stands behind its parent.

use crate::board::{Board, GameState, Move};
use crate::grid::{allows, flag, is_grid, legal_mask, lemma_legal_mask, Grid};
use crate::line::MoveTable;
use crate::selection::flag_of;
use vstd::prelude::*;

verus! {

/// Stands in a child slot that holds no child.
pub const ABSENT: usize = usize::MAX;

/// The greatest score that a grid can have: sixteen tiles of exponent 31.
pub const MAX_REWARD: u64 = 0x8_0000_0000;

/// One position of the search tree and what the search has learned of it.
#[derive(Debug)]
pub struct Node {
    /// Lost if the position has no legal move.
    pub state: GameState,
    /// The legal moves of the position.
    pub moves: Move,
    /// The legal moves that have no child yet.
    pub moves_to_explore: Move,
    /// How often the search went on from this node to one of its children.
    pub visits: u32,
    /// The sum of the rewards of those visits.
    pub rewards: u128,
    /// For each direction the place of the child in the tree, or `ABSENT`.
    pub children_indices: [usize; 4],
}

/// The node is what `Node::new` makes of a board that holds `g`.
pub open spec fn is_fresh(node: Node, g: Grid) -> bool {
    &&& node.moves == legal_mask(g)
    &&& node.moves_to_explore == legal_mask(g)
    &&& node.state == if legal_mask(g) == 0 {
        GameState::Lost
    } else {
        GameState::OnGoing
    }
    &&& node.visits == 0
    &&& node.rewards == 0
    &&& forall|d: int| 0 <= d < 4 ==> #[trigger] node.children_indices[d] == ABSENT
}

/// The node at place `at` of a tree of `len` nodes is sound: it is lost
/// exactly when it has no move, a move is still to explore exactly when it
/// is legal and has no child, each child stands behind the node and in a
/// legal direction, and the rewards are those of at most `visits` rollouts.
pub open spec fn node_ok(node: Node, at: int, len: int) -> bool {
    &&& node.moves < 16
    &&& node.moves_to_explore < 16
    &&& node.state == GameState::Lost <==> node.moves == 0
    &&& forall|d: int|
        0 <= d < 4 ==> {
            let child = #[trigger] node.children_indices[d];
            &&& child == ABSENT || at < child < len
            &&& child != ABSENT ==> allows(node.moves, d)
            &&& allows(node.moves_to_explore, d) <==> allows(node.moves, d) && child == ABSENT
        }
    &&& node.rewards <= node.visits * MAX_REWARD
}

/// Every node of the tree is sound, and the tree has a root.
pub open spec fn tree_ok(nodes: Seq<Node>) -> bool {
    &&& nodes.len() >= 1
    &&& forall|i: int| 0 <= i < nodes.len() ==> node_ok(#[trigger] nodes[i], i, nodes.len() as int)
}

/// The node after its child in direction `d` was made at place `child`:
/// the direction is no longer to explore, and nothing else has changed.
pub open spec fn is_parent_of_new(before: Node, after: Node, d: int, child: usize) -> bool {
    &&& after.state == before.state
    &&& after.moves == before.moves
    &&& after.moves_to_explore == before.moves_to_explore & !flag(d)
    &&& after.visits == before.visits
    &&& after.rewards == before.rewards
    &&& forall|e: int|
        0 <= e < 4 ==> #[trigger] after.children_indices[e] == if e == d {
            child
        } else {
            before.children_indices[e]
        }
}

/// The tree after node `at` was expanded in direction `d`: a fresh node of
/// the grid `g` stands at the end as that child, and no other node has
/// changed.
pub open spec fn is_expansion(
    before: Seq<Node>,
    after: Seq<Node>,
    at: int,
    d: int,
    g: Grid,
) -> bool {
    &&& after.len() == before.len() + 1
    &&& is_fresh(after[before.len() as int], g)
    &&& is_parent_of_new(before[at], after[at], d, before.len() as usize)
    &&& forall|i: int| 0 <= i < before.len() && i != at ==> #[trigger] after[i] == before[i]
}

/// The node after one more visit that brought `reward`.
pub open spec fn credited(node: Node, reward: u64) -> Node {
    Node { visits: (node.visits + 1) as u32, rewards: (node.rewards + reward) as u128, ..node }
}

/// Node `i` is on the path at place `from` or behind it.
pub open spec fn on_path(path: Seq<usize>, from: int, i: int) -> bool {
    exists|j: int| from <= j < path.len() && #[trigger] path[j] == i
}

/// Direction `d` is legal at the root and has a child.
pub open spec fn is_grown(nodes: Seq<Node>, d: int) -> bool {
    allows(nodes[0].moves, d) && nodes[0].children_indices[d] != ABSENT
}

/// The tree `after` is the tree `before` and one node more, which is the
/// child of node `at` in a direction that the node had to explore.
pub open spec fn has_new_child(after: Seq<Node>, before: Seq<Node>, at: int) -> bool {
    &&& after.len() == before.len() + 1
    &&& exists|d: int|
        0 <= d < 4 && allows(before[at].moves_to_explore, d)
            && #[trigger] after[at].children_indices[d] == before.len()
}

/// The root has a child in a legal direction.
pub open spec fn has_grown(nodes: Seq<Node>) -> bool {
    exists|d: int| 0 <= d < 4 && #[trigger] is_grown(nodes, d)
}

/// Node `at` has no child.
pub open spec fn is_childless(nodes: Seq<Node>, at: int) -> bool {
    forall|d: int| 0 <= d < 4 ==> #[trigger] nodes[at].children_indices[d] == ABSENT
}

/// Every node of the tree has a legal move.
pub open spec fn has_no_lost_node(nodes: Seq<Node>) -> bool {
    forall|i: int| 0 <= i < nodes.len() ==> (#[trigger] nodes[i]).moves != 0
}

/// The rewards of the child of the root in direction `d`.
pub open spec fn child_rewards(nodes: Seq<Node>, d: int) -> u128 {
    nodes[nodes[0].children_indices[d] as int].rewards
}

/// Among the directions that are legal at the root and have a child, `d` is
/// the first whose child has the greatest rewards.
pub open spec fn is_best_child(nodes: Seq<Node>, d: int) -> bool {
    &&& 0 <= d < 4
    &&& is_grown(nodes, d)
    &&& forall|e: int|
        0 <= e < 4 && #[trigger] is_grown(nodes, e) ==> child_rewards(nodes, e) <= child_rewards(
            nodes,
            d,
        ) && (e < d ==> child_rewards(nodes, e) < child_rewards(nodes, d))
}

/// Taking the flag of direction `d` out of a mask leaves the other
/// directions as they are.
pub proof fn lemma_flag_taken(mask: Move, d: int)
    requires
        0 <= d < 4,
    ensures
        mask & !flag(d) <= mask,
        forall|e: int|
            0 <= e < 4 ==> (#[trigger] allows(mask & !flag(d), e) <==> allows(mask, e) && e != d),
{
    let f = flag(d);
    assert(mask & !f <= mask) by (bit_vector);
    assert forall|e: int| 0 <= e < 4 implies (#[trigger] allows(mask & !flag(d), e) <==> allows(
        mask,
        e,
    ) && e != d) by {
        let g = flag(e);
        assert((f == 1 || f == 2 || f == 4 || f == 8) && (g == 1 || g == 2 || g == 4 || g == 8)
            ==> (((mask & !f) & g != 0) <==> (mask & g != 0) && f != g)) by (bit_vector);
    }
}

/// An expansion of a sound tree in a direction that the node had to explore
/// gives a sound tree, with the visits and the moves of every old node as
/// they were.
pub proof fn lemma_expansion(before: Seq<Node>, after: Seq<Node>, at: int, d: int, g: Grid)
    requires
        tree_ok(before),
        is_expansion(before, after, at, d, g),
        0 <= at < before.len(),
        0 <= d < 4,
        before.len() + 1 < ABSENT,
        allows(before[at].moves_to_explore, d),
    ensures
        tree_ok(after),
        forall|i: int|
            0 <= i < before.len() ==> (#[trigger] after[i]).visits == before[i].visits
                && after[i].moves == before[i].moves,
        after[before.len() as int].visits == 0,
        allows(after[at].moves, d),
        after[at].children_indices[d] != ABSENT,
{
    lemma_flag_taken(before[at].moves_to_explore, d);
    lemma_legal_mask(g);
    assert(node_ok(before[at], at, before.len() as int));
    assert(before[at].children_indices[d] == ABSENT && allows(before[at].moves, d));
    assert(after[at].children_indices[d] == before.len());
    assert forall|i: int| 0 <= i < after.len() implies node_ok(
        #[trigger] after[i],
        i,
        after.len() as int,
    ) by {
        if i < before.len() {
            assert(node_ok(before[i], i, before.len() as int));
            if i == at {
                assert forall|e: int| 0 <= e < 4 implies {
                    let child = #[trigger] after[i].children_indices[e];
                    &&& child == ABSENT || i < child < after.len()
                    &&& child != ABSENT ==> allows(after[i].moves, e)
                    &&& allows(after[i].moves_to_explore, e) <==> allows(after[i].moves, e)
                        && child == ABSENT
                } by {
                    let was = before[i].children_indices[e];
                    assert(was == ABSENT || i < was < before.len());
                }
            }
        }
    }
}

/// The tree `after` has grown from the tree `before`: every node of
/// `before` is still at its place, with its state, its moves and the
/// children that it had; it has no new direction to explore, and no fewer
/// visits or rewards.
pub open spec fn has_grown_from(after: Seq<Node>, before: Seq<Node>) -> bool {
    &&& before.len() <= after.len()
    &&& forall|i: int|
        0 <= i < before.len() ==> {
            &&& (#[trigger] after[i]).state == before[i].state
            &&& after[i].moves == before[i].moves
            &&& after[i].visits >= before[i].visits
            &&& after[i].rewards >= before[i].rewards
            &&& forall|d: int|
                0 <= d < 4 && before[i].children_indices[d] != ABSENT
                    ==> #[trigger] after[i].children_indices[d] == before[i].children_indices[d]
            &&& forall|d: int|
                0 <= d < 4 && #[trigger] allows(after[i].moves_to_explore, d) ==> allows(
                    before[i].moves_to_explore,
                    d,
                )
        }
}

/// A tree that has grown from a tree that has grown from a third has grown
/// from the third.
pub proof fn lemma_growth_goes_on(first: Seq<Node>, second: Seq<Node>, third: Seq<Node>)
    requires
        has_grown_from(second, first),
        has_grown_from(third, second),
    ensures
        has_grown_from(third, first),
{
    assert forall|i: int| 0 <= i < first.len() implies {
        &&& (#[trigger] third[i]).state == first[i].state
        &&& third[i].moves == first[i].moves
        &&& third[i].visits >= first[i].visits
        &&& third[i].rewards >= first[i].rewards
        &&& forall|d: int|
            0 <= d < 4 && first[i].children_indices[d] != ABSENT
                ==> #[trigger] third[i].children_indices[d] == first[i].children_indices[d]
        &&& forall|d: int|
            0 <= d < 4 && #[trigger] allows(third[i].moves_to_explore, d) ==> allows(
                first[i].moves_to_explore,
                d,
            )
    } by {
        assert(second[i].state == first[i].state);
        assert forall|d: int|
            0 <= d < 4 && first[i].children_indices[d] != ABSENT implies
            #[trigger] third[i].children_indices[d] == first[i].children_indices[d] by {
            assert(second[i].children_indices[d] == first[i].children_indices[d]);
        }
        assert forall|d: int|
            0 <= d < 4 && #[trigger] allows(third[i].moves_to_explore, d) implies allows(
            first[i].moves_to_explore,
            d,
        ) by {
            assert(allows(second[i].moves_to_explore, d));
        }
    }
}

/// A root of a sound tree has a child in a legal direction or none at all.
pub proof fn lemma_root_without_child(nodes: Seq<Node>)
    requires
        tree_ok(nodes),
    ensures
        has_grown(nodes) || is_childless(nodes, 0),
{
    if !has_grown(nodes) {
        assert(node_ok(nodes[0], 0, nodes.len() as int));
        assert forall|d: int| 0 <= d < 4 implies #[trigger] nodes[0].children_indices[d]
            == ABSENT by {
            if nodes[0].children_indices[d] != ABSENT {
                assert(is_grown(nodes, d));
            }
        }
    }
}

/// A root that got a new child has a child in a legal direction.
pub proof fn lemma_new_child_of_root(before: Seq<Node>, after: Seq<Node>)
    requires
        tree_ok(before),
        before.len() + 1 < ABSENT,
        has_grown_from(after, before),
        has_new_child(after, before, 0),
    ensures
        has_grown(after),
{
    let d = choose|d: int|
        0 <= d < 4 && allows(before[0].moves_to_explore, d)
            && #[trigger] after[0].children_indices[d] == before.len();
    assert(node_ok(before[0], 0, before.len() as int));
    assert(before[0].children_indices[d] == ABSENT);
    assert(after[0].moves == before[0].moves);
    assert(is_grown(after, d));
}

/// A root that has a child keeps it while the tree grows.
pub proof fn lemma_growth_keeps_child(before: Seq<Node>, after: Seq<Node>)
    requires
        before.len() >= 1,
        has_grown_from(after, before),
        has_grown(before),
    ensures
        has_grown(after),
{
    let d = choose|d: int| 0 <= d < 4 && #[trigger] is_grown(before, d);
    assert(after[0].moves == before[0].moves);
    assert(after[0].children_indices[d] == before[0].children_indices[d]);
    assert(is_grown(after, d));
}

/// A sound tree that was expanded has grown from the tree before.
pub proof fn lemma_expansion_grows(before: Seq<Node>, after: Seq<Node>, at: int, d: int, g: Grid)
    requires
        tree_ok(before),
        is_expansion(before, after, at, d, g),
        0 <= at < before.len(),
        0 <= d < 4,
        allows(before[at].moves_to_explore, d),
    ensures
        has_grown_from(after, before),
{
    lemma_flag_taken(before[at].moves_to_explore, d);
    assert(node_ok(before[at], at, before.len() as int));
}

/// Puts a node at the end of the tree, as the child of node `at` in
/// direction `shift`, which is then no longer to explore.
pub(crate) fn attach(tree: &mut Vec<Node>, at: usize, shift: usize, fresh: Node)
    requires
        at < old(tree)@.len(),
        shift < 4,
    ensures
        final(tree)@.len() == old(tree)@.len() + 1,
        final(tree)@[old(tree)@.len() as int] == fresh,
        is_parent_of_new(
            old(tree)@[at as int],
            final(tree)@[at as int],
            shift as int,
            old(tree)@.len() as usize,
        ),
        forall|i: int|
            0 <= i < old(tree)@.len() && i != at ==> #[trigger] final(tree)@[i] == old(tree)@[i],
{
    let mask: Move = flag_of(shift);
    let child: usize = tree.len();
    tree.push(fresh);
    tree[at].moves_to_explore = tree[at].moves_to_explore & !mask;
    tree[at].children_indices[shift] = child;
}

impl Node {
    /// The node of the position that `board` holds: no visit and no child
    /// yet, every legal move still to explore.
    pub fn new(board: &Board, table: &MoveTable) -> (node: Node)
        ensures
            is_fresh(node, board@),
            is_grid(board@),
    {
        let legal_moves: Move = board.get_legal_moves(table);
        Node {
            state: board.get_game_state(table),
            moves: legal_moves,
            moves_to_explore: legal_moves,
            visits: 0,
            rewards: 0,
            children_indices: [ABSENT, ABSENT, ABSENT, ABSENT],
        }
    }
}

} // verus!
