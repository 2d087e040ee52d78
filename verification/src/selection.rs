//! How the search picks its way down the tree.
//!
//! At a node every legal direction gets a rank. A direction that has no
//! child yet, or whose child or node was never visited, is unvisited and
//! ranks above every rated direction. The other directions are rated by the
//! scoring function of the search, which gets the rewards and the visits of
//! the child and the visits of the node. The direction taken is the first
//! of the highest rank.

use crate::board::{direction_of, is_move, Move};
use crate::grid::{allows, flag, moved, Grid};
use crate::node::{is_childless, node_ok, tree_ok, Node, ABSENT};
use vstd::prelude::*;

verus! {

/// The rank of a direction at a node.
#[derive(Debug, PartialEq, Eq, Structural, Clone, Copy)]
pub enum Rank {
    /// The score that the scoring function gave.
    Rated(u64),
    /// Not visited yet: above every score.
    Unvisited,
}

/// `a` ranks strictly above `b`.
pub open spec fn outranks(a: Rank, b: Rank) -> bool {
    match (a, b) {
        (Rank::Unvisited, Rank::Rated(_)) => true,
        (Rank::Rated(x), Rank::Rated(y)) => x > y,
        _ => false,
    }
}

impl Rank {
    /// Whether this rank is strictly above `other`.
    pub fn beats(self, other: Rank) -> (above: bool)
        ensures
            above == outranks(self, other),
    {
        match (self, other) {
            (Rank::Unvisited, Rank::Rated(_)) => true,
            (Rank::Rated(x), Rank::Rated(y)) => x > y,
            _ => false,
        }
    }
}

/// The scoring function can rate every child that was visited from a node
/// that was visited.
pub open spec fn scorer_ok<F: Fn(u128, u32, u32) -> u64>(f: F) -> bool {
    forall|rewards: u128, visits: u32, parent_visits: u32|
        visits > 0 && parent_visits > 0 ==> call_requires(f, (rewards, visits, parent_visits))
}

/// What the scoring function is asked for direction `d` at node `at`: the
/// rewards and visits of the child and the visits of the node. Nothing if
/// the direction is unvisited.
pub open spec fn rated_on(nodes: Seq<Node>, at: int, d: int) -> Option<(u128, u32, u32)> {
    let child = nodes[at].children_indices[d];
    if child == ABSENT || nodes[at].visits == 0 || nodes[child as int].visits == 0 {
        None
    } else {
        Some((nodes[child as int].rewards, nodes[child as int].visits, nodes[at].visits))
    }
}

/// `rank` is a rank of direction `d` at node `at`: unvisited where the
/// direction is, and else a score that the scoring function gives.
pub open spec fn is_rank<F: Fn(u128, u32, u32) -> u64>(
    f: F,
    nodes: Seq<Node>,
    at: int,
    d: int,
    rank: Rank,
) -> bool {
    match rated_on(nodes, at, d) {
        None => rank == Rank::Unvisited,
        Some(asked) => rank matches Rank::Rated(score) && call_ensures(f, asked, score),
    }
}

/// Among the directions of `mask`, `d` is the first of the highest rank.
pub open spec fn is_first_best(mask: Move, ranks: Seq<Rank>, d: int) -> bool {
    &&& 0 <= d < 4
    &&& allows(mask, d)
    &&& forall|e: int|
        0 <= e < 4 && allows(mask, e) ==> !outranks(#[trigger] ranks[e], ranks[d]) && (e < d
            ==> outranks(ranks[d], ranks[e]))
}

/// Selection takes direction `d` at node `at`: with some ranks of the legal
/// directions, it is the first of the highest rank.
pub open spec fn selects<F: Fn(u128, u32, u32) -> u64>(
    f: F,
    nodes: Seq<Node>,
    at: int,
    d: int,
) -> bool {
    exists|ranks: Seq<Rank>|
        {
            &&& ranks.len() == 4
            &&& forall|e: int|
                0 <= e < 4 && allows(nodes[at].moves, e) ==> is_rank(
                    f,
                    nodes,
                    at,
                    e,
                    #[trigger] ranks[e],
                )
            &&& #[trigger] is_first_best(nodes[at].moves, ranks, d)
        }
}

/// One step down: selection at node `from` takes a direction whose child
/// is `to`, and the move in that direction turns `before` into `after`.
pub open spec fn steps_down<F: Fn(u128, u32, u32) -> u64>(
    f: F,
    nodes: Seq<Node>,
    from: int,
    to: int,
    before: Grid,
    after: Grid,
) -> bool {
    exists|d: int|
        {
            &&& #[trigger] selects(f, nodes, from, d)
            &&& nodes[from].children_indices[d] == to
            &&& to != ABSENT
            &&& after == moved(before, d)
        }
}

/// The node that follows the `i`-th node of the path: the next of the path,
/// or `end` behind the last.
pub open spec fn node_after(path: Seq<usize>, end: int, i: int) -> int {
    if i + 1 < path.len() {
        path[i + 1] as int
    } else {
        end
    }
}

/// The grid that follows the `i`-th snapshot: the next snapshot, or
/// `cursor` behind the last.
pub open spec fn grid_after(snapshots: Seq<Grid>, cursor: Grid, i: int) -> Grid {
    if i + 1 < snapshots.len() {
        snapshots[i + 1]
    } else {
        cursor
    }
}

/// The path leads from the root down to `end`, one step of selection at a
/// time, and the snapshots and the cursor follow it from the grid `root`.
pub open spec fn is_descent<F: Fn(u128, u32, u32) -> u64>(
    f: F,
    nodes: Seq<Node>,
    path: Seq<usize>,
    snapshots: Seq<Grid>,
    root: Grid,
    cursor: Grid,
    end: int,
) -> bool {
    &&& snapshots.len() == path.len()
    &&& 0 <= end < nodes.len()
    &&& if path.len() == 0 {
        end == 0 && cursor == root
    } else {
        path[0] == 0 && snapshots[0] == root
    }
    &&& forall|i: int|
        0 <= i < path.len() ==> {
            &&& 0 <= #[trigger] path[i] < nodes.len()
            &&& nodes[path[i] as int].moves != 0
            &&& steps_down(
                f,
                nodes,
                path[i] as int,
                node_after(path, end, i),
                snapshots[i],
                grid_after(snapshots, cursor, i),
            )
        }
}

/// A descent goes on by one step of selection from its end.
pub proof fn lemma_descent_goes_on<F: Fn(u128, u32, u32) -> u64>(
    f: F,
    nodes: Seq<Node>,
    path: Seq<usize>,
    snapshots: Seq<Grid>,
    root: Grid,
    cursor: Grid,
    end: usize,
    d: int,
)
    requires
        is_descent(f, nodes, path, snapshots, root, cursor, end as int),
        nodes[end as int].moves != 0,
        selects(f, nodes, end as int, d),
        nodes[end as int].children_indices[d] != ABSENT,
        nodes[end as int].children_indices[d] < nodes.len(),
    ensures
        is_descent(
            f,
            nodes,
            path.push(end),
            snapshots.push(cursor),
            root,
            moved(cursor, d),
            nodes[end as int].children_indices[d] as int,
        ),
{
    let next = nodes[end as int].children_indices[d] as int;
    let after = moved(cursor, d);
    let longer = path.push(end);
    let more = snapshots.push(cursor);
    assert(steps_down(f, nodes, end as int, next, cursor, after));
    assert forall|i: int| 0 <= i < longer.len() implies {
        &&& 0 <= #[trigger] longer[i] < nodes.len()
        &&& nodes[longer[i] as int].moves != 0
        &&& steps_down(
            f,
            nodes,
            longer[i] as int,
            node_after(longer, next, i),
            more[i],
            grid_after(more, after, i),
        )
    } by {
        if i < path.len() {
            assert(longer[i] == path[i]);
            assert(node_after(longer, next, i) == node_after(path, end as int, i));
            assert(grid_after(more, after, i) == grid_after(snapshots, cursor, i));
        }
    }
}

/// From a root without a child a descent does not step down: its path is
/// empty and the cursor has not moved.
pub proof fn lemma_descent_from_childless_root<F: Fn(u128, u32, u32) -> u64>(
    f: F,
    nodes: Seq<Node>,
    path: Seq<usize>,
    snapshots: Seq<Grid>,
    root: Grid,
    cursor: Grid,
    end: int,
)
    requires
        is_childless(nodes, 0),
        is_descent(f, nodes, path, snapshots, root, cursor, end),
    ensures
        path.len() == 0,
        end == 0,
        cursor == root,
{
    if path.len() > 0 {
        let to = node_after(path, end, 0);
        let after = grid_after(snapshots, cursor, 0);
        assert(steps_down(f, nodes, path[0] as int, to, snapshots[0], after));
        let d = choose|d: int|
            {
                &&& #[trigger] selects(f, nodes, 0, d)
                &&& nodes[0].children_indices[d] == to
                &&& to != ABSENT
                &&& grid_after(snapshots, cursor, 0) == moved(snapshots[0], d)
            };
        assert(0 <= d < 4);
        assert(nodes[0].children_indices[d] == ABSENT);
    }
}

/// The root of a tree that holds the root alone has no child.
pub proof fn lemma_lone_root_is_childless(nodes: Seq<Node>)
    requires
        tree_ok(nodes),
        nodes.len() == 1,
    ensures
        is_childless(nodes, 0),
{
    assert(node_ok(nodes[0], 0, 1));
}

/// A node at which selection takes a direction without a child has a
/// direction to explore.
pub proof fn lemma_selected_is_to_explore<F: Fn(u128, u32, u32) -> u64>(
    f: F,
    nodes: Seq<Node>,
    at: int,
    d: int,
)
    requires
        tree_ok(nodes),
        0 <= at < nodes.len(),
        selects(f, nodes, at, d),
        nodes[at].children_indices[d] == ABSENT,
    ensures
        directions(nodes[at].moves_to_explore).len() > 0,
{
    assert(node_ok(nodes[at], at, nodes.len() as int));
    lemma_directions(nodes[at].moves_to_explore, 4);
}

/// The directions of a mask among the first `n`, in order.
pub open spec fn directions_upto(mask: Move, n: nat) -> Seq<int>
    decreases n,
{
    if n == 0 {
        Seq::empty()
    } else if allows(mask, n - 1) {
        directions_upto(mask, (n - 1) as nat).push(n - 1)
    } else {
        directions_upto(mask, (n - 1) as nat)
    }
}

/// The directions of a mask, in order.
pub open spec fn directions(mask: Move) -> Seq<int> {
    directions_upto(mask, 4)
}

/// The directions of a mask are directions that the mask allows, and a
/// direction that the mask allows is among them.
pub proof fn lemma_directions(mask: Move, n: nat)
    requires
        n <= 4,
    ensures
        directions_upto(mask, n).len() <= n,
        forall|i: int|
            0 <= i < directions_upto(mask, n).len() ==> 0 <= #[trigger] directions_upto(mask, n)[i]
                < n && allows(mask, directions_upto(mask, n)[i]),
        forall|d: int| 0 <= d < n && allows(mask, d) ==> directions_upto(mask, n).len() > 0,
    decreases n,
{
    if n > 0 {
        lemma_directions(mask, (n - 1) as nat);
    }
}

/// The flag of a direction: a single bit.
pub fn flag_of(d: usize) -> (mv: Move)
    requires
        d < 4,
    ensures
        mv == flag(d as int),
        is_move(mv),
        direction_of(mv) == d,
{
    let shift: u8 = d as u8;
    assert(shift < 4 ==> 1u8 << shift == (if shift == 0 {
        1u8
    } else if shift == 1 {
        2u8
    } else if shift == 2 {
        4u8
    } else {
        8u8
    })) by (bit_vector);
    1u8 << shift
}

/// Whether a mask holds the flag of direction `d`.
pub fn has_direction(mask: Move, d: usize) -> (held: bool)
    requires
        d < 4,
    ensures
        held == allows(mask, d as int),
{
    mask & flag_of(d) != 0
}

/// The directions of a mask, in order.
pub fn directions_of(mask: Move) -> (list: Vec<usize>)
    ensures
        list@.len() == directions(mask).len(),
        forall|i: int| 0 <= i < list@.len() ==> #[trigger] list@[i] == directions(mask)[i],
        forall|i: int|
            0 <= i < list@.len() ==> #[trigger] list@[i] < 4 && allows(mask, list@[i] as int),
{
    let mut list: Vec<usize> = Vec::new();
    let mut d: usize = 0;
    while d < 4
        invariant
            d <= 4,
            list@.len() == directions_upto(mask, d as nat).len(),
            forall|i: int|
                0 <= i < list@.len() ==> #[trigger] list@[i] == directions_upto(mask, d as nat)[i],
            forall|i: int|
                0 <= i < list@.len() ==> #[trigger] list@[i] < 4 && allows(mask, list@[i] as int),
        decreases 4 - d,
    {
        if has_direction(mask, d) {
            list.push(d);
        }
        d = d + 1;
    }
    list
}

} // verus!
