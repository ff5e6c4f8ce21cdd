//! The breadth-first search driver.
//!
//! The search explores the graph of boards reachable from a starting
//! board, in first-in-first-out order, each node carrying the move list
//! that reached it.  Dequeue order guarantees that the first terminal node
//! found carries a shortest winning move list; exhausting the frontier
//! proves that no winning move list exists at all.

use vstd::prelude::*;

use crate::board::{
    apply_move, copy_pairs, count_true, lemma_apply_move_count, lemma_count_true_bounds,
    valid_move, Board,
};
use crate::triangle::{lemma_tri_nonneg, tri};

verus! {

/// A search node: a board together with the moves that reached it from
/// the root.
pub struct Node {
    /// The moves taken from the starting board, in order.
    pub move_list: Vec<(usize, usize)>,
    /// The board those moves produce.
    pub board: Board,
}

impl Node {
    /// Pairs a move list with the board it leads to.
    pub fn new(move_list: Vec<(usize, usize)>, board: Board) -> (n: Node)
        ensures
            n.move_list == move_list,
            n.board == board,
    {
        Node { move_list, board }
    }
}

/// The occupancy obtained by replaying the moves `ms` in order from
/// occupancy `s`.
pub open spec fn replay(s: Seq<bool>, size: int, ms: Seq<(usize, usize)>) -> Seq<bool>
    decreases ms.len(),
{
    if ms.len() == 0 {
        s
    } else {
        replay(apply_move(s, ms[0].0 as int, ms[0].1 as int), size, ms.skip(1))
    }
}

/// Every move of `ms` is legal at its turn when replayed from `s`.
pub open spec fn replay_ok(s: Seq<bool>, size: int, ms: Seq<(usize, usize)>) -> bool
    decreases ms.len(),
{
    if ms.len() == 0 {
        true
    } else {
        valid_move(s, size, ms[0].0 as int, ms[0].1 as int) && replay_ok(
            apply_move(s, ms[0].0 as int, ms[0].1 as int),
            size,
            ms.skip(1),
        )
    }
}

/// A winning move list: legal throughout, and leaving exactly one peg.
pub open spec fn winning(s: Seq<bool>, size: int, ms: Seq<(usize, usize)>) -> bool {
    replay_ok(s, size, ms) && count_true(replay(s, size, ms)) == 1
}

/// `p` is an initial segment of `ms`.
pub open spec fn is_prefix_of(p: Seq<(usize, usize)>, ms: Seq<(usize, usize)>) -> bool {
    p.len() <= ms.len() && p == ms.take(p.len() as int)
}

/// A node consistent with the search from starting occupancy `s0`: its
/// board is well-formed and is exactly the replay of its move list.
pub open spec fn node_ok(n: Node, s0: Seq<bool>, size: usize) -> bool {
    &&& n.board.well_formed()
    &&& n.board.size == size
    &&& replay_ok(s0, size as int, n.move_list@)
    &&& n.board.data@ == replay(s0, size as int, n.move_list@)
}

/// Replaying one more move applies it to the replayed occupancy, and is
/// legal throughout exactly when the prefix was and the new move is legal
/// at its end.
pub proof fn lemma_replay_snoc(s: Seq<bool>, size: int, ms: Seq<(usize, usize)>, m: (usize, usize))
    ensures
        replay(s, size, ms.push(m)) == apply_move(replay(s, size, ms), m.0 as int, m.1 as int),
        replay_ok(s, size, ms.push(m)) <==> (replay_ok(s, size, ms) && valid_move(
            replay(s, size, ms),
            size,
            m.0 as int,
            m.1 as int,
        )),
    decreases ms.len(),
{
    if ms.len() == 0 {
        let s1 = apply_move(s, m.0 as int, m.1 as int);
        assert(ms.push(m)[0] == m);
        assert(ms.push(m).skip(1) =~= ms);
        assert(replay(s, size, ms.push(m)) == replay(s1, size, ms.push(m).skip(1)));
        assert(replay(s1, size, ms) == s1);
        assert(replay_ok(s1, size, ms));
        assert(replay_ok(s, size, ms.push(m)) == (valid_move(s, size, m.0 as int, m.1 as int)
            && replay_ok(s1, size, ms.push(m).skip(1))));
    } else {
        let s1 = apply_move(s, ms[0].0 as int, ms[0].1 as int);
        assert(ms.push(m)[0] == ms[0]);
        assert(ms.push(m).skip(1) =~= ms.skip(1).push(m));
        lemma_replay_snoc(s1, size, ms.skip(1), m);
        assert(replay(s, size, ms.push(m)) == replay(s1, size, ms.skip(1).push(m)));
        assert(replay(s, size, ms) == replay(s1, size, ms.skip(1)));
        assert(replay_ok(s, size, ms.push(m)) == (valid_move(s, size, ms[0].0 as int, ms[0].1
            as int) && replay_ok(s1, size, ms.skip(1).push(m))));
        assert(replay_ok(s, size, ms) == (valid_move(s, size, ms[0].0 as int, ms[0].1 as int)
            && replay_ok(s1, size, ms.skip(1))));
    }
}

/// Each move of a legal replay is legal on the occupancy reached by the
/// moves before it.
pub proof fn lemma_replay_ok_step(s: Seq<bool>, size: int, ms: Seq<(usize, usize)>, k: int)
    requires
        replay_ok(s, size, ms),
        0 <= k < ms.len(),
    ensures
        valid_move(replay(s, size, ms.take(k)), size, ms[k].0 as int, ms[k].1 as int),
    decreases k,
{
    if k == 0 {
        assert(ms.take(0) =~= Seq::<(usize, usize)>::empty());
    } else {
        let s1 = apply_move(s, ms[0].0 as int, ms[0].1 as int);
        lemma_replay_ok_step(s1, size, ms.skip(1), k - 1);
        assert(ms.skip(1).take(k - 1) =~= ms.take(k).skip(1));
        assert(ms.take(k)[0] == ms[0]);
        assert(ms.skip(1)[k - 1] == ms[k]);
    }
}

/// Exponentiation, for the termination measure of the search.
spec fn pow_of(b: int, e: int) -> int
    decreases e,
{
    if e <= 0 {
        1
    } else {
        b * pow_of(b, e - 1)
    }
}

/// The weight of one frontier node: boards with more pegs can spawn
/// exponentially more descendants.
spec fn node_pot(n: Node, size: int) -> int {
    pow_of(6 * tri(size) + 1, n.board.true_count as int)
}

/// The total weight of the unexplored part of the frontier, from index
/// `from` on.
spec fn frontier_pot(fr: Seq<Node>, from: int, size: int) -> int
    decreases fr.len() - from,
{
    if from < 0 || from >= fr.len() {
        0
    } else {
        node_pot(fr[from], size) + frontier_pot(fr, from + 1, size)
    }
}

proof fn lemma_pow_pos(b: int, e: int)
    requires
        b >= 1,
    ensures
        pow_of(b, e) >= 1,
    decreases e,
{
    if e > 0 {
        lemma_pow_pos(b, e - 1);
        assert(b * pow_of(b, e - 1) >= pow_of(b, e - 1)) by (nonlinear_arith)
            requires b >= 1, pow_of(b, e - 1) >= 1;
    }
}

proof fn lemma_frontier_pot_push(fr: Seq<Node>, x: Node, from: int, size: int)
    requires
        0 <= from <= fr.len(),
    ensures
        frontier_pot(fr.push(x), from, size) == frontier_pot(fr, from, size) + node_pot(x, size),
    decreases fr.len() - from,
{
    if from == fr.len() {
        assert(fr.push(x)[from] == x);
        assert(frontier_pot(fr.push(x), from + 1, size) == 0);
        assert(frontier_pot(fr.push(x), from, size) == node_pot(x, size) + frontier_pot(
            fr.push(x),
            from + 1,
            size,
        ));
        assert(frontier_pot(fr, from, size) == 0);
    } else {
        assert(fr.push(x)[from] == fr[from]);
        lemma_frontier_pot_push(fr, x, from + 1, size);
        assert(frontier_pot(fr.push(x), from, size) == node_pot(fr[from], size) + frontier_pot(
            fr.push(x),
            from + 1,
            size,
        ));
        assert(frontier_pot(fr, from, size) == node_pot(fr[from], size) + frontier_pot(
            fr,
            from + 1,
            size,
        ));
    }
}

proof fn lemma_frontier_pot_nonneg(fr: Seq<Node>, from: int, size: int)
    requires
        tri(size) >= 0,
    ensures
        frontier_pot(fr, from, size) >= 0,
    decreases fr.len() - from,
{
    if 0 <= from < fr.len() {
        lemma_pow_pos(6 * tri(size) + 1, fr[from].board.true_count as int);
        lemma_frontier_pot_nonneg(fr, from + 1, size);
    }
}

fn clone_node(n: &Node) -> (r: Node)
    ensures
        r.move_list@ == n.move_list@,
        r.board.size == n.board.size,
        r.board.true_count == n.board.true_count,
        r.board.data@ == n.board.data@,
        n.board.well_formed() ==> r.board.well_formed(),
{
    Node { move_list: copy_pairs(&n.move_list), board: n.board.clone_board() }
}

/// Breadth-first search from `start_board` for a move list that leaves
/// one peg.  If one exists, the search returns a terminal node whose move
/// list is winning and no longer than any winning move list; if none
/// exists, it returns nothing — after exhausting the whole frontier.
#[verifier::loop_isolation(false)]
pub fn search_for_solution(start_board: Board) -> (r: Option<Node>)
    requires
        start_board.well_formed(),
    ensures
        r matches Some(node) ==> ({
            &&& node.board.well_formed()
            &&& node.board.size == start_board.size
            &&& winning(start_board.data@, start_board.size as int, node.move_list@)
            &&& node.board.data@ == replay(
                start_board.data@,
                start_board.size as int,
                node.move_list@,
            )
            &&& node.board.true_count == 1
            &&& forall|ms: Seq<(usize, usize)>|
                #[trigger] winning(start_board.data@, start_board.size as int, ms)
                    ==> node.move_list@.len() <= ms.len()
        }),
        r is None ==> forall|ms: Seq<(usize, usize)>|
            !(#[trigger] winning(start_board.data@, start_board.size as int, ms)),
{
    let ghost s0 = start_board.data@;
    let bsize = start_board.size;
    let mut frontier: Vec<Node> = Vec::new();
    let empty_moves: Vec<(usize, usize)> = Vec::new();
    let root = Node::new(empty_moves, start_board);
    frontier.push(root);
    proof {
        assert(node_ok(frontier@[0], s0, bsize));
        assert forall|ms: Seq<(usize, usize)>|
            #[trigger] winning(s0, bsize as int, ms) implies exists|i: int|
            0 <= i < frontier@.len() && is_prefix_of((#[trigger] frontier@[i]).move_list@, ms) by {
            assert(frontier@[0].move_list@ =~= ms.take(0));
            assert(is_prefix_of(frontier@[0].move_list@, ms));
        }
    }
    let mut head: usize = 0;
    while head < frontier.len()
        invariant
            head as int <= frontier@.len(),
            forall|i: int|
                head as int <= i < frontier@.len() ==> node_ok(#[trigger] frontier@[i], s0, bsize),
            forall|ms: Seq<(usize, usize)>|
                #[trigger] winning(s0, bsize as int, ms) ==> exists|i: int|
                    head as int <= i < frontier@.len() && is_prefix_of(
                        (#[trigger] frontier@[i]).move_list@,
                        ms,
                    ),
            forall|i: int, j: int|
                head as int <= i <= j < frontier@.len() ==> (
                #[trigger] frontier@[i]).move_list@.len() <= (
                #[trigger] frontier@[j]).move_list@.len(),
            forall|i: int|
                head as int <= i < frontier@.len() ==> (#[trigger] frontier@[i]).move_list@.len()
                    <= frontier@[head as int].move_list@.len() + 1,
        decreases frontier_pot(frontier@, head as int, bsize as int),
    {
        let node = clone_node(&frontier[head]);
        proof {
            assert(node_ok(frontier@[head as int], s0, bsize));
            assert(node_ok(node, s0, bsize));
        }
        head = head + 1;
        if node.board.is_terminal() {
            proof {
                assert(count_true(node.board.data@) == 1);
                assert(winning(s0, bsize as int, node.move_list@));
                assert forall|ms: Seq<(usize, usize)>|
                    #[trigger] winning(s0, bsize as int, ms) implies node.move_list@.len()
                    <= ms.len() by {
                    let i = choose|i: int|
                        head as int - 1 <= i < frontier@.len() && is_prefix_of(
                            (#[trigger] frontier@[i]).move_list@,
                            ms,
                        );
                    assert(frontier@[head as int - 1].move_list@.len()
                        <= frontier@[i].move_list@.len());
                }
            }
            return Some(node);
        }
        let actions = node.board.get_actions();
        let ghost pre = frontier@;
        let ghost base_ml = node.move_list@;
        let mut j: usize = 0;
        while j < actions.len()
            invariant
                j as int <= actions@.len(),
                frontier@.len() == pre.len() + j as int,
                forall|i: int| 0 <= i < pre.len() ==> #[trigger] frontier@[i] == pre[i],
                forall|jj: int|
                    0 <= jj < j as int ==> (#[trigger] frontier@[pre.len() + jj]).move_list@
                        == base_ml.push(actions@[jj]) && node_ok(
                        frontier@[pre.len() + jj],
                        s0,
                        bsize,
                    ),
                frontier_pot(frontier@, head as int, bsize as int) == frontier_pot(
                    pre,
                    head as int,
                    bsize as int,
                ) + j as int * pow_of(
                    6 * tri(bsize as int) + 1,
                    node.board.true_count as int - 1,
                ),
            decreases actions@.len() - j as int,
        {
            let a = actions[j];
            proof {
                assert(valid_move(node.board.data@, bsize as int, a.0 as int, a.1 as int));
            }
            let nb = node.board.action(a.0, a.1).unwrap();
            let mut ml = copy_pairs(&node.move_list);
            ml.push(a);
            proof {
                lemma_replay_snoc(s0, bsize as int, base_ml, a);
            }
            let child = Node::new(ml, nb);
            let ghost fr_before = frontier@;
            frontier.push(child);
            proof {
                lemma_frontier_pot_push(fr_before, child, head as int, bsize as int);
                let pw = pow_of(6 * tri(bsize as int) + 1, node.board.true_count as int - 1);
                assert(node_pot(child, bsize as int) == pw);
                assert((j as int + 1) * pw == j as int * pw + pw) by (nonlinear_arith);
            }
            j = j + 1;
        }
        proof {
            // The dequeued node's entry is replaced by its children: every
            // winning move list still has a prefix in the frontier.
            assert forall|ms: Seq<(usize, usize)>|
                #[trigger] winning(s0, bsize as int, ms) implies exists|i: int|
                head as int <= i < frontier@.len() && is_prefix_of(
                    (#[trigger] frontier@[i]).move_list@,
                    ms,
                ) by {
                let i0 = choose|i: int|
                    head as int - 1 <= i < pre.len() && is_prefix_of(
                        (#[trigger] pre[i]).move_list@,
                        ms,
                    );
                if i0 >= head as int {
                    assert(frontier@[i0] == pre[i0]);
                    assert(is_prefix_of((frontier@[i0]).move_list@, ms));
                } else {
                    let k = base_ml.len() as int;
                    assert(pre[i0].move_list@ == base_ml);
                    if k == ms.len() {
                        assert(ms.take(k) =~= ms);
                        assert(count_true(node.board.data@) == 1);
                        assert(false);
                    } else {
                        let m = ms[k];
                        lemma_replay_ok_step(s0, bsize as int, ms, k);
                        assert(valid_move(node.board.data@, bsize as int, m.0 as int, m.1 as int));
                        assert(actions@.contains(m));
                        let jj = choose|jj: int| 0 <= jj < actions@.len() && actions@[jj] == m;
                        assert(frontier@[pre.len() + jj].move_list@ == base_ml.push(m));
                        assert(base_ml.push(m) =~= ms.take(k + 1));
                        assert(is_prefix_of(frontier@[pre.len() + jj].move_list@, ms));
                    }
                }
            }
            assert forall|i: int|
                head as int <= i < frontier@.len() implies node_ok(
                #[trigger] frontier@[i],
                s0,
                bsize,
            ) by {
                if i < pre.len() {
                    assert(frontier@[i] == pre[i]);
                } else {
                    let jj = i - pre.len();
                    assert(node_ok(frontier@[pre.len() + jj], s0, bsize));
                }
            }
            // The queue stays sorted by move-list length, children one
            // longer than the node they came from.
            assert forall|i: int, j2: int|
                head as int <= i <= j2 < frontier@.len() implies (
            #[trigger] frontier@[i]).move_list@.len() <= (
            #[trigger] frontier@[j2]).move_list@.len() by {
                assert(base_ml == pre[head as int - 1].move_list@);
                if j2 < pre.len() {
                    assert(frontier@[i] == pre[i] && frontier@[j2] == pre[j2]);
                } else if i < pre.len() {
                    assert(frontier@[i] == pre[i]);
                    assert(pre[i].move_list@.len() <= base_ml.len() + 1);
                    let jj2 = j2 - pre.len();
                    assert(frontier@[pre.len() + jj2].move_list@ == base_ml.push(actions@[jj2]));
                } else {
                    let jj1 = i - pre.len();
                    let jj2 = j2 - pre.len();
                    assert(frontier@[pre.len() + jj1].move_list@ == base_ml.push(actions@[jj1]));
                    assert(frontier@[pre.len() + jj2].move_list@ == base_ml.push(actions@[jj2]));
                }
            }
            assert forall|i: int|
                head as int <= i < frontier@.len() implies (
            #[trigger] frontier@[i]).move_list@.len() <= frontier@[head as int].move_list@.len()
                + 1 by {
                assert(base_ml == pre[head as int - 1].move_list@);
                if i >= pre.len() {
                    let jj = i - pre.len();
                    assert(frontier@[pre.len() + jj].move_list@ == base_ml.push(actions@[jj]));
                }
                if (head as int) < pre.len() {
                    assert(frontier@[head as int] == pre[head as int]);
                    assert(base_ml.len() <= pre[head as int].move_list@.len());
                    if i < pre.len() {
                        assert(frontier@[i] == pre[i]);
                    }
                } else {
                    let jj0 = 0int;
                    assert(frontier@[pre.len() + jj0].move_list@ == base_ml.push(actions@[jj0]));
                }
            }
            // The explored weight strictly drops: the dequeued node
            // outweighs all the children it spawned.
            let bb = 6 * tri(bsize as int) + 1;
            let c = node.board.true_count as int;
            lemma_tri_nonneg(bsize as int);
            lemma_frontier_pot_nonneg(frontier@, head as int, bsize as int);
            lemma_count_true_bounds(node.board.data@);
            assert(actions@.len() <= bb - 1);
            if actions@.len() == 0 {
                lemma_pow_pos(bb, c);
            } else {
                assert(valid_move(
                    node.board.data@,
                    bsize as int,
                    actions@[0].0 as int,
                    actions@[0].1 as int,
                ));
                lemma_apply_move_count(
                    node.board.data@,
                    bsize as int,
                    actions@[0].0 as int,
                    actions@[0].1 as int,
                );
                assert(c >= 2);
                lemma_pow_pos(bb, c - 1);
                assert(pow_of(bb, c) == bb * pow_of(bb, c - 1));
                assert((actions@.len() as int) * pow_of(bb, c - 1) < bb * pow_of(bb, c - 1))
                    by (nonlinear_arith)
                    requires
                        actions@.len() as int <= bb - 1,
                        pow_of(bb, c - 1) >= 1,
                ;
            }
            assert(frontier_pot(pre, head as int - 1, bsize as int) == node_pot(
                pre[head as int - 1],
                bsize as int,
            ) + frontier_pot(pre, head as int, bsize as int));
            assert(node_pot(pre[head as int - 1], bsize as int) == pow_of(bb, c));
            assert(frontier_pot(frontier@, head as int, bsize as int) < frontier_pot(
                pre,
                head as int - 1,
                bsize as int,
            ));
        }
    }
    proof {
        assert forall|ms: Seq<(usize, usize)>| !(#[trigger] winning(s0, bsize as int, ms)) by {
            if winning(s0, bsize as int, ms) {
                let i = choose|i: int|
                    head as int <= i < frontier@.len() && is_prefix_of(
                        (#[trigger] frontier@[i]).move_list@,
                        ms,
                    );
                assert(false);
            }
        }
    }
    None
}

} // verus!
