use vstd::prelude::*;
use crate::controllers::game_tree::GameTree;

verus! {

/// The scores never rise along the list.
pub open spec fn ordered(children: Seq<GameTree>) -> bool {
    forall|i: int, j: int|
        0 <= i < j < children.len()
            ==> (#[trigger] children[i]).score >= (#[trigger] children[j]).score
}

/// `new` holds the nodes of `old` in another order: the node at place `k`
/// of `new` is the node at place `order[k]` of `old`, and every place of
/// `old` is named once.
pub open spec fn is_rearrangement(new: Seq<GameTree>, old: Seq<GameTree>, order: Seq<int>) -> bool {
    &&& new.len() == old.len()
    &&& order.len() == old.len()
    &&& forall|k: int|
        0 <= k < new.len() ==> 0 <= #[trigger] order[k] < old.len() && new[k] == old[order[k]]
    &&& forall|a: int, b: int|
        0 <= a < b < order.len() ==> #[trigger] order[a] != #[trigger] order[b]
    &&& forall|j: int| 0 <= j < old.len() ==> #[trigger] names(order, j)
}

/// The node at place `i` scores best, and no node before it scores as much.
pub open spec fn first_best(nodes: Seq<GameTree>, i: int) -> bool {
    &&& 0 <= i < nodes.len()
    &&& forall|j: int| 0 <= j < nodes.len() ==> (#[trigger] nodes[j]).score <= nodes[i].score
    &&& forall|j: int| 0 <= j < i ==> (#[trigger] nodes[j]).score < nodes[i].score
}

/// Some entry of `origin` is `j`.
pub open spec fn names(origin: Seq<int>, j: int) -> bool {
    exists|k: int| 0 <= k < origin.len() && #[trigger] origin[k] == j
}

/// Two places change places in a rearrangement.
pub proof fn lemma_rearrangement_swap(
    now: Seq<GameTree>,
    old: Seq<GameTree>,
    order: Seq<int>,
    i: int,
    j: int,
)
    requires
        is_rearrangement(now, old, order),
        0 <= i < now.len(),
        0 <= j < now.len(),
    ensures
        is_rearrangement(
            now.update(i, now[j]).update(j, now[i]),
            old,
            order.update(i, order[j]).update(j, order[i]),
        ),
{
    let next = now.update(i, now[j]).update(j, now[i]);
    let order2 = order.update(i, order[j]).update(j, order[i]);
    assert forall|k: int| 0 <= k < old.len() implies #[trigger] names(order2, k) by {
        assert(names(order, k));
        let a = choose|a: int| 0 <= a < order.len() && #[trigger] order[a] == k;
        if a == i {
            assert(order2[j] == k);
        } else if a == j {
            assert(order2[i] == k);
        } else {
            assert(order2[a] == k);
        }
    }
    assert forall|a: int, b: int| 0 <= a < b < order2.len() implies #[trigger] order2[a]
        != #[trigger] order2[b] by {
        let a0 = if a == i {
            j
        } else if a == j {
            i
        } else {
            a
        };
        let b0 = if b == i {
            j
        } else if b == j {
            i
        } else {
            b
        };
        assert(order2[a] == order[a0]);
        assert(order2[b] == order[b0]);
        if a0 < b0 {
            assert(order[a0] != order[b0]);
        } else {
            assert(order[b0] != order[a0]);
        }
    }
}

/// `<[T]>::swap` of std on the nodes of the list. Trusted: the nodes at
/// the two places change places and nothing else changes; the call panics
/// on a place outside the list, which the precondition leaves out.
#[verifier::external_body]
fn swap_nodes(nodes: &mut Vec<GameTree>, i: usize, j: usize)
    requires
        i < old(nodes)@.len(),
        j < old(nodes)@.len(),
    ensures
        final(nodes)@ == old(nodes)@.update(i as int, old(nodes)@[j as int]).update(
            j as int,
            old(nodes)@[i as int],
        ),
{
    nodes.swap(i, j);
}

/// Puts the nodes in the order of their scores, the best first; of nodes
/// that score the same, the first stays before the others at the front.
pub(crate) fn sort_by_score(nodes: &mut Vec<GameTree>) -> (order: Ghost<Seq<int>>)
    ensures
        ordered(final(nodes)@),
        is_rearrangement(final(nodes)@, old(nodes)@, order@),
        old(nodes)@.len() > 0 ==> first_best(old(nodes)@, order@[0]),
{
    let ghost start = nodes@;
    let ghost mut order: Seq<int> = Seq::new(nodes@.len(), |k: int| k);
    let n = nodes.len();
    proof {
        assert forall|j: int| 0 <= j < start.len() implies #[trigger] names(order, j) by {
            assert(order[j] == j);
        }
    }
    let mut pos: usize = 0;
    while pos < n
        invariant
            0 <= pos <= n,
            n == nodes@.len(),
            start == old(nodes)@,
            is_rearrangement(nodes@, start, order),
            forall|a: int, b: int|
                0 <= a < pos && a < b < n
                    ==> (#[trigger] nodes@[a]).score >= (#[trigger] nodes@[b]).score,
            pos == 0 ==> nodes@ == start && order =~= Seq::new(n as nat, |k: int| k),
            pos > 0 ==> first_best(start, order[0]),
        decreases n - pos,
    {
        let mut best: usize = pos;
        let mut j: usize = pos + 1;
        while j < n
            invariant
                pos <= best < j <= n,
                n == nodes@.len(),
                forall|k: int| pos <= k < j
                    ==> (#[trigger] nodes@[k]).score <= nodes@[best as int].score,
                forall|k: int| pos <= k < best
                    ==> (#[trigger] nodes@[k]).score < nodes@[best as int].score,
            decreases n - j,
        {
            if nodes[j].score > nodes[best].score {
                best = j;
            }
            j += 1;
        }
        let ghost before = nodes@;
        proof {
            lemma_rearrangement_swap(before, start, order, pos as int, best as int);
        }
        if best != pos {
            swap_nodes(nodes, pos, best);
        }
        proof {
            assert(nodes@ =~= before.update(pos as int, before[best as int]).update(
                best as int,
                before[pos as int],
            ));
            let moved = order.update(pos as int, order[best as int]).update(
                best as int,
                order[pos as int],
            );
            if pos == 0 {
                assert(moved[0] == best);
                assert(first_best(start, best as int));
            } else {
                assert(moved[0] == order[0]);
            }
            order = moved;
            assert forall|a: int, b: int| 0 <= a < pos + 1 && a < b < n
                implies (#[trigger] nodes@[a]).score
                >= (#[trigger] nodes@[b]).score by {
                if a < pos {
                    let b0 = if b == pos {
                        best as int
                    } else if b == best {
                        pos as int
                    } else {
                        b
                    };
                    assert(nodes@[b] == before[b0]);
                    assert(before[a].score >= before[b0].score);
                } else {
                    let b0 = if b == best {
                        pos as int
                    } else {
                        b
                    };
                    assert(nodes@[b] == before[b0]);
                    assert(before[b0].score <= before[best as int].score);
                }
            }
        }
        pos += 1;
    }
    Ghost(order)
}

/// Turns the list over, so that taking from its end takes its first node first.
pub(crate) fn into_stack(nodes: Vec<GameTree>) -> (stack: Vec<GameTree>)
    ensures
        stack@.len() == nodes@.len(),
        forall|k: int| 0 <= k < stack@.len()
            ==> #[trigger] stack@[k] == nodes@[nodes@.len() - 1 - k],
{
    let mut nodes = nodes;
    let ghost all = nodes@;
    let mut stack: Vec<GameTree> = Vec::with_capacity(nodes.len());
    while nodes.len() > 0
        invariant
            nodes@.len() + stack@.len() == all.len(),
            forall|k: int| 0 <= k < nodes@.len() ==> #[trigger] nodes@[k] == all[k],
            forall|k: int| 0 <= k < stack@.len() ==> #[trigger] stack@[k] == all[all.len() - 1 - k],
        decreases nodes.len(),
    {
        let last = nodes.pop();
        if let Some(node) = last {
            stack.push(node);
        }
    }
    stack
}

} // verus!
