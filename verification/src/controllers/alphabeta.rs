use vstd::prelude::*;
use crate::controllers::controller::{Command, Controller};
use crate::controllers::game_tree::{is_expansion, GameTree};
use crate::controllers::ordering::{
    first_best, into_stack, is_rearrangement, ordered, sort_by_score,
};
use crate::controllers::worth::{
    child_of, lemma_at_least_monotone, lemma_followed_is_legal, lemma_reply_when_legal,
    lemma_searchable, lemma_sound_is_searchable,
};
use crate::evaluation::{evaluate_game_over, evaluate_material, CHECK_MATE_VALUE};
use crate::model::game_state::{standard_start, GameState};
use crate::model::movement::Movement;
use crate::model::position::Position;
use crate::rules::game_over::is_game_over;

verus! {

/// The greater of two scores.
pub open spec fn greater(a: int, b: int) -> int {
    if a >= b {
        a
    } else {
        b
    }
}

/// What holds of each node that a search keeps: it holds what one
/// movement makes of `p`, can be searched for the plies that are left, is
/// itself a well-formed tree and scores no more than `best`.
pub open spec fn kept_nodes(kept: Seq<GameTree>, p: Position, depth: nat, best: int) -> bool {
    forall|j: int|
        0 <= j < kept.len() ==> {
            &&& (#[trigger] kept[j]).score <= best
            &&& child_of(p, kept[j].game_state@)
            &&& kept[j].game_state@.searchable((depth - 1) as nat)
            &&& kept[j].well_formed()
        }
}

/// What a kept node scores after a search of `depth` plies of its parent,
/// within the window from `alpha` to `beta`, that found the best score
/// `best`. With one ply its score is the material of its state for the side
/// that moved into it. With more plies it was searched within a window
/// from `-beta` to `-b`, for a `b` from `alpha` to `best`, and its score
/// keeps the promise of that window.
pub open spec fn kept_score(node: GameTree, depth: nat, best: int, alpha: int, beta: int) -> bool {
    let q = node.game_state@;
    &&& (depth == 1 ==> node.score == -q.material(q.player_to_move))
    &&& (depth > 1 && alpha < beta ==> exists|b: int|
        alpha <= b <= best && b < beta && #[trigger] q.within_bounds(
            (depth - 1) as nat,
            -node.score,
            -beta,
            -b,
        ))
}

/// Each node scores what a kept node scores.
pub open spec fn kept_scores(
    kept: Seq<GameTree>,
    depth: nat,
    best: int,
    alpha: int,
    beta: int,
) -> bool {
    forall|j: int| 0 <= j < kept.len() ==> kept_score(#[trigger] kept[j], depth, best, alpha, beta)
}

/// One more node that scores what a kept node scores joins the kept nodes,
/// and the best score may rise.
pub proof fn lemma_kept_scores_push(
    kept: Seq<GameTree>,
    child: GameTree,
    depth: nat,
    best: int,
    risen: int,
    alpha: int,
    beta: int,
)
    requires
        kept_scores(kept, depth, best, alpha, beta),
        best <= risen,
        kept_score(child, depth, risen, alpha, beta),
    ensures
        kept_scores(kept.push(child), depth, risen, alpha, beta),
{
    let kept2 = kept.push(child);
    assert forall|j: int| 0 <= j < kept2.len() implies kept_score(
        #[trigger] kept2[j],
        depth,
        risen,
        alpha,
        beta,
    ) by {
        if j < kept.len() {
            assert(kept2[j] == kept[j]);
            assert(kept_score(kept[j], depth, best, alpha, beta));
            if depth > 1 && alpha < beta {
                let q = kept[j].game_state@;
                let b = choose|b: int|
                    alpha <= b <= best && b < beta && #[trigger] q.within_bounds(
                        (depth - 1) as nat,
                        -kept[j].score,
                        -beta,
                        -b,
                    );
                assert(alpha <= b <= risen && b < beta && q.within_bounds(
                    (depth - 1) as nat,
                    -kept[j].score,
                    -beta,
                    -b,
                ));
            }
        }
    }
}

/// Kept nodes score what they score in any order.
pub proof fn lemma_kept_scores_arranged(
    kept: Seq<GameTree>,
    sorted: Seq<GameTree>,
    order: Seq<int>,
    depth: nat,
    best: int,
    alpha: int,
    beta: int,
)
    requires
        kept_scores(kept, depth, best, alpha, beta),
        is_rearrangement(sorted, kept, order),
    ensures
        kept_scores(sorted, depth, best, alpha, beta),
{
    assert forall|j: int| 0 <= j < sorted.len() implies kept_score(
        #[trigger] sorted[j],
        depth,
        best,
        alpha,
        beta,
    ) by {
        assert(sorted[j] == kept[order[j]]);
    }
}

/// No two nodes record the same movement as their last.
pub open spec fn distinct_moves(nodes: Seq<GameTree>) -> bool {
    forall|i: int, j: int|
        0 <= i < j < nodes.len() ==> (#[trigger] nodes[i]).game_state@.last_move
            != (#[trigger] nodes[j]).game_state@.last_move
}

/// Each node of `kept` holds the state of one of the first `i` nodes of `fresh`.
pub open spec fn taken_from(kept: Seq<GameTree>, fresh: Seq<GameTree>, i: int) -> bool {
    forall|j: int|
        0 <= j < kept.len() ==> exists|k: int|
            0 <= k < i && (#[trigger] kept[j]).game_state@ == (#[trigger] fresh[k]).game_state@
}

/// The next node of an expansion, kept or passed over, leaves the kept
/// nodes with movements that differ from one another.
pub proof fn lemma_distinct_step(
    fresh: Seq<GameTree>,
    p: Position,
    i: int,
    kept: Seq<GameTree>,
    child: GameTree,
)
    requires
        is_expansion(fresh, p),
        0 <= i < fresh.len(),
        distinct_moves(kept),
        taken_from(kept, fresh, i),
        child.game_state@ == fresh[i].game_state@,
    ensures
        taken_from(kept, fresh, i + 1),
        distinct_moves(kept.push(child)),
        taken_from(kept.push(child), fresh, i + 1),
{
    let kept2 = kept.push(child);
    assert forall|j: int| 0 <= j < kept.len() implies exists|k: int|
        0 <= k < i + 1 && (#[trigger] kept[j]).game_state@ == (#[trigger] fresh[k]).game_state@ by {
        let k = choose|k: int|
            0 <= k < i && (#[trigger] kept[j]).game_state@ == (#[trigger] fresh[k]).game_state@;
        assert(0 <= k < i + 1 && kept[j].game_state@ == fresh[k].game_state@);
    }
    assert forall|j: int| 0 <= j < kept2.len() implies exists|k: int|
        0 <= k < i + 1 && (#[trigger] kept2[j]).game_state@ == (
        #[trigger] fresh[k]).game_state@ by {
        if j < kept.len() {
            assert(kept2[j] == kept[j]);
            let k = choose|k: int|
                0 <= k < i && (#[trigger] kept[j]).game_state@ == (#[trigger] fresh[k]).game_state@;
            assert(0 <= k < i + 1 && kept2[j].game_state@ == fresh[k].game_state@);
        } else {
            assert(0 <= i < i + 1 && kept2[j].game_state@ == fresh[i].game_state@);
        }
    }
    assert forall|a: int, b: int| 0 <= a < b < kept2.len() implies (
    #[trigger] kept2[a]).game_state@.last_move != (#[trigger] kept2[b]).game_state@.last_move by {
        assert(kept2[a] == kept[a]);
        if b < kept.len() {
            assert(kept2[b] == kept[b]);
        } else {
            let k = choose|k: int|
                0 <= k < i && (#[trigger] kept[a]).game_state@ == (#[trigger] fresh[k]).game_state@;
            assert(fresh[k].game_state@.last_move != fresh[i].game_state@.last_move);
        }
    }
}

/// Nodes whose movements differ from one another keep that in any order.
pub proof fn lemma_distinct_arranged(kept: Seq<GameTree>, sorted: Seq<GameTree>, order: Seq<int>)
    requires
        distinct_moves(kept),
        is_rearrangement(sorted, kept, order),
    ensures
        distinct_moves(sorted),
{
    assert forall|a: int, b: int| 0 <= a < b < sorted.len() implies (
    #[trigger] sorted[a]).game_state@.last_move != (#[trigger] sorted[b]).game_state@.last_move by {
        assert(sorted[a] == kept[order[a]]);
        assert(sorted[b] == kept[order[b]]);
        assert(order[a] != order[b]);
        if order[a] < order[b] {
            assert(kept[order[a]].game_state@.last_move != kept[order[b]].game_state@.last_move);
        } else {
            assert(kept[order[b]].game_state@.last_move != kept[order[a]].game_state@.last_move);
        }
    }
}

/// What holds of the children that a search leaves in the tree: what holds
/// of each kept node, and the best stands first.
pub open spec fn kept_children(kept: Seq<GameTree>, p: Position, depth: nat, best: int) -> bool {
    &&& ordered(kept)
    &&& kept_nodes(kept, p, depth, best)
}

/// What is known of the node that gave the best score above `alpha`: it
/// scores `best`, its position is worth at most `-best` to the side to move
/// there, and at least that if `best` stays below `beta`.
pub open spec fn gave_best(node: GameTree, depth: nat, best: int, beta: int) -> bool {
    &&& node.score == best
    &&& node.game_state@.worth_at_most((depth - 1) as nat, -best)
    &&& (best < beta ==> node.game_state@.worth_at_least((depth - 1) as nat, -best))
}

/// What a search knows when it has dealt with the first `i` nodes of the
/// expansion `fresh` and kept `kept`, with `best` the best score so far,
/// given by the node at place `best_at` if it is above `alpha`.
pub open spec fn searched(
    fresh: Seq<GameTree>,
    i: int,
    kept: Seq<GameTree>,
    p: Position,
    depth: nat,
    best: int,
    best_at: int,
    alpha: int,
    beta: int,
) -> bool {
    let d = (depth - 1) as nat;
    &&& alpha <= best
    &&& kept_nodes(kept, p, depth, best)
    &&& (kept.len() == 0 ==> forall|k: int|
        0 <= k < i ==> !(#[trigger] fresh[k]).game_state@.searchable(d))
    &&& (alpha < beta ==> {
        &&& forall|k: int|
            0 <= k < i && (#[trigger] fresh[k]).game_state@.searchable(d)
                ==> fresh[k].game_state@.worth_at_least(d, -best)
        &&& (best > alpha ==> {
            &&& 0 <= best_at < kept.len()
            &&& gave_best(kept[best_at], depth, best, beta)
            &&& forall|j: int| 0 <= j < best_at ==> (#[trigger] kept[j]).score < best
        })
    })
}

/// What holds of the children when a search is done: what holds of kept
/// children, and the first gave the best score if that is above `alpha`.
pub open spec fn settled(
    kept: Seq<GameTree>,
    p: Position,
    depth: nat,
    best: int,
    alpha: int,
    beta: int,
) -> bool {
    &&& kept_children(kept, p, depth, best)
    &&& (alpha < beta && best > alpha ==> kept.len() > 0 && gave_best(kept[0], depth, best, beta))
}

/// A node that cannot be searched is passed over.
pub proof fn lemma_search_step_skip(
    fresh: Seq<GameTree>,
    i: int,
    kept: Seq<GameTree>,
    p: Position,
    depth: nat,
    best: int,
    best_at: int,
    alpha: int,
    beta: int,
)
    requires
        depth >= 1,
        searched(fresh, i, kept, p, depth, best, best_at, alpha, beta),
        0 <= i < fresh.len(),
        !fresh[i].game_state@.searchable((depth - 1) as nat),
    ensures
        searched(fresh, i + 1, kept, p, depth, best, best_at, alpha, beta),
{
}

/// The place of the node that gives the best score once `child` is kept.
pub open spec fn best_place(kept: Seq<GameTree>, best: int, best_at: int, child: GameTree) -> int {
    if child.score > best {
        kept.len() as int
    } else {
        best_at
    }
}

/// A node that was searched within the window from `-beta` to `-best`
/// joins the kept nodes, and the best score rises to its score if that is greater.
pub proof fn lemma_search_step_ok(
    fresh: Seq<GameTree>,
    i: int,
    kept: Seq<GameTree>,
    p: Position,
    depth: nat,
    best: int,
    best_at: int,
    alpha: int,
    beta: int,
    child: GameTree,
)
    requires
        depth >= 1,
        searched(fresh, i, kept, p, depth, best, best_at, alpha, beta),
        0 <= i < fresh.len(),
        alpha < beta ==> best < beta,
        child.game_state@ == fresh[i].game_state@,
        child_of(p, child.game_state@),
        child.game_state@.searchable((depth - 1) as nat),
        child.well_formed(),
        alpha < beta ==> child.game_state@.within_bounds(
            (depth - 1) as nat,
            -child.score,
            -beta,
            -best,
        ),
    ensures
        kept_nodes(kept.push(child), p, depth, greater(best, child.score as int)),
        greater(best, child.score as int) < beta ==> searched(
            fresh,
            i + 1,
            kept.push(child),
            p,
            depth,
            greater(best, child.score as int),
            best_place(kept, best, best_at, child),
            alpha,
            beta,
        ),
        alpha < beta && greater(best, child.score as int) >= beta ==> {
            &&& gave_best(
                kept.push(child)[best_place(kept, best, best_at, child)],
                depth,
                greater(best, child.score as int),
                beta,
            )
            &&& 0 <= best_place(kept, best, best_at, child) < kept.len() + 1
            &&& forall|j: int|
                0 <= j < best_place(kept, best, best_at, child) ==> (#[trigger] kept.push(
                    child,
                )[j]).score < greater(best, child.score as int)
        },
{
    let d = (depth - 1) as nat;
    let s = child.score as int;
    let best2 = greater(best, s);
    let kept2 = kept.push(child);
    let at2 = best_place(kept, best, best_at, child);
    let q = child.game_state@;
    assert forall|j: int| 0 <= j < kept2.len() implies {
        &&& (#[trigger] kept2[j]).score <= best2
        &&& child_of(p, kept2[j].game_state@)
        &&& kept2[j].game_state@.searchable(d)
        &&& kept2[j].well_formed()
    } by {
        if j < kept.len() {
            assert(kept2[j] == kept[j]);
        }
    }
    if alpha < beta {
        if s > best {
            assert(kept2[at2] == child);
            assert(q.worth_at_most(d, -s));
            assert forall|j: int| 0 <= j < at2 implies (#[trigger] kept2[j]).score < best2 by {
                assert(kept2[j] == kept[j]);
            }
        } else if best > alpha {
            assert(kept2[at2] == kept[best_at]);
            assert forall|j: int| 0 <= j < at2 implies (#[trigger] kept2[j]).score < best2 by {
                assert(kept2[j] == kept[j]);
            }
        }
        if best2 < beta {
            assert(q.worth_at_least(d, -s));
            lemma_at_least_monotone(q, d, -s, -best2);
            assert forall|k: int|
                0 <= k < i + 1 && (#[trigger] fresh[k]).game_state@.searchable(
                    d,
                ) implies fresh[k].game_state@.worth_at_least(d, -best2) by {
                if k < i {
                    lemma_at_least_monotone(fresh[k].game_state@, d, -best, -best2);
                }
            }
        }
    }
}

/// Kept nodes put in the order of their scores are settled children: the
/// node that gave the best score stands first.
pub proof fn lemma_search_arranged(
    kept: Seq<GameTree>,
    sorted: Seq<GameTree>,
    order: Seq<int>,
    p: Position,
    depth: nat,
    best: int,
    best_at: int,
    alpha: int,
    beta: int,
)
    requires
        kept_nodes(kept, p, depth, best),
        is_rearrangement(sorted, kept, order),
        ordered(sorted),
        kept.len() > 0 ==> first_best(kept, order[0]),
        alpha < beta && best > alpha ==> {
            &&& 0 <= best_at < kept.len()
            &&& gave_best(kept[best_at], depth, best, beta)
            &&& forall|j: int| 0 <= j < best_at ==> (#[trigger] kept[j]).score < best
        },
    ensures
        settled(sorted, p, depth, best, alpha, beta),
{
    assert forall|j: int| 0 <= j < sorted.len() implies {
        &&& (#[trigger] sorted[j]).score <= best
        &&& child_of(p, sorted[j].game_state@)
        &&& sorted[j].game_state@.searchable((depth - 1) as nat)
        &&& sorted[j].well_formed()
    } by {
        assert(sorted[j] == kept[order[j]]);
    }
    if alpha < beta && best > alpha {
        let first = order[0];
        assert(sorted[0] == kept[first]);
        assert(kept[best_at].score <= kept[first].score);
        assert(kept[first].score <= best);
        if first < best_at {
            assert(kept[first].score < best);
        }
        if best_at < first {
            assert(kept[best_at].score < kept[first].score);
        }
        assert(first == best_at);
    }
}

/// When every node of the expansion has been dealt with and some were
/// kept, the position can be searched, and the best score keeps the
/// promise of the window.
pub proof fn lemma_search_done(
    fresh: Seq<GameTree>,
    kept: Seq<GameTree>,
    sorted: Seq<GameTree>,
    p: Position,
    depth: nat,
    best: int,
    best_at: int,
    alpha: int,
    beta: int,
)
    requires
        depth >= 1,
        is_expansion(fresh, p),
        searched(fresh, fresh.len() as int, kept, p, depth, best, best_at, alpha, beta),
        settled(sorted, p, depth, best, alpha, beta),
        sorted.len() > 0,
        !p.king_capturable(),
    ensures
        p.searchable(depth),
        p.has_reply(depth),
        alpha < beta && best < beta ==> p.within_bounds(depth, best, alpha, beta),
{
    let d = (depth - 1) as nat;
    let m0 = sorted[0].game_state@.last_move->0;
    assert(p.reply(m0, depth));
    lemma_searchable(p, depth);
    if alpha < beta && best < beta {
        assert forall|m: Movement| #[trigger] p.reply(m, depth) implies p.after(m).worth_at_least(
            d,
            -best,
        ) by {
            let k = choose|k: int|
                0 <= k < fresh.len() && (#[trigger] fresh[k]).game_state@ == p.after(m);
            assert(fresh[k].game_state@.searchable(d));
        }
        assert(p.worth_at_most(depth, best));
        if best > alpha {
            assert(p.reply(m0, depth) && p.after(m0).worth_at_most(d, -best));
            assert(p.worth_at_least(depth, best));
        }
    }
}

/// When a kept child scores `beta` or more, the search stops: the position
/// can be searched and is worth at least that score.
pub proof fn lemma_search_cut(
    sorted: Seq<GameTree>,
    p: Position,
    depth: nat,
    best: int,
    alpha: int,
    beta: int,
)
    requires
        depth >= 1,
        settled(sorted, p, depth, best, alpha, beta),
        sorted.len() > 0,
        !p.king_capturable(),
        alpha <= best,
        best >= beta,
    ensures
        p.searchable(depth),
        p.has_reply(depth),
        alpha < beta ==> p.within_bounds(depth, best, alpha, beta),
{
    let m0 = sorted[0].game_state@.last_move->0;
    assert(p.reply(m0, depth));
    lemma_searchable(p, depth);
    if alpha < beta {
        assert(p.reply(m0, depth) && p.after(m0).worth_at_most((depth - 1) as nat, -best));
    }
}

/// When no node of the expansion can be searched, the search follows no reply.
pub proof fn lemma_search_leaf(fresh: Seq<GameTree>, p: Position, depth: nat)
    requires
        depth >= 1,
        is_expansion(fresh, p),
        forall|k: int|
            0 <= k < fresh.len() ==> !(#[trigger] fresh[k]).game_state@.searchable(
                (depth - 1) as nat,
            ),
    ensures
        !p.has_reply(depth),
{
    assert forall|m: Movement| !#[trigger] p.reply(m, depth) by {
        if p.reply(m, depth) {
            let k = choose|k: int|
                0 <= k < fresh.len() && (#[trigger] fresh[k]).game_state@ == p.after(m);
            assert(!fresh[k].game_state@.searchable((depth - 1) as nat));
        }
    }
}

impl GameTree {
    /// Searches `depth_limit` plies deep with pruning: the children are
    /// rebuilt, searched best first within the window that is left, and kept
    /// if they can be searched; the search stops at the first child that
    /// scores `beta` or more. The node's score is the worth of its state to
    /// the side that moved into it, as far as the window from `alpha` to
    /// `beta` lets it be known. It fails where the state cannot be searched.
    /// `branch_limit` is handed down and limits nothing: every child is
    /// searched unless the search stops before it.
    ///
    /// The result is the best score found, from the side to move; for a
    /// node that is not expanded or has no child to follow, it is the score
    /// of the node itself.
    #[verifier::rlimit(50)]
    pub fn alphabeta_search(
        &mut self,
        depth_limit: u32,
        branch_limit: u32,
        alpha: i32,
        beta: i32,
    ) -> (r: Result<i32, ()>)
        requires
            alpha > i32::MIN,
            beta > i32::MIN,
        ensures
            final(self).game_state == old(self).game_state,
            r is Ok <==> old(self).game_state@.searchable(depth_limit as nat),
            r matches Ok(v) ==> {
                &&& final(self).score > i32::MIN
                &&& v == (if depth_limit == 0 || final(self).children@.len() == 0 {
                    final(self).score as int
                } else {
                    -final(self).score
                })
                &&& (depth_limit == 0 ==> final(self).children == old(self).children
                    && final(self).score == -old(self).game_state@.material(
                    old(self).game_state@.player_to_move,
                ))
                &&& (depth_limit > 0 ==> kept_children(
                    final(self).children@,
                    old(self).game_state@,
                    depth_limit as nat,
                    -final(self).score,
                ))
                &&& (depth_limit > 0 ==> distinct_moves(final(self).children@))
                &&& (depth_limit > 0 ==> kept_scores(
                    final(self).children@,
                    depth_limit as nat,
                    -final(self).score,
                    alpha as int,
                    beta as int,
                ))
                &&& (depth_limit > 0 ==> final(self).well_formed())
                &&& (alpha < beta ==> old(self).game_state@.within_bounds(
                    depth_limit as nat,
                    -final(self).score,
                    alpha as int,
                    beta as int,
                ))
                &&& (depth_limit > 0 ==> (final(self).children@.len() > 0
                    <==> old(self).game_state@.has_reply(depth_limit as nat)))
                &&& (depth_limit > 0 && final(self).children@.len() > 0 ==> -final(self).score
                    >= alpha)
                &&& (depth_limit > 0 && alpha < beta && final(self).children@.len() > 0
                    && -final(self).score > alpha ==> {
                    &&& final(self).children@[0].score == -final(self).score
                    &&& final(self).children@[0].game_state@.worth_at_most(
                        (depth_limit - 1) as nat,
                        final(self).score as int,
                    )
                    &&& (-final(self).score < beta
                        ==> final(self).children@[0].game_state@.worth_at_least(
                        (depth_limit - 1) as nat,
                        final(self).score as int,
                    ))
                })
            },
        decreases depth_limit,
    {
        let ghost p = self.game_state@;
        let ghost depth = depth_limit as nat;
        if depth_limit == 0 {
            self.score = -evaluate_material(&self.game_state, self.game_state.player_to_move);
            return Ok(self.score);
        }
        match self.expand_node() {
            Ok(()) => {},
            Err(()) => {
                return Err(());
            },
        }
        let mut pending: Vec<GameTree> = Vec::new();
        std::mem::swap(&mut self.children, &mut pending);
        let ghost fresh = pending@;
        let mut stack = into_stack(pending);
        let mut kept: Vec<GameTree> = Vec::new();
        let mut best_score = alpha;
        let ghost mut best_at: int = 0;
        while stack.len() > 0
            invariant
                depth == depth_limit,
                depth_limit >= 1,
                alpha > i32::MIN,
                beta > i32::MIN,
                p == self.game_state@,
                self.game_state == old(self).game_state,
                !p.king_capturable(),
                is_expansion(fresh, p),
                self.children@.len() == 0,
                stack@.len() <= fresh.len(),
                forall|k: int|
                    0 <= k < stack@.len() ==> #[trigger] stack@[k] == fresh[fresh.len() - 1 - k],
                alpha < beta ==> best_score < beta,
                kept_scores(kept@, depth, best_score as int, alpha as int, beta as int),
                distinct_moves(kept@),
                taken_from(kept@, fresh, fresh.len() - stack@.len()),
                searched(
                    fresh,
                    fresh.len() - stack@.len(),
                    kept@,
                    p,
                    depth,
                    best_score as int,
                    best_at,
                    alpha as int,
                    beta as int,
                ),
            decreases stack.len(),
        {
            let ghost i = fresh.len() - stack@.len();
            let next = stack.pop();
            if let Some(node) = next {
                let mut child = node;
                proof {
                    assert(child == fresh[i]);
                    assert(child_of(p, child.game_state@));
                    assert(child.children@.len() == 0);
                }
                let searched_child = child.alphabeta_search(
                    depth_limit - 1,
                    branch_limit,
                    -beta,
                    -best_score,
                );
                proof {
                    lemma_distinct_step(fresh, p, i, kept@, child);
                }
                if searched_child.is_ok() {
                    let ghost before = kept@;
                    let ghost best_before = best_score as int;
                    let ghost at_before = best_at;
                    proof {
                        if depth_limit == 1 {
                            assert(child.children@.len() == 0);
                            assert(child.well_formed());
                        }
                        lemma_search_step_ok(
                            fresh,
                            i,
                            before,
                            p,
                            depth,
                            best_before,
                            at_before,
                            alpha as int,
                            beta as int,
                            child,
                        );
                        best_at = best_place(before, best_before, at_before, child);
                        let risen = greater(best_before, child.score as int);
                        if depth > 1 && alpha < beta {
                            assert(alpha <= best_before <= risen && best_before < beta
                                && child.game_state@.within_bounds(
                                (depth - 1) as nat,
                                -child.score,
                                -beta,
                                -best_before,
                            ));
                        }
                        assert(kept_score(child, depth, risen, alpha as int, beta as int));
                        lemma_kept_scores_push(
                            before,
                            child,
                            depth,
                            best_before,
                            risen,
                            alpha as int,
                            beta as int,
                        );
                    }
                    if child.score > best_score {
                        best_score = child.score;
                    }
                    kept.push(child);
                    if best_score >= beta {
                        let ghost unsorted = kept@;
                        let order = sort_by_score(&mut kept);
                        proof {
                            lemma_search_arranged(
                                unsorted,
                                kept@,
                                order@,
                                p,
                                depth,
                                best_score as int,
                                best_at,
                                alpha as int,
                                beta as int,
                            );
                            lemma_distinct_arranged(unsorted, kept@, order@);
                            lemma_kept_scores_arranged(
                                unsorted,
                                kept@,
                                order@,
                                depth,
                                best_score as int,
                                alpha as int,
                                beta as int,
                            );
                            lemma_search_cut(
                                kept@,
                                p,
                                depth,
                                best_score as int,
                                alpha as int,
                                beta as int,
                            );
                        }
                        self.children = kept;
                        self.score = -best_score;
                        return Ok(best_score);
                    }
                } else {
                    proof {
                        lemma_search_step_skip(
                            fresh,
                            i,
                            kept@,
                            p,
                            depth,
                            best_score as int,
                            best_at,
                            alpha as int,
                            beta as int,
                        );
                    }
                }
            }
        }
        if kept.len() == 0 {
            proof {
                lemma_search_leaf(fresh, p, depth);
                lemma_searchable(p, depth);
            }
            if is_game_over(&self.game_state) {
                self.score = -evaluate_game_over(&self.game_state, self.game_state.player_to_move);
                return Ok(self.score);
            } else {
                return Err(());
            }
        }
        let ghost unsorted = kept@;
        let order = sort_by_score(&mut kept);
        proof {
            lemma_search_arranged(
                unsorted,
                kept@,
                order@,
                p,
                depth,
                best_score as int,
                best_at,
                alpha as int,
                beta as int,
            );
            lemma_distinct_arranged(unsorted, kept@, order@);
            lemma_kept_scores_arranged(
                unsorted,
                kept@,
                order@,
                depth,
                best_score as int,
                alpha as int,
                beta as int,
            );
            lemma_search_done(
                fresh,
                unsorted,
                kept@,
                p,
                depth,
                best_score as int,
                best_at,
                alpha as int,
                beta as int,
            );
        }
        self.children = kept;
        self.score = -best_score;
        Ok(best_score)
    }
}

/// A player that searches a fixed number of plies with pruning and plays
/// the movement that the search scores best.
pub struct AlphaBetaBot {
    depth: u32,
    tree: GameTree,
}

impl AlphaBetaBot {
    /// The number of plies that the player searches.
    pub closed spec fn plies(&self) -> nat {
        self.depth as nat
    }

    /// The position at the root of the player's tree.
    pub closed spec fn position(&self) -> Position {
        self.tree.game_state@
    }

    /// The score at the root of the player's tree.
    pub closed spec fn score(&self) -> int {
        self.tree.score as int
    }

    /// A player that searches `depth` plies, set up for the start of a
    /// game of standard chess.
    pub fn new(depth: u32) -> (bot: AlphaBetaBot)
        ensures
            bot.plies() == depth,
            bot.position() == standard_start(),
            bot.score() == 0,
    {
        AlphaBetaBot { tree: GameTree::leaf(GameState::new(), 0), depth }
    }

    /// Goes on from the given state: with the subtree of that state where
    /// the tree has one, from a single node otherwise.
    fn update_tree(&mut self, game_state: &GameState)
        ensures
            final(self).position() == game_state@,
            final(self).plies() == old(self).plies(),
    {
        let mut tree = GameTree::leaf(game_state.deepclone(), 0);
        std::mem::swap(&mut self.tree, &mut tree);
        self.tree = GameTree::descend(tree, game_state);
    }

    /// Searches the given state and gives the movement that scores best,
    /// or nothing where the search follows no reply: with no ply to search,
    /// where a king stands to be taken, and where the game is over. The
    /// tree goes on from the state that the movement leads to.
    ///
    /// The movement secures the score of its node: to the side to move the
    /// state is worth at least that much, and no more than that or a lost
    /// game, as long as the score stays short of a mate. From a sound state
    /// in which no king stands to be taken, a search of two plies or more
    /// gives a movement exactly when there is one that the rules allow, and
    /// the rules allow the one it gives.
    pub fn choose_move(&mut self, game_state: &GameState) -> (r: Option<Movement>)
        ensures
            final(self).plies() == old(self).plies(),
            r is Some <==> old(self).plies() > 0 && game_state@.searchable(old(self).plies())
                && game_state@.has_reply(old(self).plies()),
            r matches Some(m) ==> {
                let d = old(self).plies();
                let s = final(self).score();
                &&& game_state@.reply(m, d)
                &&& final(self).position() == game_state@.after(m)
                &&& (s > -CHECK_MATE_VALUE ==> game_state@.worth_at_least(d, s)
                    && game_state@.after(m).worth_at_most((d - 1) as nat, -s))
                &&& (s < CHECK_MATE_VALUE ==> game_state@.worth_at_most(
                    d,
                    greater(s, -CHECK_MATE_VALUE as int),
                ))
            },
            old(self).plies() >= 2 && game_state@.sound() && !game_state@.king_capturable() ==> {
                &&& r is Some <==> !game_state@.no_legal_move()
                &&& r matches Some(m) ==> game_state@.legal(m, game_state@.player_to_move)
            },
    {
        proof {
            let p = game_state@;
            let d = self.depth as nat;
            if d >= 2 && p.sound() && !p.king_capturable() {
                lemma_sound_is_searchable(p, d);
                lemma_reply_when_legal(p, d);
                assert forall|m: Movement| p.reply(m, d) implies p.legal(m, p.player_to_move) by {
                    lemma_followed_is_legal(p, m, d);
                }
            }
        }
        if !game_state.same_as(&self.tree.game_state) {
            self.update_tree(game_state);
        }
        if self.depth == 0 {
            return None;
        }
        let searched = self.tree.alphabeta_search(
            self.depth,
            255,
            -CHECK_MATE_VALUE,
            CHECK_MATE_VALUE,
        );
        if searched.is_err() || self.tree.children.len() == 0 {
            return None;
        }
        let ghost root_score = self.tree.score as int;
        let mut children: Vec<GameTree> = Vec::new();
        std::mem::swap(&mut self.tree.children, &mut children);
        let chosen_child = children.swap_remove(0);
        let chosen_movement = chosen_child.game_state.last_move;
        proof {
            let p = game_state@;
            let d = self.depth as nat;
            let b = -root_score;
            let s = chosen_child.score as int;
            assert(s <= b);
            if s > -CHECK_MATE_VALUE {
                assert(b > -CHECK_MATE_VALUE);
                assert(s == b);
                assert(p.worth_at_least(d, b));
            }
            if s < CHECK_MATE_VALUE {
                if b > -CHECK_MATE_VALUE {
                    assert(s == b);
                }
                assert(p.worth_at_most(d, b));
            }
            let m = chosen_movement->0;
            assert(p.reply(m, d));
            if d >= 2 && p.sound() && !p.king_capturable() {
                lemma_followed_is_legal(p, m, d);
            }
        }
        self.tree = chosen_child;
        chosen_movement
    }
}

impl Clone for AlphaBetaBot {
    fn clone(&self) -> (copy: AlphaBetaBot)
        ensures
            copy.plies() == self.plies(),
            copy.position() == self.position(),
            copy.score() == self.score(),
    {
        AlphaBetaBot { depth: self.depth, tree: self.tree.duplicate() }
    }
}

impl Controller for AlphaBetaBot {
    /// A reply that the search follows, or giving up where it follows none.
    open spec fn may_choose(&self, game_state: GameState, cmd: Command) -> bool {
        match cmd {
            Command::Move(m) => game_state@.reply(m, self.plies()),
            Command::Resign => !(self.plies() > 0 && game_state@.searchable(self.plies())
                && game_state@.has_reply(self.plies())),
            _ => false,
        }
    }

    /// The state is left as it was handed.
    open spec fn may_leave(&self, game_state: GameState, left: GameState) -> bool {
        left == game_state
    }

    /// The movement that the search scores best; where the search follows
    /// no reply, the player resigns.
    fn choose_command(&mut self, game_state: &mut GameState) -> (cmd: Command)
        ensures
            *final(game_state) == *old(game_state),
            final(self).plies() == old(self).plies(),
            match cmd {
                Command::Move(m) => {
                    &&& old(game_state)@.reply(m, old(self).plies())
                    &&& final(self).position() == old(game_state)@.after(m)
                },
                Command::Resign => !(old(self).plies() > 0 && old(game_state)@.searchable(
                    old(self).plies(),
                ) && old(game_state)@.has_reply(old(self).plies())),
                _ => false,
            },
    {
        match self.choose_move(game_state) {
            Some(movement) => Command::Move(movement),
            None => Command::Resign,
        }
    }
}

} // verus!
