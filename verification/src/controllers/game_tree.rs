use vstd::prelude::*;
use crate::controllers::ordering::{
    into_stack, is_rearrangement, names, ordered, sort_by_score,
};
use crate::controllers::worth::{
    child_of, lemma_at_least_monotone, lemma_legal_keeps_sound, lemma_pseudo_legal_applies,
    lemma_searchable, lemma_worth_of_material,
};
use crate::evaluation::{evaluate_game_over, evaluate_material};
use crate::model::game_state::GameState;
use crate::model::movement::Movement;
use crate::model::piece::PieceType;
use crate::model::position::Position;
use crate::rules::game_over::is_game_over;
use crate::rules::move_generator::{
    generate_movements_for_player_ignoring_check, lists_pseudo_legal,
};

verus! {

/// A node of the search: a state, its score, and the nodes of the states
/// that one movement leads to, the best score first.
///
/// The score of a node says what its state is worth to the side that moved
/// into it: the side to move picks among its children by their scores.
pub struct GameTree {
    pub game_state: GameState,
    pub score: i32,
    pub children: Vec<GameTree>,
}

/// `children` holds one fresh node for each movement that the side to move
/// of `p` may play where nobody asks for the king's safety: a node without
/// children, scored by the material of the mover, the best first.
pub open spec fn is_expansion(children: Seq<GameTree>, p: Position) -> bool {
    &&& ordered(children)
    &&& forall|k: int|
        0 <= k < children.len() ==> {
            &&& child_of(p, (#[trigger] children[k]).game_state@)
            &&& children[k].children@.len() == 0
            &&& children[k].score == children[k].game_state@.material(p.player_to_move)
        }
    &&& forall|m: Movement| #[trigger]
        p.pseudo_legal(m, p.player_to_move) ==> exists|k: int|
            0 <= k < children.len() && (#[trigger] children[k]).game_state@ == p.after(m)
    &&& forall|i: int, j: int|
        0 <= i < j < children.len() ==> (#[trigger] children[i]).game_state@.last_move
            != (#[trigger] children[j]).game_state@.last_move
}

/// `nodes` holds one fresh node for each of the first `i` movements of
/// `moves`; `origin` says which movement each node stands for.
pub open spec fn fresh_nodes(
    nodes: Seq<GameTree>,
    origin: Seq<int>,
    p: Position,
    moves: Seq<Movement>,
    i: int,
) -> bool {
    &&& origin.len() == nodes.len()
    &&& forall|k: int|
        0 <= k < nodes.len() ==> {
            &&& 0 <= #[trigger] origin[k] < i
            &&& nodes[k].game_state@ == p.after(moves[origin[k]])
            &&& nodes[k].children@.len() == 0
            &&& nodes[k].score == nodes[k].game_state@.material(p.player_to_move)
            &&& -64000 <= nodes[k].score <= 64000
        }
    &&& forall|a: int, b: int|
        0 <= a < b < nodes.len() ==> #[trigger] origin[a] != #[trigger] origin[b]
    &&& forall|j: int| 0 <= j < i ==> #[trigger] names(origin, j)
}

/// Every node of `new` holds the state of a node of `old`.
pub open spec fn same_states(new: Seq<GameTree>, old: Seq<GameTree>) -> bool {
    forall|j: int|
        0 <= j < new.len() ==> exists|k: int|
            0 <= k < old.len() && (#[trigger] new[j]).game_state == (#[trigger] old[k]).game_state
}

/// Every node of `new` holds the state of a node of `old` and is at most
/// one ply taller than it.
pub open spec fn grown_from(new: Seq<GameTree>, old: Seq<GameTree>) -> bool {
    forall|j: int|
        0 <= j < new.len() ==> exists|k: int|
            0 <= k < old.len() && (#[trigger] new[j]).game_state == (#[trigger] old[k]).game_state
                && new[j].height() <= old[k].height() + 1
}

/// Some node of the list holds the position.
pub open spec fn holds_state(nodes: Seq<GameTree>, q: Position) -> bool {
    exists|k: int| 0 <= k < nodes.len() && (#[trigger] nodes[k]).game_state@ == q
}

/// The list holds the node.
pub open spec fn holds_node(nodes: Seq<GameTree>, node: GameTree) -> bool {
    exists|k: int| 0 <= k < nodes.len() && #[trigger] nodes[k] == node
}

/// For each movement that the rules allow in `p`, some node holds what the
/// movement makes of `p`.
pub open spec fn covers_legal(children: Seq<GameTree>, p: Position) -> bool {
    forall|m: Movement| #[trigger]
        p.legal(m, p.player_to_move) ==> holds_state(children, p.after(m))
}

/// No node holds a position in which a king stands to be taken.
pub open spec fn all_guarded(children: Seq<GameTree>) -> bool {
    forall|j: int| 0 <= j < children.len() ==> !(#[trigger] children[j]).game_state@.king_capturable()
}

/// Some node of the list can grow below the root.
pub open spec fn some_can_grow(nodes: Seq<GameTree>) -> bool {
    exists|k: int| 0 <= k < nodes.len() && (#[trigger] nodes[k]).can_grow(INNER_BRANCH_LIMIT)
}

/// The state of each of the first `i` nodes of `old` that can grow is held
/// by a node of `kept`.
pub open spec fn keeps_growable(kept: Seq<GameTree>, old: Seq<GameTree>, i: int) -> bool {
    forall|k: int|
        0 <= k < i && (#[trigger] old[k]).can_grow(INNER_BRANCH_LIMIT) ==> holds_state(
            kept,
            old[k].game_state@,
        )
}

/// Every node of `kept` holds the state of a node of `old` that can grow.
pub open spec fn all_grown(kept: Seq<GameTree>, old: Seq<GameTree>) -> bool {
    forall|j: int|
        0 <= j < kept.len() ==> exists|k: int|
            0 <= k < old.len() && (#[trigger] kept[j]).game_state == (#[trigger] old[k]).game_state
                && old[k].can_grow(INNER_BRANCH_LIMIT)
}

/// Some node of the list can be searched `depth` plies deep.
pub open spec fn some_can_search(nodes: Seq<GameTree>, depth: nat, branch_limit: u32) -> bool {
    exists|k: int| 0 <= k < nodes.len() && (#[trigger] nodes[k]).can_search(depth, branch_limit)
}

/// What a search without pruning has done with the first `i` nodes of
/// `old` when it has searched `tried` of them and kept `kept`: the state
/// of each node that can be searched is held by a kept node; with a limit
/// of none every node is kept; and a node is searched or, under a limit
/// above none, kept only where some node can be searched.
pub open spec fn search_kept(
    old: Seq<GameTree>,
    i: int,
    kept: Seq<GameTree>,
    tried: int,
    depth: nat,
    branch_limit: u32,
) -> bool {
    &&& forall|k: int|
        0 <= k < i && (#[trigger] old[k]).can_search(depth, branch_limit) ==> holds_state(
            kept,
            old[k].game_state@,
        )
    &&& (branch_limit == 0 ==> kept.len() == i)
    &&& (tried > 0 || (kept.len() > 0 && branch_limit > 0) ==> some_can_search(
        old,
        depth,
        branch_limit,
    ))
}

/// The number of children that are grown below the root when a tree grows by one ply.
pub const INNER_BRANCH_LIMIT: u32 = 25;

impl GameTree {
    /// Every child holds what one movement makes of the state of its
    /// parent, the children stand best score first, no score is the least
    /// machine integer, and so on down the tree.
    pub open spec fn well_formed(self) -> bool
        decreases self,
    {
        &&& self.score > i32::MIN
        &&& ordered(self.children@)
        &&& forall|i: int|
            0 <= i < self.children@.len() ==> child_of(
                self.game_state@,
                (#[trigger] self.children@[i]).game_state@,
            ) && self.children@[i].well_formed()
    }

    /// Every node with children has the score of its first child with the
    /// sign turned: as the best child stands first, a node is worth to the
    /// side that moved into it what its best reply leaves of it.
    pub open spec fn negamax_scored(self) -> bool
        decreases self,
    {
        &&& (self.children@.len() > 0 ==> self.score == -self.children@[0].score)
        &&& forall|i: int|
            0 <= i < self.children@.len() ==> (#[trigger] self.children@[i]).negamax_scored()
    }

    /// Whether the tree can grow by one ply under the given limit. A node
    /// without children can, unless a king stands to be taken in its state.
    /// Any other node can if the game is over in its state, if the limit
    /// lets no child grow, or if one of its children can grow.
    pub open spec fn can_grow(self, branch_limit: u32) -> bool
        decreases self,
    {
        if self.children@.len() == 0 {
            !self.game_state@.king_capturable()
        } else {
            ||| self.game_state@.game_over()
            ||| branch_limit == 0
            ||| exists|k: int|
                0 <= k < self.children@.len() && (#[trigger] self.children@[k]).can_grow(
                    INNER_BRANCH_LIMIT,
                )
        }
    }

    /// Whether a search without pruning of `depth` plies succeeds from the
    /// tree. With no ply it does. With one ply, or from a node without
    /// children, it does where the state can be searched that deep; under a
    /// limit of none, which lets no child be searched, where no king stands
    /// to be taken. From a node with children and two plies or more it
    /// does if the game is over, if the limit is none, or if one of the
    /// children can be searched one ply less deep.
    pub open spec fn can_search(self, depth: nat, branch_limit: u32) -> bool
        decreases depth,
    {
        if depth == 0 {
            true
        } else if depth == 1 || self.children@.len() == 0 {
            if depth == 1 || branch_limit > 0 {
                self.game_state@.searchable(depth)
            } else {
                !self.game_state@.king_capturable()
            }
        } else {
            ||| self.game_state@.game_over()
            ||| branch_limit == 0
            ||| exists|k: int|
                0 <= k < self.children@.len() && (#[trigger] self.children@[k]).can_search(
                    (depth - 1) as nat,
                    branch_limit,
                )
        }
    }

    /// Every node with children holds a state in which no king stands to be
    /// taken, has no more children than the side to move has movements to
    /// choose from, and, where its state is sound, has a child for each
    /// movement that the rules allow.
    pub open spec fn faithful(self) -> bool
        decreases self,
    {
        &&& self.children@.len() > 0 ==> {
            &&& !self.game_state@.king_capturable()
            &&& exists|l: Seq<Movement>| #[trigger]
                lists_pseudo_legal(l, self.game_state@, self.game_state@.player_to_move)
                    && self.children@.len() <= l.len()
            &&& (self.game_state@.sound() ==> covers_legal(self.children@, self.game_state@))
        }
        &&& forall|i: int|
            0 <= i < self.children@.len() ==> (#[trigger] self.children@[i]).faithful()
    }

    /// The number of plies of the longest line in the tree.
    pub open spec fn height(self) -> nat
        decreases self,
    {
        Self::tallest(self.children@, self.children@.len())
    }

    /// One more than the greatest height among the first `n` nodes; zero for none.
    pub open spec fn tallest(nodes: Seq<GameTree>, n: nat) -> nat
        decreases nodes, n,
    {
        if n == 0 || n > nodes.len() {
            0
        } else {
            let here = nodes[n - 1].height() + 1;
            let rest = Self::tallest(nodes, (n - 1) as nat);
            if here > rest {
                here
            } else {
                rest
            }
        }
    }

    /// The score that the children give the node: the score of the first
    /// child with the sign turned, or what the end of the game is worth to the
    /// side that moved into the state where there is no child.
    pub open spec fn settled_score(self) -> int {
        if self.children@.len() > 0 {
            -self.children@[0].score
        } else {
            -self.game_state@.terminal_score(self.game_state@.player_to_move)
        }
    }

    /// The two trees hold the same states and scores in the same shape.
    pub open spec fn same_tree(self, other: GameTree) -> bool
        decreases self,
    {
        &&& self.game_state == other.game_state
        &&& self.score == other.score
        &&& self.children@.len() == other.children@.len()
        &&& forall|i: int|
            0 <= i < self.children@.len() ==> (#[trigger] self.children@[i]).same_tree(
                other.children@[i],
            )
    }

    /// A copy of the tree that shares nothing with it.
    pub fn duplicate(&self) -> (copy: GameTree)
        ensures
            self.same_tree(copy),
        decreases self,
    {
        let mut children: Vec<GameTree> = Vec::new();
        let mut i: usize = 0;
        while i < self.children.len()
            invariant
                0 <= i <= self.children.len(),
                children@.len() == i,
                forall|k: int|
                    0 <= k < i ==> (#[trigger] self.children@[k]).same_tree(children@[k]),
            decreases self.children.len() - i,
        {
            let child = self.children[i].duplicate();
            children.push(child);
            i += 1;
        }
        GameTree { game_state: self.game_state.deepclone(), score: self.score, children }
    }

    /// A tree of one node for the given state.
    pub fn leaf(game_state: GameState, score: i32) -> (node: GameTree)
        ensures
            node.game_state == game_state,
            node.score == score,
            node.children@.len() == 0,
            score > i32::MIN ==> node.well_formed(),
            node.negamax_scored(),
            node.faithful(),
            node.height() == 0,
    {
        GameTree { game_state, score, children: Vec::new() }
    }

    /// The number of plies of the longest line in the tree, as far as the
    /// machine integer can count them.
    pub fn get_depth(&self) -> (depth: u32)
        ensures
            depth == (if self.height() <= u32::MAX {
                self.height() as int
            } else {
                u32::MAX as int
            }),
        decreases self,
    {
        let mut depth: u32 = 0;
        let mut i: usize = 0;
        while i < self.children.len()
            invariant
                0 <= i <= self.children.len(),
                depth == (if Self::tallest(self.children@, i as nat) <= u32::MAX {
                    Self::tallest(self.children@, i as nat) as int
                } else {
                    u32::MAX as int
                }),
            decreases self.children.len() - i,
        {
            let under = self.children[i].get_depth();
            let below = if under < u32::MAX {
                under + 1
            } else {
                u32::MAX
            };
            if below > depth {
                depth = below;
            }
            i += 1;
        }
        depth
    }

    /// Whether the movement is an ordinary move onto a square that holds a king.
    fn is_king_capture(movement: &Option<Movement>, game_state: &GameState) -> (r: bool)
        ensures
            r == (movement matches Some(m) && m is Normal && m.to_row() < 8 && m.to_col() < 8
                && game_state@.holds_king(m.to_row(), m.to_col())),
    {
        match movement {
            Some(Movement::Normal { from, to }) => {
                if to[0] >= 8 || to[1] >= 8 {
                    return false;
                }
                match game_state.board[to[0]][to[1]] {
                    Some(piece) => piece.piece_type == PieceType::King,
                    None => false,
                }
            },
            _ => false,
        }
    }

    /// Replaces the children by one fresh node for each movement that the
    /// side to move may play where nobody asks for the king's safety, and
    /// scores the node by its best child. Fails, and changes nothing, where
    /// one of these movements takes a king.
    pub(crate) fn expand_node(&mut self) -> (r: Result<(), ()>)
        ensures
            final(self).game_state == old(self).game_state,
            r is Err <==> old(self).game_state@.king_capturable(),
            r is Err ==> *final(self) == *old(self),
            r is Ok ==> is_expansion(final(self).children@, old(self).game_state@),
            r is Ok ==> forall|k: int|
                0 <= k < final(self).children@.len()
                    ==> -64000 <= (#[trigger] final(self).children@[k]).score <= 64000,
            r is Ok ==> final(self).score == (if final(self).children@.len() > 0 {
                -final(self).children@[0].score
            } else {
                old(self).score as int
            }),
            r is Ok ==> exists|l: Seq<Movement>| #[trigger]
                lists_pseudo_legal(l, old(self).game_state@, old(self).game_state@.player_to_move)
                    && l.len() == final(self).children@.len(),
    {
        let ghost p = self.game_state@;
        let mover = self.game_state.player_to_move;
        let possible_movements = generate_movements_for_player_ignoring_check(
            &self.game_state,
            mover,
        );
        let mut i: usize = 0;
        while i < possible_movements.len()
            invariant
                0 <= i <= possible_movements.len(),
                p == self.game_state@,
                mover == p.player_to_move,
                *self == *old(self),
                lists_pseudo_legal(possible_movements@, p, mover),
                forall|k: int| 0 <= k < i ==> !p.captures_king(#[trigger] possible_movements@[k]),
            decreases possible_movements.len() - i,
        {
            let candidate = Some(possible_movements[i]);
            if Self::is_king_capture(&candidate, &self.game_state) {
                proof {
                    assert(possible_movements@.contains(possible_movements@[i as int]));
                    assert(p.captures_king(possible_movements@[i as int]));
                }
                return Err(());
            }
            proof {
                assert(possible_movements@.contains(possible_movements@[i as int]));
            }
            i += 1;
        }
        proof {
            assert forall|m: Movement| !#[trigger] p.captures_king(m) by {
                if p.captures_king(m) {
                    assert(possible_movements@.contains(m));
                    let k = choose|k: int|
                        0 <= k < possible_movements@.len() && possible_movements@[k] == m;
                    assert(!p.captures_king(possible_movements@[k]));
                }
            }
        }
        let mut fresh: Vec<GameTree> = Vec::with_capacity(possible_movements.len());
        let ghost mut origin: Seq<int> = Seq::empty();
        let mut i: usize = 0;
        while i < possible_movements.len()
            invariant
                0 <= i <= possible_movements.len(),
                p == self.game_state@,
                mover == p.player_to_move,
                *self == *old(self),
                lists_pseudo_legal(possible_movements@, p, mover),
                fresh@.len() == i,
                fresh_nodes(fresh@, origin, p, possible_movements@, i as int),
            decreases possible_movements.len() - i,
        {
            let movement = possible_movements[i];
            let game_state2 = self.game_state.clone_and_move(movement);
            let score = evaluate_material(&game_state2, mover);
            let ghost before = fresh@;
            let node = GameTree { score, game_state: game_state2, children: Vec::new() };
            fresh.push(node);
            proof {
                lemma_fresh_step(before, origin, p, possible_movements@, i as int, node);
                origin = origin.push(i as int);
            }
            i += 1;
        }
        let ghost unsorted = fresh@;
        let order = sort_by_score(&mut fresh);
        proof {
            lemma_fresh_rearranged(
                fresh@,
                unsorted,
                order@,
                origin,
                p,
                possible_movements@,
                possible_movements@.len() as int,
            );
            lemma_fresh_is_expansion(
                fresh@,
                Seq::new(fresh@.len(), |k: int| origin[order@[k]]),
                p,
                possible_movements@,
            );
        }
        proof {
            assert(lists_pseudo_legal(possible_movements@, p, p.player_to_move)
                && possible_movements@.len() == fresh@.len());
        }
        self.children = fresh;
        if self.children.len() > 0 {
            self.score = -self.children[0].score;
        }
        Ok(())
    }

    /// Scores the node by its children: the score of the best child with
    /// the sign turned, or what the end of the game is worth where there is
    /// no child. Fails where there is no child and the game is not over.
    fn settle(&mut self) -> (r: Result<(), ()>)
        requires
            old(self).children@.len() > 0 ==> old(self).children@[0].score > i32::MIN,
        ensures
            final(self).game_state == old(self).game_state,
            final(self).children == old(self).children,
            r is Ok <==> (old(self).children@.len() > 0 || old(self).game_state@.game_over()),
            r is Ok ==> final(self).score == old(self).settled_score(),
            r is Ok ==> final(self).score > i32::MIN,
            r is Err ==> final(self).score == old(self).score,
    {
        if self.children.len() > 0 {
            self.score = -self.children[0].score;
            Ok(())
        } else if is_game_over(&self.game_state) {
            self.score = -evaluate_game_over(&self.game_state, self.game_state.player_to_move);
            Ok(())
        } else {
            Err(())
        }
    }

    /// Grows the tree by one ply: a node without children is expanded; of
    /// the children of any other node, the first `branch_limit` that can be
    /// grown are grown (their own children up to `INNER_BRANCH_LIMIT` each),
    /// those that cannot are dropped, and the rest stay as they are. The
    /// children are put back best first and the node is scored by them.
    ///
    /// It succeeds exactly when the tree can grow; where it fails, the node
    /// is left without children and with its score.
    pub fn expand_leaves(&mut self, branch_limit: u32) -> (r: Result<(), ()>)
        requires
            old(self).well_formed(),
        ensures
            final(self).game_state == old(self).game_state,
            r is Ok <==> old(self).can_grow(branch_limit),
            r is Err ==> final(self).children@.len() == 0 && final(self).score == old(self).score,
            old(self).children@.len() == 0 && r is Ok ==> is_expansion(
                final(self).children@,
                old(self).game_state@,
            ),
            final(self).well_formed(),
            old(self).negamax_scored() ==> final(self).negamax_scored(),
            old(self).faithful() ==> final(self).faithful(),
            r is Ok ==> final(self).score == final(self).settled_score(),
            r is Ok ==> final(self).children@.len() > 0 || old(self).game_state@.game_over(),
            r is Ok ==> final(self).height() <= old(self).height() + 1,
            old(self).children@.len() > 0 ==> {
                &&& grown_from(final(self).children@, old(self).children@)
                &&& final(self).children@.len() <= old(self).children@.len()
                &&& keeps_growable(
                    final(self).children@,
                    old(self).children@,
                    old(self).children@.len() as int,
                )
                &&& (old(self).children@.len() <= branch_limit ==> all_grown(
                    final(self).children@,
                    old(self).children@,
                ))
                &&& (branch_limit == 0 ==> final(self).children@.len() == old(self).children@.len())
            },
            r is Ok && old(self).faithful() && old(self).game_state@.sound() ==> covers_legal(
                final(self).children@,
                old(self).game_state@,
            ),
        decreases old(self).height(),
    {
        let ghost p = self.game_state@;
        if self.children.len() == 0 {
            match self.expand_node() {
                Ok(()) => {},
                Err(()) => {
                    return Err(());
                },
            }
            proof {
                lemma_expansion_is_flat(self.children@, p);
                lemma_expansion_is_faithful(self.children@, p);
                if self.children@.len() == 0 {
                    lemma_no_expansion_ends_game(self.children@, p);
                }
            }
            return self.settle();
        }
        let mut pending: Vec<GameTree> = Vec::new();
        std::mem::swap(&mut self.children, &mut pending);
        let ghost before = pending@;
        let mut stack = into_stack(pending);
        let mut reordered: Vec<GameTree> = Vec::with_capacity(stack.len());
        let mut branch_count: u32 = 0;
        while stack.len() > 0
            invariant
                p == self.game_state@,
                self.game_state == old(self).game_state,
                self.score == old(self).score,
                self.children@.len() == 0,
                before == old(self).children@,
                old(self).well_formed(),
                stack@.len() <= before.len(),
                reordered@.len() + stack@.len() <= before.len(),
                branch_count <= before.len() - stack@.len(),
                forall|k: int|
                    0 <= k < stack@.len() ==> #[trigger] stack@[k] == before[before.len() - 1 - k],
                grown_from(reordered@, before),
                keeps_growable(reordered@, before, before.len() - stack@.len()),
                before.len() <= branch_limit ==> all_grown(reordered@, before),
                branch_limit == 0 ==> reordered@.len() == before.len() - stack@.len(),
                branch_count > 0 || (reordered@.len() > 0 && branch_limit > 0) ==> some_can_grow(
                    before,
                ),
                forall|j: int|
                    0 <= j < reordered@.len() ==> child_of(
                        p,
                        (#[trigger] reordered@[j]).game_state@,
                    ) && reordered@[j].well_formed(),
                old(self).negamax_scored() ==> forall|j: int|
                    0 <= j < reordered@.len() ==> (#[trigger] reordered@[j]).negamax_scored(),
                old(self).faithful() ==> forall|j: int|
                    0 <= j < reordered@.len() ==> (#[trigger] reordered@[j]).faithful(),
            decreases stack.len(),
        {
            let ghost i = before.len() - stack@.len();
            let next = stack.pop();
            if let Some(node) = next {
                let mut child = node;
                proof {
                    assert(child == before[i]);
                    lemma_tallest_covers(before, before.len(), i);
                }
                let mut keep = true;
                if branch_count < branch_limit {
                    match child.expand_leaves(INNER_BRANCH_LIMIT) {
                        Ok(()) => {
                            branch_count += 1;
                            proof {
                                assert(before[i].can_grow(INNER_BRANCH_LIMIT));
                            }
                        },
                        Err(()) => {
                            keep = false;
                        },
                    }
                }
                proof {
                    lemma_growth_step(reordered@, before, i, child, keep);
                }
                if keep {
                    let ghost held = reordered@;
                    reordered.push(child);
                    proof {
                        lemma_grown_push(held, before, child, i);
                        if old(self).negamax_scored() {
                            assert(before[i].negamax_scored());
                            assert forall|j: int| 0 <= j < reordered@.len()
                                implies (#[trigger] reordered@[j]).negamax_scored() by {
                                if j < held.len() {
                                    assert(reordered@[j] == held[j]);
                                }
                            }
                        }
                        if old(self).faithful() {
                            assert(before[i].faithful());
                            assert forall|j: int| 0 <= j < reordered@.len()
                                implies (#[trigger] reordered@[j]).faithful() by {
                                if j < held.len() {
                                    assert(reordered@[j] == held[j]);
                                }
                            }
                        }
                        assert forall|j: int| 0 <= j < reordered@.len() implies child_of(
                            p,
                            (#[trigger] reordered@[j]).game_state@,
                        ) && reordered@[j].well_formed() by {
                            if j < held.len() {
                                assert(reordered@[j] == held[j]);
                            }
                        }
                    }
                }
            }
        }
        let ghost unsorted = reordered@;
        let order = sort_by_score(&mut reordered);
        proof {
            lemma_rearranged_states(reordered@, unsorted, order@, before, p);
            lemma_rearranged_growth(reordered@, unsorted, order@, before, before.len() as int);
            lemma_grown_height(reordered@, before);
            lemma_growth_settles(*old(self), reordered@, branch_limit);
        }
        self.children = reordered;
        self.settle()
    }

    /// Searches `depth_limit` plies deep without pruning: a node without
    /// children is expanded; at each node the first `branch_limit` children
    /// that can be searched are searched one ply less deep, those that
    /// cannot are dropped, and the rest stay as they are. With no ply left
    /// the node is scored by its material.
    ///
    /// The search succeeds exactly when the tree can be searched that
    /// deep; where it fails, the node is left without children, or as it
    /// was where a king stands to be taken in its state.
    ///
    /// Where the search starts from a node without children and no
    /// position within reach has more than `branch_limit` movements to
    /// choose from, every child is searched: the search succeeds exactly
    /// when the state can be searched, and the score of the node is what
    /// the state is worth to the side that moved into it.
    #[verifier::rlimit(100)]
    pub fn dfs(&mut self, depth_limit: u32, branch_limit: u32) -> (r: Result<(), ()>)
        requires
            old(self).well_formed(),
        ensures
            final(self).game_state == old(self).game_state,
            r is Ok <==> old(self).can_search(depth_limit as nat, branch_limit),
            r is Err ==> final(self).children@.len() == 0 || *final(self) == *old(self),
            depth_limit == 0 ==> r is Ok && final(self).children == old(self).children
                && final(self).score
                == -old(self).game_state@.material(old(self).game_state@.player_to_move),
            final(self).well_formed(),
            depth_limit > 0 && old(self).negamax_scored() ==> final(self).negamax_scored(),
            r is Ok && depth_limit > 0 ==> final(self).score == final(self).settled_score(),
            r is Ok && depth_limit > 0 ==> final(self).children@.len() > 0
                || old(self).game_state@.game_over(),
            r is Ok && depth_limit > 0 && old(self).children@.len() > 0 && depth_limit > 1
                ==> same_states(final(self).children@, old(self).children@),
            (old(self).children@.len() == 0 || depth_limit <= 1) && old(self).game_state@.narrow(
                depth_limit as nat,
                branch_limit as int,
            ) ==> {
                &&& r is Ok <==> old(self).game_state@.searchable(depth_limit as nat)
                &&& r is Ok ==> old(self).game_state@.worth(depth_limit as nat, -final(self).score)
            },
        decreases depth_limit,
    {
        let ghost p = self.game_state@;
        let ghost depth = depth_limit as nat;
        let ghost full = (self.children@.len() == 0 || depth_limit <= 1) && p.narrow(
            depth,
            branch_limit as int,
        );
        let ghost fresh = self.children@.len() == 0;
        if depth_limit == 0 {
            self.score = -evaluate_material(&self.game_state, self.game_state.player_to_move);
            return Ok(());
        }
        proof {
            lemma_searchable(p, depth);
        }
        if depth_limit == 1 || self.children.len() == 0 {
            match self.expand_node() {
                Ok(()) => {},
                Err(()) => {
                    return Err(());
                },
            }
            proof {
                lemma_expansion_is_flat(self.children@, p);
                if self.children@.len() == 0 {
                    lemma_no_expansion_ends_game(self.children@, p);
                }
                lemma_flat_worth(self.children@, p);
                if depth_limit == 1 {
                    lemma_settled_worth(self.children@, p, depth);
                    lemma_searchable_one_ply(p);
                }
            }
            if depth_limit == 1 {
                return self.settle();
            }
        }
        let mut pending: Vec<GameTree> = Vec::new();
        std::mem::swap(&mut self.children, &mut pending);
        let ghost before = pending@;
        let mut stack = into_stack(pending);
        let mut reordered: Vec<GameTree> = Vec::with_capacity(stack.len());
        let mut branch_count: u32 = 0;
        proof {
            if full {
                lemma_searchable(p, depth);
            }
        }
        while stack.len() > 0
            invariant
                depth_limit > 1,
                depth == depth_limit,
                p == self.game_state@,
                self.game_state == old(self).game_state,
                self.children@.len() == 0,
                fresh == (old(self).children@.len() == 0),
                !fresh ==> before == old(self).children@,
                fresh ==> is_expansion(before, p) && !p.king_capturable(),
                search_kept(
                    before,
                    before.len() - stack@.len(),
                    reordered@,
                    branch_count as int,
                    (depth - 1) as nat,
                    branch_limit,
                ),
                full ==> !p.king_capturable() && is_expansion(before, p) && before.len()
                    <= branch_limit && p.narrow(depth, branch_limit as int),
                full ==> branch_count <= before.len() - stack@.len(),
                full ==> fully_searched(
                    before,
                    before.len() - stack@.len(),
                    reordered@,
                    p,
                    depth,
                ),
                stack@.len() <= before.len(),
                forall|k: int|
                    0 <= k < stack@.len() ==> #[trigger] stack@[k] == before[before.len() - 1 - k],
                forall|k: int|
                    0 <= k < before.len() ==> child_of(p, (#[trigger] before[k]).game_state@)
                        && before[k].well_formed(),
                old(self).negamax_scored() ==> forall|k: int|
                    0 <= k < before.len() ==> (#[trigger] before[k]).negamax_scored(),
                same_states(reordered@, before),
                forall|j: int|
                    0 <= j < reordered@.len() ==> child_of(
                        p,
                        (#[trigger] reordered@[j]).game_state@,
                    ) && reordered@[j].well_formed(),
                old(self).negamax_scored() ==> forall|j: int|
                    0 <= j < reordered@.len() ==> (#[trigger] reordered@[j]).negamax_scored(),
            decreases stack.len(),
        {
            let ghost i = before.len() - stack@.len();
            let next = stack.pop();
            if let Some(node) = next {
                let mut child = node;
                proof {
                    assert(child == before[i]);
                }
                let mut keep = true;
                let ghost tried = branch_count as int;
                proof {
                    if full {
                        assert(child_of(p, child.game_state@));
                        assert(child.children@.len() == 0);
                        assert(p.pseudo_legal(child.game_state@.last_move->0, p.player_to_move));
                    }
                }
                if branch_count < branch_limit {
                    match child.dfs(depth_limit - 1, branch_limit) {
                        Ok(()) => {
                            branch_count += 1;
                        },
                        Err(()) => {
                            keep = false;
                        },
                    }
                }
                proof {
                    lemma_search_kept_step(
                        before,
                        i,
                        reordered@,
                        tried,
                        (depth - 1) as nat,
                        branch_limit,
                        child,
                        keep,
                    );
                    if full {
                        lemma_full_step(before, i, reordered@, p, depth, child, keep);
                    }
                }
                if keep {
                    let ghost held = reordered@;
                    reordered.push(child);
                    proof {
                        lemma_same_states_push(held, before, child, i);
                        if old(self).negamax_scored() {
                            assert(before[i].negamax_scored());
                            assert forall|j: int| 0 <= j < reordered@.len()
                                implies (#[trigger] reordered@[j]).negamax_scored() by {
                                if j < held.len() {
                                    assert(reordered@[j] == held[j]);
                                }
                            }
                        }
                        assert forall|j: int| 0 <= j < reordered@.len() implies child_of(
                            p,
                            (#[trigger] reordered@[j]).game_state@,
                        ) && reordered@[j].well_formed() by {
                            if j < held.len() {
                                assert(reordered@[j] == held[j]);
                            }
                        }
                    }
                }
            }
        }
        let ghost unsorted = reordered@;
        let order = sort_by_score(&mut reordered);
        proof {
            lemma_rearranged_states(reordered@, unsorted, order@, before, p);
            lemma_search_kept_arranged(
                reordered@,
                unsorted,
                order@,
                before,
                before.len() as int,
                branch_count as int,
                (depth - 1) as nat,
                branch_limit,
            );
            lemma_search_settles(
                *old(self),
                before,
                reordered@,
                branch_count as int,
                depth,
                branch_limit,
            );
            if full {
                lemma_full_done(before, unsorted, reordered@, order@, p, depth);
                lemma_settled_worth(reordered@, p, depth);
            }
        }
        self.children = reordered;
        self.settle()
    }

    /// Goes on from the given state: the child of the root that holds it
    /// becomes the root, with all that was computed below it; where no
    /// child holds it, the tree starts again from a single node.
    pub fn descend(tree: GameTree, game_state: &GameState) -> (root: GameTree)
        ensures
            root.game_state@ == game_state@,
            tree.well_formed() ==> root.well_formed(),
            tree.negamax_scored() ==> root.negamax_scored(),
            tree.faithful() ==> root.faithful(),
            holds_state(tree.children@, game_state@) ==> holds_node(tree.children@, root),
            !holds_state(tree.children@, game_state@) ==> root.children@.len() == 0 && root.score
                == -game_state@.material(game_state@.player_to_move),
    {
        let ghost whole = tree;
        let mut children = tree.children;
        let ghost all = children@;
        while children.len() > 0
            invariant
                whole == tree,
                all == whole.children@,
                children@.len() <= all.len(),
                forall|k: int| 0 <= k < children@.len() ==> #[trigger] children@[k] == all[k],
                forall|k: int|
                    children@.len() <= k < all.len() ==> (#[trigger] all[k]).game_state@
                        != game_state@,
            decreases children.len(),
        {
            let last = children.pop();
            if let Some(child) = last {
                if child.game_state.same_as(game_state) {
                    proof {
                        assert(child == all[children@.len() as int]);
                        if whole.well_formed() {
                            assert(child.well_formed());
                        }
                        if whole.negamax_scored() {
                            assert(child.negamax_scored());
                        }
                        if whole.faithful() {
                            assert(child.faithful());
                        }
                    }
                    return child;
                }
            }
        }
        proof {
            assert forall|k: int| 0 <= k < all.len() implies (#[trigger] all[k]).game_state@
                != game_state@ by {}
        }
        let score = -evaluate_material(game_state, game_state.player_to_move);
        GameTree::leaf(game_state.deepclone(), score)
    }
}

impl Clone for GameTree {
    fn clone(&self) -> (copy: GameTree)
        ensures
            self.same_tree(copy),
    {
        self.duplicate()
    }
}

/// Fresh nodes stay fresh nodes in any order.
pub proof fn lemma_fresh_rearranged(
    new: Seq<GameTree>,
    old: Seq<GameTree>,
    order: Seq<int>,
    origin: Seq<int>,
    p: Position,
    moves: Seq<Movement>,
    i: int,
)
    requires
        is_rearrangement(new, old, order),
        fresh_nodes(old, origin, p, moves, i),
    ensures
        fresh_nodes(new, Seq::new(new.len(), |k: int| origin[order[k]]), p, moves, i),
{
    let origin2 = Seq::new(new.len(), |k: int| origin[order[k]]);
    assert forall|j: int| 0 <= j < i implies #[trigger] names(origin2, j) by {
        assert(names(origin, j));
        let a = choose|a: int| 0 <= a < origin.len() && #[trigger] origin[a] == j;
        assert(names(order, a));
        let k = choose|k: int| 0 <= k < order.len() && #[trigger] order[k] == a;
        assert(origin2[k] == j);
    }
    assert forall|a: int, b: int| 0 <= a < b < new.len() implies #[trigger] origin2[a]
        != #[trigger] origin2[b] by {
        assert(order[a] != order[b]);
        if order[a] < order[b] {
            assert(origin[order[a]] != origin[order[b]]);
        } else {
            assert(origin[order[b]] != origin[order[a]]);
        }
    }
    assert forall|k: int| 0 <= k < new.len() implies {
        &&& 0 <= #[trigger] origin2[k] < i
        &&& new[k].game_state@ == p.after(moves[origin2[k]])
        &&& new[k].children@.len() == 0
        &&& new[k].score == new[k].game_state@.material(p.player_to_move)
        &&& -64000 <= new[k].score <= 64000
    } by {
        assert(new[k] == old[order[k]]);
        assert(0 <= origin[order[k]] < i);
    }
}

/// One more fresh node, for the next movement, keeps the list a list of fresh nodes.
pub proof fn lemma_fresh_step(
    before: Seq<GameTree>,
    origin: Seq<int>,
    p: Position,
    moves: Seq<Movement>,
    i: int,
    node: GameTree,
)
    requires
        fresh_nodes(before, origin, p, moves, i),
        0 <= i < moves.len(),
        node.game_state@ == p.after(moves[i]),
        node.children@.len() == 0,
        node.score == node.game_state@.material(p.player_to_move),
        -64000 <= node.score <= 64000,
    ensures
        fresh_nodes(before.push(node), origin.push(i), p, moves, i + 1),
{
    let nodes = before.push(node);
    let from = origin.push(i);
    assert forall|j: int| 0 <= j < i + 1 implies #[trigger] names(from, j) by {
        if j < i {
            assert(names(origin, j));
            let k = choose|k: int| 0 <= k < origin.len() && #[trigger] origin[k] == j;
            assert(from[k] == j);
        } else {
            assert(from[before.len() as int] == j);
        }
    }
    assert forall|k: int| 0 <= k < nodes.len() implies {
        &&& 0 <= #[trigger] from[k] < i + 1
        &&& nodes[k].game_state@ == p.after(moves[from[k]])
        &&& nodes[k].children@.len() == 0
        &&& nodes[k].score == nodes[k].game_state@.material(p.player_to_move)
        &&& -64000 <= nodes[k].score <= 64000
    } by {
        if k < before.len() {
            assert(from[k] == origin[k] && nodes[k] == before[k]);
        }
    }
    assert forall|a: int, b: int| 0 <= a < b < nodes.len() implies #[trigger] from[a]
        != #[trigger] from[b] by {
        if b < before.len() {
            assert(from[a] == origin[a] && from[b] == origin[b]);
        } else {
            assert(from[a] == origin[a]);
        }
    }
}

/// Fresh nodes for all the movements that may be played, best first, are
/// the expansion of the position.
pub proof fn lemma_fresh_is_expansion(
    nodes: Seq<GameTree>,
    origin: Seq<int>,
    p: Position,
    moves: Seq<Movement>,
)
    requires
        fresh_nodes(nodes, origin, p, moves, moves.len() as int),
        lists_pseudo_legal(moves, p, p.player_to_move),
        ordered(nodes),
    ensures
        is_expansion(nodes, p),
        forall|k: int| 0 <= k < nodes.len() ==> -64000 <= (#[trigger] nodes[k]).score <= 64000,
{
    assert forall|k: int| 0 <= k < nodes.len() implies {
        &&& child_of(p, (#[trigger] nodes[k]).game_state@)
        &&& nodes[k].children@.len() == 0
        &&& nodes[k].score == nodes[k].game_state@.material(p.player_to_move)
        &&& -64000 <= nodes[k].score <= 64000
    } by {
        let j = origin[k];
        assert(moves.contains(moves[j]));
        lemma_pseudo_legal_applies(p, moves[j]);
    }
    assert forall|m: Movement| #[trigger] p.pseudo_legal(m, p.player_to_move) implies exists|
        k: int,
    |
        0 <= k < nodes.len() && (#[trigger] nodes[k]).game_state@ == p.after(m) by {
        assert(moves.contains(m));
        let j = choose|j: int| 0 <= j < moves.len() && moves[j] == m;
        assert(names(origin, j));
        let k = choose|k: int| 0 <= k < origin.len() && #[trigger] origin[k] == j;
        assert(nodes[k].game_state@ == p.after(m));
    }
    assert forall|a: int, b: int| 0 <= a < b < nodes.len()
        implies (#[trigger] nodes[a]).game_state@.last_move
        != (#[trigger] nodes[b]).game_state@.last_move by {
        assert(origin[a] != origin[b]);
        assert(moves.contains(moves[origin[a]]));
        assert(moves.contains(moves[origin[b]]));
        lemma_pseudo_legal_applies(p, moves[origin[a]]);
        lemma_pseudo_legal_applies(p, moves[origin[b]]);
    }
}

/// One more node that grew from a node of `old` keeps the list grown from `old`.
pub proof fn lemma_grown_push(held: Seq<GameTree>, old: Seq<GameTree>, child: GameTree, i: int)
    requires
        grown_from(held, old),
        0 <= i < old.len(),
        child.game_state == old[i].game_state,
        child.height() <= old[i].height() + 1,
    ensures
        grown_from(held.push(child), old),
{
    let new = held.push(child);
    assert forall|j: int| 0 <= j < new.len() implies exists|k: int|
        0 <= k < old.len() && (#[trigger] new[j]).game_state == (#[trigger] old[k]).game_state
            && new[j].height() <= old[k].height() + 1 by {
        if j == held.len() {
            assert(new[j].game_state == old[i].game_state);
        } else {
            assert(new[j] == held[j]);
            let k = choose|k: int|
                0 <= k < old.len()
                    && (#[trigger] held[j]).game_state == (#[trigger] old[k]).game_state
                    && held[j].height() <= old[k].height() + 1;
            assert(new[j].game_state == old[k].game_state);
        }
    }
}

/// One more node that holds the state of a node of `old` keeps the list one
/// of states of `old`.
pub proof fn lemma_same_states_push(
    held: Seq<GameTree>,
    old: Seq<GameTree>,
    child: GameTree,
    i: int,
)
    requires
        same_states(held, old),
        0 <= i < old.len(),
        child.game_state == old[i].game_state,
    ensures
        same_states(held.push(child), old),
{
    let new = held.push(child);
    assert forall|j: int| 0 <= j < new.len() implies exists|k: int|
        0 <= k < old.len() && (#[trigger] new[j]).game_state == (#[trigger] old[k]).game_state by {
        if j == held.len() {
            assert(new[j].game_state == old[i].game_state);
        } else {
            assert(new[j] == held[j]);
            let k = choose|k: int|
                0 <= k < old.len()
                    && (#[trigger] held[j]).game_state == (#[trigger] old[k]).game_state;
            assert(new[j].game_state == old[k].game_state);
        }
    }
}

/// What holds of each node of a list, and how the list grew from
/// another, holds of the list in any order.
pub proof fn lemma_rearranged_states(
    new: Seq<GameTree>,
    held: Seq<GameTree>,
    order: Seq<int>,
    old: Seq<GameTree>,
    p: Position,
)
    requires
        is_rearrangement(new, held, order),
    ensures
        same_states(held, old) ==> same_states(new, old),
        grown_from(held, old) ==> grown_from(new, old),
        (forall|j: int|
            0 <= j < held.len() ==> child_of(p, (#[trigger] held[j]).game_state@)
                && held[j].well_formed()) ==> (forall|j: int|
            0 <= j < new.len() ==> child_of(p, (#[trigger] new[j]).game_state@)
                && new[j].well_formed()),
        (forall|j: int| 0 <= j < held.len() ==> (#[trigger] held[j]).negamax_scored()) ==> (forall|
            j: int,
        |
            0 <= j < new.len() ==> (#[trigger] new[j]).negamax_scored()),
{
    if forall|j: int| 0 <= j < held.len() ==> (#[trigger] held[j]).negamax_scored() {
        assert forall|j: int| 0 <= j < new.len() implies (#[trigger] new[j]).negamax_scored() by {
            assert(new[j] == held[order[j]]);
        }
    }
    if same_states(held, old) {
        assert forall|j: int| 0 <= j < new.len() implies exists|k: int|
            0 <= k < old.len()
                && (#[trigger] new[j]).game_state == (#[trigger] old[k]).game_state by {
            let j0 = order[j];
            assert(new[j] == held[j0]);
            let k = choose|k: int|
                0 <= k < old.len()
                    && (#[trigger] held[j0]).game_state == (#[trigger] old[k]).game_state;
            assert(new[j].game_state == old[k].game_state);
        }
    }
    if grown_from(held, old) {
        assert forall|j: int| 0 <= j < new.len() implies exists|k: int|
            0 <= k < old.len() && (#[trigger] new[j]).game_state == (#[trigger] old[k]).game_state
                && new[j].height() <= old[k].height() + 1 by {
            let j0 = order[j];
            assert(new[j] == held[j0]);
            let k = choose|k: int|
                0 <= k < old.len()
                    && (#[trigger] held[j0]).game_state == (#[trigger] old[k]).game_state
                    && held[j0].height() <= old[k].height() + 1;
            assert(new[j].game_state == old[k].game_state);
        }
    }
    if forall|j: int|
        0 <= j < held.len() ==> child_of(p, (#[trigger] held[j]).game_state@)
            && held[j].well_formed() {
        assert forall|j: int| 0 <= j < new.len() implies child_of(
            p,
            (#[trigger] new[j]).game_state@,
        ) && new[j].well_formed() by {
            assert(new[j] == held[order[j]]);
        }
    }
}

/// What a search without pruning knows when it has dealt with the first
/// `i` nodes of the expansion `fresh` and kept `kept`: each kept node holds
/// what one movement makes of `p`, and its score is what its position is
/// worth to the side that moved into it; each node of the first `i` that
/// can be searched was kept.
pub open spec fn fully_searched(
    fresh: Seq<GameTree>,
    i: int,
    kept: Seq<GameTree>,
    p: Position,
    depth: nat,
) -> bool {
    let d = (depth - 1) as nat;
    &&& forall|j: int|
        0 <= j < kept.len() ==> {
            &&& child_of(p, (#[trigger] kept[j]).game_state@)
            &&& kept[j].game_state@.searchable(d)
            &&& kept[j].game_state@.worth(d, -kept[j].score)
        }
    &&& forall|k: int|
        0 <= k < i && (#[trigger] fresh[k]).game_state@.searchable(d) ==> holds_state(
            kept,
            fresh[k].game_state@,
        )
}

/// One more node of the expansion is dealt with: it is kept if its search
/// found its worth, and dropped if it cannot be searched.
pub proof fn lemma_full_step(
    fresh: Seq<GameTree>,
    i: int,
    kept: Seq<GameTree>,
    p: Position,
    depth: nat,
    child: GameTree,
    keep: bool,
)
    requires
        depth >= 2,
        fully_searched(fresh, i, kept, p, depth),
        0 <= i < fresh.len(),
        child.game_state@ == fresh[i].game_state@,
        child_of(p, child.game_state@),
        keep == child.game_state@.searchable((depth - 1) as nat),
        keep ==> child.game_state@.worth((depth - 1) as nat, -child.score),
    ensures
        keep ==> fully_searched(fresh, i + 1, kept.push(child), p, depth),
        !keep ==> fully_searched(fresh, i + 1, kept, p, depth),
{
    let d = (depth - 1) as nat;
    if keep {
        let kept2 = kept.push(child);
        assert forall|j: int| 0 <= j < kept2.len() implies {
            &&& child_of(p, (#[trigger] kept2[j]).game_state@)
            &&& kept2[j].game_state@.searchable(d)
            &&& kept2[j].game_state@.worth(d, -kept2[j].score)
        } by {
            if j < kept.len() {
                assert(kept2[j] == kept[j]);
            }
        }
        assert forall|k: int|
            0 <= k < i + 1 && (#[trigger] fresh[k]).game_state@.searchable(d) implies holds_state(
            kept2,
            fresh[k].game_state@,
        ) by {
            if k < i {
                let j = choose|j: int|
                    0 <= j < kept.len() && (#[trigger] kept[j]).game_state@
                        == fresh[k].game_state@;
                assert(kept2[j].game_state@ == fresh[k].game_state@);
            } else {
                assert(kept2[kept.len() as int].game_state@ == fresh[k].game_state@);
            }
        }
    }
}

/// When a search without pruning has dealt with every node of the
/// expansion, the score of the best kept node is what the position is
/// worth to the side to move; where none was kept, no reply is followed.
pub proof fn lemma_full_done(
    fresh: Seq<GameTree>,
    kept: Seq<GameTree>,
    sorted: Seq<GameTree>,
    order: Seq<int>,
    p: Position,
    depth: nat,
)
    requires
        depth >= 2,
        is_expansion(fresh, p),
        fully_searched(fresh, fresh.len() as int, kept, p, depth),
        is_rearrangement(sorted, kept, order),
        ordered(sorted),
    ensures
        sorted.len() > 0 ==> p.has_reply(depth) && p.worth(depth, sorted[0].score as int),
        sorted.len() == 0 ==> !p.has_reply(depth),
{
    let d = (depth - 1) as nat;
    if sorted.len() > 0 {
        let best = sorted[0].score as int;
        assert(sorted[0] == kept[order[0]]);
        let m0 = sorted[0].game_state@.last_move->0;
        assert(p.reply(m0, depth));
        assert(p.after(m0).worth_at_most(d, -best));
        assert forall|m: Movement| #[trigger] p.reply(m, depth) implies p.after(m).worth_at_least(
            d,
            -best,
        ) by {
            let k = choose|k: int|
                0 <= k < fresh.len() && (#[trigger] fresh[k]).game_state@ == p.after(m);
            assert(holds_state(kept, fresh[k].game_state@));
            let j = choose|j: int|
                0 <= j < kept.len() && (#[trigger] kept[j]).game_state@ == fresh[k].game_state@;
            assert(names(order, j));
            let t = choose|t: int| 0 <= t < order.len() && #[trigger] order[t] == j;
            assert(sorted[t] == kept[j]);
            if t > 0 {
                assert(sorted[0].score >= sorted[t].score);
            }
            lemma_at_least_monotone(p.after(m), d, -kept[j].score, -best);
        }
    } else {
        assert forall|m: Movement| !#[trigger] p.reply(m, depth) by {
            if p.reply(m, depth) {
                let k = choose|k: int|
                    0 <= k < fresh.len() && (#[trigger] fresh[k]).game_state@ == p.after(m);
                assert(holds_state(kept, fresh[k].game_state@));
            }
        }
    }
}

/// What the children of a searched node say of its position: it can be
/// searched exactly when a child is left or the game is over, and it is
/// worth the score of the first child, or what the end of the game is worth.
pub proof fn lemma_settled_worth(children: Seq<GameTree>, p: Position, depth: nat)
    requires
        depth >= 1,
        !p.king_capturable(),
        children.len() > 0 ==> p.has_reply(depth) && p.worth(depth, children[0].score as int),
        children.len() == 0 ==> !p.has_reply(depth),
    ensures
        (children.len() > 0 || p.game_over()) <==> p.searchable(depth),
        children.len() == 0 ==> p.worth(depth, p.terminal_score(p.player_to_move)),
{
    lemma_searchable(p, depth);
}

/// A position searched one ply deep is worth the best score of its
/// expansion; where the expansion is empty, no reply is followed.
pub proof fn lemma_flat_worth(children: Seq<GameTree>, p: Position)
    requires
        is_expansion(children, p),
    ensures
        children.len() > 0 ==> p.has_reply(1) && p.worth(1, children[0].score as int),
        children.len() == 0 ==> !p.has_reply(1),
{
    if children.len() > 0 {
        let best = children[0].score as int;
        let m0 = children[0].game_state@.last_move->0;
        lemma_worth_of_material(p, children[0].game_state@, best);
        assert(p.reply(m0, 1));
        assert(p.after(m0).worth_at_most(0, -best));
        assert forall|m: Movement| #[trigger] p.reply(m, 1) implies p.after(m).worth_at_least(
            0,
            -best,
        ) by {
            let k = choose|k: int|
                0 <= k < children.len() && (#[trigger] children[k]).game_state@ == p.after(m);
            lemma_worth_of_material(p, children[k].game_state@, children[k].score as int);
            if k > 0 {
                assert(children[0].score >= children[k].score);
            }
            lemma_at_least_monotone(p.after(m), 0, -children[k].score, -best);
        }
    } else {
        assert forall|m: Movement| !#[trigger] p.reply(m, 1) by {
            if p.reply(m, 1) {
                let k = choose|k: int|
                    0 <= k < children.len() && (#[trigger] children[k]).game_state@ == p.after(m);
            }
        }
    }
}

/// Each of the first `n` nodes is less tall than their greatest height says.
pub proof fn lemma_tallest_covers(nodes: Seq<GameTree>, n: nat, k: int)
    requires
        0 <= k < n <= nodes.len(),
    ensures
        nodes[k].height() + 1 <= GameTree::tallest(nodes, n),
    decreases n,
{
    if k < n - 1 {
        lemma_tallest_covers(nodes, (n - 1) as nat, k);
    }
}

/// The greatest height among nodes that all stay below a bound stays within it.
pub proof fn lemma_tallest_bound(nodes: Seq<GameTree>, n: nat, bound: nat)
    requires
        n <= nodes.len(),
        forall|k: int| 0 <= k < n ==> (#[trigger] nodes[k]).height() + 1 <= bound,
    ensures
        GameTree::tallest(nodes, n) <= bound,
    decreases n,
{
    if n > 0 {
        lemma_tallest_bound(nodes, (n - 1) as nat, bound);
    }
}

/// Nodes that grew by at most one ply each make a tree at most one ply taller.
pub proof fn lemma_grown_height(new: Seq<GameTree>, old: Seq<GameTree>)
    requires
        grown_from(new, old),
    ensures
        GameTree::tallest(new, new.len()) <= GameTree::tallest(old, old.len()) + 1,
{
    let bound = GameTree::tallest(old, old.len()) + 1;
    assert forall|j: int| 0 <= j < new.len() implies (#[trigger] new[j]).height() + 1 <= bound by {
        let k = choose|k: int|
            0 <= k < old.len() && (#[trigger] new[j]).game_state == (#[trigger] old[k]).game_state
                && new[j].height() <= old[k].height() + 1;
        lemma_tallest_covers(old, old.len(), k);
    }
    lemma_tallest_bound(new, new.len(), bound);
}

/// The nodes of an expansion have no children: each is a well-formed tree
/// of no height, and a tree of them is one ply tall at most.
pub proof fn lemma_expansion_is_flat(children: Seq<GameTree>, p: Position)
    requires
        is_expansion(children, p),
        forall|k: int| 0 <= k < children.len()
            ==> -64000 <= (#[trigger] children[k]).score <= 64000,
    ensures
        forall|k: int|
            0 <= k < children.len() ==> (#[trigger] children[k]).well_formed()
                && children[k].height()
                == 0 && children[k].negamax_scored(),
        GameTree::tallest(children, children.len()) <= 1,
{
    assert forall|k: int| 0 <= k < children.len() implies (#[trigger] children[k]).well_formed()
        && children[k].height() == 0 && children[k].negamax_scored() by {
        assert(children[k].children@.len() == 0);
    }
    lemma_tallest_bound(children, children.len(), 1);
}

/// The nodes of an expansion are faithful, and the expansion holds each
/// movement that the rules allow.
pub proof fn lemma_expansion_is_faithful(children: Seq<GameTree>, p: Position)
    requires
        is_expansion(children, p),
    ensures
        forall|k: int| 0 <= k < children.len() ==> (#[trigger] children[k]).faithful(),
        covers_legal(children, p),
{
    assert forall|k: int| 0 <= k < children.len() implies (#[trigger] children[k]).faithful() by {
        assert(children[k].children@.len() == 0);
    }
    assert forall|m: Movement| #[trigger] p.legal(m, p.player_to_move) implies holds_state(
        children,
        p.after(m),
    ) by {
        assert(p.pseudo_legal(m, p.player_to_move));
    }
}

/// Where the expansion is empty, the side to move has nothing to play and
/// the game is over.
pub proof fn lemma_no_expansion_ends_game(children: Seq<GameTree>, p: Position)
    requires
        is_expansion(children, p),
        children.len() == 0,
    ensures
        p.no_legal_move(),
        p.game_over(),
{
    assert forall|m: Movement| !#[trigger] p.legal(m, p.player_to_move) by {
        if p.legal(m, p.player_to_move) {
            assert(p.pseudo_legal(m, p.player_to_move));
        }
    }
}

/// Trees that hold the same states and scores in the same shape are
/// scored by their children together.
pub proof fn lemma_same_tree_scored(a: GameTree, b: GameTree)
    requires
        a.same_tree(b),
        a.negamax_scored(),
    ensures
        b.negamax_scored(),
    decreases a,
{
    assert forall|i: int| 0 <= i < b.children@.len()
        implies (#[trigger] b.children@[i]).negamax_scored() by {
        assert(a.children@[i].same_tree(b.children@[i]));
        lemma_same_tree_scored(a.children@[i], b.children@[i]);
    }
    if b.children@.len() > 0 {
        assert(a.children@[0].same_tree(b.children@[0]));
    }
}

/// Trees that hold the same states and scores in the same shape are
/// well formed together.
pub proof fn lemma_same_tree_well_formed(a: GameTree, b: GameTree)
    requires
        a.same_tree(b),
        a.well_formed(),
    ensures
        b.well_formed(),
    decreases a,
{
    assert forall|i: int| 0 <= i < b.children@.len() implies child_of(
        b.game_state@,
        (#[trigger] b.children@[i]).game_state@,
    ) && b.children@[i].well_formed() by {
        assert(a.children@[i].same_tree(b.children@[i]));
        lemma_same_tree_well_formed(a.children@[i], b.children@[i]);
    }
    assert forall|i: int, j: int| 0 <= i < j < b.children@.len()
        implies (#[trigger] b.children@[i]).score
        >= (#[trigger] b.children@[j]).score by {
        assert(a.children@[i].same_tree(b.children@[i]));
        assert(a.children@[j].same_tree(b.children@[j]));
    }
}

/// A faithful tree whose state is sound and in which no king stands to be
/// taken can grow under any limit: while the game is not over, the child
/// of a movement that the rules allow can grow in its turn.
pub proof fn lemma_faithful_grows(node: GameTree, branch_limit: u32)
    requires
        node.faithful(),
        node.game_state@.sound(),
        !node.game_state@.king_capturable(),
    ensures
        node.can_grow(branch_limit),
    decreases node,
{
    let p = node.game_state@;
    if node.children@.len() > 0 && !p.game_over() && branch_limit != 0 {
        assert(!p.no_legal_move());
        let m = choose|m: Movement| #[trigger] p.legal(m, p.player_to_move);
        assert(holds_state(node.children@, p.after(m)));
        let k = choose|k: int|
            0 <= k < node.children@.len() && (#[trigger] node.children@[k]).game_state@ == p.after(
                m,
            );
        lemma_legal_keeps_sound(p, m);
        assert(node.children@[k].faithful());
        lemma_faithful_grows(node.children@[k], INNER_BRANCH_LIMIT);
    }
}

/// One more node of `old` is dealt with: a node that cannot grow is
/// dropped, any other is kept with its state.
pub proof fn lemma_growth_step(
    held: Seq<GameTree>,
    old: Seq<GameTree>,
    i: int,
    child: GameTree,
    keep: bool,
)
    requires
        keeps_growable(held, old, i),
        0 <= i < old.len(),
        child.game_state == old[i].game_state,
        !keep ==> !old[i].can_grow(INNER_BRANCH_LIMIT),
    ensures
        keep ==> keeps_growable(held.push(child), old, i + 1),
        !keep ==> keeps_growable(held, old, i + 1),
        keep && all_grown(held, old) && old[i].can_grow(INNER_BRANCH_LIMIT) ==> all_grown(
            held.push(child),
            old,
        ),
{
    let new = held.push(child);
    if keep {
        assert forall|k: int|
            0 <= k < i + 1 && (#[trigger] old[k]).can_grow(INNER_BRANCH_LIMIT) implies holds_state(
            new,
            old[k].game_state@,
        ) by {
            if k < i {
                let j = choose|j: int|
                    0 <= j < held.len() && (#[trigger] held[j]).game_state@ == old[k].game_state@;
                assert(new[j] == held[j]);
            } else {
                assert(new[held.len() as int].game_state@ == old[k].game_state@);
            }
        }
        if all_grown(held, old) && old[i].can_grow(INNER_BRANCH_LIMIT) {
            assert forall|j: int| 0 <= j < new.len() implies exists|k: int|
                0 <= k < old.len() && (#[trigger] new[j]).game_state == (
                #[trigger] old[k]).game_state && old[k].can_grow(INNER_BRANCH_LIMIT) by {
                if j == held.len() {
                    assert(new[j].game_state == old[i].game_state);
                } else {
                    assert(new[j] == held[j]);
                    let k = choose|k: int|
                        0 <= k < old.len() && (#[trigger] held[j]).game_state == (
                        #[trigger] old[k]).game_state && old[k].can_grow(INNER_BRANCH_LIMIT);
                    assert(new[j].game_state == old[k].game_state);
                }
            }
        }
    }
}

/// What growth has kept, it keeps in any order.
pub proof fn lemma_rearranged_growth(
    new: Seq<GameTree>,
    held: Seq<GameTree>,
    order: Seq<int>,
    old: Seq<GameTree>,
    i: int,
)
    requires
        is_rearrangement(new, held, order),
    ensures
        keeps_growable(held, old, i) ==> keeps_growable(new, old, i),
        all_grown(held, old) ==> all_grown(new, old),
        (forall|j: int| 0 <= j < held.len() ==> (#[trigger] held[j]).faithful()) ==> (forall|
            j: int,
        |
            0 <= j < new.len() ==> (#[trigger] new[j]).faithful()),
{
    if forall|j: int| 0 <= j < held.len() ==> (#[trigger] held[j]).faithful() {
        assert forall|j: int| 0 <= j < new.len() implies (#[trigger] new[j]).faithful() by {
            assert(new[j] == held[order[j]]);
        }
    }
    if keeps_growable(held, old, i) {
        assert forall|k: int|
            0 <= k < i && (#[trigger] old[k]).can_grow(INNER_BRANCH_LIMIT) implies holds_state(
            new,
            old[k].game_state@,
        ) by {
            let j = choose|j: int|
                0 <= j < held.len() && (#[trigger] held[j]).game_state@ == old[k].game_state@;
            assert(names(order, j));
            let t = choose|t: int| 0 <= t < order.len() && #[trigger] order[t] == j;
            assert(new[t] == held[j]);
        }
    }
    if all_grown(held, old) {
        assert forall|j: int| 0 <= j < new.len() implies exists|k: int|
            0 <= k < old.len() && (#[trigger] new[j]).game_state == (#[trigger] old[k]).game_state
                && old[k].can_grow(INNER_BRANCH_LIMIT) by {
            let j0 = order[j];
            assert(new[j] == held[j0]);
            let k = choose|k: int|
                0 <= k < old.len() && (#[trigger] held[j0]).game_state == (
                #[trigger] old[k]).game_state && old[k].can_grow(INNER_BRANCH_LIMIT);
            assert(new[j].game_state == old[k].game_state);
        }
    }
}

/// Where faithful children held each movement that the rules allow in a
/// sound position, and growth kept each child that can grow, what is kept
/// holds each of these movements still.
pub proof fn lemma_kept_covers(old: Seq<GameTree>, kept: Seq<GameTree>, p: Position)
    requires
        p.sound(),
        covers_legal(old, p),
        forall|k: int| 0 <= k < old.len() ==> (#[trigger] old[k]).faithful(),
        keeps_growable(kept, old, old.len() as int),
    ensures
        covers_legal(kept, p),
{
    assert forall|m: Movement| #[trigger] p.legal(m, p.player_to_move) implies holds_state(
        kept,
        p.after(m),
    ) by {
        assert(holds_state(old, p.after(m)));
        let k = choose|k: int| 0 <= k < old.len() && (#[trigger] old[k]).game_state@ == p.after(m);
        lemma_legal_keeps_sound(p, m);
        lemma_faithful_grows(old[k], INNER_BRANCH_LIMIT);
    }
}

/// Nodes that each hold the state of a faithful node that can grow hold
/// no position in which a king stands to be taken.
pub proof fn lemma_grown_is_guarded(kept: Seq<GameTree>, old: Seq<GameTree>)
    requires
        all_grown(kept, old),
        forall|k: int| 0 <= k < old.len() ==> (#[trigger] old[k]).faithful(),
    ensures
        all_guarded(kept),
{
    assert forall|j: int| 0 <= j < kept.len() implies !(
    #[trigger] kept[j]).game_state@.king_capturable() by {
        let k = choose|k: int|
            0 <= k < old.len() && (#[trigger] kept[j]).game_state == (#[trigger] old[k]).game_state
                && old[k].can_grow(INNER_BRANCH_LIMIT);
        assert(old[k].faithful());
    }
}

/// Nodes that each hold the state of one of a list of guarded nodes are guarded.
pub proof fn lemma_guarded_stays(kept: Seq<GameTree>, old: Seq<GameTree>)
    requires
        grown_from(kept, old),
        all_guarded(old),
    ensures
        all_guarded(kept),
{
    assert forall|j: int| 0 <= j < kept.len() implies !(
    #[trigger] kept[j]).game_state@.king_capturable() by {
        let k = choose|k: int|
            0 <= k < old.len() && (#[trigger] kept[j]).game_state == (#[trigger] old[k]).game_state
                && kept[j].height() <= old[k].height() + 1;
    }
}

/// What the children that growth has kept say of the node: some are left
/// exactly when the limit lets no child grow or some child could grow, and
/// a faithful node is left faithful by them.
pub proof fn lemma_growth_settles(node: GameTree, kept: Seq<GameTree>, branch_limit: u32)
    requires
        node.children@.len() > 0,
        kept.len() <= node.children@.len(),
        keeps_growable(kept, node.children@, node.children@.len() as int),
        branch_limit == 0 ==> kept.len() == node.children@.len(),
        kept.len() > 0 && branch_limit > 0 ==> some_can_grow(node.children@),
        node.faithful() ==> forall|j: int| 0 <= j < kept.len() ==> (#[trigger] kept[j]).faithful(),
    ensures
        (kept.len() > 0 || node.game_state@.game_over()) <==> node.can_grow(branch_limit),
        node.faithful() ==> {
            &&& !node.game_state@.king_capturable()
            &&& exists|l: Seq<Movement>| #[trigger]
                lists_pseudo_legal(l, node.game_state@, node.game_state@.player_to_move)
                    && kept.len() <= l.len()
            &&& (node.game_state@.sound() ==> covers_legal(kept, node.game_state@))
        },
{
    let old = node.children@;
    if some_can_grow(old) {
        let k = choose|k: int| 0 <= k < old.len() && (#[trigger] old[k]).can_grow(
            INNER_BRANCH_LIMIT,
        );
        assert(holds_state(kept, old[k].game_state@));
    }
    if node.faithful() {
        let l = choose|l: Seq<Movement>| #[trigger]
            lists_pseudo_legal(l, node.game_state@, node.game_state@.player_to_move) && old.len()
                <= l.len();
        assert(lists_pseudo_legal(l, node.game_state@, node.game_state@.player_to_move)
            && kept.len() <= l.len());
        if node.game_state@.sound() {
            lemma_kept_covers(old, kept, node.game_state@);
        }
    }
}

/// Trees that hold the same states and scores in the same shape are
/// faithful together.
pub proof fn lemma_same_tree_faithful(a: GameTree, b: GameTree)
    requires
        a.same_tree(b),
        a.faithful(),
    ensures
        b.faithful(),
    decreases a,
{
    assert forall|i: int| 0 <= i < b.children@.len() implies (#[trigger] b.children@[i]).faithful() by {
        assert(a.children@[i].same_tree(b.children@[i]));
        lemma_same_tree_faithful(a.children@[i], b.children@[i]);
    }
    if b.children@.len() > 0 {
        let p = a.game_state@;
        let l = choose|l: Seq<Movement>| #[trigger]
            lists_pseudo_legal(l, p, p.player_to_move) && a.children@.len() <= l.len();
        assert(lists_pseudo_legal(l, b.game_state@, b.game_state@.player_to_move)
            && b.children@.len() <= l.len());
        if p.sound() {
            assert forall|m: Movement| #[trigger] p.legal(m, p.player_to_move) implies holds_state(
                b.children@,
                p.after(m),
            ) by {
                assert(holds_state(a.children@, p.after(m)));
                let k = choose|k: int|
                    0 <= k < a.children@.len() && (#[trigger] a.children@[k]).game_state@
                        == p.after(m);
                assert(a.children@[k].same_tree(b.children@[k]));
            }
        }
    }
}

/// One more node is dealt with by a search without pruning: a node that
/// was searched is kept exactly if it can be searched, any other is kept.
pub proof fn lemma_search_kept_step(
    old: Seq<GameTree>,
    i: int,
    kept: Seq<GameTree>,
    tried: int,
    depth: nat,
    branch_limit: u32,
    child: GameTree,
    keep: bool,
)
    requires
        search_kept(old, i, kept, tried, depth, branch_limit),
        0 <= i < old.len(),
        0 <= tried,
        child.game_state == old[i].game_state,
        tried < branch_limit ==> keep == old[i].can_search(depth, branch_limit),
        tried >= branch_limit ==> keep,
    ensures
        keep && tried < branch_limit ==> search_kept(
            old,
            i + 1,
            kept.push(child),
            tried + 1,
            depth,
            branch_limit,
        ),
        keep && tried >= branch_limit ==> search_kept(
            old,
            i + 1,
            kept.push(child),
            tried,
            depth,
            branch_limit,
        ),
        !keep ==> search_kept(old, i + 1, kept, tried, depth, branch_limit),
{
    if keep {
        let new = kept.push(child);
        assert forall|k: int|
            0 <= k < i + 1 && (#[trigger] old[k]).can_search(
                depth,
                branch_limit,
            ) implies holds_state(new, old[k].game_state@) by {
            if k < i {
                let j = choose|j: int|
                    0 <= j < kept.len() && (#[trigger] kept[j]).game_state@ == old[k].game_state@;
                assert(new[j] == kept[j]);
            } else {
                assert(new[kept.len() as int].game_state@ == old[k].game_state@);
            }
        }
    }
}

/// What a search without pruning has kept, it keeps in any order.
pub proof fn lemma_search_kept_arranged(
    new: Seq<GameTree>,
    held: Seq<GameTree>,
    order: Seq<int>,
    old: Seq<GameTree>,
    i: int,
    tried: int,
    depth: nat,
    branch_limit: u32,
)
    requires
        is_rearrangement(new, held, order),
        search_kept(old, i, held, tried, depth, branch_limit),
    ensures
        search_kept(old, i, new, tried, depth, branch_limit),
{
    assert forall|k: int|
        0 <= k < i && (#[trigger] old[k]).can_search(depth, branch_limit) implies holds_state(
        new,
        old[k].game_state@,
    ) by {
        let j = choose|j: int|
            0 <= j < held.len() && (#[trigger] held[j]).game_state@ == old[k].game_state@;
        assert(names(order, j));
        let t = choose|t: int| 0 <= t < order.len() && #[trigger] order[t] == j;
        assert(new[t] == held[j]);
    }
}

/// With one ply a position can be searched exactly when no king stands to
/// be taken in it.
pub proof fn lemma_searchable_one_ply(p: Position)
    ensures
        p.searchable(1) <==> !p.king_capturable(),
{
    if !p.king_capturable() && !p.game_over() {
        assert(!p.no_legal_move());
        let m = choose|m: Movement| #[trigger] p.legal(m, p.player_to_move);
        assert(p.pseudo_legal(m, p.player_to_move) && p.after(m).searchable(0));
    }
}

/// When a search without pruning of two plies or more has dealt with all
/// the children of a node, some are left or the game is over exactly when
/// the search succeeds from the node: from a node that had children, as
/// its children say; from a node that was expanded, as its state says.
pub proof fn lemma_search_settles(
    node: GameTree,
    old: Seq<GameTree>,
    kept: Seq<GameTree>,
    tried: int,
    depth: nat,
    branch_limit: u32,
)
    requires
        depth >= 2,
        search_kept(old, old.len() as int, kept, tried, (depth - 1) as nat, branch_limit),
        node.children@.len() > 0 ==> old == node.children@,
        node.children@.len() == 0 ==> is_expansion(old, node.game_state@)
            && !node.game_state@.king_capturable(),
    ensures
        (kept.len() > 0 || node.game_state@.game_over()) <==> node.can_search(depth, branch_limit),
{
    let p = node.game_state@;
    let d = (depth - 1) as nat;
    if some_can_search(old, d, branch_limit) {
        let k = choose|k: int|
            0 <= k < old.len() && (#[trigger] old[k]).can_search(d, branch_limit);
        assert(holds_state(kept, old[k].game_state@));
    }
    if node.children@.len() == 0 {
        lemma_searchable(p, depth);
        if old.len() == 0 {
            lemma_no_expansion_ends_game(old, p);
        }
        if branch_limit > 0 {
            if d == 1 {
                assert forall|k: int| 0 <= k < old.len() implies (#[trigger] old[k]).can_search(
                    d,
                    branch_limit,
                ) == old[k].game_state@.searchable(d) by {}
            }
            if some_can_search(old, d, branch_limit) {
                let k = choose|k: int|
                    0 <= k < old.len() && (#[trigger] old[k]).can_search(d, branch_limit);
                assert(old[k].children@.len() == 0);
                assert(child_of(p, old[k].game_state@));
                assert(p.reply(old[k].game_state@.last_move->0, depth));
            }
            if p.has_reply(depth) {
                let m = choose|m: Movement| #[trigger] p.reply(m, depth);
                let k = choose|k: int|
                    0 <= k < old.len() && (#[trigger] old[k]).game_state@ == p.after(m);
                assert(old[k].children@.len() == 0);
                assert(old[k].can_search(d, branch_limit));
            }
        }
    }
}

} // verus!
