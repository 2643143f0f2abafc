use vstd::prelude::*;
use crate::controllers::controller::{Command, Controller};
use crate::controllers::game_tree::{
    all_guarded, covers_legal, holds_state, lemma_faithful_grows, lemma_grown_is_guarded,
    lemma_guarded_stays, lemma_same_tree_faithful, lemma_same_tree_scored,
    lemma_same_tree_well_formed, GameTree, INNER_BRANCH_LIMIT,
};
use crate::controllers::worth::{child_of, lemma_guarded_is_legal};
use crate::model::game_state::{standard_start, GameState};
use crate::model::movement::Movement;
use crate::model::position::Position;

verus! {

/// The number of children that are grown at the root when a player's tree
/// is first grown for a turn.
pub const ROOT_BRANCH_LIMIT: u32 = 255;

/// The position is sound, no king stands to be taken in it, and the side
/// to move has no more movements to choose from than are grown at the root.
pub open spec fn fit_to_grow(p: Position) -> bool {
    &&& p.sound()
    &&& !p.king_capturable()
    &&& p.narrow(1, ROOT_BRANCH_LIMIT as int)
}

/// `grown` is a tree for the position `p` from which a movement is taken:
/// its children stand best score first, each node with children is scored
/// by its best child, and it has a child to take. Where `p` is fit to
/// grow, it has a child for each movement that the rules allow, and no
/// king stands to be taken in the state of any child.
pub open spec fn grown_for(grown: GameTree, p: Position) -> bool {
    &&& grown.game_state@ == p
    &&& grown.well_formed()
    &&& grown.negamax_scored()
    &&& grown.faithful()
    &&& grown.children@.len() > 0
    &&& (fit_to_grow(p) ==> covers_legal(grown.children@, p) && all_guarded(grown.children@))
}

/// A player that grows its tree ply by ply, a bounded number of branches
/// at each node, keeps the tree from turn to turn, and plays the movement
/// of the child that scores best.
pub struct MinimaxBot {
    depth: u32,
    tree: GameTree,
}

impl MinimaxBot {
    /// The tree is well formed and faithful, and each node is scored by its children.
    #[verifier::type_invariant]
    closed spec fn tree_is_well_formed(self) -> bool {
        self.tree.well_formed() && self.tree.negamax_scored() && self.tree.faithful()
    }

    /// The number of plies to which the player grows its tree.
    pub closed spec fn plies(&self) -> nat {
        self.depth as nat
    }

    /// The tree that the player keeps.
    pub closed spec fn root(&self) -> GameTree {
        self.tree
    }

    /// The position at the root of the player's tree.
    pub open spec fn position(&self) -> Position {
        self.root().game_state@
    }

    /// A player that looks `depth` plies ahead, set up for the start of a
    /// game of standard chess.
    pub fn new(depth: u32) -> (bot: MinimaxBot)
        ensures
            bot.plies() == depth,
            bot.position() == standard_start(),
            bot.root().children@.len() == 0,
    {
        MinimaxBot { tree: GameTree::leaf(GameState::new(), 0), depth }
    }

    /// Goes on from the given state: with the subtree of that state where
    /// the tree has one, from a single node otherwise.
    fn update_tree(&mut self, game_state: &GameState)
        ensures
            final(self).position() == game_state@,
            final(self).plies() == old(self).plies(),
    {
        proof {
            use_type_invariant(&*self);
        }
        let mut tree = GameTree::leaf(game_state.deepclone(), 0);
        std::mem::swap(&mut self.tree, &mut tree);
        let root = GameTree::descend(tree, game_state);
        self.tree = root;
    }

    /// Grows the tree from the given state and gives the movement of the
    /// child that scores best. The tree is grown twice under the limit of
    /// the root, then once more for each ply that it is short of; where
    /// one of the first two rounds or the last leaves it without children,
    /// nothing is given. The tree goes on from the child whose movement is
    /// given, with what was computed below it.
    ///
    /// From a position that is fit to grow, a movement is given exactly
    /// when the rules allow one, and the rules allow the one that is given.
    pub fn choose_move(&mut self, game_state: &GameState) -> (r: Option<Movement>)
        ensures
            final(self).plies() == old(self).plies(),
            r matches Some(m) ==> game_state@.pseudo_legal(m, game_state@.player_to_move)
                && final(self).position() == game_state@.after(m),
            r is None ==> final(self).position() == game_state@,
            fit_to_grow(game_state@) ==> {
                &&& r is Some <==> !game_state@.no_legal_move()
                &&& r matches Some(m) ==> game_state@.legal(m, game_state@.player_to_move)
            },
            r is Some ==> exists|grown: GameTree| #[trigger]
                grown_for(grown, game_state@) && grown.children@[0] == final(self).root(),
    {
        if !game_state.same_as(&self.tree.game_state) {
            self.update_tree(game_state);
        }
        proof {
            use_type_invariant(&*self);
        }
        let ghost p = game_state@;
        let ghost fit = fit_to_grow(p);
        let depth = self.depth;
        let mut tree = GameTree::leaf(game_state.deepclone(), 0);
        std::mem::swap(&mut self.tree, &mut tree);
        proof {
            if fit {
                lemma_faithful_grows(tree, ROOT_BRANCH_LIMIT);
            }
        }
        let _ = tree.expand_leaves(ROOT_BRANCH_LIMIT);
        if tree.children.len() == 0 {
            proof {
                lemma_nothing_held(tree.children@, p);
            }
            self.tree = tree;
            return None;
        }
        let ghost once = tree;
        proof {
            if fit {
                lemma_faithful_grows(tree, ROOT_BRANCH_LIMIT);
            }
        }
        let _ = tree.expand_leaves(ROOT_BRANCH_LIMIT);
        proof {
            if fit {
                assert(once.faithful());
                assert(once.children@.len() <= ROOT_BRANCH_LIMIT);
                lemma_grown_is_guarded(tree.children@, once.children@);
            }
        }
        if tree.children.len() == 0 {
            proof {
                lemma_nothing_held(tree.children@, p);
            }
            self.tree = tree;
            return None;
        }
        proof {
            if fit {
                lemma_first_is_legal(tree);
            }
        }
        let mut rounds: u32 = 0;
        while rounds < depth && tree.get_depth() < depth
            invariant
                tree.game_state@ == p,
                tree.well_formed(),
                tree.negamax_scored(),
                tree.faithful(),
                fit == fit_to_grow(p),
                fit ==> !p.no_legal_move(),
                fit ==> tree.children@.len() > 0 && covers_legal(tree.children@, p) && all_guarded(
                    tree.children@,
                ),
            decreases depth - rounds,
        {
            let ghost prior = tree;
            proof {
                if fit {
                    lemma_faithful_grows(tree, INNER_BRANCH_LIMIT);
                }
            }
            let _ = tree.expand_leaves(INNER_BRANCH_LIMIT);
            proof {
                if fit {
                    lemma_guarded_stays(tree.children@, prior.children@);
                    lemma_something_held(tree.children@, p);
                }
            }
            rounds += 1;
        }
        if tree.children.len() == 0 {
            self.tree = tree;
            return None;
        }
        let ghost grown = tree;
        let mut children: Vec<GameTree> = Vec::new();
        std::mem::swap(&mut tree.children, &mut children);
        let chosen_child = children.swap_remove(0);
        let chosen_movement = chosen_child.game_state.last_move;
        proof {
            assert(chosen_child == grown.children@[0]);
            assert(grown_for(grown, p));
            if fit {
                lemma_first_is_legal(grown);
            }
        }
        self.tree = chosen_child;
        chosen_movement
    }
}

/// Where children that hold each movement that the rules allow are none,
/// the rules allow no movement.
pub proof fn lemma_nothing_held(children: Seq<GameTree>, p: Position)
    requires
        children.len() == 0,
    ensures
        covers_legal(children, p) ==> p.no_legal_move(),
{
    if covers_legal(children, p) {
        assert forall|m: Movement| !#[trigger] p.legal(m, p.player_to_move) by {
            if p.legal(m, p.player_to_move) {
                assert(holds_state(children, p.after(m)));
            }
        }
    }
}

/// Where the rules allow a movement, children that hold each such
/// movement are some.
pub proof fn lemma_something_held(children: Seq<GameTree>, p: Position)
    requires
        covers_legal(children, p),
        !p.no_legal_move(),
    ensures
        children.len() > 0,
{
    let m = choose|m: Movement| #[trigger] p.legal(m, p.player_to_move);
    assert(holds_state(children, p.after(m)));
}

/// In a well-formed tree for a sound position, the rules allow the
/// movement of a first child in whose state no king stands to be taken.
pub proof fn lemma_first_is_legal(tree: GameTree)
    requires
        tree.well_formed(),
        tree.game_state@.sound(),
        tree.children@.len() > 0,
        all_guarded(tree.children@),
    ensures
        tree.children@[0].game_state@.last_move matches Some(m) && tree.game_state@.legal(
            m,
            tree.game_state@.player_to_move,
        ),
        !tree.game_state@.no_legal_move(),
{
    let p = tree.game_state@;
    let q = tree.children@[0].game_state@;
    assert(child_of(p, q));
    let m = q.last_move->0;
    lemma_guarded_is_legal(p, m);
}

impl Clone for MinimaxBot {
    fn clone(&self) -> (copy: MinimaxBot)
        ensures
            copy.plies() == self.plies(),
            copy.position() == self.position(),
            self.root().same_tree(copy.root()),
    {
        proof {
            use_type_invariant(self);
        }
        let tree = self.tree.duplicate();
        proof {
            lemma_same_tree_well_formed(self.tree, tree);
            lemma_same_tree_scored(self.tree, tree);
            lemma_same_tree_faithful(self.tree, tree);
        }
        MinimaxBot { depth: self.depth, tree }
    }
}

impl Controller for MinimaxBot {
    /// A movement of the side to move as its pieces move, or giving up;
    /// from a position that is fit to grow, a movement that the rules
    /// allow, or giving up where they allow none.
    open spec fn may_choose(&self, game_state: GameState, cmd: Command) -> bool {
        match cmd {
            Command::Move(m) => {
                &&& game_state@.pseudo_legal(m, game_state@.player_to_move)
                &&& (fit_to_grow(game_state@) ==> game_state@.legal(
                    m,
                    game_state@.player_to_move,
                ))
            },
            Command::Resign => fit_to_grow(game_state@) ==> game_state@.no_legal_move(),
            _ => false,
        }
    }

    /// The state is left as it was handed.
    open spec fn may_leave(&self, game_state: GameState, left: GameState) -> bool {
        left == game_state
    }

    /// The movement of the child that scores best; where the tree is left
    /// without children, the player resigns.
    fn choose_command(&mut self, game_state: &mut GameState) -> (cmd: Command)
        ensures
            *final(game_state) == *old(game_state),
            final(self).plies() == old(self).plies(),
            match cmd {
                Command::Move(m) => {
                    &&& old(game_state)@.pseudo_legal(m, old(game_state)@.player_to_move)
                    &&& final(self).position() == old(game_state)@.after(m)
                    &&& exists|grown: GameTree| #[trigger]
                        grown_for(grown, old(game_state)@)
                            && grown.children@[0] == final(self).root()
                },
                Command::Resign => final(self).position() == old(game_state)@,
                _ => false,
            },
            fit_to_grow(old(game_state)@) ==> (cmd is Resign <==> old(game_state)@.no_legal_move()),
    {
        match self.choose_move(game_state) {
            Some(movement) => Command::Move(movement),
            None => Command::Resign,
        }
    }
}

} // verus!
