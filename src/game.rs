use vstd::prelude::*;

use crate::color::Color;
use crate::error::{fails_with, BadukError, BadukErrorKind};
use crate::model::BoardView;
use crate::position::Position;
use crate::state::{empty_board, move_outcome, view_of, GameState};
use crate::token::{
    forest_branches, forest_count, forest_fanout, lemma_forest_concat, lemma_forest_single,
    lemma_source_branches_len, source_branches, source_count, source_fanout, source_nodes, SourceTree,
    SourceNode, Token, forest_nodes,
};

verus! {

/// The index of a node in a tree's node list.
pub type GameTreeIndex = usize;

/// A node of the history: its parent, the board after its tokens, the
/// tokens applied at it, and its children in order of creation.
#[derive(Debug)]
pub struct GameTreeNode {
    pub parent: Option<GameTreeIndex>,
    pub state: Option<GameState>,
    pub tokens: Vec<Token>,
    pub children: Vec<GameTreeIndex>,
}

impl GameTreeNode {
    fn new() -> (r: GameTreeNode)
        ensures
            r.parent is None,
            r.state is None,
            r.tokens@.len() == 0,
            r.children@.len() == 0,
    {
        GameTreeNode { parent: None, state: None, tokens: Vec::new(), children: Vec::new() }
    }
}

/// A branching history of a game: an append-only list of nodes whose
/// first node is the root, and a cursor at the node most recently made
/// or played on.
#[derive(Debug)]
pub struct GameTree {
    pub root: GameTreeIndex,
    pub nodes: Vec<GameTreeNode>,
    pub current: GameTreeIndex,
}

/// The board of a node, if it has one.
pub open spec fn board_of(n: GameTreeNode) -> Option<BoardView> {
    match n.state {
        Some(s) => Some(s@),
        None => None,
    }
}

impl GameTree {
    /// The root is the first node and has no parent, every other node's
    /// parent comes before it, children lists name later nodes whose parent
    /// is the listing node, and every stored board is well formed.
    pub open spec fn wf(&self) -> bool {
        &&& self.root == 0
        &&& self.nodes@.len() >= 1
        &&& self.current < self.nodes@.len()
        &&& self.nodes@[0].parent is None
        &&& forall|i: int|
            #![trigger self.nodes@[i].parent]
            0 < i < self.nodes@.len() ==> self.nodes@[i].parent is Some && self.nodes@[i].parent->0 < i
        &&& forall|i: int, k: int|
            #![trigger self.nodes@[i].children@[k]]
            0 <= i < self.nodes@.len() && 0 <= k < self.nodes@[i].children@.len() ==> {
                let c = self.nodes@[i].children@[k] as int;
                i < c < self.nodes@.len() && self.nodes@[c].parent == Some(i as usize)
            }
        &&& forall|i: int|
            0 <= i < self.nodes@.len() ==> (#[trigger] self.nodes@[i].state is Some
                ==> self.nodes@[i].state->0.wf())
    }

    /// The board of the parent of `node`, if there is one with a board.
    pub open spec fn parent_board(&self, node: int) -> Option<BoardView> {
        match self.nodes@[node].parent {
            Some(p) => board_of(self.nodes@[p as int]),
            None => None,
        }
    }

    /// `self` is `old` with one node added after the others, as a child of
    /// `parent`, and the cursor on it.
    pub open spec fn grown_from(self, old: GameTree, parent: int) -> bool {
        let n = old.nodes@.len() as int;
        &&& self.nodes@.len() == n + 1
        &&& self.root == old.root
        &&& self.current == n
        &&& self.nodes@[n].parent == Some(parent as usize)
        &&& self.nodes@[n].children@.len() == 0
        &&& self.nodes@[parent].children@ == old.nodes@[parent].children@.push(n as usize)
        &&& self.nodes@[parent].parent == old.nodes@[parent].parent
        &&& self.nodes@[parent].tokens@ == old.nodes@[parent].tokens@
        &&& self.nodes@[parent].state == old.nodes@[parent].state
        &&& forall|i: int| 0 <= i < n && i != parent ==> #[trigger] self.nodes@[i] == old.nodes@[i]
    }

    /// `self` is `old` with only the tokens and the board of `node` changed.
    pub open spec fn node_changed(self, old: GameTree, node: int) -> bool {
        &&& self.nodes@.len() == old.nodes@.len()
        &&& self.root == old.root
        &&& self.current == old.current
        &&& self.nodes@[node].parent == old.nodes@[node].parent
        &&& self.nodes@[node].children == old.nodes@[node].children
        &&& forall|i: int|
            0 <= i < old.nodes@.len() && i != node ==> #[trigger] self.nodes@[i] == old.nodes@[i]
    }

    /// A tree of one node, the root, holding an empty board of the given
    /// size and the token that sets it.
    pub fn new(width: u32, height: u32) -> (r: GameTree)
        requires
            width * height <= u32::MAX,
        ensures
            r.wf(),
            r.nodes@.len() == 1,
            r.current == 0,
            board_of(r.nodes@[0]) == Some(empty_board(width as int, height as int)),
            r.nodes@[0].tokens@ == seq![Token::Size(width, height)],
            r.nodes@[0].children@.len() == 0,
    {
        let mut root = GameTreeNode::new();
        root.tokens.push(Token::Size(width, height));
        root.state = Some(GameState::new(width, height));
        let mut nodes: Vec<GameTreeNode> = Vec::new();
        nodes.push(root);
        GameTree { root: 0, current: 0, nodes }
    }

    pub fn count_nodes(&self) -> (r: usize)
        ensures
            r == self.nodes@.len(),
    {
        self.nodes.len()
    }

    pub fn get_node(&self, node: GameTreeIndex) -> (r: Option<&GameTreeNode>)
        ensures
            node < self.nodes@.len() ==> r is Some && *r->0 == self.nodes@[node as int],
            node >= self.nodes@.len() ==> r is None,
    {
        if node < self.nodes.len() {
            Some(&self.nodes[node])
        } else {
            None
        }
    }

    /// The board at the cursor, if that node has one.
    pub fn current_state(&self) -> (r: Option<&GameState>)
        requires
            self.wf(),
        ensures
            r is Some <==> self.nodes@[self.current as int].state is Some,
            r is Some ==> *r->0 == self.nodes@[self.current as int].state->0,
    {
        match &self.nodes[self.current].state {
            Some(s) => Some(s),
            None => None,
        }
    }

    /// Appends a child of `parent` with the given tokens and board, and
    /// moves the cursor to it.
    fn add_node(&mut self, parent: GameTreeIndex, tokens: Vec<Token>, state: Option<GameState>) -> (r:
        GameTreeIndex)
        requires
            old(self).wf(),
            parent < old(self).nodes@.len(),
            old(self).nodes@.len() < usize::MAX,
            state is Some ==> state->0.wf(),
        ensures
            final(self).wf(),
            r == old(self).nodes@.len(),
            final(self).grown_from(*old(self), parent as int),
            final(self).nodes@[r as int].tokens == tokens,
            final(self).nodes@[r as int].state == state,
    {
        let new_id = self.nodes.len();
        let new_node = GameTreeNode { parent: Some(parent), state, tokens, children: Vec::new() };
        let mut slot = GameTreeNode::new();
        self.nodes.set_and_swap(parent, &mut slot);
        slot.children.push(new_id);
        self.nodes.set_and_swap(parent, &mut slot);
        self.nodes.push(new_node);
        self.current = new_id;
        proof {
            let n = old(self).nodes@.len() as int;
            assert forall|i: int, k: int|
                0 <= i < self.nodes@.len() && 0 <= k < self.nodes@[i].children@.len() implies {
                let c = #[trigger] self.nodes@[i].children@[k] as int;
                i < c < self.nodes@.len() && self.nodes@[c].parent == Some(i as usize)
            } by {
                if i == parent as int && k == self.nodes@[i].children@.len() - 1 {
                } else if i != n {
                    assert(old(self).nodes@[i].children@[k] == self.nodes@[i].children@[k]);
                }
            }
            assert forall|i: int|
                0 <= i < self.nodes@.len() implies (#[trigger] self.nodes@[i].state is Some
                ==> self.nodes@[i].state->0.wf()) by {
                if i < n {
                    assert(old(self).nodes@[i].state is Some ==> old(self).nodes@[i].state->0.wf());
                }
            }
        }
        new_id
    }

    /// Appends a child of `parent` with a copy of its board and no tokens,
    /// and moves the cursor to it.
    pub fn create_new_node(&mut self, parent: GameTreeIndex) -> (r: GameTreeIndex)
        requires
            old(self).wf(),
            parent < old(self).nodes@.len(),
            old(self).nodes@.len() < usize::MAX,
        ensures
            final(self).wf(),
            r == old(self).nodes@.len(),
            final(self).grown_from(*old(self), parent as int),
            final(self).nodes@[r as int].tokens@.len() == 0,
            board_of(final(self).nodes@[r as int]) == board_of(old(self).nodes@[parent as int]),
    {
        let state = match &self.nodes[parent].state {
            Some(s) => Some(s.copy()),
            None => None,
        };
        self.add_node(parent, Vec::new(), state)
    }

    /// Records `token` on `node` without acting on it.
    pub fn add_token(&mut self, node: GameTreeIndex, token: &Token) -> (r: GameTreeIndex)
        requires
            old(self).wf(),
            node < old(self).nodes@.len(),
        ensures
            final(self).wf(),
            r == node,
            final(self).node_changed(*old(self), node as int),
            final(self).nodes@[node as int].tokens@ == old(self).nodes@[node as int].tokens@.push(
                *token,
            ),
            final(self).nodes@[node as int].state == old(self).nodes@[node as int].state,
    {
        let mut slot = GameTreeNode::new();
        self.nodes.set_and_swap(node, &mut slot);
        slot.tokens.push(token.clone());
        self.nodes.set_and_swap(node, &mut slot);
        proof {
            self.lemma_wf_after_change(*old(self), node as int);
        }
        node
    }

    /// Records `token` on `node` and sets the node's board to `state`.
    fn record_on_node(&mut self, node: GameTreeIndex, token: Token, state: GameState)
        requires
            old(self).wf(),
            node < old(self).nodes@.len(),
            state.wf(),
        ensures
            final(self).wf(),
            final(self).node_changed(*old(self), node as int),
            final(self).nodes@[node as int].tokens@ == old(self).nodes@[node as int].tokens@.push(
                token,
            ),
            board_of(final(self).nodes@[node as int]) == Some(state@),
    {
        let mut slot = GameTreeNode::new();
        self.nodes.set_and_swap(node, &mut slot);
        slot.tokens.push(token);
        slot.state = Some(state);
        self.nodes.set_and_swap(node, &mut slot);
        proof {
            self.lemma_wf_after_change(*old(self), node as int);
        }
    }

    proof fn lemma_wf_after_change(self, old: GameTree, node: int)
        requires
            old.wf(),
            0 <= node < old.nodes@.len(),
            self.node_changed(old, node),
            self.nodes@[node].state is Some ==> self.nodes@[node].state->0.wf(),
        ensures
            self.wf(),
    {
        assert forall|i: int, k: int|
            0 <= i < self.nodes@.len() && 0 <= k < self.nodes@[i].children@.len() implies {
            let c = #[trigger] self.nodes@[i].children@[k] as int;
            i < c < self.nodes@.len() && self.nodes@[c].parent == Some(i as usize)
        } by {
            assert(old.nodes@[i].children@[k] == self.nodes@[i].children@[k]);
        }
        assert forall|i: int| 0 < i < self.nodes@.len() implies #[trigger] self.nodes@[i].parent
            is Some && self.nodes@[i].parent->0 < i by {
            assert(old.nodes@[i].parent == self.nodes@[i].parent);
        }
        assert forall|i: int|
            0 <= i < self.nodes@.len() implies (#[trigger] self.nodes@[i].state is Some
            ==> self.nodes@[i].state->0.wf()) by {
            if i != node {
                assert(old.nodes@[i].state is Some ==> old.nodes@[i].state->0.wf());
            }
        }
    }

    /// Gives the root a fresh empty board of the given size and records the
    /// size token. Fails on any node but the root, and on a size whose
    /// area does not fit in a `u32`.
    pub fn set_size(&mut self, width: u32, height: u32, node: GameTreeIndex) -> (r: Result<
        GameTreeIndex,
        BadukError,
    >)
        requires
            old(self).wf(),
            node < old(self).nodes@.len(),
        ensures
            final(self).wf(),
            node != 0 ==> fails_with(r, BadukErrorKind::InvalidRootNode) && *final(self) == *old(
                self,
            ),
            node == 0 && width * height > u32::MAX ==> fails_with(r, BadukErrorKind::InvalidInput)
                && *final(self) == *old(self),
            node == 0 && width * height <= u32::MAX ==> r == Ok::<usize, BadukError>(node)
                && final(self).node_changed(*old(self), 0) && final(self).nodes@[0].tokens@
                == old(self).nodes@[0].tokens@.push(Token::Size(width, height)) && board_of(
                final(self).nodes@[0],
            ) == Some(empty_board(width as int, height as int)),
    {
        if node != self.root {
            return Err(BadukError::from(BadukErrorKind::InvalidRootNode));
        }
        proof {
            let (w, h) = (width as int, height as int);
            assert(w * h <= u32::MAX * u32::MAX) by (nonlinear_arith)
                requires
                    0 <= w <= u32::MAX,
                    0 <= h <= u32::MAX,
            ;
        }
        if width as u64 * height as u64 > u32::MAX as u64 {
            return Err(BadukError::from(BadukErrorKind::InvalidInput));
        }
        let state = GameState::new(width, height);
        self.record_on_node(node, Token::Size(width, height), state);
        Ok(node)
    }

    /// Places a setup stone on the cursor's board, without any legality
    /// check, and records it there; returns the cursor.
    pub fn add_stone(&mut self, pos: Position, color: Color) -> (r: Result<GameTreeIndex, BadukError>)
        requires
            old(self).wf(),
        ensures
            final(self).wf(),
            setup_stone_outcome(*old(self), *final(self), r, pos, color, old(self).current as int),
    {
        let node = self.current;
        self.add_stone_on_node(pos, color, node)
    }

    /// Places a setup stone on the board of `node`, without any legality
    /// check, and records it there; returns `node`.
    pub fn add_stone_on_node(&mut self, pos: Position, color: Color, node: GameTreeIndex) -> (r:
        Result<GameTreeIndex, BadukError>)
        requires
            old(self).wf(),
            node < old(self).nodes@.len(),
        ensures
            final(self).wf(),
            setup_stone_outcome(*old(self), *final(self), r, pos, color, node as int),
    {
        match &self.nodes[node].state {
            None => Err(BadukError::from(BadukErrorKind::MissingGoBoard)),
            Some(current_state) => {
                let state = current_state.add_stone(pos, color)?;
                self.record_on_node(node, Token::Add { color, coordinate: pos }, state);
                Ok(node)
            },
        }
    }
}

impl GameTree {
    /// The board before the last move on `node`: the board of its parent.
    fn previous_state(&self, node: GameTreeIndex) -> (r: Option<&GameState>)
        requires
            self.wf(),
            node < self.nodes@.len(),
        ensures
            view_of(r) == self.parent_board(node as int),
            r is Some ==> r->0.wf(),
    {
        match self.nodes[node].parent {
            Some(p) => match &self.nodes[p].state {
                Some(s) => Some(s),
                None => None,
            },
            None => None,
        }
    }

    /// Plays a move at the cursor, as a new child of it.
    pub fn play_move(&mut self, pos: Position, color: Color) -> (r: Result<GameTreeIndex, BadukError>)
        requires
            old(self).wf(),
            old(self).nodes@.len() < usize::MAX,
        ensures
            final(self).wf(),
            move_attempt(*old(self), *final(self), r, pos, color, old(self).current as int),
    {
        let parent = self.current;
        self.play_move_as_variation(pos, color, parent)
    }

    /// Plays a move on the board of `parent`, which may be any node, as a
    /// new child of it; this is how variations branch off.
    pub fn play_move_as_variation(&mut self, pos: Position, color: Color, parent: GameTreeIndex) -> (r:
        Result<GameTreeIndex, BadukError>)
        requires
            old(self).wf(),
            parent < old(self).nodes@.len(),
            old(self).nodes@.len() < usize::MAX,
        ensures
            final(self).wf(),
            move_attempt(*old(self), *final(self), r, pos, color, parent as int),
    {
        let outcome = match &self.nodes[parent].state {
            None => return Err(BadukError::from(BadukErrorKind::MissingGoBoard)),
            Some(current_state) => current_state.apply_move(self.previous_state(parent), pos, color),
        };
        match outcome {
            Err(e) => Err(e),
            Ok(state) => {
                let mut tokens: Vec<Token> = Vec::new();
                tokens.push(Token::Move { color, coordinate: pos });
                proof {
                    assert(tokens@ == seq![Token::Move { color, coordinate: pos }]);
                }
                Ok(self.add_node(parent, tokens, Some(state)))
            },
        }
    }

    /// Plays a move on the board of `node` itself, recording it there.
    fn play_move_on_node(&mut self, pos: Position, color: Color, node: GameTreeIndex) -> (r: Result<
        GameTreeIndex,
        BadukError,
    >)
        requires
            old(self).wf(),
            node < old(self).nodes@.len(),
        ensures
            final(self).wf(),
            move_on_node(*old(self), *final(self), r, pos, color, node as int),
    {
        let outcome = match &self.nodes[node].state {
            None => return Err(BadukError::from(BadukErrorKind::MissingGoBoard)),
            Some(current_state) => current_state.apply_move(self.previous_state(node), pos, color),
        };
        match outcome {
            Err(e) => Err(e),
            Ok(state) => {
                self.record_on_node(node, Token::Move { color, coordinate: pos }, state);
                Ok(node)
            },
        }
    }

    /// Applies one token to `node`: a move is played on its board, a setup
    /// stone placed, a size sets the root's board, and any other token is
    /// only recorded.
    pub fn parse_sgf_token(&mut self, token: &Token, node: GameTreeIndex) -> (r: Result<
        GameTreeIndex,
        BadukError,
    >)
        requires
            old(self).wf(),
            node < old(self).nodes@.len(),
        ensures
            final(self).wf(),
            token_outcome(*old(self), *final(self), r, *token, node as int),
    {
        match token {
            Token::Move { color, coordinate } => self.play_move_on_node(*coordinate, *color, node),
            Token::Add { color, coordinate } => self.add_stone_on_node(*coordinate, *color, node),
            Token::Size(width, height) => match self.set_size(*width, *height, node) {
                Ok(_) => Ok(node),
                Err(e) => Err(e),
            },
            Token::Other { .. } => Ok(self.add_token(node, token)),
        }
    }

    /// Applies `tokens` to `node` in order, as `parse_sgf_token` does, and
    /// records each token that could not be applied, with `node`, in
    /// `failures`.
    fn apply_tokens(
        &mut self,
        node: GameTreeIndex,
        tokens: &Vec<Token>,
        failures: &mut Vec<(GameTreeIndex, BadukError)>,
    )
        requires
            old(self).wf(),
            node < old(self).nodes@.len(),
            forall|k: int|
                0 <= k < old(failures)@.len() ==> (#[trigger] old(failures)@[k]).0
                    < old(self).nodes@.len(),
        ensures
            final(self).wf(),
            final(self).nodes@.len() == old(self).nodes@.len(),
            final(self).current == old(self).current,
            final(self).nodes@[node as int].parent == old(self).nodes@[node as int].parent,
            forall|i: int|
                0 <= i < old(self).nodes@.len() ==> #[trigger] final(self).nodes@[i].children
                    == old(self).nodes@[i].children,
            forall|i: int|
                0 <= i < old(self).nodes@.len() && i != node ==> #[trigger] final(self).nodes@[i]
                    == old(self).nodes@[i],
            content(*final(self), node as int) == node_after(
                node == 0,
                old(self).parent_board(node as int),
                content(*old(self), node as int),
                tokens@,
            ),
            forall|k: int|
                0 <= k < final(failures)@.len() ==> (#[trigger] final(failures)@[k]).0
                    < final(self).nodes@.len(),
    {
        let mut t: usize = 0;
        while t < tokens.len()
            invariant
                self.wf(),
                node < self.nodes@.len(),
                self.nodes@.len() == old(self).nodes@.len(),
                self.current == old(self).current,
                self.nodes@[node as int].parent == old(self).nodes@[node as int].parent,
                forall|i: int|
                    0 <= i < old(self).nodes@.len() ==> #[trigger] self.nodes@[i].children
                        == old(self).nodes@[i].children,
                forall|i: int|
                    0 <= i < old(self).nodes@.len() && i != node ==> #[trigger] self.nodes@[i]
                        == old(self).nodes@[i],
                self.parent_board(node as int) == old(self).parent_board(node as int),
                t <= tokens@.len(),
                content(*self, node as int) == node_after(
                    node == 0,
                    old(self).parent_board(node as int),
                    content(*old(self), node as int),
                    tokens@.take(t as int),
                ),
                forall|k: int|
                    0 <= k < failures@.len() ==> (#[trigger] failures@[k]).0 < self.nodes@.len(),
            decreases tokens@.len() - t,
        {
            let ghost before = *self;
            match self.parse_sgf_token(&tokens[t], node) {
                Ok(_) => {},
                Err(e) => failures.push((node, e)),
            }
            proof {
                assert(tokens@.take(t + 1).drop_last() == tokens@.take(t as int));
                assert(tokens@.take(t + 1).last() == tokens@[t as int]);
                let p = self.nodes@[node as int].parent;
                if p is Some {
                    assert(p->0 < node);
                    assert(self.nodes@[p->0 as int] == before.nodes@[p->0 as int]);
                }
            }
            t = t + 1;
        }
        proof {
            assert(tokens@.take(t as int) == tokens@);
        }
    }

    /// Builds the part of the tree that `tree` describes. Its first node is
    /// the cursor itself, the last node made, when `attach` is `None`;
    /// otherwise a new child of `attach`. Each later node of a sequence is a
    /// child of the one before it, and each variation starts with a child of
    /// the sequence's last node. Tokens that cannot be applied are skipped.
    fn parse_variation(
        &mut self,
        tree: &SourceTree,
        attach: Option<GameTreeIndex>,
        failures: &mut Vec<(GameTreeIndex, BadukError)>,
    )
        requires
            old(self).wf(),
            attach is None ==> tree.nodes@.len() >= 1,
            attach is Some ==> attach->0 < old(self).nodes@.len(),
            attach is None ==> old(self).current == old(self).nodes@.len() - 1
                && old(self).nodes@[old(self).current as int].children@.len() == 0,
            old(self).nodes@.len() + source_count(*tree) < usize::MAX,
            forall|k: int|
                0 <= k < old(failures)@.len() ==> (#[trigger] old(failures)@[k]).0
                    < old(self).nodes@.len(),
        ensures
            final(self).wf(),
            ingested(*old(self), *final(self), *tree, attach),
            forall|k: int|
                0 <= k < final(failures)@.len() ==> (#[trigger] final(failures)@[k]).0
                    < final(self).nodes@.len(),
        decreases *tree,
    {
        let ghost start = self.nodes@.len() as int;
        let ghost skip: int = if attach is None { 1 } else { 0 };
        let ghost base = start - skip;
        let ghost n = tree.nodes@.len() as int;
        let mut previous: Option<GameTreeIndex> = attach;
        let mut j: usize = 0;
        while j < tree.nodes.len()
            invariant
                self.wf(),
                start == old(self).nodes@.len(),
                0 <= j <= n,
                n == tree.nodes@.len(),
                attach is None ==> n >= 1,
                skip == (if attach is None { 1int } else { 0int }),
                base == start - skip,
                start + source_count(*tree) < usize::MAX,
                source_count(*tree) == n + forest_count(tree.variations@),
                j == 0 ==> previous == attach && *self == *old(self),
                forall|k: int| 0 <= k < failures@.len() ==> (#[trigger] failures@[k]).0 < self.nodes@.len(),
                j > 0 ==> previous == Some((base + j - 1) as usize),
                attach is Some ==> attach->0 < start,
                self.nodes@.len() == (if j == 0 { start } else { base + j }),
                attach is None ==> old(self).current == start - 1
                    && old(self).nodes@[start - 1].children@.len() == 0,
                forall|i: int|
                    0 <= i < base && (attach is None || i != attach->0 as int) ==> #[trigger] self.nodes@[i].children
                        == old(self).nodes@[i].children,
                attach is Some && j > 0 ==> self.nodes@[attach->0 as int].children@ == old(
                    self,
                ).nodes@[attach->0 as int].children@.push(start as usize),
                forall|i: int| base <= i < base + j - 1 ==> #[trigger] self.nodes@[i].children@.len() == 1,
                j > 0 ==> self.nodes@[base + j - 1].children@.len() == 0,
                forall|i: int| 0 <= i < base ==> #[trigger] same_content(*self, *old(self), i),
                forall|i: int|
                    base <= i < base + j ==> #[trigger] built(
                        *self,
                        i,
                        ingest_start(*old(self), *self, attach, i),
                        tree.nodes@[i - base].tokens@,
                    ),
            decreases n - j,
        {
            let ghost before = *self;
            let target = match previous {
                None => self.current,
                Some(p) => self.create_new_node(p),
            };
            let ghost made = *self;
            self.apply_tokens(target, &tree.nodes[j].tokens, failures);
            proof {
                assert(target == base + j);
                assert forall|i: int| 0 <= i < base implies #[trigger] same_content(*self, *old(self), i) by {
                    assert(self.nodes@[i] == made.nodes@[i]);
                    assert(made.nodes@[i].parent == before.nodes@[i].parent);
                    assert(made.nodes@[i].tokens@ == before.nodes@[i].tokens@);
                    assert(made.nodes@[i].state == before.nodes@[i].state);
                    assert(same_content(before, *old(self), i));
                }
                assert forall|i: int|
                    base <= i < base + j + 1 implies #[trigger] built(
                        *self,
                        i,
                        ingest_start(*old(self), *self, attach, i),
                        tree.nodes@[i - base].tokens@,
                    ) by {
                    if i < target {
                        let pa = self.nodes@[i].parent;
                        assert(self.nodes@[i] == made.nodes@[i]);
                        if pa is Some {
                            assert(self.nodes@[pa->0 as int] == made.nodes@[pa->0 as int]);
                            assert(same_content(made, before, pa->0 as int));
                        }
                        assert(made.nodes@[i].parent == before.nodes@[i].parent);
                        assert(made.nodes@[i].tokens@ == before.nodes@[i].tokens@);
                        assert(made.nodes@[i].state == before.nodes@[i].state);
                        lemma_built_kept(*self, made, i);
                        lemma_built_kept(made, before, i);
                        assert(ingest_start(*old(self), *self, attach, i) == ingest_start(
                            *old(self),
                            before,
                            attach,
                            i,
                        ));
                        assert(built(
                            before,
                            i,
                            ingest_start(*old(self), before, attach, i),
                            tree.nodes@[i - base].tokens@,
                        ));
                    } else {
                        let pa = self.nodes@[i].parent;
                        if pa is Some {
                            assert(self.nodes@[pa->0 as int] == made.nodes@[pa->0 as int]);
                        }
                        assert(self.parent_board(i) == made.parent_board(i));
                        if !(attach is None && j == 0) {
                            let q = pa->0 as int;
                            assert(made.nodes@[i].tokens@ =~= Seq::<Token>::empty());
                            assert(board_of(made.nodes@[q]) == board_of(before.nodes@[q]));
                            assert(content(made, i) == fresh_start(*self, i));
                        }
                    }
                }
            }
            previous = Some(target);
            j = j + 1;
        }
        let ghost mid = self.nodes@.len() as int;
        let ghost last = if n > 0 { base + n - 1 } else { attach->0 as int };
        let ghost last_before = self.nodes@[last].children@.len() as int;
        let ghost vars = tree.variations@;
        let mut v: usize = 0;
        proof {
            assert(previous->0 as int == last);
            assert(vars.take(0) =~= Seq::<SourceTree>::empty());
            assert(forest_count(Seq::<SourceTree>::empty()) == 0);
            assert(forest_branches(Seq::<SourceTree>::empty()) == Seq::<nat>::empty());
            assert(forest_nodes(Seq::<SourceTree>::empty()) == Seq::<SourceNode>::empty());
            assert(forest_fanout(Seq::<SourceTree>::empty()) == 0);
            assert(vars.take(0) + vars.skip(0) == vars);
            lemma_forest_concat(vars.take(0), vars.skip(0));
        }
        while v < tree.variations.len()
            invariant
                self.wf(),
                start == old(self).nodes@.len(),
                vars == tree.variations@,
                0 <= v <= vars.len(),
                n == tree.nodes@.len(),
                attach is None ==> n >= 1,
                n == 0 ==> attach is Some && last == attach->0 as int,
                n > 0 ==> last == base + n - 1,
                skip == (if attach is None { 1int } else { 0int }),
                base == start - skip,
                mid == base + n,
                0 <= base,
                0 <= last < mid,
                previous is Some,
                previous->0 as int == last,
                start + source_count(*tree) < usize::MAX,
                source_count(*tree) == n + forest_count(vars),
                forest_count(vars) == forest_count(vars.take(v as int)) + forest_count(vars.skip(v as int)),
                self.nodes@.len() == mid + forest_count(vars.take(v as int)),
                forall|i: int|
                    0 <= i < base && (attach is None || i != attach->0 as int) ==> #[trigger] self.nodes@[i].children
                        == old(self).nodes@[i].children,
                attach is Some && n > 0 ==> self.nodes@[attach->0 as int].children@ == old(
                    self,
                ).nodes@[attach->0 as int].children@.push(start as usize),
                attach is Some ==> attach->0 < start,
                forall|i: int| base <= i < last ==> #[trigger] self.nodes@[i].children@.len() == 1,
                self.nodes@[last].children@.len() == last_before + forest_fanout(vars.take(v as int)),
                forall|i: int|
                    mid <= i < self.nodes@.len() ==> #[trigger] self.nodes@[i].children@.len()
                        == forest_branches(vars.take(v as int))[i - mid],
                forest_branches(vars.take(v as int)).len() == forest_count(vars.take(v as int)),
                forest_nodes(vars.take(v as int)).len() == forest_count(vars.take(v as int)),
                forall|i: int| 0 <= i < base ==> #[trigger] same_content(*self, *old(self), i),
                forall|i: int|
                    base <= i < mid ==> #[trigger] built(
                        *self,
                        i,
                        ingest_start(*old(self), *self, attach, i),
                        tree.nodes@[i - base].tokens@,
                    ),
                forall|i: int|
                    mid <= i < self.nodes@.len() ==> #[trigger] built(
                        *self,
                        i,
                        fresh_start(*self, i),
                        forest_nodes(vars.take(v as int))[i - mid].tokens@,
                    ),
                forall|k: int| 0 <= k < failures@.len() ==> (#[trigger] failures@[k]).0 < self.nodes@.len(),
            decreases vars.len() - v,
        {
            let ghost before = *self;
            proof {
                let rest = vars.skip(v as int);
                assert(rest[0] == vars[v as int]);
                assert(rest.drop_first() == vars.skip(v + 1));
                assert(vars.take(v + 1) == vars.take(v as int) + seq![vars[v as int]]);
                assert(vars.skip(v as int) == seq![vars[v as int]] + vars.skip(v + 1));
                lemma_forest_single(vars[v as int]);
                lemma_forest_concat(seq![vars[v as int]], vars.skip(v + 1));
                lemma_forest_concat(vars.take(v as int), seq![vars[v as int]]);
                lemma_forest_concat(vars.take(v + 1), vars.skip(v + 1));
                assert(vars.take(v + 1) + vars.skip(v + 1) == vars);
                assert(decreases_to!(*tree => tree.variations));
            }
            self.parse_variation(&tree.variations[v], previous, failures);
            proof {
                let sub = vars[v as int];
                lemma_source_branches_len(sub);
                let len0 = before.nodes@.len() as int;
                assert forall|i: int|
                    mid <= i < self.nodes@.len() implies #[trigger] self.nodes@[i].children@.len()
                        == forest_branches(vars.take(v + 1))[i - mid] by {
                    if i < len0 {
                        assert(before.nodes@[i].children == self.nodes@[i].children);
                    } else {
                        assert(self.nodes@[i].children@.len() == source_branches(sub)[i - len0]);
                    }
                }
                assert forall|i: int|
                    0 <= i < base && (attach is None || i != attach->0 as int) implies #[trigger] self.nodes@[i].children
                        == old(self).nodes@[i].children by {
                    assert(before.nodes@[i].children == self.nodes@[i].children);
                }
                assert forall|i: int| base <= i < last implies #[trigger] self.nodes@[i].children@.len() == 1 by {
                    assert(before.nodes@[i].children == self.nodes@[i].children);
                }
                if attach is Some && n > 0 {
                    assert(before.nodes@[attach->0 as int].children == self.nodes@[attach->0 as int].children);
                }
                assert(forest_nodes(vars.take(v + 1)) == forest_nodes(vars.take(v as int))
                    + source_nodes(sub));
                assert forall|i: int| 0 <= i < self.nodes@.len() implies (#[trigger] self.nodes@[i].parent
                    is Some ==> self.nodes@[i].parent->0 < i) by {
                    if i > 0 {
                        assert(self.nodes@[i].parent is Some);
                    }
                }
                assert forall|i: int| 0 <= i < base implies #[trigger] same_content(*self, *old(self), i) by {
                    assert(same_content(*self, before, i));
                    assert(same_content(before, *old(self), i));
                }
                assert forall|i: int|
                    base <= i < mid implies #[trigger] built(
                        *self,
                        i,
                        ingest_start(*old(self), *self, attach, i),
                        tree.nodes@[i - base].tokens@,
                    ) by {
                    let pa = self.nodes@[i].parent;
                    assert(same_content(*self, before, i));
                    if pa is Some {
                        assert(same_content(*self, before, pa->0 as int));
                    }
                    lemma_built_kept(*self, before, i);
                    assert(ingest_start(*old(self), *self, attach, i) == ingest_start(
                        *old(self),
                        before,
                        attach,
                        i,
                    ));
                    assert(built(
                        before,
                        i,
                        ingest_start(*old(self), before, attach, i),
                        tree.nodes@[i - base].tokens@,
                    ));
                }
                assert forall|i: int|
                    mid <= i < self.nodes@.len() implies #[trigger] built(
                        *self,
                        i,
                        fresh_start(*self, i),
                        forest_nodes(vars.take(v + 1))[i - mid].tokens@,
                    ) by {
                    if i < len0 {
                        let pa = self.nodes@[i].parent;
                        assert(same_content(*self, before, i));
                        assert(same_content(*self, before, pa->0 as int));
                        lemma_built_kept(*self, before, i);
                        assert(built(
                            before,
                            i,
                            fresh_start(before, i),
                            forest_nodes(vars.take(v as int))[i - mid].tokens@,
                        ));
                    } else {
                        assert(content(*self, i) == node_after(
                            i == 0,
                            self.parent_board(i),
                            ingest_start(before, *self, previous, i),
                            source_nodes(sub)[i - len0].tokens@,
                        ));
                    }
                }
            }
            v = v + 1;
        }
        proof {
            assert(vars.take(v as int) == vars);
            lemma_source_branches_len(*tree);
            assert(source_nodes(*tree) == tree.nodes@ + forest_nodes(vars));
            assert forall|i: int|
                base <= i < self.nodes@.len() implies #[trigger] content(*self, i) == node_after(
                    i == 0,
                    self.parent_board(i),
                    ingest_start(*old(self), *self, attach, i),
                    source_nodes(*tree)[i - base].tokens@,
                ) by {
                if i < mid {
                    assert(built(
                        *self,
                        i,
                        ingest_start(*old(self), *self, attach, i),
                        tree.nodes@[i - base].tokens@,
                    ));
                } else {
                    assert(built(
                        *self,
                        i,
                        fresh_start(*self, i),
                        forest_nodes(vars.take(v as int))[i - mid].tokens@,
                    ));
                }
            }
            let br = source_branches(*tree);
            assert(br == Seq::new(
                n as nat,
                |k: int|
                    if k < n - 1 {
                        1nat
                    } else {
                        forest_fanout(vars)
                    },
            ) + forest_branches(vars));
        }
    }
}

impl GameTree {
    /// Builds the tree that a parsed record describes: one node for each
    /// of its nodes, in the order they are read, its first node being the
    /// root, and each node with as many children as its record node has
    /// branches; node `i` holds the tokens of record node `i` that could be
    /// applied, in order, and the board they give from a copy of its
    /// parent's board. Tokens that cannot be applied are skipped.
    pub fn from_source(tree: &SourceTree) -> (r: GameTree)
        requires
            tree.nodes@.len() >= 1,
            source_count(*tree) + 1 < usize::MAX,
        ensures
            r.wf(),
            r.nodes@.len() == source_count(*tree),
            forall|i: int|
                0 <= i < r.nodes@.len() ==> #[trigger] r.nodes@[i].children@.len() == source_branches(
                    *tree,
                )[i],
            forall|i: int|
                0 <= i < r.nodes@.len() ==> #[trigger] content(r, i) == node_after(
                    i == 0,
                    r.parent_board(i),
                    if i == 0 {
                        (Seq::<Token>::empty(), None::<BoardView>)
                    } else {
                        fresh_start(r, i)
                    },
                    source_nodes(*tree)[i].tokens@,
                ),
    {
        let (game, _) = GameTree::from_source_reporting(tree);
        game
    }

    /// As `from_source`, and also returns each token that could not be
    /// applied, as the node it was read for and the error it gave.
    /// Node `i` holds the tokens of record node `i` that could be applied,
    /// and the board they give from a copy of its parent's board.
    pub fn from_source_reporting(tree: &SourceTree) -> (r: (GameTree, Vec<(GameTreeIndex, BadukError)>))
        requires
            tree.nodes@.len() >= 1,
            source_count(*tree) + 1 < usize::MAX,
        ensures
            r.0.wf(),
            r.0.nodes@.len() == source_count(*tree),
            forall|i: int|
                0 <= i < r.0.nodes@.len() ==> #[trigger] r.0.nodes@[i].children@.len() == source_branches(
                    *tree,
                )[i],
            forall|k: int| 0 <= k < r.1@.len() ==> (#[trigger] r.1@[k]).0 < r.0.nodes@.len(),
            forall|i: int|
                0 <= i < r.0.nodes@.len() ==> #[trigger] content(r.0, i) == node_after(
                    i == 0,
                    r.0.parent_board(i),
                    if i == 0 {
                        (Seq::<Token>::empty(), None::<BoardView>)
                    } else {
                        fresh_start(r.0, i)
                    },
                    source_nodes(*tree)[i].tokens@,
                ),
    {
        let mut game = GameTree::default();
        let mut failures: Vec<(GameTreeIndex, BadukError)> = Vec::new();
        proof {
            assert(game.nodes@[0].tokens@ =~= Seq::<Token>::empty());
        }
        game.parse_variation(tree, None, &mut failures);
        (game, failures)
    }

    /// A tree whose root holds the stones of `state` as setup stones on an
    /// empty board of its size.
    pub fn from_state(state: &GameState) -> (r: GameTree)
        requires
            state.wf(),
        ensures
            r.wf(),
            r.nodes@.len() == 1,
            r.current == 0,
            board_of(r.nodes@[0]) == Some(BoardView { white: 0, black: 0, ..state@ }),
            r.nodes@[0].tokens@ == seq![Token::Size(state.width, state.height)] + setup_tokens(
                state@,
                state.board@.len() as int,
            ),
    {
        let mut game = GameTree::new(state.width, state.height);
        let n = state.board.len();
        let mut i: usize = 0;
        proof {
            assert(seq![Token::Size(state.width, state.height)] + setup_tokens(state@, 0) == seq![
                Token::Size(state.width, state.height),
            ]);
            assert(board_of(game.nodes@[0])->0.cells =~= Seq::new(
                n as nat,
                |k: int|
                    if k < i {
                        state.board@[k]
                    } else {
                        None
                    },
            ));
        }
        while i < n
            invariant
                state.wf(),
                n == state.board@.len(),
                i <= n,
                game.wf(),
                game.nodes@.len() == 1,
                game.current == 0,
                game.nodes@[0].tokens@ == seq![Token::Size(state.width, state.height)] + setup_tokens(
                    state@,
                    i as int,
                ),
                board_of(game.nodes@[0]) == Some(
                    BoardView {
                        cells: Seq::new(
                            n as nat,
                            |k: int|
                                if k < i {
                                    state.board@[k]
                                } else {
                                    None
                                },
                        ),
                        white: 0,
                        black: 0,
                        ..state@
                    },
                ),
            decreases n - i,
        {
            let p = state.index_to_position(i);
            let ghost head = seq![Token::Size(state.width, state.height)];
            proof {
                assert(head + setup_tokens(state@, i + 1) == match state.board@[i as int] {
                    Some(c) => (head + setup_tokens(state@, i as int)).push(
                        Token::Add { color: c, coordinate: p },
                    ),
                    None => head + setup_tokens(state@, i as int),
                });
            }
            match state.board[i] {
                Some(color) => {
                    let _ = game.add_stone(p, color);
                },
                None => {},
            }
            proof {
                let after = board_of(game.nodes@[0])->0;
                assert(after.cells =~= Seq::new(
                    n as nat,
                    |k: int|
                        if k < i + 1 {
                            state.board@[k]
                        } else {
                            None
                        },
                ));
            }
            i = i + 1;
        }
        proof {
            assert(state.board@ =~= Seq::new(
                n as nat,
                |k: int|
                    if k < i {
                        state.board@[k]
                    } else {
                        None
                    },
            ));
        }
        game
    }
}

/// The setup tokens for the stones among the first `i` intersections of
/// `b`, in board order: one `Add` per stone.
pub open spec fn setup_tokens(b: BoardView, i: int) -> Seq<Token>
    decreases i,
{
    if i <= 0 {
        Seq::empty()
    } else {
        let rest = setup_tokens(b, i - 1);
        match b.cells[i - 1] {
            Some(c) => rest.push(Token::Add { color: c, coordinate: b.pos_of(i - 1) }),
            None => rest,
        }
    }
}

/// What one token does to a node's kept tokens and board, where `is_root`
/// says whether the node is the root and `parent_board` is its parent's
/// board: a move is kept when the move's outcome allows it, a setup stone
/// when it lands on the board, a size only on the root and when its area
/// fits in a `u32`; any other token is always kept. A token that is not
/// kept changes nothing.
pub open spec fn token_step(
    is_root: bool,
    parent_board: Option<BoardView>,
    acc: (Seq<Token>, Option<BoardView>),
    token: Token,
) -> (Seq<Token>, Option<BoardView>) {
    let (kept, board) = acc;
    match token {
        Token::Move { color, coordinate } => match board {
            None => acc,
            Some(b) => match move_outcome(parent_board, b, coordinate, color) {
                Ok(after) => (kept.push(token), Some(after)),
                Err(_) => acc,
            },
        },
        Token::Add { color, coordinate } => match board {
            None => acc,
            Some(b) => if b.on_board(coordinate) {
                (kept.push(token), Some(b.with_cell(coordinate, Some(color))))
            } else {
                acc
            },
        },
        Token::Size(width, height) => if is_root && width * height <= u32::MAX {
            (kept.push(token), Some(empty_board(width as int, height as int)))
        } else {
            acc
        },
        Token::Other { .. } => (kept.push(token), board),
    }
}

/// A node's kept tokens and board after `tokens`, one after the other,
/// starting from `start`.
pub open spec fn node_after(
    is_root: bool,
    parent_board: Option<BoardView>,
    start: (Seq<Token>, Option<BoardView>),
    tokens: Seq<Token>,
) -> (Seq<Token>, Option<BoardView>)
    decreases tokens.len(),
{
    if tokens.len() == 0 {
        start
    } else {
        token_step(
            is_root,
            parent_board,
            node_after(is_root, parent_board, start, tokens.drop_last()),
            tokens.last(),
        )
    }
}

/// The tokens and board that node `i` of `t` holds.
pub open spec fn content(t: GameTree, i: int) -> (Seq<Token>, Option<BoardView>) {
    (t.nodes@[i].tokens@, board_of(t.nodes@[i]))
}

/// Node `i` has the same parent, tokens and board in `a` and `b`.
pub open spec fn same_content(a: GameTree, b: GameTree, i: int) -> bool {
    &&& a.nodes@[i].parent == b.nodes@[i].parent
    &&& a.nodes@[i].tokens@ == b.nodes@[i].tokens@
    &&& a.nodes@[i].state == b.nodes@[i].state
}

/// What a node made as a child starts from: no tokens and a copy of its
/// parent's board.
pub open spec fn fresh_start(t: GameTree, i: int) -> (Seq<Token>, Option<BoardView>) {
    (Seq::empty(), board_of(t.nodes@[t.nodes@[i].parent->0 as int]))
}

/// Node `i` of `t` holds what `tokens` give from `start`, judged against
/// the board of its parent.
pub open spec fn built(t: GameTree, i: int, start: (Seq<Token>, Option<BoardView>), tokens: Seq<Token>) -> bool {
    content(t, i) == node_after(i == 0, t.parent_board(i), start, tokens)
}

/// Where node `i` starts when `new` is built from `old`: the cursor that
/// stands for the first record node keeps what it held; every other new
/// node starts as a fresh child.
pub open spec fn ingest_start(old: GameTree, new: GameTree, attach: Option<GameTreeIndex>, i: int) -> (
    Seq<Token>,
    Option<BoardView>,
) {
    if attach is None && i == old.nodes@.len() - 1 {
        content(old, i)
    } else {
        fresh_start(new, i)
    }
}

proof fn lemma_built_kept(a: GameTree, b: GameTree, i: int)
    requires
        a.wf(),
        0 <= i < a.nodes@.len(),
        same_content(a, b, i),
        a.nodes@[i].parent is Some ==> same_content(a, b, a.nodes@[i].parent->0 as int),
    ensures
        content(a, i) == content(b, i),
        a.parent_board(i) == b.parent_board(i),
        a.nodes@[i].parent is Some ==> fresh_start(a, i) == fresh_start(b, i),
        forall|start: (Seq<Token>, Option<BoardView>), tokens: Seq<Token>|
            #[trigger] built(a, i, start, tokens) == built(b, i, start, tokens),
{
}

/// What building `tree` into `old` gives: one new node per node of the
/// record, read in order (the cursor standing for the first when `attach`
/// is `None`), each with as many children as its record node has branches;
/// `attach` gains the children that the record gives it, and no other node
/// that was there before gains a child. Each new node holds what its record
/// node's tokens give, applied in order, from where it starts; the nodes
/// that were there before keep their parent, tokens and board.
pub open spec fn ingested(old: GameTree, new: GameTree, tree: SourceTree, attach: Option<GameTreeIndex>) -> bool {
    let start = old.nodes@.len() as int;
    let base = if attach is None {
        start - 1
    } else {
        start
    };
    &&& new.nodes@.len() == base + source_count(tree)
    &&& forall|i: int|
        base <= i < new.nodes@.len() ==> #[trigger] new.nodes@[i].children@.len() == source_branches(
            tree,
        )[i - base]
    &&& forall|i: int|
        0 <= i < base && (attach is None || i != attach->0 as int) ==> #[trigger] new.nodes@[i].children
            == old.nodes@[i].children
    &&& attach is Some ==> new.nodes@[attach->0 as int].children@.len() == old.nodes@[attach->0 as int].children@.len()
        + source_fanout(tree)
    &&& forall|i: int| 0 <= i < base ==> #[trigger] same_content(new, old, i)
    &&& forall|i: int|
        base <= i < new.nodes@.len() ==> #[trigger] content(new, i) == node_after(
            i == 0,
            new.parent_board(i),
            ingest_start(old, new, attach, i),
            source_nodes(tree)[i - base].tokens@,
        )
}

/// What an attempt to play `color` at `pos` as a new child of `parent` does:
/// it fails without a board on `parent`, and with the error that the
/// move's outcome gives, leaving the tree as it was; otherwise a new child
/// holds the move and the board after it.
pub open spec fn move_attempt(
    old: GameTree,
    new: GameTree,
    r: Result<GameTreeIndex, BadukError>,
    pos: Position,
    color: Color,
    parent: int,
) -> bool {
    match board_of(old.nodes@[parent]) {
        None => fails_with(r, BadukErrorKind::MissingGoBoard) && new == old,
        Some(b) => match move_outcome(old.parent_board(parent), b, pos, color) {
            Err(k) => fails_with(r, k) && new == old,
            Ok(after) => {
                let n = old.nodes@.len() as int;
                &&& r == Ok::<usize, BadukError>(n as usize)
                &&& new.grown_from(old, parent)
                &&& new.nodes@[n].tokens@ == seq![Token::Move { color, coordinate: pos }]
                &&& board_of(new.nodes@[n]) == Some(after)
            },
        },
    }
}

/// What playing `color` at `pos` on `node` itself does: as `move_attempt`,
/// but the move and the board after it are stored on `node`.
pub open spec fn move_on_node(
    old: GameTree,
    new: GameTree,
    r: Result<GameTreeIndex, BadukError>,
    pos: Position,
    color: Color,
    node: int,
) -> bool {
    match board_of(old.nodes@[node]) {
        None => fails_with(r, BadukErrorKind::MissingGoBoard) && new == old,
        Some(b) => match move_outcome(old.parent_board(node), b, pos, color) {
            Err(k) => fails_with(r, k) && new == old,
            Ok(after) => {
                &&& r == Ok::<usize, BadukError>(node as usize)
                &&& new.node_changed(old, node)
                &&& new.nodes@[node].tokens@ == old.nodes@[node].tokens@.push(
                    Token::Move { color, coordinate: pos },
                )
                &&& board_of(new.nodes@[node]) == Some(after)
            },
        },
    }
}

/// What applying `token` to `node` does.
pub open spec fn token_outcome(
    old: GameTree,
    new: GameTree,
    r: Result<GameTreeIndex, BadukError>,
    token: Token,
    node: int,
) -> bool {
    &&& new.nodes@.len() == old.nodes@.len()
    &&& new.current == old.current
    &&& forall|i: int| 0 <= i < old.nodes@.len() ==> #[trigger] new.nodes@[i].children == old.nodes@[i].children
    &&& match token {
        Token::Move { color, coordinate } => move_on_node(old, new, r, coordinate, color, node),
        Token::Add { color, coordinate } => setup_stone_outcome(old, new, r, coordinate, color, node),
        Token::Size(width, height) => if node != 0 {
            fails_with(r, BadukErrorKind::InvalidRootNode) && new == old
        } else if width * height > u32::MAX {
            fails_with(r, BadukErrorKind::InvalidInput) && new == old
        } else {
            &&& r == Ok::<usize, BadukError>(node as usize)
            &&& new.node_changed(old, node)
            &&& new.nodes@[node].tokens@ == old.nodes@[node].tokens@.push(token)
            &&& board_of(new.nodes@[node]) == Some(empty_board(width as int, height as int))
        },
        Token::Other { .. } => {
            &&& r == Ok::<usize, BadukError>(node as usize)
            &&& new.node_changed(old, node)
            &&& new.nodes@[node].tokens@ == old.nodes@[node].tokens@.push(token)
            &&& new.nodes@[node].state == old.nodes@[node].state
        },
    }
}

/// What placing a setup stone of `color` at `pos` on `node` of `old` does:
/// it fails without a board or off the board and leaves the tree as it
/// was; otherwise the node's board gets the stone and its tokens the record.
pub open spec fn setup_stone_outcome(
    old: GameTree,
    new: GameTree,
    r: Result<GameTreeIndex, BadukError>,
    pos: Position,
    color: Color,
    node: int,
) -> bool {
    match board_of(old.nodes@[node]) {
        None => fails_with(r, BadukErrorKind::MissingGoBoard) && new == old,
        Some(b) => if !b.on_board(pos) {
            fails_with(r, BadukErrorKind::InvalidPosition(pos)) && new == old
        } else {
            &&& r == Ok::<usize, BadukError>(node as usize)
            &&& new.node_changed(old, node)
            &&& new.nodes@[node].tokens@ == old.nodes@[node].tokens@.push(
                Token::Add { color, coordinate: pos },
            )
            &&& board_of(new.nodes@[node]) == Some(b.with_cell(pos, Some(color)))
        },
    }
}

impl Default for GameTree {
    /// A tree of one node, the root, with no board.
    fn default() -> (r: GameTree)
        ensures
            r.wf(),
            r.nodes@.len() == 1,
            r.current == 0,
            r.nodes@[0].state is None,
            r.nodes@[0].tokens@.len() == 0,
            r.nodes@[0].children@.len() == 0,
    {
        let mut nodes: Vec<GameTreeNode> = Vec::new();
        nodes.push(GameTreeNode::new());
        GameTree { root: 0, current: 0, nodes }
    }
}

/// A variation's board depends only on its own line: two attempts of the
/// same move on nodes that hold the same board, whose parents hold the
/// same board, give the same outcome and, on success, the same new board,
/// whatever else either tree holds.
pub proof fn lemma_variation_depends_on_line(
    t1: GameTree,
    u1: GameTree,
    r1: Result<GameTreeIndex, BadukError>,
    at1: int,
    t2: GameTree,
    u2: GameTree,
    r2: Result<GameTreeIndex, BadukError>,
    at2: int,
    pos: Position,
    color: Color,
)
    requires
        move_attempt(t1, u1, r1, pos, color, at1),
        move_attempt(t2, u2, r2, pos, color, at2),
        board_of(t1.nodes@[at1]) == board_of(t2.nodes@[at2]),
        t1.parent_board(at1) == t2.parent_board(at2),
    ensures
        r1 is Ok <==> r2 is Ok,
        r1 is Err ==> r1->Err_0.kind == r2->Err_0.kind,
        r1 is Ok ==> board_of(u1.nodes@[r1->Ok_0 as int]) == board_of(u2.nodes@[r2->Ok_0 as int]),
{
}

} // verus!
