use vstd::prelude::*;

use crate::color::Color;
use crate::position::Position;

verus! {

/// One annotation of a game record.
#[derive(Debug)]
pub enum Token {
    /// The board's width and height.
    Size(u32, u32),
    /// A move played by `color`.
    Move { color: Color, coordinate: Position },
    /// A setup stone of `color`, placed without any legality check.
    Add { color: Color, coordinate: Position },
    /// Any other annotation, kept as its property key and raw value.
    Other { key: String, value: String },
}

impl Clone for Token {
    fn clone(&self) -> (r: Token)
        ensures
            r == *self,
    {
        match self {
            Token::Size(w, h) => Token::Size(*w, *h),
            Token::Move { color, coordinate } => Token::Move { color: *color, coordinate: *coordinate },
            Token::Add { color, coordinate } => Token::Add { color: *color, coordinate: *coordinate },
            Token::Other { key, value } => Token::Other { key: key.clone(), value: value.clone() },
        }
    }
}

/// A node of a parsed game record: its annotations in order.
#[derive(Debug)]
pub struct SourceNode {
    pub tokens: Vec<Token>,
}

/// A parsed game record: a sequence of nodes, followed by the variations
/// that branch off after the last of them.
#[derive(Debug)]
pub struct SourceTree {
    pub nodes: Vec<SourceNode>,
    pub variations: Vec<SourceTree>,
}

/// The number of nodes in a record, variations included.
pub open spec fn source_count(t: SourceTree) -> nat
    decreases t,
{
    t.nodes@.len() + forest_count(t.variations@)
}

/// The number of nodes in a list of records.
pub open spec fn forest_count(s: Seq<SourceTree>) -> nat
    decreases s,
{
    if s.len() == 0 {
        0
    } else {
        source_count(s[0]) + forest_count(s.drop_first())
    }
}

/// How many children a record gives the node it branches from: one when
/// its sequence has a node, else as many as its variations give, since an
/// empty sequence adds no node of its own.
pub open spec fn source_fanout(t: SourceTree) -> nat
    decreases t,
{
    if t.nodes@.len() > 0 {
        1
    } else {
        forest_fanout(t.variations@)
    }
}

/// How many children a list of records gives the node they branch from.
pub open spec fn forest_fanout(s: Seq<SourceTree>) -> nat
    decreases s,
{
    if s.len() == 0 {
        0
    } else {
        source_fanout(s[0]) + forest_fanout(s.drop_first())
    }
}

/// How many branches leave each node of a record, in the order in which
/// the nodes are read: a node followed by another in its sequence has one,
/// the last node of a sequence has those that its variations give.
pub open spec fn source_branches(t: SourceTree) -> Seq<nat>
    decreases t,
{
    Seq::new(
        t.nodes@.len(),
        |j: int|
            if j < t.nodes@.len() - 1 {
                1nat
            } else {
                forest_fanout(t.variations@)
            },
    ) + forest_branches(t.variations@)
}

/// The branch counts of a list of records, one record after the other.
pub open spec fn forest_branches(s: Seq<SourceTree>) -> Seq<nat>
    decreases s,
{
    if s.len() == 0 {
        Seq::empty()
    } else {
        source_branches(s[0]) + forest_branches(s.drop_first())
    }
}

/// The nodes of a record in the order in which they are read: its
/// sequence, then each variation in turn.
pub open spec fn source_nodes(t: SourceTree) -> Seq<SourceNode>
    decreases t,
{
    t.nodes@ + forest_nodes(t.variations@)
}

/// The nodes of a list of records, one record after the other.
pub open spec fn forest_nodes(s: Seq<SourceTree>) -> Seq<SourceNode>
    decreases s,
{
    if s.len() == 0 {
        Seq::empty()
    } else {
        source_nodes(s[0]) + forest_nodes(s.drop_first())
    }
}

/// A record has one branch count per node.
pub proof fn lemma_source_branches_len(t: SourceTree)
    ensures
        source_branches(t).len() == source_count(t),
        source_nodes(t).len() == source_count(t),
    decreases t,
{
    lemma_forest_branches_len(t.variations@);
}

/// A list of records has one branch count per node.
pub proof fn lemma_forest_branches_len(s: Seq<SourceTree>)
    ensures
        forest_branches(s).len() == forest_count(s),
        forest_nodes(s).len() == forest_count(s),
    decreases s,
{
    if s.len() > 0 {
        lemma_source_branches_len(s[0]);
        lemma_forest_branches_len(s.drop_first());
    }
}

/// Counting over a list of records splits over its parts.
pub proof fn lemma_forest_concat(a: Seq<SourceTree>, b: Seq<SourceTree>)
    ensures
        forest_count(a + b) == forest_count(a) + forest_count(b),
        forest_branches(a + b) == forest_branches(a) + forest_branches(b),
        forest_nodes(a + b) == forest_nodes(a) + forest_nodes(b),
        forest_fanout(a + b) == forest_fanout(a) + forest_fanout(b),
    decreases a.len(),
{
    if a.len() == 0 {
        assert(a + b == b);
    } else {
        assert((a + b)[0] == a[0]);
        assert((a + b).drop_first() == a.drop_first() + b);
        lemma_forest_concat(a.drop_first(), b);
    }
}

/// A list of one record counts as that record.
pub proof fn lemma_forest_single(t: SourceTree)
    ensures
        forest_count(seq![t]) == source_count(t),
        forest_branches(seq![t]) == source_branches(t),
        forest_nodes(seq![t]) == source_nodes(t),
        forest_fanout(seq![t]) == source_fanout(t),
{
    let one = seq![t];
    let none = Seq::<SourceTree>::empty();
    assert(one.drop_first() == none);
    assert(one[0] == t);
    assert(forest_count(none) == 0);
    assert(forest_branches(none) == Seq::<nat>::empty());
    assert(forest_fanout(none) == 0);
    assert(forest_branches(one) == source_branches(one[0]) + forest_branches(one.drop_first()));
    assert(source_branches(t) + Seq::<nat>::empty() == source_branches(t));
    assert(forest_nodes(none) == Seq::<SourceNode>::empty());
    assert(forest_nodes(one) == source_nodes(one[0]) + forest_nodes(one.drop_first()));
    assert(source_nodes(t) + Seq::<SourceNode>::empty() == source_nodes(t));
    assert(forest_fanout(one) == source_fanout(one[0]) + forest_fanout(one.drop_first()));
}

} // verus!
