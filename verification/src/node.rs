use vstd::prelude::*;

verus! {

/// The color of a node: every node of the tree is either red or black.
#[derive(Clone, Copy, PartialEq, Eq, Structural, Debug)]
pub enum NodeColor {
    Red,
    Black,
}

/// A real node of the tree. An absent child (the "nil" leaf of the classic
/// red-black formulation) is represented by `None`, which counts as black.
/// Each `Some` link owns its subtree outright, so the root link owns the
/// whole tree.
#[derive(Debug)]
pub struct Node {
    pub key: i64,
    pub color: NodeColor,
    pub left: Option<Box<Node>>,
    pub right: Option<Box<Node>>,
}

/// The color a link presents to its parent: absent children are black.
pub open spec fn color_of(link: Option<Box<Node>>) -> NodeColor {
    match link {
        None => NodeColor::Black,
        Some(n) => n.color,
    }
}

/// The keys of the subtree in symmetric (left, node, right) order.
pub open spec fn in_order(link: Option<Box<Node>>) -> Seq<i64>
    decreases link,
{
    match link {
        None => Seq::empty(),
        Some(n) => in_order(n.left) + seq![n.key] + in_order(n.right),
    }
}

/// Number of black nodes on the path from this link down its left spine,
/// the link's own node included. Under `black_balanced` every path to a
/// leaf passes the same number of black nodes, so this is the black-height.
pub open spec fn black_height(link: Option<Box<Node>>) -> nat
    decreases link,
{
    match link {
        None => 0,
        Some(n) => black_height(n.left) + if n.color == NodeColor::Black {
            1nat
        } else {
            0nat
        },
    }
}

/// Every path from a node to a leaf below it passes the same number of
/// black nodes.
pub open spec fn black_balanced(link: Option<Box<Node>>) -> bool
    decreases link,
{
    match link {
        None => true,
        Some(n) => black_balanced(n.left) && black_balanced(n.right) && black_height(n.left)
            == black_height(n.right),
    }
}

/// No red node has a red child anywhere in the subtree.
pub open spec fn no_red_red(link: Option<Box<Node>>) -> bool
    decreases link,
{
    match link {
        None => true,
        Some(n) => no_red_red(n.left) && no_red_red(n.right) && (n.color == NodeColor::Red
            ==> color_of(n.left) == NodeColor::Black && color_of(n.right) == NodeColor::Black),
    }
}

/// Both subtrees below the root satisfy `no_red_red`, but the root itself
/// may be red with a red child: painting the root black would restore
/// `no_red_red`. The rebalancing steps hand such trees around.
pub open spec fn no_red_red_below(link: Option<Box<Node>>) -> bool {
    match link {
        None => true,
        Some(n) => no_red_red(n.left) && no_red_red(n.right),
    }
}

impl Node {
    /// A fresh unattached node: black until an insertion paints it red,
    /// with both children absent.
    pub fn new(key: i64) -> (n: Node)
        ensures
            n.key == key,
            n.color == NodeColor::Black,
            n.left.is_none(),
            n.right.is_none(),
    {
        Node { key, color: NodeColor::Black, left: None, right: None }
    }

    /// Raw link write: never rebalances.
    pub fn set_left_child(&mut self, link: Option<Box<Node>>)
        ensures
            final(self).left == link,
            final(self).right == old(self).right,
            final(self).key == old(self).key,
            final(self).color == old(self).color,
    {
        self.left = link;
    }

    /// Raw link write: never rebalances.
    pub fn set_right_child(&mut self, link: Option<Box<Node>>)
        ensures
            final(self).right == link,
            final(self).left == old(self).left,
            final(self).key == old(self).key,
            final(self).color == old(self).color,
    {
        self.right = link;
    }

    pub fn left(&self) -> (r: &Option<Box<Node>>)
        ensures
            *r == self.left,
    {
        &self.left
    }

    pub fn right(&self) -> (r: &Option<Box<Node>>)
        ensures
            *r == self.right,
    {
        &self.right
    }
}

/// Whether the link holds a red node.
pub fn is_red(link: &Option<Box<Node>>) -> (r: bool)
    ensures
        r == (color_of(*link) == NodeColor::Red),
{
    match link {
        None => false,
        Some(n) => n.color == NodeColor::Red,
    }
}

} // verus!
