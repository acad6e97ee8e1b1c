use vstd::prelude::*;

use crate::keyseq::{
    lemma_seq_insert_left, lemma_seq_insert_props, lemma_seq_insert_right, lemma_seq_insert_sorted,
    lemma_seq_remove_at, lemma_seq_remove_left, lemma_seq_remove_props, lemma_seq_remove_right,
    lemma_seq_remove_sorted, lemma_sorted_split, seq_insert, seq_remove, sorted,
};
use crate::keyseq::lemma_contains_split;
use crate::node::{
    black_balanced, black_height, color_of, in_order, is_red, no_red_red, no_red_red_below, Node,
    NodeColor,
};
use crate::rebalance::{
    balance_left, balance_left_del, balance_right, balance_right_del, join, paint_black,
};

verus! {

/// An ordered container of `i64` keys kept as a red-black tree. Equal keys
/// may be inserted repeatedly; they are placed rightward and form a
/// multiset. The fields are left open for inspection and for building
/// trees by hand; the operations state `wf` -- the red-black invariants
/// -- as their contract and every constructor and mutator of this module
/// restores it.
#[derive(Debug)]
pub struct Tree {
    pub root: Option<Box<Node>>,
    pub length: usize,
}

impl View for Tree {
    type V = Seq<i64>;

    /// A tree is viewed as its in-order key sequence; a well-formed tree's
    /// view is sorted.
    open spec fn view(&self) -> Seq<i64> {
        in_order(self.root)
    }
}

/// Inserts `key` below `link`, rebalancing on the way out: the result
/// holds the keys of `link` with `key` added at its sorted position
/// (after any equal keys), at the same black-height. The root may come
/// back red, possibly with one red child; the caller repaints it.
#[verifier::rlimit(100)]
fn insert_node(link: Option<Box<Node>>, key: i64) -> (res: Option<Box<Node>>)
    requires
        no_red_red(link),
        black_balanced(link),
        sorted(in_order(link)),
    ensures
        in_order(res) == seq_insert(in_order(link), key),
        black_balanced(res),
        black_height(res) == black_height(link),
        no_red_red_below(res),
        color_of(link) == NodeColor::Black ==> no_red_red(res),
        res.is_some(),
    decreases in_order(link).len(),
{
    match link {
        None => {
            let res = Some(
                Box::new(Node { key, color: NodeColor::Red, left: None, right: None }),
            );
            proof {
                assert(in_order(res) =~= seq_insert(in_order(link), key)) by {
                    reveal_with_fuel(in_order, 2);
                }
                assert(black_balanced(res) && black_height(res) == black_height(link)
                    && no_red_red(res)) by {
                    reveal_with_fuel(no_red_red, 2);
                    reveal_with_fuel(black_height, 2);
                    reveal_with_fuel(black_balanced, 2);
                }
            }
            res
        },
        Some(b) => {
            let n = *b;
            proof {
                assert(in_order(link) == in_order(n.left) + seq![n.key] + in_order(n.right));
                lemma_sorted_split(in_order(n.left), n.key, in_order(n.right));
                assert(in_order(n.left).len() < in_order(link).len());
                assert(in_order(n.right).len() < in_order(link).len());
                assert(no_red_red(n.left) && no_red_red(n.right) && black_balanced(n.left)
                    && black_balanced(n.right));
                assert(n.color == NodeColor::Red ==> color_of(n.left) == NodeColor::Black
                    && color_of(n.right) == NodeColor::Black);
            }
            if key < n.key {
                let newl = insert_node(n.left, key);
                proof {
                    lemma_seq_insert_left(in_order(n.left), n.key, in_order(n.right), key);
                }
                if n.color == NodeColor::Black {
                    let res = balance_left(newl, n.key, n.right);
                    proof {
                        assert(no_red_red(res));
                        assert(no_red_red_below(res)) by {
                            reveal_with_fuel(no_red_red, 2);
                        }
                        assert(black_height(res) == black_height(link)) by {
                            reveal_with_fuel(black_height, 2);
                        }
                    }
                    res
                } else {
                    let res = Some(
                        Box::new(
                            Node {
                                key: n.key,
                                color: NodeColor::Red,
                                left: newl,
                                right: n.right,
                            },
                        ),
                    );
                    proof {
                        assert(in_order(res) == in_order(newl) + seq![n.key] + in_order(n.right));
                        assert(no_red_red(newl));
                        assert(no_red_red_below(res));
                        assert(black_balanced(res) && black_height(res) == black_height(link)) by {
                            reveal_with_fuel(black_height, 2);
                            reveal_with_fuel(black_balanced, 2);
                        }
                    }
                    res
                }
            } else {
                let newr = insert_node(n.right, key);
                proof {
                    lemma_seq_insert_right(in_order(n.left), n.key, in_order(n.right), key);
                }
                if n.color == NodeColor::Black {
                    let res = balance_right(n.left, n.key, newr);
                    proof {
                        assert(no_red_red(res));
                        assert(no_red_red_below(res)) by {
                            reveal_with_fuel(no_red_red, 2);
                        }
                        assert(black_height(res) == black_height(link)) by {
                            reveal_with_fuel(black_height, 2);
                        }
                    }
                    res
                } else {
                    let res = Some(
                        Box::new(
                            Node { key: n.key, color: NodeColor::Red, left: n.left, right: newr },
                        ),
                    );
                    proof {
                        assert(in_order(res) == in_order(n.left) + seq![n.key] + in_order(newr));
                        assert(no_red_red(newr));
                        assert(no_red_red_below(res));
                        assert(black_balanced(res) && black_height(res) == black_height(link)) by {
                            reveal_with_fuel(black_height, 2);
                            reveal_with_fuel(black_balanced, 2);
                        }
                    }
                    res
                }
            }
        },
    }
}

/// Deletes the topmost node carrying `key` on the search path below
/// `link`, if any, rebalancing on the way out. Deleting below a black
/// root lowers the black-height by one (the caller's balancer restores
/// it); deleting below a red root keeps it.
#[verifier::rlimit(100)]
fn delete_node(link: Option<Box<Node>>, key: i64) -> (res: Option<Box<Node>>)
    requires
        no_red_red(link),
        black_balanced(link),
        sorted(in_order(link)),
    ensures
        in_order(res) == seq_remove(in_order(link), key),
        black_balanced(res),
        no_red_red_below(res),
        color_of(link) == NodeColor::Red ==> black_height(res) == black_height(link) && no_red_red(
            res,
        ),
        link.is_some() && color_of(link) == NodeColor::Black ==> black_height(res) + 1
            == black_height(link),
        link.is_none() ==> res.is_none(),
    decreases in_order(link).len(),
{
    match link {
        None => None,
        Some(b) => {
            let n = *b;
            proof {
                assert(in_order(link) == in_order(n.left) + seq![n.key] + in_order(n.right));
                lemma_sorted_split(in_order(n.left), n.key, in_order(n.right));
                assert(in_order(n.left).len() < in_order(link).len());
                assert(in_order(n.right).len() < in_order(link).len());
                assert(no_red_red(n.left) && no_red_red(n.right) && black_balanced(n.left)
                    && black_balanced(n.right) && black_height(n.left) == black_height(n.right));
                assert(n.color == NodeColor::Red ==> color_of(n.left) == NodeColor::Black
                    && color_of(n.right) == NodeColor::Black);
            }
            if key < n.key {
                proof {
                    lemma_seq_remove_left(in_order(n.left), n.key, in_order(n.right), key);
                }
                let left_black = !is_red(&n.left) && n.left.is_some();
                let dl = delete_node(n.left, key);
                if left_black {
                    let res = balance_left_del(dl, n.key, n.right);
                    proof {
                        assert(black_height(res) == black_height(n.right));
                        assert(n.color == NodeColor::Red ==> no_red_red(res));
                        assert(black_height(link) == if n.color == NodeColor::Black {
                            black_height(n.left) + 1nat
                        } else {
                            black_height(n.left)
                        });
                    }
                    res
                } else {
                    let res = Some(
                        Box::new(
                            Node { key: n.key, color: NodeColor::Red, left: dl, right: n.right },
                        ),
                    );
                    proof {
                        assert(in_order(res) == in_order(dl) + seq![n.key] + in_order(n.right));
                        assert(no_red_red(dl));
                        assert(black_height(dl) == black_height(n.left));
                        assert(no_red_red_below(res));
                        assert(black_balanced(res) && black_height(res) == black_height(n.left))
                            by {
                            reveal_with_fuel(black_height, 2);
                            reveal_with_fuel(black_balanced, 2);
                        }
                        assert(n.color == NodeColor::Red ==> no_red_red(res));
                    }
                    res
                }
            } else if n.key < key {
                proof {
                    lemma_seq_remove_right(in_order(n.left), n.key, in_order(n.right), key);
                }
                let right_black = !is_red(&n.right) && n.right.is_some();
                let dr = delete_node(n.right, key);
                if right_black {
                    let res = balance_right_del(n.left, n.key, dr);
                    proof {
                        assert(black_height(res) == black_height(n.left));
                        assert(n.color == NodeColor::Red ==> no_red_red(res));
                    }
                    res
                } else {
                    let res = Some(
                        Box::new(
                            Node { key: n.key, color: NodeColor::Red, left: n.left, right: dr },
                        ),
                    );
                    proof {
                        assert(in_order(res) == in_order(n.left) + seq![n.key] + in_order(dr));
                        assert(no_red_red(dr));
                        assert(black_height(dr) == black_height(n.right));
                        assert(no_red_red_below(res));
                        assert(black_balanced(res) && black_height(res) == black_height(n.left))
                            by {
                            reveal_with_fuel(black_height, 2);
                            reveal_with_fuel(black_balanced, 2);
                        }
                        assert(n.color == NodeColor::Red ==> no_red_red(res));
                    }
                    res
                }
            } else {
                proof {
                    lemma_seq_remove_at(in_order(n.left), n.key, in_order(n.right));
                }
                let res = join(n.left, n.right);
                proof {
                    assert(n.color == NodeColor::Red ==> no_red_red(res));
                }
                res
            }
        },
    }
}

/// Standard search descent: equal keys stop the walk, smaller keys go
/// left, larger go right. Returns the first node met that carries `key`.
fn search_node<'a>(link: &'a Option<Box<Node>>, key: i64) -> (r: Option<&'a Node>)
    requires
        sorted(in_order(*link)),
    ensures
        r.is_some() == in_order(*link).contains(key),
        r.is_some() ==> r.unwrap().key == key,
    decreases in_order(*link).len(),
{
    match link {
        None => None,
        Some(b) => {
            proof {
                assert(in_order(*link) == in_order(b.left) + seq![b.key] + in_order(b.right));
                lemma_sorted_split(in_order(b.left), b.key, in_order(b.right));
                lemma_contains_split(in_order(b.left), b.key, in_order(b.right), key);
                assert(in_order(b.left).len() < in_order(*link).len());
                assert(in_order(b.right).len() < in_order(*link).len());
            }
            if key == b.key {
                Some(&**b)
            } else if key < b.key {
                proof {
                    assert(!in_order(b.right).contains(key)) by {
                        if in_order(b.right).contains(key) {
                            let i = choose|i: int|
                                0 <= i < in_order(b.right).len() && in_order(b.right)[i] == key;
                        }
                    }
                }
                search_node(&b.left, key)
            } else {
                proof {
                    assert(!in_order(b.left).contains(key)) by {
                        if in_order(b.left).contains(key) {
                            let i = choose|i: int|
                                0 <= i < in_order(b.left).len() && in_order(b.left)[i] == key;
                        }
                    }
                }
                search_node(&b.right, key)
            }
        },
    }
}

/// Appends the subtree's keys to `out` in symmetric order.
fn collect_keys(link: &Option<Box<Node>>, out: &mut Vec<i64>)
    ensures
        final(out)@ == old(out)@ + in_order(*link),
    decreases in_order(*link).len(),
{
    match link {
        None => {
            proof {
                assert(old(out)@ + in_order(*link) =~= old(out)@);
            }
        },
        Some(b) => {
            proof {
                assert(in_order(*link) == in_order(b.left) + seq![b.key] + in_order(b.right));
                assert(in_order(b.left).len() < in_order(*link).len());
                assert(in_order(b.right).len() < in_order(*link).len());
            }
            collect_keys(&b.left, out);
            out.push(b.key);
            collect_keys(&b.right, out);
            proof {
                assert(((old(out)@ + in_order(b.left)).push(b.key)) + in_order(b.right) =~= old(
                    out,
                )@ + in_order(*link));
            }
        },
    }
}

/// Walks both trees together and reports whether they are equal node for
/// node: same shape, same colors, same keys. Bails out at the first
/// difference.
pub fn tree_equality_dfs(me: &Option<Box<Node>>, other: &Option<Box<Node>>) -> (r: bool)
    ensures
        r == (*me == *other),
    decreases in_order(*me).len(),
{
    match (me, other) {
        (None, None) => true,
        (Some(a), Some(b)) => {
            proof {
                assert(in_order(a.left).len() < in_order(*me).len());
                assert(in_order(a.right).len() < in_order(*me).len());
            }
            if a.color != b.color {
                return false;
            }
            if a.key != b.key {
                return false;
            }
            let left_eq = tree_equality_dfs(&a.left, &b.left);
            if !left_eq {
                return false;
            }
            tree_equality_dfs(&a.right, &b.right)
        },
        _ => false,
    }
}

impl Tree {
    /// An empty tree, the root link absent.
    pub fn new() -> (t: Tree)
        ensures
            t.wf(),
            t@ == Seq::<i64>::empty(),
    {
        Tree { root: None, length: 0 }
    }

    /// The red-black invariants: the root is black, no red node has a red
    /// child, every root-to-leaf path passes the same number of black
    /// nodes, the in-order key sequence is sorted, and `length` counts the
    /// nodes.
    pub open spec fn wf(&self) -> bool {
        &&& color_of(self.root) == NodeColor::Black
        &&& no_red_red(self.root)
        &&& black_balanced(self.root)
        &&& sorted(self@)
        &&& self.length == self@.len()
    }

    /// Adds `key` to the tree. A key already present is inserted again
    /// (rightward of its equals), so the tree holds a multiset of keys.
    pub fn insert(&mut self, key: i64)
        requires
            old(self).wf(),
            old(self)@.len() < usize::MAX,
        ensures
            final(self).wf(),
            final(self)@ == seq_insert(old(self)@, key),
            final(self)@.len() == old(self)@.len() + 1,
            final(self)@.contains(key),
            forall|y: i64| #[trigger] final(self)@.contains(y) <==> (y == key || old(
                self,
            )@.contains(y)),
    {
        proof {
            lemma_seq_insert_props(self@, key);
            lemma_seq_insert_sorted(self@, key);
        }
        let root = self.root.take();
        let grown = insert_node(root, key);
        self.root = paint_black(grown);
        self.length = self.length + 1;
    }

    /// Finds the first node met on the search descent whose key is
    /// `key`, or nothing when the key is absent.
    fn search(&self, key: i64) -> (r: Option<&Node>)
        requires
            self.wf(),
        ensures
            r.is_some() == self@.contains(key),
            r.is_some() ==> r.unwrap().key == key,
    {
        search_node(&self.root, key)
    }

    /// Whether `key` occurs in the tree; a miss is a defined outcome.
    pub fn contains_key(&self, key: i64) -> (r: bool)
        requires
            self.wf(),
        ensures
            r == self@.contains(key),
    {
        self.search(key).is_some()
    }

    /// Removes one occurrence of `key` from the tree; a tree without the
    /// key is left exactly as it was (a miss is a defined outcome, not an
    /// error).
    pub fn delete(&mut self, key: i64)
        requires
            old(self).wf(),
        ensures
            final(self).wf(),
            final(self)@ == seq_remove(old(self)@, key),
            old(self)@.contains(key) ==> final(self)@.len() + 1 == old(self)@.len(),
            !old(self)@.contains(key) ==> *final(self) == *old(self),
    {
        if !self.contains_key(key) {
            proof {
                lemma_seq_remove_props(self@, key);
            }
            return;
        }
        proof {
            lemma_seq_remove_props(self@, key);
            lemma_seq_remove_sorted(self@, key);
        }
        let root = self.root.take();
        let shrunk = delete_node(root, key);
        self.root = paint_black(shrunk);
        self.length = self.length - 1;
    }

    /// Leftmost node of the subtree: the one carrying its least key.
    fn minimum_node<'a>(&self, link: &'a Option<Box<Node>>) -> (r: Option<&'a Node>)
        ensures
            r.is_some() == link.is_some(),
            r.is_some() ==> r.unwrap().key == in_order(*link).first(),
        decreases in_order(*link).len(),
    {
        match link {
            None => None,
            Some(b) => {
                proof {
                    assert(in_order(*link) == in_order(b.left) + seq![b.key] + in_order(b.right));
                    assert(in_order(b.left).len() < in_order(*link).len());
                }
                if b.left.is_none() {
                    proof {
                        assert(in_order(b.left) =~= Seq::<i64>::empty());
                        assert(in_order(*link)[0] == b.key);
                    }
                    Some(&**b)
                } else {
                    let res = self.minimum_node(&b.left);
                    proof {
                        assert(in_order(b.left).len() > 0) by {
                            reveal_with_fuel(in_order, 2);
                        }
                        assert(in_order(*link)[0] == in_order(b.left)[0]);
                    }
                    res
                }
            },
        }
    }

    /// Rightmost node of the subtree: the one carrying its greatest key.
    fn maximum_node<'a>(&self, link: &'a Option<Box<Node>>) -> (r: Option<&'a Node>)
        ensures
            r.is_some() == link.is_some(),
            r.is_some() ==> r.unwrap().key == in_order(*link).last(),
        decreases in_order(*link).len(),
    {
        match link {
            None => None,
            Some(b) => {
                proof {
                    assert(in_order(*link) == in_order(b.left) + seq![b.key] + in_order(b.right));
                    assert(in_order(b.right).len() < in_order(*link).len());
                }
                if b.right.is_none() {
                    proof {
                        assert(in_order(b.right) =~= Seq::<i64>::empty());
                        assert(in_order(*link).last() == b.key);
                    }
                    Some(&**b)
                } else {
                    let res = self.maximum_node(&b.right);
                    proof {
                        assert(in_order(b.right).len() > 0) by {
                            reveal_with_fuel(in_order, 2);
                        }
                        assert(in_order(*link).last() == in_order(b.right).last());
                    }
                    res
                }
            },
        }
    }

    /// The least key of the tree, or nothing when the tree is empty.
    pub fn minimum(&self) -> (r: Option<i64>)
        requires
            self.wf(),
        ensures
            r.is_some() == (self@.len() > 0),
            self@.len() > 0 ==> r == Some(self@.first()),
            forall|i: int| 0 <= i < self@.len() ==> r.unwrap() <= self@[i],
    {
        proof {
            assert(self.root.is_some() == (self@.len() > 0)) by {
                reveal_with_fuel(in_order, 2);
            }
        }
        match self.minimum_node(&self.root) {
            None => None,
            Some(n) => Some(n.key),
        }
    }

    /// The greatest key of the tree, or nothing when the tree is empty.
    pub fn maximum(&self) -> (r: Option<i64>)
        requires
            self.wf(),
        ensures
            r.is_some() == (self@.len() > 0),
            self@.len() > 0 ==> r == Some(self@.last()),
            forall|i: int| 0 <= i < self@.len() ==> self@[i] <= r.unwrap(),
    {
        proof {
            assert(self.root.is_some() == (self@.len() > 0)) by {
                reveal_with_fuel(in_order, 2);
            }
        }
        match self.maximum_node(&self.root) {
            None => None,
            Some(n) => Some(n.key),
        }
    }

    /// How many keys the tree holds, equal inserts counted separately.
    pub fn len(&self) -> (r: usize)
        requires
            self.wf(),
        ensures
            r == self@.len(),
    {
        self.length
    }

    /// Whether the tree holds no keys; the root link is then absent.
    pub fn is_empty(&self) -> (r: bool)
        requires
            self.wf(),
        ensures
            r == (self@.len() == 0),
    {
        proof {
            assert(self.root.is_some() == (self@.len() > 0)) by {
                reveal_with_fuel(in_order, 2);
            }
        }
        self.root.is_none()
    }

    /// Drops every node and resets the count; on an already empty tree
    /// this changes nothing at all.
    pub fn clear(&mut self)
        ensures
            final(self).wf(),
            final(self)@ == Seq::<i64>::empty(),
            final(self).length == 0,
            old(self).wf() && old(self)@.len() == 0 ==> *final(self) == *old(self),
    {
        proof {
            assert(old(self).root.is_some() ==> old(self)@.len() > 0) by {
                reveal_with_fuel(in_order, 2);
            }
        }
        self.root = None;
        self.length = 0;
    }

    /// The keys of the tree in non-decreasing order.
    pub fn in_order_keys(&self) -> (r: Vec<i64>)
        ensures
            r@ == self@,
    {
        let mut out: Vec<i64> = Vec::new();
        collect_keys(&self.root, &mut out);
        proof {
            assert(Seq::<i64>::empty() + self@ =~= self@);
        }
        out
    }

    /// Rotates the tree about its root toward the left: the root's right
    /// child takes the root's place, the root becomes its left child, and
    /// the displaced middle subtree swings over; colors travel with their
    /// nodes and the key order is untouched. Requires a real right child;
    /// rotating without one is an invalid call, not a data condition.
    pub fn left_rotate(&mut self)
        requires
            old(self).root.is_some(),
            old(self).root.unwrap().right.is_some(),
        ensures
            final(self).length == old(self).length,
            final(self).root.is_some(),
            in_order(final(self).root) == in_order(old(self).root),
            ({
                let x = old(self).root.unwrap();
                let y = x.right.unwrap();
                let nr = final(self).root.unwrap();
                &&& nr.key == y.key
                &&& nr.color == y.color
                &&& nr.right == y.right
                &&& nr.left.is_some()
                &&& nr.left.unwrap().key == x.key
                &&& nr.left.unwrap().color == x.color
                &&& nr.left.unwrap().left == x.left
                &&& nr.left.unwrap().right == y.left
            }),
    {
        let x = *self.root.take().unwrap();
        let y = *x.right.unwrap();
        let res = Some(
            Box::new(
                Node {
                    key: y.key,
                    color: y.color,
                    left: Some(
                        Box::new(
                            Node { key: x.key, color: x.color, left: x.left, right: y.left },
                        ),
                    ),
                    right: y.right,
                },
            ),
        );
        proof {
            assert(in_order(res) =~= in_order(old(self).root)) by {
                reveal_with_fuel(in_order, 3);
            }
        }
        self.root = res;
    }

    /// Mirror image of `left_rotate`: the root's left child takes the
    /// root's place. Requires a real left child.
    pub fn right_rotate(&mut self)
        requires
            old(self).root.is_some(),
            old(self).root.unwrap().left.is_some(),
        ensures
            final(self).length == old(self).length,
            final(self).root.is_some(),
            in_order(final(self).root) == in_order(old(self).root),
            ({
                let y = old(self).root.unwrap();
                let x = y.left.unwrap();
                let nr = final(self).root.unwrap();
                &&& nr.key == x.key
                &&& nr.color == x.color
                &&& nr.left == x.left
                &&& nr.right.is_some()
                &&& nr.right.unwrap().key == y.key
                &&& nr.right.unwrap().color == y.color
                &&& nr.right.unwrap().right == y.right
                &&& nr.right.unwrap().left == x.right
            }),
    {
        let y = *self.root.take().unwrap();
        let x = *y.left.unwrap();
        let res = Some(
            Box::new(
                Node {
                    key: x.key,
                    color: x.color,
                    left: x.left,
                    right: Some(
                        Box::new(
                            Node { key: y.key, color: y.color, left: x.right, right: y.right },
                        ),
                    ),
                },
            ),
        );
        proof {
            assert(in_order(res) =~= in_order(old(self).root)) by {
                reveal_with_fuel(in_order, 3);
            }
        }
        self.root = res;
    }
}

impl PartialEq for Tree {
    /// Trees are compared node for node, the way the in-order walk sees
    /// them; the cached length takes no part.
    fn eq(&self, other: &Tree) -> (r: bool) {
        tree_equality_dfs(&self.root, &other.root)
    }
}

impl vstd::std_specs::cmp::PartialEqSpecImpl for Tree {
    open spec fn obeys_eq_spec() -> bool {
        true
    }

    open spec fn eq_spec(&self, other: &Tree) -> bool {
        self.root == other.root
    }
}

/// Inserting a key and deleting it again is a round trip: the inserted
/// key is contained, the deletion restores the key sequence exactly, and
/// a key that was absent before is absent again after.
pub proof fn lemma_insert_then_delete(s: Seq<i64>, x: i64)
    requires
        sorted(s),
    ensures
        seq_insert(s, x).contains(x),
        seq_remove(seq_insert(s, x), x) == s,
        !s.contains(x) ==> !seq_remove(seq_insert(s, x), x).contains(x),
{
    lemma_seq_insert_props(s, x);
    crate::keyseq::lemma_seq_insert_remove(s, x);
}

/// Inserting one key into an empty tree and deleting it leaves the tree
/// empty again.
pub proof fn lemma_single_insert_delete(x: i64)
    ensures
        seq_insert(Seq::<i64>::empty(), x).len() == 1,
        seq_remove(seq_insert(Seq::<i64>::empty(), x), x) == Seq::<i64>::empty(),
{
    assert(sorted(Seq::<i64>::empty()));
    lemma_insert_then_delete(Seq::<i64>::empty(), x);
}

} // verus!
