use vstd::prelude::*;

use crate::node::{
    black_balanced, black_height, color_of, in_order, is_red, no_red_red, no_red_red_below, Node,
    NodeColor,
};

verus! {

/// Paints the root of the subtree black, leaving everything else as it
/// was. A red root whose subtrees are clean becomes a clean black root.
pub(crate) fn paint_black(link: Option<Box<Node>>) -> (res: Option<Box<Node>>)
    ensures
        in_order(res) == in_order(link),
        res.is_some() == link.is_some(),
        color_of(res) == NodeColor::Black,
        no_red_red_below(link) ==> no_red_red(res),
        black_balanced(link) ==> black_balanced(res),
        color_of(link) == NodeColor::Red ==> black_height(res) == black_height(link) + 1,
        color_of(link) == NodeColor::Black ==> black_height(res) == black_height(link),
{
    match link {
        None => None,
        Some(b) => {
            let n = *b;
            Some(Box::new(Node { key: n.key, color: NodeColor::Black, left: n.left, right: n.right }))
        },
    }
}

/// Paints the root of a non-empty black-rooted subtree red, lowering its
/// black-height by exactly one.
pub(crate) fn paint_red(link: Option<Box<Node>>) -> (res: Option<Box<Node>>)
    requires
        link.is_some(),
        color_of(link) == NodeColor::Black,
    ensures
        in_order(res) == in_order(link),
        res.is_some(),
        color_of(res) == NodeColor::Red,
        no_red_red_below(link) ==> no_red_red_below(res),
        black_balanced(link) ==> black_balanced(res),
        black_height(res) + 1 == black_height(link),
{
    let n = *link.unwrap();
    Some(Box::new(Node { key: n.key, color: NodeColor::Red, left: n.left, right: n.right }))
}

/// Rebuilds a black node from a left subtree that may carry a red-red
/// pair at its top (the state after inserting below the left child of a
/// black node): one local rotation and recoloring restore `no_red_red`
/// while the black-height grows by the one black root added.
#[verifier::rlimit(100)]
pub(crate) fn balance_left(l: Option<Box<Node>>, key: i64, r: Option<Box<Node>>) -> (res: Option<
    Box<Node>,
>)
    ensures
        in_order(res) == in_order(l) + seq![key] + in_order(r),
        res.is_some(),
        no_red_red_below(l) && no_red_red(r) ==> no_red_red(res),
        black_balanced(l) && black_balanced(r) && black_height(l) == black_height(r)
            ==> black_balanced(res) && black_height(res) == black_height(l) + 1,
{
    proof {
        reveal_with_fuel(in_order, 3);
        reveal_with_fuel(no_red_red, 3);
        reveal_with_fuel(black_height, 3);
        reveal_with_fuel(black_balanced, 3);
    }
    if is_red(&l) {
        let lb = *l.unwrap();
        if is_red(&lb.left) {
            let llb = *lb.left.unwrap();
            let res = Some(
                Box::new(
                    Node {
                        key: lb.key,
                        color: NodeColor::Red,
                        left: Some(
                            Box::new(
                                Node {
                                    key: llb.key,
                                    color: NodeColor::Black,
                                    left: llb.left,
                                    right: llb.right,
                                },
                            ),
                        ),
                        right: Some(
                            Box::new(
                                Node { key, color: NodeColor::Black, left: lb.right, right: r },
                            ),
                        ),
                    },
                ),
            );
            res
        } else if is_red(&lb.right) {
            let lrb = *lb.right.unwrap();
            let res = Some(
                Box::new(
                    Node {
                        key: lrb.key,
                        color: NodeColor::Red,
                        left: Some(
                            Box::new(
                                Node {
                                    key: lb.key,
                                    color: NodeColor::Black,
                                    left: lb.left,
                                    right: lrb.left,
                                },
                            ),
                        ),
                        right: Some(
                            Box::new(
                                Node { key, color: NodeColor::Black, left: lrb.right, right: r },
                            ),
                        ),
                    },
                ),
            );
            res
        } else {
            Some(
                Box::new(
                    Node {
                        key,
                        color: NodeColor::Black,
                        left: Some(
                            Box::new(
                                Node {
                                    key: lb.key,
                                    color: NodeColor::Red,
                                    left: lb.left,
                                    right: lb.right,
                                },
                            ),
                        ),
                        right: r,
                    },
                ),
            )
        }
    } else {
        Some(Box::new(Node { key, color: NodeColor::Black, left: l, right: r }))
    }
}

/// Mirror image of `balance_left`: rebuilds a black node from a right
/// subtree that may carry a red-red pair at its top.
#[verifier::rlimit(100)]
pub(crate) fn balance_right(l: Option<Box<Node>>, key: i64, r: Option<Box<Node>>) -> (res: Option<
    Box<Node>,
>)
    ensures
        in_order(res) == in_order(l) + seq![key] + in_order(r),
        res.is_some(),
        no_red_red(l) && no_red_red_below(r) ==> no_red_red(res),
        black_balanced(l) && black_balanced(r) && black_height(l) == black_height(r)
            ==> black_balanced(res) && black_height(res) == black_height(l) + 1,
{
    proof {
        reveal_with_fuel(in_order, 3);
        reveal_with_fuel(no_red_red, 3);
        reveal_with_fuel(black_height, 3);
        reveal_with_fuel(black_balanced, 3);
    }
    if is_red(&r) {
        let rb = *r.unwrap();
        if is_red(&rb.right) {
            let rrb = *rb.right.unwrap();
            let res = Some(
                Box::new(
                    Node {
                        key: rb.key,
                        color: NodeColor::Red,
                        left: Some(
                            Box::new(
                                Node { key, color: NodeColor::Black, left: l, right: rb.left },
                            ),
                        ),
                        right: Some(
                            Box::new(
                                Node {
                                    key: rrb.key,
                                    color: NodeColor::Black,
                                    left: rrb.left,
                                    right: rrb.right,
                                },
                            ),
                        ),
                    },
                ),
            );
            res
        } else if is_red(&rb.left) {
            let rlb = *rb.left.unwrap();
            let res = Some(
                Box::new(
                    Node {
                        key: rlb.key,
                        color: NodeColor::Red,
                        left: Some(
                            Box::new(
                                Node { key, color: NodeColor::Black, left: l, right: rlb.left },
                            ),
                        ),
                        right: Some(
                            Box::new(
                                Node {
                                    key: rb.key,
                                    color: NodeColor::Black,
                                    left: rlb.right,
                                    right: rb.right,
                                },
                            ),
                        ),
                    },
                ),
            );
            res
        } else {
            Some(
                Box::new(
                    Node {
                        key,
                        color: NodeColor::Black,
                        left: l,
                        right: Some(
                            Box::new(
                                Node {
                                    key: rb.key,
                                    color: NodeColor::Red,
                                    left: rb.left,
                                    right: rb.right,
                                },
                            ),
                        ),
                    },
                ),
            )
        }
    } else {
        Some(Box::new(Node { key, color: NodeColor::Black, left: l, right: r }))
    }
}


/// Rejoins a left subtree that is one black level short (the state after
/// deleting a black node below the left child) with its sibling: the
/// missing black level is restored by borrowing from the sibling or by
/// pushing the deficit into a recoloring.
#[verifier::rlimit(100)]
pub(crate) fn balance_left_del(l: Option<Box<Node>>, key: i64, r: Option<Box<Node>>) -> (res:
    Option<Box<Node>>)
    requires
        no_red_red_below(l),
        no_red_red(r),
        black_balanced(l),
        black_balanced(r),
        black_height(l) + 1 == black_height(r),
    ensures
        in_order(res) == in_order(l) + seq![key] + in_order(r),
        res.is_some(),
        black_balanced(res),
        black_height(res) == black_height(r),
        no_red_red_below(res),
        color_of(r) == NodeColor::Black ==> no_red_red(res),
{
    proof {
        reveal_with_fuel(in_order, 2);
        reveal_with_fuel(no_red_red, 2);
        reveal_with_fuel(black_height, 2);
        reveal_with_fuel(black_balanced, 2);
    }
    if is_red(&l) {
        let lp = paint_black(l);
        Some(Box::new(Node { key, color: NodeColor::Red, left: lp, right: r }))
    } else if !is_red(&r) {
        proof {
            assert(r.is_some());
            assert(no_red_red(l));
        }
        let rp = paint_red(r);
        balance_right(l, key, rp)
    } else {
        let rb = *r.unwrap();
        proof {
            assert(color_of(rb.left) == NodeColor::Black);
            assert(black_height(rb.left) == black_height(l) + 1);
            assert(rb.left.is_some());
            assert(rb.right.is_some());
            assert(color_of(rb.right) == NodeColor::Black);
            assert(no_red_red(l));
        }
        let rlb = *rb.left.unwrap();
        let t4p = paint_red(rb.right);
        let new_right = balance_right(rlb.right, rb.key, t4p);
        let res = Some(
            Box::new(
                Node {
                    key: rlb.key,
                    color: NodeColor::Red,
                    left: Some(
                        Box::new(
                            Node { key, color: NodeColor::Black, left: l, right: rlb.left },
                        ),
                    ),
                    right: new_right,
                },
            ),
        );
        proof {
            assert(in_order(res) =~= in_order(l) + seq![key] + in_order(r));
        }
        res
    }
}

/// Mirror image of `balance_left_del`: rejoins a right subtree that is
/// one black level short with its sibling on the left.
#[verifier::rlimit(100)]
pub(crate) fn balance_right_del(l: Option<Box<Node>>, key: i64, r: Option<Box<Node>>) -> (res:
    Option<Box<Node>>)
    requires
        no_red_red(l),
        no_red_red_below(r),
        black_balanced(l),
        black_balanced(r),
        black_height(r) + 1 == black_height(l),
    ensures
        in_order(res) == in_order(l) + seq![key] + in_order(r),
        res.is_some(),
        black_balanced(res),
        black_height(res) == black_height(l),
        no_red_red_below(res),
        color_of(l) == NodeColor::Black ==> no_red_red(res),
{
    proof {
        reveal_with_fuel(in_order, 2);
        reveal_with_fuel(no_red_red, 2);
        reveal_with_fuel(black_height, 2);
        reveal_with_fuel(black_balanced, 2);
    }
    if is_red(&r) {
        let rp = paint_black(r);
        Some(Box::new(Node { key, color: NodeColor::Red, left: l, right: rp }))
    } else if !is_red(&l) {
        proof {
            assert(l.is_some());
            assert(no_red_red(r));
        }
        let lp = paint_red(l);
        balance_left(lp, key, r)
    } else {
        let lb = *l.unwrap();
        proof {
            assert(color_of(lb.right) == NodeColor::Black);
            assert(black_height(lb.left) == black_height(r) + 1);
            assert(lb.right.is_some());
            assert(lb.left.is_some());
            assert(color_of(lb.left) == NodeColor::Black);
            assert(no_red_red(r));
        }
        let lrb = *lb.right.unwrap();
        let t1p = paint_red(lb.left);
        let new_left = balance_left(t1p, lb.key, lrb.left);
        let res = Some(
            Box::new(
                Node {
                    key: lrb.key,
                    color: NodeColor::Red,
                    left: new_left,
                    right: Some(
                        Box::new(
                            Node { key, color: NodeColor::Black, left: lrb.right, right: r },
                        ),
                    ),
                },
            ),
        );
        proof {
            assert(in_order(res) =~= in_order(l) + seq![key] + in_order(r));
        }
        res
    }
}


/// Joins two red-rooted subtrees of equal black-height: the middles are
/// joined first, and the red roots are rewired around the outcome.
#[verifier::rlimit(100)]
fn join_reds(l: Option<Box<Node>>, r: Option<Box<Node>>) -> (res: Option<Box<Node>>)
    requires
        no_red_red(l),
        no_red_red(r),
        black_balanced(l),
        black_balanced(r),
        black_height(l) == black_height(r),
        color_of(l) == NodeColor::Red,
        color_of(r) == NodeColor::Red,
    ensures
        in_order(res) == in_order(l) + in_order(r),
        black_balanced(res),
        black_height(res) == black_height(l),
        no_red_red_below(res),
    decreases in_order(l).len() + in_order(r).len(), 0int,
{
    let lb = *l.unwrap();
    let rb = *r.unwrap();
    proof {
        assert(no_red_red(lb.right) && no_red_red(rb.left) && black_balanced(lb.right)
            && black_balanced(rb.left) && black_height(lb.right) == black_height(rb.left)
            && color_of(lb.right) == NodeColor::Black && color_of(rb.left) == NodeColor::Black) by {
            reveal_with_fuel(no_red_red, 2);
            reveal_with_fuel(black_height, 2);
            reveal_with_fuel(black_balanced, 2);
        }
        assert(in_order(lb.right).len() + in_order(rb.left).len() < in_order(l).len() + in_order(
            r,
        ).len()) by {
            reveal_with_fuel(in_order, 2);
        }
    }
    let mid = join(lb.right, rb.left);
    if is_red(&mid) {
        let mb = *mid.unwrap();
        let res = Some(
            Box::new(
                Node {
                    key: mb.key,
                    color: NodeColor::Red,
                    left: Some(
                        Box::new(
                            Node {
                                key: lb.key,
                                color: NodeColor::Red,
                                left: lb.left,
                                right: mb.left,
                            },
                        ),
                    ),
                    right: Some(
                        Box::new(
                            Node {
                                key: rb.key,
                                color: NodeColor::Red,
                                left: mb.right,
                                right: rb.right,
                            },
                        ),
                    ),
                },
            ),
        );
        proof {
            assert(in_order(res) == in_order(l) + in_order(r)) by {
                reveal_with_fuel(in_order, 2);
                assert(in_order(mid) == in_order(mb.left) + seq![mb.key] + in_order(mb.right));
                assert(in_order(res) =~= (in_order(lb.left) + seq![lb.key]) + in_order(mid) + (
                seq![rb.key] + in_order(rb.right)));
                assert((in_order(lb.left) + seq![lb.key]) + (in_order(lb.right) + in_order(
                    rb.left,
                )) + (seq![rb.key] + in_order(rb.right)) =~= in_order(l) + in_order(r));
            }
            assert(black_balanced(res) && black_height(res) == black_height(l)
                && no_red_red_below(res)) by {
                reveal_with_fuel(no_red_red, 2);
                reveal_with_fuel(black_height, 2);
                reveal_with_fuel(black_balanced, 2);
            }
        }
        res
    } else {
        let res = Some(
            Box::new(
                Node {
                    key: lb.key,
                    color: NodeColor::Red,
                    left: lb.left,
                    right: Some(
                        Box::new(
                            Node { key: rb.key, color: NodeColor::Red, left: mid, right: rb.right },
                        ),
                    ),
                },
            ),
        );
        proof {
            assert(in_order(res) == in_order(l) + in_order(r)) by {
                reveal_with_fuel(in_order, 2);
                assert(in_order(res) =~= (in_order(lb.left) + seq![lb.key]) + in_order(mid) + (
                seq![rb.key] + in_order(rb.right)));
                assert((in_order(lb.left) + seq![lb.key]) + (in_order(lb.right) + in_order(
                    rb.left,
                )) + (seq![rb.key] + in_order(rb.right)) =~= in_order(l) + in_order(r));
            }
            assert(black_balanced(res) && black_height(res) == black_height(l)
                && no_red_red_below(res)) by {
                reveal_with_fuel(no_red_red, 2);
                reveal_with_fuel(black_height, 2);
                reveal_with_fuel(black_balanced, 2);
            }
        }
        res
    }
}

/// Joins two black-rooted subtrees of equal black-height: the middles
/// are joined first; a red outcome donates its root, otherwise the left
/// side is one black level short and the deletion balancer repairs it.
#[verifier::rlimit(100)]
fn join_blacks(l: Option<Box<Node>>, r: Option<Box<Node>>) -> (res: Option<Box<Node>>)
    requires
        no_red_red(l),
        no_red_red(r),
        black_balanced(l),
        black_balanced(r),
        black_height(l) == black_height(r),
        l.is_some(),
        r.is_some(),
        color_of(l) == NodeColor::Black,
        color_of(r) == NodeColor::Black,
    ensures
        in_order(res) == in_order(l) + in_order(r),
        black_balanced(res),
        black_height(res) == black_height(l),
        no_red_red(res),
    decreases in_order(l).len() + in_order(r).len(), 0int,
{
    let lb = *l.unwrap();
    let rb = *r.unwrap();
    proof {
        assert(no_red_red(lb.right) && no_red_red(rb.left) && black_balanced(lb.right)
            && black_balanced(rb.left) && black_height(lb.right) == black_height(rb.left)) by {
            reveal_with_fuel(no_red_red, 2);
            reveal_with_fuel(black_height, 2);
            reveal_with_fuel(black_balanced, 2);
        }
        assert(in_order(lb.right).len() + in_order(rb.left).len() < in_order(l).len() + in_order(
            r,
        ).len()) by {
            reveal_with_fuel(in_order, 2);
        }
    }
    let mid = join(lb.right, rb.left);
    if is_red(&mid) {
        let mb = *mid.unwrap();
        let res = Some(
            Box::new(
                Node {
                    key: mb.key,
                    color: NodeColor::Red,
                    left: Some(
                        Box::new(
                            Node {
                                key: lb.key,
                                color: NodeColor::Black,
                                left: lb.left,
                                right: mb.left,
                            },
                        ),
                    ),
                    right: Some(
                        Box::new(
                            Node {
                                key: rb.key,
                                color: NodeColor::Black,
                                left: mb.right,
                                right: rb.right,
                            },
                        ),
                    ),
                },
            ),
        );
        proof {
            assert(in_order(res) == in_order(l) + in_order(r)) by {
                reveal_with_fuel(in_order, 2);
                assert(in_order(mid) == in_order(mb.left) + seq![mb.key] + in_order(mb.right));
                assert(in_order(res) =~= (in_order(lb.left) + seq![lb.key]) + in_order(mid) + (
                seq![rb.key] + in_order(rb.right)));
                assert((in_order(lb.left) + seq![lb.key]) + (in_order(lb.right) + in_order(
                    rb.left,
                )) + (seq![rb.key] + in_order(rb.right)) =~= in_order(l) + in_order(r));
            }
            assert(black_balanced(res) && black_height(res) == black_height(l) && no_red_red(
                res,
            )) by {
                reveal_with_fuel(no_red_red, 2);
                reveal_with_fuel(black_height, 2);
                reveal_with_fuel(black_balanced, 2);
            }
        }
        res
    } else {
        let new_right = Some(
            Box::new(Node { key: rb.key, color: NodeColor::Black, left: mid, right: rb.right }),
        );
        proof {
            assert(no_red_red_below(lb.left) && no_red_red(new_right) && black_balanced(lb.left)
                && black_balanced(new_right) && black_height(lb.left) + 1 == black_height(new_right)
                && color_of(new_right) == NodeColor::Black) by {
                reveal_with_fuel(no_red_red, 2);
                reveal_with_fuel(black_height, 2);
                reveal_with_fuel(black_balanced, 2);
            }
        }
        let res = balance_left_del(lb.left, lb.key, new_right);
        proof {
            assert(in_order(res) == in_order(l) + in_order(r)) by {
                reveal_with_fuel(in_order, 2);
                assert(in_order(new_right) == in_order(mid) + seq![rb.key] + in_order(rb.right));
                assert(in_order(res) =~= (in_order(lb.left) + seq![lb.key]) + (in_order(lb.right)
                    + in_order(rb.left)) + (seq![rb.key] + in_order(rb.right)));
                assert((in_order(lb.left) + seq![lb.key]) + (in_order(lb.right) + in_order(
                    rb.left,
                )) + (seq![rb.key] + in_order(rb.right)) =~= in_order(l) + in_order(r));
            }
            assert(black_height(res) == black_height(l)) by {
                reveal_with_fuel(black_height, 2);
            }
        }
        res
    }
}

/// Joins two subtrees of equal black-height around a removed node: the
/// result carries every key of both, in order, at the same black-height.
#[verifier::rlimit(100)]
pub(crate) fn join(l: Option<Box<Node>>, r: Option<Box<Node>>) -> (res: Option<Box<Node>>)
    requires
        no_red_red(l),
        no_red_red(r),
        black_balanced(l),
        black_balanced(r),
        black_height(l) == black_height(r),
    ensures
        in_order(res) == in_order(l) + in_order(r),
        black_balanced(res),
        black_height(res) == black_height(l),
        no_red_red_below(res),
        color_of(l) == NodeColor::Black && color_of(r) == NodeColor::Black ==> no_red_red(res),
    decreases in_order(l).len() + in_order(r).len(), 1int,
{
    if l.is_none() {
        proof {
            assert(in_order(l) + in_order(r) =~= in_order(r));
            assert(no_red_red_below(r)) by { reveal_with_fuel(no_red_red, 2); }
        }
        return r;
    }
    if r.is_none() {
        proof {
            assert(in_order(l) + in_order(r) =~= in_order(l));
            assert(no_red_red_below(l)) by { reveal_with_fuel(no_red_red, 2); }
        }
        return l;
    }
    let l_red = is_red(&l);
    let r_red = is_red(&r);
    if l_red && r_red {
        let res = join_reds(l, r);
        proof {
            assert(no_red_red_below(res));
        }
        res
    } else if !l_red && !r_red {
        let res = join_blacks(l, r);
        proof {
            assert(no_red_red_below(res)) by { reveal_with_fuel(no_red_red, 2); }
        }
        res
    } else if r_red {
        let rb = *r.unwrap();
        proof {
            assert(no_red_red(rb.left) && black_balanced(rb.left) && black_height(l)
                == black_height(rb.left) && color_of(rb.left) == NodeColor::Black && no_red_red(
                rb.right,
            ) && black_balanced(rb.right)) by {
                reveal_with_fuel(no_red_red, 2);
                reveal_with_fuel(black_height, 2);
                reveal_with_fuel(black_balanced, 2);
            }
            assert(in_order(l).len() + in_order(rb.left).len() < in_order(l).len() + in_order(
                r,
            ).len()) by {
                reveal_with_fuel(in_order, 2);
            }
        }
        let inner = join(l, rb.left);
        let res = Some(
            Box::new(Node { key: rb.key, color: NodeColor::Red, left: inner, right: rb.right }),
        );
        proof {
            assert(in_order(res) == in_order(l) + in_order(r)) by {
                reveal_with_fuel(in_order, 2);
                assert(in_order(res) =~= in_order(inner) + (seq![rb.key] + in_order(rb.right)));
                assert((in_order(l) + in_order(rb.left)) + (seq![rb.key] + in_order(rb.right)) =~=
                in_order(l) + in_order(r));
            }
            assert(black_balanced(res) && black_height(res) == black_height(l)
                && no_red_red_below(res)) by {
                reveal_with_fuel(no_red_red, 2);
                reveal_with_fuel(black_height, 2);
                reveal_with_fuel(black_balanced, 2);
            }
        }
        res
    } else {
        let lb = *l.unwrap();
        proof {
            assert(no_red_red(lb.right) && black_balanced(lb.right) && black_height(lb.right)
                == black_height(r) && color_of(lb.right) == NodeColor::Black && no_red_red(lb.left)
                && black_balanced(lb.left)) by {
                reveal_with_fuel(no_red_red, 2);
                reveal_with_fuel(black_height, 2);
                reveal_with_fuel(black_balanced, 2);
            }
            assert(in_order(lb.right).len() + in_order(r).len() < in_order(l).len() + in_order(
                r,
            ).len()) by {
                reveal_with_fuel(in_order, 2);
            }
        }
        let inner = join(lb.right, r);
        let res = Some(
            Box::new(Node { key: lb.key, color: NodeColor::Red, left: lb.left, right: inner }),
        );
        proof {
            assert(in_order(res) == in_order(l) + in_order(r)) by {
                reveal_with_fuel(in_order, 2);
                assert(in_order(res) =~= in_order(lb.left) + (seq![lb.key] + in_order(inner)));
                assert(in_order(lb.left) + (seq![lb.key] + (in_order(lb.right) + in_order(r))) =~=
                in_order(l) + in_order(r));
            }
            assert(black_balanced(res) && black_height(res) == black_height(l)
                && no_red_red_below(res)) by {
                reveal_with_fuel(no_red_red, 2);
                reveal_with_fuel(black_height, 2);
                reveal_with_fuel(black_balanced, 2);
            }
        }
        res
    }
}

} // verus!
