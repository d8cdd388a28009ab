use vstd::multiset::Multiset;
use vstd::prelude::*;

use crate::operators::{
    Associativity,
    BinOperator,
    UnOperator,
    bin_associativity,
    bin_precedence,
};

verus! {


/// One token of a flat expression: an operand or an operator.
#[derive(Debug)]
pub enum Expr<V> {
    Val(V),
    UnOp(UnOperator),
    BinOp(BinOperator),
}

/// An expression tree: operands at the leaves, operators inside.
#[derive(Debug)]
pub enum Tree<V> {
    Leaf(V),
    Unary(UnOperator, Box<Tree<V>>),
    Binary(BinOperator, Box<Tree<V>>, Box<Tree<V>>),
}

/// The tokens of a tree in postfix order: operands before the operator that
/// combines them, the left operand before the right one.
pub open spec fn postfix_of<V>(t: Tree<V>) -> Seq<Expr<V>>
    decreases t,
{
    match t {
        Tree::Leaf(v) => seq![Expr::Val(v)],
        Tree::Unary(op, a) => postfix_of(*a).push(Expr::UnOp(op)),
        Tree::Binary(op, l, r) => (postfix_of(*l) + postfix_of(*r)).push(Expr::BinOp(op)),
    }
}

/// The postfix tokens of several trees, one after the other.
pub open spec fn flatten<V>(ts: Seq<Tree<V>>) -> Seq<Expr<V>>
    decreases ts.len(),
{
    if ts.len() == 0 {
        seq![]
    } else {
        flatten(ts.drop_last()) + postfix_of(ts.last())
    }
}

/// The number of operands left on the stack after a postfix sequence runs,
/// or `None` where an operator finds too few.
pub open spec fn stack_after<V>(s: Seq<Expr<V>>) -> Option<nat>
    decreases s.len(),
{
    if s.len() == 0 {
        Some(0nat)
    } else {
        match stack_after(s.drop_last()) {
            None => None,
            Some(d) => match s.last() {
                Expr::Val(_) => Some(d + 1),
                Expr::UnOp(_) => if d >= 1 {
                    Some(d)
                } else {
                    None
                },
                Expr::BinOp(_) => if d >= 2 {
                    Some((d - 1) as nat)
                } else {
                    None
                },
            },
        }
    }
}

/// A postfix sequence that reduces to exactly one value.
pub open spec fn is_postfix<V>(s: Seq<Expr<V>>) -> bool {
    stack_after(s) == Some(1nat)
}

/// Whether an infix sequence read so far ends after an operand (`Some(true)`),
/// waits for one (`Some(false)`), or is already malformed (`None`). Unary
/// operators stand before their operand.
pub open spec fn infix_state<V>(s: Seq<Expr<V>>) -> Option<bool>
    decreases s.len(),
{
    if s.len() == 0 {
        Some(false)
    } else {
        match infix_state(s.drop_last()) {
            None => None,
            Some(after) => match s.last() {
                Expr::Val(_) => if after {
                    None
                } else {
                    Some(true)
                },
                Expr::UnOp(_) => if after {
                    None
                } else {
                    Some(false)
                },
                Expr::BinOp(_) => if after {
                    Some(false)
                } else {
                    None
                },
            },
        }
    }
}

/// An infix sequence: operands joined by binary operators, each operand
/// possibly preceded by unary operators.
pub open spec fn is_infix<V>(s: Seq<Expr<V>>) -> bool {
    infix_state(s) == Some(true)
}

/// The operands of a sequence, in order.
pub open spec fn operands<V>(s: Seq<Expr<V>>) -> Seq<V>
    decreases s.len(),
{
    if s.len() == 0 {
        seq![]
    } else {
        match s.last() {
            Expr::Val(v) => operands(s.drop_last()).push(v),
            _ => operands(s.drop_last()),
        }
    }
}

/// The operators of a sequence, regardless of order.
pub open spec fn operators<V>(s: Seq<Expr<V>>) -> Multiset<Expr<V>>
    decreases s.len(),
{
    if s.len() == 0 {
        Multiset::empty()
    } else {
        match s.last() {
            Expr::Val(_) => operators(s.drop_last()),
            e => operators(s.drop_last()).insert(e),
        }
    }
}

pub(crate) proof fn lemma_stack_after_stays_none<V>(s: Seq<Expr<V>>, t: Seq<Expr<V>>)
    requires
        stack_after(s) is None,
    ensures
        stack_after(s + t) is None,
    decreases t.len(),
{
    if t.len() > 0 {
        lemma_stack_after_stays_none(s, t.drop_last());
        assert((s + t).drop_last() =~= s + t.drop_last());
    } else {
        assert(s + t =~= s);
    }
}

proof fn lemma_stack_after_postfix<V>(s: Seq<Expr<V>>, t: Tree<V>, d: nat)
    requires
        stack_after(s) == Some(d),
    ensures
        stack_after(s + postfix_of(t)) == Some(d + 1),
    decreases t,
{
    match t {
        Tree::Leaf(v) => {
            assert((s + postfix_of(t)).drop_last() =~= s);
        },
        Tree::Unary(op, a) => {
            lemma_stack_after_postfix(s, *a, d);
            assert((s + postfix_of(t)).drop_last() =~= s + postfix_of(*a));
        },
        Tree::Binary(op, l, r) => {
            lemma_stack_after_postfix(s, *l, d);
            lemma_stack_after_postfix(s + postfix_of(*l), *r, d + 1);
            assert((s + postfix_of(t)).drop_last() =~= s + postfix_of(*l) + postfix_of(*r));
        },
    }
}

/// The postfix tokens of a tree reduce to exactly one value.
pub proof fn lemma_postfix_of_is_postfix<V>(t: Tree<V>)
    ensures
        is_postfix(postfix_of(t)),
{
    lemma_stack_after_postfix(Seq::empty(), t, 0);
    assert(Seq::<Expr<V>>::empty() + postfix_of(t) =~= postfix_of(t));
}

/// The tokens of a tree in infix order: a unary operator before its operand,
/// a binary one between its operands.
pub open spec fn infix_of<V>(t: Tree<V>) -> Seq<Expr<V>>
    decreases t,
{
    match t {
        Tree::Leaf(v) => seq![Expr::Val(v)],
        Tree::Unary(op, a) => seq![Expr::UnOp(op)] + infix_of(*a),
        Tree::Binary(op, l, r) => infix_of(*l) + seq![Expr::BinOp(op)] + infix_of(*r),
    }
}

/// Whether `op` may take `l` as its left operand: a binary operator there
/// binds tighter, or as tight when `op` groups to the left.
pub open spec fn binds_left<V>(op: BinOperator, l: Tree<V>) -> bool {
    match l {
        Tree::Binary(c, _, _) => bin_precedence(op@) < bin_precedence(c@) || (bin_precedence(op@)
            == bin_precedence(c@) && bin_associativity(op@) == Associativity::Left),
        _ => true,
    }
}

/// Whether `op` may take `r` as its right operand: a binary operator there
/// binds tighter, or as tight when it does not group to the left.
pub open spec fn binds_right<V>(op: BinOperator, r: Tree<V>) -> bool {
    match r {
        Tree::Binary(c, _, _) => bin_precedence(op@) < bin_precedence(c@) || (bin_precedence(op@)
            == bin_precedence(c@) && bin_associativity(c@) != Associativity::Left),
        _ => true,
    }
}

/// Whether every node of a tree agrees with precedence and associativity;
/// a unary operator applies to an operand or to another unary operator.
pub open spec fn respects_precedence<V>(t: Tree<V>) -> bool
    decreases t,
{
    match t {
        Tree::Leaf(_) => true,
        Tree::Unary(_, a) => !(*a is Binary) && respects_precedence(*a),
        Tree::Binary(op, l, r) => binds_left(op, *l) && binds_right(op, *r) && respects_precedence(
            *l,
        ) && respects_precedence(*r),
    }
}

proof fn lemma_infix_nonempty<V>(t: Tree<V>)
    ensures
        infix_of(t).len() >= 1,
    decreases t,
{
    match t {
        Tree::Leaf(_) => {},
        Tree::Unary(_, a) => {
            lemma_infix_nonempty(*a);
        },
        Tree::Binary(_, l, r) => {
            lemma_infix_nonempty(*l);
            lemma_infix_nonempty(*r);
        },
    }
}

/// A tree without a binary operator at its root has none anywhere.
proof fn lemma_no_binop<V>(t: Tree<V>, k: int)
    requires
        respects_precedence(t),
        !(t is Binary),
        0 <= k < infix_of(t).len(),
    ensures
        !(infix_of(t)[k] is BinOp),
    decreases t,
{
    if let Tree::Unary(u, a) = t {
        if k > 0 {
            assert(infix_of(t)[k] == infix_of(*a)[k - 1]);
            lemma_no_binop(*a, k - 1);
        }
    }
}

/// Every binary operator under a root binds at least as tight as the root;
/// under a root that does not group to the left, one of equal precedence
/// does not group to the left either.
proof fn lemma_binds_below<V>(r: BinOperator, l: Tree<V>, rr: Tree<V>, k: int)
    requires
        respects_precedence(Tree::Binary(r, Box::new(l), Box::new(rr))),
        0 <= k < infix_of(Tree::Binary(r, Box::new(l), Box::new(rr))).len(),
        infix_of(Tree::Binary(r, Box::new(l), Box::new(rr)))[k] is BinOp,
    ensures
        ({
            let c = infix_of(Tree::Binary(r, Box::new(l), Box::new(rr)))[k]->BinOp_0;
            &&& bin_precedence(r@) <= bin_precedence(c@)
            &&& bin_precedence(c@) == bin_precedence(r@) && bin_associativity(r@)
                != Associativity::Left ==> bin_associativity(c@) != Associativity::Left
        }),
    decreases infix_of(Tree::Binary(r, Box::new(l), Box::new(rr))).len(),
{
    let t = Tree::Binary(r, Box::new(l), Box::new(rr));
    let s = infix_of(t);
    let ll = infix_of(l).len();
    lemma_infix_nonempty(l);
    lemma_infix_nonempty(rr);
    if k < ll {
        assert(s[k] == infix_of(l)[k]);
        match l {
            Tree::Binary(c, a, b) => {
                lemma_binds_below(c, *a, *b, k);
            },
            _ => {
                lemma_no_binop(l, k);
            },
        }
    } else if k > ll {
        assert(s[k] == infix_of(rr)[k - ll - 1]);
        match rr {
            Tree::Binary(c, a, b) => {
                lemma_binds_below(c, *a, *b, k - ll - 1);
            },
            _ => {
                lemma_no_binop(rr, k - ll - 1);
            },
        }
    }
}

/// The root of one tree cannot stand left of the root of another one that
/// reads the same and agrees with precedence too.
proof fn lemma_roots_meet<V>(
    o1: BinOperator,
    l1: Tree<V>,
    r1: Tree<V>,
    o2: BinOperator,
    l2: Tree<V>,
    r2: Tree<V>,
)
    requires
        respects_precedence(Tree::Binary(o1, Box::new(l1), Box::new(r1))),
        respects_precedence(Tree::Binary(o2, Box::new(l2), Box::new(r2))),
        infix_of(Tree::Binary(o1, Box::new(l1), Box::new(r1))) == infix_of(
            Tree::Binary(o2, Box::new(l2), Box::new(r2)),
        ),
    ensures
        infix_of(l1).len() >= infix_of(l2).len(),
{
    let s = infix_of(Tree::Binary(o1, Box::new(l1), Box::new(r1)));
    let p1 = infix_of(l1).len() as int;
    let p2 = infix_of(l2).len() as int;
    let t1 = Tree::Binary(o1, Box::new(l1), Box::new(r1));
    let t2 = Tree::Binary(o2, Box::new(l2), Box::new(r2));
    assert(infix_of(t1) == infix_of(l1) + seq![Expr::BinOp(o1)] + infix_of(r1));
    assert(infix_of(t2) == infix_of(l2) + seq![Expr::BinOp(o2)] + infix_of(r2));
    assert(s.len() == p1 + 1 + infix_of(r1).len());
    assert(s.len() == p2 + 1 + infix_of(r2).len());
    if p1 < p2 {
        lemma_infix_nonempty(r2);
        assert(s[p1] == Expr::<V>::BinOp(o1));
        assert(s[p2] == Expr::<V>::BinOp(o2));
        // o2 lies right of o1, in r1.
        assert(s[p2] == infix_of(r1)[p2 - p1 - 1]);
        match r1 {
            Tree::Binary(c, a, b) => {
                lemma_binds_below(c, *a, *b, p2 - p1 - 1);
            },
            _ => {
                lemma_no_binop(r1, p2 - p1 - 1);
            },
        }
        // o1 lies left of o2, in l2.
        assert(s[p1] == infix_of(l2)[p1]);
        match l2 {
            Tree::Binary(c, a, b) => {
                lemma_binds_below(c, *a, *b, p1);
            },
            _ => {
                lemma_no_binop(l2, p1);
            },
        }
    }
}

/// At most one tree reads as a given infix sequence and agrees with
/// precedence and associativity.
pub proof fn lemma_precedence_parse_unique<V>(t1: Tree<V>, t2: Tree<V>)
    requires
        infix_of(t1) == infix_of(t2),
        respects_precedence(t1),
        respects_precedence(t2),
    ensures
        t1 == t2,
    decreases t1,
{
    let s = infix_of(t1);
    match t1 {
        Tree::Leaf(v) => {
            match t2 {
                Tree::Leaf(w) => {
                    assert(s[0] == Expr::<V>::Val(w));
                },
                Tree::Unary(u, a) => {
                    assert(s[0] == Expr::<V>::UnOp(u));
                },
                Tree::Binary(o, l, r) => {
                    lemma_infix_nonempty(*l);
                    lemma_infix_nonempty(*r);
                },
            }
        },
        Tree::Unary(u, a) => {
            match t2 {
                Tree::Leaf(w) => {
                    assert(s[0] == Expr::<V>::Val(w));
                },
                Tree::Unary(u2, a2) => {
                    assert(s[0] == Expr::<V>::UnOp(u2));
                    assert(infix_of(*a) =~= s.skip(1));
                    assert(infix_of(*a2) =~= s.skip(1));
                    lemma_precedence_parse_unique(*a, *a2);
                },
                Tree::Binary(o, l, r) => {
                    let k = infix_of(*l).len() as int;
                    assert(s[k] == Expr::<V>::BinOp(o));
                    lemma_no_binop(t1, k);
                },
            }
        },
        Tree::Binary(o1, l1, r1) => {
            match t2 {
                Tree::Binary(o2, l2, r2) => {
                    lemma_roots_meet(o1, *l1, *r1, o2, *l2, *r2);
                    lemma_roots_meet(o2, *l2, *r2, o1, *l1, *r1);
                    let k = infix_of(*l1).len() as int;
                    assert(s[k] == Expr::<V>::BinOp(o2));
                    assert(infix_of(*l1) =~= s.take(k));
                    assert(infix_of(*l2) =~= s.take(k));
                    assert(infix_of(*r1) =~= s.skip(k + 1));
                    assert(infix_of(*r2) =~= s.skip(k + 1));
                    lemma_precedence_parse_unique(*l1, *l2);
                    lemma_precedence_parse_unique(*r1, *r2);
                },
                _ => {
                    let k = infix_of(*l1).len() as int;
                    assert(s[k] == Expr::<V>::BinOp(o1));
                    lemma_no_binop(t2, k);
                },
            }
        },
    }
}

/// Operands minus binary operators.
spec fn net<V>(s: Seq<Expr<V>>) -> int
    decreases s.len(),
{
    if s.len() == 0 {
        0
    } else {
        net(s.drop_last()) + match s.last() {
            Expr::Val(_) => 1int,
            Expr::UnOp(_) => 0int,
            Expr::BinOp(_) => -1int,
        }
    }
}

proof fn lemma_net_add<V>(a: Seq<Expr<V>>, b: Seq<Expr<V>>)
    ensures
        net(a + b) == net(a) + net(b),
    decreases b.len(),
{
    if b.len() == 0 {
        assert(a + b =~= a);
    } else {
        lemma_net_add(a, b.drop_last());
        assert((a + b).drop_last() =~= a + b.drop_last());
    }
}

proof fn lemma_net_postfix<V>(t: Tree<V>)
    ensures
        net(postfix_of(t)) == 1,
        forall|k: int| 0 < k <= postfix_of(t).len() ==> net(#[trigger] postfix_of(t).take(k)) >= 1,
    decreases t,
{
    let p = postfix_of(t);
    match t {
        Tree::Leaf(v) => {
            assert(p.drop_last() =~= Seq::<Expr<V>>::empty());
            assert(net(p.drop_last()) == 0);
            assert(net(p) == 1);
            assert forall|k: int| 0 < k <= p.len() implies net(#[trigger] p.take(k)) >= 1 by {
                assert(p.take(k) =~= p);
            }
        },
        Tree::Unary(op, a) => {
            lemma_net_postfix(*a);
            let pa = postfix_of(*a);
            assert(p.drop_last() =~= pa);
            assert forall|k: int| 0 < k <= p.len() implies net(#[trigger] p.take(k)) >= 1 by {
                if k <= pa.len() {
                    assert(p.take(k) =~= pa.take(k));
                } else {
                    assert(p.take(k) =~= p);
                }
            }
        },
        Tree::Binary(op, l, r) => {
            lemma_net_postfix(*l);
            lemma_net_postfix(*r);
            let pl = postfix_of(*l);
            let pr = postfix_of(*r);
            assert(p.drop_last() =~= pl + pr);
            lemma_net_add(pl, pr);
            assert forall|k: int| 0 < k <= p.len() implies net(#[trigger] p.take(k)) >= 1 by {
                if k <= pl.len() {
                    assert(p.take(k) =~= pl.take(k));
                } else if k <= pl.len() + pr.len() {
                    assert(p.take(k) =~= pl + pr.take(k - pl.len()));
                    lemma_net_add(pl, pr.take(k - pl.len()));
                    assert(net(pr.take(k - pl.len())) >= 1);
                } else {
                    assert(p.take(k) =~= p);
                    assert(net(p) == net(pl + pr) - 1);
                }
            }
        },
    }
}

/// A postfix sequence comes from one tree at most.
pub proof fn lemma_postfix_unique<V>(t1: Tree<V>, t2: Tree<V>)
    requires
        postfix_of(t1) == postfix_of(t2),
    ensures
        t1 == t2,
    decreases t1,
{
    let p = postfix_of(t1);
    match t1 {
        Tree::Leaf(v) => {
            match t2 {
                Tree::Leaf(w) => {
                    assert(p[0] == Expr::<V>::Val(w));
                },
                Tree::Unary(..) => {
                    assert(p.last() == postfix_of(t2).last());
                },
                Tree::Binary(..) => {
                    assert(p.last() == postfix_of(t2).last());
                },
            }
        },
        Tree::Unary(op, a) => {
            match t2 {
                Tree::Unary(op2, a2) => {
                    assert(postfix_of(t2).last() == Expr::<V>::UnOp(op2));
                    assert(postfix_of(*a) =~= p.drop_last());
                    assert(postfix_of(*a2) =~= postfix_of(t2).drop_last());
                    lemma_postfix_unique(*a, *a2);
                },
                _ => {
                    assert(p.last() == postfix_of(t2).last());
                },
            }
        },
        Tree::Binary(op, l, r) => {
            match t2 {
                Tree::Binary(op2, l2, r2) => {
                    assert(postfix_of(t2).last() == Expr::<V>::BinOp(op2));
                    let pl = postfix_of(*l);
                    let pr = postfix_of(*r);
                    let ql = postfix_of(*l2);
                    let qr = postfix_of(*r2);
                    let s = pl + pr;
                    assert(s =~= p.drop_last());
                    assert(ql + qr =~= postfix_of(t2).drop_last());
                    lemma_net_postfix(*l);
                    lemma_net_postfix(*r);
                    lemma_net_postfix(*l2);
                    lemma_net_postfix(*r2);
                    if pl.len() < ql.len() {
                        assert(ql =~= s.take(ql.len() as int));
                        assert(s.take(ql.len() as int) =~= pl + pr.take(ql.len() - pl.len()));
                        lemma_net_add(pl, pr.take(ql.len() - pl.len()));
                        assert(net(pr.take(ql.len() - pl.len())) >= 1);
                        assert(false);
                    } else if ql.len() < pl.len() {
                        assert(pl =~= s.take(pl.len() as int));
                        assert(s.take(pl.len() as int) =~= ql + qr.take(pl.len() - ql.len()));
                        lemma_net_add(ql, qr.take(pl.len() - ql.len()));
                        assert(net(qr.take(pl.len() - ql.len())) >= 1);
                        assert(false);
                    }
                    assert(pl =~= s.take(pl.len() as int));
                    assert(ql =~= s.take(pl.len() as int));
                    assert(pr =~= s.skip(pl.len() as int));
                    assert(qr =~= s.skip(pl.len() as int));
                    lemma_postfix_unique(*l, *l2);
                    lemma_postfix_unique(*r, *r2);
                },
                _ => {
                    assert(p.last() == postfix_of(t2).last());
                },
            }
        },
    }
}

} // verus!
