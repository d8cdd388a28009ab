use vstd::multiset::Multiset;
use vstd::prelude::*;
use vstd::string::*;

use crate::errors::ParseError;
use crate::expr::{
    Expr,
    Tree,
    binds_left,
    binds_right,
    flatten,
    infix_of,
    infix_state,
    is_infix,
    is_postfix,
    lemma_postfix_of_is_postfix,
    lemma_postfix_unique,
    lemma_stack_after_stays_none,
    operands,
    operators,
    postfix_of,
    respects_precedence,
    stack_after,
};
use crate::operators::{
    Associativity,
    BinOperator,
    UnOperator,
    bin_associativity,
    bin_precedence,
    un_associativity,
    un_precedence,
};

verus! {

/// Builds the tree whose postfix tokens are `seq`; `None` when `seq` does not
/// reduce to exactly one value. The operand nearest before a binary operator
/// is its right-hand side.
pub fn postfix_to_tree<V>(seq: Vec<Expr<V>>) -> (r: Option<Tree<V>>)
    ensures
        r is Some <==> is_postfix(seq@),
        r matches Some(t) ==> postfix_of(t) == seq@,
        forall|t0: Tree<V>| #[trigger] postfix_of(t0) == seq@ ==> r == Some(t0),
{
    let ghost all = seq@;
    let mut rest = seq;
    let mut stack: Vec<Tree<V>> = Vec::new();
    let n = rest.len();
    let mut i: usize = 0;
    while i < n
        invariant
            n == all.len(),
            all == seq@,
            i <= n,
            rest@ == all.skip(i as int),
            stack_after(all.take(i as int)) == Some(stack@.len()),
            flatten(stack@) == all.take(i as int),
        decreases n - i,
    {
        proof {
            assert(all.take(i + 1) =~= all.take(i as int).push(all[i as int]));
            assert(all.take(i + 1).drop_last() =~= all.take(i as int));
            assert(all.take(i + 1) + all.skip(i + 1) =~= all);
        }
        let e = rest.remove(0);
        proof {
            assert(e == all[i as int]);
            assert(all.take(i + 1).last() == e);
        }
        let ghost old_stack = stack@;
        match e {
            Expr::Val(v) => {
                stack.push(Tree::Leaf(v));
                proof {
                    assert(stack@.drop_last() =~= old_stack);
                }
            },
            Expr::UnOp(op) => {
                if stack.len() < 1 {
                    proof {
                        assert(stack_after(all.take(i + 1)) is None);
                        lemma_stack_after_stays_none(all.take(i + 1), all.skip(i + 1));
                        assert(all.take(i + 1) + all.skip(i + 1) =~= all);
                        assert(stack_after(all) is None);
                        assert forall|t0: Tree<V>| #[trigger] postfix_of(t0) == seq@ implies false by {
                            lemma_postfix_of_is_postfix(t0);
                        }
                    }
                    return None;
                }
                let a = stack.pop().unwrap();
                proof {
                    assert(old_stack.drop_last() =~= stack@);
                }
                stack.push(Tree::Unary(op, Box::new(a)));
                proof {
                    assert(stack@.drop_last() =~= old_stack.drop_last());
                    assert(flatten(stack@) =~= flatten(old_stack).push(Expr::UnOp(op)));
                }
            },
            Expr::BinOp(op) => {
                if stack.len() < 2 {
                    proof {
                        assert(stack_after(all.take(i + 1)) is None);
                        lemma_stack_after_stays_none(all.take(i + 1), all.skip(i + 1));
                        assert(all.take(i + 1) + all.skip(i + 1) =~= all);
                        assert(stack_after(all) is None);
                        assert forall|t0: Tree<V>| #[trigger] postfix_of(t0) == seq@ implies false by {
                            lemma_postfix_of_is_postfix(t0);
                        }
                    }
                    return None;
                }
                let r = stack.pop().unwrap();
                let ghost s1 = stack@;
                let l = stack.pop().unwrap();
                let ghost s0 = stack@;
                proof {
                    assert(old_stack.drop_last() =~= s1);
                    assert(s1.drop_last() =~= s0);
                    assert(flatten(old_stack) == flatten(s1) + postfix_of(r));
                    assert(flatten(s1) == flatten(s0) + postfix_of(l));
                    assert(flatten(old_stack) =~= flatten(s0) + postfix_of(l) + postfix_of(r));
                }
                let t = Tree::Binary(op, Box::new(l), Box::new(r));
                proof {
                    assert(postfix_of(t) == (postfix_of(l) + postfix_of(r)).push(Expr::BinOp(op)));
                }
                stack.push(t);
                proof {
                    assert(stack@.drop_last() =~= s0);
                    assert(flatten(stack@) == flatten(s0) + postfix_of(t));
                    assert(flatten(stack@) =~= flatten(old_stack).push(Expr::BinOp(op)));
                }
            },
        }
        i += 1;
    }
    proof {
        assert(all.take(n as int) =~= all);
    }
    if stack.len() == 1 {
        let t = stack.pop().unwrap();
        proof {
            assert(stack@.len() == 0);
            assert(flatten(stack@) =~= Seq::<Expr<V>>::empty());
            assert forall|t0: Tree<V>| #[trigger] postfix_of(t0) == seq@ implies Some(t) == Some(
                t0,
            ) by {
                lemma_postfix_unique(t, t0);
            }
        }
        Some(t)
    } else {
        proof {
            assert forall|t0: Tree<V>| #[trigger] postfix_of(t0) == seq@ implies false by {
                lemma_postfix_of_is_postfix(t0);
            }
        }
        None
    }
}

/// An operator waiting on the stack of the conversion to postfix.
#[derive(Clone, Copy, Debug)]
enum Op {
    Un(UnOperator),
    Bin(BinOperator),
}

spec fn op_precedence(op: Op) -> u32 {
    match op {
        Op::Un(o) => un_precedence(o@),
        Op::Bin(o) => bin_precedence(o@),
    }
}

spec fn op_expr<V>(op: Op) -> Expr<V> {
    match op {
        Op::Un(o) => Expr::UnOp(o),
        Op::Bin(o) => Expr::BinOp(o),
    }
}

spec fn stack_ops<V>(st: Seq<Op>) -> Multiset<Expr<V>>
    decreases st.len(),
{
    if st.len() == 0 {
        Multiset::empty()
    } else {
        stack_ops(st.drop_last()).insert(op_expr(st.last()))
    }
}

spec fn bin_count(st: Seq<Op>) -> nat
    decreases st.len(),
{
    if st.len() == 0 {
        0
    } else {
        match st.last() {
            Op::Bin(_) => bin_count(st.drop_last()) + 1,
            Op::Un(_) => bin_count(st.drop_last()),
        }
    }
}

impl Op {
    fn get_precedence(&self) -> (r: u32)
        ensures
            r == op_precedence(*self),
    {
        match self {
            Op::Un(o) => o.get_precedence(),
            Op::Bin(o) => o.get_precedence(),
        }
    }

    fn as_expr<V>(self) -> (r: Expr<V>)
        ensures
            r == op_expr::<V>(self),
    {
        match self {
            Op::Un(o) => Expr::UnOp(o),
            Op::Bin(o) => Expr::BinOp(o),
        }
    }
}

/// Whether an operator on the stack leaves it before an incoming operator of
/// precedence `prec` and associativity `assoc` is pushed.
fn yields_to(top: Op, prec: u32, assoc: Associativity) -> (r: bool)
    ensures
        r == (prec < op_precedence(top) || (prec == op_precedence(top) && assoc
            == Associativity::Left)),
{
    let p = top.get_precedence();
    prec < p || (prec == p && assoc == Associativity::Left)
}

spec fn yields(top: Op, prec: u32, assoc: Associativity) -> bool {
    prec < op_precedence(top) || (prec == op_precedence(top) && assoc == Associativity::Left)
}

/// A tree under a run of pending unary operators, the last one innermost.
spec fn apply_un<V>(us: Seq<UnOperator>, t: Tree<V>) -> Tree<V>
    decreases us.len(),
{
    if us.len() == 0 {
        t
    } else {
        apply_un(us.drop_last(), Tree::Unary(us.last(), Box::new(t)))
    }
}

spec fn un_exprs<V>(us: Seq<UnOperator>) -> Seq<Expr<V>> {
    us.map_values(|u: UnOperator| Expr::<V>::UnOp(u))
}

/// The infix tokens of trees joined by binary operators.
spec fn weave<V>(ts: Seq<Tree<V>>, bs: Seq<BinOperator>) -> Seq<Expr<V>>
    decreases bs.len(),
{
    if bs.len() == 0 {
        infix_of(ts[0])
    } else {
        weave(ts.drop_last(), bs.drop_last()) + seq![Expr::BinOp(bs.last())] + infix_of(ts.last())
    }
}

spec fn stacked_ok(a: BinOperator, c: BinOperator) -> bool {
    bin_precedence(a@) < bin_precedence(c@) || (bin_precedence(a@) == bin_precedence(c@)
        && bin_associativity(c@) != Associativity::Left)
}

spec fn chain_ok<V>(ts: Seq<Tree<V>>, bs: Seq<BinOperator>) -> bool {
    &&& forall|j: int| 0 <= j < ts.len() ==> respects_precedence(#[trigger] ts[j])
    &&& forall|j: int| 0 <= j < bs.len() && j < ts.len() ==> binds_left(#[trigger] bs[j], ts[j])
    &&& forall|j: int| 0 < j < bs.len() ==> stacked_ok(bs[j - 1], #[trigger] bs[j])
}

spec fn shape(st: Seq<Op>, bs: Seq<BinOperator>, us: Seq<UnOperator>) -> bool {
    st == bs.map_values(|b: BinOperator| Op::Bin(b)) + us.map_values(|u: UnOperator| Op::Un(u))
}

/// After an operand: the output holds the trees `ts`, joined in the input by
/// the stacked binary operators `bs`; the last tree still waits for the
/// stacked unary operators `us`.
spec fn after_state<V>(
    input: Seq<Expr<V>>,
    out: Seq<Expr<V>>,
    ts: Seq<Tree<V>>,
    bs: Seq<BinOperator>,
    us: Seq<UnOperator>,
) -> bool {
    &&& ts.len() == bs.len() + 1
    &&& chain_ok(ts, bs)
    &&& out == flatten(ts)
    &&& bs.len() > 0 ==> binds_right(bs.last(), ts.last())
    &&& us.len() > 0 ==> !(ts.last() is Binary)
    &&& input == weave(ts.drop_last().push(apply_un(us, ts.last())), bs)
}

/// Waiting for an operand: each tree of `ts` is followed in the input by its
/// stacked binary operator, then come the stacked unary operators.
spec fn expect_state<V>(
    input: Seq<Expr<V>>,
    out: Seq<Expr<V>>,
    ts: Seq<Tree<V>>,
    bs: Seq<BinOperator>,
    us: Seq<UnOperator>,
) -> bool {
    &&& ts.len() == bs.len()
    &&& chain_ok(ts, bs)
    &&& out == flatten(ts)
    &&& input == (if bs.len() == 0 {
        Seq::empty()
    } else {
        weave(ts, bs.drop_last()) + seq![Expr::BinOp(bs.last())]
    }) + un_exprs::<V>(us)
}

proof fn lemma_infix_apply_un<V>(us: Seq<UnOperator>, t: Tree<V>)
    ensures
        infix_of(apply_un(us, t)) == un_exprs::<V>(us) + infix_of(t),
    decreases us.len(),
{
    if us.len() == 0 {
        assert(un_exprs::<V>(us) =~= Seq::<Expr<V>>::empty());
        assert(un_exprs::<V>(us) + infix_of(t) =~= infix_of(t));
    } else {
        let u = us.last();
        lemma_infix_apply_un(us.drop_last(), Tree::Unary(u, Box::new(t)));
        assert(un_exprs::<V>(us) =~= un_exprs::<V>(us.drop_last()) + seq![Expr::UnOp(u)]);
        assert(un_exprs::<V>(us) + infix_of(t) =~= un_exprs::<V>(us.drop_last()) + (seq![
            Expr::UnOp(u),
        ] + infix_of(t)));
    }
}

proof fn lemma_val_step<V>(
    input: Seq<Expr<V>>,
    out: Seq<Expr<V>>,
    ts: Seq<Tree<V>>,
    bs: Seq<BinOperator>,
    us: Seq<UnOperator>,
    v: V,
)
    requires
        expect_state(input, out, ts, bs, us),
    ensures
        after_state(input.push(Expr::Val(v)), out.push(Expr::Val(v)), ts.push(Tree::Leaf(v)), bs, us),
{
    let leaf = Tree::Leaf(v);
    let t2 = ts.push(leaf);
    let a = apply_un(us, leaf);
    assert(t2.drop_last() =~= ts);
    assert(flatten(t2) == flatten(ts) + postfix_of(leaf));
    assert(flatten(t2) =~= out.push(Expr::Val(v)));
    lemma_infix_apply_un(us, leaf);
    assert(ts.push(a).drop_last() =~= ts);
    if bs.len() == 0 {
        assert(ts.push(a)[0] == a);
        assert(input.push(Expr::Val(v)) =~= un_exprs::<V>(us) + infix_of(leaf));
    } else {
        assert(input.push(Expr::Val(v)) =~= weave(ts, bs.drop_last()) + seq![Expr::BinOp(bs.last())]
            + infix_of(a));
    }
    assert forall|j: int| 0 <= j < t2.len() implies respects_precedence(#[trigger] t2[j]) by {
        if j < ts.len() {
            assert(t2[j] == ts[j]);
        }
    }
    assert forall|j: int| 0 <= j < bs.len() && j < t2.len() implies binds_left(
        #[trigger] bs[j],
        t2[j],
    ) by {
        assert(t2[j] == ts[j]);
    }
}

proof fn lemma_un_push<V>(
    input: Seq<Expr<V>>,
    out: Seq<Expr<V>>,
    ts: Seq<Tree<V>>,
    bs: Seq<BinOperator>,
    us: Seq<UnOperator>,
    u: UnOperator,
)
    requires
        expect_state(input, out, ts, bs, us),
    ensures
        expect_state(input.push(Expr::UnOp(u)), out, ts, bs, us.push(u)),
{
    assert(un_exprs::<V>(us.push(u)) =~= un_exprs::<V>(us).push(Expr::UnOp(u)));
    let w = if bs.len() == 0 {
        Seq::empty()
    } else {
        weave(ts, bs.drop_last()) + seq![Expr::BinOp(bs.last())]
    };
    assert(w + un_exprs::<V>(us.push(u)) =~= (w + un_exprs::<V>(us)).push(Expr::UnOp(u)));
}

proof fn lemma_pop_un<V>(
    input: Seq<Expr<V>>,
    out: Seq<Expr<V>>,
    ts: Seq<Tree<V>>,
    bs: Seq<BinOperator>,
    us: Seq<UnOperator>,
)
    requires
        after_state(input, out, ts, bs, us),
        us.len() > 0,
    ensures
        after_state(
            input,
            out.push(Expr::UnOp(us.last())),
            ts.drop_last().push(Tree::Unary(us.last(), Box::new(ts.last()))),
            bs,
            us.drop_last(),
        ),
{
    let u = us.last();
    let t = ts.last();
    let n = Tree::Unary(u, Box::new(t));
    let t2 = ts.drop_last().push(n);
    assert(t2.drop_last() =~= ts.drop_last());
    assert(apply_un(us.drop_last(), n) == apply_un(us, t));
    assert(flatten(ts) == flatten(ts.drop_last()) + postfix_of(t));
    assert(flatten(t2) == flatten(ts.drop_last()) + postfix_of(n));
    assert(flatten(t2) =~= out.push(Expr::UnOp(u)));
    assert forall|j: int| 0 <= j < t2.len() implies respects_precedence(#[trigger] t2[j]) by {
        if j < ts.len() - 1 {
            assert(t2[j] == ts[j]);
        } else {
            assert(respects_precedence(ts[ts.len() - 1]));
        }
    }
    assert forall|j: int| 0 <= j < bs.len() && j < t2.len() implies binds_left(
        #[trigger] bs[j],
        t2[j],
    ) by {
        assert(t2[j] == ts[j]);
    }
}

proof fn lemma_pop_bin<V>(
    input: Seq<Expr<V>>,
    out: Seq<Expr<V>>,
    ts: Seq<Tree<V>>,
    bs: Seq<BinOperator>,
)
    requires
        after_state(input, out, ts, bs, seq![]),
        bs.len() > 0,
    ensures
        after_state(
            input,
            out.push(Expr::BinOp(bs.last())),
            ts.take(bs.len() - 1).push(
                Tree::Binary(bs.last(), Box::new(ts[bs.len() - 1]), Box::new(ts.last())),
            ),
            bs.drop_last(),
            seq![],
        ),
{
    let k = bs.len() as int;
    let c = bs.last();
    let l = ts[k - 1];
    let r = ts[k];
    let n = Tree::Binary(c, Box::new(l), Box::new(r));
    let t2 = ts.take(k - 1).push(n);
    let b2 = bs.drop_last();
    let none = Seq::<UnOperator>::empty();
    assert(apply_un(none, r) == r);
    assert(apply_un(none, n) == n);
    assert(ts.drop_last().push(r) =~= ts);
    assert(t2.drop_last().push(n) =~= t2);
    assert(t2.drop_last() =~= ts.take(k - 1));
    assert(ts.drop_last() =~= ts.take(k));
    assert(ts.take(k).drop_last() =~= ts.take(k - 1));
    assert(ts.take(k).last() == l);
    assert(flatten(ts) == flatten(ts.take(k)) + postfix_of(r));
    assert(flatten(ts.take(k)) == flatten(ts.take(k - 1)) + postfix_of(l));
    assert(flatten(t2) == flatten(ts.take(k - 1)) + postfix_of(n));
    assert(flatten(t2) =~= out.push(Expr::BinOp(c)));
    assert(binds_left(bs[k - 1], ts[k - 1]));
    assert(respects_precedence(l) && respects_precedence(r));
    assert(respects_precedence(n));
    assert(weave(ts, bs) == weave(ts.take(k), b2) + seq![Expr::BinOp(c)] + infix_of(r));
    if k == 1 {
        assert(t2[0] == n);
        assert(weave(ts.take(k), b2) == infix_of(ts.take(k)[0]));
        assert(weave(ts, bs) =~= infix_of(n));
    } else {
        assert(b2.drop_last() =~= bs.take(k - 2));
        assert(weave(ts.take(k), b2) == weave(ts.take(k - 1), bs.take(k - 2)) + seq![
            Expr::BinOp(bs[k - 2]),
        ] + infix_of(l));
        assert(weave(t2, b2) == weave(ts.take(k - 1), bs.take(k - 2)) + seq![
            Expr::BinOp(bs[k - 2]),
        ] + infix_of(n));
        assert(weave(ts, bs) =~= weave(t2, b2));
        assert(stacked_ok(bs[k - 2], bs[k - 1]));
    }
    assert forall|j: int| 0 <= j < t2.len() implies respects_precedence(#[trigger] t2[j]) by {
        if j < k - 1 {
            assert(t2[j] == ts[j]);
        }
    }
    assert forall|j: int| 0 <= j < b2.len() && j < t2.len() implies binds_left(
        #[trigger] b2[j],
        t2[j],
    ) by {
        assert(t2[j] == ts[j]);
        assert(b2[j] == bs[j]);
    }
    assert forall|j: int| 0 < j < b2.len() implies stacked_ok(b2[j - 1], #[trigger] b2[j]) by {
        assert(b2[j] == bs[j]);
        assert(b2[j - 1] == bs[j - 1]);
    }
}

proof fn lemma_push_bin<V>(
    input: Seq<Expr<V>>,
    out: Seq<Expr<V>>,
    ts: Seq<Tree<V>>,
    bs: Seq<BinOperator>,
    b: BinOperator,
)
    requires
        after_state(input, out, ts, bs, seq![]),
        bs.len() > 0 ==> stacked_ok(bs.last(), b),
        binds_left(b, ts.last()),
    ensures
        expect_state(input.push(Expr::BinOp(b)), out, ts, bs.push(b), seq![]),
{
    let b2 = bs.push(b);
    assert(apply_un(Seq::<UnOperator>::empty(), ts.last()) == ts.last());
    assert(ts.drop_last().push(ts.last()) =~= ts);
    assert(b2.drop_last() =~= bs);
    assert(un_exprs::<V>(Seq::<UnOperator>::empty()) =~= Seq::<Expr<V>>::empty());
    assert(input.push(Expr::BinOp(b)) =~= weave(ts, bs) + seq![Expr::BinOp(b)] + un_exprs::<V>(
        Seq::<UnOperator>::empty(),
    ));
    assert forall|j: int| 0 <= j < b2.len() && j < ts.len() implies binds_left(
        #[trigger] b2[j],
        ts[j],
    ) by {
        if j < bs.len() {
            assert(b2[j] == bs[j]);
        }
    }
    assert forall|j: int| 0 < j < b2.len() implies stacked_ok(b2[j - 1], #[trigger] b2[j]) by {
        if j < bs.len() {
            assert(b2[j] == bs[j]);
        }
        assert(b2[j - 1] == bs[j - 1]);
    }
}

proof fn lemma_finish<V>(input: Seq<Expr<V>>, out: Seq<Expr<V>>, ts: Seq<Tree<V>>)
    requires
        after_state(input, out, ts, seq![], seq![]),
    ensures
        out == postfix_of(ts[0]),
        input == infix_of(ts[0]),
        respects_precedence(ts[0]),
{
    assert(ts.drop_last() =~= Seq::<Tree<V>>::empty());
    assert(flatten(ts) == flatten(ts.drop_last()) + postfix_of(ts[0]));
    assert(flatten(ts.drop_last()) =~= Seq::<Expr<V>>::empty());
    assert(flatten(ts) =~= postfix_of(ts[0]));
    assert(apply_un(Seq::<UnOperator>::empty(), ts[0]) == ts[0]);
    assert(ts.drop_last().push(ts[0]) =~= ts);
    assert(respects_precedence(ts[0]));
}

proof fn lemma_shape_pop(st: Seq<Op>, bs: Seq<BinOperator>, us: Seq<UnOperator>)
    requires
        shape(st, bs, us),
        st.len() > 0,
    ensures
        us.len() > 0 ==> st.last() == Op::Un(us.last()) && shape(st.drop_last(), bs, us.drop_last()),
        us.len() == 0 ==> bs.len() > 0 && st.last() == Op::Bin(bs.last()) && shape(
            st.drop_last(),
            bs.drop_last(),
            us,
        ),
{
    if us.len() > 0 {
        assert(st.drop_last() =~= bs.map_values(|b: BinOperator| Op::Bin(b)) + us.drop_last().map_values(
            |u: UnOperator| Op::Un(u),
        ));
    } else {
        assert(bs.len() > 0);
        assert(st.drop_last() =~= bs.drop_last().map_values(|b: BinOperator| Op::Bin(b))
            + us.map_values(|u: UnOperator| Op::Un(u)));
    }
}

proof fn lemma_shape_push_un(st: Seq<Op>, bs: Seq<BinOperator>, us: Seq<UnOperator>, u: UnOperator)
    requires
        shape(st, bs, us),
    ensures
        shape(st.push(Op::Un(u)), bs, us.push(u)),
{
    assert(st.push(Op::Un(u)) =~= bs.map_values(|b: BinOperator| Op::Bin(b)) + us.push(u).map_values(
        |u: UnOperator| Op::Un(u),
    ));
}

proof fn lemma_shape_push_bin(st: Seq<Op>, bs: Seq<BinOperator>, b: BinOperator)
    requires
        shape(st, bs, seq![]),
    ensures
        shape(st.push(Op::Bin(b)), bs.push(b), seq![]),
{
    assert(st.push(Op::Bin(b)) =~= bs.push(b).map_values(|b: BinOperator| Op::Bin(b))
        + Seq::<UnOperator>::empty().map_values(|u: UnOperator| Op::Un(u)));
}

spec fn incoming_ok<V>(op: Op, t: Tree<V>) -> bool {
    match op {
        Op::Bin(b) => binds_left(b, t),
        Op::Un(_) => true,
    }
}

spec fn op_associativity(op: Op) -> Associativity {
    match op {
        Op::Un(o) => un_associativity(o@),
        Op::Bin(o) => bin_associativity(o@),
    }
}

/// Reorders an infix sequence into postfix order, by precedence: an incoming
/// operator first moves to the output every stacked operator of higher
/// precedence, or of equal precedence when it is left-associative itself.
/// For an infix sequence the result is the postfix form of a tree that reads
/// as the input in infix order and agrees with precedence and associativity.
pub fn shunting_yard<V>(seq: Vec<Expr<V>>) -> (r: Vec<Expr<V>>)
    ensures
        operands(r@) == operands(seq@),
        operators(r@) == operators(seq@),
        is_infix(seq@) ==> is_postfix(r@),
        is_infix(seq@) ==> exists|t: Tree<V>|
            postfix_of(t) == r@ && infix_of(t) == seq@ && respects_precedence(t),
{
    let ghost all = seq@;
    let mut rest = seq;
    let mut out: Vec<Expr<V>> = Vec::new();
    let mut stack: Vec<Op> = Vec::new();
    let ghost mut ts: Seq<Tree<V>> = Seq::empty();
    let ghost mut bs: Seq<BinOperator> = Seq::empty();
    let ghost mut us: Seq<UnOperator> = Seq::empty();
    let n = rest.len();
    let mut i: usize = 0;
    proof {
        assert(all.take(0) =~= Seq::<Expr<V>>::empty());
        assert(operators(out@).add(stack_ops::<V>(stack@)) =~= Multiset::empty());
        assert(stack@ =~= bs.map_values(|b: BinOperator| Op::Bin(b)) + us.map_values(
            |u: UnOperator| Op::Un(u),
        ));
        assert(un_exprs::<V>(us) =~= Seq::<Expr<V>>::empty());
        assert(flatten(ts) =~= Seq::<Expr<V>>::empty());
        assert(out@ =~= Seq::<Expr<V>>::empty());
    }
    while i < n
        invariant
            n == all.len(),
            all == seq@,
            i <= n,
            rest@ == all.skip(i as int),
            operands(out@) == operands(all.take(i as int)),
            operators(out@).add(stack_ops::<V>(stack@)) == operators(all.take(i as int)),
            infix_state(all.take(i as int)) matches Some(after) ==> stack_after(out@) == Some(
                bin_count(stack@) + if after {
                    1nat
                } else {
                    0nat
                },
            ),
            infix_state(all.take(i as int)) == Some(true) ==> after_state(
                all.take(i as int),
                out@,
                ts,
                bs,
                us,
            ) && shape(stack@, bs, us) && !(ts.last() is Binary),
            infix_state(all.take(i as int)) == Some(false) ==> expect_state(
                all.take(i as int),
                out@,
                ts,
                bs,
                us,
            ) && shape(stack@, bs, us),
        decreases n - i,
    {
        proof {
            assert(all.take(i + 1) =~= all.take(i as int).push(all[i as int]));
            assert(all.take(i + 1).drop_last() =~= all.take(i as int));
        }
        let e = rest.remove(0);
        proof {
            assert(e == all[i as int]);
        }
        let ghost pre = all.take(i as int);
        let ghost state = infix_state(pre);
        let ghost out1 = out@;
        let ghost st1 = stack@;
        let incoming: Option<Op> = match e {
            Expr::Val(v) => {
                proof {
                    if state == Some(false) {
                        lemma_val_step(pre, out@, ts, bs, us, v);
                    }
                    ts = ts.push(Tree::Leaf(v));
                }
                out.push(Expr::Val(v));
                proof {
                    assert(out@.drop_last() =~= out1);
                }
                None
            },
            Expr::BinOp(op) => Some(Op::Bin(op)),
            Expr::UnOp(op) => Some(Op::Un(op)),
        };
        if let Some(op) = incoming {
            proof {
                assert(op_expr::<V>(op) == all[i as int]);
            }
            let ghost bin_ok = state == Some(true) && op is Bin;
            let ghost un_ok = state == Some(false) && op is Un;
            let prec = op.get_precedence();
            let assoc = match op {
                Op::Un(o) => o.get_associativity(),
                Op::Bin(o) => o.get_associativity(),
            };
            let mut done = false;
            while !done
                invariant
                    un_ok == (state == Some(false) && op is Un),
                    bin_ok == (state == Some(true) && op is Bin),
                    prec == op_precedence(op),
                    assoc == op_associativity(op),
                    operands(out@) == operands(pre),
                    operators(out@).add(stack_ops::<V>(stack@)) == operators(pre),
                    bin_ok ==> stack_after(out@) == Some(bin_count(stack@) + 1),
                    bin_ok ==> after_state(pre, out@, ts, bs, us) && shape(stack@, bs, us)
                        && incoming_ok(op, ts.last()),
                    un_ok ==> out@ == out1 && stack@ == st1,
                    un_ok ==> expect_state(pre, out@, ts, bs, us) && shape(stack@, bs, us),
                    done ==> stack@.len() == 0 || !yields(stack@.last(), prec, assoc),
                decreases stack.len() + if done {
                    0int
                } else {
                    1int
                },
            {
                let len = stack.len();
                if len == 0 {
                    done = true;
                } else {
                    let top = stack[len - 1];
                    if yields_to(top, prec, assoc) {
                        proof {
                            assert(op_precedence(top) <= 10) by {
                                match top {
                                    Op::Un(o) => {},
                                    Op::Bin(o) => {},
                                }
                            }
                            if un_ok {
                                assert(prec == 10 && assoc == Associativity::Right) by {
                                    match op {
                                        Op::Un(o) => {},
                                        Op::Bin(o) => {},
                                    }
                                }
                            }
                            assert(!un_ok);
                        }
                        let ghost out2 = out@;
                        let ghost st2 = stack@;
                        let t = stack.pop().unwrap();
                        proof {
                            assert(st2.drop_last() =~= stack@);
                            if bin_ok {
                                lemma_shape_pop(st2, bs, us);
                                if us.len() > 0 {
                                    lemma_pop_un(pre, out2, ts, bs, us);
                                    ts = ts.drop_last().push(
                                        Tree::Unary(us.last(), Box::new(ts.last())),
                                    );
                                    us = us.drop_last();
                                } else {
                                    let k = bs.len() as int;
                                    lemma_pop_bin(pre, out2, ts, bs);
                                    ts = ts.take(k - 1).push(
                                        Tree::Binary(bs.last(), Box::new(ts[k - 1]), Box::new(ts.last())),
                                    );
                                    bs = bs.drop_last();
                                }
                            }
                        }
                        out.push(t.as_expr());
                        proof {
                            assert(out@.drop_last() =~= out2);
                            assert(operators(out@).add(stack_ops::<V>(stack@)) =~= operators(out2).add(
                                stack_ops::<V>(st2),
                            ));
                        }
                    } else {
                        done = true;
                    }
                }
            }
            let ghost st3 = stack@;
            proof {
                if bin_ok {
                    if st3.len() > 0 {
                        lemma_shape_pop(st3, bs, us);
                    }
                    assert(us.len() == 0);
                    assert(us =~= Seq::<UnOperator>::empty());
                    if let Op::Bin(b) = op {
                        lemma_push_bin(pre, out@, ts, bs, b);
                        lemma_shape_push_bin(st3, bs, b);
                        bs = bs.push(b);
                    }
                } else if un_ok {
                    if let Op::Un(u) = op {
                        lemma_un_push(pre, out@, ts, bs, us, u);
                        lemma_shape_push_un(st3, bs, us, u);
                        us = us.push(u);
                    }
                }
            }
            stack.push(op);
            proof {
                assert(stack@.drop_last() =~= st3);
                assert(operators(out@).add(stack_ops::<V>(stack@)) =~= operators(out@).add(
                    stack_ops::<V>(st3),
                ).insert(op_expr(op)));
            }
        }
        i += 1;
    }
    proof {
        assert(all.take(n as int) =~= all);
    }
    while stack.len() > 0
        invariant
            operands(out@) == operands(all),
            operators(out@).add(stack_ops::<V>(stack@)) == operators(all),
            infix_state(all) == Some(true) ==> stack_after(out@) == Some(bin_count(stack@) + 1),
            infix_state(all) == Some(true) ==> after_state(all, out@, ts, bs, us) && shape(
                stack@,
                bs,
                us,
            ),
        decreases stack.len(),
    {
        let ghost out1 = out@;
        let ghost st1 = stack@;
        let t = stack.pop().unwrap();
        proof {
            assert(st1.drop_last() =~= stack@);
            if infix_state(all) == Some(true) {
                lemma_shape_pop(st1, bs, us);
                if us.len() > 0 {
                    lemma_pop_un(all, out1, ts, bs, us);
                    ts = ts.drop_last().push(Tree::Unary(us.last(), Box::new(ts.last())));
                    us = us.drop_last();
                } else {
                    let k = bs.len() as int;
                    lemma_pop_bin(all, out1, ts, bs);
                    ts = ts.take(k - 1).push(
                        Tree::Binary(bs.last(), Box::new(ts[k - 1]), Box::new(ts.last())),
                    );
                    bs = bs.drop_last();
                }
            }
        }
        out.push(t.as_expr());
        proof {
            assert(out@.drop_last() =~= out1);
            assert(operators(out@).add(stack_ops::<V>(stack@)) =~= operators(out1).add(
                stack_ops::<V>(st1),
            ));
        }
    }
    proof {
        assert(operators(out@).add(stack_ops::<V>(stack@)) =~= operators(out@));
        if infix_state(all) == Some(true) {
            assert(stack@.len() == bs.len() + us.len());
            assert(bs =~= Seq::<BinOperator>::empty());
            assert(us =~= Seq::<UnOperator>::empty());
            lemma_finish(all, out@, ts);
            let t = ts[0];
            assert(postfix_of(t) == out@ && infix_of(t) == all && respects_precedence(t));
        }
    }
    out
}

/// Orders an infix sequence by precedence and builds its expression tree.
/// The tree keeps the operands in their order and every operator; an infix
/// sequence always gives one.
pub fn build_tree<V>(seq: Vec<Expr<V>>) -> (r: Result<Tree<V>, ParseError>)
    ensures
        is_infix(seq@) ==> (r matches Ok(t) && infix_of(t) == seq@ && respects_precedence(t)),
        r matches Ok(t) ==> operands(postfix_of(t)) == operands(seq@) && operators(postfix_of(t))
            == operators(seq@),
        seq@.len() == 0 ==> r is Err,
{
    if seq.len() == 0 {
        return Err(ParseError::new(String::from_str("Empty expression")));
    }
    let ghost input = seq@;
    let postfix = shunting_yard(seq);
    let ghost p = postfix@;
    proof {
        if is_infix(input) {
            let t0 = choose|t: Tree<V>|
                postfix_of(t) == p && infix_of(t) == input && respects_precedence(t);
            assert(postfix_of(t0) == p);
        }
    }
    match postfix_to_tree(postfix) {
        Some(t) => Ok(t),
        None => Err(ParseError::new(String::from_str("Malformed expression"))),
    }
}

} // verus!
