use syntcalc::operators::{BinOperator, BinOps, UnOperator};
use syntcalc::expr::{Expr, Tree};
use syntcalc::rpn::{build_tree, postfix_to_tree, shunting_yard};

fn tokens(text: &str) -> Vec<Expr<i64>> {
    let mut out = Vec::new();
    let mut expect_operand = true;
    for t in text.split_whitespace() {
        if let Ok(n) = t.parse::<i64>() {
            out.push(Expr::Val(n));
            expect_operand = false;
        } else if expect_operand {
            out.push(Expr::UnOp(UnOperator::from_str(t).unwrap()));
        } else {
            out.push(Expr::BinOp(BinOperator::from_str(t).unwrap()));
            expect_operand = true;
        }
    }
    out
}

fn eval(t: &Tree<i64>) -> i64 {
    match t {
        Tree::Leaf(v) => *v,
        Tree::Unary(_, a) => -eval(a),
        Tree::Binary(op, l, r) => {
            let (a, b) = (eval(l), eval(r));
            match op.get_op_type() {
                BinOps::Add => a + b,
                BinOps::Sub => a - b,
                BinOps::Mul => a * b,
                BinOps::Div => a / b,
                BinOps::Pow => a.pow(b as u32),
                BinOps::Mod => a % b,
            }
        }
    }
}

fn show(t: &Tree<i64>) -> String {
    match t {
        Tree::Leaf(v) => v.to_string(),
        Tree::Unary(_, a) => format!("(-{})", show(a)),
        Tree::Binary(op, l, r) => {
            let sym = match op.get_op_type() {
                BinOps::Add => "+",
                BinOps::Sub => "-",
                BinOps::Mul => "*",
                BinOps::Div => "/",
                BinOps::Pow => "^",
                BinOps::Mod => "%",
            };
            format!("({} {} {})", show(l), sym, show(r))
        }
    }
}

fn postfix_text(s: &[Expr<i64>]) -> String {
    let parts: Vec<String> = s
        .iter()
        .map(|e| match e {
            Expr::Val(v) => v.to_string(),
            Expr::UnOp(_) => "neg".to_string(),
            Expr::BinOp(op) => format!("{:?}", op.get_op_type()),
        })
        .collect();
    parts.join(" ")
}

#[test]
fn multiplication_binds_tighter_than_addition() {
    let t = build_tree(tokens("3 * 4 + 5")).unwrap();
    assert_eq!(show(&t), "((3 * 4) + 5)");
    assert_eq!(eval(&t), 17);
    let t = build_tree(tokens("5 + 3 * 4")).unwrap();
    assert_eq!(show(&t), "(5 + (3 * 4))");
    assert_eq!(eval(&t), 17);
}

#[test]
fn power_groups_to_the_right() {
    let t = build_tree(tokens("2 ^ 3 ^ 2")).unwrap();
    assert_eq!(show(&t), "(2 ^ (3 ^ 2))");
    assert_eq!(eval(&t), 512);
}

#[test]
fn subtraction_groups_to_the_left() {
    let t = build_tree(tokens("10 - 4 - 3")).unwrap();
    assert_eq!(show(&t), "((10 - 4) - 3)");
    assert_eq!(eval(&t), 3);
    let t = build_tree(tokens("100 / 10 / 5")).unwrap();
    assert_eq!(eval(&t), 2);
}

#[test]
fn negation_binds_tightest() {
    let t = build_tree(tokens("- 2 ^ 2")).unwrap();
    assert_eq!(show(&t), "((-2) ^ 2)");
    assert_eq!(eval(&t), 4);
    let t = build_tree(tokens("2 ^ - 1 + 3")).unwrap();
    assert_eq!(show(&t), "((2 ^ (-1)) + 3)");
    let t = build_tree(tokens("- - 7")).unwrap();
    assert_eq!(eval(&t), 7);
}

#[test]
fn postfix_order_of_mixed_precedence() {
    let out = shunting_yard(tokens("1 + 2 * 3 ^ 2 - 4"));
    assert_eq!(postfix_text(&out), "1 2 3 2 Pow Mul Add 4 Sub");
    assert_eq!(eval(&postfix_to_tree(out).unwrap()), 15);
}

#[test]
fn right_operand_is_the_nearest_value() {
    let seq = vec![
        Expr::Val(8),
        Expr::Val(2),
        Expr::BinOp(BinOperator::from_str("/").unwrap()),
    ];
    let t = postfix_to_tree(seq).unwrap();
    assert_eq!(eval(&t), 4);
}

#[test]
fn malformed_sequences_give_no_tree() {
    assert!(postfix_to_tree(tokens("1 +")).is_none());
    assert!(postfix_to_tree(Vec::<Expr<i64>>::new()).is_none());
    assert!(postfix_to_tree(vec![Expr::Val(1), Expr::Val(2)]).is_none());
    assert!(build_tree(Vec::<Expr<i64>>::new()).is_err());
    let bad = vec![Expr::Val(1), Expr::BinOp(BinOperator::from_str("+").unwrap())];
    assert_eq!(build_tree(bad).unwrap_err().desc(), "Malformed expression");
}

#[test]
fn single_operand_is_a_leaf() {
    let t = build_tree(vec![Expr::Val(42)]).unwrap();
    assert!(matches!(t, Tree::Leaf(42)));
}

#[test]
fn equal_precedence_follows_the_incoming_associativity() {
    let t = build_tree(tokens("2 ^ 3 % 5")).unwrap();
    assert_eq!(show(&t), "((2 ^ 3) % 5)");
    assert_eq!(eval(&t), 3);
    let t = build_tree(tokens("2 % 3 ^ 2")).unwrap();
    assert_eq!(show(&t), "(2 % (3 ^ 2))");
    assert_eq!(eval(&t), 2);
}

#[test]
fn operands_and_operators_are_kept() {
    let out = shunting_yard(tokens("7 - - 2 * 3"));
    assert_eq!(postfix_text(&out), "7 2 neg 3 Mul Sub");
    assert_eq!(eval(&postfix_to_tree(out).unwrap()), 13);
}
