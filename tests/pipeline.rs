use syntcalc::alias::AliasTable;
use syntcalc::condition::Comparison;
use syntcalc::expr::{Expr, Tree};
use syntcalc::literal::Literal;
use syntcalc::operators::{BinOperator, BinOps};
use syntcalc::rpn::build_tree;
use std::cmp::Ordering;

fn units() -> AliasTable<f64> {
    let mut t = AliasTable::new();
    t.insert("m".to_string(), 1.0);
    t.insert("km".to_string(), 1000.0);
    t
}

fn value(s: &str, table: &AliasTable<f64>) -> f64 {
    let lit = Literal::decode(s).unwrap();
    let sign = if lit.negative { -1.0 } else { 1.0 };
    let base = lit.base as f64;
    let m = sign * (lit.int_part as f64 + lit.fract_part as f64 / base.powi(lit.fract_len as i32))
        * base.powi(lit.exponent);
    match lit.unit_value(table).unwrap() {
        Some(u) => m * u,
        None => m,
    }
}

fn eval(t: &Tree<f64>) -> f64 {
    match t {
        Tree::Leaf(v) => *v,
        Tree::Unary(_, a) => -eval(a),
        Tree::Binary(op, l, r) => {
            let (a, b) = (eval(l), eval(r));
            match op.get_op_type() {
                BinOps::Add => a + b,
                BinOps::Sub => a - b,
                BinOps::Mul => a * b,
                BinOps::Div => a / b,
                BinOps::Pow => a.powf(b),
                BinOps::Mod => a % b,
            }
        }
    }
}

#[test]
fn unit_literal_times_number() {
    let table = units();
    let seq = vec![
        Expr::Val(value("2km", &table)),
        Expr::BinOp(BinOperator::from_str("*").unwrap()),
        Expr::Val(value("3", &table)),
    ];
    assert_eq!(eval(&build_tree(seq).unwrap()), 6000.0);
}

#[test]
fn literals_feed_the_precedence_pipeline() {
    let table = units();
    let seq = vec![
        Expr::Val(value("0b10", &table)),
        Expr::BinOp(BinOperator::from_str("^").unwrap()),
        Expr::Val(value("3", &table)),
        Expr::BinOp(BinOperator::from_str("^").unwrap()),
        Expr::Val(value("2", &table)),
    ];
    assert_eq!(eval(&build_tree(seq).unwrap()), 512.0);
}

#[test]
fn conditional_picks_the_true_branch_when_greater() {
    let cmp = Comparison::from_str(">").unwrap();
    let (lhs, rhs) = (1.0_f64, 0.0_f64);
    assert!(cmp.holds(lhs.partial_cmp(&rhs), lhs == rhs));
    assert_eq!(Comparison::from_str("<").unwrap().holds(Some(Ordering::Greater), false), false);
}
