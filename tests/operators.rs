use syntcalc::operators::{Associativity, BinOperator, BinOps, Operator, UnOperator, UnOps};

#[test]
fn binary_symbols_resolve() {
    let cases = [
        ("+", BinOps::Add, 2, Associativity::Left),
        ("-", BinOps::Sub, 2, Associativity::Left),
        ("*", BinOps::Mul, 4, Associativity::Left),
        ("/", BinOps::Div, 4, Associativity::Left),
        ("^", BinOps::Pow, 6, Associativity::Right),
        ("**", BinOps::Pow, 6, Associativity::Right),
        ("%", BinOps::Mod, 6, Associativity::Left),
    ];
    for (sym, kind, prec, assoc) in cases {
        let op = BinOperator::from_str(sym).unwrap();
        assert_eq!(op.get_op_type(), kind);
        assert_eq!(op.get_precedence(), prec);
        assert_eq!(op.get_associativity(), assoc);
    }
}

#[test]
fn unknown_binary_symbol_is_rejected() {
    assert_eq!(BinOperator::from_str("&").unwrap_err(), "No such operator: '&'");
    assert_eq!(BinOperator::from_str("***").unwrap_err(), "No such operator: '***'");
    assert_eq!(BinOperator::from_str("").unwrap_err(), "No such operator: ''");
}

#[test]
fn negation_symbol_resolves() {
    let op = UnOperator::from_str("-").unwrap();
    assert_eq!(op.get_op_type(), UnOps::Neg);
    assert_eq!(op.get_precedence(), 10);
    assert_eq!(op.get_associativity(), Associativity::Right);
    assert_eq!(UnOperator::from_str("!").unwrap_err(), "No such operator: '!'");
}

#[test]
fn operator_trait_agrees_with_methods() {
    fn rank<O: Operator>(s: &str) -> (u32, Associativity) {
        let op = O::from_str(s).unwrap();
        (op.get_precedence(), op.get_associativity())
    }
    assert_eq!(rank::<BinOperator>("^"), (6, Associativity::Right));
    assert_eq!(rank::<BinOperator>("/"), (4, Associativity::Left));
    assert_eq!(rank::<UnOperator>("-"), (10, Associativity::Right));
}
