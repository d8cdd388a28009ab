use std::cmp::Ordering;
use syntcalc::condition::Comparison;

#[test]
fn comparison_symbols_resolve() {
    assert_eq!(Comparison::from_str(">"), Some(Comparison::Greater));
    assert_eq!(Comparison::from_str("<"), Some(Comparison::Less));
    assert_eq!(Comparison::from_str("=="), Some(Comparison::Equal));
    assert_eq!(Comparison::from_str(">="), Some(Comparison::GreaterEqual));
    assert_eq!(Comparison::from_str("<="), Some(Comparison::LessEqual));
    assert_eq!(Comparison::from_str("!="), Some(Comparison::NotEqual));
    assert_eq!(Comparison::from_str("="), None);
    assert_eq!(Comparison::from_str("=>"), None);
}

#[test]
fn orderings_decide_relations() {
    let g = Some(Ordering::Greater);
    assert!(Comparison::Greater.holds(g, false));
    assert!(Comparison::GreaterEqual.holds(g, false));
    assert!(!Comparison::Less.holds(g, false));
    assert!(Comparison::LessEqual.holds(Some(Ordering::Equal), true));
    assert!(!Comparison::Greater.holds(Some(Ordering::Equal), true));
}

#[test]
fn unordered_values_satisfy_no_ordering() {
    for c in [Comparison::Greater, Comparison::Less, Comparison::GreaterEqual, Comparison::LessEqual] {
        assert!(!c.holds(None, false));
    }
    assert!(Comparison::NotEqual.holds(None, false));
}

#[test]
fn equality_follows_value_equality() {
    assert!(Comparison::Equal.holds(Some(Ordering::Less), true));
    assert!(!Comparison::NotEqual.holds(Some(Ordering::Less), true));
    assert!(!Comparison::Equal.holds(Some(Ordering::Equal), false));
}
