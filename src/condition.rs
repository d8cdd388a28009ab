use std::cmp::Ordering;
use vstd::prelude::*;

verus! {

/// The relation that a conditional expression tests between two values.
#[derive(Clone, Copy, Debug, PartialEq, Eq, Structural)]
pub enum Comparison {
    Greater,
    Less,
    Equal,
    GreaterEqual,
    LessEqual,
    NotEqual,
}

/// The relation that a symbol names, if any.
pub open spec fn comparison_symbol(s: Seq<char>) -> Option<Comparison> {
    if s == seq!['>'] {
        Some(Comparison::Greater)
    } else if s == seq!['<'] {
        Some(Comparison::Less)
    } else if s == seq!['=', '='] {
        Some(Comparison::Equal)
    } else if s == seq!['>', '='] {
        Some(Comparison::GreaterEqual)
    } else if s == seq!['<', '='] {
        Some(Comparison::LessEqual)
    } else if s == seq!['!', '='] {
        Some(Comparison::NotEqual)
    } else {
        None
    }
}

/// Whether the relation holds of two values that order as `ordering` (`None`
/// where they cannot be ordered, as values of different units) and that are
/// `equal` or not by the values' own equality. The orderings test the
/// ordering; `==` and `!=` test the equality.
pub open spec fn comparison_holds(c: Comparison, ordering: Option<Ordering>, equal: bool) -> bool {
    match c {
        Comparison::Greater => ordering == Some(Ordering::Greater),
        Comparison::Less => ordering == Some(Ordering::Less),
        Comparison::Equal => equal,
        Comparison::GreaterEqual => ordering == Some(Ordering::Greater) || ordering == Some(
            Ordering::Equal,
        ),
        Comparison::LessEqual => ordering == Some(Ordering::Less) || ordering == Some(
            Ordering::Equal,
        ),
        Comparison::NotEqual => !equal,
    }
}

impl Comparison {
    /// Looks a relation up by its symbol: `> < == >= <= !=`.
    pub fn from_str(s: &str) -> (r: Option<Comparison>)
        ensures
            r == comparison_symbol(s@),
    {
        let n = s.unicode_len();
        if n == 1 {
            let c = s.get_char(0);
            proof {
                assert(s@ =~= seq![c]);
            }
            if c == '>' {
                Some(Comparison::Greater)
            } else if c == '<' {
                Some(Comparison::Less)
            } else {
                None
            }
        } else if n == 2 {
            let a = s.get_char(0);
            let b = s.get_char(1);
            proof {
                assert(s@ =~= seq![a, b]);
            }
            if b != '=' {
                None
            } else if a == '=' {
                Some(Comparison::Equal)
            } else if a == '>' {
                Some(Comparison::GreaterEqual)
            } else if a == '<' {
                Some(Comparison::LessEqual)
            } else if a == '!' {
                Some(Comparison::NotEqual)
            } else {
                None
            }
        } else {
            None
        }
    }

    /// Whether the relation holds; see [`comparison_holds`].
    pub fn holds(&self, ordering: Option<Ordering>, equal: bool) -> (r: bool)
        ensures
            r == comparison_holds(*self, ordering, equal),
    {
        match self {
            Comparison::Greater => matches!(ordering, Some(Ordering::Greater)),
            Comparison::Less => matches!(ordering, Some(Ordering::Less)),
            Comparison::Equal => equal,
            Comparison::GreaterEqual => matches!(ordering, Some(Ordering::Greater) | Some(Ordering::Equal)),
            Comparison::LessEqual => matches!(ordering, Some(Ordering::Less) | Some(Ordering::Equal)),
            Comparison::NotEqual => !equal,
        }
    }
}

} // verus!
