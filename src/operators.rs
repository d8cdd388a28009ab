use vstd::prelude::*;
use vstd::string::*;

verus! {

/// How operators of equal precedence group.
#[derive(Clone, Copy, Debug, PartialEq, Eq, Structural)]
pub enum Associativity {
    Left,
    Right,
    Non,
}

/// The binary operations of the registry.
#[derive(Clone, Copy, Debug, PartialEq, Eq, Structural)]
pub enum BinOps {
    Add,
    Sub,
    Mul,
    Div,
    Pow,
    Mod,
}

/// The unary operations of the registry.
#[derive(Clone, Copy, Debug, PartialEq, Eq, Structural)]
pub enum UnOps {
    Neg,
}

/// Operators found by their symbol, ranked by precedence.
pub trait Operator: Sized {
    fn from_str(s: &str) -> Result<Self, String>;

    fn get_precedence(&self) -> u32;

    fn get_associativity(&self) -> Associativity;
}

/// The binary operation that a symbol names, if any.
pub open spec fn bin_symbol(s: Seq<char>) -> Option<BinOps> {
    if s == seq!['+'] {
        Some(BinOps::Add)
    } else if s == seq!['-'] {
        Some(BinOps::Sub)
    } else if s == seq!['*'] {
        Some(BinOps::Mul)
    } else if s == seq!['/'] {
        Some(BinOps::Div)
    } else if s == seq!['^'] || s == seq!['*', '*'] {
        Some(BinOps::Pow)
    } else if s == seq!['%'] {
        Some(BinOps::Mod)
    } else {
        None
    }
}

pub open spec fn bin_precedence(k: BinOps) -> u32 {
    match k {
        BinOps::Add | BinOps::Sub => 2,
        BinOps::Mul | BinOps::Div => 4,
        BinOps::Pow | BinOps::Mod => 6,
    }
}

pub open spec fn bin_associativity(k: BinOps) -> Associativity {
    match k {
        BinOps::Pow => Associativity::Right,
        _ => Associativity::Left,
    }
}

/// The unary operation that a symbol names, if any.
pub open spec fn un_symbol(s: Seq<char>) -> Option<UnOps> {
    if s == seq!['-'] {
        Some(UnOps::Neg)
    } else {
        None
    }
}

pub open spec fn un_precedence(k: UnOps) -> u32 {
    match k {
        UnOps::Neg => 10,
    }
}

pub open spec fn un_associativity(k: UnOps) -> Associativity {
    match k {
        UnOps::Neg => Associativity::Right,
    }
}

/// The message given for a symbol that names no operator.
pub open spec fn unknown_operator_text(s: Seq<char>) -> Seq<char> {
    "No such operator: '"@ + s + "'"@
}

fn unknown_operator(s: &str) -> (r: String)
    ensures
        r@ == unknown_operator_text(s@),
{
    let mut msg = String::from_str("No such operator: '");
    msg.append(s);
    msg.append("'");
    msg
}

/// A binary operator; its precedence and associativity follow from its kind.
#[derive(Clone, Copy, Debug, PartialEq, Eq, Structural)]
pub struct BinOperator {
    kind: BinOps,
}

impl View for BinOperator {
    type V = BinOps;

    closed spec fn view(&self) -> BinOps {
        self.kind
    }
}

impl BinOperator {
    fn new(kind: BinOps) -> (r: Self)
        ensures
            r@ == kind,
    {
        BinOperator { kind }
    }

    /// Looks an operator up by its symbol: `+ - * / ^ ** %`.
    pub fn from_str(s: &str) -> (r: Result<Self, String>)
        ensures
            match bin_symbol(s@) {
                Some(k) => r matches Ok(op) && op@ == k,
                None => r matches Err(e) && e@ == unknown_operator_text(s@),
            },
    {
        let n = s.unicode_len();
        let kind = if n == 1 {
            let c = s.get_char(0);
            proof {
                assert(s@ =~= seq![c]);
            }
            if c == '+' {
                Some(BinOps::Add)
            } else if c == '-' {
                Some(BinOps::Sub)
            } else if c == '*' {
                Some(BinOps::Mul)
            } else if c == '/' {
                Some(BinOps::Div)
            } else if c == '^' {
                Some(BinOps::Pow)
            } else if c == '%' {
                Some(BinOps::Mod)
            } else {
                None
            }
        } else if n == 2 && s.get_char(0) == '*' && s.get_char(1) == '*' {
            proof {
                assert(s@ =~= seq!['*', '*']);
            }
            Some(BinOps::Pow)
        } else {
            proof {
                if s@ == seq!['*', '*'] {
                    assert(s@[0] == '*' && s@[1] == '*');
                }
            }
            None
        };
        match kind {
            Some(k) => Ok(Self::new(k)),
            None => Err(unknown_operator(s)),
        }
    }

    pub fn get_precedence(&self) -> (r: u32)
        ensures
            r == bin_precedence(self@),
    {
        match self.kind {
            BinOps::Add | BinOps::Sub => 2,
            BinOps::Mul | BinOps::Div => 4,
            BinOps::Pow | BinOps::Mod => 6,
        }
    }

    pub fn get_associativity(&self) -> (r: Associativity)
        ensures
            r == bin_associativity(self@),
    {
        match self.kind {
            BinOps::Pow => Associativity::Right,
            _ => Associativity::Left,
        }
    }

    pub fn get_op_type(&self) -> (r: BinOps)
        ensures
            r == self@,
    {
        self.kind
    }

}

impl Operator for BinOperator {
    fn from_str(s: &str) -> Result<Self, String> {
        BinOperator::from_str(s)
    }

    fn get_precedence(&self) -> u32 {
        BinOperator::get_precedence(self)
    }

    fn get_associativity(&self) -> Associativity {
        BinOperator::get_associativity(self)
    }
}

/// A prefix unary operator; its precedence and associativity follow from its kind.
#[derive(Clone, Copy, Debug, PartialEq, Eq, Structural)]
pub struct UnOperator {
    kind: UnOps,
}

impl View for UnOperator {
    type V = UnOps;

    closed spec fn view(&self) -> UnOps {
        self.kind
    }
}

impl UnOperator {
    fn new(kind: UnOps) -> (r: Self)
        ensures
            r@ == kind,
    {
        UnOperator { kind }
    }

    /// Looks a prefix operator up by its symbol: `-`.
    pub fn from_str(s: &str) -> (r: Result<Self, String>)
        ensures
            match un_symbol(s@) {
                Some(k) => r matches Ok(op) && op@ == k,
                None => r matches Err(e) && e@ == unknown_operator_text(s@),
            },
    {
        if s.unicode_len() == 1 && s.get_char(0) == '-' {
            proof {
                assert(s@ =~= seq!['-']);
            }
            Ok(Self::new(UnOps::Neg))
        } else {
            proof {
                if s@ == seq!['-'] {
                    assert(s@[0] == '-');
                }
            }
            Err(unknown_operator(s))
        }
    }

    pub fn get_precedence(&self) -> (r: u32)
        ensures
            r == un_precedence(self@),
    {
        match self.kind {
            UnOps::Neg => 10,
        }
    }

    pub fn get_op_type(&self) -> (r: UnOps)
        ensures
            r == self@,
    {
        self.kind
    }

    pub fn get_associativity(&self) -> (r: Associativity)
        ensures
            r == un_associativity(self@),
    {
        match self.kind {
            UnOps::Neg => Associativity::Right,
        }
    }

}

impl Operator for UnOperator {
    fn from_str(s: &str) -> Result<Self, String> {
        UnOperator::from_str(s)
    }

    fn get_precedence(&self) -> u32 {
        UnOperator::get_precedence(self)
    }

    fn get_associativity(&self) -> Associativity {
        UnOperator::get_associativity(self)
    }
}

} // verus!
