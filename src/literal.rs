use vstd::prelude::*;
use vstd::string::*;

use crate::alias::AliasTable;

verus! {

pub open spec fn is_digit(c: char) -> bool {
    '0' <= c && c <= '9'
}

/// A character that may stand in a unit name.
pub open spec fn is_word(c: char) -> bool {
    is_digit(c) || ('a' <= c && c <= 'z') || ('A' <= c && c <= 'Z') || c == '_'
}

/// The end of the longest run of digits of `s` that starts at `i`.
pub open spec fn digit_run(s: Seq<char>, i: int) -> int
    decreases s.len() - i,
{
    if 0 <= i < s.len() && is_digit(s[i]) {
        digit_run(s, i + 1)
    } else {
        i
    }
}

/// The end of the longest run of word characters of `s` that starts at `i`.
pub open spec fn word_run(s: Seq<char>, i: int) -> int
    decreases s.len() - i,
{
    if 0 <= i < s.len() && is_word(s[i]) {
        word_run(s, i + 1)
    } else {
        i
    }
}

/// Whether `s` has a digit at `i`.
pub open spec fn digit_at(s: Seq<char>, i: int) -> bool {
    0 <= i < s.len() && is_digit(s[i])
}

/// The value of a digit string in a base: the digit at position `i` of `len`
/// weighs `base^(len - 1 - i)`.
pub open spec fn digits_value(d: Seq<char>, base: nat) -> nat
    decreases d.len(),
{
    if d.len() == 0 {
        0
    } else {
        digits_value(d.drop_last(), base) * base + (d.last() as nat - '0' as nat) as nat
    }
}

/// Where the digits start: after a leading `-` that a digit follows.
pub open spec fn sign_len(s: Seq<char>) -> int {
    if s.len() >= 2 && s[0] == '-' && is_digit(s[1]) {
        1
    } else {
        0
    }
}

/// Whether `s` starts with a number at all.
pub open spec fn has_number(s: Seq<char>) -> bool {
    digit_at(s, sign_len(s))
}

/// The base that a prefix `0b`, `0o` or `0x` at `i` selects, when digits follow
/// it; 10 otherwise.
pub open spec fn radix_at(s: Seq<char>, i: int) -> u32 {
    if 0 <= i && i + 2 < s.len() && s[i] == '0' && is_digit(s[i + 2]) {
        if s[i + 1] == 'b' {
            2
        } else if s[i + 1] == 'o' {
            8
        } else if s[i + 1] == 'x' {
            16
        } else {
            10
        }
    } else {
        10
    }
}

pub open spec fn int_start(s: Seq<char>) -> int {
    sign_len(s) + if radix_at(s, sign_len(s)) == 10 {
        0int
    } else {
        2int
    }
}

pub open spec fn int_end(s: Seq<char>) -> int {
    digit_run(s, int_start(s))
}

/// A fractional part: a `.` and at least one digit after the integer part.
pub open spec fn has_fract(s: Seq<char>) -> bool {
    int_end(s) < s.len() && s[int_end(s)] == '.' && digit_at(s, int_end(s) + 1)
}

pub open spec fn fract_end(s: Seq<char>) -> int {
    if has_fract(s) {
        digit_run(s, int_end(s) + 1)
    } else {
        int_end(s)
    }
}

/// Whether an `E` or `e` after the mantissa opens a negative exponent.
pub open spec fn exp_negative(s: Seq<char>) -> bool {
    fract_end(s) + 1 < s.len() && s[fract_end(s) + 1] == '-'
}

pub open spec fn exp_start(s: Seq<char>) -> int {
    fract_end(s) + 1 + if exp_negative(s) {
        1int
    } else {
        0int
    }
}

/// An exponent: `E` or `e`, an optional `-`, and at least one digit.
pub open spec fn has_exp(s: Seq<char>) -> bool {
    fract_end(s) < s.len() && (s[fract_end(s)] == 'E' || s[fract_end(s)] == 'e') && digit_at(
        s,
        exp_start(s),
    )
}

/// Where the number ends and the unit name may start.
pub open spec fn number_end(s: Seq<char>) -> int {
    if has_exp(s) {
        digit_run(s, exp_start(s))
    } else {
        fract_end(s)
    }
}

pub open spec fn unit_end(s: Seq<char>) -> int {
    word_run(s, number_end(s))
}

pub open spec fn int_value(s: Seq<char>) -> nat {
    digits_value(s.subrange(int_start(s), int_end(s)), radix_at(s, sign_len(s)) as nat)
}

pub open spec fn fract_value(s: Seq<char>) -> nat {
    if has_fract(s) {
        digits_value(s.subrange(int_end(s) + 1, fract_end(s)), radix_at(s, sign_len(s)) as nat)
    } else {
        0
    }
}

pub open spec fn fract_digits(s: Seq<char>) -> int {
    if has_fract(s) {
        fract_end(s) - int_end(s) - 1
    } else {
        0
    }
}

pub open spec fn exp_value(s: Seq<char>) -> nat {
    if has_exp(s) {
        digits_value(s.subrange(exp_start(s), number_end(s)), 10)
    } else {
        0
    }
}

/// Whether every part of the number fits the fields of a [`Literal`].
pub open spec fn fits(s: Seq<char>) -> bool {
    int_value(s) <= u64::MAX && fract_value(s) <= u64::MAX && fract_digits(s) <= u32::MAX
        && exp_value(s) <= i32::MAX
}

/// Why a literal could not be decoded.
#[derive(Clone, Copy, Debug, PartialEq, Eq, Structural)]
pub enum LiteralError {
    /// The text does not start with a number.
    Malformed,
    /// A part of the number does not fit its field.
    TooLarge,
}

impl LiteralError {
    pub fn describe(&self) -> (r: String)
        ensures
            r@ == match self {
                LiteralError::Malformed => "No number found in the string"@,
                LiteralError::TooLarge => "Number too large"@,
            },
    {
        match self {
            LiteralError::Malformed => String::from_str("No number found in the string"),
            LiteralError::TooLarge => String::from_str("Number too large"),
        }
    }
}

/// A decoded numeric literal: sign, base, integer and fractional digits in
/// that base, an exponent of the base, and the unit name written after it.
/// Its magnitude is `±(int_part + fract_part / base^fract_len) * base^exponent`.
#[derive(Clone, Debug)]
pub struct Literal {
    pub negative: bool,
    pub base: u32,
    pub int_part: u64,
    pub fract_part: u64,
    pub fract_len: u32,
    pub exponent: i32,
    pub unit: Option<String>,
}

/// What decoding `s` gives when it starts with a number whose parts fit.
pub open spec fn literal_of(s: Seq<char>, lit: Literal) -> bool {
    &&& lit.negative == (sign_len(s) == 1)
    &&& lit.base == radix_at(s, sign_len(s))
    &&& lit.int_part == int_value(s)
    &&& lit.fract_part == fract_value(s)
    &&& lit.fract_len == fract_digits(s)
    &&& lit.exponent == if exp_negative(s) && has_exp(s) {
        -exp_value(s)
    } else {
        exp_value(s) as int
    }
    &&& match lit.unit {
        Some(u) => unit_end(s) > number_end(s) && u@ == s.subrange(number_end(s), unit_end(s)),
        None => unit_end(s) == number_end(s),
    }
}

proof fn lemma_digit_run_bounds(s: Seq<char>, i: int)
    requires
        0 <= i <= s.len(),
    ensures
        i <= digit_run(s, i) <= s.len(),
        digit_at(s, i) ==> i < digit_run(s, i),
        forall|k: int| i <= k < digit_run(s, i) ==> is_digit(#[trigger] s[k]),
    decreases s.len() - i,
{
    if i < s.len() && is_digit(s[i]) {
        lemma_digit_run_bounds(s, i + 1);
    }
}

proof fn lemma_word_run_bounds(s: Seq<char>, i: int)
    requires
        0 <= i <= s.len(),
    ensures
        i <= word_run(s, i) <= s.len(),
    decreases s.len() - i,
{
    if i < s.len() && is_word(s[i]) {
        lemma_word_run_bounds(s, i + 1);
    }
}

proof fn lemma_digits_value_grows(d: Seq<char>, base: nat, k: int)
    requires
        base >= 1,
        0 <= k <= d.len(),
    ensures
        digits_value(d.subrange(0, k), base) <= digits_value(d, base),
    decreases d.len() - k,
{
    if k < d.len() {
        lemma_digits_value_grows(d.drop_last(), base, k);
        assert(d.drop_last().subrange(0, k) =~= d.subrange(0, k));
        let v = digits_value(d.drop_last(), base);
        assert(v * base >= v) by (nonlinear_arith)
            requires
                base >= 1,
        ;
    } else {
        assert(d.subrange(0, k) =~= d);
    }
}

fn char_at(s: &str, n: usize, i: usize) -> (r: char)
    requires
        n == s@.len(),
    ensures
        i < n ==> r == s@[i as int],
        i >= n ==> r == ' ',
{
    if i < n {
        s.get_char(i)
    } else {
        ' '
    }
}

fn is_digit_char(c: char) -> (r: bool)
    ensures
        r == is_digit(c),
{
    '0' <= c && c <= '9'
}

fn is_word_char(c: char) -> (r: bool)
    ensures
        r == is_word(c),
{
    ('0' <= c && c <= '9') || ('a' <= c && c <= 'z') || ('A' <= c && c <= 'Z') || c == '_'
}

fn skip_digits(s: &str, n: usize, i: usize) -> (r: usize)
    requires
        n == s@.len(),
        i <= n,
    ensures
        r == digit_run(s@, i as int),
{
    let mut j = i;
    while j < n && is_digit_char(s.get_char(j))
        invariant
            n == s@.len(),
            i <= j <= n,
            digit_run(s@, j as int) == digit_run(s@, i as int),
        decreases n - j,
    {
        j = j + 1;
    }
    j
}

fn skip_word(s: &str, n: usize, i: usize) -> (r: usize)
    requires
        n == s@.len(),
        i <= n,
    ensures
        r == word_run(s@, i as int),
{
    let mut j = i;
    while j < n && is_word_char(s.get_char(j))
        invariant
            n == s@.len(),
            i <= j <= n,
            word_run(s@, j as int) == word_run(s@, i as int),
        decreases n - j,
    {
        j = j + 1;
    }
    j
}

/// The value of the digits `s[from..to]` in `base`, if it fits in a `u64`.
fn digits_to_u64(s: &str, n: usize, from: usize, to: usize, base: u32) -> (r: Option<u64>)
    requires
        n == s@.len(),
        from <= to <= n,
        2 <= base <= 16,
        forall|k: int| from <= k < to ==> is_digit(#[trigger] s@[k]),
    ensures
        match r {
            Some(v) => v == digits_value(s@.subrange(from as int, to as int), base as nat),
            None => digits_value(s@.subrange(from as int, to as int), base as nat) > u64::MAX,
        },
{
    let ghost d = s@.subrange(from as int, to as int);
    let mut acc: u64 = 0;
    let mut j = from;
    proof {
        assert(d.subrange(0, 0) =~= Seq::<char>::empty());
    }
    while j < to
        invariant
            n == s@.len(),
            from <= j <= to <= n,
            2 <= base <= 16,
            d == s@.subrange(from as int, to as int),
            forall|k: int| from <= k < to ==> is_digit(#[trigger] s@[k]),
            acc == digits_value(d.subrange(0, j - from), base as nat),
        decreases to - j,
    {
        let c = s.get_char(j);
        assert(is_digit(s@[j as int]));
        let digit = (c as u32 - '0' as u32) as u64;
        proof {
            assert(d.subrange(0, j + 1 - from).drop_last() =~= d.subrange(0, j - from));
            assert(d.subrange(0, j + 1 - from).last() == c);
        }
        match acc.checked_mul(base as u64) {
            Some(m) => match m.checked_add(digit) {
                Some(v) => {
                    acc = v;
                },
                None => {
                    proof {
                        lemma_digits_value_grows(d, base as nat, j + 1 - from);
                    }
                    return None;
                },
            },
            None => {
                proof {
                    lemma_digits_value_grows(d, base as nat, j + 1 - from);
                }
                return None;
            },
        }
        j = j + 1;
    }
    proof {
        assert(d.subrange(0, to - from) =~= d);
    }
    Some(acc)
}

/// Scans sign, base prefix, integer digits and fractional digits: gives the
/// base and where the integer digits start and end and the mantissa ends.
fn scan_mantissa(s: &str, n: usize) -> (r: (u32, usize, usize, bool, usize))
    requires
        n == s@.len(),
        has_number(s@),
    ensures
        r.0 == radix_at(s@, sign_len(s@)),
        r.1 == int_start(s@),
        r.2 == int_end(s@),
        r.3 == has_fract(s@),
        r.4 == fract_end(s@),
        r.1 < r.2 <= r.4 <= n,
        r.3 ==> r.2 + 1 < r.4,
        forall|k: int| r.1 <= k < r.2 ==> is_digit(#[trigger] s@[k]),
        r.3 ==> forall|k: int| r.2 + 1 <= k < r.4 ==> is_digit(#[trigger] s@[k]),
{
    let ghost v = s@;
    let negative = n >= 2 && char_at(s, n, 0) == '-' && is_digit_char(char_at(s, n, 1));
    let p1: usize = if negative {
        1
    } else {
        0
    };
    assert(p1 == sign_len(v));
    let c0 = char_at(s, n, p1);
    let c1 = char_at(s, n, p1 + 1);
    let c2 = char_at(s, n, p1 + 2);
    let base: u32 = if p1 + 2 < n && c0 == '0' && is_digit_char(c2) {
        if c1 == 'b' {
            2
        } else if c1 == 'o' {
            8
        } else if c1 == 'x' {
            16
        } else {
            10
        }
    } else {
        10
    };
    assert(base == radix_at(v, p1 as int));
    let p2: usize = if base == 10 {
        p1
    } else {
        p1 + 2
    };
    let p3 = skip_digits(s, n, p2);
    proof {
        lemma_digit_run_bounds(v, p2 as int);
        assert(is_digit(v[p2 as int]));
    }
    let fract = p3 < n && char_at(s, n, p3) == '.' && is_digit_char(char_at(s, n, p3 + 1));
    assert(fract == has_fract(v));
    let p4 = if fract {
        skip_digits(s, n, p3 + 1)
    } else {
        p3
    };
    proof {
        if fract {
            lemma_digit_run_bounds(v, p3 + 1);
        }
    }
    (base, p2, p3, fract, p4)
}

/// Scans the exponent and the unit name that follow the mantissa.
fn scan_tail(s: &str, n: usize, p4: usize) -> (r: (bool, bool, usize, usize, usize))
    requires
        n == s@.len(),
        has_number(s@),
        p4 == fract_end(s@),
        p4 <= n,
    ensures
        r.0 == has_exp(s@),
        r.1 == exp_negative(s@),
        r.0 ==> r.2 == exp_start(s@),
        r.3 == number_end(s@),
        r.4 == unit_end(s@),
        p4 <= r.3 <= r.4 <= n,
        r.0 ==> r.2 < r.3 && forall|k: int| r.2 <= k < r.3 ==> is_digit(#[trigger] s@[k]),
{
    let ghost v = s@;
    let exp_neg = p4 < n && p4 + 1 < n && char_at(s, n, p4 + 1) == '-';
    assert(exp_neg == exp_negative(v));
    let mut exp = false;
    let mut q: usize = p4;
    if p4 < n {
        let e = char_at(s, n, p4);
        q = if exp_neg {
            p4 + 2
        } else {
            p4 + 1
        };
        exp = (e == 'E' || e == 'e') && is_digit_char(char_at(s, n, q));
    }
    assert(exp == has_exp(v));
    let p5 = if exp {
        skip_digits(s, n, q)
    } else {
        p4
    };
    proof {
        if exp {
            lemma_digit_run_bounds(v, q as int);
        }
    }
    let p6 = skip_word(s, n, p5);
    proof {
        lemma_word_run_bounds(v, p5 as int);
    }
    (exp, exp_neg, q, p5, p6)
}

impl Literal {
    /// Decodes a numeric literal at the start of `s`: an optional `-`, an
    /// optional base prefix `0b`, `0o` or `0x`, decimal digits weighed in that
    /// base, an optional `.` and fractional digits, an optional exponent
    /// (`E` or `e`, an optional `-`, decimal digits) of that base, and an
    /// optional unit name. Text after the unit name is not read.
    pub fn decode(s: &str) -> (r: Result<Literal, LiteralError>)
        ensures
            !has_number(s@) ==> r == Err::<Literal, LiteralError>(LiteralError::Malformed),
            has_number(s@) && !fits(s@) ==> r == Err::<Literal, LiteralError>(
                LiteralError::TooLarge,
            ),
            has_number(s@) && fits(s@) ==> (r matches Ok(lit) && literal_of(s@, lit)),
    {
        let n = s.unicode_len();
        let negative = n >= 2 && char_at(s, n, 0) == '-' && is_digit_char(char_at(s, n, 1));
        let p1: usize = if negative {
            1
        } else {
            0
        };
        if !is_digit_char(char_at(s, n, p1)) {
            return Err(LiteralError::Malformed);
        }
        let (base, p2, p3, fract, p4) = scan_mantissa(s, n);
        let (exp, exp_neg, q, p5, p6) = scan_tail(s, n, p4);
        let int_part = match digits_to_u64(s, n, p2, p3, base) {
            Some(x) => x,
            None => {
                return Err(LiteralError::TooLarge);
            },
        };
        let fract_part = if fract {
            match digits_to_u64(s, n, p3 + 1, p4, base) {
                Some(x) => x,
                None => {
                    return Err(LiteralError::TooLarge);
                },
            }
        } else {
            0
        };
        let fract_count = if fract {
            p4 - p3 - 1
        } else {
            0
        };
        if fract_count > 4294967295 {
            return Err(LiteralError::TooLarge);
        }
        let exp_abs = if exp {
            match digits_to_u64(s, n, q, p5, 10) {
                Some(x) => x,
                None => {
                    return Err(LiteralError::TooLarge);
                },
            }
        } else {
            0
        };
        if exp_abs > 2147483647 {
            return Err(LiteralError::TooLarge);
        }
        let exponent: i32 = if exp_neg && exp {
            -(exp_abs as i32)
        } else {
            exp_abs as i32
        };
        let unit = if p6 > p5 {
            Some(String::from_str(s.substring_char(p5, p6)))
        } else {
            None
        };
        Ok(
            Literal {
                negative,
                base,
                int_part,
                fract_part,
                fract_len: fract_count as u32,
                exponent,
                unit,
            },
        )
    }
}

impl Literal {
    /// The entry that the unit name stands for in `table`: `Ok(None)` without
    /// a unit name, an error naming the unit when the table has no entry.
    pub fn unit_value<'a, V>(&self, table: &'a AliasTable<V>) -> (r: Result<Option<&'a V>, String>)
        ensures
            match self.unit {
                None => r == Ok::<Option<&'a V>, String>(None),
                Some(u) => if table@.contains_key(u@) {
                    r matches Ok(Some(v)) && *v == table@[u@]
                } else {
                    r matches Err(e) && e@ == "No "@ + u@ + " found"@
                },
            },
    {
        match &self.unit {
            None => Ok(None),
            Some(name) => match table.get(name.as_str()) {
                Some(v) => Ok(Some(v)),
                None => {
                    let mut msg = String::from_str("No ");
                    msg.append(name.as_str());
                    msg.append(" found");
                    Err(msg)
                },
            },
        }
    }
}

} // verus!
