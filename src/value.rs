use vstd::prelude::*;

verus! {

/// 2^63: the sign bit of a binary64 pattern.
pub const SIGN_BIT: u64 = 0x8000_0000_0000_0000;

/// A number of the language: an IEEE-754 binary64 value, held by its bit pattern.
#[derive(Clone, Copy, Debug, PartialEq, Eq, Structural)]
pub struct Number {
    pub bits: u64,
}

/// Whether a pattern has the sign bit set.
pub open spec fn sign_of(bits: u64) -> bool {
    bits >= SIGN_BIT
}

/// The pattern without its sign bit: the magnitude, which orders non-NaN values of one sign.
pub open spec fn magnitude(bits: u64) -> int {
    (bits % SIGN_BIT) as int
}

/// A NaN: every exponent bit set and a non-zero fraction.
pub open spec fn is_nan(bits: u64) -> bool {
    magnitude(bits) > 0x7FF0_0000_0000_0000
}

/// Zero of either sign.
pub open spec fn is_zero(bits: u64) -> bool {
    magnitude(bits) == 0
}

/// The position of a non-NaN value on the number line: `-0` and `+0` share position 0.
pub open spec fn rank(bits: u64) -> int {
    if sign_of(bits) {
        -magnitude(bits)
    } else {
        magnitude(bits)
    }
}

/// IEEE equality: false when either side is NaN; `-0 == +0`.
pub open spec fn num_eq(a: u64, b: u64) -> bool {
    !is_nan(a) && !is_nan(b) && rank(a) == rank(b)
}

/// IEEE `<`: false when either side is NaN.
pub open spec fn num_lt(a: u64, b: u64) -> bool {
    !is_nan(a) && !is_nan(b) && rank(a) < rank(b)
}

/// IEEE `<=`: false when either side is NaN.
pub open spec fn num_le(a: u64, b: u64) -> bool {
    !is_nan(a) && !is_nan(b) && rank(a) <= rank(b)
}

/// IEEE negation: the same pattern with the sign bit flipped.
pub open spec fn neg_bits(bits: u64) -> u64 {
    if sign_of(bits) {
        (bits - SIGN_BIT) as u64
    } else {
        (bits + SIGN_BIT) as u64
    }
}

impl Number {
    pub fn from_bits(bits: u64) -> (r: Number)
        ensures
            r.bits == bits,
    {
        Number { bits }
    }

    pub fn to_bits(&self) -> (r: u64)
        ensures
            r == self.bits,
    {
        self.bits
    }

    pub fn is_nan(&self) -> (r: bool)
        ensures
            r == is_nan(self.bits),
    {
        self.bits % SIGN_BIT > 0x7FF0_0000_0000_0000
    }

    pub fn is_zero(&self) -> (r: bool)
        ensures
            r == is_zero(self.bits),
    {
        self.bits % SIGN_BIT == 0
    }

    /// The number with its sign flipped.
    pub fn negate(&self) -> (r: Number)
        ensures
            r.bits == neg_bits(self.bits),
    {
        if self.bits >= SIGN_BIT {
            Number { bits: self.bits - SIGN_BIT }
        } else {
            Number { bits: self.bits + SIGN_BIT }
        }
    }

    /// IEEE equality of two numbers.
    pub fn num_eq(&self, o: &Number) -> (r: bool)
        ensures
            r == num_eq(self.bits, o.bits),
    {
        if self.is_nan() || o.is_nan() {
            false
        } else {
            let a = self.bits % SIGN_BIT;
            let b = o.bits % SIGN_BIT;
            let sa = self.bits >= SIGN_BIT;
            let sb = o.bits >= SIGN_BIT;
            if a == 0 && b == 0 {
                true
            } else {
                sa == sb && a == b
            }
        }
    }

    /// IEEE `<` of two numbers.
    pub fn num_lt(&self, o: &Number) -> (r: bool)
        ensures
            r == num_lt(self.bits, o.bits),
    {
        if self.is_nan() || o.is_nan() {
            false
        } else {
            let a = self.bits % SIGN_BIT;
            let b = o.bits % SIGN_BIT;
            let sa = self.bits >= SIGN_BIT;
            let sb = o.bits >= SIGN_BIT;
            if !sa && !sb {
                a < b
            } else if sa && sb {
                b < a
            } else if sa {
                // negative against non-negative: less unless both are zero
                !(a == 0 && b == 0)
            } else {
                false
            }
        }
    }

    /// IEEE `<=` of two numbers.
    pub fn num_le(&self, o: &Number) -> (r: bool)
        ensures
            r == num_le(self.bits, o.bits),
    {
        self.num_lt(o) || self.num_eq(o)
    }
}

/// The floating-point operations that need IEEE rounding, supplied by the host.
///
/// The interpreter decides everything else about numbers itself: their truthiness,
/// equality, ordering, negation, and which operands are numbers at all.
pub trait Arithmetic {
    /// The number that a decimal lexeme (digits, optionally `.` and digits) denotes,
    /// or `None` when it cannot be read.
    fn parse_number(&self, text: &str) -> Option<Number>;

    fn add(&self, a: Number, b: Number) -> Number;

    fn sub(&self, a: Number, b: Number) -> Number;

    fn mul(&self, a: Number, b: Number) -> Number;

    /// Only called with a non-zero divisor.
    fn div(&self, a: Number, b: Number) -> Number;

    /// The shortest decimal text that reads back as the same number.
    fn format(&self, n: Number) -> String;
}

/// A runtime value.
#[derive(Clone, Debug, PartialEq)]
pub enum Value {
    Number(Number),
    String(String),
    Boolean(bool),
    Nil,
}

/// A runtime value as the literal nodes of the syntax tree hold it.
pub type Literal = Value;

/// The mathematical content of a [`Value`].
pub enum ValueModel {
    Number(u64),
    Str(Seq<char>),
    Boolean(bool),
    Nil,
}

impl View for Value {
    type V = ValueModel;

    open spec fn view(&self) -> ValueModel {
        match self {
            Value::Number(n) => ValueModel::Number(n.bits),
            Value::String(s) => ValueModel::Str(s@),
            Value::Boolean(b) => ValueModel::Boolean(*b),
            Value::Nil => ValueModel::Nil,
        }
    }
}

/// Truthiness: `nil` and `false` are false, a number is true unless it is zero (NaN is true),
/// a string is true unless it is empty.
pub open spec fn truthy(v: ValueModel) -> bool {
    match v {
        ValueModel::Nil => false,
        ValueModel::Boolean(b) => b,
        ValueModel::Number(n) => !is_zero(n),
        ValueModel::Str(s) => s.len() > 0,
    }
}

/// `==` of the language: same-variant comparison, `false` across variants except `nil == nil`.
pub open spec fn values_equal(a: ValueModel, b: ValueModel) -> bool {
    match (a, b) {
        (ValueModel::Number(x), ValueModel::Number(y)) => num_eq(x, y),
        (ValueModel::Str(x), ValueModel::Str(y)) => x == y,
        (ValueModel::Boolean(x), ValueModel::Boolean(y)) => x == y,
        (ValueModel::Nil, ValueModel::Nil) => true,
        _ => false,
    }
}

/// The text that `print` writes for a value that is not a number.
pub open spec fn display_text(v: ValueModel) -> Seq<char> {
    match v {
        ValueModel::Str(s) => s,
        ValueModel::Boolean(b) => if b {
            seq!['t', 'r', 'u', 'e']
        } else {
            seq!['f', 'a', 'l', 's', 'e']
        },
        _ => seq!['n', 'i', 'l'],
    }
}

fn chars_equal(a: &String, b: &String) -> (r: bool)
    ensures
        r == (a@ == b@),
{
    a.eq(b)
}

impl Value {
    /// Truthiness of the value.
    pub fn truthy(&self) -> (r: bool)
        ensures
            r == truthy(self@),
    {
        match self {
            Value::Nil => false,
            Value::Boolean(b) => *b,
            Value::Number(n) => !n.is_zero(),
            Value::String(s) => !s.as_str().is_empty(),
        }
    }

    /// The language's `==`.
    pub fn equals(&self, o: &Value) -> (r: bool)
        ensures
            r == values_equal(self@, o@),
    {
        match (self, o) {
            (Value::Number(x), Value::Number(y)) => x.num_eq(y),
            (Value::String(x), Value::String(y)) => chars_equal(x, y),
            (Value::Boolean(x), Value::Boolean(y)) => *x == *y,
            (Value::Nil, Value::Nil) => true,
            _ => false,
        }
    }

    /// The text that `print` writes for the value.
    pub fn to_string<A: Arithmetic>(&self, arith: &A) -> (r: String)
        ensures
            !(self@ is Number) ==> r@ == display_text(self@),
    {
        match self {
            Value::Number(n) => arith.format(*n),
            Value::String(s) => s.clone(),
            Value::Boolean(b) => {
                if *b {
                    proof {
                        reveal_strlit("true");
                    }
                    String::from_str("true")
                } else {
                    proof {
                        reveal_strlit("false");
                    }
                    String::from_str("false")
                }
            },
            Value::Nil => {
                proof {
                    reveal_strlit("nil");
                }
                String::from_str("nil")
            },
        }
    }

    /// A copy of the value.
    pub fn duplicate(&self) -> (r: Value)
        ensures
            r == *self,
    {
        match self {
            Value::Number(n) => Value::Number(*n),
            Value::String(s) => Value::String(s.clone()),
            Value::Boolean(b) => Value::Boolean(*b),
            Value::Nil => Value::Nil,
        }
    }
}

} // verus!
