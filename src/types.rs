use vstd::prelude::*;
use vstd::string::*;

use crate::text::{char_text, integer_text, int_text, parse_int, parse_integer};

verus! {

/// The legal shape of a column value.
#[derive(Clone, Copy, Debug, PartialEq, Eq, Structural, Hash)]
pub enum Type {
    Integer,
    Char,
    /// A character drawn from the closed range `[lo, hi]`.
    CharInvl(char, char),
    Real,
    Str,
    /// A string whose characters all lie in `[lo, hi]`; `('\0', '\0')` stands for any such range.
    StrCI(char, char),
}

/// A concrete value. A real number is held as the bit pattern of an IEEE-754 double.
#[derive(Clone, Debug, PartialEq)]
pub enum DBValue {
    Integer(i64),
    Char(char),
    CharInvl(char),
    Real(u64),
    Str(String),
    StrCI(String),
}

/// The mathematical form of a `DBValue`.
pub enum ValueV {
    Integer(i64),
    Char(char),
    CharInvl(char),
    Real(u64),
    Str(Seq<char>),
    StrCI(Seq<char>),
}

impl View for DBValue {
    type V = ValueV;

    open spec fn view(&self) -> ValueV {
        match self {
            DBValue::Integer(i) => ValueV::Integer(*i),
            DBValue::Char(c) => ValueV::Char(*c),
            DBValue::CharInvl(c) => ValueV::CharInvl(*c),
            DBValue::Real(b) => ValueV::Real(*b),
            DBValue::Str(s) => ValueV::Str(s@),
            DBValue::StrCI(s) => ValueV::StrCI(s@),
        }
    }
}

/// `c` lies in the closed range `[lo, hi]`.
pub open spec fn in_range(c: char, lo: char, hi: char) -> bool {
    lo as u32 <= c as u32 && c as u32 <= hi as u32
}

/// The range `[a, b]` is contained in `[c, d]` (an empty range is contained in any).
pub open spec fn range_within(a: char, b: char, c: char, d: char) -> bool {
    (b as u32) < (a as u32) || (in_range(a, c, d) && in_range(b, c, d))
}

impl Type {
    /// Every value of `self` may stand where `other` is expected.
    pub open spec fn subtype_of(self, other: Type) -> bool {
        match (self, other) {
            (Type::Integer, Type::Integer) => true,
            (Type::Char, Type::Char) => true,
            (Type::Real, Type::Real) => true,
            (Type::Str, Type::Str) => true,
            (Type::CharInvl(a, b), Type::CharInvl(c, d)) => range_within(a, b, c, d),
            (Type::StrCI(a, b), Type::StrCI(c, d)) => (a == '\0' && b == '\0') || range_within(
                a,
                b,
                c,
                d,
            ),
            _ => false,
        }
    }

    /// Whether every value of `self` may stand where `other` is expected.
    pub fn is_subtype(&self, other: &Type) -> (r: bool)
        ensures
            r == self.subtype_of(*other),
    {
        match (self, other) {
            (Type::Integer, Type::Integer) => true,
            (Type::Char, Type::Char) => true,
            (Type::Real, Type::Real) => true,
            (Type::Str, Type::Str) => true,
            (Type::CharInvl(a, b), Type::CharInvl(c, d)) => {
                (*b as u32) < (*a as u32) || ((*c as u32) <= (*a as u32) && (*a as u32) <= (
                *d as u32) && (*c as u32) <= (*b as u32) && (*b as u32) <= (*d as u32))
            },
            (Type::StrCI(a, b), Type::StrCI(c, d)) => {
                (*a == '\0' && *b == '\0') || (*b as u32) < (*a as u32) || ((*c as u32) <= (
                *a as u32) && (*a as u32) <= (*d as u32) && (*c as u32) <= (*b as u32) && (
                *b as u32) <= (*d as u32))
            },
            _ => false,
        }
    }

    /// The value that fills a newly added column of this type.
    pub open spec fn default_of(self) -> ValueV {
        match self {
            Type::Integer => ValueV::Integer(0),
            Type::Char => ValueV::Char('\0'),
            Type::CharInvl(lo, _) => ValueV::CharInvl(lo),
            Type::Real => ValueV::Real(0),
            Type::Str => ValueV::Str(Seq::empty()),
            Type::StrCI(_, _) => ValueV::StrCI(Seq::empty()),
        }
    }

    /// The value that fills a newly added column of this type.
    pub fn defvalue(&self) -> (r: DBValue)
        ensures
            r@ == self.default_of(),
    {
        match self {
            Type::Integer => DBValue::Integer(0),
            Type::Char => DBValue::Char('\0'),
            Type::CharInvl(lo, _) => DBValue::CharInvl(*lo),
            Type::Real => DBValue::Real(0),
            Type::Str => DBValue::Str(String::new()),
            Type::StrCI(_, _) => DBValue::StrCI(String::new()),
        }
    }
}

/// The smallest character of a non-empty sequence.
pub open spec fn min_char(s: Seq<char>) -> char
    decreases s.len(),
{
    if s.len() <= 1 {
        s[0]
    } else {
        let m = min_char(s.drop_last());
        if (s.last() as u32) < (m as u32) {
            s.last()
        } else {
            m
        }
    }
}

/// The largest character of a non-empty sequence.
pub open spec fn max_char(s: Seq<char>) -> char
    decreases s.len(),
{
    if s.len() <= 1 {
        s[0]
    } else {
        let m = max_char(s.drop_last());
        if (s.last() as u32) > (m as u32) {
            s.last()
        } else {
            m
        }
    }
}

/// The natural type of a value.
pub open spec fn natural_type(v: ValueV) -> Type {
    match v {
        ValueV::Integer(_) => Type::Integer,
        ValueV::Char(_) => Type::Char,
        ValueV::CharInvl(c) => Type::CharInvl(c, c),
        ValueV::Real(_) => Type::Real,
        ValueV::Str(_) => Type::Str,
        ValueV::StrCI(s) => if s.len() == 0 {
            Type::StrCI('\0', '\0')
        } else {
            Type::StrCI(min_char(s), max_char(s))
        },
    }
}

/// What coercing `v` to `t` may give. Conversions into and out of real numbers
/// depend on floating-point arithmetic that is done outside this library: for those
/// only the variant of the result is fixed, and a parse of a real may fail.
pub open spec fn coerces(v: ValueV, t: Type, r: Option<ValueV>) -> bool {
    if natural_type(v).subtype_of(t) {
        r == Some(v)
    } else {
        match (v, t) {
            (ValueV::Integer(_), Type::Real) => r is Some && r->0 is Real,
            (ValueV::Integer(a), Type::Str) => r == Some(ValueV::Str(int_text(a as int))),
            (ValueV::Real(_), Type::Integer) => r is Some && r->0 is Integer,
            (ValueV::Real(_), Type::Str) => r is Some && r->0 is Str,
            (ValueV::Char(c), Type::Str) => r == Some(ValueV::Str(seq![c])),
            (ValueV::Char(c), Type::CharInvl(lo, hi)) => r == if in_range(c, lo, hi) {
                Some(ValueV::CharInvl(c))
            } else {
                None
            },
            (ValueV::Char(c), Type::StrCI(lo, hi)) => r == if in_range(c, lo, hi) {
                Some(ValueV::StrCI(seq![c]))
            } else {
                None
            },
            (ValueV::CharInvl(c), Type::StrCI(lo, hi)) => r == if in_range(c, lo, hi) {
                Some(ValueV::StrCI(seq![c]))
            } else {
                None
            },
            (ValueV::CharInvl(c), Type::Char) => r == Some(ValueV::Char(c)),
            (ValueV::CharInvl(c), Type::Str) => r == Some(ValueV::Str(seq![c])),
            (ValueV::Str(s), Type::Integer) => r == match parse_int(s) {
                Some(i) => Some(ValueV::Integer(i)),
                None => None,
            },
            (ValueV::Str(_), Type::Real) => r is None || r->0 is Real,
            (ValueV::Str(s), Type::StrCI(_, _)) => r == if natural_type(
                ValueV::StrCI(s),
            ).subtype_of(t) {
                Some(ValueV::StrCI(s))
            } else {
                None
            },
            (ValueV::StrCI(s), Type::Integer) => r == match parse_int(s) {
                Some(i) => Some(ValueV::Integer(i)),
                None => None,
            },
            (ValueV::StrCI(_), Type::Real) => r is None || r->0 is Real,
            (ValueV::StrCI(s), Type::Str) => r == Some(ValueV::Str(s)),
            _ => r is None,
        }
    }
}

/// The floating-point conversions that coercion needs, on reals held as IEEE-754 bits.
pub trait RealOps {
    /// The real nearest to `i`.
    fn from_int(&self, i: i64) -> u64;

    /// The real `bits`, truncated towards zero.
    fn to_int(&self, bits: u64) -> i64;

    /// The decimal text of the real `bits`.
    fn to_text(&self, bits: u64) -> String;

    /// The real that `s` spells, if any.
    fn parse(&self, s: &str) -> Option<u64>;
}

fn copy_string(s: &String) -> (r: String)
    ensures
        r@ == s@,
{
    s.clone()
}

impl DBValue {
    /// A copy with the same view.
    pub fn duplicate(&self) -> (r: DBValue)
        ensures
            r@ == self@,
    {
        match self {
            DBValue::Integer(i) => DBValue::Integer(*i),
            DBValue::Char(c) => DBValue::Char(*c),
            DBValue::CharInvl(c) => DBValue::CharInvl(*c),
            DBValue::Real(b) => DBValue::Real(*b),
            DBValue::Str(s) => DBValue::Str(copy_string(s)),
            DBValue::StrCI(s) => DBValue::StrCI(copy_string(s)),
        }
    }

    /// The value's natural type.
    pub fn get_type(&self) -> (r: Type)
        ensures
            r == natural_type(self@),
    {
        match self {
            DBValue::Integer(_) => Type::Integer,
            DBValue::Char(_) => Type::Char,
            DBValue::CharInvl(c) => Type::CharInvl(*c, *c),
            DBValue::Real(_) => Type::Real,
            DBValue::Str(_) => Type::Str,
            DBValue::StrCI(s) => char_bounds(s.as_str()),
        }
    }

    /// The value converted to type `t`, if the conversion is defined and succeeds;
    /// the value itself when its type is already a subtype of `t`.
    pub fn coerce<R: RealOps>(&self, t: &Type, reals: &R) -> (r: Option<DBValue>)
        ensures
            coerces(
                self@,
                *t,
                match r {
                    Some(v) => Some(v@),
                    None => None,
                },
            ),
    {
        if self.get_type().is_subtype(t) {
            return Some(self.duplicate());
        }
        match (self, t) {
            (DBValue::Integer(a), Type::Real) => Some(DBValue::Real(reals.from_int(*a))),
            (DBValue::Integer(a), Type::Str) => Some(DBValue::Str(integer_text(*a))),
            (DBValue::Real(f), Type::Integer) => Some(DBValue::Integer(reals.to_int(*f))),
            (DBValue::Real(f), Type::Str) => Some(DBValue::Str(reals.to_text(*f))),
            (DBValue::Char(c), Type::Str) => Some(DBValue::Str(char_text(*c))),
            (DBValue::Char(c), Type::CharInvl(lo, hi)) => {
                if (*lo as u32) <= (*c as u32) && (*c as u32) <= (*hi as u32) {
                    Some(DBValue::CharInvl(*c))
                } else {
                    None
                }
            },
            (DBValue::Char(c), Type::StrCI(lo, hi)) | (DBValue::CharInvl(c), Type::StrCI(lo, hi)) => {
                if (*lo as u32) <= (*c as u32) && (*c as u32) <= (*hi as u32) {
                    Some(DBValue::StrCI(char_text(*c)))
                } else {
                    None
                }
            },
            (DBValue::CharInvl(c), Type::Char) => Some(DBValue::Char(*c)),
            (DBValue::CharInvl(c), Type::Str) => Some(DBValue::Str(char_text(*c))),
            (DBValue::Str(s), Type::Integer) | (DBValue::StrCI(s), Type::Integer) => {
                match parse_integer(s.as_str()) {
                    Some(i) => Some(DBValue::Integer(i)),
                    None => None,
                }
            },
            (DBValue::Str(s), Type::Real) | (DBValue::StrCI(s), Type::Real) => {
                match reals.parse(s.as_str()) {
                    Some(b) => Some(DBValue::Real(b)),
                    None => None,
                }
            },
            (DBValue::Str(s), Type::StrCI(_, _)) => {
                let ci = DBValue::StrCI(copy_string(s));
                if ci.get_type().is_subtype(t) {
                    Some(ci)
                } else {
                    None
                }
            },
            (DBValue::StrCI(s), Type::Str) => Some(DBValue::Str(copy_string(s))),
            _ => None,
        }
    }
}

/// The natural type of a case-interval string: the range from its smallest to its
/// largest character.
fn char_bounds(s: &str) -> (r: Type)
    ensures
        r == natural_type(ValueV::StrCI(s@)),
{
    let n = s.unicode_len();
    if n == 0 {
        return Type::StrCI('\0', '\0');
    }
    let mut lo = s.get_char(0);
    let mut hi = lo;
    let mut i: usize = 1;
    while i < n
        invariant
            1 <= i <= n,
            n == s@.len(),
            lo == min_char(s@.subrange(0, i as int)),
            hi == max_char(s@.subrange(0, i as int)),
        decreases n - i,
    {
        let c = s.get_char(i);
        assert(s@.subrange(0, i + 1).drop_last() == s@.subrange(0, i as int));
        if (c as u32) < (lo as u32) {
            lo = c;
        }
        if (c as u32) > (hi as u32) {
            hi = c;
        }
        i = i + 1;
    }
    assert(s@.subrange(0, n as int) == s@);
    Type::StrCI(lo, hi)
}

} // verus!
