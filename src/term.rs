use vstd::prelude::*;
use vstd::string::*;

use crate::text::{decimal, push_decimal};
use num_bigint::BigUint;

verus! {

/// A symbolic field element: the additive identity, the multiplicative
/// identity, or the text of an expression in the target language.
pub enum TermField {
    Zero,
    One,
    Expr(String),
}

/// `(s)`.
pub open spec fn paren(s: Seq<char>) -> Seq<char> {
    seq!['('] + s + seq![')']
}

/// `(a) op (b)`.
pub open spec fn binary_text(a: Seq<char>, op: Seq<char>, b: Seq<char>) -> Seq<char> {
    paren(a) + op + paren(b)
}

pub open spec fn plus_op() -> Seq<char> {
    seq![' ', '+', ' ']
}

pub open spec fn minus_op() -> Seq<char> {
    seq![' ', '-', ' ']
}

pub open spec fn times_op() -> Seq<char> {
    seq![' ', '*', ' ']
}

/// `-(a)`.
pub open spec fn negated_text(a: Seq<char>) -> Seq<char> {
    seq!['-'] + paren(a)
}

pub open spec fn zero_text() -> Seq<char> {
    seq!['0']
}

pub open spec fn one_text() -> Seq<char> {
    seq!['1']
}

impl TermField {
    /// The text that renders this term.
    pub open spec fn text(&self) -> Seq<char> {
        match self {
            TermField::Zero => zero_text(),
            TermField::One => one_text(),
            TermField::Expr(s) => s@,
        }
    }

    /// An expression never holds the text of an identity: `0` and `1` are
    /// always represented by `Zero` and `One`.
    pub open spec fn wf(&self) -> bool {
        match self {
            TermField::Expr(s) => s@ != zero_text() && s@ != one_text(),
            _ => true,
        }
    }

    /// `r` is what `self + rhs` gives: an identity operand is absorbed,
    /// otherwise the texts are composed.
    pub open spec fn is_sum(self, rhs: TermField, r: TermField) -> bool {
        if self is Zero {
            r == rhs
        } else if rhs is Zero {
            r == self
        } else {
            r is Expr && r.text() == binary_text(self.text(), plus_op(), rhs.text())
        }
    }

    /// `r` is what `self - rhs` gives.
    pub open spec fn is_difference(self, rhs: TermField, r: TermField) -> bool {
        if rhs is Zero {
            r == self
        } else if self is Zero {
            r is Expr && r.text() == negated_text(rhs.text())
        } else {
            r is Expr && r.text() == binary_text(self.text(), minus_op(), rhs.text())
        }
    }

    /// `r` is what `self * rhs` gives: a zero operand gives zero, a one
    /// operand is absorbed, otherwise the texts are composed.
    pub open spec fn is_product(self, rhs: TermField, r: TermField) -> bool {
        if self is Zero || rhs is Zero {
            r is Zero
        } else if self is One {
            r == rhs
        } else if rhs is One {
            r == self
        } else {
            r is Expr && r.text() == binary_text(self.text(), times_op(), rhs.text())
        }
    }

    /// `r` is what `-self` gives.
    pub open spec fn is_negation(self, r: TermField) -> bool {
        if self is Zero {
            r is Zero
        } else {
            r is Expr && r.text() == negated_text(self.text())
        }
    }

    pub fn zero() -> (r: Self)
        ensures
            r is Zero,
    {
        TermField::Zero
    }

    pub fn one() -> (r: Self)
        ensures
            r is One,
    {
        TermField::One
    }

    /// The inverse of two in the field.
    pub fn two_inv() -> (r: Self)
        ensures
            r.wf(),
            r.text() == "(2: ZMod P).inv"@,
    {
        proof {
            reveal_strlit("(2: ZMod P).inv");
        }
        TermField::Expr(String::from_str("(2: ZMod P).inv"))
    }

    /// A free symbol of the circuit, declared as the circuit record's field
    /// `sym_<name>`.
    pub fn create_symbol(name: &str) -> (r: Self)
        ensures
            r.wf(),
            r is Expr,
            r.text() == "c.1.sym_"@ + name@,
    {
        proof {
            reveal_strlit("c.1.sym_");
        }
        let mut s = String::from_str("c.1.sym_");
        s.append(name);
        proof {
            assert(s@[0] == 'c');
        }
        TermField::Expr(s)
    }

    /// The two-adicity `S` of the field, as a symbol.
    pub fn create_s() -> (r: Self)
        ensures
            r.wf(),
            r.text() == "S"@,
    {
        TermField::from_text("S")
    }

    /// Reads a term from its text: `0` and `1` become the identities.
    pub fn from_text(s: &str) -> (r: Self)
        ensures
            r.wf(),
            r.text() == s@,
            r is Zero <==> s@ == zero_text(),
            r is One <==> s@ == one_text(),
    {
        if s.unicode_len() == 1 {
            let c = s.get_char(0);
            if c == '0' {
                assert(s@ =~= zero_text());
                return TermField::Zero;
            } else if c == '1' {
                assert(s@ =~= one_text());
                return TermField::One;
            }
        }
        TermField::Expr(String::from_str(s))
    }

    /// The term of the number whose 64 little-endian bytes are given.
    pub fn from_uniform_bytes(bytes: &[u8; 64]) -> (r: Self)
        ensures
            r.wf(),
            r.text() == decimal(le_value(bytes@)),
    {
        let s = decimal_of_le_bytes(bytes.as_slice());
        TermField::from_text(s.as_str())
    }

    /// One for true, zero for false.
    pub fn from_bool(b: bool) -> (r: Self)
        ensures
            b ==> r is One,
            !b ==> r is Zero,
    {
        if b { TermField::One } else { TermField::Zero }
    }

    /// The term of an unsigned integer.
    pub fn from_u64(n: u64) -> (r: Self)
        ensures
            r.wf(),
            r.text() == decimal(n as nat),
            r is Zero <==> n == 0,
            r is One <==> n == 1,
    {
        if n == 0 {
            assert(decimal(0) == zero_text());
            TermField::Zero
        } else if n == 1 {
            assert(decimal(1) == one_text());
            TermField::One
        } else {
            let mut s = String::new();
            push_decimal(&mut s, n as u128);
            proof {
                lemma_decimal_of_large(n as nat);
            }
            TermField::Expr(s)
        }
    }

    /// The text `(a) op (b)` as an expression.
    fn compose(a: &TermField, op: &str, b: &TermField) -> (r: TermField)
        ensures
            r is Expr,
            r.wf(),
            r.text() == binary_text(a.text(), op@, b.text()),
    {
        proof {
            reveal_strlit("(");
            reveal_strlit(")");
        }
        let mut s = String::from_str("(");
        s.append(a.to_text().as_str());
        s.append(")");
        s.append(op);
        s.append("(");
        s.append(b.to_text().as_str());
        s.append(")");
        proof {
            assert(s@ =~= binary_text(a.text(), op@, b.text()));
            assert(s@[0] == '(');
        }
        TermField::Expr(s)
    }

    /// `self + rhs`, absorbing a zero operand.
    pub fn add(self, rhs: TermField) -> (r: TermField)
        requires
            self.wf(),
            rhs.wf(),
        ensures
            r.wf(),
            self.is_sum(rhs, r),
    {
        if self.is_zero() {
            rhs
        } else if rhs.is_zero() {
            self
        } else {
            proof {
                reveal_strlit(" + ");
                assert(" + "@ =~= plus_op());
            }
            TermField::compose(&self, " + ", &rhs)
        }
    }

    /// `self - rhs`, absorbing a zero operand.
    pub fn sub(self, rhs: TermField) -> (r: TermField)
        requires
            self.wf(),
            rhs.wf(),
        ensures
            r.wf(),
            self.is_difference(rhs, r),
    {
        if rhs.is_zero() {
            self
        } else if self.is_zero() {
            rhs.neg()
        } else {
            proof {
                reveal_strlit(" - ");
                assert(" - "@ =~= minus_op());
            }
            TermField::compose(&self, " - ", &rhs)
        }
    }

    /// `self * rhs`: zero absorbs, one is absorbed.
    pub fn mul(self, rhs: TermField) -> (r: TermField)
        requires
            self.wf(),
            rhs.wf(),
        ensures
            r.wf(),
            self.is_product(rhs, r),
    {
        if self.is_zero() || rhs.is_zero() {
            TermField::Zero
        } else if self.is_one() {
            rhs
        } else if rhs.is_one() {
            self
        } else {
            proof {
                reveal_strlit(" * ");
                assert(" * "@ =~= times_op());
            }
            TermField::compose(&self, " * ", &rhs)
        }
    }

    /// `-self`; the negation of zero is zero.
    pub fn neg(self) -> (r: TermField)
        requires
            self.wf(),
        ensures
            r.wf(),
            self.is_negation(r),
    {
        if self.is_zero() {
            TermField::Zero
        } else {
            proof {
                reveal_strlit("-(");
                reveal_strlit(")");
            }
            let mut s = String::from_str("-(");
            s.append(self.to_text().as_str());
            s.append(")");
            proof {
                assert(s@ =~= negated_text(self.text()));
                assert(s@[0] == '-');
            }
            TermField::Expr(s)
        }
    }

    /// `self * self`.
    pub fn square(&self) -> (r: TermField)
        requires
            self.wf(),
        ensures
            r.wf(),
            self.is_product(*self, r),
    {
        self.duplicate().mul(self.duplicate())
    }

    /// `2 * self`.
    pub fn double(&self) -> (r: TermField)
        requires
            self.wf(),
        ensures
            r.wf(),
            *self is Zero ==> r is Zero,
            *self is One ==> r is Expr && r.text() == "2"@,
            self is Expr ==> r is Expr && r.text() == binary_text("2"@, times_op(), self.text()),
    {
        let two = TermField::from_u64(2);
        proof {
            reveal_strlit("2");
            assert(decimal(2) =~= "2"@);
        }
        two.mul(self.duplicate())
    }

    /// A copy of the term.
    pub fn duplicate(&self) -> (r: TermField)
        ensures
            r == *self,
    {
        match self {
            TermField::Zero => TermField::Zero,
            TermField::One => TermField::One,
            TermField::Expr(s) => TermField::Expr(s.clone()),
        }
    }

    /// The inverse of the term, as a placeholder expression. Nothing checks
    /// that the term is not zero: the text is an obligation for the target
    /// language, not a computed value.
    pub fn invert_unchecked(&self) -> (r: TermField)
        ensures
            r is Expr,
            r.wf(),
            r.text() == "(("@ + self.text() + ": ZMod P).inv)"@,
    {
        proof {
            reveal_strlit("((");
            reveal_strlit(": ZMod P).inv)");
        }
        let mut s = String::from_str("((");
        s.append(self.to_text().as_str());
        s.append(": ZMod P).inv)");
        proof {
            assert(s@[0] == '(');
        }
        TermField::Expr(s)
    }

    /// Syntactic equality of two terms. Two different texts may denote the
    /// same field element, so a difference is only reported where the caller
    /// accepts that it says nothing of the values.
    pub fn eq_checked(&self, other: &TermField, unsafe_equality: bool) -> (r: bool)
        requires
            unsafe_equality || self.text() == other.text(),
        ensures
            r == (self.text() == other.text()),
    {
        let a = self.to_text();
        let b = other.to_text();
        a == b
    }

    pub fn is_zero(&self) -> (r: bool)
        ensures
            r == (*self is Zero),
    {
        match self {
            TermField::Zero => true,
            _ => false,
        }
    }

    pub fn is_one(&self) -> (r: bool)
        ensures
            r == (*self is One),
    {
        match self {
            TermField::One => true,
            _ => false,
        }
    }

    /// The text of the term.
    pub fn to_text(&self) -> (r: String)
        ensures
            r@ == self.text(),
    {
        proof {
            reveal_strlit("0");
            reveal_strlit("1");
        }
        match self {
            TermField::Zero => String::from_str("0"),
            TermField::One => String::from_str("1"),
            TermField::Expr(s) => s.clone(),
        }
    }
}

/// The number that little-endian bytes stand for.
pub open spec fn le_value(bytes: Seq<u8>) -> nat
    decreases bytes.len(),
{
    if bytes.len() == 0 {
        0
    } else {
        bytes[0] as nat + 256 * le_value(bytes.drop_first())
    }
}

/// Relies on num_bigint's `BigUint::from_bytes_le` (the number whose
/// little-endian bytes are given) and `BigUint::to_str_radix` with radix 10
/// (its decimal digits, `0` for zero, no leading zeros).
#[verifier::external_body]
fn decimal_of_le_bytes(bytes: &[u8]) -> (r: String)
    ensures
        r@ == decimal(le_value(bytes@)),
{
    BigUint::from_bytes_le(bytes).to_str_radix(10)
}

/// The identity laws of the symbolic arithmetic. Adding zero and multiplying
/// by one give the other operand back, in either order; multiplying by zero
/// gives zero. A sum, difference or product is only ever composed from
/// operands that are not the zero term, so the text of zero never stands as
/// an operand inside a composed expression.
pub proof fn lemma_identity_laws(x: TermField, y: TermField, r: TermField)
    requires
        x.wf(),
        y.wf(),
    ensures
        x.is_sum(TermField::Zero, r) ==> r == x,
        TermField::Zero.is_sum(x, r) ==> r == x,
        x.is_difference(TermField::Zero, r) ==> r == x,
        x.is_product(TermField::One, r) ==> r == x,
        TermField::One.is_product(x, r) ==> r == x,
        x.is_product(TermField::Zero, r) ==> r is Zero,
        x.is_sum(y, r) && r.text() == binary_text(x.text(), plus_op(), y.text())
            ==> !(x is Zero) && !(y is Zero),
        x.is_difference(y, r) && r.text() == binary_text(x.text(), minus_op(), y.text())
            ==> !(x is Zero) && !(y is Zero),
        x.is_product(y, r) && r.text() == binary_text(x.text(), times_op(), y.text())
            ==> !(x is Zero) && !(y is Zero),
{
    let bs = binary_text(x.text(), plus_op(), y.text());
    let bd = binary_text(x.text(), minus_op(), y.text());
    let bp = binary_text(x.text(), times_op(), y.text());
    assert(bs.len() > x.text().len() && bs.len() > y.text().len());
    assert(bd.len() > x.text().len() && bd.len() > y.text().len() && bd.len() > 1);
    assert(bp.len() > 1);
    if x is One {
        assert(TermField::One.is_product(x, r) ==> r == x);
    }
}

/// A number of two or more digits is neither `0` nor `1`.
proof fn lemma_decimal_of_large(n: nat)
    requires
        n >= 2,
    ensures
        decimal(n) != zero_text(),
        decimal(n) != one_text(),
{
    if n < 10 {
        assert(decimal(n) == seq![crate::text::digit_char(n)]);
        assert(decimal(n)[0] != '0');
        assert(decimal(n)[0] != '1');
    } else {
        lemma_decimal_nonempty((n / 10) as nat);
        assert(decimal(n).len() >= 2);
    }
}

proof fn lemma_decimal_nonempty(n: nat)
    ensures
        decimal(n).len() >= 1,
    decreases n,
{
    if n >= 10 {
        lemma_decimal_nonempty((n / 10) as nat);
    }
}

} // verus!
