use vstd::prelude::*;
use vstd::string::*;
use vstd::arithmetic::div_mod::{lemma_mod_add_multiples_vanish, lemma_sub_mod_noop_right};

use crate::term::{TermField, paren};
use crate::text::{decimal, push_decimal};

verus! {

/// A polynomial expression over the columns of a circuit, as its gates,
/// lookups and shuffles state it.
pub enum Expression {
    Constant(TermField),
    Selector(usize),
    Fixed { column: usize, rotation: i32 },
    Advice { column: usize, rotation: i32 },
    Instance { column: usize, rotation: i32 },
    Challenge { index: usize, phase: u8 },
    Negated(Box<Expression>),
    Sum(Box<Expression>, Box<Expression>),
    Product(Box<Expression>, Box<Expression>),
    Scaled(Box<Expression>, TermField),
}

/// The magnitude of a rotation.
pub open spec fn rotation_size(rotation: i32) -> nat {
    if rotation < 0 { (-rotation) as nat } else { rotation as nat }
}

/// The row that a query at `rotation` from the row named `row` reads, in a
/// circuit of `c.n` rows: the row itself, the row `r` further on, or the
/// row `r` before, wrapping around at both ends.
pub open spec fn rotated_row_text(row: Seq<char>, rotation: i32) -> Seq<char> {
    if rotation == 0 {
        row
    } else if rotation > 0 {
        "(("@ + row + " + "@ + decimal(rotation as nat) + ") % c.n)"@
    } else {
        "(("@ + row + " + c.n - ("@ + decimal(rotation_size(rotation)) + " % c.n)) % c.n)"@
    }
}

/// The value of the row expression of `rotated_row_text` at row `row` of a
/// circuit of `n` rows.
pub open spec fn rotated_row(row: nat, rotation: i32, n: nat) -> int {
    if rotation == 0 {
        row as int
    } else if rotation > 0 {
        (row + rotation) % (n as int)
    } else {
        (row + n - (rotation_size(rotation) % n)) % (n as int)
    }
}

/// `accessor column row'`, where `row'` is the rotated row.
pub open spec fn query_text(accessor: Seq<char>, column: usize, rotation: i32, row: Seq<char>) -> Seq<char> {
    accessor + " "@ + decimal(column as nat) + " "@ + rotated_row_text(row, rotation)
}

/// The target-language text of an expression at the row named `row`.
pub open spec fn expression_text(e: Expression, row: Seq<char>) -> Seq<char>
    decreases e,
{
    match e {
        Expression::Constant(v) => paren(v.text()),
        Expression::Selector(s) => "c.get_selector "@ + decimal(s as nat) + " "@ + row,
        Expression::Fixed { column, rotation } => query_text("c.get_fixed"@, column, rotation, row),
        Expression::Advice { column, rotation } => query_text("c.get_advice"@, column, rotation, row),
        Expression::Instance { column, rotation } => query_text("c.get_instance"@, column, rotation, row),
        Expression::Challenge { index, phase } =>
            "c.get_challenge "@ + decimal(index as nat) + " "@ + decimal(phase as nat),
        Expression::Negated(a) => "-"@ + paren(expression_text(*a, row)),
        Expression::Sum(a, b) => paren(expression_text(*a, row)) + " + "@ + paren(expression_text(*b, row)),
        Expression::Product(a, b) => paren(expression_text(*a, row)) + " * "@ + paren(expression_text(*b, row)),
        Expression::Scaled(a, f) => paren(f.text()) + " * "@ + paren(expression_text(*a, row)),
    }
}

fn push_rotated_row(s: &mut String, row: &str, rotation: i32)
    ensures
        final(s)@ == old(s)@ + rotated_row_text(row@, rotation),
{
    if rotation == 0 {
        s.append(row);
    } else if rotation > 0 {
        s.append("((");
        s.append(row);
        s.append(" + ");
        push_decimal(s, rotation as u128);
        s.append(") % c.n)");
    } else {
        let size = (-(rotation as i64)) as u128;
        s.append("((");
        s.append(row);
        s.append(" + c.n - (");
        push_decimal(s, size);
        s.append(" % c.n)) % c.n)");
    }
    proof {
        assert(final(s)@ =~= old(s)@ + rotated_row_text(row@, rotation));
    }
}

fn push_query(s: &mut String, accessor: &str, column: usize, rotation: i32, row: &str)
    ensures
        final(s)@ == old(s)@ + query_text(accessor@, column, rotation, row@),
{
    s.append(accessor);
    s.append(" ");
    push_decimal(s, column as u128);
    s.append(" ");
    push_rotated_row(s, row, rotation);
    proof {
        assert(final(s)@ =~= old(s)@ + query_text(accessor@, column, rotation, row@));
    }
}

/// Appends the text of `e` at the row named `row`.
fn push_expression(s: &mut String, e: &Expression, row: &str)
    ensures
        final(s)@ == old(s)@ + expression_text(*e, row@),
    decreases e,
{
    let ghost s0 = s@;
    proof {
        reveal_strlit("(");
        reveal_strlit(")");
        reveal_strlit("-(");
        reveal_strlit("-");
        reveal_strlit(") + (");
        reveal_strlit(" + ");
        reveal_strlit(") * (");
        reveal_strlit(" * ");
    }
    match e {
        Expression::Constant(v) => {
            s.append("(");
            s.append(v.to_text().as_str());
            s.append(")");
        },
        Expression::Selector(i) => {
            s.append("c.get_selector ");
            push_decimal(s, *i as u128);
            s.append(" ");
            s.append(row);
        },
        Expression::Fixed { column, rotation } => push_query(s, "c.get_fixed", *column, *rotation, row),
        Expression::Advice { column, rotation } => push_query(s, "c.get_advice", *column, *rotation, row),
        Expression::Instance { column, rotation } => push_query(s, "c.get_instance", *column, *rotation, row),
        Expression::Challenge { index, phase } => {
            s.append("c.get_challenge ");
            push_decimal(s, *index as u128);
            s.append(" ");
            push_decimal(s, *phase as u128);
        },
        Expression::Negated(a) => {
            s.append("-(");
            push_expression(s, a, row);
            s.append(")");
        },
        Expression::Sum(a, b) => {
            s.append("(");
            push_expression(s, a, row);
            s.append(") + (");
            push_expression(s, b, row);
            s.append(")");
        },
        Expression::Product(a, b) => {
            s.append("(");
            push_expression(s, a, row);
            s.append(") * (");
            push_expression(s, b, row);
            s.append(")");
        },
        Expression::Scaled(a, f) => {
            s.append("(");
            s.append(f.to_text().as_str());
            s.append(") * (");
            push_expression(s, a, row);
            s.append(")");
        },
    }
    proof {
        assert(s@ =~= s0 + expression_text(*e, row@));
    }
}

/// The target-language text of an expression at the row named `row_name`:
/// queries become accessor calls on the rotated row, and every compound
/// expression puts its operands in parentheses.
pub fn expression_to_value_string(expr: &Expression, row_name: &str) -> (r: String)
    ensures
        r@ == expression_text(*expr, row_name@),
{
    let mut s = String::new();
    push_expression(&mut s, expr, row_name);
    s
}

/// The rotated row expression wraps around: at any row of a circuit of `n`
/// rows, it is the row `rotation` further on, counted modulo `n`.
pub proof fn lemma_rotation_wraps(row: nat, rotation: i32, n: nat)
    requires
        n > 0,
        row < n,
    ensures
        rotated_row(row, rotation, n) == (row + rotation) % (n as int),
        0 <= rotated_row(row, rotation, n) < n,
{
    if rotation == 0 {
        vstd::arithmetic::div_mod::lemma_small_mod(row, n);
    } else if rotation < 0 {
        let a = rotation_size(rotation) as int;
        lemma_sub_mod_noop_right((row + n) as int, a, n as int);
        lemma_mod_add_multiples_vanish(row - a, n as int);
        assert(row + n - a == n + (row - a));
    }
}

} // verus!
