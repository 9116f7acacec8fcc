use vstd::prelude::*;
use vstd::string::*;

use crate::circuit::{Argument, ConstraintSystemMetadata, Gate};
use crate::emit::GROUPING_SIZE;
use crate::expr::{Expression, expression_text, expression_to_value_string};
use crate::grouping::{PropTree, grouped_props_text, grouped_text};
use crate::term::TermField;
use crate::text::{concat_all, decimal, join, joined, push_decimal};

verus! {

/// A polynomial that is the constant zero, and so holds trivially.
pub open spec fn is_trivial(p: Expression) -> bool {
    p matches Expression::Constant(TermField::Zero)
}

/// `Gate number <g> name: "<name>" part <p>/<n> <constraint>`, counting
/// from one.
pub open spec fn gate_label(gi: nat, g: Gate, pi: nat) -> Seq<char> {
    "Gate number "@ + decimal(gi + 1) + " name: \""@ + g.name@ + "\" part "@ + decimal(pi + 1) + "/"@
        + decimal(g.polynomials@.len()) + " "@ + g.constraint_name(pi as int)
}

/// The proposition that polynomial `pi` of gate `gi` is zero on every row.
pub open spec fn gate_prop(gi: nat, g: Gate, pi: nat) -> Seq<char> {
    "-- "@ + gate_label(gi, g, pi) + "\n  ∀ row: ℕ, "@ + expression_text(g.polynomials@[pi as int], "row"@) + " = 0"@
}

/// The comment that stands for a trivially true polynomial.
pub open spec fn gate_comment(gi: nat, g: Gate, pi: nat) -> Seq<char> {
    "  -- "@ + gate_label(gi, g, pi) + " is trivially true\n"@
}

/// The comments and the propositions of the first `gi` gates and of the
/// first `pi` polynomials of gate `gi`.
pub open spec fn gate_parts(gates: Seq<Gate>, gi: nat, pi: nat) -> (Seq<char>, Seq<Seq<char>>)
    decreases gi, pi,
{
    if pi == 0 {
        if gi == 0 || gi > gates.len() {
            (Seq::empty(), Seq::empty())
        } else {
            gate_parts(gates, (gi - 1) as nat, gates[gi - 1].polynomials@.len())
        }
    } else if gi >= gates.len() {
        (Seq::empty(), Seq::empty())
    } else {
        let prev = gate_parts(gates, gi, (pi - 1) as nat);
        let g = gates[gi as int];
        if is_trivial(g.polynomials@[pi - 1]) {
            (prev.0 + gate_comment(gi, g, (pi - 1) as nat), prev.1)
        } else {
            (prev.0, prev.1.push(gate_prop(gi, g, (pi - 1) as nat)))
        }
    }
}

fn push_gate_label(s: &mut String, gi: usize, g: &Gate, pi: usize)
    requires
        pi < g.polynomials@.len(),
    ensures
        final(s)@ == old(s)@ + gate_label(gi as nat, *g, pi as nat),
{
    s.append("Gate number ");
    push_decimal(s, gi as u128 + 1);
    s.append(" name: \"");
    s.append(g.name.as_str());
    s.append("\" part ");
    push_decimal(s, pi as u128 + 1);
    s.append("/");
    push_decimal(s, g.polynomials.len() as u128);
    s.append(" ");
    if pi < g.constraint_names.len() {
        s.append(g.constraint_names[pi].as_str());
    }
    proof {
        assert(final(s)@ =~= old(s)@ + gate_label(gi as nat, *g, pi as nat));
    }
}

fn is_zero_constant(p: &Expression) -> (r: bool)
    ensures
        r == is_trivial(*p),
{
    match p {
        Expression::Constant(v) => v.is_zero(),
        _ => false,
    }
}

/// `text` states the gates of `cs`.
pub open spec fn gates_section_ok(cs: &ConstraintSystemMetadata, text: Seq<char>) -> bool {
    exists|t: PropTree| {
        let parts = gate_parts(cs.gates@, cs.gates@.len(), 0);
        &&& t.atoms == parts.1.len()
        &&& t.has_shape(GROUPING_SIZE as nat)
        &&& #[trigger] t.equivalent_to_all_atoms()
        &&& t.bounded_by(GROUPING_SIZE as nat)
        &&& text == parts.0 + grouped_text("gate_"@, "all_gates"@, parts.1, t)
    }
}

/// The text of the gates: a comment for each polynomial that is trivially zero,
/// then the propositions that the other polynomials are zero on every row,
/// grouped under `all_gates`.
pub fn gates_text(cs: &ConstraintSystemMetadata) -> (r: String)
    requires
        cs.wf(),
        gate_parts(cs.gates@, cs.gates@.len(), 0).1.len() < usize::MAX / 2,
    ensures
        gates_section_ok(cs, r@),
{
    let mut comments = String::new();
    let mut props: Vec<String> = Vec::new();
    let mut gi: usize = 0;
    while gi < cs.gates.len()
        invariant
            cs.wf(),
            gi <= cs.gates@.len(),
            comments@ == gate_parts(cs.gates@, gi as nat, 0).0,
            props@.map_values(|p: String| p@) == gate_parts(cs.gates@, gi as nat, 0).1,
        decreases cs.gates@.len() - gi,
    {
        let g = &cs.gates[gi];
        let mut pi: usize = 0;
        while pi < g.polynomials.len()
            invariant
                cs.wf(),
                gi < cs.gates@.len(),
                *g == cs.gates@[gi as int],
                pi <= g.polynomials@.len(),
                comments@ == gate_parts(cs.gates@, gi as nat, pi as nat).0,
                props@.map_values(|p: String| p@) == gate_parts(cs.gates@, gi as nat, pi as nat).1,
            decreases g.polynomials@.len() - pi,
        {
            if is_zero_constant(&g.polynomials[pi]) {
                comments.append("  -- ");
                push_gate_label(&mut comments, gi, g, pi);
                comments.append(" is trivially true\n");
            } else {
                let mut p = String::from_str("-- ");
                push_gate_label(&mut p, gi, g, pi);
                p.append("\n  ∀ row: ℕ, ");
                p.append(expression_to_value_string(&g.polynomials[pi], "row").as_str());
                p.append(" = 0");
                let ghost before = props@.map_values(|p: String| p@);
                props.push(p);
                proof {
                    assert(props@.map_values(|p: String| p@) =~= before.push(gate_prop(gi as nat, *g, pi as nat)));
                }
            }
            proof {
                assert(comments@ =~= gate_parts(cs.gates@, gi as nat, pi as nat + 1).0);
            }
            pi = pi + 1;
        }
        proof {
            assert(gate_parts(cs.gates@, gi as nat + 1, 0) == gate_parts(cs.gates@, gi as nat, g.polynomials@.len()));
        }
        gi = gi + 1;
    }
    let body = grouped_props_text("gate_", "all_gates", &props, GROUPING_SIZE);
    comments.append(body.as_str());
    comments
}


/// The texts of the expressions at the row named `row`, separated by commas.
pub open spec fn expressions_text(es: Seq<Expression>, row: Seq<char>) -> Seq<char> {
    joined(es.map_values(|e: Expression| expression_text(e, row)), ", "@)
}

fn expressions_joined(es: &Vec<Expression>, row: &str) -> (r: String)
    ensures
        r@ == expressions_text(es@, row@),
{
    let mut parts: Vec<String> = Vec::new();
    let mut i: usize = 0;
    while i < es.len()
        invariant
            i <= es@.len(),
            parts@.len() == i,
            forall|x: int| 0 <= x < i ==> #[trigger] parts@[x]@ == expression_text(es@[x], row@),
        decreases es@.len() - i,
    {
        parts.push(expression_to_value_string(&es[i], row));
        i = i + 1;
    }
    let r = join(&parts, ", ");
    proof {
        assert(parts@.map_values(|p: String| p@) =~= es@.map_values(|e: Expression| expression_text(e, row@)));
    }
    r
}

/// The proposition of lookup `idx`: every usable row's inputs equal the
/// table's expressions at some usable row.
pub open spec fn lookup_prop(idx: nat, l: Argument) -> Seq<char> {
    "∀ row : ℕ, row < c.usable_rows → ∃ lookup_row : ℕ, lookup_row < c.usable_rows ∧ -- Lookup number "@
        + decimal(idx + 1) + " name: \""@ + l.name@ + "\"\n  ("@ + expressions_text(l.input_expressions@, "row"@)
        + ") = ("@ + expressions_text(l.table_expressions@, "lookup_row"@) + ")\n  "@
}

/// `text` is the lookup section.
pub open spec fn lookups_section_ok(cs: &ConstraintSystemMetadata, text: Seq<char>) -> bool {
    exists|t: PropTree| {
        &&& t.atoms == cs.lookups@.len()
        &&& t.has_shape(GROUPING_SIZE as nat)
        &&& #[trigger] t.equivalent_to_all_atoms()
        &&& t.bounded_by(GROUPING_SIZE as nat)
        &&& text == grouped_text("lookup_"@, "all_lookups"@,
            Seq::new(cs.lookups@.len(), |i: int| lookup_prop(i as nat, cs.lookups@[i])), t)
    }
}

/// The lookup section: one proposition per lookup, grouped under
/// `all_lookups`.
pub fn lookups_text(cs: &ConstraintSystemMetadata) -> (r: String)
    requires
        cs.wf(),
    ensures
        lookups_section_ok(cs, r@),
{
    let mut props: Vec<String> = Vec::new();
    let mut i: usize = 0;
    while i < cs.lookups.len()
        invariant
            i <= cs.lookups@.len(),
            props@.len() == i,
            forall|x: int| 0 <= x < i ==> #[trigger] props@[x]@ == lookup_prop(x as nat, cs.lookups@[x]),
        decreases cs.lookups@.len() - i,
    {
        let l = &cs.lookups[i];
        let mut p = String::from_str(
            "∀ row : ℕ, row < c.usable_rows → ∃ lookup_row : ℕ, lookup_row < c.usable_rows ∧ -- Lookup number ");
        push_decimal(&mut p, i as u128 + 1);
        p.append(" name: \"");
        p.append(l.name.as_str());
        p.append("\"\n  (");
        p.append(expressions_joined(&l.input_expressions, "row").as_str());
        p.append(") = (");
        p.append(expressions_joined(&l.table_expressions, "lookup_row").as_str());
        p.append(")\n  ");
        proof {
            assert(p@ =~= lookup_prop(i as nat, cs.lookups@[i as int]));
        }
        props.push(p);
        i = i + 1;
    }
    proof {
        assert(props@.map_values(|p: String| p@)
            =~= Seq::new(cs.lookups@.len(), |i: int| lookup_prop(i as nat, cs.lookups@[i])));
    }
    grouped_props_text("lookup_", "all_lookups", &props, GROUPING_SIZE)
}

/// A name with every `_` doubled and every space made a `_`, so that it is
/// an identifier and two names stay apart.
pub open spec fn mangled(name: Seq<char>) -> Seq<char>
    decreases name.len(),
{
    if name.len() == 0 {
        Seq::empty()
    } else {
        mangled(name.drop_last()) + if name.last() == '_' {
            "__"@
        } else if name.last() == ' ' {
            "_"@
        } else {
            seq![name.last()]
        }
    }
}

fn push_mangled(s: &mut String, name: &str)
    ensures
        final(s)@ == old(s)@ + mangled(name@),
{
    let ghost s0 = s@;
    let n = name.unicode_len();
    let mut i: usize = 0;
    while i < n
        invariant
            n == name@.len(),
            i <= n,
            s@ == s0 + mangled(name@.subrange(0, i as int)),
        decreases n - i,
    {
        let c = name.get_char(i);
        proof {
            assert(name@.subrange(0, i as int + 1).drop_last() =~= name@.subrange(0, i as int));
        }
        if c == '_' {
            s.append("__");
        } else if c == ' ' {
            s.append("_");
        } else {
            s.append(name.substring_char(i, i + 1));
        }
        proof {
            assert(s@ =~= s0 + mangled(name@.subrange(0, i as int + 1)));
        }
        i = i + 1;
    }
    proof {
        assert(name@.subrange(0, n as int) =~= name@);
    }
}

/// The definition of shuffle `sh`: some permutation of the rows, fixing the
/// rows from the usable ones on, takes the shuffled expressions onto the
/// inputs on every usable row.
pub open spec fn shuffle_def(sh: Argument) -> Seq<char> {
    "def shuffle_"@ + mangled(sh.name@)
        + " (c: ValidCircuit P P_Prime): Prop := ∃ shuffle, is_shuffle c shuffle ∧ (∀ row : ℕ, row < c.usable_rows → ("@
        + expressions_text(sh.input_expressions@, "row"@) + ") = ("@
        + expressions_text(sh.table_expressions@, "(shuffle row)"@) + "))\n"@
}

/// The shuffle section: one definition per shuffle, then `all_shuffles`,
/// their conjunction (`true` when there is none).
pub open spec fn shuffles_section(shuffles: Seq<Argument>) -> Seq<char> {
    concat_all(Seq::new(shuffles.len(), |i: int| shuffle_def(shuffles[i])))
        + "def all_shuffles (c: ValidCircuit P P_Prime) : Prop := "@
        + (if shuffles.len() == 0 {
            "true"@
        } else {
            joined(shuffles.map_values(|sh: Argument| "shuffle_"@ + mangled(sh.name@) + " c"@), " ∧ "@)
        })
        + "\n"@
}

pub fn shuffles_text(cs: &ConstraintSystemMetadata) -> (r: String)
    ensures
        r@ == shuffles_section(cs.shuffles@),
{
    let mut r = String::new();
    let mut refs: Vec<String> = Vec::new();
    let mut i: usize = 0;
    while i < cs.shuffles.len()
        invariant
            i <= cs.shuffles@.len(),
            refs@.len() == i,
            forall|x: int| 0 <= x < i ==> #[trigger] refs@[x]@ == "shuffle_"@ + mangled(cs.shuffles@[x].name@) + " c"@,
            r@ == concat_all(Seq::new(i as nat, |x: int| shuffle_def(cs.shuffles@[x]))),
        decreases cs.shuffles@.len() - i,
    {
        let sh = &cs.shuffles[i];
        let ghost before = r@;
        r.append("def shuffle_");
        push_mangled(&mut r, sh.name.as_str());
        r.append(" (c: ValidCircuit P P_Prime): Prop := ∃ shuffle, is_shuffle c shuffle ∧ (∀ row : ℕ, row < c.usable_rows → (");
        r.append(expressions_joined(&sh.input_expressions, "row").as_str());
        r.append(") = (");
        r.append(expressions_joined(&sh.table_expressions, "(shuffle row)").as_str());
        r.append("))\n");
        let mut name = String::from_str("shuffle_");
        push_mangled(&mut name, sh.name.as_str());
        name.append(" c");
        refs.push(name);
        proof {
            let b = Seq::new(i as nat, |x: int| shuffle_def(cs.shuffles@[x]));
            let a = Seq::new(i as nat + 1, |x: int| shuffle_def(cs.shuffles@[x]));
            assert(a.drop_last() =~= b);
            assert(r@ =~= before + shuffle_def(cs.shuffles@[i as int]));
        }
        i = i + 1;
    }
    r.append("def all_shuffles (c: ValidCircuit P P_Prime) : Prop := ");
    if refs.len() == 0 {
        r.append("true");
    } else {
        r.append(join(&refs, " ∧ ").as_str());
        proof {
            assert(refs@.map_values(|p: String| p@)
                =~= cs.shuffles@.map_values(|sh: Argument| "shuffle_"@ + mangled(sh.name@) + " c"@));
        }
    }
    r.append("\n");
    proof {
        assert(r@ =~= shuffles_section(cs.shuffles@));
    }
    r
}


/// The number of gate polynomials that are not trivially zero, or
/// `usize::MAX` where there are at least that many.
pub fn gate_count(cs: &ConstraintSystemMetadata) -> (r: usize)
    ensures
        r == gate_parts(cs.gates@, cs.gates@.len(), 0).1.len()
            || (r == usize::MAX && gate_parts(cs.gates@, cs.gates@.len(), 0).1.len() >= usize::MAX),
{
    let mut count: usize = 0;
    let mut gi: usize = 0;
    while gi < cs.gates.len()
        invariant
            gi <= cs.gates@.len(),
            count == gate_parts(cs.gates@, gi as nat, 0).1.len()
                || (count == usize::MAX && gate_parts(cs.gates@, gi as nat, 0).1.len() >= usize::MAX),
        decreases cs.gates@.len() - gi,
    {
        let g = &cs.gates[gi];
        let mut pi: usize = 0;
        while pi < g.polynomials.len()
            invariant
                gi < cs.gates@.len(),
                *g == cs.gates@[gi as int],
                pi <= g.polynomials@.len(),
                count == gate_parts(cs.gates@, gi as nat, pi as nat).1.len()
                    || (count == usize::MAX && gate_parts(cs.gates@, gi as nat, pi as nat).1.len() >= usize::MAX),
            decreases g.polynomials@.len() - pi,
        {
            if !is_zero_constant(&g.polynomials[pi]) && count < usize::MAX {
                count = count + 1;
            }
            pi = pi + 1;
        }
        proof {
            assert(gate_parts(cs.gates@, gi as nat + 1, 0) == gate_parts(cs.gates@, gi as nat, g.polynomials@.len()));
        }
        gi = gi + 1;
    }
    count
}

} // verus!
