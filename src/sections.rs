use vstd::prelude::*;
use vstd::string::*;

use crate::annotations::{ColumnAnnotations, annotation_text, annotations_wf, get_group_annotations, make_lean_comment, rows_between};
use crate::circuit::ConstraintSystemMetadata;
use crate::constraints::{gate_parts, gates_section_ok, gates_text, lookups_section_ok, lookups_text, shuffles_section, shuffles_text};
use crate::emit::GROUPING_SIZE;
use crate::grouping::{PropTree, grouped_props_text, grouped_text};
use crate::recorder::{Column, ColumnKind, ExtractingAssignment};
use crate::rowmap::{RowMap, lemma_entry_in_map};
use crate::runs::is_value_groups;
use crate::text::{concat_all, decimal, lean_comment, push_decimal};

verus! {

/// The accessor of a cell: `c.get_advice <col> <row>` and so on.
pub open spec fn cell_text(col: Column, row: usize) -> Seq<char> {
    let accessor = match col.kind {
        ColumnKind::Advice => "c.get_advice "@,
        ColumnKind::Fixed => "c.get_fixed "@,
        ColumnKind::Instance => "c.get_instance "@,
    };
    accessor + decimal(col.index as nat) + " "@ + decimal(row as nat)
}

/// The proposition of a copy constraint: the two cells are equal.
pub open spec fn copy_prop(cp: ((Column, usize), (Column, usize))) -> Seq<char> {
    cell_text(cp.0.0, cp.0.1) + " = "@ + cell_text(cp.1.0, cp.1.1)
}

fn push_cell(s: &mut String, col: Column, row: usize)
    ensures
        final(s)@ == old(s)@ + cell_text(col, row),
{
    match col.kind {
        ColumnKind::Advice => s.append("c.get_advice "),
        ColumnKind::Fixed => s.append("c.get_fixed "),
        ColumnKind::Instance => s.append("c.get_instance "),
    }
    push_decimal(s, col.index as u128);
    s.append(" ");
    push_decimal(s, row as u128);
    proof {
        assert(final(s)@ =~= old(s)@ + cell_text(col, row));
    }
}

impl ExtractingAssignment {
    /// `text` is the copy section: one proposition per copy constraint,
    /// grouped under `all_copy_constraints`.
    pub open spec fn copies_section_ok(&self, text: Seq<char>) -> bool {
        exists|t: PropTree| {
            &&& t.atoms == self.copies@.len()
            &&& t.has_shape(GROUPING_SIZE as nat)
            &&& #[trigger] t.equivalent_to_all_atoms()
            &&& t.bounded_by(GROUPING_SIZE as nat)
            &&& text == grouped_text("copy_"@, "all_copy_constraints"@,
                self.copies@.map_values(|cp: ((Column, usize), (Column, usize))| copy_prop(cp)), t)
        }
    }

    pub fn copies_text(&self) -> (r: String)
        requires
            self.copies@.len() < usize::MAX / 2,
        ensures
            self.copies_section_ok(r@),
    {
        let mut props: Vec<String> = Vec::new();
        let mut i: usize = 0;
        while i < self.copies.len()
            invariant
                i <= self.copies@.len(),
                props@.len() == i,
                forall|x: int| 0 <= x < i ==> #[trigger] props@[x]@ == copy_prop(self.copies@[x]),
            decreases self.copies@.len() - i,
        {
            let cp = self.copies[i];
            let mut p = String::new();
            push_cell(&mut p, cp.0.0, cp.0.1);
            p.append(" = ");
            push_cell(&mut p, cp.1.0, cp.1.1);
            proof {
                assert(p@ =~= copy_prop(self.copies@[i as int]));
            }
            props.push(p);
            i = i + 1;
        }
        proof {
            assert(props@.map_values(|p: String| p@)
                =~= self.copies@.map_values(|cp: ((Column, usize), (Column, usize))| copy_prop(cp)));
        }
        grouped_props_text("copy_", "all_copy_constraints", &props, GROUPING_SIZE)
    }
}

/// The branch of `advice_phase` for a column in a later phase.
pub open spec fn phase_arm(col: int, phase: u8) -> Seq<char> {
    if phase == 0 {
        Seq::empty()
    } else {
        "  | "@ + decimal(col as nat) + " => "@ + decimal(phase as nat) + "\n"@
    }
}

/// `advice_phase`: the phase of every advice column, zero unless stated.
pub open spec fn advice_phase_section(phases: Seq<u8>) -> Seq<char> {
    "def advice_phase (c: ValidCircuit P P_Prime) : ℕ → ℕ :=\n  λ col => match col with\n"@
        + concat_all(Seq::new(phases.len(), |i: int| phase_arm(i, phases[i])))
        + "  | _ => 0\n"@
}

pub fn advice_phase_text(cs: &ConstraintSystemMetadata) -> (r: String)
    ensures
        r@ == advice_phase_section(cs.advice_column_phase@),
{
    let phases = &cs.advice_column_phase;
    let mut r = String::from_str("def advice_phase (c: ValidCircuit P P_Prime) : ℕ → ℕ :=\n  λ col => match col with\n");
    let ghost head = r@;
    let mut i: usize = 0;
    while i < phases.len()
        invariant
            i <= phases@.len(),
            r@ == head + concat_all(Seq::new(i as nat, |x: int| phase_arm(x, phases@[x]))),
        decreases phases@.len() - i,
    {
        let ghost before = r@;
        if phases[i] != 0 {
            r.append("  | ");
            push_decimal(&mut r, i as u128);
            r.append(" => ");
            push_decimal(&mut r, phases[i] as u128);
            r.append("\n");
        }
        proof {
            let b = Seq::new(i as nat, |x: int| phase_arm(x, phases@[x]));
            let a = Seq::new(i as nat + 1, |x: int| phase_arm(x, phases@[x]));
            assert(a.drop_last() =~= b);
            assert(r@ =~= before + phase_arm(i as int, phases@[i as int]));
        }
        i = i + 1;
    }
    r.append("  | _ => 0\n");
    proof {
        reveal_strlit("def advice_phase (c: ValidCircuit P P_Prime) : ℕ → ℕ :=\n  λ col => match col with\n");
        assert(r@ =~= advice_phase_section(phases@));
    }
    r
}

/// The comments of one annotated column: its annotation and the grouped
/// annotations of its rows.
pub open spec fn annotation_block(kind: Seq<char>, col: usize, column: Option<Seq<char>>, rows: Option<Seq<char>>) -> Seq<char> {
    "-- "@ + kind + " Column "@ + decimal(col as nat) + "\n"@
        + match column {
            Some(a) => lean_comment(a) + "\n"@,
            None => Seq::empty(),
        }
        + match rows {
            Some(t) => t + "\n"@,
            None => Seq::empty(),
        }
}

/// `t` is the comment text of the row annotations `rows`: none where no row
/// is annotated, else the groups of equal annotations, one per line.
#[verifier::opaque]
pub open spec fn row_comments(rows: RowMap<String>, t: Option<Seq<char>>) -> bool {
    &&& (t is None <==> rows.seq().len() == 0)
    &&& t matches Some(text) ==> exists|groups: Seq<(String, usize, Option<usize>)>| {
        &&& is_value_groups(rows_between(rows@, rows.seq()[0].0, rows.seq().last().0), groups)
        &&& text == #[trigger] annotation_text(groups)
    }
}

/// The column annotation of an entry, as text.
pub open spec fn column_text_of(e: (Option<String>, RowMap<String>)) -> Option<Seq<char>> {
    match e.0 {
        Some(a) => Some(a@),
        None => None,
    }
}

/// `text` is the annotation section of the columns `a` of the kind named
/// `kind`, where `rows[i]` is the comment text of the rows of the `i`-th
/// column.
pub open spec fn annotations_section(kind: Seq<char>, a: ColumnAnnotations, rows: Seq<Option<Seq<char>>>) -> Seq<char> {
    "  -- "@ + kind + " column annotations:\n"@
        + (if a.seq().len() == 0 { "  -- None\n"@ } else { Seq::empty() })
        + concat_all(Seq::new(a.seq().len(), |i: int|
            annotation_block(kind, a.seq()[i].0, column_text_of(a.seq()[i].1), rows[i])))
}

pub open spec fn annotations_section_ok(kind: Seq<char>, a: ColumnAnnotations, text: Seq<char>) -> bool {
    exists|rows: Seq<Option<Seq<char>>>| {
        &&& rows.len() == a.seq().len()
        &&& forall|i: int| 0 <= i < rows.len() ==> #[trigger] row_comments(a.seq()[i].1.1, rows[i])
        &&& text == annotations_section(kind, a, rows)
    }
}

fn row_comments_of(rows: &RowMap<String>) -> (r: Option<String>)
    requires
        rows.wf(),
    ensures
        row_comments(*rows, match r {
            Some(t) => Some(t@),
            None => None,
        }),
{
    if rows.is_empty() {
        proof {
            reveal(row_comments);
        }
        return None;
    }
    let (first, _) = rows.entry(0);
    let (last, _) = rows.entry(rows.len() - 1);
    proof {
        lemma_entry_in_map(rows.seq(), 0);
        assert(rows_between(rows@, first, last).dom().contains(first));
    }
    let r = get_group_annotations(rows, first, last);
    proof {
        reveal(row_comments);
    }
    r
}

/// The annotation section of the columns of one kind: for each annotated
/// column, its annotation and the annotations of its rows as comments.
#[verifier::rlimit(60)]
pub fn annotations_text(kind: &str, a: &ColumnAnnotations) -> (r: String)
    requires
        annotations_wf(*a),
    ensures
        annotations_section_ok(kind@, *a, r@),
{
    let mut r = String::from_str("  -- ");
    r.append(kind);
    r.append(" column annotations:\n");
    if a.is_empty() {
        r.append("  -- None\n");
    }
    let ghost head = r@;
    let ghost mut rows_texts: Seq<Option<Seq<char>>> = Seq::empty();
    let n = a.len();
    let mut i: usize = 0;
    while i < n
        invariant
            n == a.seq().len(),
            annotations_wf(*a),
            i <= n,
            rows_texts.len() == i,
            forall|x: int| 0 <= x < i ==> #[trigger] row_comments(a.seq()[x].1.1, rows_texts[x]),
            r@ == head + concat_all(Seq::new(i as nat, |x: int|
                annotation_block(kind@, a.seq()[x].0, column_text_of(a.seq()[x].1), rows_texts[x]))),
        decreases n - i,
    {
        let (col, entry) = a.entry(i);
        proof {
            lemma_entry_in_map(a.seq(), i as int);
            assert(a@.contains_key(col));
        }
        let ghost before = r@;
        r.append("-- ");
        r.append(kind);
        r.append(" Column ");
        push_decimal(&mut r, col as u128);
        r.append("\n");
        match &entry.0 {
            Some(t) => {
                r.append(make_lean_comment(t.as_str()).as_str());
                r.append("\n");
            },
            None => {},
        }
        let comments = row_comments_of(&entry.1);
        match &comments {
            Some(t) => {
                r.append(t.as_str());
                r.append("\n");
            },
            None => {},
        }
        proof {
            let this = match comments {
                Some(t) => Some(t@),
                None => None,
            };
            let old_texts = rows_texts;
            rows_texts = rows_texts.push(this);
            let b = Seq::new(i as nat, |x: int| annotation_block(kind@, a.seq()[x].0, column_text_of(a.seq()[x].1), old_texts[x]));
            let b2 = Seq::new(i as nat, |x: int| annotation_block(kind@, a.seq()[x].0, column_text_of(a.seq()[x].1), rows_texts[x]));
            let a2 = Seq::new(i as nat + 1, |x: int| annotation_block(kind@, a.seq()[x].0, column_text_of(a.seq()[x].1), rows_texts[x]));
            assert(b2 =~= b);
            assert(a2.drop_last() =~= b2);
            assert(r@ =~= before + annotation_block(kind@, col, column_text_of(*entry), this));
            assert forall|x: int| 0 <= x < i + 1 implies #[trigger] row_comments(a.seq()[x].1.1, rows_texts[x]) by {
                if x < i {
                    assert(rows_texts[x] == old_texts[x]);
                }
            }
        }
        i = i + 1;
    }
    proof {
        assert(r@ =~= annotations_section(kind@, *a, rows_texts));
    }
    r
}


/// The declaration of a free symbol as a field of the circuit record.
pub open spec fn symbol_field(name: Seq<char>) -> Seq<char> {
    "  sym_"@ + name + ": ZMod P\n"@
}

/// The preamble: imports, the namespace, the circuit record with one field
/// per free symbol, its validity, its accessors, and the least number of
/// rows it needs.
pub open spec fn preamble(namespace: Seq<char>, symbols: Seq<Seq<char>>, num_advice_columns: nat, minimum_rows: nat) -> Seq<char> {
    "import Mathlib.Data.Nat.Prime.Defs\nimport Mathlib.Data.Nat.Prime.Basic\nimport Mathlib.Data.ZMod.Defs\nimport Mathlib.Data.ZMod.Basic\n\nset_option linter.unusedVariables false\n\nnamespace "@ + namespace + "\n\ndef S_T_from_P (S T P : ℕ) : Prop :=\n  (2^S * T = P - 1) ∧\n  (∀ s' t': ℕ, 2^s' * t' = P - 1 → s' ≤ S)\ndef multiplicative_generator (P: ℕ) (mult_gen: ZMod P) : Prop :=\n  mult_gen ^ P = 1\nstructure Circuit (P: ℕ) (P_Prime: Nat.Prime P) where\n  Advice: ℕ → ℕ → ZMod P\n  AdviceUnassigned: ℕ → ℕ → ZMod P\n  AdvicePhase: ℕ → ℕ\n  Fixed: ℕ → ℕ → ZMod P\n  FixedUnassigned: ℕ → ℕ → ZMod P\n  Instance: ℕ → ℕ → ZMod P\n  InstanceUnassigned: ℕ → ℕ → ZMod P\n  Selector: ℕ → ℕ → ZMod P\n  Challenges: (ℕ → ℕ → ZMod P) → ℕ → ℕ → ZMod P\n  num_blinding_factors: ℕ\n  S: ℕ\n  T: ℕ\n  k: ℕ\n  mult_gen: ZMod P\n"@
        + concat_all(Seq::new(symbols.len(), |i: int| symbol_field(symbols[i])))
        + "variable {P: ℕ} {P_Prime: Nat.Prime P}\ndef Circuit.isValid (c: Circuit P P_Prime) : Prop :=\n  S_T_from_P c.S c.T P ∧\n  multiplicative_generator P c.mult_gen ∧ (\n  ∀ advice1 advice2: ℕ → ℕ → ZMod P, ∀ phase: ℕ,\n    (∀ row col, (col < "@ + decimal(num_advice_columns) + " ∧ c.AdvicePhase col ≤ phase) → advice1 col row = advice2 col row) →\n    (∀ i, c.Challenges advice1 i phase = c.Challenges advice2 i phase)\n  )\nabbrev ValidCircuit (P: ℕ) (P_Prime: Nat.Prime P) : Type := {c: Circuit P P_Prime // c.isValid}\nnamespace ValidCircuit\ndef get_advice (c: ValidCircuit P P_Prime) : ℕ → ℕ → ZMod P :=\n  λ col row => c.1.Advice col row\ndef get_fixed (c: ValidCircuit P P_Prime) : ℕ → ℕ → ZMod P :=\n  λ col row => c.1.Fixed col row\ndef get_instance (c: ValidCircuit P P_Prime) : ℕ → ℕ → ZMod P :=\n  λ col row => c.1.Instance col row\ndef get_selector (c: ValidCircuit P P_Prime) : ℕ → ℕ → ZMod P :=\n  λ col row => c.1.Selector col row\ndef get_challenge (c: ValidCircuit P P_Prime) : ℕ → ℕ → ZMod P :=\n  λ idx phase => c.1.Challenges c.1.Advice idx phase\ndef k (c: ValidCircuit P P_Prime) := c.1.k\ndef n (c: ValidCircuit P P_Prime) := 2^c.k\ndef usable_rows (c: ValidCircuit P P_Prime) := c.n - (c.1.num_blinding_factors + 1)\ndef S (c: ValidCircuit P P_Prime) := c.1.S\ndef T (c: ValidCircuit P P_Prime) := c.1.T\ndef mult_gen (c: ValidCircuit P P_Prime) := c.1.mult_gen\ndef root_of_unity (c: ValidCircuit P P_Prime) : ZMod P := c.mult_gen ^ c.T\ndef delta (c: ValidCircuit P P_Prime) : ZMod P := c.mult_gen ^ (2^c.S)\nend ValidCircuit\ndef is_shuffle (c: ValidCircuit P P_Prime) (shuffle: ℕ → ℕ): Prop :=\n  ∃ inv: ℕ → ℕ,\n  ∀ row: ℕ,\n    inv (shuffle row) = row ∧\n    (row ≥ c.usable_rows → shuffle row = row)\ndef sufficient_rows (c: ValidCircuit P P_Prime) : Prop :=\n  c.n ≥ "@ + decimal(minimum_rows) + " --cs.minimum_rows\n--End preamble\n"@
}

pub fn preamble_text(namespace: &str, symbol_names: &Vec<String>, cs: &ConstraintSystemMetadata) -> (r: String)
    ensures
        r@ == preamble(namespace@, symbol_names@.map_values(|s: String| s@),
            cs.advice_column_phase@.len(), cs.minimum_rows as nat),
{
    let ghost names = symbol_names@.map_values(|s: String| s@);
    let mut r = String::from_str("import Mathlib.Data.Nat.Prime.Defs\nimport Mathlib.Data.Nat.Prime.Basic\nimport Mathlib.Data.ZMod.Defs\nimport Mathlib.Data.ZMod.Basic\n\nset_option linter.unusedVariables false\n\nnamespace ");
    r.append(namespace);
    r.append("\n\ndef S_T_from_P (S T P : ℕ) : Prop :=\n  (2^S * T = P - 1) ∧\n  (∀ s' t': ℕ, 2^s' * t' = P - 1 → s' ≤ S)\ndef multiplicative_generator (P: ℕ) (mult_gen: ZMod P) : Prop :=\n  mult_gen ^ P = 1\nstructure Circuit (P: ℕ) (P_Prime: Nat.Prime P) where\n  Advice: ℕ → ℕ → ZMod P\n  AdviceUnassigned: ℕ → ℕ → ZMod P\n  AdvicePhase: ℕ → ℕ\n  Fixed: ℕ → ℕ → ZMod P\n  FixedUnassigned: ℕ → ℕ → ZMod P\n  Instance: ℕ → ℕ → ZMod P\n  InstanceUnassigned: ℕ → ℕ → ZMod P\n  Selector: ℕ → ℕ → ZMod P\n  Challenges: (ℕ → ℕ → ZMod P) → ℕ → ℕ → ZMod P\n  num_blinding_factors: ℕ\n  S: ℕ\n  T: ℕ\n  k: ℕ\n  mult_gen: ZMod P\n");
    let ghost head = r@;
    let mut i: usize = 0;
    while i < symbol_names.len()
        invariant
            i <= symbol_names@.len(),
            names == symbol_names@.map_values(|s: String| s@),
            r@ == head + concat_all(Seq::new(i as nat, |x: int| symbol_field(names[x]))),
        decreases symbol_names@.len() - i,
    {
        let ghost before = r@;
        r.append("  sym_");
        r.append(symbol_names[i].as_str());
        r.append(": ZMod P\n");
        proof {
            let b = Seq::new(i as nat, |x: int| symbol_field(names[x]));
            let a = Seq::new(i as nat + 1, |x: int| symbol_field(names[x]));
            assert(a.drop_last() =~= b);
            assert(r@ =~= before + symbol_field(names[i as int]));
        }
        i = i + 1;
    }
    r.append("variable {P: ℕ} {P_Prime: Nat.Prime P}\ndef Circuit.isValid (c: Circuit P P_Prime) : Prop :=\n  S_T_from_P c.S c.T P ∧\n  multiplicative_generator P c.mult_gen ∧ (\n  ∀ advice1 advice2: ℕ → ℕ → ZMod P, ∀ phase: ℕ,\n    (∀ row col, (col < ");
    push_decimal(&mut r, cs.num_advice_columns() as u128);
    r.append(" ∧ c.AdvicePhase col ≤ phase) → advice1 col row = advice2 col row) →\n    (∀ i, c.Challenges advice1 i phase = c.Challenges advice2 i phase)\n  )\nabbrev ValidCircuit (P: ℕ) (P_Prime: Nat.Prime P) : Type := {c: Circuit P P_Prime // c.isValid}\nnamespace ValidCircuit\ndef get_advice (c: ValidCircuit P P_Prime) : ℕ → ℕ → ZMod P :=\n  λ col row => c.1.Advice col row\ndef get_fixed (c: ValidCircuit P P_Prime) : ℕ → ℕ → ZMod P :=\n  λ col row => c.1.Fixed col row\ndef get_instance (c: ValidCircuit P P_Prime) : ℕ → ℕ → ZMod P :=\n  λ col row => c.1.Instance col row\ndef get_selector (c: ValidCircuit P P_Prime) : ℕ → ℕ → ZMod P :=\n  λ col row => c.1.Selector col row\ndef get_challenge (c: ValidCircuit P P_Prime) : ℕ → ℕ → ZMod P :=\n  λ idx phase => c.1.Challenges c.1.Advice idx phase\ndef k (c: ValidCircuit P P_Prime) := c.1.k\ndef n (c: ValidCircuit P P_Prime) := 2^c.k\ndef usable_rows (c: ValidCircuit P P_Prime) := c.n - (c.1.num_blinding_factors + 1)\ndef S (c: ValidCircuit P P_Prime) := c.1.S\ndef T (c: ValidCircuit P P_Prime) := c.1.T\ndef mult_gen (c: ValidCircuit P P_Prime) := c.1.mult_gen\ndef root_of_unity (c: ValidCircuit P P_Prime) : ZMod P := c.mult_gen ^ c.T\ndef delta (c: ValidCircuit P P_Prime) : ZMod P := c.mult_gen ^ (2^c.S)\nend ValidCircuit\ndef is_shuffle (c: ValidCircuit P P_Prime) (shuffle: ℕ → ℕ): Prop :=\n  ∃ inv: ℕ → ℕ,\n  ∀ row: ℕ,\n    inv (shuffle row) = row ∧\n    (row ≥ c.usable_rows → shuffle row = row)\ndef sufficient_rows (c: ValidCircuit P P_Prime) : Prop :=\n  c.n ≥ ");
    push_decimal(&mut r, cs.minimum_rows as u128);
    r.append(" --cs.minimum_rows\n--End preamble\n");
    proof {
        assert(r@ =~= preamble(namespace@, names, cs.advice_column_phase@.len(), cs.minimum_rows as nat));
    }
    r
}

/// The postamble: `meets_constraints`, the conjunction of every section
/// with the number of blinding rows and the bound on the usable rows, and
/// the end of the namespace.
pub open spec fn postamble(name: Seq<char>, blinding_factors: nat, usable_rows: nat) -> Seq<char> {
    "def meets_constraints (c: ValidCircuit P P_Prime): Prop :=\n  sufficient_rows c ∧\n  c.1.num_blinding_factors = "@ + decimal(blinding_factors) + " ∧\n  c.1.Selector = selector_func c ∧\n  c.1.Fixed = fixed_func c ∧\n  c.1.AdvicePhase = advice_phase c ∧\n  c.usable_rows ≥ "@ + decimal(usable_rows) + " ∧\n  all_gates c ∧\n  all_copy_constraints c ∧\n  all_lookups c ∧\n  all_shuffles c ∧\n  ∀ col row: ℕ, (row < c.n ∧ row ≥ c.usable_rows) → c.1.Instance col row = c.1.InstanceUnassigned col row\nend "@ + name + "\n"@
}

pub fn postamble_text(name: &str, cs: &ConstraintSystemMetadata, usable_rows: usize) -> (r: String)
    ensures
        r@ == postamble(name@, cs.blinding_factors as nat, usable_rows as nat),
{
    let mut r = String::from_str("def meets_constraints (c: ValidCircuit P P_Prime): Prop :=\n  sufficient_rows c ∧\n  c.1.num_blinding_factors = ");
    push_decimal(&mut r, cs.blinding_factors as u128);
    r.append(" ∧\n  c.1.Selector = selector_func c ∧\n  c.1.Fixed = fixed_func c ∧\n  c.1.AdvicePhase = advice_phase c ∧\n  c.usable_rows ≥ ");
    push_decimal(&mut r, usable_rows as u128);
    r.append(" ∧\n  all_gates c ∧\n  all_copy_constraints c ∧\n  all_lookups c ∧\n  all_shuffles c ∧\n  ∀ col row: ℕ, (row < c.n ∧ row ≥ c.usable_rows) → c.1.Instance col row = c.1.InstanceUnassigned col row\nend ");
    r.append(name);
    r.append("\n");
    proof {
        assert(r@ =~= postamble(name@, cs.blinding_factors as nat, usable_rows as nat));
    }
    r
}


impl ExtractingAssignment {
    /// `text` is the sections of the record and of the constraint system.
    pub open spec fn sections_ok(&self, cs: &ConstraintSystemMetadata, text: Seq<char>) -> bool {
        exists|copies: Seq<char>, selectors: Seq<char>, fixed: Seq<char>, advice: Seq<char>,
            instance: Seq<char>, fixed_notes: Seq<char>, gates: Seq<char>, lookups: Seq<char>| {
            &&& #[trigger] self.copies_section_ok(copies)
            &&& #[trigger] self.selectors_section_ok(selectors)
            &&& #[trigger] self.fixed_section_ok(fixed)
            &&& #[trigger] annotations_section_ok("Advice"@, self.advice_column_annotations, advice)
            &&& #[trigger] annotations_section_ok("Instance"@, self.instance_column_annotations, instance)
            &&& #[trigger] annotations_section_ok("Fixed"@, self.fixed_column_annotations, fixed_notes)
            &&& #[trigger] gates_section_ok(cs, gates)
            &&& #[trigger] lookups_section_ok(cs, lookups)
            &&& text == "\n\n"@ + copies + selectors + fixed + advice_phase_section(cs.advice_column_phase@)
                + advice + instance + fixed_notes + gates + lookups + shuffles_section(cs.shuffles@)
        }
    }

    /// The sections of the record and of the constraint system, in order:
    /// copy constraints, selectors, fixed columns, advice phases, the
    /// annotations of the advice, instance and fixed columns, gates, lookups
    /// and shuffles.
    pub fn grouping_props_text(&self, cs: &ConstraintSystemMetadata) -> (r: String)
        requires
            self.wf(),
            cs.wf(),
            self.copies@.len() < usize::MAX / 2,
            gate_parts(cs.gates@, cs.gates@.len(), 0).1.len() < usize::MAX / 2,
        ensures
            self.sections_ok(cs, r@),
    {
        let copies = self.copies_text();
        let selectors = self.selectors_text();
        let fixed = self.fixed_text();
        let phases = advice_phase_text(cs);
        let advice = annotations_text("Advice", &self.advice_column_annotations);
        let instance = annotations_text("Instance", &self.instance_column_annotations);
        let fixed_notes = annotations_text("Fixed", &self.fixed_column_annotations);
        let gates = gates_text(cs);
        let lookups = lookups_text(cs);
        let shuffles = shuffles_text(cs);
        let mut r = String::from_str("\n\n");
        r.append(copies.as_str());
        r.append(selectors.as_str());
        r.append(fixed.as_str());
        r.append(phases.as_str());
        r.append(advice.as_str());
        r.append(instance.as_str());
        r.append(fixed_notes.as_str());
        r.append(gates.as_str());
        r.append(lookups.as_str());
        r.append(shuffles.as_str());
        proof {
            reveal_strlit("\n\n");
            reveal_strlit("Advice");
            reveal_strlit("Instance");
            reveal_strlit("Fixed");
            assert(r@ =~= "\n\n"@ + copies@ + selectors@ + fixed@ + advice_phase_section(cs.advice_column_phase@)
                + advice@ + instance@ + fixed_notes@ + gates@ + lookups@ + shuffles_section(cs.shuffles@));
        }
        r
    }

    /// The whole specification of the circuit: the preamble, every section,
    /// and the postamble with `meets_constraints`.
    pub fn extraction_text(&self, namespace: &str, symbol_names: &Vec<String>, cs: &ConstraintSystemMetadata) -> (r: String)
        requires
            self.wf(),
            cs.wf(),
            self.copies@.len() < usize::MAX / 2,
            gate_parts(cs.gates@, cs.gates@.len(), 0).1.len() < usize::MAX / 2,
        ensures
            exists|body: Seq<char>| {
                &&& #[trigger] self.sections_ok(cs, body)
                &&& r@ == preamble(namespace@, symbol_names@.map_values(|s: String| s@),
                        cs.advice_column_phase@.len(), cs.minimum_rows as nat)
                    + body + postamble(namespace@, cs.blinding_factors as nat, self.usable_rows as nat)
            },
    {
        let mut r = preamble_text(namespace, symbol_names, cs);
        let body = self.grouping_props_text(cs);
        r.append(body.as_str());
        r.append(postamble_text(namespace, cs, self.usable_rows).as_str());
        r
    }
}

} // verus!
