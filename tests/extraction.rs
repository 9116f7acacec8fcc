use halo2_extractor::annotations::{get_group_annotations, make_lean_comment, update_column_annotation, update_row_annotation};
use halo2_extractor::circuit::{Argument, ConstraintSystemMetadata, Gate};
use halo2_extractor::constraints::{gate_count, gates_text, lookups_text, shuffles_text};
use halo2_extractor::expr::{expression_to_value_string, Expression};
use halo2_extractor::grouping::{group_tree, grouped_props_text, PropTree};
use halo2_extractor::recorder::{Column, ColumnKind, ExtractingAssignment, FIRST_PHASE};
use halo2_extractor::rowmap::RowMap;
use halo2_extractor::runs::{group_values, selector_runs};
use halo2_extractor::sections::{advice_phase_text, annotations_text, postamble_text, preamble_text};
use halo2_extractor::term::TermField;

fn advice(index: usize) -> Column {
    Column { kind: ColumnKind::Advice, index }
}

fn instance(index: usize) -> Column {
    Column { kind: ColumnKind::Instance, index }
}

fn text(t: &TermField) -> String {
    t.to_text()
}

fn empty_metadata() -> ConstraintSystemMetadata {
    ConstraintSystemMetadata {
        gates: vec![],
        lookups: vec![],
        shuffles: vec![],
        advice_column_phase: vec![],
        blinding_factors: 0,
        minimum_rows: 0,
    }
}

fn fib_gate() -> Gate {
    let a = Expression::Advice { column: 0, rotation: 0 };
    let b = Expression::Advice { column: 1, rotation: 0 };
    let c = Expression::Advice { column: 2, rotation: 0 };
    let poly = Expression::Product(
        Box::new(Expression::Selector(0)),
        Box::new(Expression::Sum(
            Box::new(Expression::Sum(Box::new(a), Box::new(b))),
            Box::new(Expression::Negated(Box::new(c))),
        )),
    );
    Gate { name: "add".to_string(), polynomials: vec![poly], constraint_names: vec![String::new()] }
}

#[test]
fn fibonacci_example1() {
    let mut rec = ExtractingAssignment::new();
    rec.enter_region("first row".to_string());
    rec.enable_selector(String::new(), 0, 0);
    let f0 = rec.query_instance(0, 0);
    assert_eq!(text(&f0), "instance_to_field (c.1.Instance 0 0)");
    rec.assign_advice("f(0)".to_string(), 0, 0);
    rec.copy(instance(0), 0, advice(0), 0);
    let f1 = rec.query_instance(0, 1);
    assert_eq!(text(&f1), "instance_to_field (c.1.Instance 0 1)");
    rec.assign_advice("f(1)".to_string(), 1, 0);
    rec.copy(instance(0), 1, advice(1), 0);
    rec.assign_advice("a + b".to_string(), 2, 0);
    assert_eq!(rec.exit_region(), Some("first row".to_string()));
    let mut prev_b = (1usize, 0usize);
    let mut prev_c = (2usize, 0usize);
    for row in 1..8usize {
        rec.enter_region("next row".to_string());
        rec.enable_selector(String::new(), 0, row);
        rec.assign_advice("a".to_string(), 0, row);
        rec.copy(advice(prev_b.0), prev_b.1, advice(0), row);
        rec.assign_advice("b".to_string(), 1, row);
        rec.copy(advice(prev_c.0), prev_c.1, advice(1), row);
        rec.assign_advice("c".to_string(), 2, row);
        rec.exit_region();
        prev_b = prev_c;
        prev_c = (2, row);
    }
    rec.copy(advice(prev_c.0), prev_c.1, instance(0), 2);

    let mut cs = empty_metadata();
    cs.gates.push(fib_gate());
    cs.advice_column_phase = vec![0, 0, 0];
    cs.blinding_factors = 5;
    cs.minimum_rows = 9;
    let out = rec.extraction_text("Fibonacci", &vec![], &cs);
    assert_eq!(rec.copies.len(), 17);
    assert_eq!(rec.usable_rows, 8);
    assert!(out.starts_with("import Mathlib.Data.Nat.Prime.Defs\n"));
    assert!(out.contains("namespace Fibonacci\n"));
    assert!(out.contains("def copy_0 (c: ValidCircuit P P_Prime) : Prop :=\n  c.get_instance 0 0 = c.get_advice 0 0\n"));
    assert!(out.contains("def copy_0_to_9 (c: ValidCircuit P P_Prime) : Prop :=\n  copy_0 c ∧ copy_1 c"));
    assert!(out.contains("def all_copy_constraints (c: ValidCircuit P P_Prime): Prop :=\n  copy_0_to_9 c ∧ copy_10_to_16 c\n"));
    assert!(out.contains("  λ row =>\n  if row < 8 then 1\n  else 0\n"));
    assert!(out.contains("  ∀ row: ℕ, (c.get_selector 0 row) * (((c.get_advice 0 row) + (c.get_advice 1 row)) + (-(c.get_advice 2 row))) = 0"));
    assert!(out.contains("  c.usable_rows ≥ 8 ∧\n"));
    assert!(out.contains("  c.1.num_blinding_factors = 5 ∧\n"));
    assert!(out.contains("  c.n ≥ 9 --cs.minimum_rows\n"));
    assert!(out.ends_with("end Fibonacci\n"));
}

#[test]
fn terms_from_uniform_bytes() {
    let mut bytes = [0u8; 64];
    assert!(TermField::from_uniform_bytes(&bytes).is_zero());
    bytes[0] = 1;
    assert!(TermField::from_uniform_bytes(&bytes).is_one());
    bytes[1] = 1;
    assert_eq!(text(&TermField::from_uniform_bytes(&bytes)), "257");
    let mut high = [0u8; 64];
    high[8] = 1;
    assert_eq!(text(&TermField::from_uniform_bytes(&high)), "18446744073709551616");
}

#[test]
fn identity_laws_of_terms() {
    let a = TermField::from_text("a");
    let r = a.duplicate().add(TermField::zero());
    assert_eq!(text(&r), "a");
    let r = TermField::zero().add(a.duplicate());
    assert_eq!(text(&r), "a");
    let r = a.duplicate().mul(TermField::one());
    assert_eq!(text(&r), "a");
    let r = TermField::one().mul(a.duplicate());
    assert_eq!(text(&r), "a");
    assert!(a.duplicate().mul(TermField::zero()).is_zero());
    let r = a.duplicate().sub(TermField::zero());
    assert_eq!(text(&r), "a");
    let r = TermField::zero().sub(a.duplicate());
    assert_eq!(text(&r), "-(a)");
    let sum = a.duplicate().add(TermField::from_text("b"));
    assert_eq!(text(&sum), "(a) + (b)");
    let prod = sum.mul(TermField::zero().add(TermField::from_text("c")));
    assert_eq!(text(&prod), "((a) + (b)) * (c)");
    assert!(!text(&prod).contains("(0)"));
    let diff = TermField::from_text("x").sub(TermField::one());
    assert_eq!(text(&diff), "(x) - (1)");
    assert!(TermField::zero().neg().is_zero());
    assert_eq!(text(&TermField::one().neg()), "-(1)");
}

#[test]
fn terms_from_text_and_numbers() {
    assert!(TermField::from_text("0").is_zero());
    assert!(TermField::from_text("1").is_one());
    assert_eq!(text(&TermField::from_text("10")), "10");
    assert!(TermField::from_bool(false).is_zero());
    assert!(TermField::from_bool(true).is_one());
    assert!(TermField::from_u64(0).is_zero());
    assert!(TermField::from_u64(1).is_one());
    assert_eq!(text(&TermField::from_u64(1234567)), "1234567");
    assert_eq!(text(&TermField::two_inv()), "(2: ZMod P).inv");
    assert_eq!(text(&TermField::create_symbol("x")), "c.1.sym_x");
    assert_eq!(text(&TermField::create_s()), "S");
    assert_eq!(text(&TermField::from_text("y").double()), "(2) * (y)");
    assert_eq!(text(&TermField::one().double()), "2");
    assert_eq!(text(&TermField::from_text("y").square()), "(y) * (y)");
    assert_eq!(text(&TermField::from_text("y").invert_unchecked()), "((y: ZMod P).inv)");
    assert!(TermField::from_text("q").eq_checked(&TermField::from_text("q"), false));
    assert!(!TermField::from_text("q").eq_checked(&TermField::from_text("r"), true));
}

fn fixed_round_trip(n: usize) -> String {
    let mut rec = ExtractingAssignment::new();
    for row in 0..n {
        rec.assign_fixed(String::new(), 0, row, Some(TermField::from_text("5")));
    }
    rec.fill_from_row(0, n, TermField::from_text("9"));
    rec.fixed_text()
}

#[test]
fn fixed_compaction_round_trip() {
    let out = fixed_round_trip(3);
    assert_eq!(
        out,
        "def fixed_func_col_0 (c: ValidCircuit P P_Prime) : ℕ → ZMod P :=\n  λ row =>\n  \
         if row ≥ 0 ∧ row ≤ 2 then 5\n  else if row ≥ 3 then 9\n  \
         else c.1.FixedUnassigned 0 row\n\
         def fixed_func (c: ValidCircuit P P_Prime) : ℕ → ℕ → ZMod P :=\n  λ col row => match col with\n    \
         | 0 => fixed_func_col_0 c row\n    | _ => c.1.FixedUnassigned col row\n"
    );
    let out = fixed_round_trip(1);
    assert!(out.contains("  if row = 0 then 5\n  else if row ≥ 1 then 9\n"));
}

#[test]
fn fixed_fill_is_pushed_past_an_assignment() {
    let mut rec = ExtractingAssignment::new();
    rec.fill_from_row(0, 2, TermField::from_text("9"));
    rec.assign_fixed(String::new(), 0, 4, Some(TermField::from_text("5")));
    let out = rec.fixed_text();
    assert!(out.contains(
        "  if row ≥ 2 ∧ row ≤ 3 then 9\n  else if row = 4 then 5\n  else if row ≥ 5 then 9\n"
    ));
    assert_eq!(rec.usable_rows, 5);
}

#[test]
fn fill_only_column_and_far_rows() {
    let mut rec = ExtractingAssignment::new();
    rec.fill_from_row(2, 0, TermField::from_text("9"));
    let out = rec.fixed_text();
    assert!(out.contains(
        "def fixed_func_col_2 (c: ValidCircuit P P_Prime) : ℕ → ZMod P :=\n  λ row =>\n  if row ≥ 0 then 9\n  \
         else c.1.FixedUnassigned 2 row\n"
    ));
    assert!(out.contains("    | 2 => fixed_func_col_2 c row\n"));
}

#[test]
fn grouped_parts_keep_the_fill() {
    let mut rec = ExtractingAssignment::new();
    for i in 0..12usize {
        rec.assign_fixed(String::new(), 0, 100 + 2 * i, Some(TermField::from_text("a")));
    }
    rec.fill_from_row(0, 0, TermField::from_text("z"));
    let out = rec.fixed_text();
    assert!(out.contains("  else if row = 118 then a\n  else if row ≥ 0 then z\n  else c.1.FixedUnassigned 0 row\n"));
    assert!(out.contains("def fixed_func_col_0_100_to_118 "));
    assert!(out.contains("  if row ≥ 100 ∧ row ≤ 118 then fixed_func_col_0_100_to_118 c row\n"));
}

#[test]
fn replay_phases_are_increasing() {
    let mut cs = empty_metadata();
    assert_eq!(cs.phases(), vec![0]);
    cs.advice_column_phase = vec![2, 0, 1, 2];
    assert_eq!(cs.phases(), vec![0, 1, 2]);
    assert!(cs.has_advice_phase(1));
    assert!(!cs.has_advice_phase(3));
}

#[test]
fn fixed_grouping_of_many_clauses() {
    let mut rec = ExtractingAssignment::new();
    for row in 0..12usize {
        let v = if row % 2 == 0 { "a" } else { "b" };
        rec.assign_fixed(String::new(), 3, row, Some(TermField::from_text(v)));
    }
    let out = rec.fixed_text();
    assert!(out.starts_with("def fixed_func_col_3_0_to_9 (c: ValidCircuit P P_Prime) : ℕ → ZMod P :=\n  λ row =>\n  if row = 0 then a\n"));
    assert!(out.contains("def fixed_func_col_3_10_to_11 (c: ValidCircuit P P_Prime)"));
    assert!(out.contains(
        "def fixed_func_col_3 (c: ValidCircuit P P_Prime) : ℕ → ZMod P :=\n  λ row =>\n  \
         if row ≥ 0 ∧ row ≤ 9 then fixed_func_col_3_0_to_9 c row\n  \
         else if row ≥ 10 ∧ row ≤ 11 then fixed_func_col_3_10_to_11 c row\n  else c.1.FixedUnassigned 3 row\n"
    ));
}

#[test]
fn selector_runs_are_maximal() {
    let mut rows: RowMap<String> = RowMap::new();
    for r in [7usize, 2, 4, 3] {
        rows.insert(r, String::new());
    }
    assert_eq!(selector_runs(&rows), vec![(2, 4), (7, 7)]);
    let empty: RowMap<String> = RowMap::new();
    assert_eq!(selector_runs(&empty), vec![]);
    let mut rec = ExtractingAssignment::new();
    for r in [2usize, 3, 4, 7] {
        rec.enable_selector(String::new(), 1, r);
    }
    let out = rec.selectors_text();
    assert_eq!(
        out,
        "def selector_func_col_1 (c: ValidCircuit P P_Prime) : ℕ → ZMod P :=\n  λ row =>\n  \
         if row < 2 then 0\n  else if row < 5 then 1\n  else if row < 7 then 0\n  else if row < 8 then 1\n  else 0\n\
         def selector_func (c: ValidCircuit P P_Prime) : ℕ → ℕ → ZMod P :=\n  λ col row => match col with\n    \
         | 1 => selector_func_col_1 c row\n    | _ => 0\n"
    );
}

fn node_holds(t: &PropTree, vals: &[bool], id: usize) -> bool {
    if id < t.atoms {
        vals[id]
    } else {
        t.nodes[id - t.atoms].children.iter().all(|&c| c < id && node_holds(t, vals, c))
    }
}

#[test]
fn grouping_is_equivalent_and_bounded() {
    let g = 3usize;
    for k in [0usize, 1, g - 1, g, g + 1, g * g] {
        let t = group_tree(k, g);
        assert!(t.top.len() <= g);
        assert!(t.nodes.iter().all(|n| n.children.len() <= g));
        for mask in 0..(1u32 << k) {
            let vals: Vec<bool> = (0..k).map(|i| mask & (1 << i) != 0).collect();
            let grouped = t.top.iter().all(|&id| node_holds(&t, &vals, id));
            assert_eq!(grouped, vals.iter().all(|&v| v));
        }
        let props: Vec<String> = (0..k).map(|i| format!("p{i}")).collect();
        let out = grouped_props_text("x_", "all_x", &props, g);
        assert_eq!(out.matches("def ").count(), k + t.nodes.len() + 1);
        for line in out.lines().filter(|l| l.contains(" c")) {
            assert!(line.matches(" ∧ ").count() < g);
        }
    }
    let out = grouped_props_text("x_", "all_x", &vec![], 2);
    assert_eq!(out, "def all_x (c: ValidCircuit P P_Prime): Prop :=\n  true\n");
    let props: Vec<String> = (0..4).map(|i| format!("p{i}")).collect();
    let out = grouped_props_text("x_", "all_x", &props, 2);
    assert!(out.contains("def x_0_to_1 (c: ValidCircuit P P_Prime) : Prop :=\n  x_0 c ∧ x_1 c\n"));
    assert!(out.ends_with("def all_x (c: ValidCircuit P P_Prime): Prop :=\n  x_0_to_1 c ∧ x_2_to_3 c\n"));
}

#[test]
fn later_phases_record_nothing() {
    let mut rec = ExtractingAssignment::new();
    rec.enable_selector(String::new(), 0, 1);
    rec.set_phase(1);
    assert!(!rec.in_first_phase());
    rec.enable_selector(String::new(), 0, 5);
    rec.copy(advice(0), 9, advice(1), 9);
    rec.assign_fixed("f".to_string(), 0, 9, Some(TermField::from_text("3")));
    rec.fill_from_row(0, 9, TermField::from_text("4"));
    assert_eq!(rec.copies.len(), 0);
    assert_eq!(rec.fixed.len(), 0);
    assert_eq!(rec.fixed_fill.len(), 0);
    assert_eq!(rec.fixed_column_annotations.len(), 0);
    assert_eq!(rec.usable_rows, 2);
    assert_eq!(rec.selectors.len(), 1);
    assert_eq!(rec.selectors.get(0).unwrap().len(), 1);
    rec.assign_advice("late".to_string(), 4, 20);
    assert_eq!(rec.usable_rows, 2);
    assert_eq!(rec.advice_column_annotations.len(), 1);
    rec.set_phase(FIRST_PHASE);
    rec.assign_advice("early".to_string(), 4, 20);
    assert_eq!(rec.usable_rows, 21);
}

#[test]
fn rotations_wrap_around() {
    let e = Expression::Advice { column: 0, rotation: 1 };
    assert_eq!(expression_to_value_string(&e, "row"), "c.get_advice 0 ((row + 1) % c.n)");
    let e = Expression::Fixed { column: 1, rotation: -1 };
    assert_eq!(expression_to_value_string(&e, "row"), "c.get_fixed 1 ((row + c.n - (1 % c.n)) % c.n)");
    let e = Expression::Instance { column: 2, rotation: 0 };
    assert_eq!(expression_to_value_string(&e, "lookup_row"), "c.get_instance 2 lookup_row");
    let n = 16u64;
    let row = 0u64;
    assert_eq!((row + 1) % n, 1);
    assert_eq!((row + n - (1 % n)) % n, 15);
    let e = Expression::Scaled(Box::new(Expression::Challenge { index: 3, phase: 1 }), TermField::from_text("7"));
    assert_eq!(expression_to_value_string(&e, "row"), "(7) * (c.get_challenge 3 1)");
    let e = Expression::Constant(TermField::zero());
    assert_eq!(expression_to_value_string(&e, "row"), "(0)");
}

#[test]
fn one_gate_circuit_end_to_end() {
    let mut rec = ExtractingAssignment::new();
    rec.enable_selector(String::new(), 0, 0);
    rec.assign_fixed(String::new(), 0, 0, Some(TermField::from_u64(7)));
    rec.fill_from_row(0, 1, TermField::zero());
    let mut cs = empty_metadata();
    let poly = Expression::Product(
        Box::new(Expression::Selector(0)),
        Box::new(Expression::Fixed { column: 0, rotation: 0 }),
    );
    cs.gates.push(Gate { name: "g".to_string(), polynomials: vec![poly], constraint_names: vec![String::new()] });
    cs.advice_column_phase = vec![0];
    let out = rec.extraction_text("One", &vec![], &cs);
    assert!(out.contains(
        "def selector_func_col_0 (c: ValidCircuit P P_Prime) : ℕ → ZMod P :=\n  λ row =>\n  if row < 1 then 1\n  else 0\n"
    ));
    assert!(out.contains(
        "  λ row =>\n  if row = 0 then 7\n  else if row ≥ 1 then 0\n  else c.1.FixedUnassigned 0 row\n"
    ));
    assert!(out.contains("def all_copy_constraints (c: ValidCircuit P P_Prime): Prop :=\n  true\n"));
    assert!(out.contains("def all_gates (c: ValidCircuit P P_Prime): Prop :=\n  gate_0 c\n"));
    assert!(out.contains("def all_lookups (c: ValidCircuit P P_Prime): Prop :=\n  true\n"));
    assert!(out.contains("def all_shuffles (c: ValidCircuit P P_Prime) : Prop := true\n"));
    assert!(out.contains(
        "def meets_constraints (c: ValidCircuit P P_Prime): Prop :=\n  sufficient_rows c ∧\n  c.1.num_blinding_factors = 0 ∧\n  \
         c.1.Selector = selector_func c ∧\n  c.1.Fixed = fixed_func c ∧\n  c.1.AdvicePhase = advice_phase c ∧\n  \
         c.usable_rows ≥ 2 ∧\n  all_gates c ∧\n  all_copy_constraints c ∧\n  all_lookups c ∧\n  all_shuffles c ∧\n"
    ));
}

#[test]
fn trivial_gates_become_comments() {
    let mut cs = empty_metadata();
    cs.gates.push(Gate {
        name: "z".to_string(),
        polynomials: vec![Expression::Constant(TermField::zero()), Expression::Selector(2)],
        constraint_names: vec!["first".to_string(), "second".to_string()],
    });
    let out = gates_text(&cs);
    assert!(out.starts_with("  -- Gate number 1 name: \"z\" part 1/2 first is trivially true\n"));
    assert!(out.contains("def gate_0 (c: ValidCircuit P P_Prime) : Prop :=\n  -- Gate number 1 name: \"z\" part 2/2 second\n  ∀ row: ℕ, c.get_selector 2 row = 0\n"));
    assert!(!out.contains("def gate_1 "));
    assert_eq!(gate_count(&cs), 1);
    cs.gates.push(fib_gate());
    assert_eq!(gate_count(&cs), 2);
    let unnamed = Gate { name: "u".to_string(), polynomials: vec![Expression::Selector(1)], constraint_names: vec![] };
    let mut cs2 = empty_metadata();
    cs2.gates.push(unnamed);
    assert!(gates_text(&cs2).contains("-- Gate number 1 name: \"u\" part 1/1 \n  ∀ row: ℕ, c.get_selector 1 row = 0"));
}

#[test]
fn lookups_and_shuffles() {
    let mut cs = empty_metadata();
    cs.lookups.push(Argument {
        name: "range".to_string(),
        input_expressions: vec![Expression::Advice { column: 0, rotation: 0 }],
        table_expressions: vec![Expression::Fixed { column: 1, rotation: 0 }],
    });
    let out = lookups_text(&cs);
    assert!(out.contains(
        "  ∀ row : ℕ, row < c.usable_rows → ∃ lookup_row : ℕ, lookup_row < c.usable_rows ∧ -- Lookup number 1 name: \"range\"\n  \
         (c.get_advice 0 row) = (c.get_fixed 1 lookup_row)\n  \n"
    ));
    cs.shuffles.push(Argument {
        name: "my shuffle_x".to_string(),
        input_expressions: vec![Expression::Advice { column: 0, rotation: 0 }, Expression::Advice { column: 1, rotation: 0 }],
        table_expressions: vec![Expression::Advice { column: 2, rotation: 0 }, Expression::Advice { column: 3, rotation: 0 }],
    });
    let out = shuffles_text(&cs);
    assert_eq!(
        out,
        "def shuffle_my_shuffle__x (c: ValidCircuit P P_Prime): Prop := ∃ shuffle, is_shuffle c shuffle ∧ \
         (∀ row : ℕ, row < c.usable_rows → (c.get_advice 0 row, c.get_advice 1 row) = \
         (c.get_advice 2 (shuffle row), c.get_advice 3 (shuffle row)))\n\
         def all_shuffles (c: ValidCircuit P P_Prime) : Prop := shuffle_my_shuffle__x c\n"
    );
}

#[test]
fn value_groups_and_annotations() {
    let mut col: RowMap<String> = RowMap::new();
    for (r, v) in [(1usize, "a"), (2, "a"), (3, "a"), (5, "b"), (6, "c"), (7, "c")] {
        col.insert(r, v.to_string());
    }
    let groups = group_values(&col);
    assert_eq!(
        groups,
        vec![("a".to_string(), 1, Some(3)), ("b".to_string(), 5, None), ("c".to_string(), 6, Some(7))]
    );
    assert_eq!(get_group_annotations(&col, 0, 10), Some("  -- 1-3: a\n  -- 5: b\n  -- 6-7: c".to_string()));
    assert_eq!(get_group_annotations(&col, 2, 5), Some("  -- 2-3: a\n  -- 5: b".to_string()));
    assert_eq!(get_group_annotations(&col, 8, 20), None);
    assert_eq!(make_lean_comment("one\ntwo"), "  --one\n  --two");
    assert_eq!(make_lean_comment(""), "  --");
}

#[test]
fn annotation_maps_keep_last_write() {
    let mut a: RowMap<(Option<String>, RowMap<String>)> = RowMap::new();
    update_row_annotation(&mut a, 2, 4, "x".to_string());
    update_row_annotation(&mut a, 2, 4, "y".to_string());
    update_column_annotation(&mut a, 2, "col".to_string());
    update_column_annotation(&mut a, 5, "other".to_string());
    let (col, rows) = a.get(2).unwrap();
    assert_eq!(col.as_deref(), Some("col"));
    assert_eq!(rows.get(4), Some(&"y".to_string()));
    assert_eq!(a.get(5).unwrap().1.len(), 0);
    let out = annotations_text("Advice", &a);
    assert_eq!(
        out,
        "  -- Advice column annotations:\n-- Advice Column 2\n  --col\n  -- 4: y\n-- Advice Column 5\n  --other\n"
    );
    let empty: RowMap<(Option<String>, RowMap<String>)> = RowMap::new();
    assert_eq!(annotations_text("Instance", &empty), "  -- Instance column annotations:\n  -- None\n");
}

#[test]
fn recorder_annotations_and_challenges() {
    let mut rec = ExtractingAssignment::new();
    rec.annotate_column("witness".to_string(), advice(1));
    rec.annotate_column("public".to_string(), instance(0));
    rec.annotate_column("consts".to_string(), Column { kind: ColumnKind::Fixed, index: 0 });
    assert_eq!(rec.advice_column_annotations.len(), 1);
    assert_eq!(rec.instance_column_annotations.len(), 1);
    assert_eq!(rec.fixed_column_annotations.len(), 1);
    let ch = rec.get_challenge(2, 1);
    assert_eq!(text(&ch), "c.get_challenge 2 1");
    rec.assign_fixed(String::new(), 0, 0, Some(TermField::one()));
    assert!(rec.fixed_text().contains("    | 0 => fixed_func_col_0 c row   --consts\n"));
}

#[test]
fn preamble_postamble_and_phases() {
    let mut cs = empty_metadata();
    cs.advice_column_phase = vec![0, 1, 0, 2];
    cs.minimum_rows = 12;
    cs.blinding_factors = 3;
    assert_eq!(
        advice_phase_text(&cs),
        "def advice_phase (c: ValidCircuit P P_Prime) : ℕ → ℕ :=\n  λ col => match col with\n  | 1 => 1\n  | 3 => 2\n  | _ => 0\n"
    );
    let pre = preamble_text("Ns", &vec!["u".to_string(), "v".to_string()], &cs);
    assert!(pre.contains("namespace Ns\n\n"));
    assert!(pre.contains("  mult_gen: ZMod P\n  sym_u: ZMod P\n  sym_v: ZMod P\nvariable {P: ℕ} {P_Prime: Nat.Prime P}\n"));
    assert!(pre.contains("(col < 4 ∧ c.AdvicePhase col ≤ phase)"));
    assert!(pre.ends_with("  c.n ≥ 12 --cs.minimum_rows\n--End preamble\n"));
    let post = postamble_text("Ns", &cs, 40);
    assert!(post.contains("  c.1.num_blinding_factors = 3 ∧\n"));
    assert!(post.contains("  c.usable_rows ≥ 40 ∧\n"));
    assert!(post.ends_with("end Ns\n"));
}

#[test]
fn row_map_keeps_keys_ordered() {
    let mut m: RowMap<u8> = RowMap::new();
    assert!(m.is_empty());
    m.insert(5, 1);
    m.insert(1, 2);
    m.insert(3, 3);
    m.insert(5, 4);
    assert_eq!(m.len(), 3);
    assert_eq!(m.entry(0), (1, &2));
    assert_eq!(m.entry(2), (5, &4));
    assert_eq!(m.take(3), Some(3));
    assert_eq!(m.take(3), None);
    assert!(!m.contains_key(3));
    assert_eq!(m.get(1), Some(&2));
}
