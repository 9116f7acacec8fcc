use vstd::prelude::*;
use vstd::string::*;

use crate::recorder::{ExtractingAssignment, nested_wf};
use crate::rowmap::{RowMap, lemma_entry_in_map};
use crate::fixed::{texts, value_at};
use crate::runs::{covered, group_values, is_runs_of, is_value_groups, selector_runs};
use crate::text::{concat_all, decimal, join, joined, lean_comment, lemma_concat_push, push_decimal};
use crate::annotations::make_lean_comment;

verus! {

/// One run of enabled rows as a branch of the selector's function.
pub open spec fn selector_run_text(run: (usize, usize)) -> Seq<char> {
    if run.0 == 0 {
        "if row < "@ + decimal((run.1 + 1) as nat) + " then 1"@
    } else {
        "if row < "@ + decimal(run.0 as nat) + " then 0\n  else if row < "@ + decimal((run.1 + 1) as nat) + " then 1"@
    }
}

/// The definition of the function of selector `col`, whose enabled rows
/// form the runs `runs`: one on the runs, zero elsewhere.
pub open spec fn selector_column_text(col: usize, runs: Seq<(usize, usize)>) -> Seq<char> {
    "def selector_func_col_"@ + decimal(col as nat) + " (c: ValidCircuit P P_Prime) : ℕ → ZMod P :=\n"@
    + if runs.len() == 0 {
        "  λ _ => 0\n"@
    } else {
        "  λ row =>\n  "@ + joined(runs.map_values(|r: (usize, usize)| selector_run_text(r)), "\n  else "@)
        + "\n  else 0\n"@
    }
}

/// The branch of `selector_func` for selector `col`.
pub open spec fn selector_arm_text(col: usize) -> Seq<char> {
    "    | "@ + decimal(col as nat) + " => selector_func_col_"@ + decimal(col as nat) + " c row\n"@
}

/// The definitions of every selector's function, then `selector_func`,
/// which picks among them by column.
pub open spec fn selectors_text(cols: Seq<usize>, runs: Seq<Seq<(usize, usize)>>) -> Seq<char> {
    concat_all(Seq::new(cols.len(), |i: int| selector_column_text(cols[i], runs[i])))
    + "def selector_func (c: ValidCircuit P P_Prime) : ℕ → ℕ → ZMod P :=\n  λ col row => match col with\n"@
    + concat_all(Seq::new(cols.len(), |i: int| selector_arm_text(cols[i])))
    + "    | _ => 0\n"@
}

fn selector_column_def(col: usize, rows: &RowMap<String>) -> (r: String)
    requires
        rows.wf(),
    ensures
        exists|runs: Seq<(usize, usize)>| is_runs_of(rows@.dom(), runs) && r@ == selector_column_text(col, runs),
{
    let runs = selector_runs(rows);
    let mut r = String::from_str("def selector_func_col_");
    push_decimal(&mut r, col as u128);
    r.append(" (c: ValidCircuit P P_Prime) : ℕ → ZMod P :=\n");
    if runs.len() == 0 {
        r.append("  λ _ => 0\n");
    } else {
        let mut parts: Vec<String> = Vec::new();
        let mut i: usize = 0;
        while i < runs.len()
            invariant
                i <= runs@.len(),
                parts@.len() == i,
                forall|x: int| 0 <= x < i ==> #[trigger] parts@[x]@ == selector_run_text(runs@[x]),
            decreases runs@.len() - i,
        {
            let (start, end) = runs[i];
            let mut p = String::from_str("if row < ");
            if start == 0 {
                push_decimal(&mut p, end as u128 + 1);
                p.append(" then 1");
            } else {
                push_decimal(&mut p, start as u128);
                p.append(" then 0\n  else if row < ");
                push_decimal(&mut p, end as u128 + 1);
                p.append(" then 1");
            }
            proof {
                assert(p@ =~= selector_run_text(runs@[i as int]));
            }
            parts.push(p);
            i = i + 1;
        }
        let body = join(&parts, "\n  else ");
        proof {
            assert(parts@.map_values(|p: String| p@) =~= runs@.map_values(|r: (usize, usize)| selector_run_text(r)));
        }
        r.append("  λ row =>\n  ");
        r.append(body.as_str());
        r.append("\n  else 0\n");
    }
    proof {
        assert(r@ =~= selector_column_text(col, runs@));
    }
    r
}

impl ExtractingAssignment {
    /// The keys of a map, in increasing order.
    pub open spec fn keys_of<V>(m: RowMap<V>) -> Seq<usize> {
        m.seq().map_values(|e: (usize, V)| e.0)
    }

    /// `text` is the selector section: each selector's function is one on
    /// the maximal runs of its enabled rows (which `lemma_runs_unique` shows
    /// to be unique).
    pub open spec fn selectors_section_ok(&self, text: Seq<char>) -> bool {
        exists|runs: Seq<Seq<(usize, usize)>>| {
            &&& runs.len() == self.selectors.seq().len()
            &&& forall|i: int| 0 <= i < runs.len() ==>
                #[trigger] is_runs_of(self.selectors.seq()[i].1@.dom(), runs[i])
            &&& text == selectors_text(Self::keys_of(self.selectors), runs)
        }
    }

    /// The definitions of the selectors' functions: each is one on the
    /// maximal runs of rows where the selector is enabled, zero elsewhere.
    pub fn selectors_text(&self) -> (r: String)
        requires
            nested_wf(self.selectors),
        ensures
            self.selectors_section_ok(r@),
    {
        let n = self.selectors.len();
        let ghost cols = Self::keys_of(self.selectors);
        let ghost mut runs: Seq<Seq<(usize, usize)>> = Seq::empty();
        let mut r = String::new();
        let mut i: usize = 0;
        while i < n
            invariant
                n == self.selectors.seq().len(),
                nested_wf(self.selectors),
                cols == Self::keys_of(self.selectors),
                i <= n,
                runs.len() == i,
                forall|x: int| 0 <= x < i ==> #[trigger] is_runs_of(self.selectors.seq()[x].1@.dom(), runs[x]),
                r@ == concat_all(Seq::new(i as nat, |x: int| selector_column_text(cols[x], runs[x]))),
            decreases n - i,
        {
            let (col, rows) = self.selectors.entry(i);
            proof {
                lemma_entry_in_map(self.selectors.seq(), i as int);
                assert(self.selectors@.contains_key(col));
            }
            let def = selector_column_def(col, rows);
            let ghost chosen = choose|x: Seq<(usize, usize)>| is_runs_of(rows@.dom(), x) && def@ == selector_column_text(col, x);
            proof {
                let before = Seq::new(i as nat, |x: int| selector_column_text(cols[x], runs[x]));
                runs = runs.push(chosen);
                let after = Seq::new(i as nat + 1, |x: int| selector_column_text(cols[x], runs[x]));
                assert(after.drop_last() =~= before);
            }
            r.append(def.as_str());
            i = i + 1;
        }
        let ghost head = r@;
        r.append("def selector_func (c: ValidCircuit P P_Prime) : ℕ → ℕ → ZMod P :=\n  λ col row => match col with\n");
        let ghost mid = r@;
        let mut j: usize = 0;
        while j < n
            invariant
                n == self.selectors.seq().len(),
                cols == Self::keys_of(self.selectors),
                j <= n,
                r@ == mid + concat_all(Seq::new(j as nat, |x: int| selector_arm_text(cols[x]))),
            decreases n - j,
        {
            let (col, _) = self.selectors.entry(j);
            let mut arm = String::from_str("    | ");
            push_decimal(&mut arm, col as u128);
            arm.append(" => selector_func_col_");
            push_decimal(&mut arm, col as u128);
            arm.append(" c row\n");
            proof {
                let before = Seq::new(j as nat, |x: int| selector_arm_text(cols[x]));
                let after = Seq::new(j as nat + 1, |x: int| selector_arm_text(cols[x]));
                assert(after.drop_last() =~= before);
                assert(arm@ =~= selector_arm_text(cols[j as int]));
            }
            r.append(arm.as_str());
            j = j + 1;
        }
        r.append("    | _ => 0\n");
        proof {
            assert(r@ =~= selectors_text(cols, runs));
        }
        r
    }
}


/// The number of clauses or propositions that one definition holds at most.
pub const GROUPING_SIZE: usize = 10;

/// A clause of a fixed column's function: a value (a text) on the row
/// `start`, or on the rows `start` to `end`.
pub type Clause = (Seq<char>, usize, Option<usize>);

pub open spec fn clause_of(g: (String, usize, Option<usize>)) -> Clause {
    (g.0@, g.1, g.2)
}

pub open spec fn clause_end(c: Clause) -> usize {
    match c.2 {
        Some(e) => e,
        None => c.1,
    }
}

pub open spec fn clause_text(c: Clause) -> Seq<char> {
    match c.2 {
        Some(e) => "if row ≥ "@ + decimal(c.1 as nat) + " ∧ row ≤ "@ + decimal(e as nat) + " then "@ + c.0,
        None => "if row = "@ + decimal(c.1 as nat) + " then "@ + c.0,
    }
}

/// The clauses as a chain of `if ... then ... else`, one per line.
pub open spec fn chain_text(cs: Seq<Clause>) -> Seq<char> {
    concat_all(Seq::new(cs.len(), |i: int| (if i == 0 { "  "@ } else { "  else "@ }) + clause_text(cs[i]) + "\n"@))
}

/// The name of the definition that holds the clauses `chunk` of column `col`.
pub open spec fn part_name(col: usize, chunk: Seq<Clause>) -> Seq<char> {
    "fixed_func_col_"@ + decimal(col as nat) + "_"@ + decimal(chunk[0].1 as nat) + "_to_"@
        + decimal(clause_end(chunk.last()) as nat)
}

/// The definition of a part of column `col` holding the clauses `chunk`;
/// a row of the part's range that no clause covers gets the column's fill.
pub open spec fn part_def(col: usize, chunk: Seq<Clause>, fill: Option<(usize, Seq<char>)>) -> Seq<char> {
    "def "@ + part_name(col, chunk) + " (c: ValidCircuit P P_Prime) : ℕ → ZMod P :=\n  λ row =>\n"@
        + chain_text(chunk) + fill_text(false, fill) + "  else c.1.FixedUnassigned "@ + decimal(col as nat) + " row\n"@
}

/// The clause that stands for a part: its rows, and the part's value there.
pub open spec fn part_clause(col: usize, chunk: Seq<Clause>) -> Clause {
    (part_name(col, chunk) + " c row"@, chunk[0].1, Some(clause_end(chunk.last())))
}

/// One level of grouping: the clauses are cut into chunks of `g`; a chunk of
/// two or more becomes a part, defined in the text, and stands as one clause
/// of the next level. Gives the parts' definitions and the next level.
#[verifier::opaque]
pub open spec fn chunk_level(col: usize, cs: Seq<Clause>, g: nat, fill: Option<(usize, Seq<char>)>) -> (Seq<char>, Seq<Clause>)
    decreases cs.len(),
{
    if cs.len() == 0 || g == 0 {
        (Seq::empty(), cs)
    } else {
        let m = if cs.len() < g { cs.len() } else { g };
        let chunk = cs.take(m as int);
        let rest = chunk_level(col, cs.skip(m as int), g, fill);
        if m == 1 {
            (rest.0, seq![chunk[0]] + rest.1)
        } else {
            (part_def(col, chunk, fill) + rest.0, seq![part_clause(col, chunk)] + rest.1)
        }
    }
}

/// Levels of grouping until at most `g` clauses are left: the definitions
/// of all parts, and the clauses left. `fuel` bounds the number of levels.
pub open spec fn grouped_levels(col: usize, cs: Seq<Clause>, g: nat, fuel: nat, fill: Option<(usize, Seq<char>)>) -> (Seq<char>, Seq<Clause>)
    decreases fuel,
{
    if cs.len() <= g || fuel == 0 {
        (Seq::empty(), cs)
    } else {
        let level = chunk_level(col, cs, g, fill);
        let rest = grouped_levels(col, level.1, g, (fuel - 1) as nat, fill);
        (level.0 + rest.0, rest.1)
    }
}

/// The branch of a fixed column's function that the fill gives.
pub open spec fn fill_text(first: bool, fill: Option<(usize, Seq<char>)>) -> Seq<char> {
    match fill {
        Some((start, v)) => (if first { "  "@ } else { "  else "@ }) + "if row ≥ "@ + decimal(start as nat)
            + " then "@ + v + "\n"@,
        None => Seq::empty(),
    }
}

/// The definitions of column `col`, whose values form the groups `groups`
/// and whose fill is `fill`: the parts, then the column's function.
#[verifier::opaque]
pub open spec fn fixed_column_text(col: usize, groups: Seq<Clause>, fill: Option<(usize, Seq<char>)>) -> Seq<char> {
    let levels = grouped_levels(col, groups, GROUPING_SIZE as nat, groups.len(), fill);
    levels.0 + column_function_text(col, levels.1, fill)
}

/// The definition of the function of column `col` from the clauses `cs`
/// and the fill: at a row, the value of the first clause that covers it,
/// else the fill's value from its start on, else the unassigned marker.
/// `chain_value` is what it gives a row.
pub open spec fn column_function_text(col: usize, cs: Seq<Clause>, fill: Option<(usize, Seq<char>)>) -> Seq<char> {
    "def fixed_func_col_"@ + decimal(col as nat) + " (c: ValidCircuit P P_Prime) : ℕ → ZMod P :=\n  λ row =>\n"@
        + chain_text(cs) + fill_text(cs.len() == 0, fill)
        + "  else c.1.FixedUnassigned "@ + decimal(col as nat) + " row\n"@
}

/// A fill as plain values.
pub open spec fn fill_view(fill: Option<&(usize, String)>) -> Option<(usize, Seq<char>)> {
    match fill {
        Some(f) => Some((f.0, f.1@)),
        None => None,
    }
}

fn push_fill(s: &mut String, first: bool, fill: Option<&(usize, String)>)
    ensures
        final(s)@ == old(s)@ + fill_text(first, fill_view(fill)),
{
    match fill {
        Some(f) => {
            if first {
                s.append("  ");
            } else {
                s.append("  else ");
            }
            s.append("if row ≥ ");
            push_decimal(s, f.0 as u128);
            s.append(" then ");
            s.append(f.1.as_str());
            s.append("\n");
            proof {
                assert(final(s)@ =~= old(s)@ + fill_text(first, fill_view(fill)));
            }
        },
        None => {
            assert(final(s)@ =~= old(s)@ + fill_text(first, fill_view(fill)));
        },
    }
}

fn push_clause(s: &mut String, c: &(String, usize, Option<usize>), first: bool)
    ensures
        final(s)@ == old(s)@ + (if first { "  "@ } else { "  else "@ }) + clause_text(clause_of(*c)) + "\n"@,
{
    if first {
        s.append("  ");
    } else {
        s.append("  else ");
    }
    match c.2 {
        Some(e) => {
            s.append("if row ≥ ");
            push_decimal(s, c.1 as u128);
            s.append(" ∧ row ≤ ");
            push_decimal(s, e as u128);
            s.append(" then ");
        },
        None => {
            s.append("if row = ");
            push_decimal(s, c.1 as u128);
            s.append(" then ");
        },
    }
    s.append(c.0.as_str());
    s.append("\n");
    proof {
        assert(final(s)@ =~= old(s)@ + (if first { "  "@ } else { "  else "@ }) + clause_text(clause_of(*c)) + "\n"@);
    }
}

/// Appends the chain of clauses `cs[from..to]`.
fn push_chain(s: &mut String, cs: &Vec<(String, usize, Option<usize>)>, from: usize, to: usize)
    requires
        from <= to <= cs@.len(),
    ensures
        final(s)@ == old(s)@ + chain_text(cs@.subrange(from as int, to as int).map_values(|g: (String, usize, Option<usize>)| clause_of(g))),
{
    let ghost views = cs@.subrange(from as int, to as int).map_values(|g: (String, usize, Option<usize>)| clause_of(g));
    let ghost s0 = s@;
    let ghost parts = Seq::new(views.len(), |i: int| (if i == 0 { "  "@ } else { "  else "@ }) + clause_text(views[i]) + "\n"@);
    let mut i: usize = from;
    while i < to
        invariant
            from <= i <= to,
            to <= cs@.len(),
            views == cs@.subrange(from as int, to as int).map_values(|g: (String, usize, Option<usize>)| clause_of(g)),
            parts == Seq::new(views.len(), |i: int| (if i == 0 { "  "@ } else { "  else "@ }) + clause_text(views[i]) + "\n"@),
            s@ == s0 + concat_all(parts.take(i - from)),
        decreases to - i,
    {
        proof {
            lemma_concat_push(parts, i - from);
            assert(views[i - from] == clause_of(cs@[i as int]));
        }
        push_clause(s, &cs[i], i == from);
        i = i + 1;
    }
    proof {
        assert(parts.take(to - from) =~= parts);
    }
}

/// The name of the part holding `cs[from..to]`.
fn push_part_name(s: &mut String, col: usize, cs: &Vec<(String, usize, Option<usize>)>, from: usize, to: usize)
    requires
        from < to <= cs@.len(),
    ensures
        final(s)@ == old(s)@ + part_name(col, cs@.subrange(from as int, to as int).map_values(|g: (String, usize, Option<usize>)| clause_of(g))),
{
    let ghost chunk = cs@.subrange(from as int, to as int).map_values(|g: (String, usize, Option<usize>)| clause_of(g));
    s.append("fixed_func_col_");
    push_decimal(s, col as u128);
    s.append("_");
    push_decimal(s, cs[from].1 as u128);
    s.append("_to_");
    let last = &cs[to - 1];
    let end = match last.2 {
        Some(e) => e,
        None => last.1,
    };
    push_decimal(s, end as u128);
    proof {
        assert(chunk[0] == clause_of(cs@[from as int]));
        assert(chunk.last() == clause_of(cs@[to - 1]));
        assert(final(s)@ =~= old(s)@ + part_name(col, chunk));
    }
}

/// One step of `chunk_level` from position `i`.
proof fn lemma_chunk_level_step(col: usize, all: Seq<Clause>, g: nat, fill: Option<(usize, Seq<char>)>, i: int, j: int)
    requires
        g >= 2,
        0 <= i < j <= all.len(),
        j == if all.len() - i < g { all.len() as int } else { i + g },
    ensures
        chunk_level(col, all.skip(i), g, fill) == if j - i == 1 {
            (chunk_level(col, all.skip(j), g, fill).0, seq![all[i]] + chunk_level(col, all.skip(j), g, fill).1)
        } else {
            (part_def(col, all.subrange(i, j), fill) + chunk_level(col, all.skip(j), g, fill).0,
             seq![part_clause(col, all.subrange(i, j))] + chunk_level(col, all.skip(j), g, fill).1)
        },
{
    reveal(chunk_level);
    let rest_all = all.skip(i);
    assert(rest_all.take(j - i) =~= all.subrange(i, j));
    assert(rest_all.skip(j - i) =~= all.skip(j));
}

/// One level of grouping of the clauses `cs` of column `col`: appends the
/// parts' definitions to `s` and returns the next level.
fn chunk_clauses(s: &mut String, col: usize, cs: &Vec<(String, usize, Option<usize>)>, g: usize, fill: Option<&(usize, String)>)
    -> (next: Vec<(String, usize, Option<usize>)>)
    requires
        g >= 2,
    ensures
        final(s)@ == old(s)@ + chunk_level(col, cs@.map_values(|c: (String, usize, Option<usize>)| clause_of(c)), g as nat, fill_view(fill)).0,
        next@.map_values(|c: (String, usize, Option<usize>)| clause_of(c))
            == chunk_level(col, cs@.map_values(|c: (String, usize, Option<usize>)| clause_of(c)), g as nat, fill_view(fill)).1,
        2 * next@.len() <= cs@.len() + 1,
{
    let ghost all = cs@.map_values(|c: (String, usize, Option<usize>)| clause_of(c));
    let ghost s0 = s@;
    let mut next: Vec<(String, usize, Option<usize>)> = Vec::new();
    let n = cs.len();
    let mut i: usize = 0;
    proof {
        assert(all.skip(0) =~= all);
        assert(next@.map_values(|c: (String, usize, Option<usize>)| clause_of(c)) + chunk_level(col, all, g as nat, fill_view(fill)).1
            =~= chunk_level(col, all, g as nat, fill_view(fill)).1);
    }
    while i < n
        invariant
            g >= 2,
            n == cs@.len(),
            i <= n,
            all == cs@.map_values(|c: (String, usize, Option<usize>)| clause_of(c)),
            s@ + chunk_level(col, all.skip(i as int), g as nat, fill_view(fill)).0 == s0 + chunk_level(col, all, g as nat, fill_view(fill)).0,
            next@.map_values(|c: (String, usize, Option<usize>)| clause_of(c)) + chunk_level(col, all.skip(i as int), g as nat, fill_view(fill)).1
                == chunk_level(col, all, g as nat, fill_view(fill)).1,
            2 * next@.len() <= i + 1,
            i < n ==> 2 * next@.len() <= i,
        decreases n - i,
    {
        let j: usize = if n - i < g { n } else { i + g };
        let ghost chunk = all.subrange(i as int, j as int);
        let ghost before_next = next@.map_values(|c: (String, usize, Option<usize>)| clause_of(c));
        proof {
            lemma_chunk_level_step(col, all, g as nat, fill_view(fill), i as int, j as int);
            assert(chunk =~= cs@.subrange(i as int, j as int).map_values(|g: (String, usize, Option<usize>)| clause_of(g)));
        }
        if j - i == 1 {
            next.push((cs[i].0.clone(), cs[i].1, cs[i].2));
            proof {
                assert(next@.map_values(|c: (String, usize, Option<usize>)| clause_of(c)) =~= before_next.push(chunk[0]));
            }
        } else {
            let ghost before_s = s@;
            s.append("def ");
            push_part_name(s, col, cs, i, j);
            s.append(" (c: ValidCircuit P P_Prime) : ℕ → ZMod P :=\n  λ row =>\n");
            push_chain(s, cs, i, j);
            push_fill(s, false, fill);
            s.append("  else c.1.FixedUnassigned ");
            push_decimal(s, col as u128);
            s.append(" row\n");
            proof {
                assert(s@ =~= before_s + part_def(col, chunk, fill_view(fill)));
            }
            let mut name = String::new();
            push_part_name(&mut name, col, cs, i, j);
            name.append(" c row");
            let last = &cs[j - 1];
            let end = match last.2 {
                Some(e) => e,
                None => last.1,
            };
            next.push((name, cs[i].1, Some(end)));
            proof {
                assert(chunk[0] == clause_of(cs@[i as int]));
                assert(chunk.last() == clause_of(cs@[j - 1]));
                assert(next@.map_values(|c: (String, usize, Option<usize>)| clause_of(c)) =~= before_next.push(part_clause(col, chunk)));
            }
        }
        i = j;
    }
    proof {
        reveal(chunk_level);
        assert(all.skip(n as int).len() == 0);
    }
    next
}


/// The definitions of column `col` from its explicit values `rows` and its
/// fill.
fn fixed_column_def(col: usize, rows: &RowMap<String>, fill: Option<&(usize, String)>) -> (r: String)
    requires
        rows.wf(),
    ensures
        exists|groups: Seq<(String, usize, Option<usize>)>| {
            &&& is_value_groups(rows@, groups)
            &&& r@ == fixed_column_text(
                col,
                groups.map_values(|c: (String, usize, Option<usize>)| clause_of(c)),
                fill_view(fill),
            )
        },
{
    let groups = group_values(rows);
    let ghost g0 = groups@.map_values(|c: (String, usize, Option<usize>)| clause_of(c));
    let ghost fuel0 = g0.len();
    let ghost mut fuel = fuel0;
    let mut r = String::new();
    let mut cur = groups;
    while cur.len() > GROUPING_SIZE
        invariant
            fuel >= cur@.len(),
            r@ + grouped_levels(col, cur@.map_values(|c: (String, usize, Option<usize>)| clause_of(c)), GROUPING_SIZE as nat, fuel, fill_view(fill)).0
                == grouped_levels(col, g0, GROUPING_SIZE as nat, fuel0, fill_view(fill)).0,
            grouped_levels(col, cur@.map_values(|c: (String, usize, Option<usize>)| clause_of(c)), GROUPING_SIZE as nat, fuel, fill_view(fill)).1
                == grouped_levels(col, g0, GROUPING_SIZE as nat, fuel0, fill_view(fill)).1,
        decreases cur@.len(),
    {
        let ghost before = r@;
        let ghost cv = cur@.map_values(|c: (String, usize, Option<usize>)| clause_of(c));
        let next = chunk_clauses(&mut r, col, &cur, GROUPING_SIZE, fill);
        proof {
            assert(cv.len() == cur@.len());
            assert(grouped_levels(col, cv, GROUPING_SIZE as nat, fuel, fill_view(fill)).0
                == chunk_level(col, cv, GROUPING_SIZE as nat, fill_view(fill)).0
                + grouped_levels(col, chunk_level(col, cv, GROUPING_SIZE as nat, fill_view(fill)).1, GROUPING_SIZE as nat, (fuel - 1) as nat, fill_view(fill)).0);
            fuel = (fuel - 1) as nat;
            assert(next@.map_values(|c: (String, usize, Option<usize>)| clause_of(c)).len() == next@.len());
        }
        cur = next;
    }
    let ghost left = cur@.map_values(|c: (String, usize, Option<usize>)| clause_of(c));
    proof {
        assert(left.len() == cur@.len());
        assert(grouped_levels(col, g0, GROUPING_SIZE as nat, fuel0, fill_view(fill)).0 == r@);
        assert(grouped_levels(col, g0, GROUPING_SIZE as nat, fuel0, fill_view(fill)).1 == left);
    }
    r.append("def fixed_func_col_");
    push_decimal(&mut r, col as u128);
    r.append(" (c: ValidCircuit P P_Prime) : ℕ → ZMod P :=\n  λ row =>\n");
    push_chain(&mut r, &cur, 0, cur.len());
    proof {
        assert(cur@.subrange(0, cur@.len() as int) =~= cur@);
    }
    push_fill(&mut r, cur.len() == 0, fill);
    r.append("  else c.1.FixedUnassigned ");
    push_decimal(&mut r, col as u128);
    r.append(" row\n");
    proof {
        let fv = fill_view(fill);
        reveal(fixed_column_text);
        assert(r@ =~= fixed_column_text(col, g0, fv));
    }
    r
}

/// The annotation of a column in an annotation map, if it has one.
pub open spec fn column_annotation_of(a: Map<usize, (Option<String>, RowMap<String>)>, col: usize) -> Option<Seq<char>> {
    if a.contains_key(col) {
        match a[col].0 {
            Some(t) => Some(t@),
            None => None,
        }
    } else {
        None
    }
}

/// The branch of `fixed_func` for column `col`, with the column's
/// annotation as a comment.
pub open spec fn fixed_arm_text(col: usize, annotation: Option<Seq<char>>) -> Seq<char> {
    "    | "@ + decimal(col as nat) + " => fixed_func_col_"@ + decimal(col as nat) + " c row"@
        + match annotation {
            Some(a) => " "@ + lean_comment(a),
            None => Seq::empty(),
        }
        + "\n"@
}

/// `clauses` are the clauses of the groups of equal values of `rows`.
pub open spec fn clauses_of_column(rows: Map<usize, String>, clauses: Seq<Clause>) -> bool {
    exists|g: Seq<(String, usize, Option<usize>)>| {
        &&& is_value_groups(rows, g)
        &&& clauses == g.map_values(|c: (String, usize, Option<usize>)| clause_of(c))
    }
}

impl ExtractingAssignment {
    /// The fixed section: the definitions of every fixed column, then
    /// `fixed_func`, which picks among them by column.
    pub open spec fn fixed_section_text(&self, groups: Seq<Seq<Clause>>) -> Seq<char> {
        let cols = Self::keys_of(self.fixed);
        concat_all(Seq::new(cols.len(), |i: int| fixed_column_text(cols[i], groups[i], self.fixed_column(cols[i]).1)))
        + "def fixed_func (c: ValidCircuit P P_Prime) : ℕ → ℕ → ZMod P :=\n  λ col row => match col with\n"@
        + concat_all(Seq::new(cols.len(), |i: int|
            fixed_arm_text(cols[i], column_annotation_of(self.fixed_column_annotations@, cols[i]))))
        + "    | _ => c.1.FixedUnassigned col row\n"@
    }

    /// `text` is the fixed section, where each column's clauses are the
    /// groups of equal values of its explicit values (which
    /// `lemma_value_groups_unique` shows to be unique).
    pub open spec fn fixed_section_ok(&self, text: Seq<char>) -> bool {
        exists|groups: Seq<Seq<Clause>>| {
            &&& groups.len() == self.fixed.seq().len()
            &&& forall|i: int| 0 <= i < groups.len() ==> clauses_of_column(self.fixed.seq()[i].1@, #[trigger] groups[i])
            &&& text == self.fixed_section_text(groups)
        }
    }

    /// The definitions of the fixed columns: each column's values grouped
    /// into ranges of equal values, its fill, and the unassigned marker
    /// elsewhere.
    #[verifier::rlimit(60)]
    pub fn fixed_text(&self) -> (r: String)
        requires
            self.wf(),
        ensures
            self.fixed_section_ok(r@),
    {
        let n = self.fixed.len();
        let ghost cols = Self::keys_of(self.fixed);
        let ghost mut groups: Seq<Seq<Clause>> = Seq::empty();
        let mut r = String::new();
        let mut i: usize = 0;
        while i < n
            invariant
                n == self.fixed.seq().len(),
                nested_wf(self.fixed),
                self.fixed_fill.wf(),
                cols == Self::keys_of(self.fixed),
                i <= n,
                groups.len() == i,
                forall|x: int| 0 <= x < i ==> clauses_of_column(self.fixed.seq()[x].1@, #[trigger] groups[x]),
                r@ == concat_all(Seq::new(i as nat, |x: int| fixed_column_text(cols[x], groups[x], self.fixed_column(cols[x]).1))),
            decreases n - i,
        {
            let (col, rows) = self.fixed.entry(i);
            proof {
                lemma_entry_in_map(self.fixed.seq(), i as int);
                assert(self.fixed@.contains_key(col));
            }
            let def = fixed_column_def(col, rows, self.fixed_fill.get(col));
            let ghost chosen = choose|g: Seq<(String, usize, Option<usize>)>| {
                &&& is_value_groups(rows@, g)
                &&& def@ == fixed_column_text(col, g.map_values(|c: (String, usize, Option<usize>)| clause_of(c)),
                    self.fixed_column(col).1)
            };
            proof {
                let before = Seq::new(i as nat, |x: int| fixed_column_text(cols[x], groups[x], self.fixed_column(cols[x]).1));
                let old_groups = groups;
                groups = groups.push(chosen.map_values(|c: (String, usize, Option<usize>)| clause_of(c)));
                let after = Seq::new(i as nat + 1, |x: int| fixed_column_text(cols[x], groups[x], self.fixed_column(cols[x]).1));
                assert(after.drop_last() =~= before);
                assert forall|x: int| 0 <= x < i + 1 implies clauses_of_column(self.fixed.seq()[x].1@, #[trigger] groups[x]) by {
                    if x < i {
                        assert(groups[x] == old_groups[x]);
                    } else {
                        assert(is_value_groups(self.fixed.seq()[x].1@, chosen));
                    }
                }
            }
            r.append(def.as_str());
            i = i + 1;
        }
        let ghost head = r@;
        r.append("def fixed_func (c: ValidCircuit P P_Prime) : ℕ → ℕ → ZMod P :=\n  λ col row => match col with\n");
        let ghost mid = r@;
        let mut j: usize = 0;
        while j < n
            invariant
                n == self.fixed.seq().len(),
                self.wf(),
                cols == Self::keys_of(self.fixed),
                j <= n,
                r@ == mid + concat_all(Seq::new(j as nat, |x: int|
                    fixed_arm_text(cols[x], column_annotation_of(self.fixed_column_annotations@, cols[x])))),
            decreases n - j,
        {
            let (col, _) = self.fixed.entry(j);
            let mut arm = String::from_str("    | ");
            push_decimal(&mut arm, col as u128);
            arm.append(" => fixed_func_col_");
            push_decimal(&mut arm, col as u128);
            arm.append(" c row");
            match self.fixed_column_annotations.get(col) {
                Some(entry) => match &entry.0 {
                    Some(a) => {
                        arm.append(" ");
                        arm.append(make_lean_comment(a.as_str()).as_str());
                    },
                    None => {},
                },
                None => {},
            }
            arm.append("\n");
            proof {
                let before = Seq::new(j as nat, |x: int|
                    fixed_arm_text(cols[x], column_annotation_of(self.fixed_column_annotations@, cols[x])));
                let after = Seq::new(j as nat + 1, |x: int|
                    fixed_arm_text(cols[x], column_annotation_of(self.fixed_column_annotations@, cols[x])));
                assert(after.drop_last() =~= before);
                assert(arm@ =~= fixed_arm_text(cols[j as int], column_annotation_of(self.fixed_column_annotations@, cols[j as int])));
            }
            r.append(arm.as_str());
            j = j + 1;
        }
        r.append("    | _ => c.1.FixedUnassigned col row\n");
        proof {
            assert(r@ =~= self.fixed_section_text(groups));
            assert(groups.len() == self.fixed.seq().len());
        }
        r
    }
}


/// The clause covers the row.
pub open spec fn covers(c: Clause, row: usize) -> bool {
    c.1 <= row <= clause_end(c)
}

/// The value that a chain of clauses followed by a fill gives a row: the
/// value of the first clause that covers it, else the fill's value if the
/// fill has started, else none.
pub open spec fn chain_value(cs: Seq<Clause>, fill: Option<(usize, Seq<char>)>, row: usize) -> Option<Seq<char>>
    decreases cs.len(),
{
    if cs.len() == 0 {
        match fill {
            Some((start, v)) => if start <= row { Some(v) } else { None },
            None => None,
        }
    } else if covers(cs[0], row) {
        Some(cs[0].0)
    } else {
        chain_value(cs.drop_first(), fill, row)
    }
}

proof fn lemma_chain_value(cs: Seq<Clause>, fill: Option<(usize, Seq<char>)>, row: usize, i: int)
    requires
        0 <= i < cs.len(),
        covers(cs[i], row),
        forall|j: int| 0 <= j < i ==> !covers(#[trigger] cs[j], row),
    ensures
        chain_value(cs, fill, row) == Some(cs[i].0),
    decreases cs.len(),
{
    if i > 0 {
        assert(!covers(cs[0], row));
        assert forall|j: int| 0 <= j < i - 1 implies !covers(#[trigger] cs.drop_first()[j], row) by {
            assert(cs.drop_first()[j] == cs[j + 1]);
        }
        lemma_chain_value(cs.drop_first(), fill, row, i - 1);
    }
}

proof fn lemma_chain_fill(cs: Seq<Clause>, fill: Option<(usize, Seq<char>)>, row: usize)
    requires
        forall|j: int| 0 <= j < cs.len() ==> !covers(#[trigger] cs[j], row),
    ensures
        chain_value(cs, fill, row) == chain_value(Seq::empty(), fill, row),
    decreases cs.len(),
{
    if cs.len() > 0 {
        assert(!covers(cs[0], row));
        assert forall|j: int| 0 <= j < cs.len() - 1 implies !covers(#[trigger] cs.drop_first()[j], row) by {
            assert(cs.drop_first()[j] == cs[j + 1]);
        }
        lemma_chain_fill(cs.drop_first(), fill, row);
    }
}

/// Serializing a fixed column keeps its values: the chain of clauses made
/// from the groups of equal explicit values, followed by the fill, gives
/// every row exactly the value that the column holds there.
pub proof fn lemma_fixed_chain_faithful(
    rows: Map<usize, String>,
    groups: Seq<(String, usize, Option<usize>)>,
    fill: Option<(usize, Seq<char>)>,
    row: usize,
)
    requires
        is_value_groups(rows, groups),
    ensures
        chain_value(groups.map_values(|c: (String, usize, Option<usize>)| clause_of(c)), fill, row)
            == value_at((texts(rows), fill), row),
{
    let cs = groups.map_values(|c: (String, usize, Option<usize>)| clause_of(c));
    assert forall|j: int| 0 <= j < cs.len() implies (#[trigger] covers(cs[j], row)
        <==> groups[j].1 <= row <= crate::runs::group_end(groups[j])) by {
        assert(cs[j] == clause_of(groups[j]));
    }
    if rows.contains_key(row) {
        assert(crate::runs::in_group(groups, row));
        let i = choose|i: int| #![trigger groups[i]] 0 <= i < groups.len()
            && groups[i].1 <= row <= crate::runs::group_end(groups[i]);
        assert forall|j: int| 0 <= j < i implies !covers(#[trigger] cs[j], row) by {
            lemma_groups_ordered(groups, j, i);
        }
        lemma_chain_value(cs, fill, row, i);
        assert(rows[row]@ == groups[i].0@);
    } else {
        assert forall|j: int| 0 <= j < cs.len() implies !covers(#[trigger] cs[j], row) by {
            if groups[j].1 <= row <= crate::runs::group_end(groups[j]) {
                assert(rows.contains_key(row));
            }
        }
        lemma_chain_fill(cs, fill, row);
    }
}

/// Groups of equal values come in increasing order of rows.
proof fn lemma_groups_ordered(groups: Seq<(String, usize, Option<usize>)>, j: int, i: int)
    requires
        forall|x: int| #![trigger groups[x]] 0 <= x < groups.len() ==>
            groups[x].1 <= crate::runs::group_end(groups[x]),
        forall|x: int| #![trigger groups[x]] 0 <= x < groups.len() - 1 ==>
            crate::runs::group_end(groups[x]) < groups[x + 1].1,
        0 <= j < i < groups.len(),
    ensures
        crate::runs::group_end(groups[j]) < groups[i].1,
    decreases i - j,
{
    assert(crate::runs::group_end(groups[j]) < groups[j + 1].1);
    if j + 1 < i {
        lemma_groups_ordered(groups, j + 1, i);
        assert(groups[j + 1].1 <= crate::runs::group_end(groups[j + 1]));
    }
}


/// The value that the branches of a selector's function give a row: each
/// run first rules out the rows before it (zero), then gives its own rows
/// one; past the last run the value is zero.
pub open spec fn runs_value(runs: Seq<(usize, usize)>, row: usize) -> int
    decreases runs.len(),
{
    if runs.len() == 0 {
        0
    } else if row < runs[0].0 {
        0
    } else if row < runs[0].1 + 1 {
        1
    } else {
        runs_value(runs.drop_first(), row)
    }
}

/// A selector's function is one exactly on the rows where it is enabled.
pub proof fn lemma_selector_function_exact(rows: Set<usize>, runs: Seq<(usize, usize)>, row: usize)
    requires
        is_runs_of(rows, runs),
    ensures
        runs_value(runs, row) == if rows.contains(row) { 1int } else { 0int },
    decreases runs.len(),
{
    if runs.len() > 0 {
        let rest = runs.drop_first();
        let rest_rows = rows.filter(|r: usize| r > runs[0].1);
        assert forall|i: int| 0 <= i < rest.len() - 1 implies rest[i].1 + 1 < rest[i + 1].0 by {
            assert(rest[i] == runs[i + 1] && rest[i + 1] == runs[i + 2]);
        }
        assert forall|i: int| 0 <= i < runs.len() implies runs[0].0 <= #[trigger] runs[i].0 by {
            lemma_runs_ordered(runs, i);
        }
        assert forall|r: usize| rest_rows.contains(r) <==> covered(rest, r) by {
            if rest_rows.contains(r) {
                let i = choose|i: int| #![trigger runs[i]] 0 <= i < runs.len() && runs[i].0 <= r <= runs[i].1;
                assert(i != 0);
                assert(rest[i - 1] == runs[i]);
            }
            if covered(rest, r) {
                let i = choose|i: int| #![trigger rest[i]] 0 <= i < rest.len() && rest[i].0 <= r <= rest[i].1;
                assert(rest[i] == runs[i + 1]);
                lemma_runs_ordered(runs, i + 1);
                assert(covered(runs, r));
            }
        }
        lemma_selector_function_exact(rest_rows, rest, row);
        if row < runs[0].0 {
            if rows.contains(row) {
                let i = choose|i: int| #![trigger runs[i]] 0 <= i < runs.len() && runs[i].0 <= row <= runs[i].1;
            }
        } else if row < runs[0].1 + 1 {
            assert(covered(runs, row));
        } else {
            assert(rows.contains(row) == rest_rows.contains(row));
        }
    }
}

/// The runs start in increasing order, each after the first one ends.
proof fn lemma_runs_ordered(runs: Seq<(usize, usize)>, i: int)
    requires
        forall|x: int| 0 <= x < runs.len() ==> runs[x].0 <= runs[x].1,
        forall|x: int| 0 <= x < runs.len() - 1 ==> runs[x].1 + 1 < runs[x + 1].0,
        0 <= i < runs.len(),
    ensures
        runs[0].0 <= runs[i].0,
        i > 0 ==> runs[0].1 + 1 < runs[i].0,
    decreases i,
{
    if i > 0 {
        lemma_runs_ordered(runs, i - 1);
        assert(runs[i - 1].1 + 1 < runs[i].0);
    }
}


/// With at most `GROUPING_SIZE` groups, the column's text is the single
/// definition of its function over the groups' clauses, so by
/// `lemma_fixed_chain_faithful` it gives every row the value that the column
/// holds there.
pub proof fn lemma_fixed_column_text_flat(
    col: usize,
    rows: Map<usize, String>,
    groups: Seq<(String, usize, Option<usize>)>,
    fill: Option<(usize, Seq<char>)>,
    row: usize,
)
    requires
        is_value_groups(rows, groups),
        groups.len() <= GROUPING_SIZE,
    ensures
        fixed_column_text(col, groups.map_values(|c: (String, usize, Option<usize>)| clause_of(c)), fill)
            == column_function_text(col, groups.map_values(|c: (String, usize, Option<usize>)| clause_of(c)), fill),
        chain_value(groups.map_values(|c: (String, usize, Option<usize>)| clause_of(c)), fill, row)
            == value_at((texts(rows), fill), row),
{
    reveal(fixed_column_text);
    lemma_fixed_chain_faithful(rows, groups, fill, row);
}

/// Clauses in increasing order of rows, none overlapping.
pub open spec fn clauses_ordered(cs: Seq<Clause>) -> bool {
    &&& forall|x: int| #![trigger cs[x]] 0 <= x < cs.len() ==> cs[x].1 <= clause_end(cs[x])
    &&& forall|x: int| #![trigger cs[x]] 0 <= x < cs.len() - 1 ==> clause_end(cs[x]) < cs[x + 1].1
}

proof fn lemma_clauses_apart(cs: Seq<Clause>, x: int, y: int)
    requires
        clauses_ordered(cs),
        0 <= x < y < cs.len(),
    ensures
        clause_end(cs[x]) < cs[y].1,
    decreases y - x,
{
    assert(clause_end(cs[x]) < cs[x + 1].1);
    if x + 1 < y {
        lemma_clauses_apart(cs, x + 1, y);
        assert(cs[x + 1].1 <= clause_end(cs[x + 1]));
    }
}

/// A grouped part keeps the meaning of the chain: on every row of its range
/// it gives, with the fill after its clauses as in `part_def`, the value
/// that the whole chain of ordered clauses gives.
pub proof fn lemma_part_faithful(cs: Seq<Clause>, fill: Option<(usize, Seq<char>)>, i: int, j: int, row: usize)
    requires
        clauses_ordered(cs),
        0 <= i < j <= cs.len(),
        cs[i].1 <= row <= clause_end(cs[j - 1]),
    ensures
        chain_value(cs.subrange(i, j), fill, row) == chain_value(cs, fill, row),
{
    let part = cs.subrange(i, j);
    if exists|x: int| 0 <= x < cs.len() && covers(#[trigger] cs[x], row) {
        let x = choose|x: int| 0 <= x < cs.len() && covers(#[trigger] cs[x], row);
        if x < i {
            lemma_clauses_apart(cs, x, i);
        }
        if x >= j {
            lemma_clauses_apart(cs, j - 1, x);
            assert(cs[j - 1].1 <= clause_end(cs[j - 1]));
        }
        assert forall|y: int| 0 <= y < x implies !covers(#[trigger] cs[y], row) by {
            lemma_clauses_apart(cs, y, x);
        }
        lemma_chain_value(cs, fill, row, x);
        assert forall|y: int| 0 <= y < x - i implies !covers(#[trigger] part[y], row) by {
            assert(part[y] == cs[y + i]);
        }
        assert(part[x - i] == cs[x]);
        lemma_chain_value(part, fill, row, x - i);
    } else {
        assert forall|y: int| 0 <= y < part.len() implies !covers(#[trigger] part[y], row) by {
            assert(part[y] == cs[y + i]);
        }
        lemma_chain_fill(part, fill, row);
        lemma_chain_fill(cs, fill, row);
    }
}

} // verus!
