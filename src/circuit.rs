use vstd::prelude::*;

use crate::expr::Expression;
use crate::recorder::FIRST_PHASE;

verus! {

/// A gate: its name, its polynomials, and the names of their constraints;
/// a polynomial past the end of the names has an empty name.
pub struct Gate {
    pub name: String,
    pub polynomials: Vec<Expression>,
    pub constraint_names: Vec<String>,
}

/// A lookup or shuffle argument: its name, the input expressions, and the
/// expressions of the table (or of the shuffled rows).
pub struct Argument {
    pub name: String,
    pub input_expressions: Vec<Expression>,
    pub table_expressions: Vec<Expression>,
}

/// What the configuration of a circuit states: its gates, lookups and
/// shuffles, the phase of each advice column, the number of blinding rows
/// and the least number of rows it needs.
pub struct ConstraintSystemMetadata {
    pub gates: Vec<Gate>,
    pub lookups: Vec<Argument>,
    pub shuffles: Vec<Argument>,
    pub advice_column_phase: Vec<u8>,
    pub blinding_factors: usize,
    pub minimum_rows: usize,
}

impl Gate {
    /// The constraint name of polynomial `i`, empty where it has none.
    pub open spec fn constraint_name(&self, i: int) -> Seq<char> {
        if 0 <= i < self.constraint_names@.len() { self.constraint_names@[i]@ } else { Seq::empty() }
    }
}

impl ConstraintSystemMetadata {
    pub open spec fn wf(&self) -> bool {
        &&& self.lookups@.len() < usize::MAX / 2
        &&& self.gates@.len() < usize::MAX
    }

    /// Whether some advice column belongs to phase `p`.
    pub fn has_advice_phase(&self, p: u8) -> (r: bool)
        ensures
            r == self.advice_column_phase@.contains(p),
    {
        let mut i: usize = 0;
        while i < self.advice_column_phase.len()
            invariant
                i <= self.advice_column_phase@.len(),
                forall|j: int| 0 <= j < i ==> self.advice_column_phase@[j] != p,
            decreases self.advice_column_phase@.len() - i,
        {
            if self.advice_column_phase[i] == p {
                return true;
            }
            i = i + 1;
        }
        false
    }

    /// The phases in which synthesis is replayed, in increasing order: the
    /// first phase and every phase that an advice column belongs to.
    pub fn phases(&self) -> (r: Vec<u8>)
        ensures
            forall|i: int, j: int| 0 <= i < j < r@.len() ==> r@[i] < r@[j],
            forall|p: u8| r@.contains(p) <==> (p == FIRST_PHASE || self.advice_column_phase@.contains(p)),
    {
        let mut r: Vec<u8> = Vec::new();
        let mut p: u16 = 0;
        while p < 256
            invariant
                p <= 256,
                forall|i: int, j: int| 0 <= i < j < r@.len() ==> r@[i] < r@[j],
                forall|i: int| 0 <= i < r@.len() ==> (r@[i] as u16) < p,
                forall|q: u8| (q as u16) < p ==> (r@.contains(q) <==> (q == FIRST_PHASE || self.advice_column_phase@.contains(q))),
                forall|q: u8| (q as u16) >= p ==> !r@.contains(q),
            decreases 256 - p,
        {
            let q = p as u8;
            if q == FIRST_PHASE || self.has_advice_phase(q) {
                let ghost old_r = r@;
                r.push(q);
                proof {
                    assert forall|x: u8| #[trigger] r@.contains(x) <==> (old_r.contains(x) || x == q) by {
                        if r@.contains(x) {
                            let k = choose|k: int| 0 <= k < r@.len() && r@[k] == x;
                            if k < old_r.len() {
                                assert(old_r[k] == x);
                            }
                        }
                        if old_r.contains(x) {
                            let k = choose|k: int| 0 <= k < old_r.len() && old_r[k] == x;
                            assert(r@[k] == x);
                        }
                        if x == q {
                            assert(r@[old_r.len() as int] == x);
                        }
                    }
                }
            }
            p = p + 1;
        }
        proof {
            assert forall|q: u8| r@.contains(q) <==> (q == FIRST_PHASE || self.advice_column_phase@.contains(q)) by {
                assert((q as u16) < p);
            }
        }
        r
    }

    /// The number of advice columns.
    pub fn num_advice_columns(&self) -> (r: usize)
        ensures
            r == self.advice_column_phase@.len(),
    {
        self.advice_column_phase.len()
    }
}

} // verus!
