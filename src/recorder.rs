use vstd::prelude::*;
use vstd::string::*;

use crate::annotations::{ColumnAnnotations, annotations_wf, column_annotated, row_annotated, update_column_annotation, update_row_annotation};
use crate::fixed::{FixedColumn, materialize, texts, with_fill, with_value};
use crate::rowmap::RowMap;
use crate::term::TermField;
use crate::text::{decimal, push_decimal};

verus! {

/// The phase in which selectors, fixed values and copy constraints are
/// recorded.
pub const FIRST_PHASE: u8 = 0;

/// The kind of a column.
#[derive(Clone, Copy, Debug, PartialEq, Eq, Structural)]
pub enum ColumnKind {
    Advice,
    Fixed,
    Instance,
}

/// A column: its kind and its index among the columns of that kind.
#[derive(Clone, Copy, Debug, PartialEq, Eq, Structural)]
pub struct Column {
    pub kind: ColumnKind,
    pub index: usize,
}

/// The record of a replay of a circuit's synthesis.
pub struct ExtractingAssignment {
    pub advice_column_annotations: ColumnAnnotations,
    pub current_region: Option<String>,
    /// Copy constraints, in the order they were made.
    pub copies: Vec<((Column, usize), (Column, usize))>,
    /// For each selector, its enabled rows and their annotations.
    pub selectors: RowMap<RowMap<String>>,
    /// For each fixed column, its explicit values by row.
    pub fixed: RowMap<RowMap<String>>,
    pub fixed_column_annotations: ColumnAnnotations,
    /// For each fixed column, at most one fill: a start row and a value.
    pub fixed_fill: RowMap<(usize, String)>,
    pub instance_column_annotations: ColumnAnnotations,
    pub current_phase: u8,
    /// One more than the largest row referenced so far.
    pub usable_rows: usize,
}

/// Every value of the map is a well-formed row map.
pub open spec fn nested_wf(m: RowMap<RowMap<String>>) -> bool {
    &&& m.wf()
    &&& forall|c: usize| #[trigger] m@.contains_key(c) ==> m@[c].wf()
}

impl ExtractingAssignment {
    pub open spec fn wf(&self) -> bool {
        &&& nested_wf(self.selectors)
        &&& nested_wf(self.fixed)
        &&& self.fixed_fill.wf()
        &&& forall|c: usize| #[trigger] self.fixed_fill@.contains_key(c) ==> self.fixed@.contains_key(c)
        &&& annotations_wf(self.advice_column_annotations)
        &&& annotations_wf(self.fixed_column_annotations)
        &&& annotations_wf(self.instance_column_annotations)
    }

    /// The fixed values of column `col`.
    pub open spec fn fixed_column(&self, col: usize) -> FixedColumn {
        (
            if self.fixed@.contains_key(col) { texts(self.fixed@[col]@) } else { Map::empty() },
            if self.fixed_fill@.contains_key(col) {
                Some((self.fixed_fill@[col].0, self.fixed_fill@[col].1@))
            } else {
                None
            },
        )
    }

    /// The rows of selector `sel` that are enabled, with their annotations.
    pub open spec fn selector_rows(&self, sel: usize) -> Map<usize, String> {
        if self.selectors@.contains_key(sel) { self.selectors@[sel]@ } else { Map::empty() }
    }

    /// `a` and `b` differ at most in their fixed values.
    pub open spec fn same_but_fixed(a: ExtractingAssignment, b: ExtractingAssignment) -> bool {
        &&& a.advice_column_annotations == b.advice_column_annotations
        &&& a.current_region == b.current_region
        &&& a.copies == b.copies
        &&& a.selectors == b.selectors
        &&& a.fixed_column_annotations == b.fixed_column_annotations
        &&& a.instance_column_annotations == b.instance_column_annotations
        &&& a.current_phase == b.current_phase
        &&& a.usable_rows == b.usable_rows
    }

    /// An empty record, in the first phase.
    pub fn new() -> (r: Self)
        ensures
            r.wf(),
            r.current_phase == FIRST_PHASE,
            r.usable_rows == 0,
            r.copies@.len() == 0,
            r.selectors@ == Map::<usize, RowMap<String>>::empty(),
            r.fixed@ == Map::<usize, RowMap<String>>::empty(),
            r.fixed_fill@ == Map::<usize, (usize, String)>::empty(),
            r.advice_column_annotations@ == Map::<usize, (Option<String>, RowMap<String>)>::empty(),
            r.fixed_column_annotations@ == Map::<usize, (Option<String>, RowMap<String>)>::empty(),
            r.instance_column_annotations@ == Map::<usize, (Option<String>, RowMap<String>)>::empty(),
            r.current_region is None,
    {
        ExtractingAssignment {
            advice_column_annotations: RowMap::new(),
            current_region: None,
            copies: Vec::new(),
            selectors: RowMap::new(),
            fixed: RowMap::new(),
            fixed_column_annotations: RowMap::new(),
            fixed_fill: RowMap::new(),
            instance_column_annotations: RowMap::new(),
            current_phase: FIRST_PHASE,
            usable_rows: 0,
        }
    }

    /// Gives a row of a fixed column a value, without regard to its fill.
    fn set_fixed_unchecked(&mut self, col: usize, row: usize, val: String)
        requires
            old(self).wf(),
        ensures
            final(self).wf(),
            Self::same_but_fixed(*final(self), *old(self)),
            final(self).fixed_fill == old(self).fixed_fill,
            final(self).fixed_column(col) == ((old(self).fixed_column(col).0.insert(row, val@), old(self).fixed_column(col).1)),
            forall|c: usize| c != col ==> #[trigger] final(self).fixed_column(c) == old(self).fixed_column(c),
    {
        let ghost before = self.fixed_column(col);
        let mut m = match self.fixed.take(col) {
            Some(m) => m,
            None => RowMap::new(),
        };
        let ghost m0 = m@;
        m.insert(row, val);
        self.fixed.insert(col, m);
        proof {
            assert(texts(self.fixed@[col]@) =~= before.0.insert(row, val@));
            assert forall|c: usize| c != col implies #[trigger] self.fixed_column(c) == old(self).fixed_column(c) by {
                assert(self.fixed@.contains_key(c) == old(self).fixed@.contains_key(c));
            }
            assert forall|c: usize| #[trigger] self.fixed_fill@.contains_key(c) implies self.fixed@.contains_key(c) by {
                assert(old(self).fixed@.contains_key(c));
            }
        }
    }

    /// Replaces the fill of a fixed column by one of `val` from `row` on;
    /// the rows below `row` that the old fill covered keep its value as
    /// explicit values.
    fn set_fixed_fill(&mut self, col: usize, row: usize, val: String)
        requires
            old(self).wf(),
        ensures
            final(self).wf(),
            Self::same_but_fixed(*final(self), *old(self)),
            final(self).fixed_column(col) == with_fill(old(self).fixed_column(col), row, val@),
            forall|c: usize| c != col ==> #[trigger] final(self).fixed_column(c) == old(self).fixed_column(c),
    {
        let ghost before = self.fixed_column(col);
        let old_fill = self.fixed_fill.take(col);
        self.fixed_fill.insert(col, (row, val));
        let mut m = match self.fixed.take(col) {
            Some(m) => m,
            None => RowMap::new(),
        };
        proof {
            assert(texts(m@) =~= before.0);
        }
        match old_fill {
            Some((start, v)) => {
                if start < row {
                    materialize(&mut m, start, row, &v);
                }
            },
            None => {},
        }
        self.fixed.insert(col, m);
        proof {
            assert(self.fixed_column(col).0 =~= with_fill(before, row, val@).0);
            assert forall|c: usize| c != col implies #[trigger] self.fixed_column(c) == old(self).fixed_column(c) by {
                assert(self.fixed@.contains_key(c) == old(self).fixed@.contains_key(c));
                assert(self.fixed_fill@.contains_key(c) == old(self).fixed_fill@.contains_key(c));
            }
            assert forall|c: usize| #[trigger] self.fixed_fill@.contains_key(c) implies self.fixed@.contains_key(c) by {
                if c != col {
                    assert(old(self).fixed_fill@.contains_key(c));
                }
            }
        }
    }

    /// Gives a row of a fixed column a value; a fill that covers the row is
    /// first pushed past it, so the value overrides what the fill implied.
    fn set_fixed_checked(&mut self, col: usize, row: usize, val: String)
        requires
            old(self).wf(),
            row < usize::MAX,
        ensures
            final(self).wf(),
            Self::same_but_fixed(*final(self), *old(self)),
            final(self).fixed_column(col) == with_value(old(self).fixed_column(col), row, val@),
            forall|c: usize| c != col ==> #[trigger] final(self).fixed_column(c) == old(self).fixed_column(c),
    {
        let ghost before = self.fixed_column(col);
        let pushed = match self.fixed_fill.get(col) {
            Some(fill) => if fill.0 <= row {
                Some(fill.1.clone())
            } else {
                None
            },
            None => None,
        };
        match pushed {
            Some(v) => self.set_fixed_fill(col, row + 1, v),
            None => {},
        }
        self.set_fixed_unchecked(col, row, val);
    }
    /// The usable-row bound once `row` was referenced.
    pub open spec fn usable_after(usable: usize, row: usize) -> usize {
        if usable < row + 1 { (row + 1) as usize } else { usable }
    }

    /// Starts replaying the given phase.
    pub fn set_phase(&mut self, phase: u8)
        ensures
            *final(self) == (ExtractingAssignment { current_phase: phase, ..*old(self) }),
    {
        self.current_phase = phase;
    }

    pub fn in_first_phase(&self) -> (r: bool)
        ensures
            r == (self.current_phase == FIRST_PHASE),
    {
        self.current_phase == FIRST_PHASE
    }

    /// Records that `row` is referenced: the usable-row bound becomes at
    /// least `row + 1`.
    pub fn assert_row_usable(&mut self, row: usize)
        requires
            row < usize::MAX,
        ensures
            *final(self) == (ExtractingAssignment {
                usable_rows: Self::usable_after(old(self).usable_rows, row),
                ..*old(self)
            }),
    {
        if self.usable_rows < row + 1 {
            self.usable_rows = row + 1;
        }
    }

    pub fn enter_region(&mut self, name: String)
        ensures
            *final(self) == (ExtractingAssignment { current_region: Some(name), ..*old(self) }),
    {
        self.current_region = Some(name);
    }

    /// Leaves the current region and returns its name.
    pub fn exit_region(&mut self) -> (r: Option<String>)
        ensures
            r == old(self).current_region,
            *final(self) == (ExtractingAssignment { current_region: None, ..*old(self) }),
    {
        let mut region = None;
        std::mem::swap(&mut region, &mut self.current_region);
        region
    }

    /// Enables a selector at a row. Only honoured in the first phase.
    pub fn enable_selector(&mut self, annotation: String, selector: usize, row: usize)
        requires
            old(self).wf(),
            old(self).current_phase == FIRST_PHASE ==> row < usize::MAX,
        ensures
            final(self).wf(),
            old(self).current_phase != FIRST_PHASE ==> *final(self) == *old(self),
            old(self).current_phase == FIRST_PHASE ==> {
                &&& final(self).selector_rows(selector) == old(self).selector_rows(selector).insert(row, annotation)
                &&& final(self).selectors@.dom() == old(self).selectors@.dom().insert(selector)
                &&& forall|s: usize| s != selector ==> #[trigger] final(self).selector_rows(s) == old(self).selector_rows(s)
                &&& final(self).usable_rows == Self::usable_after(old(self).usable_rows, row)
                &&& final(self).fixed == old(self).fixed
                &&& final(self).fixed_fill == old(self).fixed_fill
                &&& final(self).copies == old(self).copies
                &&& final(self).current_phase == old(self).current_phase
                &&& final(self).current_region == old(self).current_region
                &&& final(self).advice_column_annotations == old(self).advice_column_annotations
                &&& final(self).fixed_column_annotations == old(self).fixed_column_annotations
                &&& final(self).instance_column_annotations == old(self).instance_column_annotations
            },
    {
        if !self.in_first_phase() {
            return;
        }
        self.assert_row_usable(row);
        let mut rows = match self.selectors.take(selector) {
            Some(rows) => rows,
            None => RowMap::new(),
        };
        rows.insert(row, annotation);
        self.selectors.insert(selector, rows);
        proof {
            assert(self.selectors@.dom() =~= old(self).selectors@.dom().insert(selector));
            assert forall|s: usize| s != selector implies #[trigger] self.selector_rows(s) == old(self).selector_rows(s) by {
                assert(self.selectors@.contains_key(s) == old(self).selectors@.contains_key(s));
            }
        }
    }

    /// The value of an instance cell, as a reference to the cell.
    pub fn query_instance(&mut self, column: usize, row: usize) -> (r: TermField)
        requires
            row < usize::MAX,
        ensures
            r.wf(),
            r.text() == "instance_to_field (c.1.Instance "@ + decimal(column as nat) + " "@ + decimal(row as nat) + ")"@,
            *final(self) == (ExtractingAssignment {
                usable_rows: Self::usable_after(old(self).usable_rows, row),
                ..*old(self)
            }),
    {
        self.assert_row_usable(row);
        let mut s = String::from_str("instance_to_field (c.1.Instance ");
        push_decimal(&mut s, column as u128);
        s.append(" ");
        push_decimal(&mut s, row as u128);
        s.append(")");
        proof {
            reveal_strlit("instance_to_field (c.1.Instance ");
            assert(s@[0] == 'i');
        }
        TermField::Expr(s)
    }

    /// Records the annotation of an advice cell. The value itself is not
    /// recorded; in the first phase the row counts as referenced.
    pub fn assign_advice(&mut self, annotation: String, column: usize, row: usize)
        requires
            old(self).wf(),
            old(self).current_phase == FIRST_PHASE ==> row < usize::MAX,
        ensures
            final(self).wf(),
            row_annotated(old(self).advice_column_annotations@, final(self).advice_column_annotations@, column, row, annotation),
            final(self).usable_rows == if old(self).current_phase == FIRST_PHASE {
                Self::usable_after(old(self).usable_rows, row)
            } else {
                old(self).usable_rows
            },
            final(self).selectors == old(self).selectors,
            final(self).fixed == old(self).fixed,
            final(self).fixed_fill == old(self).fixed_fill,
            final(self).copies == old(self).copies,
            final(self).current_phase == old(self).current_phase,
            final(self).current_region == old(self).current_region,
            final(self).fixed_column_annotations == old(self).fixed_column_annotations,
            final(self).instance_column_annotations == old(self).instance_column_annotations,
    {
        if self.in_first_phase() {
            self.assert_row_usable(row);
        }
        update_row_annotation(&mut self.advice_column_annotations, column, row, annotation);
    }

    /// Assigns a fixed cell: records its annotation and, where the value is
    /// known, its value. Only honoured in the first phase.
    pub fn assign_fixed(&mut self, annotation: String, column: usize, row: usize, value: Option<TermField>)
        requires
            old(self).wf(),
            old(self).current_phase == FIRST_PHASE ==> row < usize::MAX,
        ensures
            final(self).wf(),
            old(self).current_phase != FIRST_PHASE ==> *final(self) == *old(self),
            old(self).current_phase == FIRST_PHASE ==> {
                &&& row_annotated(old(self).fixed_column_annotations@, final(self).fixed_column_annotations@, column, row, annotation)
                &&& final(self).usable_rows == Self::usable_after(old(self).usable_rows, row)
                &&& final(self).fixed_column(column) == match value {
                    Some(v) => with_value(old(self).fixed_column(column), row, v.text()),
                    None => old(self).fixed_column(column),
                }
                &&& forall|c: usize| c != column ==> #[trigger] final(self).fixed_column(c) == old(self).fixed_column(c)
                &&& final(self).selectors == old(self).selectors
                &&& final(self).copies == old(self).copies
                &&& final(self).current_phase == old(self).current_phase
                &&& final(self).current_region == old(self).current_region
                &&& final(self).advice_column_annotations == old(self).advice_column_annotations
                &&& final(self).instance_column_annotations == old(self).instance_column_annotations
            },
    {
        if !self.in_first_phase() {
            return;
        }
        update_row_annotation(&mut self.fixed_column_annotations, column, row, annotation);
        self.assert_row_usable(row);
        match value {
            Some(v) => self.set_fixed_checked(column, row, v.to_text()),
            None => {},
        }
    }

    /// Records a copy constraint between two cells. Only honoured in the
    /// first phase.
    pub fn copy(&mut self, left_column: Column, left_row: usize, right_column: Column, right_row: usize)
        requires
            old(self).current_phase == FIRST_PHASE ==> left_row < usize::MAX && right_row < usize::MAX,
        ensures
            old(self).current_phase != FIRST_PHASE ==> *final(self) == *old(self),
            old(self).current_phase == FIRST_PHASE ==> *final(self) == (ExtractingAssignment {
                copies: final(self).copies,
                usable_rows: Self::usable_after(Self::usable_after(old(self).usable_rows, left_row), right_row),
                ..*old(self)
            }),
            old(self).current_phase == FIRST_PHASE ==> final(self).copies@
                == old(self).copies@.push(((left_column, left_row), (right_column, right_row))),
    {
        if !self.in_first_phase() {
            return;
        }
        self.assert_row_usable(left_row);
        self.assert_row_usable(right_row);
        self.copies.push(((left_column, left_row), (right_column, right_row)));
    }

    /// Fills a fixed column with a value from a row on. Only honoured in the
    /// first phase.
    pub fn fill_from_row(&mut self, column: usize, row: usize, value: TermField)
        requires
            old(self).wf(),
            old(self).current_phase == FIRST_PHASE ==> row < usize::MAX,
        ensures
            final(self).wf(),
            old(self).current_phase != FIRST_PHASE ==> *final(self) == *old(self),
            old(self).current_phase == FIRST_PHASE ==> {
                &&& final(self).usable_rows == Self::usable_after(old(self).usable_rows, row)
                &&& final(self).fixed_column(column) == with_fill(old(self).fixed_column(column), row, value.text())
                &&& forall|c: usize| c != column ==> #[trigger] final(self).fixed_column(c) == old(self).fixed_column(c)
                &&& final(self).selectors == old(self).selectors
                &&& final(self).copies == old(self).copies
                &&& final(self).current_phase == old(self).current_phase
                &&& final(self).current_region == old(self).current_region
                &&& final(self).advice_column_annotations == old(self).advice_column_annotations
                &&& final(self).fixed_column_annotations == old(self).fixed_column_annotations
                &&& final(self).instance_column_annotations == old(self).instance_column_annotations
            },
    {
        if !self.in_first_phase() {
            return;
        }
        self.assert_row_usable(row);
        self.set_fixed_fill(column, row, value.to_text());
    }

    /// Sets the annotation of a column.
    pub fn annotate_column(&mut self, annotation: String, column: Column)
        requires
            old(self).wf(),
        ensures
            final(self).wf(),
            column.kind == ColumnKind::Advice ==> column_annotated(old(self).advice_column_annotations@,
                final(self).advice_column_annotations@, column.index, annotation)
                && final(self).fixed_column_annotations == old(self).fixed_column_annotations
                && final(self).instance_column_annotations == old(self).instance_column_annotations,
            column.kind == ColumnKind::Fixed ==> column_annotated(old(self).fixed_column_annotations@,
                final(self).fixed_column_annotations@, column.index, annotation)
                && final(self).advice_column_annotations == old(self).advice_column_annotations
                && final(self).instance_column_annotations == old(self).instance_column_annotations,
            column.kind == ColumnKind::Instance ==> column_annotated(old(self).instance_column_annotations@,
                final(self).instance_column_annotations@, column.index, annotation)
                && final(self).advice_column_annotations == old(self).advice_column_annotations
                && final(self).fixed_column_annotations == old(self).fixed_column_annotations,
            final(self).selectors == old(self).selectors,
            final(self).fixed == old(self).fixed,
            final(self).fixed_fill == old(self).fixed_fill,
            final(self).copies == old(self).copies,
            final(self).current_phase == old(self).current_phase,
            final(self).current_region == old(self).current_region,
            final(self).usable_rows == old(self).usable_rows,
    {
        match column.kind {
            ColumnKind::Advice => update_column_annotation(&mut self.advice_column_annotations, column.index, annotation),
            ColumnKind::Fixed => update_column_annotation(&mut self.fixed_column_annotations, column.index, annotation),
            ColumnKind::Instance => update_column_annotation(&mut self.instance_column_annotations, column.index, annotation),
        }
    }

    /// The value of a challenge, as a reference to it.
    pub fn get_challenge(&self, index: usize, phase: u8) -> (r: TermField)
        ensures
            r.wf(),
            r.text() == "c.get_challenge "@ + decimal(index as nat) + " "@ + decimal(phase as nat),
    {
        let mut s = String::from_str("c.get_challenge ");
        push_decimal(&mut s, index as u128);
        s.append(" ");
        push_decimal(&mut s, phase as u128);
        proof {
            reveal_strlit("c.get_challenge ");
            assert(s@[0] == 'c');
        }
        TermField::Expr(s)
    }
}

} // verus!
