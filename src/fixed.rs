use vstd::prelude::*;

use crate::rowmap::RowMap;

verus! {

/// The fixed values of one column: explicit values by row, and at most one
/// fill, a start row and a value that every row from the start on holds
/// unless an explicit value says otherwise.
pub type FixedColumn = (Map<usize, Seq<char>>, Option<(usize, Seq<char>)>);

/// The texts of a map of strings.
pub open spec fn texts(m: Map<usize, String>) -> Map<usize, Seq<char>> {
    m.map_values(|s: String| s@)
}

/// The value of `row` in a column: its explicit value, else the fill's
/// value if the fill has started, else none.
pub open spec fn value_at(column: FixedColumn, row: usize) -> Option<Seq<char>> {
    if column.0.contains_key(row) {
        Some(column.0[row])
    } else {
        match column.1 {
            Some((start, v)) => if start <= row { Some(v) } else { None },
            None => None,
        }
    }
}

/// `sparse` with every row of `[start, end)` that has no explicit value
/// given `v`.
pub open spec fn materialized(sparse: Map<usize, Seq<char>>, start: usize, end: usize, v: Seq<char>) -> Map<usize, Seq<char>> {
    Map::new(
        |r: usize| sparse.contains_key(r) || (start <= r < end),
        |r: usize| if sparse.contains_key(r) { sparse[r] } else { v },
    )
}

/// The column after a fill of `val` from `row` on replaces its fill: the
/// rows that the old fill covered below `row` become explicit values.
pub open spec fn with_fill(column: FixedColumn, row: usize, val: Seq<char>) -> FixedColumn {
    match column.1 {
        Some((start, v)) => if start < row {
            (materialized(column.0, start, row, v), Some((row, val)))
        } else {
            (column.0, Some((row, val)))
        },
        None => (column.0, Some((row, val))),
    }
}

/// The column after `row` is given `val`: a fill that covers the row is
/// first pushed past it.
pub open spec fn with_value(column: FixedColumn, row: usize, val: Seq<char>) -> FixedColumn {
    let pushed = match column.1 {
        Some((start, v)) => if start <= row && row < usize::MAX {
            with_fill(column, (row + 1) as usize, v)
        } else {
            column
        },
        None => column,
    };
    (pushed.0.insert(row, val), pushed.1)
}

/// Giving a row a value changes that row alone.
pub proof fn lemma_with_value(column: FixedColumn, row: usize, val: Seq<char>, r: usize)
    requires
        row < usize::MAX,
    ensures
        value_at(with_value(column, row, val), r) == if r == row { Some(val) } else { value_at(column, r) },
{
}

/// A fill from `row` leaves the rows below it as they were, and gives every
/// row from `row` on without an explicit value the fill's value.
pub proof fn lemma_with_fill(column: FixedColumn, row: usize, val: Seq<char>, r: usize)
    ensures
        value_at(with_fill(column, row, val), r) == if r < row {
            value_at(column, r)
        } else if column.0.contains_key(r) {
            Some(column.0[r])
        } else {
            Some(val)
        },
{
}

/// The column after the rows `[0, n)` were each given `v`, in order.
pub open spec fn assigned_prefix(column: FixedColumn, n: nat, v: Seq<char>) -> FixedColumn
    decreases n,
{
    if n == 0 {
        column
    } else {
        with_value(assigned_prefix(column, (n - 1) as nat, v), (n - 1) as usize, v)
    }
}

proof fn lemma_assigned_prefix(n: nat, v: Seq<char>, r: usize)
    requires
        n < usize::MAX,
    ensures
        value_at(assigned_prefix((Map::empty(), None), n, v), r) == if r < n { Some(v) } else { None },
    decreases n,
{
    if n > 0 {
        lemma_assigned_prefix((n - 1) as nat, v, r);
        lemma_with_value(assigned_prefix((Map::empty(), None), (n - 1) as nat, v), (n - 1) as usize, v, r);
    }
}

/// Compaction keeps every value: in a column with no fixed values, giving
/// the rows `[0, n)` the value `v` one by one and then filling `w` from row
/// `n` on leaves `v` in every row below `n` and `w` in every row from `n` on.
pub proof fn lemma_fill_round_trip(n: usize, v: Seq<char>, w: Seq<char>, r: usize)
    requires
        n < usize::MAX,
    ensures
        value_at(with_fill(assigned_prefix((Map::empty(), None), n as nat, v), n, w), r)
            == if r < n { Some(v) } else { Some(w) },
{
    let before = assigned_prefix((Map::empty(), None), n as nat, v);
    lemma_assigned_prefix(n as nat, v, r);
    lemma_with_fill(before, n, w, r);
    if r >= n {
        lemma_assigned_prefix(n as nat, v, r);
        if before.0.contains_key(r) {
            assert(value_at(before, r) == Some(before.0[r]));
        }
    }
}

/// Gives every row of `[start, end)` that has no value in `m` the value `v`.
pub fn materialize(m: &mut RowMap<String>, start: usize, end: usize, v: &String)
    requires
        old(m).wf(),
    ensures
        final(m).wf(),
        texts(final(m)@) == materialized(texts(old(m)@), start, end, v@),
{
    let ghost m0 = texts(m@);
    let mut i: usize = start;
    while i < end
        invariant
            m.wf(),
            start <= i <= end || (start >= end && i == start),
            texts(m@) == materialized(m0, start, i, v@),
        decreases end - i,
    {
        let ghost before = m@;
        if !m.contains_key(i) {
            m.insert(i, v.clone());
        }
        proof {
            let target = materialized(m0, start, (i + 1) as usize, v@);
            let prev = materialized(m0, start, i, v@);
            assert(texts(before) == prev);
            assert forall|r: usize| #[trigger] texts(m@).contains_key(r) <==> target.contains_key(r) by {
                assert(texts(m@).contains_key(r) == m@.contains_key(r));
                assert(texts(before).contains_key(r) == before.contains_key(r));
                assert(prev.contains_key(r) == (m0.contains_key(r) || (start <= r < i)));
            }
            assert forall|r: usize| #[trigger] texts(m@).contains_key(r) implies texts(m@)[r] == target[r] by {
                assert(texts(m@)[r] == m@[r]@);
                assert(target.contains_key(r));
                if r != i || before.contains_key(i) {
                    assert(before.contains_key(r));
                    assert(m@[r] == before[r]);
                    assert(texts(before)[r] == before[r]@);
                    assert(prev.contains_key(r));
                    assert(prev[r] == texts(before)[r]);
                    assert(target[r] == prev[r]);
                } else {
                    assert(!texts(before).contains_key(i));
                    assert(!m0.contains_key(i));
                    assert(m@[i] == *v);
                }
            }
            assert(texts(m@) =~= target);
        }
        i = i + 1;
    }
    proof {
        if start >= end {
            assert(texts(m@) =~= materialized(m0, start, end, v@));
        }
    }
}

} // verus!
