use vstd::prelude::*;
use vstd::string::*;

use crate::rowmap::RowMap;
use crate::runs::{group_values, is_value_groups};
use crate::text::{comment_body, decimal, join, joined, lean_comment, push_decimal};

verus! {

/// The annotations of the columns of one kind: for each column, its own
/// annotation, if any, and the annotation of each annotated row.
pub type ColumnAnnotations = RowMap<(Option<String>, RowMap<String>)>;

/// Every entry of the annotation map holds a well-formed row map.
pub open spec fn annotations_wf(a: ColumnAnnotations) -> bool {
    &&& a.wf()
    &&& forall|c: usize| #[trigger] a@.contains_key(c) ==> a@[c].1.wf()
}

/// The entries of `m` whose rows lie in `[start, end]`.
pub open spec fn rows_between<V>(m: Map<usize, V>, start: usize, end: usize) -> Map<usize, V> {
    m.restrict(Set::new(|r: usize| start <= r <= end))
}

/// The comment line of a group of rows with the same annotation:
/// `  -- 3: text` for one row, `  -- 3-5: text` for several.
pub open spec fn annotation_line(g: (String, usize, Option<usize>)) -> Seq<char> {
    match g.2 {
        None => "  -- "@ + decimal(g.1 as nat) + ": "@ + g.0@,
        Some(e) => "  -- "@ + decimal(g.1 as nat) + "-"@ + decimal(e as nat) + ": "@ + g.0@,
    }
}

/// The comment lines of the groups, one per line.
pub open spec fn annotation_text(groups: Seq<(String, usize, Option<usize>)>) -> Seq<char> {
    joined(groups.map_values(|g: (String, usize, Option<usize>)| annotation_line(g)), "\n"@)
}

fn annotation_line_of(g: &(String, usize, Option<usize>)) -> (r: String)
    ensures
        r@ == annotation_line(*g),
{
    let mut r = String::from_str("  -- ");
    push_decimal(&mut r, g.1 as u128);
    match g.2 {
        None => {},
        Some(e) => {
            r.append("-");
            push_decimal(&mut r, e as u128);
        },
    }
    r.append(": ");
    r.append(g.0.as_str());
    r
}

/// The annotations of the rows in `[start, end]` as comment lines, rows in
/// a run with the same annotation sharing one line; `None` if no row there
/// is annotated.
pub fn get_group_annotations(annotations: &RowMap<String>, start: usize, end: usize) -> (r: Option<String>)
    requires
        annotations.wf(),
    ensures
        r is None <==> rows_between(annotations@, start, end).dom().is_empty(),
        r matches Some(t) ==> exists|groups: Seq<(String, usize, Option<usize>)>|
            is_value_groups(rows_between(annotations@, start, end), groups)
            && t@ == annotation_text(groups),
{
    let mut within: RowMap<String> = RowMap::new();
    let n = annotations.len();
    let mut i: usize = 0;
    while i < n
        invariant
            n == annotations.seq().len(),
            annotations.wf(),
            within.wf(),
            i <= n,
            within@ == rows_between(annotations@, start, end).restrict(
                Set::new(|r: usize| exists|j: int| 0 <= j < i && annotations.seq()[j].0 == r)),
        decreases n - i,
    {
        let (row, text) = annotations.entry(i);
        proof {
            crate::rowmap::lemma_entry_in_map(annotations.seq(), i as int);
        }
        if start <= row && row <= end {
            within.insert(row, text.clone());
        }
        proof {
            let before = Set::new(|r: usize| exists|j: int| 0 <= j < i && annotations.seq()[j].0 == r);
            let after = Set::new(|r: usize| exists|j: int| 0 <= j < i + 1 && annotations.seq()[j].0 == r);
            assert forall|r: usize| after.contains(r) <==> before.contains(r) || r == row by {
                if after.contains(r) && r != row {
                    let j = choose|j: int| 0 <= j < i + 1 && annotations.seq()[j].0 == r;
                    assert(0 <= j < i && annotations.seq()[j].0 == r);
                }
                if before.contains(r) {
                    let j = choose|j: int| 0 <= j < i && annotations.seq()[j].0 == r;
                    assert(0 <= j < i + 1 && annotations.seq()[j].0 == r);
                }
                if r == row {
                    assert(annotations.seq()[i as int].0 == r);
                }
            }
            assert(within@ =~= rows_between(annotations@, start, end).restrict(after));
        }
        i = i + 1;
    }
    proof {
        let all = Set::new(|r: usize| exists|j: int| 0 <= j < i && annotations.seq()[j].0 == r);
        assert(rows_between(annotations@, start, end).restrict(all) =~= rows_between(annotations@, start, end));
        assert(within@ == rows_between(annotations@, start, end));
    }
    let groups = group_values(&within);
    if groups.len() == 0 {
        proof {
            assert forall|r: usize| !within@.dom().contains(r) by {
                if within@.contains_key(r) {
                    assert(crate::runs::in_group(groups@, r));
                }
            }
            assert(within@.dom() =~= Set::empty());
        }
        return None;
    }
    proof {
        assert(within@.contains_key(groups@[0].1));
    }
    let mut lines: Vec<String> = Vec::new();
    let mut g: usize = 0;
    while g < groups.len()
        invariant
            g <= groups@.len(),
            lines@.len() == g,
            forall|j: int| 0 <= j < g ==> #[trigger] lines@[j]@ == annotation_line(groups@[j]),
        decreases groups.len() - g,
    {
        lines.push(annotation_line_of(&groups[g]));
        g = g + 1;
    }
    let text = join(&lines, "\n");
    proof {
        assert(lines@.map_values(|p: String| p@) =~= groups@.map_values(
            |x: (String, usize, Option<usize>)| annotation_line(x)));
        assert(text@ == annotation_text(groups@));
        assert(is_value_groups(rows_between(annotations@, start, end), groups@));
    }
    Some(text)
}

/// Every line of the text as a comment of the target language.
pub fn make_lean_comment(text: &str) -> (r: String)
    ensures
        r@ == lean_comment(text@),
{
    let mut r = String::from_str("  --");
    let n = text.unicode_len();
    let mut i: usize = 0;
    while i < n
        invariant
            n == text@.len(),
            i <= n,
            r@ == "  --"@ + comment_body(text@.subrange(0, i as int)),
        decreases n - i,
    {
        let c = text.get_char(i);
        proof {
            assert(text@.subrange(0, i as int + 1).drop_last() =~= text@.subrange(0, i as int));
        }
        if c == '\n' {
            r.append("\n  --");
        } else {
            r.append(text.substring_char(i, i + 1));
        }
        proof {
            assert(r@ =~= "  --"@ + comment_body(text@.subrange(0, i as int + 1)));
        }
        i = i + 1;
    }
    proof {
        assert(text@.subrange(0, n as int) =~= text@);
    }
    r
}

/// `new` is `old` with the annotation of column `col` set to `annotation`,
/// the annotations of its rows kept.
pub open spec fn column_annotated(
    old: Map<usize, (Option<String>, RowMap<String>)>,
    new: Map<usize, (Option<String>, RowMap<String>)>,
    col: usize,
    annotation: String,
) -> bool {
    &&& new.dom() == old.dom().insert(col)
    &&& new[col].0 == Some(annotation)
    &&& old.contains_key(col) ==> new[col].1 == old[col].1
    &&& !old.contains_key(col) ==> new[col].1@ == Map::<usize, String>::empty()
    &&& forall|c: usize| c != col && #[trigger] old.contains_key(c) ==> new[c] == old[c]
}

/// `new` is `old` with the annotation of row `row` of column `col` set to
/// `annotation`; the last annotation of a row is the one kept.
pub open spec fn row_annotated(
    old: Map<usize, (Option<String>, RowMap<String>)>,
    new: Map<usize, (Option<String>, RowMap<String>)>,
    col: usize,
    row: usize,
    annotation: String,
) -> bool {
    &&& new.dom() == old.dom().insert(col)
    &&& old.contains_key(col) ==> new[col].0 == old[col].0
    &&& !old.contains_key(col) ==> new[col].0 is None
    &&& old.contains_key(col) ==> new[col].1@ == old[col].1@.insert(row, annotation)
    &&& !old.contains_key(col) ==> new[col].1@ == Map::<usize, String>::empty().insert(row, annotation)
    &&& forall|c: usize| c != col && #[trigger] old.contains_key(c) ==> new[c] == old[c]
}

/// Sets the annotation of a column, keeping the annotations of its rows.
pub fn update_column_annotation(annotations: &mut ColumnAnnotations, col: usize, annotation: String)
    requires
        annotations_wf(*old(annotations)),
    ensures
        annotations_wf(*final(annotations)),
        column_annotated(old(annotations)@, final(annotations)@, col, annotation),
{
    let current = annotations.take(col);
    let rows = match current {
        Some((_, rows)) => rows,
        None => RowMap::new(),
    };
    annotations.insert(col, (Some(annotation), rows));
    assert(annotations@.dom() =~= old(annotations)@.dom().insert(col));
}

/// Sets the annotation of one row of a column; the last annotation of a row
/// is the one kept.
pub fn update_row_annotation(annotations: &mut ColumnAnnotations, col: usize, row: usize, annotation: String)
    requires
        annotations_wf(*old(annotations)),
    ensures
        annotations_wf(*final(annotations)),
        row_annotated(old(annotations)@, final(annotations)@, col, row, annotation),
{
    let current = annotations.take(col);
    let (column, mut rows) = match current {
        Some(entry) => entry,
        None => (None, RowMap::new()),
    };
    rows.insert(row, annotation);
    annotations.insert(col, (column, rows));
    assert(annotations@.dom() =~= old(annotations)@.dom().insert(col));
}

} // verus!
