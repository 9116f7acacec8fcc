use vstd::prelude::*;
use vstd::string::*;

use crate::rowmap::{RowMap, entries_map, lemma_entry_in_map, strictly_sorted};

verus! {

/// Row `r` lies in one of the inclusive ranges of `runs`.
pub open spec fn covered(runs: Seq<(usize, usize)>, r: usize) -> bool {
    exists|i: int| #![trigger runs[i]] 0 <= i < runs.len() && runs[i].0 <= r <= runs[i].1
}

/// `runs` are the maximal runs of consecutive rows of the set `rows`: each
/// is a nonempty inclusive range, they come in increasing order with a gap
/// of at least one row between two of them, and together they hold exactly
/// the rows of the set.
pub open spec fn is_runs_of(rows: Set<usize>, runs: Seq<(usize, usize)>) -> bool {
    &&& forall|i: int| 0 <= i < runs.len() ==> runs[i].0 <= runs[i].1
    &&& forall|i: int| 0 <= i < runs.len() - 1 ==> runs[i].1 + 1 < runs[i + 1].0
    &&& forall|r: usize| rows.contains(r) <==> covered(runs, r)
}

/// The row is one of the first `k` keys of `s`.
pub open spec fn key_among<V>(s: Seq<(usize, V)>, k: int, r: usize) -> bool {
    exists|j: int| 0 <= j < k && s[j].0 == r
}

/// The maximal runs of consecutive rows among the keys of `rows`: for the
/// rows `{2, 3, 4, 7}`, `[(2, 4), (7, 7)]`.
pub fn selector_runs<V>(rows: &RowMap<V>) -> (runs: Vec<(usize, usize)>)
    requires
        rows.wf(),
    ensures
        is_runs_of(rows@.dom(), runs@),
{
    let mut runs: Vec<(usize, usize)> = Vec::new();
    let n = rows.len();
    if n == 0 {
        proof {
            assert forall|r: usize| rows@.dom().contains(r) <==> covered(runs@, r) by {
                if rows@.contains_key(r) {
                    let j = choose|j: int| 0 <= j < rows.seq().len() && rows.seq()[j].0 == r;
                }
            }
        }
        return runs;
    }
    let ghost s = rows.seq();
    let (first, _) = rows.entry(0);
    let mut start: usize = first;
    let mut end: usize = first;
    let mut k: usize = 1;
    while k < n
        invariant
            n == s.len(),
            s == rows.seq(),
            strictly_sorted(s),
            1 <= k <= n,
            start <= end,
            end == s[k - 1].0,
            forall|i: int| 0 <= i < runs@.len() ==> runs@[i].0 <= runs@[i].1,
            forall|i: int| 0 <= i < runs@.len() - 1 ==> runs@[i].1 + 1 < runs@[i + 1].0,
            runs@.len() > 0 ==> runs@.last().1 + 1 < start,
            forall|r: usize| #![trigger key_among(s, k as int, r)] #![trigger covered(runs@, r)]
                key_among(s, k as int, r) <==> (covered(runs@, r) || start <= r <= end),
        decreases n - k,
    {
        let (x, _) = rows.entry(k);
        assert(s[k as int - 1].0 < s[k as int].0);
        let ghost old_runs = runs@;
        let ghost old_start = start;
        let ghost old_end = end;
        if end + 1 == x {
            end = x;
        } else {
            runs.push((start, end));
            start = x;
            end = x;
        }
        proof {
            assert forall|r: usize| key_among(s, k as int + 1, r) <==> (covered(runs@, r) || start <= r <= end) by {
                if key_among(s, k as int + 1, r) {
                    let j = choose|j: int| 0 <= j < k + 1 && s[j].0 == r;
                    if j < k {
                        assert(key_among(s, k as int, r));
                        if covered(old_runs, r) {
                            let i = choose|i: int| #![trigger old_runs[i]] 0 <= i < old_runs.len() && old_runs[i].0 <= r <= old_runs[i].1;
                            assert(runs@[i] == old_runs[i]);
                            assert(covered(runs@, r));
                        } else {
                            assert(old_start <= r <= old_end);
                            if runs@.len() > old_runs.len() {
                                assert(runs@[old_runs.len() as int] == (old_start, old_end));
                                assert(covered(runs@, r));
                            }
                        }
                    } else {
                        assert(r == x);
                    }
                }
                if covered(runs@, r) {
                    let i = choose|i: int| #![trigger runs@[i]] 0 <= i < runs@.len() && runs@[i].0 <= r <= runs@[i].1;
                    if i < old_runs.len() {
                        assert(runs@[i] == old_runs[i]);
                        assert(covered(old_runs, r));
                    } else {
                        assert(runs@[i] == (old_start, old_end));
                    }
                    assert(key_among(s, k as int, r));
                    let j = choose|j: int| 0 <= j < k && s[j].0 == r;
                    assert(0 <= j < k + 1 && s[j].0 == r);
                }
                if start <= r <= end {
                    if r == x {
                        assert(s[k as int].0 == r);
                    } else {
                        assert(old_start <= r <= old_end);
                        assert(key_among(s, k as int, r));
                        let j = choose|j: int| 0 <= j < k && s[j].0 == r;
                        assert(0 <= j < k + 1 && s[j].0 == r);
                    }
                }
            }
        }
        k = k + 1;
    }
    let ghost old_runs = runs@;
    runs.push((start, end));
    proof {
        assert forall|r: usize| rows@.dom().contains(r) <==> covered(runs@, r) by {
            if rows@.contains_key(r) {
                let j = choose|j: int| 0 <= j < s.len() && s[j].0 == r;
                assert(k == n);
                assert(key_among(s, k as int, r));
                if covered(old_runs, r) {
                    let i = choose|i: int| #![trigger old_runs[i]] 0 <= i < old_runs.len() && old_runs[i].0 <= r <= old_runs[i].1;
                    assert(runs@[i] == old_runs[i]);
                    assert(covered(runs@, r));
                } else {
                    assert(runs@[runs@.len() - 1] == (start, end));
                    assert(covered(runs@, r));
                }
            }
            if covered(runs@, r) {
                let i = choose|i: int| #![trigger runs@[i]] 0 <= i < runs@.len() && runs@[i].0 <= r <= runs@[i].1;
                if i < old_runs.len() {
                    assert(runs@[i] == old_runs[i]);
                    assert(covered(old_runs, r));
                } else {
                    assert(runs@[i] == (start, end));
                }
                assert(k == n);
                assert(key_among(s, k as int, r));
                let j = choose|j: int| 0 <= j < n && s[j].0 == r;
                assert(exists|j: int| 0 <= j < s.len() && s[j].0 == r);
            }
        }
    }
    runs
}

/// The last row of a group of equal values.
pub open spec fn group_end(g: (String, usize, Option<usize>)) -> usize {
    match g.2 {
        Some(e) => e,
        None => g.1,
    }
}

/// Row `r` lies in one of the groups.
pub open spec fn in_group(groups: Seq<(String, usize, Option<usize>)>, r: usize) -> bool {
    exists|i: int| #![trigger groups[i]] 0 <= i < groups.len() && groups[i].1 <= r <= group_end(groups[i])
}

/// `groups` are the maximal ranges of consecutive rows of `column` that hold
/// the same value. A group is `(value, start, end)`, with the inclusive end
/// given only where the range holds more than one row. The groups come in
/// increasing order, every row of a group holds its value, every row of the
/// column lies in a group, and two groups that touch hold different values.
pub open spec fn is_value_groups(column: Map<usize, String>, groups: Seq<(String, usize, Option<usize>)>) -> bool {
    &&& forall|i: int| #![trigger groups[i]] 0 <= i < groups.len() ==>
        groups[i].1 <= group_end(groups[i]) && (groups[i].2 is Some ==> groups[i].1 < group_end(groups[i]))
    &&& forall|i: int| #![trigger groups[i]] 0 <= i < groups.len() - 1 ==>
        group_end(groups[i]) < groups[i + 1].1
    &&& forall|i: int| #![trigger groups[i]] 0 <= i < groups.len() - 1 ==>
        (group_end(groups[i]) + 1 == groups[i + 1].1 ==> groups[i].0@ != groups[i + 1].0@)
    &&& forall|i: int, r: usize| #![trigger groups[i], column.contains_key(r)]
        0 <= i < groups.len() && groups[i].1 <= r <= group_end(groups[i]) ==>
        column.contains_key(r) && column[r]@ == groups[i].0@
    &&& forall|r: usize| #[trigger] column.contains_key(r) ==> in_group(groups, r)
}

/// In maximal runs, a later run starts after an earlier one ends, with a
/// gap.
proof fn lemma_runs_apart(rows: Set<usize>, runs: Seq<(usize, usize)>, j: int, i: int)
    requires
        is_runs_of(rows, runs),
        0 <= j < i < runs.len(),
    ensures
        runs[j].1 + 1 < runs[i].0,
    decreases i - j,
{
    if j + 1 < i {
        lemma_runs_apart(rows, runs, j + 1, i);
        assert(runs[j].1 + 1 < runs[j + 1].0);
        assert(runs[j + 1].0 <= runs[j + 1].1);
    }
}

/// The row just past the end of a maximal run is not in the set, and every
/// row of a run is.
proof fn lemma_run_edges(rows: Set<usize>, runs: Seq<(usize, usize)>, i: int, r: usize)
    requires
        is_runs_of(rows, runs),
        0 <= i < runs.len(),
    ensures
        runs[i].0 <= r <= runs[i].1 ==> rows.contains(r),
        r == runs[i].1 + 1 ==> !rows.contains(r),
{
    assert(runs[i].0 <= r <= runs[i].1 ==> covered(runs, r));
    if r == runs[i].1 + 1 && rows.contains(r) {
        let m = choose|m: int| #![trigger runs[m]] 0 <= m < runs.len() && runs[m].0 <= r <= runs[m].1;
        if m < i {
            lemma_runs_apart(rows, runs, m, i);
        } else if m > i {
            lemma_runs_apart(rows, runs, i, m);
        }
    }
}

/// The maximal runs of a set are unique.
pub proof fn lemma_runs_unique(rows: Set<usize>, a: Seq<(usize, usize)>, b: Seq<(usize, usize)>)
    requires
        is_runs_of(rows, a),
        is_runs_of(rows, b),
    ensures
        a == b,
{
    let n = if a.len() < b.len() { a.len() } else { b.len() };
    assert forall|i: int| 0 <= i < n implies #[trigger] a[i] == b[i] by {
        lemma_runs_equal_at(rows, a, b, i);
    }
    if a.len() != b.len() {
        if a.len() < b.len() {
            lemma_runs_no_extra(rows, a, b);
        } else {
            assert forall|i: int| 0 <= i < n implies #[trigger] b[i] == a[i] by {
                lemma_runs_equal_at(rows, a, b, i);
            }
            lemma_runs_no_extra(rows, b, a);
        }
    }
    assert(a =~= b);
}

proof fn lemma_runs_no_extra(rows: Set<usize>, a: Seq<(usize, usize)>, b: Seq<(usize, usize)>)
    requires
        is_runs_of(rows, a),
        is_runs_of(rows, b),
        forall|i: int| 0 <= i < a.len() && i < b.len() ==> #[trigger] a[i] == b[i],
    ensures
        a.len() >= b.len(),
{
    if a.len() < b.len() {
        let x = b[a.len() as int].0;
        assert(covered(b, x));
        assert(rows.contains(x));
        let m = choose|m: int| #![trigger a[m]] 0 <= m < a.len() && a[m].0 <= x <= a[m].1;
        assert(a[m] == b[m]);
        lemma_runs_apart(rows, b, m, a.len() as int);
    }
}

proof fn lemma_runs_equal_at(rows: Set<usize>, a: Seq<(usize, usize)>, b: Seq<(usize, usize)>, i: int)
    requires
        is_runs_of(rows, a),
        is_runs_of(rows, b),
        0 <= i < a.len(),
        0 <= i < b.len(),
    ensures
        a[i] == b[i],
    decreases i,
{
    assert forall|j: int| 0 <= j < i implies #[trigger] a[j] == b[j] by {
        lemma_runs_equal_at(rows, a, b, j);
    }
    lemma_runs_start(rows, a, b, i);
    lemma_runs_start(rows, b, a, i);
    let s = a[i].0;
    if a[i].1 < b[i].1 {
        lemma_run_edges(rows, a, i, (a[i].1 + 1) as usize);
        lemma_run_edges(rows, b, i, (a[i].1 + 1) as usize);
    } else if b[i].1 < a[i].1 {
        lemma_run_edges(rows, b, i, (b[i].1 + 1) as usize);
        lemma_run_edges(rows, a, i, (b[i].1 + 1) as usize);
    }
}

/// Where the earlier runs agree, the `i`-th run of `b` does not start
/// after that of `a`.
proof fn lemma_runs_start(rows: Set<usize>, a: Seq<(usize, usize)>, b: Seq<(usize, usize)>, i: int)
    requires
        is_runs_of(rows, a),
        is_runs_of(rows, b),
        0 <= i < a.len(),
        0 <= i < b.len(),
        forall|j: int| 0 <= j < i ==> #[trigger] a[j] == b[j],
    ensures
        b[i].0 <= a[i].0,
{
    let x = a[i].0;
    if b[i].0 > x {
        lemma_run_edges(rows, a, i, x);
        assert(covered(b, x));
        let m = choose|m: int| #![trigger b[m]] 0 <= m < b.len() && b[m].0 <= x <= b[m].1;
        if m < i {
            assert(a[m] == b[m]);
            lemma_runs_apart(rows, a, m, i);
        } else if m > i {
            lemma_runs_apart(rows, b, i, m);
        }
    }
}

/// A later group of equal values starts after an earlier one ends.
proof fn lemma_groups_apart(column: Map<usize, String>, g: Seq<(String, usize, Option<usize>)>, j: int, i: int)
    requires
        is_value_groups(column, g),
        0 <= j < i < g.len(),
    ensures
        group_end(g[j]) < g[i].1,
    decreases i - j,
{
    assert(group_end(g[j]) < g[j + 1].1);
    if j + 1 < i {
        lemma_groups_apart(column, g, j + 1, i);
        assert(g[j + 1].1 <= group_end(g[j + 1]));
    }
}

/// The row just past the end of a group holds no value, or another value.
proof fn lemma_group_edge(column: Map<usize, String>, g: Seq<(String, usize, Option<usize>)>, i: int)
    requires
        is_value_groups(column, g),
        0 <= i < g.len(),
        group_end(g[i]) < usize::MAX,
    ensures
        column.contains_key((group_end(g[i]) + 1) as usize) ==> column[(group_end(g[i]) + 1) as usize]@ != g[i].0@,
{
    let r = (group_end(g[i]) + 1) as usize;
    if column.contains_key(r) {
        assert(in_group(g, r));
        let m = choose|m: int| #![trigger g[m]] 0 <= m < g.len() && g[m].1 <= r <= group_end(g[m]);
        if m < i {
            lemma_groups_apart(column, g, m, i);
            assert(g[i].1 <= group_end(g[i]));
        } else if m == i {
        } else {
            if m > i + 1 {
                lemma_groups_apart(column, g, i + 1, m);
                assert(g[i + 1].1 <= group_end(g[i + 1]));
            }
            assert(group_end(g[i]) < g[i + 1].1);
            assert(g[m].1 == r);
            assert(m == i + 1);
            assert(column.contains_key(r) && column[r]@ == g[m].0@);
        }
    }
}

/// Where the earlier groups agree, the `i`-th group of `b` does not start
/// after that of `a`.
proof fn lemma_groups_first_row(column: Map<usize, String>, a: Seq<(String, usize, Option<usize>)>,
    b: Seq<(String, usize, Option<usize>)>, i: int)
    requires
        is_value_groups(column, a),
        is_value_groups(column, b),
        0 <= i < a.len(),
        0 <= i < b.len(),
        forall|j: int| 0 <= j < i ==> #[trigger] clause_view(a[j]) == clause_view(b[j]),
    ensures
        b[i].1 <= a[i].1,
{
    let x = a[i].1;
    if b[i].1 > x {
        assert(a[i].1 <= x <= group_end(a[i]));
        assert(column.contains_key(x));
        assert(in_group(b, x));
        let m = choose|m: int| #![trigger b[m]] 0 <= m < b.len() && b[m].1 <= x <= group_end(b[m]);
        if m < i {
            assert(clause_view(a[m]) == clause_view(b[m]));
            assert(group_end(a[m]) == group_end(b[m]));
            lemma_groups_apart(column, a, m, i);
        } else if m > i {
            lemma_groups_apart(column, b, i, m);
            assert(b[i].1 <= group_end(b[i]));
        }
    }
}

/// A group of equal values as plain values.
pub open spec fn clause_view(g: (String, usize, Option<usize>)) -> (Seq<char>, usize, Option<usize>) {
    (g.0@, g.1, g.2)
}

proof fn lemma_groups_equal_at(column: Map<usize, String>, a: Seq<(String, usize, Option<usize>)>,
    b: Seq<(String, usize, Option<usize>)>, i: int)
    requires
        is_value_groups(column, a),
        is_value_groups(column, b),
        0 <= i < a.len(),
        0 <= i < b.len(),
    ensures
        clause_view(a[i]) == clause_view(b[i]),
    decreases i,
{
    assert forall|j: int| 0 <= j < i implies #[trigger] clause_view(a[j]) == clause_view(b[j]) by {
        lemma_groups_equal_at(column, a, b, j);
    }
    lemma_groups_first_row(column, a, b, i);
    lemma_groups_first_row(column, b, a, i);
    let s = a[i].1;
    assert(a[i].1 <= s);
    assert(s <= group_end(a[i]));
    assert(b[i].1 <= s);
    assert(s <= group_end(b[i]));
    assert(column.contains_key(s));
    assert(column[s]@ == a[i].0@);
    assert(column[s]@ == b[i].0@);
    if group_end(a[i]) < group_end(b[i]) {
        let y = (group_end(a[i]) + 1) as usize;
        lemma_group_edge(column, a, i);
        assert(b[i].1 <= y <= group_end(b[i]));
        assert(column.contains_key(y) && column[y]@ == b[i].0@);
    } else if group_end(b[i]) < group_end(a[i]) {
        let y = (group_end(b[i]) + 1) as usize;
        lemma_group_edge(column, b, i);
        assert(a[i].1 <= y <= group_end(a[i]));
        assert(column.contains_key(y) && column[y]@ == a[i].0@);
    }
    assert(a[i].2 is Some <==> a[i].1 < group_end(a[i]));
    assert(b[i].2 is Some <==> b[i].1 < group_end(b[i]));
}

proof fn lemma_groups_no_extra(column: Map<usize, String>, a: Seq<(String, usize, Option<usize>)>,
    b: Seq<(String, usize, Option<usize>)>)
    requires
        is_value_groups(column, a),
        is_value_groups(column, b),
        forall|i: int| 0 <= i < a.len() && i < b.len() ==> #[trigger] clause_view(a[i]) == clause_view(b[i]),
    ensures
        a.len() >= b.len(),
{
    if a.len() < b.len() {
        let x = b[a.len() as int].1;
        assert(b[a.len() as int].1 <= x <= group_end(b[a.len() as int]));
        assert(column.contains_key(x));
        assert(in_group(a, x));
        let m = choose|m: int| #![trigger a[m]] 0 <= m < a.len() && a[m].1 <= x <= group_end(a[m]);
        assert(clause_view(a[m]) == clause_view(b[m]));
        assert(group_end(a[m]) == group_end(b[m]));
        lemma_groups_apart(column, b, m, a.len() as int);
    }
}

/// The groups of equal values of a column are unique, up to the identity of
/// the strings that hold the values.
pub proof fn lemma_value_groups_unique(column: Map<usize, String>, a: Seq<(String, usize, Option<usize>)>,
    b: Seq<(String, usize, Option<usize>)>)
    requires
        is_value_groups(column, a),
        is_value_groups(column, b),
    ensures
        a.map_values(|g: (String, usize, Option<usize>)| clause_view(g))
            == b.map_values(|g: (String, usize, Option<usize>)| clause_view(g)),
{
    assert forall|i: int| 0 <= i < a.len() && i < b.len() implies #[trigger] clause_view(a[i]) == clause_view(b[i]) by {
        lemma_groups_equal_at(column, a, b, i);
    }
    lemma_groups_no_extra(column, a, b);
    assert forall|i: int| 0 <= i < b.len() && i < a.len() implies #[trigger] clause_view(b[i]) == clause_view(a[i]) by {
        lemma_groups_equal_at(column, a, b, i);
    }
    lemma_groups_no_extra(column, b, a);
    assert(a.map_values(|g: (String, usize, Option<usize>)| clause_view(g))
        =~= b.map_values(|g: (String, usize, Option<usize>)| clause_view(g)));
}

/// What holds after the first `k` entries of `s` were grouped.
#[verifier::opaque]
spec fn groups_prefix_ok(
    column: Map<usize, String>,
    s: Seq<(usize, String)>,
    k: int,
    res: Seq<(String, usize, Option<usize>)>,
) -> bool {
    &&& (k == 0 <==> res.len() == 0)
    &&& k > 0 ==> group_end(res.last()) == s[k - 1].0
    &&& forall|i: int| #![trigger res[i]] 0 <= i < res.len() ==>
        res[i].1 <= group_end(res[i]) && (res[i].2 is Some ==> res[i].1 < group_end(res[i]))
    &&& forall|i: int| #![trigger res[i]] 0 <= i < res.len() - 1 ==>
        group_end(res[i]) < res[i + 1].1
    &&& forall|i: int| #![trigger res[i]] 0 <= i < res.len() - 1 ==>
        (group_end(res[i]) + 1 == res[i + 1].1 ==> res[i].0@ != res[i + 1].0@)
    &&& forall|i: int, r: usize| #![trigger res[i], column.contains_key(r)]
        0 <= i < res.len() && res[i].1 <= r <= group_end(res[i]) ==>
        column.contains_key(r) && column[r]@ == res[i].0@
    &&& forall|r: usize| #![trigger key_among(s, k, r)] key_among(s, k, r) ==> in_group(res, r)
}

proof fn lemma_groups_start(column: Map<usize, String>, s: Seq<(usize, String)>)
    ensures
        groups_prefix_ok(column, s, 0, Seq::empty()),
{
    reveal(groups_prefix_ok);
}

proof fn lemma_groups_step_values(
    column: Map<usize, String>,
    s: Seq<(usize, String)>,
    k: int,
    old_res: Seq<(String, usize, Option<usize>)>,
    res: Seq<(String, usize, Option<usize>)>,
    extended: bool,
)
    requires
        column == entries_map(s),
        strictly_sorted(s),
        0 <= k < s.len(),
        k > 0 ==> group_end(old_res.last()) == s[k - 1].0,
        k == 0 <==> old_res.len() == 0,
        forall|i: int, r: usize| #![trigger old_res[i], column.contains_key(r)]
            0 <= i < old_res.len() && old_res[i].1 <= r <= group_end(old_res[i]) ==>
            column.contains_key(r) && column[r]@ == old_res[i].0@,
        extended ==> k > 0
            && old_res.last().0@ == s[k].1@
            && group_end(old_res.last()) + 1 == s[k].0
            && res == old_res.update(old_res.len() - 1, (old_res.last().0, old_res.last().1, Some(s[k].0))),
        !extended ==> res == old_res.push((s[k].1, s[k].0, None)),
    ensures
        forall|i: int, r: usize| #![trigger res[i], column.contains_key(r)]
            0 <= i < res.len() && res[i].1 <= r <= group_end(res[i]) ==>
            column.contains_key(r) && column[r]@ == res[i].0@,
{
    let row = s[k].0;
    let len = old_res.len();
    lemma_entry_in_map(s, k);
    assert forall|i: int, r: usize| #![trigger res[i], column.contains_key(r)]
        0 <= i < res.len() && res[i].1 <= r <= group_end(res[i]) implies
        column.contains_key(r) && column[r]@ == res[i].0@ by {
        if i < len && !(extended && i == len - 1) {
            assert(res[i] == old_res[i]);
            assert(0 <= i < old_res.len());
            assert(old_res[i].1 <= r);
            assert(r <= group_end(old_res[i]));
            assert(column.contains_key(r));
            assert(column[r]@ == old_res[i].0@);
        } else if extended {
            assert(i == len - 1);
            assert(res[i].0 == old_res[i].0 && res[i].1 == old_res[i].1);
            if r < row {
                assert(old_res[i].1 <= r <= group_end(old_res[i]));
                assert(column.contains_key(r) && column[r]@ == old_res[i].0@);
            } else {
                assert(r == row);
                assert(column[row] == s[k].1);
            }
        } else {
            assert(i == len);
            assert(r == row);
            assert(column[row] == s[k].1);
        }
    }
}

#[verifier::rlimit(100)]
#[verifier::spinoff_prover]
proof fn lemma_groups_step(
    column: Map<usize, String>,
    s: Seq<(usize, String)>,
    k: int,
    old_res: Seq<(String, usize, Option<usize>)>,
    res: Seq<(String, usize, Option<usize>)>,
    extended: bool,
)
    requires
        strictly_sorted(s),
        column == entries_map(s),
        0 <= k < s.len(),
        groups_prefix_ok(column, s, k, old_res),
        extended ==> k > 0
            && old_res.last().0@ == s[k].1@
            && group_end(old_res.last()) + 1 == s[k].0
            && res == old_res.update(old_res.len() - 1, (old_res.last().0, old_res.last().1, Some(s[k].0))),
        !extended ==> res == old_res.push((s[k].1, s[k].0, None)),
        !extended && k > 0 ==> !(old_res.last().0@ == s[k].1@ && group_end(old_res.last()) + 1 == s[k].0),
    ensures
        groups_prefix_ok(column, s, k + 1, res),
{
    reveal(groups_prefix_ok);
    let row = s[k].0;
    lemma_entry_in_map(s, k);
    if k > 0 {
        assert(s[k - 1].0 < s[k].0);
    }
    let len = old_res.len();
    assert forall|r: usize| #[trigger] key_among(s, k + 1, r) implies in_group(res, r) by {
        let j = choose|j: int| 0 <= j < k + 1 && s[j].0 == r;
        if j < k {
            assert(key_among(s, k, r));
            let i = choose|i: int| #![trigger old_res[i]] 0 <= i < old_res.len() && old_res[i].1 <= r <= group_end(old_res[i]);
            if extended && i == len - 1 {
                assert(res[i].1 <= r <= group_end(res[i]));
            } else {
                assert(res[i] == old_res[i]);
            }
        } else {
            assert(res[res.len() - 1].1 <= r <= group_end(res[res.len() - 1]));
        }
    }
    lemma_groups_step_values(column, s, k, old_res, res, extended);
    assert forall|i: int| #![trigger res[i]] 0 <= i < res.len() - 1 implies
        (group_end(res[i]) + 1 == res[i + 1].1 ==> res[i].0@ != res[i + 1].0@) by {
        assert(res[i] == old_res[i]);
        if i + 1 < len {
            assert(res[i + 1].0 == old_res[i + 1].0 && res[i + 1].1 == old_res[i + 1].1);
        }
    }
    assert forall|i: int| #![trigger res[i]] 0 <= i < res.len() - 1 implies
        group_end(res[i]) < res[i + 1].1 by {
        assert(res[i] == old_res[i]);
        if i + 1 < len {
            assert(res[i + 1].0 == old_res[i + 1].0 && res[i + 1].1 == old_res[i + 1].1);
        }
    }
    assert forall|i: int| #![trigger res[i]] 0 <= i < res.len() implies
        res[i].1 <= group_end(res[i]) && (res[i].2 is Some ==> res[i].1 < group_end(res[i])) by {
        if i < len && !(extended && i == len - 1) {
            assert(res[i] == old_res[i]);
        }
    }
}

proof fn lemma_groups_end(column: Map<usize, String>, s: Seq<(usize, String)>, res: Seq<(String, usize, Option<usize>)>)
    requires
        column == entries_map(s),
        groups_prefix_ok(column, s, s.len() as int, res),
    ensures
        is_value_groups(column, res),
{
    reveal(groups_prefix_ok);
    assert forall|r: usize| #[trigger] column.contains_key(r) implies in_group(res, r) by {
        let j = choose|j: int| 0 <= j < s.len() && s[j].0 == r;
        assert(key_among(s, s.len() as int, r));
    }
}

/// Groups the consecutive rows of a column that hold the same value.
pub fn group_values(column: &RowMap<String>) -> (res: Vec<(String, usize, Option<usize>)>)
    requires
        column.wf(),
    ensures
        is_value_groups(column@, res@),
{
    let mut res: Vec<(String, usize, Option<usize>)> = Vec::new();
    let n = column.len();
    let ghost s = column.seq();
    let mut k: usize = 0;
    proof {
        lemma_groups_start(column@, s);
    }
    while k < n
        invariant
            n == s.len(),
            s == column.seq(),
            column.wf(),
            0 <= k <= n,
            groups_prefix_ok(column@, s, k as int, res@),
        decreases n - k,
    {
        let (row, value) = column.entry(k);
        let ghost old_res = res@;
        proof {
            reveal(groups_prefix_ok);
        }
        let len = res.len();
        let mut extended = false;
        if len > 0 {
            let last_end = match res[len - 1].2 {
                Some(e) => e,
                None => res[len - 1].1,
            };
            if res[len - 1].0 == *value && last_end < row && last_end + 1 == row {
                let last = res.pop().unwrap();
                let (v, start, _) = last;
                res.push((v, start, Some(row)));
                extended = true;
                assert(res@ =~= old_res.update(len - 1, (old_res.last().0, old_res.last().1, Some(row))));
            }
        }
        if !extended {
            res.push((value.clone(), row, None));
        }
        proof {
            lemma_groups_step(column@, s, k as int, old_res, res@, extended);
        }
        k = k + 1;
    }
    proof {
        lemma_groups_end(column@, s, res@);
    }
    res
}

} // verus!
