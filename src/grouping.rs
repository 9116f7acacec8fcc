use vstd::prelude::*;
use vstd::string::*;

use crate::text::{concat_all, decimal, join, joined, lemma_concat_push, push_decimal};

verus! {

/// Whether proposition `id` holds, where the ids below `k` are the atoms,
/// whose truth values are `vals`, and id `k + j` is the conjunction of the
/// children listed in `nodes[j]`, each of which has a smaller id.
pub open spec fn node_holds(nodes: Seq<Seq<usize>>, k: nat, vals: Seq<bool>, id: nat) -> bool
    decreases id,
{
    if id < k {
        vals[id as int]
    } else if id - k < nodes.len() {
        forall|c: int| #![trigger nodes[id - k][c]]
            0 <= c < nodes[id - k].len() ==> nodes[id - k][c] < id && node_holds(nodes, k, vals, nodes[id - k][c] as nat)
    } else {
        false
    }
}

/// All the propositions in `ids` hold.
pub open spec fn all_hold(nodes: Seq<Seq<usize>>, k: nat, vals: Seq<bool>, ids: Seq<usize>) -> bool {
    forall|t: int| #![trigger ids[t]] 0 <= t < ids.len() ==> node_holds(nodes, k, vals, ids[t] as nat)
}

/// All the atoms hold.
pub open spec fn all_atoms(vals: Seq<bool>) -> bool {
    forall|i: int| #![trigger vals[i]] 0 <= i < vals.len() ==> vals[i]
}

/// A conjunction node: its children, and the first and last atom under it.
pub struct GroupNode {
    pub start: usize,
    pub end: usize,
    pub children: Vec<usize>,
}

/// A tree of conjunctions over `atoms` atomic propositions. Ids below
/// `atoms` are the atoms; id `atoms + j` is `nodes[j]`; `top` lists the
/// children of the final conjunction.
pub struct PropTree {
    pub atoms: usize,
    pub nodes: Vec<GroupNode>,
    pub top: Vec<usize>,
}

/// The children of each node.
pub open spec fn children_of(nodes: Seq<GroupNode>) -> Seq<Seq<usize>> {
    nodes.map_values(|n: GroupNode| n.children@)
}

impl PropTree {
    pub open spec fn children(&self) -> Seq<Seq<usize>> {
        children_of(self.nodes@)
    }

    /// The final conjunction holds exactly where every atom holds.
    pub open spec fn equivalent_to_all_atoms(&self) -> bool {
        forall|vals: Seq<bool>| vals.len() == self.atoms ==>
            (#[trigger] all_hold(self.children(), self.atoms as nat, vals, self.top@) <==> all_atoms(vals))
    }

    /// Every id that a node or the final conjunction lists is below the
    /// number of propositions.
    pub open spec fn wf_ids(&self) -> bool {
        &&& forall|x: int| 0 <= x < self.top@.len() ==> #[trigger] self.top@[x] < self.atoms + self.nodes@.len()
        &&& forall|j: int, x: int| 0 <= j < self.nodes@.len() && 0 <= x < self.nodes@[j].children@.len()
            ==> #[trigger] self.nodes@[j].children@[x] < self.atoms + self.nodes@.len()
    }

    /// The tree is the grouping of its atoms by `g`, each conjunction
    /// recording the first and last atom under it.
    pub open spec fn has_shape(&self, g: nat) -> bool {
        &&& children_of(self.nodes@) == tree_shape(self.atoms as nat, g).0
        &&& self.top@ == tree_shape(self.atoms as nat, g).1
        &&& spans_ok(self.nodes@, self.atoms as nat)
    }

    /// No conjunction has more than `g` children.
    pub open spec fn bounded_by(&self, g: nat) -> bool {
        &&& self.top@.len() <= g
        &&& forall|j: int| 0 <= j < self.nodes@.len() ==> #[trigger] self.nodes@[j].children@.len() <= g
    }
}

/// Extending the node list leaves the truth of the existing ids unchanged.
proof fn lemma_holds_stable(nodes: Seq<Seq<usize>>, extra: Seq<usize>, k: nat, vals: Seq<bool>, id: nat)
    requires
        id < k + nodes.len(),
    ensures
        node_holds(nodes.push(extra), k, vals, id) == node_holds(nodes, k, vals, id),
    decreases id,
{
    let big = nodes.push(extra);
    if id >= k {
        assert(big[id - k] == nodes[id - k]);
        assert forall|c: int| #![trigger nodes[id - k][c]] 0 <= c < nodes[id - k].len() && nodes[id - k][c] < id implies
            node_holds(big, k, vals, nodes[id - k][c] as nat) == node_holds(nodes, k, vals, nodes[id - k][c] as nat) by {
            lemma_holds_stable(nodes, extra, k, vals, nodes[id - k][c] as nat);
        }
    }
}

proof fn lemma_all_hold_stable(nodes: Seq<Seq<usize>>, extra: Seq<usize>, k: nat, vals: Seq<bool>, ids: Seq<usize>)
    requires
        forall|t: int| 0 <= t < ids.len() ==> #[trigger] ids[t] < k + nodes.len(),
    ensures
        all_hold(nodes.push(extra), k, vals, ids) == all_hold(nodes, k, vals, ids),
{
    assert forall|t: int| 0 <= t < ids.len() implies
        node_holds(nodes.push(extra), k, vals, #[trigger] ids[t] as nat) == node_holds(nodes, k, vals, ids[t] as nat) by {
        lemma_holds_stable(nodes, extra, k, vals, ids[t] as nat);
    }
}

proof fn lemma_all_hold_split(nodes: Seq<Seq<usize>>, k: nat, vals: Seq<bool>, level: Seq<usize>, i: int, j: int)
    requires
        0 <= i <= j <= level.len(),
    ensures
        all_hold(nodes, k, vals, level.subrange(0, j))
            == (all_hold(nodes, k, vals, level.subrange(0, i)) && all_hold(nodes, k, vals, level.subrange(i, j))),
{
    let a = level.subrange(0, j);
    let b = level.subrange(0, i);
    let c = level.subrange(i, j);
    if all_hold(nodes, k, vals, b) && all_hold(nodes, k, vals, c) {
        assert forall|t: int| 0 <= t < a.len() implies node_holds(nodes, k, vals, #[trigger] a[t] as nat) by {
            if t < i {
                assert(a[t] == b[t]);
            } else {
                assert(a[t] == c[t - i]);
            }
        }
    }
    if all_hold(nodes, k, vals, a) {
        assert forall|t: int| 0 <= t < b.len() implies node_holds(nodes, k, vals, #[trigger] b[t] as nat) by {
            assert(a[t] == b[t]);
        }
        assert forall|t: int| 0 <= t < c.len() implies node_holds(nodes, k, vals, #[trigger] c[t] as nat) by {
            assert(a[t + i] == c[t]);
        }
    }
}

/// What one chunk of a level does to the truth of the next level.
proof fn lemma_chunk_step(
    nodes: Seq<Seq<usize>>,
    k: nat,
    level: Seq<usize>,
    new_level: Seq<usize>,
    i: int,
    j: int,
)
    requires
        0 <= i < j <= level.len(),
        k + nodes.len() < usize::MAX,
        forall|t: int| 0 <= t < level.len() ==> #[trigger] level[t] < k + nodes.len(),
        forall|t: int| 0 <= t < new_level.len() ==> #[trigger] new_level[t] < k + nodes.len(),
        forall|vals: Seq<bool>| vals.len() == k ==>
            (#[trigger] all_hold(nodes, k, vals, new_level) <==> all_hold(nodes, k, vals, level.subrange(0, i))),
    ensures
        j == i + 1 ==> forall|vals: Seq<bool>| vals.len() == k ==>
            (#[trigger] all_hold(nodes, k, vals, new_level.push(level[i]))
                <==> all_hold(nodes, k, vals, level.subrange(0, j))),
        forall|vals: Seq<bool>| vals.len() == k ==>
            (#[trigger] all_hold(nodes.push(level.subrange(i, j)), k, vals, new_level.push((k + nodes.len()) as usize))
                <==> all_hold(nodes.push(level.subrange(i, j)), k, vals, level.subrange(0, j))),
{
    let id = (k + nodes.len()) as usize;
    let chunk = level.subrange(i, j);
    let nodes2 = nodes.push(chunk);
    assert forall|vals: Seq<bool>| vals.len() == k implies
        (#[trigger] all_hold(nodes2, k, vals, new_level.push(id))
            <==> all_hold(nodes2, k, vals, level.subrange(0, j))) by {
        lemma_all_hold_stable(nodes, chunk, k, vals, new_level);
        lemma_all_hold_stable(nodes, chunk, k, vals, level.subrange(0, i));
        lemma_all_hold_stable(nodes, chunk, k, vals, level.subrange(0, j));
        lemma_all_hold_stable(nodes, chunk, k, vals, chunk);
        lemma_all_hold_split(nodes, k, vals, level, i, j);
        assert(nodes2[id - k] == chunk);
        assert forall|c: int| 0 <= c < chunk.len() implies #[trigger] chunk[c] < id by {
            assert(chunk[c] == level[i + c]);
        }
        assert(node_holds(nodes2, k, vals, id as nat) == all_hold(nodes2, k, vals, chunk));
        let pushed = new_level.push(id);
        if all_hold(nodes2, k, vals, pushed) {
            assert forall|t: int| 0 <= t < new_level.len() implies node_holds(nodes2, k, vals, #[trigger] new_level[t] as nat) by {
                assert(pushed[t] == new_level[t]);
            }
            assert(pushed[new_level.len() as int] == id);
        }
        if all_hold(nodes2, k, vals, new_level) && node_holds(nodes2, k, vals, id as nat) {
            assert forall|t: int| 0 <= t < pushed.len() implies node_holds(nodes2, k, vals, #[trigger] pushed[t] as nat) by {
                if t < new_level.len() {
                    assert(pushed[t] == new_level[t]);
                }
            }
        }
    }
    if j == i + 1 {
        assert forall|vals: Seq<bool>| vals.len() == k implies
            (#[trigger] all_hold(nodes, k, vals, new_level.push(level[i]))
                <==> all_hold(nodes, k, vals, level.subrange(0, j))) by {
            lemma_all_hold_split(nodes, k, vals, level, i, j);
            let pushed = new_level.push(level[i]);
            assert(chunk[0] == level[i]);
            if all_hold(nodes, k, vals, pushed) {
                assert forall|t: int| 0 <= t < new_level.len() implies node_holds(nodes, k, vals, #[trigger] new_level[t] as nat) by {
                    assert(pushed[t] == new_level[t]);
                }
                assert(pushed[new_level.len() as int] == level[i]);
            }
            if all_hold(nodes, k, vals, new_level) && all_hold(nodes, k, vals, chunk) {
                assert forall|t: int| 0 <= t < pushed.len() implies node_holds(nodes, k, vals, #[trigger] pushed[t] as nat) by {
                    if t < new_level.len() {
                        assert(pushed[t] == new_level[t]);
                    }
                }
            }
        }
    }
}

proof fn lemma_child_ids(old_nodes: Seq<GroupNode>, nodes: Seq<GroupNode>, level: Seq<usize>, i: int, j: int, k: nat)
    requires
        0 <= i < j <= level.len(),
        nodes.len() == old_nodes.len() + 1,
        forall|jj: int| 0 <= jj < old_nodes.len() ==> nodes[jj] == old_nodes[jj],
        nodes.last().children@ == level.subrange(i, j),
        forall|t: int| 0 <= t < level.len() ==> #[trigger] level[t] < k + old_nodes.len(),
        forall|jj: int, x: int| 0 <= jj < old_nodes.len() && 0 <= x < old_nodes[jj].children@.len()
            ==> #[trigger] old_nodes[jj].children@[x] < k + old_nodes.len(),
    ensures
        forall|jj: int, x: int| 0 <= jj < nodes.len() && 0 <= x < nodes[jj].children@.len()
            ==> #[trigger] nodes[jj].children@[x] < k + nodes.len(),
{
    assert forall|jj: int, x: int| 0 <= jj < nodes.len() && 0 <= x < nodes[jj].children@.len()
        implies #[trigger] nodes[jj].children@[x] < k + nodes.len() by {
        if jj < old_nodes.len() {
            assert(nodes[jj] == old_nodes[jj]);
        } else {
            assert(nodes[jj].children@[x] == level[i + x]);
        }
    }
}

/// One level of grouping of the ids `level`: cut into chunks of `g`, a
/// chunk of one id passes to the next level as it is, a chunk of two or
/// more becomes a new conjunction, numbered from `next_id` on. Gives the
/// children of the new conjunctions and the next level.
#[verifier::opaque]
pub open spec fn chunk_ids(level: Seq<usize>, g: nat, next_id: nat) -> (Seq<Seq<usize>>, Seq<usize>)
    decreases level.len(),
{
    if level.len() == 0 || g == 0 {
        (Seq::empty(), Seq::empty())
    } else {
        let m = if level.len() < g { level.len() } else { g };
        if m == 1 {
            let rest = chunk_ids(level.skip(1), g, next_id);
            (rest.0, seq![level[0]] + rest.1)
        } else {
            let rest = chunk_ids(level.skip(m as int), g, next_id + 1);
            (seq![level.take(m as int)] + rest.0, seq![next_id as usize] + rest.1)
        }
    }
}

/// Levels of grouping, from the ids `level` and the conjunctions `nodes`
/// made so far, until at most `g` ids are left. Gives the children of every
/// conjunction and the children of the final one.
pub open spec fn build_levels(level: Seq<usize>, nodes: Seq<Seq<usize>>, k: nat, g: nat, fuel: nat)
    -> (Seq<Seq<usize>>, Seq<usize>)
    decreases fuel,
{
    if level.len() <= g || fuel == 0 {
        (nodes, level)
    } else {
        let c = chunk_ids(level, g, k + nodes.len());
        build_levels(c.1, nodes + c.0, k, g, (fuel - 1) as nat)
    }
}

/// The grouping of `k` atoms by `g`: the children of each conjunction, and
/// of the final one.
pub open spec fn tree_shape(k: nat, g: nat) -> (Seq<Seq<usize>>, Seq<usize>) {
    build_levels(Seq::new(k, |i: int| i as usize), Seq::empty(), k, g, k)
}

/// The first atom under proposition `id`.
pub open spec fn span_start(nodes: Seq<Seq<usize>>, k: nat, id: nat) -> nat
    decreases id,
{
    if id < k {
        id
    } else if id - k < nodes.len() && nodes[id - k].len() > 0 && nodes[id - k][0] < id {
        span_start(nodes, k, nodes[id - k][0] as nat)
    } else {
        0
    }
}

/// The last atom under proposition `id`.
pub open spec fn span_end(nodes: Seq<Seq<usize>>, k: nat, id: nat) -> nat
    decreases id,
{
    if id < k {
        id
    } else if id - k < nodes.len() && nodes[id - k].len() > 0 && nodes[id - k].last() < id {
        span_end(nodes, k, nodes[id - k].last() as nat)
    } else {
        0
    }
}

/// Every conjunction records the first and last atom under it.
pub open spec fn spans_ok(nodes: Seq<GroupNode>, k: nat) -> bool {
    forall|j: int| #![trigger nodes[j]] 0 <= j < nodes.len() ==>
        nodes[j].start == span_start(children_of(nodes), k, (k + j) as nat)
        && nodes[j].end == span_end(children_of(nodes), k, (k + j) as nat)
}

proof fn lemma_span_stable(nodes: Seq<Seq<usize>>, extra: Seq<usize>, k: nat, id: nat)
    requires
        id < k + nodes.len(),
    ensures
        span_start(nodes.push(extra), k, id) == span_start(nodes, k, id),
        span_end(nodes.push(extra), k, id) == span_end(nodes, k, id),
    decreases id,
{
    if id >= k {
        assert(nodes.push(extra)[id - k] == nodes[id - k]);
        if nodes[id - k].len() > 0 && nodes[id - k][0] < id {
            lemma_span_stable(nodes, extra, k, nodes[id - k][0] as nat);
        }
        if nodes[id - k].len() > 0 && nodes[id - k].last() < id {
            lemma_span_stable(nodes, extra, k, nodes[id - k].last() as nat);
        }
    }
}

proof fn lemma_spans_push(old: Seq<GroupNode>, node: GroupNode, k: nat)
    requires
        spans_ok(old, k),
        node.children@.len() > 0,
        forall|x: int| 0 <= x < node.children@.len() ==> #[trigger] node.children@[x] < k + old.len(),
        node.start == span_start(children_of(old), k, node.children@[0] as nat),
        node.end == span_end(children_of(old), k, node.children@.last() as nat),
    ensures
        spans_ok(old.push(node), k),
{
    let nodes = old.push(node);
    assert(children_of(nodes) =~= children_of(old).push(node.children@));
    assert forall|j: int| #![trigger nodes[j]] 0 <= j < nodes.len() implies
        nodes[j].start == span_start(children_of(nodes), k, (k + j) as nat)
        && nodes[j].end == span_end(children_of(nodes), k, (k + j) as nat) by {
        if j < old.len() {
            assert(nodes[j] == old[j]);
            lemma_span_stable(children_of(old), node.children@, k, (k + j) as nat);
        } else {
            assert(children_of(nodes)[j] == node.children@);
            lemma_span_stable(children_of(old), node.children@, k, node.children@[0] as nat);
            lemma_span_stable(children_of(old), node.children@, k, node.children@.last() as nat);
        }
    }
}

/// One step of `chunk_ids` from position `i`.
proof fn lemma_chunk_ids_step(level: Seq<usize>, g: nat, b: nat, i: int, j: int)
    requires
        g >= 2,
        0 <= i < j <= level.len(),
        j == if level.len() - i < g { level.len() as int } else { i + g },
    ensures
        chunk_ids(level.skip(i), g, b) == if j - i == 1 {
            (chunk_ids(level.skip(j), g, b).0, seq![level[i]] + chunk_ids(level.skip(j), g, b).1)
        } else {
            (seq![level.subrange(i, j)] + chunk_ids(level.skip(j), g, b + 1).0,
             seq![b as usize] + chunk_ids(level.skip(j), g, b + 1).1)
        },
{
    reveal(chunk_ids);
    let rest = level.skip(i);
    assert(rest.take(j - i) =~= level.subrange(i, j));
    assert(rest.skip(j - i) =~= level.skip(j));
    assert(rest.skip(1) =~= level.skip(i + 1));
}

proof fn lemma_chunk_ids_empty(g: nat, b: nat)
    ensures
        chunk_ids(Seq::<usize>::empty(), g, b) == (Seq::<Seq<usize>>::empty(), Seq::<usize>::empty()),
{
    reveal(chunk_ids);
}

/// The first and last atom under proposition `id`.
fn span_of(atoms: usize, nodes: &Vec<GroupNode>, id: usize) -> (r: (usize, usize))
    requires
        id < atoms + nodes@.len(),
    ensures
        r.0 == if id < atoms { id } else { nodes@[id - atoms].start },
        r.1 == if id < atoms { id } else { nodes@[id - atoms].end },
{
    if id < atoms {
        (id, id)
    } else {
        (nodes[id - atoms].start, nodes[id - atoms].end)
    }
}

/// Arranges `k` atomic propositions under conjunctions of at most `g`
/// children each: the propositions of a level are cut into chunks of `g`,
/// each chunk of two or more becoming a new conjunction of the next level,
/// until at most `g` are left for the final conjunction. The final
/// conjunction holds exactly where all atoms hold, and fewer new
/// conjunctions are made than there are atoms.
pub fn group_tree(k: usize, g: usize) -> (t: PropTree)
    requires
        g >= 2,
        k < usize::MAX / 2,
    ensures
        t.atoms == k,
        t.equivalent_to_all_atoms(),
        t.bounded_by(g as nat),
        t.nodes@.len() + t.top@.len() <= k,
        t.wf_ids(),
        t.has_shape(g as nat),
{
    let mut nodes: Vec<GroupNode> = Vec::new();
    let mut level: Vec<usize> = Vec::new();
    let mut a: usize = 0;
    while a < k
        invariant
            a <= k,
            level@.len() == a,
            forall|t: int| 0 <= t < a ==> #[trigger] level@[t] == t,
        decreases k - a,
    {
        level.push(a);
        a = a + 1;
    }
    let ghost nodes0 = Seq::<Seq<usize>>::empty();
    let ghost mut fuel: nat = k as nat;
    proof {
        assert(level@ =~= Seq::new(k as nat, |i: int| i as usize));
        assert(children_of(nodes@) =~= nodes0);
        assert forall|vals: Seq<bool>| vals.len() == k implies
            (#[trigger] all_hold(nodes0, k as nat, vals, level@) <==> all_atoms(vals)) by {
            if all_hold(nodes0, k as nat, vals, level@) {
                assert forall|i: int| 0 <= i < vals.len() implies #[trigger] vals[i] by {
                    assert(level@[i] == i);
                    assert(node_holds(nodes0, k as nat, vals, level@[i] as nat));
                }
            }
            if all_atoms(vals) {
                assert forall|t: int| 0 <= t < level@.len() implies
                    node_holds(nodes0, k as nat, vals, #[trigger] level@[t] as nat) by {
                    assert(level@[t] == t);
                    assert(vals[t]);
                }
            }
        }
    }
    while level.len() > g
        invariant
            g >= 2,
            k < usize::MAX / 2,
            level@.len() + nodes@.len() <= k,
            forall|t: int| 0 <= t < level@.len() ==> #[trigger] level@[t] < k + nodes@.len(),
            forall|j: int| 0 <= j < nodes@.len() ==> #[trigger] nodes@[j].children@.len() <= g,
            forall|j: int, x: int| 0 <= j < nodes@.len() && 0 <= x < nodes@[j].children@.len()
                ==> #[trigger] nodes@[j].children@[x] < k + nodes@.len(),
            forall|vals: Seq<bool>| vals.len() == k ==>
                (#[trigger] all_hold(children_of(nodes@), k as nat, vals, level@)
                    <==> all_atoms(vals)),
            fuel >= level@.len(),
            build_levels(level@, children_of(nodes@), k as nat, g as nat, fuel) == tree_shape(k as nat, g as nat),
            spans_ok(nodes@, k as nat),
        decreases level@.len(),
    {
        let n = level.len();
        let mut next: Vec<usize> = Vec::new();
        let mut i: usize = 0;
        let ghost made0 = nodes@.len();
        let ghost ch0 = children_of(nodes@);
        let ghost step = chunk_ids(level@, g as nat, (k + made0) as nat);
        proof {
            assert(level@.skip(0) =~= level@);
            assert(ch0 + step.0 =~= children_of(nodes@) + chunk_ids(level@.skip(0), g as nat, (k + nodes@.len()) as nat).0);
            assert(next@ + step.1 =~= chunk_ids(level@.skip(0), g as nat, (k + nodes@.len()) as nat).1);
        }
        while i < n
            invariant
                g >= 2,
                k < usize::MAX / 2,
                n == level@.len(),
                n > g,
                n + made0 <= k,
                i <= n,
                made0 <= nodes@.len(),
                next@.len() + (nodes@.len() - made0) <= i,
                2 * next@.len() <= i + 1,
                i < n ==> 2 * next@.len() <= i,
                forall|t: int| 0 <= t < level@.len() ==> #[trigger] level@[t] < k + nodes@.len(),
                forall|t: int| 0 <= t < next@.len() ==> #[trigger] next@[t] < k + nodes@.len(),
                forall|j: int| 0 <= j < nodes@.len() ==> #[trigger] nodes@[j].children@.len() <= g,
                forall|j: int, x: int| 0 <= j < nodes@.len() && 0 <= x < nodes@[j].children@.len()
                    ==> #[trigger] nodes@[j].children@[x] < k + nodes@.len(),
                forall|vals: Seq<bool>| vals.len() == k ==>
                    (#[trigger] all_hold(children_of(nodes@), k as nat, vals, level@)
                        <==> all_atoms(vals)),
                forall|vals: Seq<bool>| vals.len() == k ==>
                    (#[trigger] all_hold(children_of(nodes@), k as nat, vals, next@)
                        <==> all_hold(children_of(nodes@), k as nat, vals, level@.subrange(0, i as int))),
                step == chunk_ids(level@, g as nat, (k + made0) as nat),
                children_of(nodes@) + chunk_ids(level@.skip(i as int), g as nat, (k + nodes@.len()) as nat).0 == ch0 + step.0,
                next@ + chunk_ids(level@.skip(i as int), g as nat, (k + nodes@.len()) as nat).1 == step.1,
                spans_ok(nodes@, k as nat),
            decreases n - i,
        {
            let j: usize = if n - i < g { n } else { i + g };
            let ghost ch = children_of(nodes@);
            proof {
                lemma_chunk_step(ch, k as nat, level@, next@, i as int, j as int);
                lemma_chunk_ids_step(level@, g as nat, (k + nodes@.len()) as nat, i as int, j as int);
            }
            let ghost next0 = next@;
            if j - i == 1 {
                next.push(level[i]);
                proof {
                    assert forall|vals: Seq<bool>| vals.len() == k implies
                        (#[trigger] all_hold(children_of(nodes@), k as nat, vals, next@)
                            <==> all_hold(children_of(nodes@), k as nat, vals, level@.subrange(0, j as int))) by {
                        assert(all_hold(ch, k as nat, vals, next0.push(level@[i as int]))
                            <==> all_hold(ch, k as nat, vals, level@.subrange(0, j as int)));
                    }
                    assert(next@ + chunk_ids(level@.skip(j as int), g as nat, (k + nodes@.len()) as nat).1 =~= step.1);
                }
            } else {
                let mut children: Vec<usize> = Vec::new();
                let mut c: usize = i;
                while c < j
                    invariant
                        i <= c <= j,
                        j <= level@.len(),
                        children@ == level@.subrange(i as int, c as int),
                    decreases j - c,
                {
                    children.push(level[c]);
                    proof {
                        assert(children@ =~= level@.subrange(i as int, c as int + 1));
                    }
                    c = c + 1;
                }
                let first = span_of(k, &nodes, level[i]);
                let last = span_of(k, &nodes, level[j - 1]);
                let id = k + nodes.len();
                let ghost old_nodes = nodes@;
                nodes.push(GroupNode { start: first.0, end: last.1, children });
                next.push(id);
                proof {
                    assert(children_of(nodes@) =~= ch.push(level@.subrange(i as int, j as int)));
                    assert forall|vals: Seq<bool>| vals.len() == k implies
                        (#[trigger] all_hold(children_of(nodes@), k as nat, vals, level@)
                            <==> all_atoms(vals)) by {
                        lemma_all_hold_stable(ch, level@.subrange(i as int, j as int), k as nat, vals, level@);
                    }
                    assert forall|vals: Seq<bool>| vals.len() == k implies
                        (#[trigger] all_hold(children_of(nodes@), k as nat, vals, next@)
                            <==> all_hold(children_of(nodes@), k as nat, vals, level@.subrange(0, j as int))) by {
                        assert(all_hold(ch.push(level@.subrange(i as int, j as int)), k as nat, vals, next0.push((k + ch.len()) as usize))
                            <==> all_hold(ch.push(level@.subrange(i as int, j as int)), k as nat, vals, level@.subrange(0, j as int)));
                    }
                }
                proof {
                    lemma_child_ids(old_nodes, nodes@, level@, i as int, j as int, k as nat);
                    let rest = chunk_ids(level@.skip(j as int), g as nat, (k + nodes@.len()) as nat);
                    assert(children_of(nodes@) + rest.0 =~= ch0 + step.0);
                    assert(next@ + rest.1 =~= step.1);
                    assert(level@[i as int] == level@.subrange(i as int, j as int)[0]);
                    lemma_spans_push(old_nodes, nodes@.last(), k as nat);
                    assert(nodes@ == old_nodes.push(nodes@.last()));
                }
            }
            i = j;
        }
        proof {
            assert(level@.subrange(0, n as int) =~= level@);
            lemma_chunk_ids_empty(g as nat, (k + nodes@.len()) as nat);
            assert(level@.skip(n as int) =~= Seq::<usize>::empty());
            assert(children_of(nodes@) =~= ch0 + step.0);
            assert(next@ =~= step.1);
            fuel = (fuel - 1) as nat;
        }
        level = next;
    }
    let t = PropTree { atoms: k, nodes, top: level };
    t
}


/// `def <name> (c: ValidCircuit P P_Prime) : Prop :=` and the indentation of
/// the body on the next line.
pub open spec fn prop_header(name: Seq<char>) -> Seq<char> {
    "def "@ + name + " (c: ValidCircuit P P_Prime) : Prop :=\n  "@
}

/// The name of proposition `id`: `<prefix><i>` for atom `i`, and
/// `<prefix><first>_to_<last>` for a conjunction over the atoms `first` to
/// `last`.
pub open spec fn prop_name(prefix: Seq<char>, t: PropTree, id: usize) -> Seq<char> {
    if id < t.atoms {
        prefix + decimal(id as nat)
    } else {
        prefix + decimal(t.nodes@[id - t.atoms].start as nat) + "_to_"@ + decimal(t.nodes@[id - t.atoms].end as nat)
    }
}

/// The conjunction of the propositions `ids`, each applied to the circuit.
pub open spec fn conjunction_text(prefix: Seq<char>, t: PropTree, ids: Seq<usize>) -> Seq<char> {
    joined(ids.map_values(|id: usize| prop_name(prefix, t, id) + " c"@), " ∧ "@)
}

/// The definitions of the atoms, of the intermediate conjunctions and of
/// the final conjunction `final_name` (`true` when there is no atom).
pub open spec fn grouped_text(prefix: Seq<char>, final_name: Seq<char>, props: Seq<Seq<char>>, t: PropTree) -> Seq<char> {
    concat_all(Seq::new(props.len(), |i: int| prop_header(prefix + decimal(i as nat)) + props[i] + "\n"@))
    + concat_all(Seq::new(t.nodes@.len(), |j: int|
        prop_header(prop_name(prefix, t, (t.atoms + j) as usize))
        + conjunction_text(prefix, t, t.nodes@[j].children@) + "\n"@))
    + "def "@ + final_name + " (c: ValidCircuit P P_Prime): Prop :=\n  "@
    + (if t.top@.len() == 0 { "true"@ } else { conjunction_text(prefix, t, t.top@) }) + "\n"@
}

fn push_prop_name(s: &mut String, prefix: &str, t: &PropTree, id: usize)
    requires
        id < t.atoms || id - t.atoms < t.nodes@.len(),
    ensures
        final(s)@ == old(s)@ + prop_name(prefix@, *t, id),
{
    s.append(prefix);
    if id < t.atoms {
        push_decimal(s, id as u128);
    } else {
        push_decimal(s, t.nodes[id - t.atoms].start as u128);
        s.append("_to_");
        push_decimal(s, t.nodes[id - t.atoms].end as u128);
    }
    proof {
        assert(final(s)@ =~= old(s)@ + prop_name(prefix@, *t, id));
    }
}

fn conjunction_of(prefix: &str, t: &PropTree, ids: &Vec<usize>) -> (r: String)
    requires
        forall|x: int| 0 <= x < ids@.len() ==> #[trigger] ids@[x] < t.atoms + t.nodes@.len(),
    ensures
        r@ == conjunction_text(prefix@, *t, ids@),
{
    let mut parts: Vec<String> = Vec::new();
    let mut i: usize = 0;
    while i < ids.len()
        invariant
            i <= ids@.len(),
            parts@.len() == i,
            forall|x: int| 0 <= x < ids@.len() ==> #[trigger] ids@[x] < t.atoms + t.nodes@.len(),
            forall|x: int| 0 <= x < i ==> #[trigger] parts@[x]@ == prop_name(prefix@, *t, ids@[x]) + " c"@,
        decreases ids@.len() - i,
    {
        let mut p = String::new();
        push_prop_name(&mut p, prefix, t, ids[i]);
        p.append(" c");
        parts.push(p);
        i = i + 1;
    }
    let r = join(&parts, " ∧ ");
    proof {
        assert(parts@.map_values(|p: String| p@) =~= ids@.map_values(|id: usize| prop_name(prefix@, *t, id) + " c"@));
    }
    r
}

/// Definitions of the propositions `props`, named `<prefix><i>`, of
/// conjunctions over them of at most `group_size` children each, and of the
/// final conjunction `final_name`, which holds exactly where all of `props`
/// hold.
pub fn grouped_props_text(prefix: &str, final_name: &str, props: &Vec<String>, group_size: usize) -> (r: String)
    requires
        group_size >= 2,
        props@.len() < usize::MAX / 2,
    ensures
        exists|t: PropTree| {
            &&& t.atoms == props@.len()
            &&& t.has_shape(group_size as nat)
            &&& t.equivalent_to_all_atoms()
            &&& t.bounded_by(group_size as nat)
            &&& r@ == grouped_text(prefix@, final_name@, props@.map_values(|p: String| p@), t)
        },
{
    let t = group_tree(props.len(), group_size);
    let ghost views = props@.map_values(|p: String| p@);
    let ghost atom_parts = Seq::new(views.len(), |i: int| prop_header(prefix@ + decimal(i as nat)) + views[i] + "\n"@);
    let mut r = String::new();
    let mut i: usize = 0;
    while i < props.len()
        invariant
            i <= props@.len(),
            views == props@.map_values(|p: String| p@),
            atom_parts == Seq::new(views.len(), |i: int| prop_header(prefix@ + decimal(i as nat)) + views[i] + "\n"@),
            r@ == concat_all(atom_parts.take(i as int)),
        decreases props@.len() - i,
    {
        proof {
            lemma_concat_push(atom_parts, i as int);
            reveal_strlit("def ");
            reveal_strlit(" (c: ValidCircuit P P_Prime) : Prop :=\n  ");
            reveal_strlit("\n");
        }
        r.append("def ");
        r.append(prefix);
        push_decimal(&mut r, i as u128);
        r.append(" (c: ValidCircuit P P_Prime) : Prop :=\n  ");
        r.append(props[i].as_str());
        r.append("\n");
        proof {
            assert(r@ =~= concat_all(atom_parts.take(i as int)) + atom_parts[i as int]);
        }
        i = i + 1;
    }
    proof {
        assert(atom_parts.take(i as int) =~= atom_parts);
    }
    let ghost head = r@;
    let ghost node_parts = Seq::new(t.nodes@.len(), |j: int|
        prop_header(prop_name(prefix@, t, (t.atoms + j) as usize))
        + conjunction_text(prefix@, t, t.nodes@[j].children@) + "\n"@);
    let mut j: usize = 0;
    while j < t.nodes.len()
        invariant
            j <= t.nodes@.len(),
            t.wf_ids(),
            t.nodes@.len() <= t.atoms,
            t.atoms == props@.len(),
            t.atoms < usize::MAX / 2,
            node_parts == Seq::new(t.nodes@.len(), |j: int|
                prop_header(prop_name(prefix@, t, (t.atoms + j) as usize))
                + conjunction_text(prefix@, t, t.nodes@[j].children@) + "\n"@),
            r@ == head + concat_all(node_parts.take(j as int)),
        decreases t.nodes@.len() - j,
    {
        proof {
            lemma_concat_push(node_parts, j as int);
            reveal_strlit("def ");
            reveal_strlit(" (c: ValidCircuit P P_Prime) : Prop :=\n  ");
            reveal_strlit("\n");
        }
        r.append("def ");
        push_prop_name(&mut r, prefix, &t, t.atoms + j);
        r.append(" (c: ValidCircuit P P_Prime) : Prop :=\n  ");
        let body = conjunction_of(prefix, &t, &t.nodes[j].children);
        r.append(body.as_str());
        r.append("\n");
        proof {
            assert(r@ =~= head + concat_all(node_parts.take(j as int)) + node_parts[j as int]);
        }
        j = j + 1;
    }
    proof {
        assert(node_parts.take(j as int) =~= node_parts);
    }
    r.append("def ");
    r.append(final_name);
    r.append(" (c: ValidCircuit P P_Prime): Prop :=\n  ");
    if t.top.len() == 0 {
        r.append("true");
    } else {
        let body = conjunction_of(prefix, &t, &t.top);
        r.append(body.as_str());
    }
    r.append("\n");
    proof {
        assert(r@ =~= grouped_text(prefix@, final_name@, views, t));
    }
    r
}

} // verus!
