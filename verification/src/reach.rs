//! Reachability over adjacency lists: the edge relation, connectivity as the
//! existence of an edge chain, and the lemmas the labeler's proof rests on.

use vstd::prelude::*;
use vstd::assert_seqs_equal;

verus! {

/// There is a directed edge from `i` to `j` in the adjacency lists.
pub open spec fn edge(list: Seq<Vec<u32>>, i: int, j: int) -> bool {
    &&& 0 <= i < list.len()
    &&& exists|k: int| 0 <= k < list[i]@.len() && list[i]@[k] as int == j
}

/// Every adjacency entry stays inside the graph.
pub open spec fn targets_in_bounds(list: Seq<Vec<u32>>) -> bool {
    forall|i: int, k: int|
        #![trigger list[i]@[k]]
        0 <= i < list.len() && 0 <= k < list[i]@.len() ==> (list[i]@[k] as int) < list.len() as int
}

/// Every edge has a reverse edge: the graph is effectively undirected.
pub open spec fn symmetric(list: Seq<Vec<u32>>) -> bool {
    forall|i: int, j: int| #[trigger] edge(list, i, j) ==> edge(list, j, i)
}

/// `j` can be reached from `i` in exactly `k` edge steps.
pub open spec fn reaches_in(list: Seq<Vec<u32>>, i: int, j: int, k: nat) -> bool
    decreases k,
{
    if k == 0 {
        i == j && 0 <= i < list.len()
    } else {
        exists|m: int| #[trigger] edge(list, i, m) && reaches_in(list, m, j, (k - 1) as nat)
    }
}

/// `i` and `j` are connected: some chain of edges leads from `i` to `j`.
pub open spec fn connected(list: Seq<Vec<u32>>, i: int, j: int) -> bool {
    exists|k: nat| reaches_in(list, i, j, k)
}

pub proof fn lemma_reaches_in_bounds(list: Seq<Vec<u32>>, i: int, j: int, k: nat)
    requires
        reaches_in(list, i, j, k),
    ensures
        0 <= i < list.len(),
        0 <= j < list.len(),
    decreases k,
{
    if k != 0 {
        let m = choose|m: int| #[trigger] edge(list, i, m) && reaches_in(list, m, j, (k - 1) as nat);
        lemma_reaches_in_bounds(list, m, j, (k - 1) as nat);
    }
}

pub proof fn lemma_connected_refl(list: Seq<Vec<u32>>, i: int)
    requires
        0 <= i < list.len(),
    ensures
        connected(list, i, i),
{
    assert(reaches_in(list, i, i, 0));
}

pub proof fn lemma_reaches_in_trans(list: Seq<Vec<u32>>, a: int, b: int, c: int, k1: nat, k2: nat)
    requires
        reaches_in(list, a, b, k1),
        reaches_in(list, b, c, k2),
    ensures
        reaches_in(list, a, c, k1 + k2),
    decreases k1,
{
    if k1 != 0 {
        let m = choose|m: int|
            #[trigger] edge(list, a, m) && reaches_in(list, m, b, (k1 - 1) as nat);
        lemma_reaches_in_trans(list, m, b, c, (k1 - 1) as nat, k2);
        assert(edge(list, a, m) && reaches_in(list, m, c, (k1 + k2 - 1) as nat));
    }
}

pub proof fn lemma_connected_trans(list: Seq<Vec<u32>>, a: int, b: int, c: int)
    requires
        connected(list, a, b),
        connected(list, b, c),
    ensures
        connected(list, a, c),
{
    let k1 = choose|k1: nat| reaches_in(list, a, b, k1);
    let k2 = choose|k2: nat| reaches_in(list, b, c, k2);
    lemma_reaches_in_trans(list, a, b, c, k1, k2);
}

pub proof fn lemma_edge_connected(list: Seq<Vec<u32>>, a: int, b: int)
    requires
        edge(list, a, b),
        0 <= b < list.len(),
    ensures
        connected(list, a, b),
{
    assert(reaches_in(list, b, b, 0));
    assert(edge(list, a, b) && reaches_in(list, b, b, 0));
    assert(reaches_in(list, a, b, 1));
}

pub proof fn lemma_connected_extend(list: Seq<Vec<u32>>, a: int, b: int, c: int)
    requires
        connected(list, a, b),
        edge(list, b, c),
        0 <= c < list.len(),
    ensures
        connected(list, a, c),
{
    lemma_edge_connected(list, b, c);
    lemma_connected_trans(list, a, b, c);
}

proof fn lemma_reaches_in_sym(list: Seq<Vec<u32>>, a: int, b: int, k: nat)
    requires
        symmetric(list),
        reaches_in(list, a, b, k),
    ensures
        connected(list, b, a),
    decreases k,
{
    if k == 0 {
        lemma_connected_refl(list, a);
    } else {
        let m = choose|m: int| #[trigger] edge(list, a, m) && reaches_in(list, m, b, (k - 1) as nat);
        lemma_reaches_in_sym(list, m, b, (k - 1) as nat);
        assert(edge(list, m, a));
        lemma_connected_extend(list, b, m, a);
    }
}

/// On an undirected graph, connectivity is itself symmetric.
pub proof fn lemma_connected_sym(list: Seq<Vec<u32>>, a: int, b: int)
    requires
        symmetric(list),
        connected(list, a, b),
    ensures
        connected(list, b, a),
{
    let k = choose|k: nat| reaches_in(list, a, b, k);
    lemma_reaches_in_sym(list, a, b, k);
}

/// The set of labeled pixels is closed under edges: a labeled pixel never
/// points at an unlabeled one.
pub open spec fn labeled_closed(list: Seq<Vec<u32>>, labels: Seq<u32>) -> bool {
    forall|i: int, j: int|
        0 <= i < list.len() && 0 <= j < labels.len() && #[trigger] edge(list, i, j) && labels[i]
            != 0 ==> labels[j] != 0
}

proof fn lemma_closed_reaches(list: Seq<Vec<u32>>, labels: Seq<u32>, a: int, b: int, k: nat)
    requires
        labeled_closed(list, labels),
        labels.len() == list.len(),
        reaches_in(list, a, b, k),
        labels[a] != 0,
    ensures
        labels[b] != 0,
    decreases k,
{
    if k != 0 {
        let m = choose|m: int| #[trigger] edge(list, a, m) && reaches_in(list, m, b, (k - 1) as nat);
        lemma_reaches_in_bounds(list, m, b, (k - 1) as nat);
        lemma_closed_reaches(list, labels, m, b, (k - 1) as nat);
    }
}

/// Along a chain of edges out of a labeled pixel, every pixel is labeled.
pub proof fn lemma_closed_connected(list: Seq<Vec<u32>>, labels: Seq<u32>, a: int, b: int)
    requires
        labeled_closed(list, labels),
        labels.len() == list.len(),
        connected(list, a, b),
        labels[a] != 0,
    ensures
        labels[b] != 0,
{
    let k = choose|k: nat| reaches_in(list, a, b, k);
    lemma_closed_reaches(list, labels, a, b, k);
}

/// How many entries of the label array still hold the unlabeled sentinel.
pub open spec fn num_unlabeled(labels: Seq<u32>) -> nat
    decreases labels.len(),
{
    if labels.len() == 0 {
        0
    } else {
        num_unlabeled(labels.drop_last()) + if labels.last() == 0 {
            1nat
        } else {
            0nat
        }
    }
}

/// Labeling one unlabeled pixel lowers the unlabeled count by exactly one.
pub proof fn lemma_num_unlabeled_update(labels: Seq<u32>, i: int, v: u32)
    requires
        0 <= i < labels.len(),
        labels[i] == 0,
        v != 0,
    ensures
        num_unlabeled(labels.update(i, v)) + 1 == num_unlabeled(labels),
    decreases labels.len(),
{
    let upd = labels.update(i, v);
    if i == labels.len() - 1 {
        assert_seqs_equal!(upd.drop_last() == labels.drop_last());
    } else {
        assert_seqs_equal!(upd.drop_last() == labels.drop_last().update(i, v));
        lemma_num_unlabeled_update(labels.drop_last(), i, v);
    }
}

} // verus!
