//! The pixel-adjacency graph and the connected-component labeler.

use crate::color::{compare, same_region, Rgb};
use crate::grid::{grid_adjacent, lemma_grid_neighbors, lemma_row_major_bounds, linearize};
use crate::reach::{
    connected, edge, labeled_closed, lemma_closed_connected, lemma_connected_extend,
    lemma_connected_refl, lemma_connected_sym, lemma_connected_trans, lemma_num_unlabeled_update,
    num_unlabeled, symmetric, targets_in_bounds,
};
use vstd::prelude::*;

verus! {

/// Some pixel with index below `upto` carries the label `v`.
pub open spec fn label_used(labels: Seq<u32>, v: int, upto: int) -> bool {
    exists|j: int| 0 <= j < upto && labels[j] as int == v
}

/// The shape of a finished labeling over an undirected edge relation:
/// everything `label_all` guarantees of its label array and region counter.
/// Labels lie in `[1, count)`, the top label is used, every label other than
/// 1 is preceded (at a smaller index) by its predecessor label, and two
/// pixels carry the same label exactly when they are connected.
pub open spec fn labeling_of(list: Seq<Vec<u32>>, labels: Seq<u32>, count: u32) -> bool {
    &&& labels.len() == list.len()
    &&& forall|i: int|
        0 <= i < labels.len() ==> 1 <= #[trigger] labels[i] && (labels[i] as int) < count as int
    &&& count >= 1
    &&& (labels.len() == 0 ==> count == 1)
    &&& (labels.len() > 0 ==> label_used(labels, count as int - 1, labels.len() as int))
    &&& forall|i: int|
        0 <= i < labels.len() && #[trigger] labels[i] != 1 ==> exists|j: int|
            0 <= j < i && labels[j] as int == labels[i] as int - 1
    &&& forall|i: int, j: int|
        #![trigger labels[i], labels[j]]
        0 <= i < labels.len() && 0 <= j < labels.len() ==> ((labels[i] == labels[j]) <==> connected(
            list,
            i,
            j,
        ))
}

/// The adjacency graph over pixel indices, together with the label array
/// that the labeler fills and the region counter.
pub struct Graph {
    /// Adjacency lists: entry `i` holds the indices one similar-colour grid
    /// step away from pixel `i`.
    pub list: Vec<Vec<u32>>,
    /// One region identifier per pixel; `0` is the unlabeled sentinel.
    pub labels: Vec<u32>,
    /// After labeling: one past the largest region identifier handed out.
    pub label_count: u32,
}

impl Graph {
    /// Number of pixels.
    pub open spec fn n(self) -> int {
        self.list@.len() as int
    }

    /// Well-formed: one label per pixel, indices fit in `u32`, and every
    /// adjacency entry stays inside the graph.
    pub open spec fn wf(self) -> bool {
        &&& self.labels@.len() == self.list@.len()
        &&& self.list@.len() <= u32::MAX as int
        &&& targets_in_bounds(self.list@)
    }

    /// A fresh graph for a `width` x `height` grid: empty adjacency lists,
    /// every pixel unlabeled.
    pub fn new(width: &u32, height: &u32) -> (g: Graph)
        requires
            (*width as int) * (*height as int) <= u32::MAX as int,
        ensures
            g.wf(),
            g.n() == (*width as int) * (*height as int),
            forall|i: int| 0 <= i < g.n() ==> g.labels@[i] == 0,
            forall|i: int| 0 <= i < g.n() ==> g.list@[i]@.len() == 0,
            g.label_count == 0,
    {
        assert(0 <= (*width as int) * (*height as int)) by (nonlinear_arith);
        let size: usize = (width * height) as usize;
        let mut list: Vec<Vec<u32>> = Vec::new();
        let mut labels: Vec<u32> = Vec::new();
        let mut i: usize = 0;
        while i < size
            invariant
                i <= size,
                list@.len() == i,
                labels@.len() == i,
                forall|k: int| 0 <= k < i ==> list@[k]@.len() == 0,
                forall|k: int| 0 <= k < i ==> labels@[k] == 0,
            decreases size - i,
        {
            list.push(Vec::new());
            labels.push(0);
            i += 1;
        }
        Graph { list, labels, label_count: 0 }
    }

    /// Inserts a directed edge from `from` to `to`.
    pub fn add_edge(&mut self, from: &u32, to: &u32)
        requires
            old(self).wf(),
            (*from as int) < old(self).n(),
            (*to as int) < old(self).n(),
        ensures
            final(self).wf(),
            final(self).n() == old(self).n(),
            final(self).labels == old(self).labels,
            final(self).label_count == old(self).label_count,
            final(self).list@ == old(self).list@.update(
                *from as int,
                final(self).list@[*from as int],
            ),
            final(self).list@[*from as int]@ == old(self).list@[*from as int]@.push(*to),
            forall|a: int, b: int| #[trigger]
                edge(final(self).list@, a, b) <==> edge(old(self).list@, a, b) || (a == *from as int
                    && b == *to as int),
    {
        let ghost l0 = self.list@;
        let mut row: Vec<u32> = Vec::new();
        self.list.set_and_swap(*from as usize, &mut row);
        row.push(*to);
        self.list.set_and_swap(*from as usize, &mut row);
        proof {
            let f = *from as int;
            let t = *to as int;
            let l1 = self.list@;
            assert(l1 =~= l0.update(f, l1[f]));
            assert(l1[f]@ =~= l0[f]@.push(*to));
            assert forall|a: int, b: int| #[trigger]
                edge(l1, a, b) implies edge(l0, a, b) || (a == f && b == t) by {
                let k = choose|k: int| 0 <= k < l1[a]@.len() && l1[a]@[k] as int == b;
                if a != f {
                    assert(l1[a] == l0[a]);
                    assert(edge(l0, a, b));
                } else if k < l0[f]@.len() {
                    assert(l0[a]@[k] as int == b);
                    assert(edge(l0, a, b));
                } else {
                    assert(b == t);
                }
            }
            assert forall|a: int, b: int|
                edge(l0, a, b) || (a == f && b == t) implies #[trigger] edge(l1, a, b) by {
                if edge(l0, a, b) {
                    let k = choose|k: int| 0 <= k < l0[a]@.len() && l0[a]@[k] as int == b;
                    assert(l1[a]@[k] as int == b);
                } else {
                    assert(l1[f]@[l0[f]@.len() as int] as int == t);
                }
            }
            assert(targets_in_bounds(l1)) by {
                assert forall|i: int, k: int|
                    0 <= i < l1.len() && 0 <= k < l1[i]@.len() implies (#[trigger] l1[i]@[k] as int)
                    < l1.len() as int by {
                    if i == f && k == l0[f]@.len() {
                    } else {
                        assert(l1[i]@[k] == l0[i]@[k]);
                    }
                }
            }
        }
    }

    /// The label of one pixel.
    pub fn get_label(&self, index: &u32) -> (label: u32)
        requires
            (*index as int) < self.labels@.len(),
        ensures
            label == self.labels@[*index as int],
    {
        self.labels[*index as usize]
    }

    /// Overwrites the label of one pixel.
    pub fn set_label(&mut self, index: &u32, label: &u32)
        requires
            (*index as int) < old(self).labels@.len(),
        ensures
            final(self).labels@ == old(self).labels@.update(*index as int, *label),
            final(self).list == old(self).list,
            final(self).label_count == old(self).label_count,
    {
        self.labels.set(*index as usize, *label);
    }

    /// Depth-first labeling of one region: assigns `label` to `now` and then
    /// to every pixel reachable from it that is still unlabeled, walking an
    /// explicit work stack so that a large region cannot exhaust the call
    /// stack. Pixels are labeled as they are pushed, so no pixel enters the
    /// stack twice.
    pub fn dfs(&mut self, now: &u32, label: &u32)
        requires
            old(self).wf(),
            (*now as int) < old(self).n(),
            old(self).labels@[*now as int] == 0,
            *label != 0,
            forall|i: int| 0 <= i < old(self).n() ==> old(self).labels@[i] != *label,
            labeled_closed(old(self).list@, old(self).labels@),
        ensures
            final(self).wf(),
            final(self).list == old(self).list,
            final(self).label_count == old(self).label_count,
            final(self).labels@.len() == old(self).labels@.len(),
            forall|i: int|
                0 <= i < old(self).n() && old(self).labels@[i] != 0 ==> final(self).labels@[i]
                    == old(self).labels@[i],
            forall|i: int|
                0 <= i < old(self).n() && old(self).labels@[i] == 0 && final(self).labels@[i] != 0
                    ==> final(self).labels@[i] == *label && connected(
                    old(self).list@,
                    *now as int,
                    i,
                ),
            final(self).labels@[*now as int] == *label,
            labeled_closed(final(self).list@, final(self).labels@),
    {
        let ghost lv0 = self.list;
        let ghost list0 = self.list@;
        let ghost labels0 = self.labels@;
        let ghost n = self.n();
        let ghost lc0 = self.label_count;
        let ghost now0 = *now as int;
        let ghost lab = *label;
        let mut stack: Vec<u32> = Vec::new();
        proof {
            lemma_connected_refl(list0, now0);
            lemma_num_unlabeled_update(labels0, now0, lab);
        }
        self.set_label(now, label);
        stack.push(*now);
        proof {
            assert(stack@[0] == *now);
            assert(stack@.contains(*now));
            assert((now0 as u32) == *now);
        }
        while stack.len() > 0
            invariant
                self.list == lv0,
                self.wf(),
                self.list@ == list0,
                self.labels@.len() == n,
                self.label_count == lc0,
                n == list0.len(),
                labels0.len() == n,
                0 <= now0 < n,
                lab == *label,
                now0 == *now as int,
                lab != 0,
                labels0[now0] == 0,
                forall|i: int| 0 <= i < n ==> labels0[i] != lab,
                labeled_closed(list0, labels0),
                forall|i: int| 0 <= i < n && labels0[i] != 0 ==> self.labels@[i] == labels0[i],
                forall|i: int|
                    0 <= i < n && labels0[i] == 0 && self.labels@[i] != 0 ==> self.labels@[i] == lab
                        && connected(list0, now0, i),
                self.labels@[now0] == lab,
                forall|t: int|
                    #![trigger stack@[t]]
                    0 <= t < stack@.len() ==> (stack@[t] as int) < n
                        && self.labels@[stack@[t] as int] == lab,
                forall|i: int, j: int|
                    0 <= i < n && 0 <= j < n && self.labels@[i] != 0 && !stack@.contains(i as u32)
                        && #[trigger] edge(list0, i, j) ==> self.labels@[j] != 0,
            decreases num_unlabeled(self.labels@), stack@.len(),
        {
            let ghost num_entry = num_unlabeled(self.labels@);
            let ghost stack_entry = stack@;
            let cur: u32 = match stack.pop() {
                Some(c) => c,
                None => {
                    proof {
                        assert(false);
                    }
                    0
                },
            };
            proof {
                assert(stack_entry[stack_entry.len() - 1] == cur);
                assert((cur as int) < n && self.labels@[cur as int] == lab);
                assert(labels0[cur as int] == 0) by {
                    if labels0[cur as int] != 0 {
                        assert(self.labels@[cur as int] == labels0[cur as int]);
                    }
                }
                assert(connected(list0, now0, cur as int));
                assert forall|x: u32| #[trigger] stack_entry.contains(x) implies stack@.contains(
                    x,
                ) || x == cur by {
                    let t = choose|t: int| 0 <= t < stack_entry.len() && stack_entry[t] == x;
                    if t < stack_entry.len() - 1 {
                        assert(stack@[t] == x);
                    }
                }
            }
            let deg: usize = self.list[cur as usize].len();
            let mut k: usize = 0;
            while k < deg
                invariant
                    self.list == lv0,
                    self.wf(),
                    self.list@ == list0,
                    self.labels@.len() == n,
                    self.label_count == lc0,
                    n == list0.len(),
                    labels0.len() == n,
                    0 <= now0 < n,
                    lab == *label,
                    now0 == *now as int,
                    lab != 0,
                    labels0[now0] == 0,
                    forall|i: int| 0 <= i < n ==> labels0[i] != lab,
                    labeled_closed(list0, labels0),
                    forall|i: int| 0 <= i < n && labels0[i] != 0 ==> self.labels@[i] == labels0[i],
                    forall|i: int|
                        0 <= i < n && labels0[i] == 0 && self.labels@[i] != 0 ==> self.labels@[i]
                            == lab && connected(list0, now0, i),
                    self.labels@[now0] == lab,
                    forall|t: int|
                        #![trigger stack@[t]]
                        0 <= t < stack@.len() ==> (stack@[t] as int) < n
                            && self.labels@[stack@[t] as int] == lab,
                    0 <= (cur as int) < n,
                    self.labels@[cur as int] == lab,
                    k <= deg,
                    deg == list0[cur as int]@.len(),
                    forall|t: int|
                        0 <= t < k ==> self.labels@[list0[cur as int]@[t] as int] != 0,
                    forall|i: int, j: int|
                        0 <= i < n && 0 <= j < n && self.labels@[i] != 0 && !stack@.contains(
                            i as u32,
                        ) && i != cur as int && #[trigger] edge(list0, i, j) ==> self.labels@[j]
                            != 0,
                    num_unlabeled(self.labels@) + stack@.len() + 1 == num_entry
                        + stack_entry.len(),
                    num_unlabeled(self.labels@) <= num_entry,
                decreases deg - k,
            {
                let nb: u32 = self.list[cur as usize][k];
                proof {
                    assert(list0[cur as int]@[k as int] == nb);
                    assert((nb as int) < n);
                }
                if self.get_label(&nb) == 0 {
                    let ghost spre = stack@;
                    proof {
                        lemma_num_unlabeled_update(self.labels@, nb as int, lab);
                        assert(edge(list0, cur as int, nb as int));
                        assert(labels0[cur as int] == 0) by {
                            if labels0[cur as int] != 0 {
                                assert(self.labels@[cur as int] == labels0[cur as int]);
                            }
                        }
                        assert(connected(list0, now0, cur as int));
                        lemma_connected_extend(list0, now0, cur as int, nb as int);
                    }
                    self.set_label(&nb, label);
                    stack.push(nb);
                    proof {
                        assert(stack@[spre.len() as int] == nb);
                        assert(stack@.contains(nb));
                        assert forall|x: u32| spre.contains(x) implies stack@.contains(x) by {
                            let t = choose|t: int| 0 <= t < spre.len() && spre[t] == x;
                            assert(stack@[t] == x);
                        }
                    }
                }
                k += 1;
            }
            proof {
                assert forall|j: int|
                    0 <= j < n && #[trigger] edge(list0, cur as int, j) implies self.labels@[j]
                    != 0 by {
                    let t = choose|t: int|
                        0 <= t < list0[cur as int]@.len() && list0[cur as int]@[t] as int == j;
                    assert(self.labels@[list0[cur as int]@[t] as int] != 0);
                }
            }
        }
        proof {
            assert(stack@.len() == 0);
            assert forall|i: int, j: int|
                0 <= i < list0.len() && 0 <= j < self.labels@.len() && #[trigger] edge(list0, i, j)
                    && self.labels@[i] != 0 implies self.labels@[j] != 0 by {
                assert(!stack@.contains(i as u32));
            }
        }
    }

    /// Scans pixel indices in increasing order and starts a depth-first
    /// traversal at every pixel that is still unlabeled, each traversal with
    /// a fresh region identifier, beginning at 1. Afterwards every pixel
    /// carries a label, labels partition the pixels into connected
    /// components whenever the edge relation is symmetric, and
    /// `label_count` is one past the largest label (one more than the number
    /// of regions).
    pub fn label_all(&mut self)
        requires
            old(self).wf(),
            forall|i: int| 0 <= i < old(self).n() ==> old(self).labels@[i] == 0,
            old(self).n() + 1 <= u32::MAX as int,
        ensures
            final(self).wf(),
            final(self).list == old(self).list,
            final(self).labels@.len() == old(self).labels@.len(),
            forall|i: int|
                0 <= i < old(self).n() ==> 1 <= #[trigger] final(self).labels@[i]
                    && (final(self).labels@[i] as int) < final(self).label_count as int,
            final(self).label_count >= 1,
            old(self).n() == 0 ==> final(self).label_count == 1,
            old(self).n() > 0 ==> label_used(
                final(self).labels@,
                final(self).label_count as int - 1,
                old(self).n(),
            ),
            forall|i: int|
                0 <= i < old(self).n() && #[trigger] final(self).labels@[i] != 1 ==> exists|j: int|
                    0 <= j < i && final(self).labels@[j] as int == final(self).labels@[i] as int
                        - 1,
            symmetric(old(self).list@) ==> forall|i: int, j: int|
                #![trigger final(self).labels@[i], final(self).labels@[j]]
                0 <= i < old(self).n() && 0 <= j < old(self).n() ==> ((final(self).labels@[i]
                    == final(self).labels@[j]) <==> connected(old(self).list@, i, j)),
            symmetric(old(self).list@) ==> labeling_of(
                old(self).list@,
                final(self).labels@,
                final(self).label_count,
            ),
    {
        let ghost lv0 = self.list;
        let ghost list0 = self.list@;
        let ghost n = self.n();
        let mut label: u32 = 1;
        let mut i: usize = 0;
        while i < self.list.len()
            invariant
                self.list == lv0,
                self.wf(),
                self.list@ == list0,
                self.labels@.len() == n,
                n == list0.len(),
                n + 1 <= u32::MAX as int,
                i <= n,
                1 <= label,
                (label as int) <= i + 1,
                forall|j: int| 0 <= j < i ==> self.labels@[j] != 0,
                forall|j: int|
                    #![trigger self.labels@[j]]
                    0 <= j < n ==> (self.labels@[j] as int) < label as int,
                forall|v: int| 1 <= v < label as int ==> #[trigger] label_used(
                    self.labels@,
                    v,
                    i as int,
                ),
                labeled_closed(list0, self.labels@),
                forall|j: int|
                    0 <= j < n && #[trigger] self.labels@[j] != 0 && self.labels@[j] != 1
                        ==> exists|m: int|
                        0 <= m < j && self.labels@[m] as int == self.labels@[j] as int - 1,
                symmetric(list0) ==> forall|j: int, k: int|
                    #![trigger self.labels@[j], self.labels@[k]]
                    0 <= j < n && 0 <= k < n && self.labels@[j] != 0 && self.labels@[j]
                        == self.labels@[k] ==> connected(list0, j, k),
                symmetric(list0) ==> forall|j: int, k: int|
                    #![trigger connected(list0, j, k)]
                    0 <= j < n && 0 <= k < n && self.labels@[j] != 0 && connected(list0, j, k)
                        ==> self.labels@[k] == self.labels@[j],
            decreases n - i,
        {
            if self.get_label(&(i as u32)) == 0 {
                let ghost pre = self.labels@;
                self.dfs(&(i as u32), &label);
                proof {
                    let post = self.labels@;
                    let lab = label as int;
                    assert(post[i as int] == label);
                    assert forall|v: int| 1 <= v < lab + 1 implies #[trigger] label_used(
                        post,
                        v,
                        i + 1,
                    ) by {
                        if v < lab {
                            assert(label_used(pre, v, i as int));
                            let m = choose|m: int| 0 <= m < i && pre[m] as int == v;
                            assert(pre[m] != 0);
                            assert(post[m] == pre[m]);
                            assert(0 <= m < i + 1 && post[m] as int == v);
                        } else {
                            assert(0 <= i < i + 1 && post[i as int] as int == v);
                        }
                    }
                    assert forall|j: int|
                        0 <= j < n && #[trigger] post[j] != 0 && post[j] != 1 implies exists|m: int|
                        0 <= m < j && post[m] as int == post[j] as int - 1 by {
                        if pre[j] != 0 {
                            let m = choose|m: int| 0 <= m < j && pre[m] as int == pre[j] as int - 1;
                            assert(post[m] == pre[m]);
                        } else {
                            // j was labeled by this traversal, so post[j] == label;
                            // when label != 1, label - 1 was already used at
                            // an index below i <= j.
                            assert(post[j] == label);
                            assert(j >= i) by {
                                if j < i {
                                    assert(pre[j] != 0);
                                }
                            }
                            if label != 1 {
                                assert(label_used(pre, lab - 1, i as int));
                                let m = choose|m: int| 0 <= m < i && pre[m] as int == lab - 1;
                                assert(pre[m] != 0);
                                assert(post[m] as int == lab - 1);
                                assert(m < j);
                            }
                        }
                    }
                    if symmetric(list0) {
                        assert forall|j: int, k: int|
                            #![trigger post[j], post[k]]
                            0 <= j < n && 0 <= k < n && post[j] != 0 && post[j] == post[k] implies
                            connected(list0, j, k) by {
                            if pre[j] != 0 {
                                assert(post[j] == pre[j] && (pre[j] as int) < lab);
                                assert(pre[k] == post[k]) by {
                                    if pre[k] == 0 && post[k] != 0 {
                                        assert(post[k] == label);
                                    }
                                }
                                assert(connected(list0, j, k));
                            } else {
                                assert(post[j] == label);
                                assert(pre[k] == 0) by {
                                    if pre[k] != 0 {
                                        assert(post[k] == pre[k] && (pre[k] as int) < lab);
                                    }
                                }
                                assert(connected(list0, i as int, j));
                                assert(connected(list0, i as int, k));
                                lemma_connected_sym(list0, i as int, j);
                                lemma_connected_trans(list0, j, i as int, k);
                            }
                        }
                        assert forall|j: int, k: int|
                            #![trigger connected(list0, j, k)]
                            0 <= j < n && 0 <= k < n && post[j] != 0 && connected(list0, j, k)
                                implies post[k] == post[j] by {
                            if pre[j] != 0 {
                                assert(pre[k] == pre[j]);
                                assert(post[k] == pre[k]);
                            } else {
                                assert(post[j] == label);
                                assert(connected(list0, i as int, j));
                                lemma_connected_trans(list0, i as int, j, k);
                                lemma_closed_connected(list0, post, i as int, k);
                                assert(post[k] != 0);
                                if pre[k] != 0 {
                                    lemma_connected_sym(list0, i as int, k);
                                    assert(pre[i as int] == pre[k]);
                                    assert(false);
                                }
                                assert(post[k] == label);
                            }
                        }
                    }
                }
                label = label + 1;
            } else {
                proof {
                    assert forall|v: int| 1 <= v < label as int implies #[trigger] label_used(
                        self.labels@,
                        v,
                        i + 1,
                    ) by {
                        assert(label_used(self.labels@, v, i as int));
                        let m = choose|m: int| 0 <= m < i && self.labels@[m] as int == v;
                        assert(0 <= m < i + 1 && self.labels@[m] as int == v);
                    }
                }
            }
            i += 1;
        }
        self.label_count = label;
        proof {
            if n > 0 {
                assert(self.labels@[0] != 0);
                assert(label as int >= 2);
                assert(label_used(self.labels@, label as int - 1, n));
            }
        }
    }

    /// Compares two pixels and inserts the directed edge when they are
    /// similar.
    fn link_if_similar(&mut self, pixels: &Vec<Rgb>, from: u32, to: u32)
        requires
            old(self).wf(),
            pixels@.len() == old(self).n(),
            (from as int) < old(self).n(),
            (to as int) < old(self).n(),
        ensures
            final(self).wf(),
            final(self).n() == old(self).n(),
            final(self).labels == old(self).labels,
            final(self).label_count == old(self).label_count,
            forall|a: int, b: int| #[trigger]
                edge(final(self).list@, a, b) <==> edge(old(self).list@, a, b) || (a == from as int
                    && b == to as int && same_region(pixels@[a], pixels@[b])),
    {
        if compare(&pixels[from as usize], &pixels[to as usize]) {
            self.add_edge(&from, &to);
        }
    }

    /// Builds the adjacency graph of a `width` x `height` grid of pixels in
    /// row-major order: every pixel is compared with each of its up, left,
    /// down and right neighbours, and a directed edge is inserted exactly for
    /// the similar pairs. Afterwards the edge relation coincides with
    /// "grid-adjacent and similar", all pixels are unlabeled, and the region
    /// counter is zero.
    pub fn build(pixels: &Vec<Rgb>, width: &u32, height: &u32) -> (g: Graph)
        requires
            (*width as int) * (*height as int) <= u32::MAX as int,
            pixels@.len() == (*width as int) * (*height as int),
        ensures
            g.wf(),
            g.n() == pixels@.len(),
            forall|i: int| 0 <= i < g.n() ==> g.labels@[i] == 0,
            g.label_count == 0,
            forall|a: int, b: int| #[trigger]
                edge(g.list@, a, b) ==> grid_adjacent(*width as int, *height as int, a, b)
                    && same_region(pixels@[a], pixels@[b]),
            forall|a: int, b: int|
                grid_adjacent(*width as int, *height as int, a, b) && same_region(
                    pixels@[a],
                    pixels@[b],
                ) ==> #[trigger] edge(g.list@, a, b),
    {
        let w = *width;
        let h = *height;
        let ghost wi = w as int;
        let ghost hi = h as int;
        let mut g = Graph::new(width, height);
        let mut row: u32 = 0;
        while row < h
            invariant
                g.wf(),
                g.n() == wi * hi,
                wi == w as int,
                hi == h as int,
                wi * hi <= u32::MAX as int,
                pixels@.len() == g.n(),
                g.label_count == 0,
                forall|i: int| 0 <= i < g.n() ==> g.labels@[i] == 0,
                row <= h,
                forall|a: int, b: int| #[trigger]
                    edge(g.list@, a, b) ==> grid_adjacent(wi, hi, a, b) && same_region(
                        pixels@[a],
                        pixels@[b],
                    ),
                forall|a: int, b: int|
                    0 <= a < wi * (row as int) && grid_adjacent(wi, hi, a, b) && same_region(
                        pixels@[a],
                        pixels@[b],
                    ) ==> #[trigger] edge(g.list@, a, b),
            decreases hi - row,
        {
            let mut col: u32 = 0;
            while col < w
                invariant
                    g.wf(),
                    g.n() == wi * hi,
                    wi == w as int,
                    hi == h as int,
                    wi * hi <= u32::MAX as int,
                    pixels@.len() == g.n(),
                    g.label_count == 0,
                    forall|i: int| 0 <= i < g.n() ==> g.labels@[i] == 0,
                    row < h,
                    col <= w,
                    forall|a: int, b: int| #[trigger]
                        edge(g.list@, a, b) ==> grid_adjacent(wi, hi, a, b) && same_region(
                            pixels@[a],
                            pixels@[b],
                        ),
                    forall|a: int, b: int|
                        0 <= a < wi * (row as int) + col as int && grid_adjacent(wi, hi, a, b)
                            && same_region(pixels@[a], pixels@[b]) ==> #[trigger] edge(
                            g.list@,
                            a,
                            b,
                        ),
                decreases wi - col,
            {
                proof {
                    lemma_row_major_bounds(wi, hi, row as int, col as int);
                }
                let idx = linearize(&row, &col, &w);
                let ghost le0 = g.list@;
                if row != 0 {
                    proof {
                        lemma_row_major_bounds(wi, hi, row as int - 1, col as int);
                        lemma_grid_neighbors(
                            wi,
                            hi,
                            row as int,
                            col as int,
                            (row as int - 1) * wi + col as int,
                        );
                    }
                    let nb = linearize(&(row - 1), &col, &w);
                    g.link_if_similar(pixels, idx, nb);
                }
                proof {
                    assert(forall|a: int, b: int| #[trigger]
                        edge(g.list@, a, b) <==> edge(le0, a, b) || (row != 0 && a == idx as int
                            && b == (row as int - 1) * wi + col as int && same_region(
                            pixels@[a],
                            pixels@[b],
                        )));
                }
                let ghost le1 = g.list@;
                if col != 0 {
                    proof {
                        lemma_grid_neighbors(wi, hi, row as int, col as int, idx as int - 1);
                    }
                    let nb = idx - 1;
                    g.link_if_similar(pixels, idx, nb);
                }
                proof {
                    assert(forall|a: int, b: int| #[trigger]
                        edge(g.list@, a, b) <==> edge(le1, a, b) || (col != 0 && a == idx as int
                            && b == idx as int - 1 && same_region(pixels@[a], pixels@[b])));
                }
                let ghost le2 = g.list@;
                if row != h - 1 {
                    proof {
                        lemma_row_major_bounds(wi, hi, row as int + 1, col as int);
                        lemma_grid_neighbors(
                            wi,
                            hi,
                            row as int,
                            col as int,
                            (row as int + 1) * wi + col as int,
                        );
                    }
                    let nb = linearize(&(row + 1), &col, &w);
                    g.link_if_similar(pixels, idx, nb);
                }
                proof {
                    assert(forall|a: int, b: int| #[trigger]
                        edge(g.list@, a, b) <==> edge(le2, a, b) || (row != h - 1 && a == idx as int
                            && b == (row as int + 1) * wi + col as int && same_region(
                            pixels@[a],
                            pixels@[b],
                        )));
                }
                let ghost le3 = g.list@;
                if col != w - 1 {
                    proof {
                        lemma_row_major_bounds(wi, hi, row as int, col as int + 1);
                        lemma_grid_neighbors(wi, hi, row as int, col as int, idx as int + 1);
                    }
                    let nb = idx + 1;
                    g.link_if_similar(pixels, idx, nb);
                }
                proof {
                    assert(forall|a: int, b: int| #[trigger]
                        edge(g.list@, a, b) <==> edge(le3, a, b) || (col != w - 1 && a == idx as int
                            && b == idx as int + 1 && same_region(pixels@[a], pixels@[b])));
                    assert forall|a: int, b: int|
                        0 <= a < wi * (row as int) + col as int + 1 && grid_adjacent(wi, hi, a, b)
                            && same_region(pixels@[a], pixels@[b]) implies #[trigger] edge(
                        g.list@,
                        a,
                        b,
                    ) by {
                        if a < wi * (row as int) + col as int {
                            assert(edge(le0, a, b));
                            assert(edge(le1, a, b));
                            assert(edge(le2, a, b));
                            assert(edge(le3, a, b));
                        } else {
                            assert(a == idx as int);
                            lemma_grid_neighbors(wi, hi, row as int, col as int, b);
                            if col as int > 0 && b == idx as int - 1 {
                                assert(edge(le2, a, b));
                                assert(edge(le3, a, b));
                            } else if (col as int) < wi - 1 && b == idx as int + 1 {
                                assert(edge(g.list@, a, b));
                            } else if row as int > 0 && b == (row as int - 1) * wi + col as int {
                                assert(edge(le1, a, b));
                                assert(edge(le2, a, b));
                                assert(edge(le3, a, b));
                            } else {
                                assert((row as int) < hi - 1 && b == (row as int + 1) * wi
                                    + col as int);
                                assert(edge(le3, a, b));
                            }
                        }
                    }
                }
                col += 1;
            }
            proof {
                assert(wi * (row as int) + wi == wi * (row as int + 1)) by (nonlinear_arith);
            }
            row += 1;
        }
        g
    }
}


/// The first `k` entries of two finished labelings of the same adjacency
/// lists agree, and the labels used among them are exactly `1..` up to the
/// largest one: every value below a used label is used at some index below
/// `k` as well.
#[verifier::rlimit(60)]
proof fn lemma_labeling_prefix(
    list: Seq<Vec<u32>>,
    l1: Seq<u32>,
    c1: u32,
    l2: Seq<u32>,
    c2: u32,
    k: int,
)
    requires
        labeling_of(list, l1, c1),
        labeling_of(list, l2, c2),
        0 <= k <= list.len(),
    ensures
        forall|t: int| 0 <= t < k ==> l1[t] == l2[t],
        forall|t: int, v: int|
            #![trigger l1[t], label_used(l1, v, k)]
            0 <= t < k && 1 <= v <= l1[t] ==> label_used(l1, v, k),
    decreases k,
{
    if k > 0 {
        let m = k - 1;
        lemma_labeling_prefix(list, l1, c1, l2, c2, m);
        assert forall|t: int, v: int|
            #![trigger l1[t], label_used(l1, v, k)]
            0 <= t < k && 1 <= v <= l1[t] implies label_used(l1, v, k) by {
            if t < m {
                assert(label_used(l1, v, m));
                let j = choose|j: int| 0 <= j < m && l1[j] as int == v;
                assert(0 <= j < k && l1[j] as int == v);
            } else {
                if v == l1[m] as int {
                    assert(0 <= m < k && l1[m] as int == v);
                } else {
                    assert(l1[m] != 1);
                    let j = choose|j: int| 0 <= j < m && l1[j] as int == l1[m] as int - 1;
                    assert(1 <= v <= l1[j]);
                    assert(label_used(l1, v, m));
                    let j2 = choose|j2: int| 0 <= j2 < m && l1[j2] as int == v;
                    assert(0 <= j2 < k && l1[j2] as int == v);
                }
            }
        }
        let u = l1[m];
        let wv = l2[m];
        if exists|j: int| 0 <= j < m && l1[j] == u {
            let j = choose|j: int| 0 <= j < m && l1[j] == u;
            assert(connected(list, m, j));
            assert(l2[m] == l2[j]);
            assert(l2[j] == l1[j]);
            assert(wv == u);
        } else {
            assert forall|j: int| 0 <= j < m implies #[trigger] l2[j] != wv by {
                if l2[j] == wv {
                    assert(connected(list, m, j));
                    assert(l1[m] == l1[j]);
                }
            }
            if m == 0 {
                assert(u == 1 && wv == 1);
            } else {
                assert(u as int >= 2) by {
                    if u == 1 {
                        assert(1 <= 1 <= l1[0]);
                        assert(label_used(l1, 1, m));
                        let j = choose|j: int| 0 <= j < m && l1[j] as int == 1;
                        assert(l1[j] == u);
                    }
                }
                assert(wv as int >= 2) by {
                    if wv == 1 {
                        assert(1 <= 1 <= l1[0]);
                        assert(label_used(l1, 1, m));
                        let j = choose|j: int| 0 <= j < m && l1[j] as int == 1;
                        assert(l2[j] == l1[j]);
                    }
                }
                let j1 = choose|j: int| 0 <= j < m && l1[j] as int == u as int - 1;
                let j2 = choose|j: int| 0 <= j < m && l2[j] as int == wv as int - 1;
                assert(l1[j2] as int == wv as int - 1);
                assert(wv as int <= u as int) by {
                    if wv as int > u as int {
                        assert(1 <= u as int <= l1[j2]);
                        assert(label_used(l1, u as int, m));
                        let t = choose|t: int| 0 <= t < m && l1[t] as int == u as int;
                        assert(l1[t] == u);
                    }
                }
                assert(u as int <= wv as int) by {
                    if u as int > wv as int {
                        assert(1 <= wv as int <= l1[j1]);
                        assert(label_used(l1, wv as int, m));
                        let t = choose|t: int| 0 <= t < m && l1[t] as int == wv as int;
                        assert(l2[t] == l1[t]);
                    }
                }
                assert(u == wv);
            }
        }
        assert forall|t: int| 0 <= t < k implies l1[t] == l2[t] by {
            if t == m {
                assert(l1[m] == l2[m]);
            }
        }
    }
}

/// Labeling is deterministic: the labeler scans pixels in a fixed order and
/// traverses fixed adjacency lists, and its contract pins the outcome down
/// completely, so any two label arrays and region counters that satisfy it
/// over the same adjacency lists are equal. Re-running `label_all` on an
/// identical graph therefore yields identical labels and an identical count.
pub proof fn lemma_label_all_deterministic(
    list: Seq<Vec<u32>>,
    l1: Seq<u32>,
    c1: u32,
    l2: Seq<u32>,
    c2: u32,
)
    requires
        labeling_of(list, l1, c1),
        labeling_of(list, l2, c2),
    ensures
        l1 == l2,
        c1 == c2,
{
    lemma_labeling_prefix(list, l1, c1, l2, c2, list.len() as int);
    assert(l1 =~= l2);
    if list.len() == 0 {
    } else {
        assert(label_used(l1, c1 as int - 1, l1.len() as int));
        assert(label_used(l2, c2 as int - 1, l2.len() as int));
        let j1 = choose|j: int| 0 <= j < l1.len() && l1[j] as int == c1 as int - 1;
        let j2 = choose|j: int| 0 <= j < l2.len() && l2[j] as int == c2 as int - 1;
        assert(l2[j1] as int == c1 as int - 1 && (l2[j1] as int) < c2 as int);
        assert(l1[j2] as int == c2 as int - 1 && (l1[j2] as int) < c1 as int);
    }
}

/// A built graph is undirected whenever the similarity predicate agrees in
/// both orders on every grid-adjacent pair of the pixel grid it was built
/// from. `grid_adjacent` itself is symmetric, so each inserted edge then has
/// its reverse.
pub proof fn lemma_build_symmetric(
    list: Seq<Vec<u32>>,
    pixels: Seq<Rgb>,
    width: int,
    height: int,
)
    requires
        forall|a: int, b: int| #[trigger]
            edge(list, a, b) ==> grid_adjacent(width, height, a, b) && same_region(
                pixels[a],
                pixels[b],
            ),
        forall|a: int, b: int|
            grid_adjacent(width, height, a, b) && same_region(pixels[a], pixels[b])
                ==> #[trigger] edge(list, a, b),
        forall|a: int, b: int|
            #![trigger same_region(pixels[a], pixels[b])]
            grid_adjacent(width, height, a, b) ==> (same_region(pixels[a], pixels[b])
                == same_region(pixels[b], pixels[a])),
    ensures
        symmetric(list),
{
    assert forall|i: int, j: int| #[trigger] edge(list, i, j) implies edge(list, j, i) by {
        assert(grid_adjacent(width, height, i, j));
        assert(grid_adjacent(width, height, j, i));
        assert(same_region(pixels[j], pixels[i]));
    }
}

} // verus!
