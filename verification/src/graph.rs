//! The immutable labeled directed graph: dense node ids, per-node sorted
//! adjacency lists, and a label index mapping each label to the ascending,
//! duplicate-free list of node ids carrying it.

use vstd::prelude::*;
use vstd::std_specs::cmp::PartialEqSpec;
use core::hash::Hash;

use crate::sorted::sorted;
use crate::sorted::strictly_sorted;

verus! {

/// What label equality means in contracts: the `PartialEq` implementation's
/// own specification. [`label_eq_ok`] asks that it behave as an equality.
pub open spec fn same_label<T: PartialEq>(a: &T, b: &T) -> bool {
    a.eq_spec(b)
}

/// The capability the label type must offer to serve as an index key: its
/// `==` obeys its own specification, and that specification is an equivalence
/// relation.
pub open spec fn label_eq_ok<T: PartialEq>() -> bool {
    &&& T::obeys_eq_spec()
    &&& forall|x: &T| #[trigger] same_label(x, x)
    &&& forall|x: &T, y: &T| #[trigger] same_label(x, y) ==> same_label(y, x)
    &&& forall|x: &T, y: &T, z: &T|
        #[trigger] same_label(x, y) && #[trigger] same_label(y, z) ==> same_label(x, z)
}

/// An immutable directed graph over node ids `0..node_count`, with a label on
/// every node. Self-loops and parallel edges are allowed; adjacency lists are
/// ascending and label-index lists are ascending and duplicate-free.
pub struct Graph<T> {
    node_count: usize,
    relationship_count: usize,
    node_labels: Vec<T>,
    /// One representative node id per indexed label value.
    label_reps: Vec<usize>,
    /// Parallel to `label_reps`: the node ids carrying that label, ascending.
    label_nodes: Vec<Vec<usize>>,
    /// Constantly empty; lent out for labels no node carries.
    empty_nodes: Vec<usize>,
    adjacency: Vec<Vec<usize>>,
}

impl<T> Graph<T> {
    /// The number of nodes.
    pub closed spec fn node_cnt(&self) -> nat {
        self.node_count as nat
    }

    /// The number of relationships (directed edges), counted with
    /// multiplicity.
    pub closed spec fn rel_cnt(&self) -> nat {
        self.relationship_count as nat
    }

    /// The label of each node, by node id.
    pub closed spec fn labels(&self) -> Seq<T> {
        self.node_labels@
    }

    /// The outgoing neighbors of each node, by node id, ascending.
    pub closed spec fn adj(&self) -> Seq<Seq<usize>> {
        Seq::new(self.adjacency@.len(), |i: int| self.adjacency@[i]@)
    }

    /// There is a directed edge from `a` to `b`.
    pub open spec fn edge(&self, a: usize, b: usize) -> bool {
        a < self.node_cnt() && self.adj()[a as int].contains(b)
    }
}

impl<T: PartialEq> Graph<T> {
    /// Some label-index entry covers node `x`.
    spec fn label_indexed(&self, x: int) -> bool {
        exists|j: int|
            0 <= j < self.label_reps@.len() && same_label(
                #[trigger] &self.node_labels@[self.label_reps@[j] as int],
                &self.node_labels@[x],
            )
    }

    /// The structural invariant: counts agree, adjacency lists are ascending
    /// with in-range targets, and the label index lists, ascending and
    /// duplicate-free, tile the node ids by label.
    pub closed spec fn wf(&self) -> bool {
        &&& self.node_labels@.len() == self.node_count
        &&& self.adjacency@.len() == self.node_count
        &&& forall|i: int| 0 <= i < self.adjacency@.len() ==> sorted(#[trigger] self.adjacency@[i]@)
        &&& forall|i: int, k: int|
            0 <= i < self.adjacency@.len() && 0 <= k < self.adjacency@[i]@.len()
                ==> #[trigger] self.adjacency@[i]@[k] < self.node_count
        &&& self.label_reps@.len() == self.label_nodes@.len()
        &&& forall|j: int| 0 <= j < self.label_reps@.len() ==> #[trigger] self.label_reps@[j] < self.node_count
        &&& forall|j: int|
            0 <= j < self.label_nodes@.len() ==> strictly_sorted(#[trigger] self.label_nodes@[j]@)
        &&& forall|j: int, x: usize|
            0 <= j < self.label_nodes@.len() ==> (#[trigger] self.label_nodes@[j]@.contains(x)
                <==> x < self.node_count && same_label(
                &self.node_labels@[x as int],
                &self.node_labels@[self.label_reps@[j] as int],
            ))
        &&& forall|x: int| 0 <= x < self.node_count ==> #[trigger] self.label_indexed(x)
        &&& self.empty_nodes@.len() == 0
    }

    /// The adjacency shape that the invariant guarantees, stated for callers:
    /// one ascending neighbor list per node, every target a valid node id.
    pub proof fn lemma_wf_shape(&self)
        requires
            self.wf(),
        ensures
            self.labels().len() == self.node_cnt(),
            self.adj().len() == self.node_cnt(),
            forall|i: int| 0 <= i < self.adj().len() ==> sorted(#[trigger] self.adj()[i]),
            forall|i: int, k: int|
                0 <= i < self.adj().len() && 0 <= k < self.adj()[i].len()
                    ==> #[trigger] self.adj()[i][k] < self.node_cnt(),
    {
    }
}

impl<T: Eq + Hash> Graph<T> {
    /// The number of nodes.
    pub fn node_count(&self) -> (r: usize)
        ensures
            r == self.node_cnt(),
    {
        self.node_count
    }

    /// The number of relationships, counted with multiplicity.
    pub fn relationship_count(&self) -> (r: usize)
        ensures
            r == self.rel_cnt(),
    {
        self.relationship_count
    }

    /// The label of the given node.
    pub fn node_label(&self, node_id: usize) -> (r: &T)
        requires
            self.wf(),
            node_id < self.node_cnt(),
        ensures
            *r == self.labels()[node_id as int],
    {
        &self.node_labels[node_id]
    }

    /// The ascending, duplicate-free list of node ids carrying the given
    /// label; empty when no node carries it.
    pub fn nodes_by_label(&self, label: &T) -> (r: &Vec<usize>)
        requires
            self.wf(),
            label_eq_ok::<T>(),
        ensures
            strictly_sorted(r@),
            forall|x: usize| #[trigger]
                r@.contains(x) <==> (x < self.node_cnt() && same_label(
                    &self.labels()[x as int],
                    label,
                )),
    {
        let mut j: usize = 0;
        while j < self.label_reps.len()
            invariant
                self.wf(),
                label_eq_ok::<T>(),
                j <= self.label_reps@.len(),
                forall|jj: int|
                    0 <= jj < j ==> !same_label(
                        #[trigger] &self.node_labels@[self.label_reps@[jj] as int],
                        label,
                    ),
            decreases self.label_reps@.len() - j,
        {
            if self.node_labels[self.label_reps[j]] == *label {
                proof {
                    let rep = self.node_labels@[self.label_reps@[j as int] as int];
                    assert(same_label(&rep, label));
                    assert forall|x: usize| #[trigger]
                        self.label_nodes@[j as int]@.contains(x) <==> (x < self.node_cnt()
                            && same_label(&self.labels()[x as int], label)) by {
                        if x < self.node_cnt() {
                            assert(self.label_nodes@[j as int]@.contains(x) <==> same_label(
                                &self.node_labels@[x as int],
                                &rep,
                            ));
                            if same_label(&self.node_labels@[x as int], &rep) {
                                assert(same_label(&self.node_labels@[x as int], label));
                            }
                            if same_label(&self.node_labels@[x as int], label) {
                                assert(same_label(label, &rep));
                                assert(same_label(&self.node_labels@[x as int], &rep));
                            }
                        } else {
                            assert(!self.label_nodes@[j as int]@.contains(x));
                        }
                    }
                }
                return &self.label_nodes[j];
            }
            j += 1;
        }
        proof {
            assert forall|x: usize| x < self.node_cnt() implies !same_label(
                &self.labels()[x as int],
                label,
            ) by {
                if same_label(&self.labels()[x as int], label) {
                    assert(self.label_indexed(x as int));
                    let jj = choose|jj: int|
                        0 <= jj < self.label_reps@.len() && same_label(
                            #[trigger] &self.node_labels@[self.label_reps@[jj] as int],
                            &self.node_labels@[x as int],
                        );
                    assert(!same_label(&self.node_labels@[self.label_reps@[jj] as int], label));
                }
            }
        }
        &self.empty_nodes
    }

    /// The out-degree of the given node.
    pub fn degree(&self, node_id: usize) -> (r: usize)
        requires
            self.wf(),
            node_id < self.node_cnt(),
        ensures
            r == self.adj()[node_id as int].len(),
    {
        self.adjacency[node_id].len()
    }

    /// The outgoing neighbors of the given node, ascending; parallel edges
    /// appear once per edge.
    pub fn neighbors(&self, node_id: usize) -> (r: &[usize])
        requires
            self.wf(),
            node_id < self.node_cnt(),
        ensures
            r@ == self.adj()[node_id as int],
            sorted(r@),
            forall|k: int| 0 <= k < r@.len() ==> r@[k] < self.node_cnt(),
    {
        self.adjacency[node_id].as_slice()
    }
}

/// Some entry of `reps` indexes the label of node `y`.
spec fn covered<T: PartialEq>(labels: Seq<T>, reps: Seq<usize>, y: int) -> bool {
    exists|j: int|
        0 <= j < reps.len() && same_label(#[trigger] &labels[reps[j] as int], &labels[y])
}

/// Sorts a list of node ids in place, ascending, keeping multiplicities.
fn sort_ids(v: &mut Vec<usize>)
    ensures
        sorted(final(v)@),
        final(v)@.to_multiset() == old(v)@.to_multiset(),
        final(v)@.len() == old(v)@.len(),
{
    let mut i: usize = 1;
    while i < v.len()
        invariant
            i >= 1,
            v@.len() == old(v)@.len(),
            v@.to_multiset() == old(v)@.to_multiset(),
            forall|p: int, q: int| 0 <= p < q < i && q < v@.len() ==> v@[p] <= v@[q],
        decreases v@.len() - i,
    {
        let mut k: usize = i;
        while k > 0 && v[k - 1] > v[k]
            invariant
                k <= i,
                i < v@.len(),
                v@.len() == old(v)@.len(),
                v@.to_multiset() == old(v)@.to_multiset(),
                forall|p: int, q: int| 0 <= p < q <= i && q != k ==> v@[p] <= v@[q],
            decreases k,
        {
            let ghost s = v@;
            let a = v[k - 1];
            let b = v[k];
            v[k - 1] = b;
            v[k] = a;
            proof {
                broadcast use vstd::seq_lib::group_to_multiset_ensures;
                broadcast use vstd::multiset::group_multiset_axioms;

                assert(v@ == s.update(k - 1, b).update(k as int, a));
                assert(s.update(k - 1, b)[k as int] == b);
                assert(v@.to_multiset() =~= s.to_multiset());
            }
            k -= 1;
        }
        i += 1;
    }
}

/// A mutable staging area: nodes are added with contiguous ids, edges between
/// added nodes; `build` compiles the staged data into an immutable [`Graph`].
pub struct GraphBuilder<T> {
    relationship_count: usize,
    node_labels: Vec<T>,
    adjacency: Vec<Vec<usize>>,
}

impl<T> GraphBuilder<T> {
    /// The label of each staged node, by node id.
    pub closed spec fn labels(&self) -> Seq<T> {
        self.node_labels@
    }

    /// The staged outgoing targets of each node, in insertion order.
    pub closed spec fn staged(&self) -> Seq<Seq<usize>> {
        Seq::new(self.adjacency@.len(), |i: int| self.adjacency@[i]@)
    }

    /// The number of staged relationships.
    pub closed spec fn rel_cnt(&self) -> nat {
        self.relationship_count as nat
    }

    /// The staging invariant: one target list per node, every staged endpoint
    /// an already-added node.
    pub closed spec fn wf(&self) -> bool {
        &&& self.adjacency@.len() == self.node_labels@.len()
        &&& forall|i: int, k: int|
            0 <= i < self.adjacency@.len() && 0 <= k < self.adjacency@[i]@.len()
                ==> #[trigger] self.adjacency@[i]@[k] < self.node_labels@.len()
    }
}

impl<T: Eq + Hash> GraphBuilder<T> {
    /// An empty staging area.
    pub fn new() -> (r: Self)
        ensures
            r.wf(),
            r.labels().len() == 0,
            r.rel_cnt() == 0,
    {
        GraphBuilder { relationship_count: 0, node_labels: Vec::new(), adjacency: Vec::new() }
    }

    /// Stages a node. A fresh id must be the next contiguous one and is added
    /// with the given label; re-adding an existing id changes nothing and
    /// keeps the original label.
    pub fn add_node(&mut self, node_id: usize, node_label: T)
        requires
            old(self).wf(),
            node_id <= old(self).labels().len(),
        ensures
            final(self).wf(),
            final(self).rel_cnt() == old(self).rel_cnt(),
            node_id == old(self).labels().len() ==> final(self).labels() == old(
                self,
            ).labels().push(node_label) && final(self).staged() == old(self).staged().push(
                Seq::empty(),
            ),
            node_id < old(self).labels().len() ==> *final(self) == *old(self),
    {
        if node_id == self.node_labels.len() {
            self.node_labels.push(node_label);
            self.adjacency.push(Vec::new());
            proof {
                assert(self.staged() =~= old(self).staged().push(Seq::empty()));
            }
        }
    }

    /// Stages a directed relationship between two already-added nodes;
    /// parallel edges and self-loops are kept.
    pub fn add_relationship(&mut self, start_node: usize, end_node: usize)
        requires
            old(self).wf(),
            start_node < old(self).labels().len(),
            end_node < old(self).labels().len(),
            old(self).rel_cnt() < usize::MAX,
        ensures
            final(self).wf(),
            final(self).labels() == old(self).labels(),
            final(self).rel_cnt() == old(self).rel_cnt() + 1,
            final(self).staged() == old(self).staged().update(
                start_node as int,
                old(self).staged()[start_node as int].push(end_node),
            ),
    {
        self.adjacency[start_node].push(end_node);
        self.relationship_count = self.relationship_count + 1;
        proof {
            assert(final(self).staged() =~= old(self).staged().update(
                start_node as int,
                old(self).staged()[start_node as int].push(end_node),
            ));
        }
    }

    /// Returns the index of a label-index entry whose label equals that of
    /// node `x`, if one exists.
    fn find_rep(labels: &Vec<T>, reps: &Vec<usize>, x: usize) -> (r: Option<usize>)
        requires
            T::obeys_eq_spec(),
            x < labels@.len(),
            forall|j: int| 0 <= j < reps@.len() ==> #[trigger] reps@[j] < labels@.len(),
        ensures
            match r {
                Some(j) => 0 <= j < reps@.len() && same_label(
                    &labels@[reps@[j as int] as int],
                    &labels@[x as int],
                ),
                None => forall|j: int|
                    0 <= j < reps@.len() ==> !same_label(
                        #[trigger] &labels@[reps@[j] as int],
                        &labels@[x as int],
                    ),
            },
    {
        let mut j: usize = 0;
        while j < reps.len()
            invariant
                T::obeys_eq_spec(),
                x < labels@.len(),
                j <= reps@.len(),
                forall|jj: int| 0 <= jj < reps@.len() ==> #[trigger] reps@[jj] < labels@.len(),
                forall|jj: int|
                    0 <= jj < j ==> !same_label(
                        #[trigger] &labels@[reps@[jj] as int],
                        &labels@[x as int],
                    ),
            decreases reps@.len() - j,
        {
            if labels[reps[j]] == labels[x] {
                return Some(j);
            }
            j += 1;
        }
        None
    }

    /// Compiles the staged nodes and relationships into an immutable graph:
    /// every adjacency list is sorted (multiplicities kept) and the label
    /// index is built, each entry ascending and duplicate-free. The builder is
    /// left empty, ready to stage another graph.
    pub fn build(&mut self) -> (g: Graph<T>)
        requires
            old(self).wf(),
            label_eq_ok::<T>(),
        ensures
            g.wf(),
            g.node_cnt() == old(self).labels().len(),
            g.labels() == old(self).labels(),
            g.rel_cnt() == old(self).rel_cnt(),
            g.adj().len() == old(self).staged().len(),
            forall|i: int|
                0 <= i < g.adj().len() ==> sorted(#[trigger] g.adj()[i])
                    && g.adj()[i].to_multiset() == old(self).staged()[i].to_multiset(),
            final(self).wf(),
            final(self).labels().len() == 0,
            final(self).rel_cnt() == 0,
    {
        let mut node_labels: Vec<T> = Vec::new();
        let mut adjacency: Vec<Vec<usize>> = Vec::new();
        core::mem::swap(&mut node_labels, &mut self.node_labels);
        core::mem::swap(&mut adjacency, &mut self.adjacency);
        let relationship_count = self.relationship_count;
        self.relationship_count = 0;

        let n = node_labels.len();

        // Sort each staged adjacency list.
        let ghost staged0 = Seq::new(adjacency@.len(), |i: int| adjacency@[i]@);
        let mut i: usize = 0;
        while i < adjacency.len()
            invariant
                adjacency@.len() == staged0.len(),
                forall|t: int|
                    0 <= t < i && t < adjacency@.len() ==> sorted(#[trigger] adjacency@[t]@)
                        && adjacency@[t]@.to_multiset() == staged0[t].to_multiset(),
                forall|t: int|
                    i <= t < adjacency@.len() ==> #[trigger] adjacency@[t]@ == staged0[t],
            decreases adjacency@.len() - i,
        {
            sort_ids(&mut adjacency[i]);
            i += 1;
        }
        proof {
            broadcast use vstd::seq_lib::group_to_multiset_ensures;

            assert forall|t: int, k: int|
                0 <= t < adjacency@.len() && 0 <= k < adjacency@[t]@.len() implies #[trigger] adjacency@[t]@[k]
                < n by {
                assert(adjacency@[t]@.contains(adjacency@[t]@[k]));
                assert(adjacency@[t]@.to_multiset().contains(adjacency@[t]@[k]));
                assert(staged0[t].contains(adjacency@[t]@[k]));
            }
        }

        // Build the label index, grouping node ids by label in ascending id
        // order.
        let mut label_reps: Vec<usize> = Vec::new();
        let mut label_nodes: Vec<Vec<usize>> = Vec::new();
        let mut x: usize = 0;
        while x < n
            invariant
                label_eq_ok::<T>(),
                node_labels@.len() == n,
                label_reps@.len() == label_nodes@.len(),
                forall|j: int| 0 <= j < label_reps@.len() ==> #[trigger] label_reps@[j] < x,
                x <= n,
                forall|j: int|
                    0 <= j < label_nodes@.len() ==> strictly_sorted(#[trigger] label_nodes@[j]@),
                forall|j: int, y: usize|
                    0 <= j < label_nodes@.len() ==> (#[trigger] label_nodes@[j]@.contains(y)
                        <==> y < x && same_label(
                        &node_labels@[y as int],
                        &node_labels@[label_reps@[j] as int],
                    )),
                forall|j1: int, j2: int|
                    0 <= j1 < j2 < label_reps@.len() ==> !same_label(
                        #[trigger] &node_labels@[label_reps@[j1] as int],
                        #[trigger] &node_labels@[label_reps@[j2] as int],
                    ),
                forall|y: int| 0 <= y < x ==> #[trigger] covered(node_labels@, label_reps@, y),
            decreases n - x,
        {
            match Self::find_rep(&node_labels, &label_reps, x) {
                Some(j) => {
                    let ghost prev = label_nodes@[j as int]@;
                    proof {
                        assert forall|y: usize| #[trigger] prev.contains(y) implies y < x by {}
                        crate::sorted::lemma_push_contains(prev, x);
                        crate::sorted::lemma_push_sorted(prev, x);
                    }
                    label_nodes[j].push(x);
                    proof {
                        assert(label_nodes@[j as int]@ == prev.push(x));
                        let ghost rep_of = |j2: int| node_labels@[label_reps@[j2] as int];
                        assert(same_label(&node_labels@[x as int], &rep_of(j as int)));
                        assert forall|j2: int, y: usize|
                            0 <= j2 < label_nodes@.len() implies (#[trigger] label_nodes@[j2]@.contains(y)
                                <==> y < x + 1 && same_label(
                                &node_labels@[y as int],
                                &node_labels@[label_reps@[j2] as int],
                            )) by {
                            if j2 != j as int && y == x {
                                // `x` matched entry `j`; a match with another
                                // entry would equate the two entries' labels
                                if same_label(&node_labels@[x as int], &rep_of(j2)) {
                                    assert(same_label(&rep_of(j as int), &node_labels@[x as int]));
                                    assert(same_label(&rep_of(j as int), &rep_of(j2)));
                                    if j2 < j as int {
                                        assert(same_label(&rep_of(j2), &rep_of(j as int)));
                                    }
                                    assert(false);
                                }
                            }
                        }
                        assert(covered(node_labels@, label_reps@, x as int));
                    }
                }
                None => {
                    let ghost reps0 = label_reps@;
                    let ghost nodes0 = label_nodes@;
                    label_reps.push(x);
                    let mut single: Vec<usize> = Vec::new();
                    single.push(x);
                    label_nodes.push(single);
                    proof {
                        assert(label_reps@ == reps0.push(x));
                        let ghost jx = reps0.len() as int;
                        assert(label_reps@[jx] == x);
                        assert forall|j2: int, y: usize|
                            0 <= j2 < label_nodes@.len() implies (#[trigger] label_nodes@[j2]@.contains(y)
                                <==> y < x + 1 && same_label(
                                &node_labels@[y as int],
                                &node_labels@[label_reps@[j2] as int],
                            )) by {
                            if j2 == jx {
                                assert(label_nodes@[j2]@ == seq![x]);
                                assert(label_nodes@[j2]@.contains(y) <==> y == x) by {
                                    if label_nodes@[j2]@.contains(y) {
                                        let t = choose|t: int|
                                            0 <= t < label_nodes@[j2]@.len() && label_nodes@[j2]@[t] == y;
                                        assert(t == 0);
                                    }
                                    assert(label_nodes@[j2]@[0] == x);
                                }
                                if y < x && same_label(
                                    &node_labels@[y as int],
                                    &node_labels@[x as int],
                                ) {
                                    // an earlier node with this label would
                                    // already have an index entry, which
                                    // `find_rep` would have found
                                    assert(covered(node_labels@, reps0, y as int));
                                    let jj = choose|jj: int|
                                        0 <= jj < reps0.len() && same_label(
                                            #[trigger] &node_labels@[reps0[jj] as int],
                                            &node_labels@[y as int],
                                        );
                                    assert(same_label(
                                        &node_labels@[reps0[jj] as int],
                                        &node_labels@[x as int],
                                    ));
                                    assert(false);
                                }
                            } else {
                                assert(label_nodes@[j2]@ == nodes0[j2]@);
                                if y == x && same_label(
                                    &node_labels@[x as int],
                                    &node_labels@[label_reps@[j2] as int],
                                ) {
                                    assert(same_label(
                                        &node_labels@[reps0[j2] as int],
                                        &node_labels@[x as int],
                                    ));
                                    assert(false);
                                }
                            }
                        }
                        assert forall|j1: int, j2: int|
                            0 <= j1 < j2 < label_reps@.len() implies !same_label(
                            #[trigger] &node_labels@[label_reps@[j1] as int],
                            #[trigger] &node_labels@[label_reps@[j2] as int],
                        ) by {
                            if j2 == jx {
                                assert(!same_label(
                                    &node_labels@[reps0[j1] as int],
                                    &node_labels@[x as int],
                                ));
                            }
                        }
                        assert forall|y: int| 0 <= y < x + 1 implies #[trigger] covered(
                            node_labels@,
                            label_reps@,
                            y,
                        ) by {
                            if y == x as int {
                                assert(same_label(
                                    &node_labels@[label_reps@[jx] as int],
                                    &node_labels@[y],
                                ));
                            } else {
                                assert(covered(node_labels@, reps0, y));
                                let jj = choose|jj: int|
                                    0 <= jj < reps0.len() && same_label(
                                        #[trigger] &node_labels@[reps0[jj] as int],
                                        &node_labels@[y],
                                    );
                                assert(label_reps@[jj] == reps0[jj]);
                                assert(same_label(
                                    &node_labels@[label_reps@[jj] as int],
                                    &node_labels@[y],
                                ));
                            }
                        }
                    }
                },
            }
            x += 1;
        }

        let g = Graph {
            node_count: n,
            relationship_count,
            node_labels,
            label_reps,
            label_nodes,
            empty_nodes: Vec::new(),
            adjacency,
        };
        proof {
            assert forall|y: int| 0 <= y < n implies #[trigger] g.label_indexed(y) by {
                assert(covered(node_labels@, label_reps@, y));
                let jj = choose|jj: int|
                    0 <= jj < label_reps@.len() && same_label(
                        #[trigger] &node_labels@[label_reps@[jj] as int],
                        &node_labels@[y],
                    );
                assert(same_label(
                    &g.node_labels@[g.label_reps@[jj] as int],
                    &g.node_labels@[y],
                ));
            }
            assert(g.wf());
            assert forall|i2: int| 0 <= i2 < g.adj().len() implies sorted(#[trigger] g.adj()[i2])
                && g.adj()[i2].to_multiset() == old(self).staged()[i2].to_multiset() by {
                assert(g.adj()[i2] == adjacency@[i2]@);
                assert(staged0[i2] == old(self).staged()[i2]);
            }
        }
        g
    }
}

} // verus!
