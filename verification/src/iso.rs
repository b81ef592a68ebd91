//! The matching engine: candidate sets built from the label index, simulation
//! pruning to a fixpoint (simple and dual), and backtracking search that
//! enumerates every label-preserving, edge-preserving, injective embedding of
//! the pattern in the graph.

use vstd::prelude::*;
use core::hash::Hash;

use crate::graph::Graph;
use crate::graph::label_eq_ok;
use crate::graph::same_label;
use crate::sorted::do_intersect_sorted;
use crate::sorted::intersect_sorted;
use crate::sorted::lemma_push_contains;
use crate::sorted::lemma_push_sorted;
use crate::sorted::strictly_sorted;
use crate::sorted::union_into_sorted;

verus! {

/// The matches of one query: one row per match, one graph-node id per pattern
/// node.
pub type NestedVec = Vec<Vec<usize>>;

/// The rows of a nested vector, as a sequence of sequences.
pub open spec fn rows(v: NestedVec) -> Seq<Seq<usize>> {
    Seq::new(v@.len(), |i: int| v@[i]@)
}

/// `m` maps every pattern edge to a graph edge: the structural part of a
/// match, without labels or injectivity. This is exactly what simulation
/// pruning respects.
pub open spec fn edge_compat<T>(graph: &Graph<T>, pattern: &Graph<T>, m: Seq<usize>) -> bool {
    &&& m.len() == pattern.node_cnt()
    &&& forall|u: int| #![trigger m[u]] 0 <= u < m.len() ==> m[u] < graph.node_cnt()
    &&& forall|u: int, k: int|
        #![trigger pattern.adj()[u][k]]
        0 <= u < m.len() && 0 <= k < pattern.adj()[u].len() ==> graph.edge(
            m[u],
            m[pattern.adj()[u][k] as int],
        )
}

/// `m` is a full match: edge-preserving, label-preserving and injective.
pub open spec fn is_match<T: PartialEq>(graph: &Graph<T>, pattern: &Graph<T>, m: Seq<usize>) -> bool {
    &&& edge_compat(graph, pattern, m)
    &&& forall|u: int|
        #![trigger m[u]]
        0 <= u < m.len() ==> same_label(&graph.labels()[m[u] as int], &pattern.labels()[u])
    &&& forall|u1: int, u2: int|
        #![trigger m[u1], m[u2]]
        0 <= u1 < u2 < m.len() ==> m[u1] != m[u2]
}

/// A well-formed candidate-set sequence: one strictly ascending set of graph
/// node ids per pattern node.
pub open spec fn valid_cands<T>(graph: &Graph<T>, pattern: &Graph<T>, cs: Seq<Seq<usize>>) -> bool {
    &&& cs.len() == pattern.node_cnt()
    &&& forall|i: int| 0 <= i < cs.len() ==> strictly_sorted(#[trigger] cs[i])
    &&& forall|i: int, k: int|
        0 <= i < cs.len() && 0 <= k < cs[i].len() ==> #[trigger] cs[i][k] < graph.node_cnt()
}

/// Every candidate for a pattern node carries that node's label.
pub open spec fn labels_ok<T: PartialEq>(
    graph: &Graph<T>,
    pattern: &Graph<T>,
    cs: Seq<Seq<usize>>,
) -> bool {
    forall|i: int, x: usize|
        0 <= i < cs.len() && #[trigger] cs[i].contains(x) ==> x < graph.node_cnt() && same_label(
            &graph.labels()[x as int],
            &pattern.labels()[i],
        )
}

/// `m` picks one element from every candidate set.
pub open spec fn cands_contain(cs: Seq<Seq<usize>>, m: Seq<usize>) -> bool {
    &&& m.len() == cs.len()
    &&& forall|i: int| 0 <= i < cs.len() ==> #[trigger] cs[i].contains(m[i])
}

/// `a` shrinks `b` pointwise: every set of `a` is a subset of the matching
/// set of `b`.
pub open spec fn sub_cands(a: Seq<Seq<usize>>, b: Seq<Seq<usize>>) -> bool {
    &&& a.len() == b.len()
    &&& forall|i: int, x: usize| 0 <= i < a.len() && #[trigger] a[i].contains(x) ==> b[i].contains(x)
}

/// `x` has an outgoing edge into the set.
pub open spec fn has_edge_into<T>(graph: &Graph<T>, set: Seq<usize>, x: usize) -> bool {
    exists|y: usize| #[trigger] set.contains(y) && graph.edge(x, y)
}

/// Some element of the set has an edge to `y`.
pub open spec fn reached_from<T>(graph: &Graph<T>, set: Seq<usize>, y: usize) -> bool {
    exists|x: usize| #[trigger] set.contains(x) && graph.edge(x, y)
}

/// The simple-simulation fixpoint: along every pattern edge `(u, v)`, every
/// candidate for `u` has a neighbor among the candidates for `v`.
pub open spec fn simple_fix<T>(graph: &Graph<T>, pattern: &Graph<T>, cs: Seq<Seq<usize>>) -> bool {
    forall|u: int, k: int, x: usize|
        #![trigger pattern.adj()[u][k], cs[u].contains(x)]
        0 <= u < cs.len() && 0 <= k < pattern.adj()[u].len() && cs[u].contains(x) ==> has_edge_into(
            graph,
            cs[pattern.adj()[u][k] as int],
            x,
        )
}

/// The dual-simulation fixpoint: additionally, along every pattern edge
/// `(u, v)`, every candidate for `v` is reached from some candidate for `u`.
pub open spec fn dual_fix<T>(graph: &Graph<T>, pattern: &Graph<T>, cs: Seq<Seq<usize>>) -> bool {
    &&& simple_fix(graph, pattern, cs)
    &&& forall|u: int, k: int, y: usize|
        #![trigger pattern.adj()[u][k], cs[pattern.adj()[u][k] as int].contains(y)]
        0 <= u < cs.len() && 0 <= k < pattern.adj()[u].len() && cs[pattern.adj()[u][k] as int].contains(
            y,
        ) ==> reached_from(graph, cs[u], y)
}

/// Every candidate set that simulation filters (its pattern node has an
/// outgoing edge) is non-empty.
pub open spec fn live_cands<T>(pattern: &Graph<T>, cs: Seq<Seq<usize>>) -> bool {
    forall|i: int| 0 <= i < cs.len() && pattern.adj()[i].len() > 0 ==> #[trigger] cs[i].len() > 0
}

/// The total number of candidates across all sets: the potential that each
/// changing simulation pass strictly decreases.
pub open spec fn population(cs: Seq<Seq<usize>>) -> nat
    decreases cs.len(),
{
    if cs.len() == 0 {
        0
    } else {
        cs[0].len() + population(cs.drop_first())
    }
}

/// Replacing one set changes the population by the difference of lengths.
proof fn lemma_population_update(cs: Seq<Seq<usize>>, i: int, s: Seq<usize>)
    requires
        0 <= i < cs.len(),
    ensures
        population(cs.update(i, s)) + cs[i].len() == population(cs) + s.len(),
    decreases cs.len(),
{
    if i == 0 {
        assert(cs.update(0, s).drop_first() =~= cs.drop_first());
    } else {
        assert(cs.update(i, s).drop_first() =~= cs.drop_first().update(i - 1, s));
        lemma_population_update(cs.drop_first(), i - 1, s);
    }
}

/// Copies a list of node ids.
fn copy_ids(v: &Vec<usize>) -> (r: Vec<usize>)
    ensures
        r@ == v@,
{
    let mut r: Vec<usize> = Vec::new();
    let mut i: usize = 0;
    while i < v.len()
        invariant
            i <= v@.len(),
            r@ == v@.subrange(0, i as int),
        decreases v@.len() - i,
    {
        r.push(v[i]);
        proof {
            assert(r@ =~= v@.subrange(0, i + 1));
        }
        i += 1;
    }
    proof {
        assert(v@.subrange(0, v@.len() as int) =~= v@);
    }
    r
}

/// Copies a candidate-set sequence, so that a search branch can shrink its
/// own copy without a sibling branch observing the change.
fn copy_rows(v: &NestedVec) -> (r: NestedVec)
    ensures
        rows(r) == rows(*v),
{
    let mut r: NestedVec = Vec::new();
    let mut i: usize = 0;
    while i < v.len()
        invariant
            i <= v@.len(),
            r@.len() == i,
            forall|t: int| 0 <= t < i ==> #[trigger] r@[t]@ == v@[t]@,
        decreases v@.len() - i,
    {
        r.push(copy_ids(&v[i]));
        i += 1;
    }
    proof {
        assert(rows(r) =~= rows(*v));
    }
    r
}

/// The state of one simulation pass that has verified, without any change,
/// every pattern edge before `(u_end, k_end)` in iteration order: those edges
/// satisfy the fixpoint property, and every filtered set seen so far is
/// non-empty.
pub open spec fn pass_checked<T>(
    graph: &Graph<T>,
    pattern: &Graph<T>,
    cs: Seq<Seq<usize>>,
    u_end: int,
    k_end: int,
) -> bool {
    &&& forall|u: int, k: int, x: usize|
        #![trigger pattern.adj()[u][k], cs[u].contains(x)]
        0 <= u < u_end && 0 <= k < pattern.adj()[u].len() && cs[u].contains(x) ==> has_edge_into(
            graph,
            cs[pattern.adj()[u][k] as int],
            x,
        )
    &&& forall|k: int, x: usize|
        #![trigger pattern.adj()[u_end][k], cs[u_end].contains(x)]
        0 <= k < k_end && k < pattern.adj()[u_end].len() && cs[u_end].contains(x) ==> has_edge_into(
            graph,
            cs[pattern.adj()[u_end][k] as int],
            x,
        )
    &&& forall|u: int| 0 <= u < u_end && pattern.adj()[u].len() > 0 ==> #[trigger] cs[u].len() > 0
    &&& (k_end > 0 && 0 <= u_end < cs.len() ==> cs[u_end].len() > 0)
}

/// Refines the candidate sets by simple simulation: along every pattern edge
/// `(u, v)`, a candidate for `u` survives only if it has a neighbor among the
/// candidates for `v`; passes repeat until nothing changes. Returns false as
/// soon as some filtered set becomes empty, true on reaching the fixpoint.
///
/// Pruning never removes a candidate used by an edge-compatible assignment,
/// and an input already at the fixpoint comes back unchanged.
#[verifier::loop_isolation(false)]
#[verifier::spinoff_prover]
#[verifier::rlimit(30)]
pub fn simple_simulation<T: Eq + Hash>(
    graph: &Graph<T>,
    pattern: &Graph<T>,
    candidates: &mut NestedVec,
) -> (r: bool)
    requires
        graph.wf(),
        pattern.wf(),
        valid_cands(graph, pattern, rows(*old(candidates))),
    ensures
        valid_cands(graph, pattern, rows(*final(candidates))),
        sub_cands(rows(*final(candidates)), rows(*old(candidates))),
        forall|i: int|
            0 <= i < rows(*old(candidates)).len() && (#[trigger] pattern.adj()[i]).len() == 0
                ==> rows(*final(candidates))[i] == rows(*old(candidates))[i],
        r ==> simple_fix(graph, pattern, rows(*final(candidates))) && live_cands(
            pattern,
            rows(*final(candidates)),
        ),
        forall|m: Seq<usize>|
            #[trigger] edge_compat(graph, pattern, m) && cands_contain(rows(*old(candidates)), m)
                ==> r && cands_contain(rows(*final(candidates)), m),
        simple_fix(graph, pattern, rows(*old(candidates))) ==> rows(*final(candidates)) == rows(
            *old(candidates),
        ),
        simple_fix(graph, pattern, rows(*old(candidates))) && live_cands(
            pattern,
            rows(*old(candidates)),
        ) ==> r,
{
    let ghost c0 = rows(*old(candidates));
    proof {
        pattern.lemma_wf_shape();
    }
    let n = pattern.node_count();
    let mut updated = true;
    while updated
        invariant
            valid_cands(graph, pattern, rows(*candidates)),
            sub_cands(rows(*candidates), c0),
            forall|i: int|
                0 <= i < c0.len() && (#[trigger] pattern.adj()[i]).len() == 0 ==> rows(
                    *candidates,
                )[i] == c0[i],
            forall|m: Seq<usize>|
                #[trigger] edge_compat(graph, pattern, m) && cands_contain(c0, m) ==> cands_contain(
                    rows(*candidates),
                    m,
                ),
            simple_fix(graph, pattern, c0) ==> rows(*candidates) == c0,
            !updated ==> simple_fix(graph, pattern, rows(*candidates)) && live_cands(
                pattern,
                rows(*candidates),
            ),
        decreases population(rows(*candidates)) + (if updated {
            1int
        } else {
            0int
        }),
    {
        updated = false;
        let ghost pass0 = rows(*candidates);
        let mut u: usize = 0;
        while u < n
            invariant
                u <= n,
                valid_cands(graph, pattern, rows(*candidates)),
                sub_cands(rows(*candidates), c0),
                forall|i: int|
                    0 <= i < c0.len() && (#[trigger] pattern.adj()[i]).len() == 0 ==> rows(
                        *candidates,
                    )[i] == c0[i],
                forall|m: Seq<usize>|
                    #[trigger] edge_compat(graph, pattern, m) && cands_contain(c0, m)
                        ==> cands_contain(rows(*candidates), m),
                simple_fix(graph, pattern, c0) ==> rows(*candidates) == c0,
                population(rows(*candidates)) <= population(pass0),
                updated ==> population(rows(*candidates)) < population(pass0),
                !updated ==> rows(*candidates) == pass0 && pass_checked(
                    graph,
                    pattern,
                    rows(*candidates),
                    u as int,
                    0,
                ),
            decreases n - u,
        {
            let pn = pattern.neighbors(u);
            let mut k: usize = 0;
            while k < pn.len()
                invariant
                    k <= pn@.len(),
                    valid_cands(graph, pattern, rows(*candidates)),
                    sub_cands(rows(*candidates), c0),
                    forall|i: int|
                        0 <= i < c0.len() && (#[trigger] pattern.adj()[i]).len() == 0 ==> rows(
                            *candidates,
                        )[i] == c0[i],
                    forall|m: Seq<usize>|
                        #[trigger] edge_compat(graph, pattern, m) && cands_contain(c0, m)
                            ==> cands_contain(rows(*candidates), m),
                    simple_fix(graph, pattern, c0) ==> rows(*candidates) == c0,
                    population(rows(*candidates)) <= population(pass0),
                    updated ==> population(rows(*candidates)) < population(pass0),
                    !updated ==> rows(*candidates) == pass0 && pass_checked(
                        graph,
                        pattern,
                        rows(*candidates),
                        u as int,
                        k as int,
                    ),
                decreases pn@.len() - k,
            {
                let v = pn[k];
                let ghost cs_pre = rows(*candidates);
                let ghost cu = cs_pre[u as int];
                let ghost cv = cs_pre[v as int];
                let mut u_new: Vec<usize> = Vec::new();
                let mut dropped = false;
                let mut t: usize = 0;
                while t < candidates[u].len()
                    invariant
                        rows(*candidates) == cs_pre,
                        t <= cu.len(),
                        strictly_sorted(u_new@),
                        forall|x: usize| #[trigger]
                            u_new@.contains(x) ==> exists|a: int| 0 <= a < t && cu[a] == x,
                        forall|a: int|
                            0 <= a < t ==> (u_new@.contains(#[trigger] cu[a]) <==> has_edge_into(
                                graph,
                                cv,
                                cu[a],
                            )),
                        !dropped ==> u_new@ == cu.subrange(0, t as int),
                        dropped ==> u_new@.len() < t,
                    decreases cu.len() - t,
                {
                    let x = candidates[u][t];
                    let nb = graph.neighbors(x);
                    let ghost prev_new = u_new@;
                    if do_intersect_sorted(nb, candidates[v].as_slice()) {
                        proof {
                            let y = choose|y: usize| nb@.contains(y) && cv.contains(y);
                            assert(graph.edge(x, y));
                            assert(has_edge_into(graph, cv, x));
                            assert forall|y2: usize| #[trigger] prev_new.contains(y2) implies y2
                                < x by {
                                let a = choose|a: int| 0 <= a < t && cu[a] == y2;
                                assert(cu[a] < cu[t as int]);
                            }
                            lemma_push_contains(prev_new, x);
                            lemma_push_sorted(prev_new, x);
                        }
                        u_new.push(x);
                        proof {
                            if !dropped {
                                assert(u_new@ =~= cu.subrange(0, t + 1));
                            }
                        }
                    } else {
                        proof {
                            assert(!has_edge_into(graph, cv, x)) by {
                                if has_edge_into(graph, cv, x) {
                                    let y = choose|y: usize| #[trigger]
                                        cv.contains(y) && graph.edge(x, y);
                                    assert(nb@.contains(y) && cv.contains(y));
                                }
                            }
                        }
                        dropped = true;
                    }
                    t += 1;
                }
                proof {
                    // every surviving candidate, and only those, stands in
                    // `u_new`; an edge-compatible assignment keeps its pick
                    assert forall|m: Seq<usize>|
                        #[trigger] edge_compat(graph, pattern, m) && cands_contain(c0, m) implies
                        u_new@.contains(m[u as int]) by {
                        assert(cands_contain(cs_pre, m));
                        assert(cu.contains(m[u as int]));
                        assert(cv.contains(m[v as int]));
                        assert(pattern.adj()[u as int][k as int] == v);
                        assert(graph.edge(m[u as int], m[v as int]));
                        assert(has_edge_into(graph, cv, m[u as int]));
                        let a = choose|a: int| 0 <= a < cu.len() && cu[a] == m[u as int];
                        assert(u_new@.contains(cu[a]));
                    }
                    if simple_fix(graph, pattern, c0) {
                        assert(cs_pre == c0);
                        assert forall|a: int| 0 <= a < cu.len() implies u_new@.contains(
                            #[trigger] cu[a],
                        ) by {
                            assert(cu.contains(cu[a]));
                            assert(pattern.adj()[u as int][k as int] == v);
                            assert(has_edge_into(graph, c0[v as int], cu[a]));
                        }
                        crate::sorted::lemma_strictly_sorted_unique(u_new@, cu);
                        assert(u_new@ == cu);
                    }
                }
                if u_new.len() == 0 {
                    proof {
                        assert forall|m: Seq<usize>|
                            #[trigger] edge_compat(graph, pattern, m) && cands_contain(c0, m)
                            implies false by {
                            assert(u_new@.contains(m[u as int]));
                        }
                        if simple_fix(graph, pattern, c0) && live_cands(pattern, c0) {
                            assert(pattern.adj()[u as int].len() > 0);
                            assert(c0[u as int].len() > 0);
                            assert(u_new@ == cu);
                            assert(false);
                        }
                    }
                    return false;
                }
                if dropped {
                    updated = true;
                }
                let ghost popA = population(rows(*candidates));
                candidates[u] = u_new;
                proof {
                    let ghost cs_post = rows(*candidates);
                    assert(cs_post =~= cs_pre.update(u as int, cs_post[u as int]));
                    assert(cs_post[u as int] == cs_pre.update(u as int, cs_post[u as int])[u as int]);
                    lemma_population_update(cs_pre, u as int, cs_post[u as int]);
                    // the new set keeps only prior candidates of `u`
                    assert forall|x: usize| #[trigger] cs_post[u as int].contains(x) implies
                        cu.contains(x) by {
                        let a = choose|a: int| 0 <= a < cu.len() && cu[a] == x;
                        assert(cu[a] == x);
                    }
                    assert forall|i: int, x: usize|
                        0 <= i < cs_post.len() && #[trigger] cs_post[i].contains(x) implies c0[i].contains(
                        x,
                    ) by {
                        if i == u as int {
                            assert(cu.contains(x));
                            assert(c0[i].contains(x));
                        } else {
                            assert(cs_pre[i].contains(x));
                        }
                    }
                    assert forall|i: int, x: usize|
                        0 <= i < cs_post.len() && 0 <= x < cs_post[i].len() implies #[trigger] cs_post[i][x as int]
                        < graph.node_cnt() by {
                        assert(cs_post[i].contains(cs_post[i][x as int]));
                        assert(c0[i].contains(cs_post[i][x as int]));
                    }
                    // population accounting
                    if dropped {
                        assert(cs_post[u as int].len() < cu.len());
                        assert(population(cs_post) < popA);
                    } else {
                        assert(u_new@ == cu.subrange(0, cu.len() as int));
                        assert(cu.subrange(0, cu.len() as int) =~= cu);
                        assert(population(cs_post) == popA);
                    }
                    if !updated {
                        assert(!dropped);
                        assert(u_new@ == cu);
                        assert(cs_post =~= cs_pre);
                        assert(cs_post == pass0);
                        // the newly checked edge joins the verified prefix
                        assert forall|k2: int, x: usize|
                            0 <= k2 < k + 1 && k2 < pattern.adj()[u as int].len() && cs_post[u as int].contains(
                                x,
                            ) implies has_edge_into(
                            graph,
                            cs_post[pattern.adj()[u as int][k2] as int],
                            x,
                        ) by {
                            if k2 == k as int {
                                let a = choose|a: int| 0 <= a < cu.len() && cu[a] == x;
                                assert(u_new@.contains(cu[a]));
                                assert(has_edge_into(graph, cv, x));
                            }
                        }
                        assert(pass_checked(graph, pattern, cs_post, u as int, k + 1));
                    }
                    if simple_fix(graph, pattern, c0) {
                        assert(u_new@ == cu);
                        assert(cs_post =~= cs_pre);
                    }
                }
                k += 1;
            }
            proof {
                if !updated {
                    assert forall|u2: int, k2: int, x: usize|
                        0 <= u2 < u + 1 && 0 <= k2 < pattern.adj()[u2].len() && rows(
                            *candidates,
                        )[u2].contains(x) implies has_edge_into(
                        graph,
                        rows(*candidates)[pattern.adj()[u2][k2] as int],
                        x,
                    ) by {
                        if u2 == u as int {
                            assert(pn@ == pattern.adj()[u as int]);
                        }
                    }
                    assert forall|u2: int|
                        0 <= u2 < u + 1 && (#[trigger] pattern.adj()[u2]).len() > 0 implies rows(
                        *candidates,
                    )[u2].len() > 0 by {
                        if u2 == u as int {
                            assert(rows(*candidates)[u2].len() > 0);
                        }
                    }
                    assert(pass_checked(graph, pattern, rows(*candidates), u + 1, 0));
                }
            }
            u += 1;
        }
        proof {
            if !updated {
                assert(simple_fix(graph, pattern, rows(*candidates)));
                assert(live_cands(pattern, rows(*candidates)));
            }
        }
    }
    true
}

/// Builds the initial candidate sets: for each pattern node, the ascending
/// list of graph nodes carrying that node's label.
pub fn init_candidates<T: Eq + Hash>(graph: &Graph<T>, pattern: &Graph<T>) -> (r: NestedVec)
    requires
        graph.wf(),
        pattern.wf(),
        label_eq_ok::<T>(),
    ensures
        valid_cands(graph, pattern, rows(r)),
        labels_ok(graph, pattern, rows(r)),
        forall|i: int, x: usize|
            0 <= i < pattern.node_cnt() && x < graph.node_cnt() && same_label(
                &graph.labels()[x as int],
                &pattern.labels()[i],
            ) ==> #[trigger] rows(r)[i].contains(x),
{
    proof {
        pattern.lemma_wf_shape();
    }
    let n = pattern.node_count();
    let mut candidates: NestedVec = Vec::new();
    let mut i: usize = 0;
    while i < n
        invariant
            graph.wf(),
            pattern.wf(),
            label_eq_ok::<T>(),
            n == pattern.node_cnt(),
            i <= n,
            candidates@.len() == i,
            forall|t: int| 0 <= t < i ==> strictly_sorted(#[trigger] candidates@[t]@),
            forall|t: int, x: usize|
                0 <= t < i ==> (#[trigger] candidates@[t]@.contains(x) <==> x < graph.node_cnt()
                    && same_label(&graph.labels()[x as int], &pattern.labels()[t])),
        decreases n - i,
    {
        let lbl = pattern.node_label(i);
        let nodes = graph.nodes_by_label(lbl);
        candidates.push(copy_ids(nodes));
        i += 1;
    }
    proof {
        assert forall|i2: int, k: int|
            0 <= i2 < rows(candidates).len() && 0 <= k < rows(candidates)[i2].len() implies #[trigger] rows(
            candidates,
        )[i2][k] < graph.node_cnt() by {
            assert(candidates@[i2]@.contains(candidates@[i2]@[k]));
        }
    }
    candidates
}

/// Both fixpoint components hold of the single pattern edge `(u, v)`: every
/// candidate for `u` has a neighbor among the candidates for `v`, and every
/// candidate for `v` is reached from some candidate for `u`.
pub open spec fn dual_edge_ok<T>(graph: &Graph<T>, cs: Seq<Seq<usize>>, u: int, v: int) -> bool {
    &&& forall|x: usize| #[trigger] cs[u].contains(x) ==> has_edge_into(graph, cs[v], x)
    &&& forall|y: usize| #[trigger] cs[v].contains(y) ==> reached_from(graph, cs[u], y)
}

/// The state of one dual-simulation pass that has verified, without any
/// change, every pattern edge before `(u_end, k_end)` in iteration order.
pub open spec fn dual_pass_checked<T>(
    graph: &Graph<T>,
    pattern: &Graph<T>,
    cs: Seq<Seq<usize>>,
    u_end: int,
    k_end: int,
) -> bool {
    &&& forall|u: int, k: int|
        #![trigger pattern.adj()[u][k]]
        0 <= u < u_end && 0 <= k < pattern.adj()[u].len() ==> dual_edge_ok(
            graph,
            cs,
            u,
            pattern.adj()[u][k] as int,
        )
    &&& forall|k: int|
        #![trigger pattern.adj()[u_end][k]]
        0 <= k < k_end && k < pattern.adj()[u_end].len() ==> dual_edge_ok(
            graph,
            cs,
            u_end,
            pattern.adj()[u_end][k] as int,
        )
}

/// Filters the candidates of `u` along one pattern edge `(u, v)`: returns
/// the surviving candidates for `u` (those with a neighbor among the
/// candidates for `v`), the union of all such neighbors, and whether any
/// candidate was dropped.
#[verifier::loop_isolation(false)]
fn dual_filter_edge<T: Eq + Hash>(
    graph: &Graph<T>,
    candidates: &NestedVec,
    u: usize,
    v: usize,
) -> (res: (Vec<usize>, Vec<usize>, bool))
    requires
        graph.wf(),
        u < rows(*candidates).len(),
        v < rows(*candidates).len(),
        forall|i: int| 0 <= i < rows(*candidates).len() ==> strictly_sorted(
            #[trigger] rows(*candidates)[i],
        ),
        forall|i: int, t: int|
            0 <= i < rows(*candidates).len() && 0 <= t < rows(*candidates)[i].len()
                ==> #[trigger] rows(*candidates)[i][t] < graph.node_cnt(),
    ensures
        ({
            let cu = rows(*candidates)[u as int];
            let cv = rows(*candidates)[v as int];
            &&& strictly_sorted(res.0@)
            &&& strictly_sorted(res.1@)
            &&& forall|x: usize| #[trigger] res.0@.contains(x) ==> cu.contains(x)
            &&& forall|a: int|
                0 <= a < cu.len() ==> (res.0@.contains(#[trigger] cu[a]) <==> has_edge_into(
                    graph,
                    cv,
                    cu[a],
                ))
            &&& forall|y: usize| #[trigger]
                res.1@.contains(y) <==> (cv.contains(y) && reached_from(graph, cu, y))
            &&& (!res.2 ==> res.0@ == cu)
            &&& (res.2 ==> res.0@.len() < cu.len())
        }),
{
    let ghost cu = rows(*candidates)[u as int];
    let ghost cv = rows(*candidates)[v as int];
    let mut u_new: Vec<usize> = Vec::new();
    let mut v_union: Vec<usize> = Vec::new();
    let mut dropped = false;
    let mut t: usize = 0;
    while t < candidates[u].len()
        invariant
            t <= cu.len(),
            strictly_sorted(u_new@),
            strictly_sorted(v_union@),
            forall|x: usize| #[trigger]
                u_new@.contains(x) ==> exists|a: int| 0 <= a < t && cu[a] == x,
            forall|a: int|
                0 <= a < t ==> (u_new@.contains(#[trigger] cu[a]) <==> has_edge_into(
                    graph,
                    cv,
                    cu[a],
                )),
            !dropped ==> u_new@ == cu.subrange(0, t as int),
            dropped ==> u_new@.len() < t,
            forall|y: usize| #[trigger]
                v_union@.contains(y) <==> (cv.contains(y) && exists|a: int|
                    0 <= a < t && #[trigger] graph.edge(cu[a], y)),
        decreases cu.len() - t,
    {
        let x = candidates[u][t];
        let nb = graph.neighbors(x);
        let inter = intersect_sorted(nb, candidates[v].as_slice());
        let ghost prev_new = u_new@;
        let ghost prev_union = v_union@;
        if inter.len() > 0 {
            proof {
                assert(inter@.contains(inter@[0]));
                assert(nb@.contains(inter@[0]) && cv.contains(inter@[0]));
                assert(graph.edge(x, inter@[0]));
                assert(has_edge_into(graph, cv, x));
                assert forall|y2: usize| #[trigger] prev_new.contains(y2) implies y2 < x by {
                    let a = choose|a: int| 0 <= a < t && cu[a] == y2;
                    assert(cu[a] < cu[t as int]);
                }
                lemma_push_contains(prev_new, x);
                lemma_push_sorted(prev_new, x);
            }
            u_new.push(x);
            proof {
                if !dropped {
                    assert(u_new@ =~= cu.subrange(0, t + 1));
                }
            }
        } else {
            proof {
                assert(!has_edge_into(graph, cv, x)) by {
                    if has_edge_into(graph, cv, x) {
                        let y = choose|y: usize| #[trigger] cv.contains(y) && graph.edge(x, y);
                        assert(nb@.contains(y) && cv.contains(y));
                        assert(inter@.contains(y));
                        assert(inter@.len() > 0);
                    }
                }
            }
            dropped = true;
        }
        union_into_sorted(&mut v_union, inter.as_slice());
        proof {
            assert forall|y: usize| #[trigger]
                v_union@.contains(y) <==> (cv.contains(y) && exists|a: int|
                    0 <= a < t + 1 && #[trigger] graph.edge(cu[a], y)) by {
                if v_union@.contains(y) {
                    if prev_union.contains(y) {
                        let a = choose|a: int| 0 <= a < t && #[trigger] graph.edge(cu[a], y);
                        assert(0 <= a < t + 1 && graph.edge(cu[a], y));
                    } else {
                        assert(inter@.contains(y));
                        assert(nb@.contains(y) && cv.contains(y));
                        assert(graph.edge(cu[t as int], y));
                    }
                }
                if cv.contains(y) && exists|a: int| 0 <= a < t + 1 && #[trigger] graph.edge(
                    cu[a],
                    y,
                ) {
                    let a = choose|a: int| 0 <= a < t + 1 && #[trigger] graph.edge(cu[a], y);
                    if a < t {
                        assert(prev_union.contains(y));
                    } else {
                        assert(nb@.contains(y));
                        assert(inter@.contains(y));
                    }
                    assert(v_union@.contains(y));
                }
            }
        }
        t += 1;
    }
    proof {
        assert forall|y: usize| #[trigger]
            v_union@.contains(y) <==> (cv.contains(y) && reached_from(graph, cu, y)) by {
            if v_union@.contains(y) {
                let a = choose|a: int| 0 <= a < cu.len() && #[trigger] graph.edge(cu[a], y);
                assert(cu.contains(cu[a]));
                assert(reached_from(graph, cu, y));
            }
            if cv.contains(y) && reached_from(graph, cu, y) {
                let x2 = choose|x2: usize| #[trigger] cu.contains(x2) && graph.edge(x2, y);
                let a = choose|a: int| 0 <= a < cu.len() && cu[a] == x2;
                assert(graph.edge(cu[a], y));
            }
        }
        if !dropped {
            assert(cu.subrange(0, cu.len() as int) =~= cu);
        }
    }
    (u_new, v_union, dropped)
}

/// After one edge's writebacks the sets only shrink toward the originals,
/// and entries other than `u` and `v` are untouched.
proof fn lemma_writeback_shape(
    cs_pre: Seq<Seq<usize>>,
    u: int,
    v: int,
    u_new: Seq<usize>,
    v_new: Seq<usize>,
    cvm: Seq<usize>,
)
    requires
        0 <= u < cs_pre.len(),
        0 <= v < cs_pre.len(),
        cvm == if u == v {
            u_new
        } else {
            cs_pre[v]
        },
        forall|x: usize| #[trigger] u_new.contains(x) ==> cs_pre[u].contains(x),
        forall|x: usize| #[trigger] v_new.contains(x) ==> cvm.contains(x),
    ensures
        forall|i: int, x: usize|
            0 <= i < cs_pre.len() && #[trigger] cs_pre.update(u, u_new).update(v, v_new)[i].contains(
                x,
            ) ==> cs_pre[i].contains(x),
        forall|i: int|
            0 <= i < cs_pre.len() && i != u && i != v ==> #[trigger] cs_pre.update(u, u_new).update(
                v,
                v_new,
            )[i] == cs_pre[i],
{
    let cs_post = cs_pre.update(u, u_new).update(v, v_new);
    assert forall|i: int, x: usize|
        0 <= i < cs_pre.len() && #[trigger] cs_post[i].contains(x) implies cs_pre[i].contains(
        x,
    ) by {
        if i == v {
            assert(v_new.contains(x));
            assert(cvm.contains(x));
            if u == v {
                assert(u_new.contains(x));
            }
        } else if i == u {
            assert(u_new.contains(x));
        }
    }
}

/// An assignment with a graph edge across `(u, v)` survives both writebacks:
/// its pick for `u` is supported, so it stays, and its pick for `v` lies in
/// the neighbor union.
proof fn lemma_writeback_keeps<T>(
    graph: &Graph<T>,
    cs_pre: Seq<Seq<usize>>,
    u: int,
    v: int,
    u_new: Seq<usize>,
    v_union: Seq<usize>,
    v_new: Seq<usize>,
    cvm: Seq<usize>,
)
    requires
        0 <= u < cs_pre.len(),
        0 <= v < cs_pre.len(),
        cvm == if u == v {
            u_new
        } else {
            cs_pre[v]
        },
        forall|a: int|
            0 <= a < cs_pre[u].len() ==> (u_new.contains(#[trigger] cs_pre[u][a])
                <==> has_edge_into(graph, cs_pre[v], cs_pre[u][a])),
        forall|y: usize| #[trigger]
            v_union.contains(y) <==> (cs_pre[v].contains(y) && reached_from(graph, cs_pre[u], y)),
        forall|x: usize| #[trigger] v_new.contains(x) <==> (cvm.contains(x) && v_union.contains(x)),
    ensures
        forall|m: Seq<usize>|
            #[trigger] cands_contain(cs_pre, m) && graph.edge(m[u], m[v]) ==> cands_contain(
                cs_pre.update(u, u_new).update(v, v_new),
                m,
            ),
{
    let cs_post = cs_pre.update(u, u_new).update(v, v_new);
    assert forall|m: Seq<usize>|
        #[trigger] cands_contain(cs_pre, m) && graph.edge(m[u], m[v]) implies cands_contain(
        cs_post,
        m,
    ) by {
        assert(cs_pre[u].contains(m[u]));
        assert(cs_pre[v].contains(m[v]));
        assert(has_edge_into(graph, cs_pre[v], m[u]));
        let a = choose|a: int| 0 <= a < cs_pre[u].len() && cs_pre[u][a] == m[u];
        assert(u_new.contains(cs_pre[u][a]));
        assert(cs_pre[u].contains(cs_pre[u][a]) && graph.edge(cs_pre[u][a], m[v]));
        assert(reached_from(graph, cs_pre[u], m[v]));
        assert(v_union.contains(m[v]));
        assert(cvm.contains(m[v]));
        assert(v_new.contains(m[v]));
        assert forall|i: int| 0 <= i < cs_post.len() implies #[trigger] cs_post[i].contains(
            m[i],
        ) by {
            if i == v {
            } else if i == u {
                assert(u_new.contains(m[i]));
            } else {
                assert(cs_pre[i].contains(m[i]));
            }
        }
    }
}

/// When neither writeback changes anything, both fixpoint components hold of
/// the edge `(u, v)`.
proof fn lemma_writeback_fixed<T>(
    graph: &Graph<T>,
    cs_pre: Seq<Seq<usize>>,
    u: int,
    v: int,
    u_new: Seq<usize>,
    v_union: Seq<usize>,
    v_new: Seq<usize>,
    cvm: Seq<usize>,
)
    requires
        0 <= u < cs_pre.len(),
        0 <= v < cs_pre.len(),
        cvm == if u == v {
            u_new
        } else {
            cs_pre[v]
        },
        forall|a: int|
            0 <= a < cs_pre[u].len() ==> (u_new.contains(#[trigger] cs_pre[u][a])
                <==> has_edge_into(graph, cs_pre[v], cs_pre[u][a])),
        forall|y: usize| #[trigger]
            v_union.contains(y) <==> (cs_pre[v].contains(y) && reached_from(graph, cs_pre[u], y)),
        forall|x: usize| #[trigger] v_new.contains(x) <==> (cvm.contains(x) && v_union.contains(x)),
        u_new == cs_pre[u],
        v_new == cvm,
    ensures
        cs_pre.update(u, u_new).update(v, v_new) == cs_pre,
        dual_edge_ok(graph, cs_pre, u, v),
{
    assert(cs_pre.update(u, u_new).update(v, v_new) =~= cs_pre);
    assert forall|x: usize| #[trigger] cs_pre[u].contains(x) implies has_edge_into(
        graph,
        cs_pre[v],
        x,
    ) by {
        let a = choose|a: int| 0 <= a < cs_pre[u].len() && cs_pre[u][a] == x;
        assert(u_new.contains(cs_pre[u][a]));
    }
    assert forall|y: usize| #[trigger] cs_pre[v].contains(y) implies reached_from(
        graph,
        cs_pre[u],
        y,
    ) by {
        if u == v {
            assert(v_new.contains(y));
        } else {
            assert(v_new.contains(y));
        }
        assert(v_union.contains(y));
    }
}

/// An edge already at the dual fixpoint, with a non-empty source set, is left
/// unchanged by the refinement.
proof fn lemma_writeback_idempotent<T>(
    graph: &Graph<T>,
    cs_pre: Seq<Seq<usize>>,
    u: int,
    v: int,
    u_new: Seq<usize>,
    v_union: Seq<usize>,
    v_new: Seq<usize>,
    cvm: Seq<usize>,
)
    requires
        0 <= u < cs_pre.len(),
        0 <= v < cs_pre.len(),
        strictly_sorted(cs_pre[u]),
        strictly_sorted(cs_pre[v]),
        strictly_sorted(u_new),
        strictly_sorted(v_union),
        strictly_sorted(v_new),
        cvm == if u == v {
            u_new
        } else {
            cs_pre[v]
        },
        forall|x: usize| #[trigger] u_new.contains(x) ==> cs_pre[u].contains(x),
        forall|a: int|
            0 <= a < cs_pre[u].len() ==> (u_new.contains(#[trigger] cs_pre[u][a])
                <==> has_edge_into(graph, cs_pre[v], cs_pre[u][a])),
        forall|y: usize| #[trigger]
            v_union.contains(y) <==> (cs_pre[v].contains(y) && reached_from(graph, cs_pre[u], y)),
        forall|x: usize| #[trigger] v_new.contains(x) <==> (cvm.contains(x) && v_union.contains(x)),
        dual_edge_ok(graph, cs_pre, u, v),
    ensures
        u_new == cs_pre[u],
        v_new == cvm,
{
    assert forall|a: int| 0 <= a < cs_pre[u].len() implies u_new.contains(
        #[trigger] cs_pre[u][a],
    ) by {
        assert(cs_pre[u].contains(cs_pre[u][a]));
        assert(has_edge_into(graph, cs_pre[v], cs_pre[u][a]));
    }
    crate::sorted::lemma_strictly_sorted_unique(u_new, cs_pre[u]);
    assert forall|y: usize| #[trigger] cs_pre[v].contains(y) implies v_union.contains(y) by {
        assert(reached_from(graph, cs_pre[u], y));
    }
    crate::sorted::lemma_strictly_sorted_unique(v_union, cs_pre[v]);
    assert forall|x: usize| #[trigger] v_new.contains(x) <==> cvm.contains(x) by {
        if cvm.contains(x) {
            if u == v {
                assert(cs_pre[u].contains(x));
                assert(cs_pre[v].contains(x));
            }
            assert(v_union.contains(x));
        }
    }
    assert(strictly_sorted(cvm));
    crate::sorted::lemma_strictly_sorted_unique(v_new, cvm);
}

/// Writes one edge's refinement back: the surviving candidates `u_new`
/// replace the set of `u`, and the set of `v` is intersected with the
/// neighbor union `v_union`. Returns whether anything shrank.
#[verifier::loop_isolation(false)]
#[verifier::spinoff_prover]
fn apply_edge_refinement<T: Eq + Hash>(
    graph: &Graph<T>,
    candidates: &mut NestedVec,
    u: usize,
    v: usize,
    u_new: Vec<usize>,
    v_union: Vec<usize>,
    dropped: bool,
) -> (changed: bool)
    requires
        graph.wf(),
        u < rows(*old(candidates)).len(),
        v < rows(*old(candidates)).len(),
        forall|i: int| 0 <= i < rows(*old(candidates)).len() ==> strictly_sorted(
            #[trigger] rows(*old(candidates))[i],
        ),
        strictly_sorted(u_new@),
        strictly_sorted(v_union@),
        forall|x: usize| #[trigger]
            u_new@.contains(x) ==> rows(*old(candidates))[u as int].contains(x),
        forall|a: int|
            0 <= a < rows(*old(candidates))[u as int].len() ==> (u_new@.contains(
                #[trigger] rows(*old(candidates))[u as int][a],
            ) <==> has_edge_into(
                graph,
                rows(*old(candidates))[v as int],
                rows(*old(candidates))[u as int][a],
            )),
        !dropped ==> u_new@ == rows(*old(candidates))[u as int],
        dropped ==> u_new@.len() < rows(*old(candidates))[u as int].len(),
        forall|y: usize| #[trigger]
            v_union@.contains(y) <==> (rows(*old(candidates))[v as int].contains(y)
                && reached_from(graph, rows(*old(candidates))[u as int], y)),
    ensures
        rows(*final(candidates)).len() == rows(*old(candidates)).len(),
        forall|i: int| 0 <= i < rows(*final(candidates)).len() ==> strictly_sorted(
            #[trigger] rows(*final(candidates))[i],
        ),
        forall|i: int, x: usize|
            0 <= i < rows(*final(candidates)).len() && #[trigger] rows(*final(candidates))[i].contains(
                x,
            ) ==> rows(*old(candidates))[i].contains(x),
        forall|i: int|
            0 <= i < rows(*final(candidates)).len() && i != u as int && i != v as int
                ==> #[trigger] rows(*final(candidates))[i] == rows(*old(candidates))[i],
        changed ==> population(rows(*final(candidates))) < population(rows(*old(candidates))),
        !changed ==> rows(*final(candidates)) == rows(*old(candidates)),
        !changed ==> dual_edge_ok(graph, rows(*final(candidates)), u as int, v as int),
        forall|m: Seq<usize>|
            #[trigger] cands_contain(rows(*old(candidates)), m) && graph.edge(
                m[u as int],
                m[v as int],
            ) ==> cands_contain(rows(*final(candidates)), m),
        dual_edge_ok(graph, rows(*old(candidates)), u as int, v as int) && rows(*old(candidates))[
            u as int
        ].len() > 0 ==> !changed,
{
    let ghost cs_pre = rows(*candidates);
    let ghost cu = cs_pre[u as int];
    let ghost cv = cs_pre[v as int];
    let ghost popA = population(cs_pre);
    candidates[u] = u_new;
    let ghost cs_mid = rows(*candidates);
    let ghost uv = cs_mid[u as int];
    proof {
        assert(cs_mid =~= cs_pre.update(u as int, uv));
        lemma_population_update(cs_pre, u as int, uv);
        assert(crate::sorted::sorted(cs_mid[v as int]));
    }
    let v_new = intersect_sorted(candidates[v].as_slice(), v_union.as_slice());
    let ghost cvm = cs_mid[v as int];
    let v_shrunk = v_new.len() < candidates[v].len();
    candidates[v] = v_new;
    let ghost cs_post = rows(*candidates);
    proof {
        assert(cs_post =~= cs_mid.update(v as int, v_new@));
        assert(cs_post =~= cs_pre.update(u as int, uv).update(v as int, v_new@));
        lemma_population_update(cs_mid, v as int, v_new@);
        assert forall|x: usize| #[trigger] v_new@.contains(x) implies cvm.contains(x) by {}
        crate::sorted::lemma_strict_subset_len(v_new@, cvm);
        assert forall|x: usize| #[trigger]
            v_new@.contains(x) <==> (cvm.contains(x) && v_union@.contains(x)) by {}
        lemma_writeback_shape(cs_pre, u as int, v as int, uv, v_new@, cvm);
        lemma_writeback_keeps(graph, cs_pre, u as int, v as int, uv, v_union@, v_new@, cvm);
        if !v_shrunk {
            assert(v_new@.len() == cvm.len());
            assert(v_new@ == cvm);
        } else {
            assert(population(cs_post) < population(cs_mid));
        }
        if !dropped && !v_shrunk {
            lemma_writeback_fixed(graph, cs_pre, u as int, v as int, uv, v_union@, v_new@, cvm);
        }
        if dual_edge_ok(graph, cs_pre, u as int, v as int) && cu.len() > 0 {
            lemma_writeback_idempotent(
                graph,
                cs_pre,
                u as int,
                v as int,
                uv,
                v_union@,
                v_new@,
                cvm,
            );
            assert(!dropped) by {
                if dropped {
                    assert(uv.len() < cu.len());
                }
            }
            assert(!v_shrunk);
        }
    }
    dropped || v_shrunk
}

/// Refines the candidate sets along one pattern edge `(u, v)`: drops the
/// candidates of `u` without a neighbor among the candidates of `v`, then
/// cuts the candidates of `v` down to the neighbors of the survivors.
/// Returns `(false, _)` when a set would become empty (the sets are then left
/// as they were), and whether anything shrank.
#[verifier::loop_isolation(false)]
#[verifier::spinoff_prover]
fn dual_refine_edge<T: Eq + Hash>(
    graph: &Graph<T>,
    candidates: &mut NestedVec,
    u: usize,
    v: usize,
) -> (res: (bool, bool))
    requires
        graph.wf(),
        u < rows(*old(candidates)).len(),
        v < rows(*old(candidates)).len(),
        forall|i: int| 0 <= i < rows(*old(candidates)).len() ==> strictly_sorted(
            #[trigger] rows(*old(candidates))[i],
        ),
        forall|i: int, t: int|
            0 <= i < rows(*old(candidates)).len() && 0 <= t < rows(*old(candidates))[i].len()
                ==> #[trigger] rows(*old(candidates))[i][t] < graph.node_cnt(),
    ensures
        rows(*final(candidates)).len() == rows(*old(candidates)).len(),
        forall|i: int| 0 <= i < rows(*final(candidates)).len() ==> strictly_sorted(
            #[trigger] rows(*final(candidates))[i],
        ),
        forall|i: int, x: usize|
            0 <= i < rows(*final(candidates)).len() && #[trigger] rows(*final(candidates))[i].contains(
                x,
            ) ==> rows(*old(candidates))[i].contains(x),
        forall|i: int|
            0 <= i < rows(*final(candidates)).len() && i != u as int && i != v as int
                ==> #[trigger] rows(*final(candidates))[i] == rows(*old(candidates))[i],
        res.1 ==> population(rows(*final(candidates))) < population(rows(*old(candidates))),
        !res.1 ==> rows(*final(candidates)) == rows(*old(candidates)),
        !res.0 ==> rows(*final(candidates)) == rows(*old(candidates)),
        res.0 && !res.1 ==> dual_edge_ok(graph, rows(*final(candidates)), u as int, v as int),
        forall|m: Seq<usize>|
            #[trigger] cands_contain(rows(*old(candidates)), m) && graph.edge(
                m[u as int],
                m[v as int],
            ) ==> res.0 && cands_contain(rows(*final(candidates)), m),
        dual_edge_ok(graph, rows(*old(candidates)), u as int, v as int) && rows(*old(candidates))[
            u as int
        ].len() > 0 ==> res.0 && !res.1,
        res.0 ==> rows(*old(candidates))[u as int].len() > 0,
{
    let ghost cs_pre = rows(*candidates);
    let ghost cu = cs_pre[u as int];
    let ghost cv = cs_pre[v as int];
    let (u_new, v_union, dropped) = dual_filter_edge(graph, candidates, u, v);
    if u_new.len() == 0 || v_union.len() == 0 {
        proof {
            // nothing with a graph edge across `(u, v)` is still contained
            assert forall|m: Seq<usize>|
                #[trigger] cands_contain(cs_pre, m) && graph.edge(m[u as int], m[v as int])
                implies false by {
                assert(cu.contains(m[u as int]));
                assert(cv.contains(m[v as int]));
                assert(has_edge_into(graph, cv, m[u as int]));
                let a = choose|a: int| 0 <= a < cu.len() && cu[a] == m[u as int];
                assert(u_new@.contains(cu[a]));
                assert(cu.contains(cu[a]) && graph.edge(cu[a], m[v as int]));
                assert(reached_from(graph, cu, m[v as int]));
                assert(v_union@.contains(m[v as int]));
            }
            if dual_edge_ok(graph, cs_pre, u as int, v as int) && cu.len() > 0 {
                assert forall|a: int| 0 <= a < cu.len() implies u_new@.contains(
                    #[trigger] cu[a],
                ) by {
                    assert(cu.contains(cu[a]));
                    assert(has_edge_into(graph, cv, cu[a]));
                }
                assert(u_new@.contains(cu[0]));
                assert(u_new@.len() > 0);
                assert(has_edge_into(graph, cv, cu[0]));
                let y = choose|y: usize| #[trigger] cv.contains(y) && graph.edge(cu[0], y);
                assert(cu.contains(cu[0]) && graph.edge(cu[0], y));
                assert(reached_from(graph, cu, y));
                assert(v_union@.contains(y));
                assert(false);
            }
        }
        return (false, false);
    }
    proof {
        assert(u_new@.contains(u_new@[0]));
        assert(cu.contains(u_new@[0]));
        assert(cu.len() > 0);
    }
    let changed = apply_edge_refinement(graph, candidates, u, v, u_new, v_union, dropped);
    (true, changed)
}

/// Refines the candidate sets by dual simulation: along every pattern edge
/// `(u, v)`, a candidate for `u` survives only if it has a neighbor among the
/// candidates for `v`, and the candidates for `v` are cut down to those such
/// neighbors; passes repeat until nothing changes. Returns false as soon as a
/// filtered set becomes empty, true on reaching the fixpoint.
///
/// Pruning never removes a candidate used by an edge-compatible assignment,
/// and an input already at the dual fixpoint comes back unchanged.
#[verifier::loop_isolation(false)]
#[verifier::spinoff_prover]
pub fn dual_simulation<T: Eq + Hash>(
    graph: &Graph<T>,
    pattern: &Graph<T>,
    candidates: &mut NestedVec,
) -> (r: bool)
    requires
        graph.wf(),
        pattern.wf(),
        valid_cands(graph, pattern, rows(*old(candidates))),
    ensures
        valid_cands(graph, pattern, rows(*final(candidates))),
        sub_cands(rows(*final(candidates)), rows(*old(candidates))),
        r ==> dual_fix(graph, pattern, rows(*final(candidates))),
        forall|m: Seq<usize>|
            #[trigger] edge_compat(graph, pattern, m) && cands_contain(rows(*old(candidates)), m)
                ==> r && cands_contain(rows(*final(candidates)), m),
        dual_fix(graph, pattern, rows(*old(candidates))) ==> rows(*final(candidates)) == rows(
            *old(candidates),
        ),
        dual_fix(graph, pattern, rows(*old(candidates))) && live_cands(
            pattern,
            rows(*old(candidates)),
        ) ==> r,
{
    let ghost c0 = rows(*old(candidates));
    proof {
        pattern.lemma_wf_shape();
    }
    let n = pattern.node_count();
    let mut updated = true;
    while updated
        invariant
            valid_cands(graph, pattern, rows(*candidates)),
            sub_cands(rows(*candidates), c0),
            forall|m: Seq<usize>|
                #[trigger] edge_compat(graph, pattern, m) && cands_contain(c0, m) ==> cands_contain(
                    rows(*candidates),
                    m,
                ),
            dual_fix(graph, pattern, c0) ==> rows(*candidates) == c0,
            !updated ==> dual_fix(graph, pattern, rows(*candidates)),
        decreases population(rows(*candidates)) + (if updated {
            1int
        } else {
            0int
        }),
    {
        updated = false;
        let ghost pass0 = rows(*candidates);
        let mut u: usize = 0;
        while u < n
            invariant
                u <= n,
                valid_cands(graph, pattern, rows(*candidates)),
                sub_cands(rows(*candidates), c0),
                forall|m: Seq<usize>|
                    #[trigger] edge_compat(graph, pattern, m) && cands_contain(c0, m)
                        ==> cands_contain(rows(*candidates), m),
                dual_fix(graph, pattern, c0) ==> rows(*candidates) == c0,
                population(rows(*candidates)) <= population(pass0),
                updated ==> population(rows(*candidates)) < population(pass0),
                !updated ==> rows(*candidates) == pass0 && dual_pass_checked(
                    graph,
                    pattern,
                    rows(*candidates),
                    u as int,
                    0,
                ),
            decreases n - u,
        {
            let pn = pattern.neighbors(u);
            let mut k: usize = 0;
            while k < pn.len()
                invariant
                    k <= pn@.len(),
                    valid_cands(graph, pattern, rows(*candidates)),
                    sub_cands(rows(*candidates), c0),
                    forall|m: Seq<usize>|
                        #[trigger] edge_compat(graph, pattern, m) && cands_contain(c0, m)
                            ==> cands_contain(rows(*candidates), m),
                    dual_fix(graph, pattern, c0) ==> rows(*candidates) == c0,
                    population(rows(*candidates)) <= population(pass0),
                    updated ==> population(rows(*candidates)) < population(pass0),
                    !updated ==> rows(*candidates) == pass0 && dual_pass_checked(
                        graph,
                        pattern,
                        rows(*candidates),
                        u as int,
                        k as int,
                    ),
                decreases pn@.len() - k,
            {
                let v = pn[k];
                let ghost cs_pre = rows(*candidates);
                proof {
                    if dual_fix(graph, pattern, c0) {
                        // the fixpoint holds of this very edge
                        assert(pattern.adj()[u as int][k as int] == v);
                        assert forall|x: usize| #[trigger] c0[u as int].contains(x) implies
                            has_edge_into(graph, c0[v as int], x) by {}
                        assert forall|y: usize| #[trigger] c0[v as int].contains(y) implies
                            reached_from(graph, c0[u as int], y) by {
                            assert(c0[pattern.adj()[u as int][k as int] as int].contains(y));
                        }
                        assert(dual_edge_ok(graph, c0, u as int, v as int));
                    }
                }
                let (ok, changed) = dual_refine_edge(graph, candidates, u, v);
                if !ok {
                    proof {
                        assert forall|m: Seq<usize>|
                            #[trigger] edge_compat(graph, pattern, m) && cands_contain(c0, m)
                            implies false by {
                            assert(cands_contain(cs_pre, m));
                            assert(pattern.adj()[u as int][k as int] == v);
                            assert(graph.edge(m[u as int], m[v as int]));
                        }
                        if dual_fix(graph, pattern, c0) && live_cands(pattern, c0) {
                            assert(pattern.adj()[u as int].len() > 0);
                            assert(c0[u as int].len() > 0);
                            assert(false);
                        }
                    }
                    return false;
                }
                if changed {
                    updated = true;
                }
                proof {
                    let ghost cs_post = rows(*candidates);
                    assert forall|i: int, t2: int|
                        0 <= i < cs_post.len() && 0 <= t2 < cs_post[i].len() implies #[trigger] cs_post[i][t2]
                        < graph.node_cnt() by {
                        assert(cs_post[i].contains(cs_post[i][t2]));
                        assert(cs_pre[i].contains(cs_post[i][t2]));
                    }
                    assert forall|m: Seq<usize>|
                        #[trigger] edge_compat(graph, pattern, m) && cands_contain(c0, m) implies
                        cands_contain(cs_post, m) by {
                        assert(cands_contain(cs_pre, m));
                        assert(pattern.adj()[u as int][k as int] == v);
                        assert(graph.edge(m[u as int], m[v as int]));
                    }
                    if !updated {
                        assert(!changed);
                        assert(cs_post == cs_pre);
                        assert(dual_edge_ok(graph, cs_post, u as int, v as int));
                        assert forall|k2: int|
                            #![trigger pattern.adj()[u as int][k2]]
                            0 <= k2 < k + 1 && k2 < pattern.adj()[u as int].len() implies
                            dual_edge_ok(
                            graph,
                            cs_post,
                            u as int,
                            pattern.adj()[u as int][k2] as int,
                        ) by {
                            if k2 == k as int {
                                assert(pattern.adj()[u as int][k2] == v);
                            }
                        }
                        assert(dual_pass_checked(graph, pattern, cs_post, u as int, k + 1));
                    }
                    if dual_fix(graph, pattern, c0) {
                        assert(cs_pre == c0);
                        assert(cs_pre[u as int].len() > 0);
                        assert(cs_post == cs_pre);
                    }
                }
                k += 1;
            }
            proof {
                if !updated {
                    assert forall|u2: int, k2: int|
                        #![trigger pattern.adj()[u2][k2]]
                        0 <= u2 < u + 1 && 0 <= k2 < pattern.adj()[u2].len() implies dual_edge_ok(
                        graph,
                        rows(*candidates),
                        u2,
                        pattern.adj()[u2][k2] as int,
                    ) by {
                        if u2 == u as int {
                            assert(pn@ == pattern.adj()[u as int]);
                        }
                    }
                    assert(dual_pass_checked(graph, pattern, rows(*candidates), u + 1, 0));
                }
            }
            u += 1;
        }
        proof {
            if !updated {
                let ghost cs = rows(*candidates);
                assert forall|u2: int, k2: int, x: usize|
                    #![trigger pattern.adj()[u2][k2], cs[u2].contains(x)]
                    0 <= u2 < cs.len() && 0 <= k2 < pattern.adj()[u2].len() && cs[u2].contains(x)
                    implies has_edge_into(graph, cs[pattern.adj()[u2][k2] as int], x) by {
                    assert(dual_edge_ok(graph, cs, u2, pattern.adj()[u2][k2] as int));
                }
                assert forall|u2: int, k2: int, y: usize|
                    #![trigger pattern.adj()[u2][k2], cs[pattern.adj()[u2][k2] as int].contains(y)]
                    0 <= u2 < cs.len() && 0 <= k2 < pattern.adj()[u2].len() && cs[pattern.adj()[u2][k2] as int].contains(
                        y,
                    ) implies reached_from(graph, cs[u2], y) by {
                    assert(dual_edge_ok(graph, cs, u2, pattern.adj()[u2][k2] as int));
                }
                assert(dual_fix(graph, pattern, rows(*candidates)));
            }
        }
    }
    true
}

/// Backtracking enumeration: pattern nodes are fixed in ascending order; the
/// sets at indices below `depth` are singletons, pairwise distinct. Appends to
/// `matches` exactly the matches that pick their value from every candidate
/// set.
#[verifier::loop_isolation(false)]
fn search<T: Eq + Hash>(
    graph: &Graph<T>,
    pattern: &Graph<T>,
    matches: &mut NestedVec,
    candidates: &NestedVec,
    depth: usize,
)
    requires
        graph.wf(),
        pattern.wf(),
        valid_cands(graph, pattern, rows(*candidates)),
        labels_ok(graph, pattern, rows(*candidates)),
        depth <= pattern.node_cnt(),
        forall|i: int| 0 <= i < depth ==> (#[trigger] rows(*candidates)[i]).len() == 1,
        forall|i: int, j: int|
            0 <= i < j < depth ==> rows(*candidates)[i][0] != rows(*candidates)[j][0],
        depth == pattern.node_cnt() && pattern.node_cnt() > 0 ==> simple_fix(
            graph,
            pattern,
            rows(*candidates),
        ),
    ensures
        rows(*final(matches)).len() >= rows(*old(matches)).len(),
        forall|t: int|
            0 <= t < rows(*old(matches)).len() ==> #[trigger] rows(*final(matches))[t] == rows(
                *old(matches),
            )[t],
        forall|t: int|
            rows(*old(matches)).len() <= t < rows(*final(matches)).len() ==> is_match(
                graph,
                pattern,
                #[trigger] rows(*final(matches))[t],
            ) && cands_contain(rows(*candidates), rows(*final(matches))[t]),
        forall|m: Seq<usize>|
            #[trigger] is_match(graph, pattern, m) && cands_contain(rows(*candidates), m)
                ==> exists|t: int|
                rows(*old(matches)).len() <= t < rows(*final(matches)).len() && rows(
                    *final(matches),
                )[t] == m,
        forall|t1: int, t2: int|
            rows(*old(matches)).len() <= t1 < t2 < rows(*final(matches)).len() ==> rows(
                *final(matches),
            )[t1] != rows(*final(matches))[t2],
        depth == pattern.node_cnt() ==> rows(*final(matches)).len() == rows(*old(matches)).len()
            + 1,
    decreases pattern.node_cnt() - depth,
{
    let ghost m0 = rows(*old(matches));
    proof {
        pattern.lemma_wf_shape();
    }
    if depth == pattern.node_count() {
        // every set is a pairwise-distinct singleton: the one possible match
        let mut m: Vec<usize> = Vec::new();
        let mut i: usize = 0;
        while i < depth
            invariant
                i <= depth,
                m@.len() == i,
                forall|t: int| 0 <= t < i ==> #[trigger] m@[t] == rows(*candidates)[t][0],
            decreases depth - i,
        {
            proof {
                assert(rows(*candidates)[i as int].len() == 1);
            }
            m.push(candidates[i][0]);
            i += 1;
        }
        proof {
            let mv = m@;
            assert forall|t: int| 0 <= t < mv.len() implies #[trigger] rows(*candidates)[t].contains(
                mv[t],
            ) by {
                assert(rows(*candidates)[t][0] == mv[t]);
            }
            assert(cands_contain(rows(*candidates), mv));
            assert forall|u: int, kk: int|
                #![trigger pattern.adj()[u][kk]]
                0 <= u < mv.len() && 0 <= kk < pattern.adj()[u].len() implies graph.edge(
                mv[u],
                mv[pattern.adj()[u][kk] as int],
            ) by {
                let v = pattern.adj()[u][kk];
                assert(rows(*candidates)[u].contains(mv[u]));
                assert(has_edge_into(graph, rows(*candidates)[v as int], mv[u]));
                let y = choose|y: usize| #[trigger]
                    rows(*candidates)[v as int].contains(y) && graph.edge(mv[u], y);
                let a = choose|a: int|
                    0 <= a < rows(*candidates)[v as int].len() && rows(*candidates)[v as int][a]
                        == y;
                assert(a == 0);
                assert(y == mv[v as int]);
            }
            assert forall|u1: int, u2: int|
                #![trigger mv[u1], mv[u2]]
                0 <= u1 < u2 < mv.len() implies mv[u1] != mv[u2] by {
                assert(rows(*candidates)[u1][0] != rows(*candidates)[u2][0]);
            }
            assert forall|u: int| #![trigger mv[u]] 0 <= u < mv.len() implies mv[u]
                < graph.node_cnt() && same_label(
                &graph.labels()[mv[u] as int],
                &pattern.labels()[u],
            ) by {
                assert(rows(*candidates)[u].contains(mv[u]));
            }
            assert(is_match(graph, pattern, mv));
            // any match the sets contain picks the same singletons
            assert forall|m2: Seq<usize>|
                #[trigger] is_match(graph, pattern, m2) && cands_contain(rows(*candidates), m2)
                implies m2 == mv by {
                assert forall|t: int| 0 <= t < m2.len() implies m2[t] == mv[t] by {
                    assert(rows(*candidates)[t].contains(m2[t]));
                    let a = choose|a: int|
                        0 <= a < rows(*candidates)[t].len() && rows(*candidates)[t][a] == m2[t];
                    assert(a == 0);
                }
                assert(m2 =~= mv);
            }
        }
        let ghost mv = m@;
        matches.push(m);
        proof {
            assert(rows(*matches).len() == m0.len() + 1);
            assert(rows(*matches)[m0.len() as int] == mv);
            assert forall|t: int| 0 <= t < m0.len() implies #[trigger] rows(*matches)[t] == m0[t] by {}
            assert forall|m2: Seq<usize>|
                #[trigger] is_match(graph, pattern, m2) && cands_contain(rows(*candidates), m2)
                implies exists|t2: int|
                m0.len() <= t2 < rows(*matches).len() && rows(*matches)[t2] == m2 by {
                assert(m2 == mv);
                assert(rows(*matches)[m0.len() as int] == m2);
            }
        }
        return ;
    }
    let cd_len = candidates[depth].len();
    let mut t: usize = 0;
    while t < cd_len
        invariant
            t <= cd_len,
            cd_len == rows(*candidates)[depth as int].len(),
            rows(*matches).len() >= m0.len(),
            forall|t2: int| 0 <= t2 < m0.len() ==> #[trigger] rows(*matches)[t2] == m0[t2],
            forall|t2: int|
                m0.len() <= t2 < rows(*matches).len() ==> is_match(
                    graph,
                    pattern,
                    #[trigger] rows(*matches)[t2],
                ) && cands_contain(rows(*candidates), rows(*matches)[t2]),
            forall|m2: Seq<usize>|
                #[trigger] is_match(graph, pattern, m2) && cands_contain(rows(*candidates), m2)
                    && (exists|a: int|
                    0 <= a < t && rows(*candidates)[depth as int][a] == m2[depth as int]) ==> exists|
                    t2: int,
                |
                    m0.len() <= t2 < rows(*matches).len() && rows(*matches)[t2] == m2,
            forall|t2: int|
                m0.len() <= t2 < rows(*matches).len() ==> exists|a: int|
                    0 <= a < t && (#[trigger] rows(*matches)[t2])[depth as int] == rows(
                        *candidates,
                    )[depth as int][a],
            forall|t1: int, t2: int|
                m0.len() <= t1 < t2 < rows(*matches).len() ==> rows(*matches)[t1] != rows(
                    *matches,
                )[t2],
        decreases cd_len - t,
    {
        let g_node = candidates[depth][t];
        // a graph node already fixed at a shallower depth cannot be reused
        let mut used = false;
        let mut i: usize = 0;
        while i < depth
            invariant
                i <= depth,
                used <==> exists|ii: int|
                    0 <= ii < i && (#[trigger] rows(*candidates)[ii])[0] == g_node,
            decreases depth - i,
        {
            proof {
                assert(rows(*candidates)[i as int].len() == 1);
            }
            if candidates[i][0] == g_node {
                proof {
                    assert(rows(*candidates)[i as int][0] == g_node);
                }
                used = true;
            }
            i += 1;
        }
        let ghost ms_before = rows(*matches);
        if !used {
            let mut new_candidates = copy_rows(candidates);
            let mut single: Vec<usize> = Vec::new();
            single.push(g_node);
            new_candidates[depth] = single;
            let ghost fixed = rows(new_candidates);
            proof {
                assert(fixed =~= rows(*candidates).update(depth as int, seq![g_node]));
                assert(rows(*candidates)[depth as int].contains(g_node)) by {
                    assert(rows(*candidates)[depth as int][t as int] == g_node);
                }
                assert forall|i2: int, x: usize|
                    0 <= i2 < fixed.len() && #[trigger] fixed[i2].contains(x) implies rows(
                    *candidates,
                )[i2].contains(x) by {
                    if i2 == depth as int {
                        assert(fixed[i2][0] == g_node);
                        let a = choose|a: int| 0 <= a < fixed[i2].len() && fixed[i2][a] == x;
                        assert(a == 0);
                    }
                }
            }
            if simple_simulation(graph, pattern, &mut new_candidates) {
                let ghost refined = rows(new_candidates);
                proof {
                    // the singletons below `depth + 1` survive with their
                    // values: a set with outgoing pattern edges stays
                    // non-empty, one without is untouched
                    assert forall|i2: int| 0 <= i2 < depth + 1 implies (#[trigger] refined[i2]).len()
                        == 1 && refined[i2][0] == fixed[i2][0] by {
                        if i2 < depth as int {
                            assert(rows(*candidates)[i2].len() == 1);
                            assert(fixed[i2] == rows(*candidates)[i2]);
                        } else {
                            assert(fixed[i2] == seq![g_node]);
                        }
                        assert(fixed[i2].len() == 1);
                        if pattern.adj()[i2].len() == 0 {
                            assert(refined[i2] == fixed[i2]);
                        } else {
                            assert(refined[i2].len() > 0);
                            assert(refined[i2].contains(refined[i2][0]));
                            assert(fixed[i2].contains(refined[i2][0]));
                            let b = choose|b: int|
                                0 <= b < fixed[i2].len() && fixed[i2][b] == refined[i2][0];
                            assert(b == 0);
                            assert(refined[i2][0] == fixed[i2][0]);
                            if refined[i2].len() >= 2 {
                                assert(refined[i2].contains(refined[i2][1]));
                                assert(fixed[i2].contains(refined[i2][1]));
                                let b2 = choose|b2: int|
                                    0 <= b2 < fixed[i2].len() && fixed[i2][b2] == refined[i2][1];
                                assert(b2 == 0);
                                assert(refined[i2][0] == refined[i2][1]);
                                assert(strictly_sorted(refined[i2]));
                                assert(false);
                            }
                        }
                    }
                    assert forall|i2: int, j2: int| 0 <= i2 < j2 < depth + 1 implies refined[i2][0]
                        != refined[j2][0] by {
                        if j2 < depth as int {
                            assert(rows(*candidates)[i2][0] != rows(*candidates)[j2][0]);
                            assert(fixed[i2][0] == rows(*candidates)[i2][0]);
                            assert(fixed[j2][0] == rows(*candidates)[j2][0]);
                        } else {
                            assert(fixed[j2][0] == g_node);
                            assert(fixed[i2][0] == rows(*candidates)[i2][0]);
                            assert(!(exists|ii: int|
                                0 <= ii < depth && (#[trigger] rows(*candidates)[ii])[0]
                                    == g_node));
                        }
                    }
                    // labels survive shrinking
                    assert forall|i2: int, x: usize|
                        0 <= i2 < refined.len() && #[trigger] refined[i2].contains(x) implies x
                        < graph.node_cnt() && same_label(
                        &graph.labels()[x as int],
                        &pattern.labels()[i2],
                    ) by {
                        assert(fixed[i2].contains(x));
                        assert(rows(*candidates)[i2].contains(x));
                    }
                }
                search(graph, pattern, matches, &new_candidates, depth + 1);
                proof {
                    // matches appended below are contained in the shrunk sets,
                    // hence in ours
                    assert forall|t2: int|
                        m0.len() <= t2 < rows(*matches).len() implies is_match(
                        graph,
                        pattern,
                        #[trigger] rows(*matches)[t2],
                    ) && cands_contain(rows(*candidates), rows(*matches)[t2]) by {
                        if t2 >= ms_before.len() {
                            let m2 = rows(*matches)[t2];
                            assert(cands_contain(refined, m2));
                            assert forall|i2: int| 0 <= i2 < rows(*candidates).len() implies (
                            #[trigger] rows(*candidates)[i2]).contains(m2[i2]) by {
                                assert(refined[i2].contains(m2[i2]));
                                assert(fixed[i2].contains(m2[i2]));
                            }
                        }
                    }
                    // every new row fixes `g_node` at this depth
                    assert forall|t2: int|
                        m0.len() <= t2 < rows(*matches).len() implies exists|a: int|
                        0 <= a < t + 1 && (#[trigger] rows(*matches)[t2])[depth as int] == rows(
                            *candidates,
                        )[depth as int][a] by {
                        if t2 < ms_before.len() {
                            assert(rows(*matches)[t2] == ms_before[t2]);
                            let a = choose|a: int|
                                0 <= a < t && (ms_before[t2])[depth as int] == rows(*candidates)[
                                    depth as int
                                ][a];
                            assert(0 <= a < t + 1 && (rows(*matches)[t2])[depth as int] == rows(
                                *candidates,
                            )[depth as int][a]);
                        } else {
                            let m2 = rows(*matches)[t2];
                            assert(cands_contain(refined, m2));
                            assert(refined[depth as int].contains(m2[depth as int]));
                            let b = choose|b: int|
                                0 <= b < refined[depth as int].len() && refined[depth as int][b]
                                    == m2[depth as int];
                            assert(b == 0);
                            assert(m2[depth as int] == g_node);
                            assert(0 <= t < t + 1 && m2[depth as int] == rows(*candidates)[
                                depth as int
                            ][t as int]);
                        }
                    }
                    // rows from different branches differ at this depth;
                    // rows from one branch differ by the recursion's promise
                    assert forall|t1: int, t2: int|
                        m0.len() <= t1 < t2 < rows(*matches).len() implies rows(*matches)[t1]
                        != rows(*matches)[t2] by {
                        if t2 < ms_before.len() {
                            assert(rows(*matches)[t1] == ms_before[t1]);
                            assert(rows(*matches)[t2] == ms_before[t2]);
                        } else if t1 < ms_before.len() {
                            assert(rows(*matches)[t1] == ms_before[t1]);
                            let a = choose|a: int|
                                0 <= a < t && (ms_before[t1])[depth as int] == rows(*candidates)[
                                    depth as int
                                ][a];
                            let m2 = rows(*matches)[t2];
                            assert(cands_contain(refined, m2));
                            assert(refined[depth as int].contains(m2[depth as int]));
                            let b = choose|b: int|
                                0 <= b < refined[depth as int].len() && refined[depth as int][b]
                                    == m2[depth as int];
                            assert(b == 0);
                            assert(m2[depth as int] == g_node);
                            assert(rows(*candidates)[depth as int][a] < rows(*candidates)[
                                depth as int
                            ][t as int]);
                            assert(rows(*matches)[t1][depth as int] != m2[depth as int]);
                        }
                    }
                    // progress: matches through `g_node` are now all emitted
                    assert forall|m2: Seq<usize>|
                        #[trigger] is_match(graph, pattern, m2) && cands_contain(
                            rows(*candidates),
                            m2,
                        ) && (exists|a: int|
                            0 <= a < t + 1 && rows(*candidates)[depth as int][a] == m2[depth as int])
                        implies exists|t2: int|
                        m0.len() <= t2 < rows(*matches).len() && rows(*matches)[t2] == m2 by {
                        let a = choose|a: int|
                            0 <= a < t + 1 && rows(*candidates)[depth as int][a] == m2[depth as int];
                        if a < t {
                            let t2 = choose|t2: int|
                                m0.len() <= t2 < ms_before.len() && ms_before[t2] == m2;
                            assert(rows(*matches)[t2] == m2);
                        } else {
                            // m2 fixes g_node at depth: it is contained in the
                            // fixed sets, survives simulation, and was found
                            // by the recursive call
                            assert(m2[depth as int] == g_node);
                            assert forall|i2: int| 0 <= i2 < fixed.len() implies (
                            #[trigger] fixed[i2]).contains(m2[i2]) by {
                                if i2 == depth as int {
                                    assert(fixed[i2][0] == g_node);
                                } else {
                                    assert(rows(*candidates)[i2].contains(m2[i2]));
                                }
                            }
                            assert(cands_contain(fixed, m2));
                            assert(edge_compat(graph, pattern, m2));
                            assert(cands_contain(refined, m2));
                            let t2 = choose|t2: int|
                                ms_before.len() <= t2 < rows(*matches).len() && rows(*matches)[t2]
                                    == m2;
                            assert(rows(*matches)[t2] == m2);
                        }
                    }
                }
            } else {
                proof {
                    assert forall|t2: int|
                        m0.len() <= t2 < rows(*matches).len() implies exists|a: int|
                        0 <= a < t + 1 && (#[trigger] rows(*matches)[t2])[depth as int] == rows(
                            *candidates,
                        )[depth as int][a] by {
                        let a = choose|a: int|
                            0 <= a < t && (rows(*matches)[t2])[depth as int] == rows(*candidates)[
                                depth as int
                            ][a];
                        assert(0 <= a < t + 1);
                    }
                    // simulation emptied a set: nothing containable fixes
                    // `g_node` at this depth
                    assert forall|m2: Seq<usize>|
                        #[trigger] is_match(graph, pattern, m2) && cands_contain(
                            rows(*candidates),
                            m2,
                        ) && (exists|a: int|
                            0 <= a < t + 1 && rows(*candidates)[depth as int][a] == m2[depth as int])
                        implies exists|t2: int|
                        m0.len() <= t2 < rows(*matches).len() && rows(*matches)[t2] == m2 by {
                        let a = choose|a: int|
                            0 <= a < t + 1 && rows(*candidates)[depth as int][a] == m2[depth as int];
                        if a < t {
                        } else {
                            assert(m2[depth as int] == g_node);
                            assert forall|i2: int| 0 <= i2 < fixed.len() implies (
                            #[trigger] fixed[i2]).contains(m2[i2]) by {
                                if i2 == depth as int {
                                    assert(fixed[i2][0] == g_node);
                                } else {
                                    assert(rows(*candidates)[i2].contains(m2[i2]));
                                }
                            }
                            assert(cands_contain(fixed, m2));
                            assert(edge_compat(graph, pattern, m2));
                            assert(false);
                        }
                    }
                }
            }
        } else {
            proof {
                assert forall|t2: int|
                    m0.len() <= t2 < rows(*matches).len() implies exists|a: int|
                    0 <= a < t + 1 && (#[trigger] rows(*matches)[t2])[depth as int] == rows(
                        *candidates,
                    )[depth as int][a] by {
                    let a = choose|a: int|
                        0 <= a < t && (rows(*matches)[t2])[depth as int] == rows(*candidates)[
                            depth as int
                        ][a];
                    assert(0 <= a < t + 1);
                }
                // `g_node` equals an already-fixed singleton: an injective
                // match cannot reuse it
                assert forall|m2: Seq<usize>|
                    #[trigger] is_match(graph, pattern, m2) && cands_contain(rows(*candidates), m2)
                        && (exists|a: int|
                        0 <= a < t + 1 && rows(*candidates)[depth as int][a] == m2[depth as int])
                    implies exists|t2: int|
                    m0.len() <= t2 < rows(*matches).len() && rows(*matches)[t2] == m2 by {
                    let a = choose|a: int|
                        0 <= a < t + 1 && rows(*candidates)[depth as int][a] == m2[depth as int];
                    if a < t {
                    } else {
                        assert(m2[depth as int] == g_node);
                        let ii = choose|ii: int|
                            0 <= ii < depth && (#[trigger] rows(*candidates)[ii])[0] == g_node;
                        assert(rows(*candidates)[ii].contains(m2[ii]));
                        let b = choose|b: int|
                            0 <= b < rows(*candidates)[ii].len() && rows(*candidates)[ii][b]
                                == m2[ii];
                        assert(b == 0);
                        assert(m2[ii] == g_node);
                        assert(m2[ii] != m2[depth as int]);
                        assert(false);
                    }
                }
            }
        }
        t += 1;
    }
    proof {
        assert forall|m2: Seq<usize>|
            #[trigger] is_match(graph, pattern, m2) && cands_contain(rows(*candidates), m2)
            implies exists|t2: int|
            m0.len() <= t2 < rows(*matches).len() && rows(*matches)[t2] == m2 by {
            assert(rows(*candidates)[depth as int].contains(m2[depth as int]));
            let a = choose|a: int|
                0 <= a < rows(*candidates)[depth as int].len() && rows(*candidates)[depth as int][a]
                    == m2[depth as int];
            assert(0 <= a < cd_len && rows(*candidates)[depth as int][a] == m2[depth as int]);
        }
    }
}

/// Finds every embedding of `pattern` in `graph`, pruning candidates with
/// simple simulation before and during the backtracking search. The result
/// lists exactly the label-preserving, edge-preserving, injective assignments,
/// one row per match, in discovery order.
pub fn simple_iso<T: Eq + Hash>(graph: &Graph<T>, pattern: &Graph<T>) -> (r: NestedVec)
    requires
        graph.wf(),
        pattern.wf(),
        label_eq_ok::<T>(),
    ensures
        forall|t: int| 0 <= t < rows(r).len() ==> is_match(graph, pattern, #[trigger] rows(r)[t]),
        forall|m: Seq<usize>| #[trigger]
            is_match(graph, pattern, m) ==> exists|t: int| 0 <= t < rows(r).len() && rows(r)[t]
                == m,
        forall|t1: int, t2: int| 0 <= t1 < t2 < rows(r).len() ==> rows(r)[t1] != rows(r)[t2],
        pattern.node_cnt() == 0 ==> rows(r).len() == 1,
{
    let mut matches: NestedVec = Vec::new();
    let mut initial_candidates = init_candidates(graph, pattern);
    let ghost c_init = rows(initial_candidates);

    simple_simulation(graph, pattern, &mut initial_candidates);
    proof {
        lemma_matches_contained(graph, pattern, c_init);
    }
    search(graph, pattern, &mut matches, &initial_candidates, 0);
    matches
}

/// Finds every embedding of `pattern` in `graph`, pruning candidates with
/// dual simulation before the backtracking search. Dual simulation prunes
/// more aggressively than simple simulation, but the result is the same: the
/// rows are exactly the label-preserving, edge-preserving, injective
/// assignments, in discovery order.
pub fn dual_iso<T: Eq + Hash>(graph: &Graph<T>, pattern: &Graph<T>) -> (r: NestedVec)
    requires
        graph.wf(),
        pattern.wf(),
        label_eq_ok::<T>(),
    ensures
        forall|t: int| 0 <= t < rows(r).len() ==> is_match(graph, pattern, #[trigger] rows(r)[t]),
        forall|m: Seq<usize>| #[trigger]
            is_match(graph, pattern, m) ==> exists|t: int| 0 <= t < rows(r).len() && rows(r)[t]
                == m,
        forall|t1: int, t2: int| 0 <= t1 < t2 < rows(r).len() ==> rows(r)[t1] != rows(r)[t2],
        pattern.node_cnt() == 0 ==> rows(r).len() == 1,
{
    let mut matches: NestedVec = Vec::new();
    let mut initial_candidates = init_candidates(graph, pattern);
    let ghost c_init = rows(initial_candidates);

    dual_simulation(graph, pattern, &mut initial_candidates);
    proof {
        lemma_matches_contained(graph, pattern, c_init);
    }
    search(graph, pattern, &mut matches, &initial_candidates, 0);
    matches
}

/// Stronger pruning does not change the answer: two duplicate-free match
/// lists that each hold exactly the matches of one `(graph, pattern)` pair —
/// as the contracts of `simple_iso` and `dual_iso` both guarantee of their
/// results — hold the same set of rows and the same number of them, whatever
/// their order.
pub proof fn lemma_same_match_set<T: PartialEq>(
    graph: &Graph<T>,
    pattern: &Graph<T>,
    a: Seq<Seq<usize>>,
    b: Seq<Seq<usize>>,
)
    requires
        forall|t: int| 0 <= t < a.len() ==> is_match(graph, pattern, #[trigger] a[t]),
        forall|m: Seq<usize>| #[trigger] is_match(graph, pattern, m) ==> a.contains(m),
        forall|t1: int, t2: int| 0 <= t1 < t2 < a.len() ==> a[t1] != a[t2],
        forall|t: int| 0 <= t < b.len() ==> is_match(graph, pattern, #[trigger] b[t]),
        forall|m: Seq<usize>| #[trigger] is_match(graph, pattern, m) ==> b.contains(m),
        forall|t1: int, t2: int| 0 <= t1 < t2 < b.len() ==> b[t1] != b[t2],
    ensures
        a.to_set() == b.to_set(),
        a.len() == b.len(),
{
    assert forall|m: Seq<usize>| #[trigger] a.to_set().contains(m) implies b.to_set().contains(
        m,
    ) by {
        let t = choose|t: int| 0 <= t < a.len() && a[t] == m;
        assert(is_match(graph, pattern, m));
        assert(b.contains(m));
        let t2 = choose|t2: int| 0 <= t2 < b.len() && b[t2] == m;
        assert(b.to_set().contains(b[t2]));
    }
    assert forall|m: Seq<usize>| #[trigger] b.to_set().contains(m) implies a.to_set().contains(
        m,
    ) by {
        let t = choose|t: int| 0 <= t < b.len() && b[t] == m;
        assert(is_match(graph, pattern, m));
        assert(a.contains(m));
        let t2 = choose|t2: int| 0 <= t2 < a.len() && a[t2] == m;
        assert(a.to_set().contains(a[t2]));
    }
    assert(a.to_set() =~= b.to_set());
    assert(a.no_duplicates());
    assert(b.no_duplicates());
    a.unique_seq_to_set();
    b.unique_seq_to_set();
}

/// Every match picks its values from candidate sets that hold, for each
/// pattern node, all graph nodes with that node's label.
proof fn lemma_matches_contained<T: PartialEq>(
    graph: &Graph<T>,
    pattern: &Graph<T>,
    cs: Seq<Seq<usize>>,
)
    requires
        cs.len() == pattern.node_cnt(),
        forall|i: int, x: usize|
            0 <= i < pattern.node_cnt() && x < graph.node_cnt() && same_label(
                &graph.labels()[x as int],
                &pattern.labels()[i],
            ) ==> #[trigger] cs[i].contains(x),
    ensures
        forall|m: Seq<usize>| #[trigger]
            is_match(graph, pattern, m) ==> cands_contain(cs, m),
{
    assert forall|m: Seq<usize>| #[trigger]
        is_match(graph, pattern, m) implies cands_contain(cs, m) by {
        assert forall|i: int| 0 <= i < cs.len() implies #[trigger] cs[i].contains(m[i]) by {
            assert(m[i] < graph.node_cnt());
            assert(same_label(&graph.labels()[m[i] as int], &pattern.labels()[i]));
        }
    }
}

} // verus!
