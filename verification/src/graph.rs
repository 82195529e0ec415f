//! The dependency graph and its builder.
//!
//! A `GraphBuilder` accumulates node payloads and per-node dependency-index
//! lists; `build` freezes them into an immutable `Graph`, deriving the
//! reverse adjacency (for each node, who depends on it). Nodes are known by
//! their creation index alone.

use vstd::prelude::*;
use crate::count::count_in_row;
use crate::count::count_in_row_upto;
use crate::count::edges_into;
use crate::count::edges_into_upto;
use crate::count::lemma_count_absent;
use crate::count::lemma_count_push;
use crate::count::lemma_sorted_counts_equal;
use crate::count::enabled_into;
use crate::count::lemma_edges_into_push;
use crate::count::lemma_enabled_into_all_clear;
use crate::count::lemma_enabled_into_disable;
use crate::count::lemma_enabled_into_none;
use crate::count::lemma_enabled_into_positive;
use crate::count::lemma_sum_bound;
use crate::count::lemma_sum_positive;
use crate::count::lemma_sum_update;
use crate::count::lemma_sum_zero;
use crate::count::sum_all;
use crate::count::sum_upto;
use crate::history::History;
use crate::order::acyclic;
use crate::order::is_permutation_of;
use crate::order::lemma_bounded_nodup_len;
use crate::order::lemma_complete_nodup_len;
use crate::order::lemma_push_contains;
use crate::order::lemma_push_nodup;
use crate::order::respects_deps;
use crate::order::stuck_set;

verus! {

/// The sequence of rows a vector of vectors stands for.
pub open spec fn rows_view(rows: Seq<Vec<usize>>) -> Seq<Seq<usize>> {
    rows.map_values(|r: Vec<usize>| r@)
}

/// The sequence of flag rows a vector of vectors stands for.
pub open spec fn flags_view(rows: Seq<Vec<bool>>) -> Seq<Seq<bool>> {
    rows.map_values(|r: Vec<bool>| r@)
}

/// `outs` is a reverse adjacency for `deps`: both index the same nodes, all
/// entries are in range, the number of edges into each node `t` (occurrences
/// of `t` across `outs`) matches `t`'s dependency count, each node `i`
/// occurs in `d`'s reverse list as often as `d` occurs in `i`'s dependency
/// list, and the two relations agree on membership in either direction.
pub open spec fn is_transpose_of(outs: Seq<Seq<usize>>, deps: Seq<Seq<usize>>) -> bool {
    &&& outs.len() == deps.len()
    &&& forall|i: int, k: int| #![trigger deps[i][k]]
        0 <= i < deps.len() && 0 <= k < deps[i].len() ==> (deps[i][k] as int) < deps.len()
    &&& forall|f: int, j: int| #![trigger outs[f][j]]
        0 <= f < outs.len() && 0 <= j < outs[f].len() ==> (outs[f][j] as int) < outs.len()
    &&& forall|t: int| 0 <= t < deps.len() ==> edges_into(outs, t) == deps[t].len()
    &&& forall|d: int, i: int| #![trigger count_in_row(outs[d], i)]
        0 <= d < outs.len() && 0 <= i < deps.len() ==> count_in_row(outs[d], i) == count_in_row(
            deps[i],
            d,
        )
    &&& forall|i: int, k: int| #![trigger deps[i][k]]
        0 <= i < deps.len() && 0 <= k < deps[i].len() ==> outs[deps[i][k] as int].contains(
            i as usize,
        )
    &&& forall|f: int, j: int| #![trigger outs[f][j]]
        0 <= f < outs.len() && 0 <= j < outs[f].len() ==> deps[outs[f][j] as int].contains(
            f as usize,
        )
}

/// Every row lists its entries in nondecreasing order.
pub open spec fn sorted_rows(rows: Seq<Seq<usize>>) -> bool {
    forall|t: int, j1: int, j2: int| #![trigger rows[t][j1], rows[t][j2]]
        0 <= t < rows.len() && 0 <= j1 <= j2 < rows[t].len() ==> rows[t][j1] <= rows[t][j2]
}

/// The dependency lists determine the reverse adjacency: any two reverse
/// tables of the same lists, both with nondecreasing rows, are equal.
pub proof fn lemma_reverse_table_unique(
    outs1: Seq<Seq<usize>>,
    outs2: Seq<Seq<usize>>,
    deps: Seq<Seq<usize>>,
)
    requires
        is_transpose_of(outs1, deps),
        is_transpose_of(outs2, deps),
        sorted_rows(outs1),
        sorted_rows(outs2),
    ensures
        outs1 == outs2,
{
    let n = deps.len() as int;
    assert forall|d: int| 0 <= d < n implies outs1[d] == outs2[d] by {
        assert forall|v: int| #[trigger] count_in_row(outs1[d], v) == count_in_row(
            outs2[d],
            v,
        ) by {
            if 0 <= v < n {
                assert(count_in_row(outs1[d], v) == count_in_row(deps[v], d));
                assert(count_in_row(outs2[d], v) == count_in_row(deps[v], d));
            } else {
                assert forall|p: int| 0 <= p < outs1[d].len() implies outs1[d][p] != v by {
                    assert((outs1[d][p] as int) < n);
                }
                assert forall|p: int| 0 <= p < outs2[d].len() implies outs2[d][p] != v by {
                    assert((outs2[d][p] as int) < n);
                }
                lemma_count_absent(outs1[d], v, outs1[d].len() as int);
                lemma_count_absent(outs2[d], v, outs2[d].len() as int);
            }
        }
        lemma_sorted_counts_equal(outs1[d], outs2[d]);
    }
    assert(outs1 =~= outs2);
}

/// An immutable dependency graph: payloads, dependency lists, and the
/// derived reverse adjacency. Built by `GraphBuilder::build` and never
/// mutated afterwards.
pub struct Graph<T> {
    nodes: Vec<T>,
    inb: Vec<Vec<usize>>,
    out: Vec<Vec<usize>>,
}

impl<T> Graph<T> {
    /// The node payloads in creation order.
    pub closed spec fn payloads(&self) -> Seq<T> {
        self.nodes@
    }

    /// The dependency lists: `deps()[i]` holds the indices node `i` depends on.
    pub closed spec fn deps(&self) -> Seq<Seq<usize>> {
        rows_view(self.inb@)
    }

    /// The reverse adjacency: `rdeps()[d]` holds the nodes that depend on `d`.
    pub closed spec fn rdeps(&self) -> Seq<Seq<usize>> {
        rows_view(self.out@)
    }

    /// How many nodes the graph holds.
    pub closed spec fn node_count(&self) -> int {
        self.nodes@.len() as int
    }

    /// Internal consistency: one dependency list and one reverse list per
    /// node, and the reverse adjacency is exactly the transpose of the
    /// dependency lists.
    pub closed spec fn wf(&self) -> bool {
        &&& self.deps().len() == self.node_count()
        &&& self.rdeps().len() == self.node_count()
        &&& is_transpose_of(self.rdeps(), self.deps())
    }

    /// The size views of a well-formed graph agree.
    pub proof fn lemma_wf_sizes(&self)
        requires
            self.wf(),
        ensures
            self.payloads().len() == self.node_count(),
            self.deps().len() == self.node_count(),
            self.rdeps().len() == self.node_count(),
    {
    }

    /// The number of nodes.
    pub fn len(&self) -> (n: usize)
        ensures
            n as int == self.node_count(),
    {
        self.nodes.len()
    }

    /// The payload of the node created as index `idx`.
    pub fn node(&self, idx: usize) -> (v: &T)
        requires
            (idx as int) < self.node_count(),
        ensures
            *v == self.payloads()[idx as int],
    {
        &self.nodes[idx]
    }
}

/// A mutable staging structure: payloads plus per-node dependency-index
/// lists. Dependencies may still be appended to existing nodes; `build`
/// consumes the builder and hands off the immutable graph.
pub struct GraphBuilder<T> {
    nodes: Vec<T>,
    dependencies: Vec<Vec<usize>>,
}

impl<T> Default for GraphBuilder<T> {
    /// An empty builder: no nodes, no dependency lists.
    fn default() -> (r: Self)
        ensures
            r.wf(),
            r.node_count() == 0,
            r.values().len() == 0,
            r.dep_lists().len() == 0,
    {
        GraphBuilder { nodes: Vec::new(), dependencies: Vec::new() }
    }
}

impl<T> GraphBuilder<T> {
    /// The payloads staged so far, in creation order.
    pub closed spec fn values(&self) -> Seq<T> {
        self.nodes@
    }

    /// The dependency lists staged so far.
    pub closed spec fn dep_lists(&self) -> Seq<Seq<usize>> {
        rows_view(self.dependencies@)
    }

    /// How many nodes have been staged.
    pub closed spec fn node_count(&self) -> int {
        self.nodes@.len() as int
    }

    /// One dependency list per node, every listed index already created.
    pub closed spec fn wf(&self) -> bool {
        &&& self.dep_lists().len() == self.node_count()
        &&& forall|i: int, k: int| #![trigger self.dep_lists()[i][k]]
            0 <= i < self.dep_lists().len() && 0 <= k < self.dep_lists()[i].len() ==> (
            self.dep_lists()[i][k] as int) < self.node_count()
    }

    /// The size views of a well-formed builder agree.
    pub proof fn lemma_wf_sizes(&self)
        requires
            self.wf(),
        ensures
            self.values().len() == self.node_count(),
            self.dep_lists().len() == self.node_count(),
    {
    }

    /// Appends a new node with the given payload and initial dependency
    /// list; the node's index is the number of nodes created before it.
    /// Every dependency must name an already-created node.
    pub fn add_node(&mut self, value: T, dependencies: Vec<usize>) -> (idx: usize)
        requires
            old(self).wf(),
            forall|k: int|
                0 <= k < dependencies@.len() ==> (dependencies@[k] as int) < old(
                    self,
                ).node_count(),
        ensures
            final(self).wf(),
            idx as int == old(self).node_count(),
            final(self).node_count() == old(self).node_count() + 1,
            final(self).values() == old(self).values().push(value),
            final(self).dep_lists() == old(self).dep_lists().push(dependencies@),
    {
        let idx = self.nodes.len();
        self.nodes.push(value);
        proof {
            assert(rows_view(self.dependencies@.push(dependencies)) =~= rows_view(
                self.dependencies@,
            ).push(dependencies@));
        }
        self.dependencies.push(dependencies);
        idx
    }

    /// Appends further dependencies to the already-created node `idx`,
    /// supporting a later-created node retroactively becoming a dependency
    /// of an earlier one. Every index involved must already exist.
    pub fn add_deps(&mut self, idx: usize, deps: Vec<usize>)
        requires
            old(self).wf(),
            (idx as int) < old(self).node_count(),
            forall|k: int| 0 <= k < deps@.len() ==> (deps@[k] as int) < old(self).node_count(),
        ensures
            final(self).wf(),
            final(self).node_count() == old(self).node_count(),
            final(self).values() == old(self).values(),
            final(self).dep_lists() == old(self).dep_lists().update(
                idx as int,
                old(self).dep_lists()[idx as int] + deps@,
            ),
    {
        let ghost orig = self.dep_lists();
        let mut k: usize = 0;
        while k < deps.len()
            invariant
                k <= deps@.len(),
                (idx as int) < orig.len(),
                orig.len() == self.nodes@.len(),
                self.dependencies@.len() == orig.len(),
                forall|k2: int| 0 <= k2 < deps@.len() ==> (deps@[k2] as int) < orig.len(),
                self.dep_lists() == orig.update(
                    idx as int,
                    orig[idx as int] + deps@.take(k as int),
                ),
                forall|i: int, k2: int| #![trigger orig[i][k2]]
                    0 <= i < orig.len() && 0 <= k2 < orig[i].len() ==> (orig[i][k2] as int)
                        < orig.len(),
                self.values() == old(self).values(),
            decreases deps@.len() - k,
        {
            let d = deps[k];
            let ghost before = self.dep_lists();
            self.dependencies[idx].push(d);
            proof {
                assert(rows_view(self.dependencies@) =~= before.update(
                    idx as int,
                    before[idx as int].push(d),
                ));
                assert(orig[idx as int] + deps@.take(k as int + 1) =~= (orig[idx as int]
                    + deps@.take(k as int)).push(d));
                assert(self.dep_lists() =~= orig.update(
                    idx as int,
                    orig[idx as int] + deps@.take(k as int + 1),
                ));
            }
            k = k + 1;
        }
        proof {
            assert(deps@.take(deps@.len() as int) =~= deps@);
            assert(self.dep_lists() =~= orig.update(idx as int, orig[idx as int] + deps@));
            assert forall|i: int, k2: int| #![trigger self.dep_lists()[i][k2]]
                0 <= i < self.dep_lists().len() && 0 <= k2 < self.dep_lists()[i].len() implies (
            self.dep_lists()[i][k2] as int) < self.node_count() by {
                if i == idx as int {
                    let row = orig[idx as int] + deps@;
                    if k2 < orig[idx as int].len() {
                        assert(row[k2] == orig[idx as int][k2]);
                    } else {
                        assert(row[k2] == deps@[k2 - orig[idx as int].len()]);
                    }
                }
            }
        }
    }

    /// Consumes the builder and materializes the immutable graph, deriving
    /// the reverse adjacency: for every node `i` and every dependency `d`
    /// of `i`, the reverse list of `d` gains `i`. Reverse lists come out
    /// sorted by depending node, so the result is deterministic.
    pub fn build(self) -> (g: Graph<T>)
        requires
            self.wf(),
        ensures
            g.wf(),
            g.node_count() == self.node_count(),
            g.payloads() == self.values(),
            g.deps() == self.dep_lists(),
            is_transpose_of(g.rdeps(), g.deps()),
            sorted_rows(g.rdeps()),
    {
        let GraphBuilder { nodes, dependencies } = self;
        let ghost deps = rows_view(dependencies@);
        let n = dependencies.len();

        let mut outward: Vec<Vec<usize>> = Vec::new();
        while outward.len() < n
            invariant
                outward@.len() <= n,
                forall|f: int| 0 <= f < outward@.len() ==> rows_view(outward@)[f].len() == 0,
            decreases n - outward@.len(),
        {
            let ghost before = outward@;
            outward.push(Vec::new());
            proof {
                assert forall|f: int| 0 <= f < outward@.len() implies rows_view(
                    outward@,
                )[f].len() == 0 by {
                    if f < before.len() {
                        assert(rows_view(before)[f].len() == 0);
                    }
                }
            }
        }

        proof {
            assert forall|t: int| 0 <= t < n implies edges_into(rows_view(outward@), t) == 0 by {
                crate::count::lemma_edges_into_empty(rows_view(outward@), t, n as int);
            }
            assert forall|d: int, i: int| 0 <= d < n && 0 <= i < n implies #[trigger] count_in_row(
                rows_view(outward@)[d],
                i,
            ) == 0 by {
                assert(rows_view(outward@)[d].len() == 0);
            }
        }
        let mut from: usize = 0;
        while from < n
            invariant
                from <= n,
                n == deps.len(),
                deps == rows_view(dependencies@),
                outward@.len() == n,
                forall|i: int, k: int| #![trigger deps[i][k]]
                    0 <= i < n && 0 <= k < deps[i].len() ==> (deps[i][k] as int) < n,
                forall|f: int, j: int| #![trigger rows_view(outward@)[f][j]]
                    0 <= f < n && 0 <= j < rows_view(outward@)[f].len() ==> (rows_view(
                        outward@,
                    )[f][j] as int) < from,
                forall|t: int|
                    0 <= t < n ==> edges_into(rows_view(outward@), t) == if t < from {
                        deps[t].len() as int
                    } else {
                        0int
                    },
                forall|d: int, i: int| #![trigger count_in_row(rows_view(outward@)[d], i)]
                    0 <= d < n && 0 <= i < n ==> count_in_row(rows_view(outward@)[d], i) == if i
                        < from {
                        count_in_row(deps[i], d)
                    } else {
                        0int
                    },
                forall|i: int, k: int| #![trigger deps[i][k]]
                    0 <= i < from && 0 <= k < deps[i].len() ==> rows_view(
                        outward@,
                    )[deps[i][k] as int].contains(i as usize),
                forall|f: int, j: int| #![trigger rows_view(outward@)[f][j]]
                    0 <= f < n && 0 <= j < rows_view(outward@)[f].len() ==> deps[rows_view(
                        outward@,
                    )[f][j] as int].contains(f as usize),
                forall|t: int, j1: int, j2: int|
                    #![trigger rows_view(outward@)[t][j1], rows_view(outward@)[t][j2]]
                    0 <= t < n && 0 <= j1 <= j2 < rows_view(outward@)[t].len() ==> rows_view(
                        outward@,
                    )[t][j1] <= rows_view(outward@)[t][j2],
            decreases n - from,
        {
            let row_len = dependencies[from].len();
            let mut k: usize = 0;
            while k < row_len
                invariant
                    from < n,
                    k <= row_len,
                    n == deps.len(),
                    deps == rows_view(dependencies@),
                    row_len == deps[from as int].len(),
                    outward@.len() == n,
                    forall|i: int, k2: int| #![trigger deps[i][k2]]
                        0 <= i < n && 0 <= k2 < deps[i].len() ==> (deps[i][k2] as int) < n,
                    forall|f: int, j: int| #![trigger rows_view(outward@)[f][j]]
                        0 <= f < n && 0 <= j < rows_view(outward@)[f].len() ==> (rows_view(
                            outward@,
                        )[f][j] as int) <= from,
                    forall|t: int|
                        0 <= t < n ==> edges_into(rows_view(outward@), t) == if t < from {
                            deps[t].len() as int
                        } else if t == from {
                            k as int
                        } else {
                            0int
                        },
                    forall|d: int, i: int| #![trigger count_in_row(rows_view(outward@)[d], i)]
                        0 <= d < n && 0 <= i < n ==> count_in_row(rows_view(outward@)[d], i) == if i
                            < from {
                            count_in_row(deps[i], d)
                        } else if i == from {
                            count_in_row_upto(deps[from as int], d, k as int)
                        } else {
                            0int
                        },
                    forall|i: int, k2: int| #![trigger deps[i][k2]]
                        0 <= i < from && 0 <= k2 < deps[i].len() ==> rows_view(
                            outward@,
                        )[deps[i][k2] as int].contains(i as usize),
                    forall|k2: int|
                        0 <= k2 < k ==> rows_view(outward@)[#[trigger] deps[from as int][k2] as int].contains(
                            from,
                        ),
                    forall|f: int, j: int| #![trigger rows_view(outward@)[f][j]]
                        0 <= f < n && 0 <= j < rows_view(outward@)[f].len() ==> deps[rows_view(
                            outward@,
                        )[f][j] as int].contains(f as usize),
                    forall|t: int, j1: int, j2: int|
                        #![trigger rows_view(outward@)[t][j1], rows_view(outward@)[t][j2]]
                        0 <= t < n && 0 <= j1 <= j2 < rows_view(outward@)[t].len() ==> rows_view(
                            outward@,
                        )[t][j1] <= rows_view(outward@)[t][j2],
                decreases row_len - k,
            {
                let to = dependencies[from][k];
                let ghost douts = rows_view(outward@);
                outward[to].push(from);
                proof {
                    let douts2 = rows_view(outward@);
                    assert(douts2 =~= douts.update(to as int, douts[to as int].push(from)));
                    assert forall|t: int| 0 <= t < n implies edges_into(douts2, t) == if t < from {
                        deps[t].len() as int
                    } else if t == from as int {
                        k as int + 1
                    } else {
                        0int
                    } by {
                        assert(douts.len() == n);
                        assert(douts2.len() == n);
                        assert(douts2 == douts.update(to as int, douts[to as int].push(from)));
                        lemma_edges_into_push(douts, to as int, from, t, n as int);
                        assert(edges_into_upto(douts2, t, n as int) == edges_into_upto(
                            douts,
                            t,
                            n as int,
                        ) + if (to as int) < n && from == t {
                            1int
                        } else {
                            0int
                        });
                        assert(edges_into(douts, t) == edges_into_upto(douts, t, n as int));
                        assert(edges_into(douts2, t) == edges_into_upto(douts2, t, n as int));
                    }
                    assert forall|d: int, i: int| 0 <= d < n && 0 <= i < n implies
                        #[trigger] count_in_row(douts2[d], i) == (if i < from {
                        count_in_row(deps[i], d)
                    } else if i == from {
                        count_in_row_upto(deps[from as int], d, k as int + 1)
                    } else {
                        0int
                    }) by {
                        assert(count_in_row(douts[d], i) == (if i < from {
                            count_in_row(deps[i], d)
                        } else if i == from {
                            count_in_row_upto(deps[from as int], d, k as int)
                        } else {
                            0int
                        }));
                        if d == to as int {
                            lemma_count_push(douts[to as int], from, i);
                        } else {
                            assert(douts2[d] == douts[d]);
                        }
                        let step = if deps[from as int][k as int] == d {
                            1int
                        } else {
                            0int
                        };
                        assert(count_in_row_upto(deps[from as int], d, k as int + 1)
                            == count_in_row_upto(deps[from as int], d, k as int) + step);
                    }
                    assert forall|f: int, j: int| #![trigger douts2[f][j]]
                        0 <= f < n && 0 <= j < douts2[f].len() implies deps[douts2[f][j] as int].contains(
                        f as usize,
                    ) && (douts2[f][j] as int) <= from && deps == rows_view(dependencies@) by {
                        if f == to as int && j == douts[to as int].len() {
                            assert(deps[from as int].contains(to));
                        } else {
                            assert(douts2[f][j] == douts[f][j]);
                        }
                    }
                    assert forall|i: int, k2: int| #![trigger deps[i][k2]]
                        0 <= i < from && 0 <= k2 < deps[i].len() implies douts2[deps[i][k2] as int].contains(
                        i as usize,
                    ) by {
                        lemma_push_contains(douts[to as int], from, i as usize);
                        assert(douts[deps[i][k2] as int].contains(i as usize));
                        if deps[i][k2] as int == to as int {
                        } else {
                            assert(douts2[deps[i][k2] as int] == douts[deps[i][k2] as int]);
                        }
                    }
                    assert forall|k2: int| 0 <= k2 < k + 1 implies rows_view(
                        outward@,
                    )[#[trigger] deps[from as int][k2] as int].contains(from) by {
                        lemma_push_contains(douts[to as int], from, from);
                        if k2 < k {
                            assert(douts[deps[from as int][k2] as int].contains(from));
                            if deps[from as int][k2] as int == to as int {
                            } else {
                                let d2 = deps[from as int][k2] as int;
                                assert(douts2[d2] == douts[d2]);
                            }
                        } else {
                            assert(douts2[to as int].contains(from));
                        }
                    }
                }
                k = k + 1;
            }
            from = from + 1;
        }

        let g = Graph { nodes, inb: dependencies, out: outward };
        proof {
            assert(g.deps() == deps);
            assert forall|f: int, j: int| #![trigger g.rdeps()[f][j]]
                0 <= f < n && 0 <= j < g.rdeps()[f].len() implies (g.rdeps()[f][j] as int)
                < n by {}
        }
        g
    }
}

/// Building is deterministic: two well-formed graphs over the same payloads
/// and dependency lists, with nondecreasing reverse rows (as `build`
/// produces them), agree in every observable respect.
pub proof fn lemma_graph_determined<T>(g1: &Graph<T>, g2: &Graph<T>)
    requires
        g1.wf(),
        g2.wf(),
        sorted_rows(g1.rdeps()),
        sorted_rows(g2.rdeps()),
        g1.payloads() == g2.payloads(),
        g1.deps() == g2.deps(),
    ensures
        g1.node_count() == g2.node_count(),
        g1.rdeps() == g2.rdeps(),
{
    lemma_reverse_table_unique(g1.rdeps(), g2.rdeps(), g1.deps());
}

/// The flag rows cover the adjacency rows entry for entry.
pub open spec fn flags_cover(outs: Seq<Seq<usize>>, diss: Seq<Seq<bool>>) -> bool {
    &&& diss.len() == outs.len()
    &&& forall|f: int| 0 <= f < outs.len() ==> #[trigger] diss[f].len() == outs[f].len()
}

/// Every per-node counter equals the number of still-enabled edges into it.
pub open spec fn counts_match(
    outs: Seq<Seq<usize>>,
    diss: Seq<Seq<bool>>,
    remaining: Seq<usize>,
) -> bool {
    forall|t: int|
        0 <= t < remaining.len() ==> remaining[t] as int == #[trigger] enabled_into(outs, diss, t)
}

/// A node sits in the output exactly when its counter has reached zero.
pub open spec fn placed_iff_done(sol: Seq<usize>, remaining: Seq<usize>) -> bool {
    forall|i: int|
        0 <= i < remaining.len() ==> ((#[trigger] remaining[i]) == 0 <==> sol.contains(i as usize))
}

/// All outbound edges of node `f` carry a set flag.
pub open spec fn row_all_disabled(outs: Seq<Seq<usize>>, diss: Seq<Seq<bool>>, f: int) -> bool {
    forall|j: int| 0 <= j < outs[f].len() ==> #[trigger] diss[f][j]
}

/// Every node already drained (before `cursor`) has all its outbound edges
/// disabled.
pub open spec fn drained_disabled(
    sol: Seq<usize>,
    cursor: int,
    outs: Seq<Seq<usize>>,
    diss: Seq<Seq<bool>>,
) -> bool {
    forall|q: int| 0 <= q < cursor ==> row_all_disabled(outs, diss, (#[trigger] sol[q]) as int)
}

/// Every disabled edge was either disabled while draining its source — the
/// source then appears among the first `bound` output entries — or it was
/// force-cleared by a repair step, in which case its target is one of the
/// `broken` nodes.
pub open spec fn sources_drained(
    sol: Seq<usize>,
    bound: int,
    outs: Seq<Seq<usize>>,
    diss: Seq<Seq<bool>>,
    broken: Set<usize>,
) -> bool {
    forall|f: int, j: int| #![trigger diss[f][j]]
        0 <= f < outs.len() && 0 <= j < outs[f].len() && diss[f][j] ==> (exists|q: int|
            0 <= q < bound && sol[q] == f as usize) || broken.contains(outs[f][j])
}

/// When a drain round makes no progress while edges remain, the nodes whose
/// counters are still positive form a stuck set: the graph has a cycle.
proof fn lemma_stall_refutes_acyclic(
    deps: Seq<Seq<usize>>,
    outs: Seq<Seq<usize>>,
    diss: Seq<Seq<bool>>,
    sol: Seq<usize>,
    remaining: Seq<usize>,
    n: int,
)
    requires
        n == deps.len(),
        n <= usize::MAX,
        outs.len() == n,
        remaining.len() == n,
        is_transpose_of(outs, deps),
        flags_cover(outs, diss),
        counts_match(outs, diss, remaining),
        placed_iff_done(sol, remaining),
        drained_disabled(sol, sol.len() as int, outs, diss),
        sum_all(remaining) > 0,
    ensures
        !acyclic(deps),
{
    let s = Set::new(|u: usize| (u as int) < n && remaining[u as int] > 0);
    lemma_sum_positive(remaining, n);
    let w = choose|i: int| 0 <= i < n && remaining[i] > 0;
    assert(s.contains(w as usize));
    assert forall|i: usize| #[trigger] s.contains(i) implies exists|k: int|
        0 <= k < deps[i as int].len() && s.contains(deps[i as int][k]) by {
        let ii = i as int;
        assert(remaining[ii] as int == enabled_into(outs, diss, ii));
        assert(exists|f: int, j: int|
            0 <= f < n && 0 <= j < outs[f].len() && outs[f][j] == i && !diss[f][j]) by {
            if !(exists|f: int, j: int|
                0 <= f < n && 0 <= j < outs[f].len() && outs[f][j] == i && !diss[f][j]) {
                lemma_enabled_into_none(outs, diss, ii, n);
                assert(false);
            }
        }
        let (f, j) = choose|f: int, j: int|
            0 <= f < n && 0 <= j < outs[f].len() && outs[f][j] == i && !diss[f][j];
        if remaining[f] == 0 {
            assert(sol.contains(f as usize));
            let q = choose|q: int| 0 <= q < sol.len() && sol[q] == f as usize;
            assert(row_all_disabled(outs, diss, (sol[q]) as int));
            assert(diss[f][j]);
        }
        assert(s.contains(f as usize));
        assert(deps[outs[f][j] as int].contains(f as usize));
        let k = choose|k: int| 0 <= k < deps[ii].len() && deps[ii][k] == f as usize;
        assert(s.contains(deps[ii][k]));
    }
    assert(stuck_set(deps, s));
}

/// Adds up the per-node counters. The count of nodes and each counter both
/// fit in 64 bits, so the total fits comfortably in 128.
fn total_remaining(remaining: &Vec<usize>) -> (total: u128)
    ensures
        total as int == sum_all(remaining@),
        total < u128::MAX,
{
    let n = remaining.len();
    let mut total: u128 = 0;
    let mut t: usize = 0;
    while t < n
        invariant
            t <= n,
            n == remaining@.len(),
            total as int == sum_upto(remaining@, t as int),
            total as int <= (t as int) * (u64::MAX as int),
        decreases n - t,
    {
        proof {
            assert(remaining@[t as int] <= u64::MAX);
            assert(total as int + remaining@[t as int] <= (t as int + 1) * (u64::MAX as int))
                by (nonlinear_arith)
                requires
                    total as int <= (t as int) * (u64::MAX as int),
                    remaining@[t as int] <= u64::MAX,
            ;
            assert((t as int + 1) * (u64::MAX as int) <= (u64::MAX as int) * (u64::MAX as int))
                by (nonlinear_arith)
                requires
                    0 <= t as int + 1 <= u64::MAX as int,
            ;
            assert((u64::MAX as int) * (u64::MAX as int) < u128::MAX as int) by (nonlinear_arith);
        }
        total = total + (remaining[t] as u128);
        t = t + 1;
    }
    proof {
        lemma_sum_bound(remaining@, n as int);
        assert((n as int) * (u64::MAX as int) <= (u64::MAX as int) * (u64::MAX as int))
            by (nonlinear_arith)
            requires
                0 <= n as int <= u64::MAX as int,
        ;
        assert((u64::MAX as int) * (u64::MAX as int) < u128::MAX as int) by (nonlinear_arith);
    }
    total
}

/// The repair step's selection rule: given the per-node counters of unmet
/// dependencies, picks the node with the strictly largest counter, the
/// lowest index winning ties.
pub fn busiest_node(remaining: &Vec<usize>) -> (best: usize)
    requires
        exists|i: int| 0 <= i < remaining@.len() && remaining@[i] > 0,
    ensures
        (best as int) < remaining@.len(),
        remaining@[best as int] > 0,
        forall|x: int| 0 <= x < remaining@.len() ==> remaining@[x] <= remaining@[best as int],
        forall|x: int| 0 <= x < best ==> remaining@[x] < remaining@[best as int],
{
    let n = remaining.len();
    let mut best: usize = 0;
    let mut best_v: usize = 0;
    let mut t: usize = 0;
    while t < n
        invariant
            t <= n,
            n == remaining@.len(),
            best_v == 0 ==> best == 0 && forall|x: int| 0 <= x < t ==> remaining@[x] == 0,
            best_v > 0 ==> (best as int) < t && remaining@[best as int] == best_v,
            forall|x: int| 0 <= x < t ==> remaining@[x] <= best_v,
            forall|x: int| 0 <= x < best ==> remaining@[x] < best_v,
        decreases n - t,
    {
        let v = remaining[t];
        if v > best_v {
            best = t;
            best_v = v;
        }
        t = t + 1;
    }
    best
}

impl<T> Graph<T> {
    /// Computes a linear execution order: a permutation of `0..len()` in
    /// which, whenever the dependency lists admit one at all (the graph is
    /// acyclic), every node comes strictly after each of its dependencies.
    ///
    /// Kahn's algorithm with progress-stall cycle breaking: nodes whose
    /// counters of not-yet-satisfied dependencies reach zero are drained in
    /// first-in-first-out order; when a drain round leaves the total of the
    /// counters unchanged and nonzero, the graph is stuck in a cycle, and
    /// the node with the largest counter (lowest index on ties) has all its
    /// remaining inbound edges force-cleared and is scheduled next. Cycles
    /// are thus broken, never reported.
    pub fn solve(&self) -> (r: Vec<usize>)
        requires
            self.wf(),
        ensures
            is_permutation_of(r@, self.node_count()),
            acyclic(self.deps()) ==> respects_deps(r@, self.deps()),
            !(exists|c: Seq<usize>| crate::order::is_dependency_cycle(self.deps(), c))
                ==> respects_deps(r@, self.deps()),
            exists|broken: Set<usize>|
                broken.finite() && (acyclic(self.deps()) <==> broken =~= Set::<usize>::empty()) && (
                forall|b: usize|
                    #[trigger] broken.contains(b) ==> r@.contains(b) && self.deps()[b as int].len()
                        > 0) && #[trigger] crate::order::respects_deps_except(
                    r@,
                    self.deps(),
                    broken,
                ),
    {
        let ghost deps = self.deps();
        let ghost outs = self.rdeps();
        let n = self.nodes.len();

        // Seed the order with every node that has no dependencies at all,
        // in index order.
        let mut solution: Vec<usize> = Vec::new();
        let mut i: usize = 0;
        while i < n
            invariant
                i <= n,
                deps == self.deps(),
                deps.len() == n,
                self.inb@.len() == n,
                solution@.no_duplicates(),
                forall|p: int| 0 <= p < solution@.len() ==> (#[trigger] solution@[p] as int) < i,
                forall|u: usize|
                    (u as int) < i ==> (solution@.contains(u) <==> deps[u as int].len() == 0),
            decreases n - i,
        {
            if self.inb[i].len() == 0 {
                proof {
                    lemma_push_nodup(solution@, i);
                }
                let ghost before = solution@;
                solution.push(i);
                proof {
                    assert forall|u: usize| (u as int) < i + 1 implies (solution@.contains(u)
                        <==> deps[u as int].len() == 0) by {
                        lemma_push_contains(before, i, u);
                    }
                }
            } else {
                proof {
                    assert forall|u: usize| (u as int) < i + 1 implies (solution@.contains(u)
                        <==> deps[u as int].len() == 0) by {
                        if u == i && solution@.contains(u) {
                            let p = choose|p: int|
                                0 <= p < solution@.len() && solution@[p] == u;
                            assert((solution@[p] as int) < i);
                        }
                    }
                }
            }
            i = i + 1;
        }

        // One clear flag per outbound edge.
        let mut disabled: Vec<Vec<bool>> = Vec::new();
        while disabled.len() < n
            invariant
                disabled@.len() <= n,
                outs == self.rdeps(),
                outs.len() == n,
                self.out@.len() == n,
                forall|f: int|
                    0 <= f < disabled@.len() ==> #[trigger] flags_view(disabled@)[f].len()
                        == outs[f].len(),
                forall|f: int, j: int| #![trigger flags_view(disabled@)[f][j]]
                    0 <= f < disabled@.len() && 0 <= j < outs[f].len() ==> !flags_view(
                        disabled@,
                    )[f][j],
            decreases n - disabled@.len(),
        {
            let f = disabled.len();
            let row_len = self.out[f].len();
            let mut row: Vec<bool> = Vec::new();
            while row.len() < row_len
                invariant
                    row@.len() <= row_len,
                    forall|j: int| 0 <= j < row@.len() ==> !(#[trigger] row@[j]),
                decreases row_len - row@.len(),
            {
                row.push(false);
            }
            let ghost before = disabled@;
            disabled.push(row);
            proof {
                assert(flags_view(disabled@) =~= flags_view(before).push(row@));
            }
        }

        // One counter per node: how many of its dependencies are unmet.
        let mut remaining: Vec<usize> = Vec::new();
        while remaining.len() < n
            invariant
                remaining@.len() <= n,
                deps == self.deps(),
                deps.len() == n,
                self.inb@.len() == n,
                forall|t: int|
                    0 <= t < remaining@.len() ==> #[trigger] remaining@[t] == deps[t].len(),
            decreases n - remaining@.len(),
        {
            let t = remaining.len();
            remaining.push(self.inb[t].len());
        }

        proof {
            assert(outs.len() == n);
            assert forall|t: int| 0 <= t < n implies remaining@[t] as int == #[trigger] enabled_into(
                outs,
                flags_view(disabled@),
                t,
            ) by {
                lemma_enabled_into_all_clear(outs, flags_view(disabled@), t, n as int);
                assert(edges_into(outs, t) == deps[t].len());
                assert(edges_into(outs, t) == edges_into_upto(outs, t, n as int));
            }
            assert forall|i: int| 0 <= i < n implies ((#[trigger] remaining@[i]) == 0
                <==> solution@.contains(i as usize)) by {
                assert(remaining@[i] == deps[i].len());
                assert(solution@.contains(i as usize) <==> deps[i as usize as int].len() == 0);
            }
            lemma_bounded_nodup_len(solution@, n);
            assert forall|p: int, k: int|
                0 <= p < solution@.len() && 0 <= k < deps[solution@[p] as int].len() implies
                #[trigger] crate::order::dep_placed_before(solution@, deps, p, k) by {
                assert(solution@.contains(solution@[p]));
                assert(deps[solution@[p] as int].len() == 0);
            }
            assert(respects_deps(solution@, deps));
        }

        let total = total_remaining(&remaining);
        let mut hist = History::new(u128::MAX, total);
        let mut cursor: usize = 0;
        let ghost mut broken: Set<usize> = Set::empty();

        while hist.current != 0
            invariant
                deps == self.deps(),
                outs == self.rdeps(),
                n as int == self.node_count(),
                deps.len() == n,
                outs.len() == n,
                self.out@.len() == n,
                is_transpose_of(outs, deps),
                remaining@.len() == n,
                disabled@.len() == n,
                flags_cover(outs, flags_view(disabled@)),
                counts_match(outs, flags_view(disabled@), remaining@),
                solution@.no_duplicates(),
                forall|p: int| 0 <= p < solution@.len() ==> (#[trigger] solution@[p] as int) < n,
                cursor <= solution@.len(),
                solution@.len() <= n,
                placed_iff_done(solution@, remaining@),
                drained_disabled(solution@, cursor as int, outs, flags_view(disabled@)),
                sources_drained(solution@, cursor as int, outs, flags_view(disabled@), broken),
                crate::order::respects_deps_except(solution@, deps, broken),
                forall|b: usize| #[trigger] broken.contains(b) ==> solution@.contains(b),
                forall|b: usize| #[trigger] broken.contains(b) ==> deps[b as int].len() > 0,
                broken.finite(),
                broken =~= Set::<usize>::empty() || !acyclic(deps),
                hist.current as int == sum_all(remaining@),
                hist.current < u128::MAX,
                hist.current == hist.last ==> cursor == solution@.len(),
            decreases 2 * (hist.current as int) + (if hist.current == hist.last {
                0int
            } else {
                1int
            }),
        {
            let ghost entry_sum = sum_all(remaining@);
            let stalled = hist.current == hist.last;

            if stalled {
                // No counter moved in the last round: a cycle. Pick the node
                // with the most unmet dependencies and force-clear them.
                proof {
                    lemma_sum_positive(remaining@, n as int);
                    lemma_stall_refutes_acyclic(
                        deps,
                        outs,
                        flags_view(disabled@),
                        solution@,
                        remaining@,
                        n as int,
                    );
                }
                let rem_idx = busiest_node(&remaining);
                let ghost pre = remaining@;
                let ghost held = broken;
                proof {
                    crate::count::lemma_enabled_le_edges(
                        outs,
                        flags_view(disabled@),
                        rem_idx as int,
                        n as int,
                    );
                    assert(remaining@[rem_idx as int] as int == enabled_into(
                        outs,
                        flags_view(disabled@),
                        rem_idx as int,
                    ));
                    assert(edges_into(outs, rem_idx as int) == deps[rem_idx as int].len());
                    assert(deps[rem_idx as int].len() > 0);
                    broken = broken.insert(rem_idx);
                    assert forall|b: usize| #[trigger] broken.contains(b) implies deps[b as int].len()
                        > 0 by {
                        if b != rem_idx {
                            assert(held.contains(b));
                        }
                    }
                    assert forall|f2: int, j2: int| #![trigger flags_view(disabled@)[f2][j2]]
                        0 <= f2 < outs.len() && 0 <= j2 < outs[f2].len() && flags_view(
                            disabled@,
                        )[f2][j2] implies (exists|q: int|
                        0 <= q < cursor && solution@[q] == f2 as usize) || broken.contains(
                        outs[f2][j2],
                    ) by {
                        assert(sources_drained(
                            solution@,
                            cursor as int,
                            outs,
                            flags_view(disabled@),
                            held,
                        ));
                    }
                    assert forall|p2: int, k: int|
                        0 <= p2 < solution@.len() && 0 <= k < deps[solution@[p2] as int].len()
                            && !broken.contains(solution@[p2]) implies
                        #[trigger] crate::order::dep_placed_before(solution@, deps, p2, k) by {
                        assert(!held.contains(solution@[p2]));
                    }
                }

                let mut f: usize = 0;
                while f < n
                    invariant
                        f <= n,
                        outs == self.rdeps(),
                        outs.len() == n,
                        self.out@.len() == n,
                        (rem_idx as int) < n,
                        pre[rem_idx as int] > 0,
                        remaining@.len() == n,
                        disabled@.len() == n,
                        flags_cover(outs, flags_view(disabled@)),
                        counts_match(outs, flags_view(disabled@), remaining@),
                        forall|x: int| 0 <= x < n && x != rem_idx ==> remaining@[x] == pre[x],
                        forall|f2: int, j2: int| #![trigger outs[f2][j2]]
                            0 <= f2 < f && 0 <= j2 < outs[f2].len() ==> !(outs[f2][j2] == rem_idx
                                && !flags_view(disabled@)[f2][j2]),
                        broken.contains(rem_idx),
                        sources_drained(
                            solution@,
                            cursor as int,
                            outs,
                            flags_view(disabled@),
                            broken,
                        ),
                        drained_disabled(solution@, cursor as int, outs, flags_view(disabled@)),
                        !solution@.contains(rem_idx),
                        solution@.no_duplicates(),
                        forall|p: int|
                            0 <= p < solution@.len() ==> (#[trigger] solution@[p] as int) < n,
                        cursor == solution@.len(),
                        solution@.len() <= n,
                        forall|x: int|
                            0 <= x < n && x != rem_idx ==> ((#[trigger] remaining@[x]) == 0
                                <==> solution@.contains(x as usize)),
                    decreases n - f,
                {
                    let row_len = self.out[f].len();
                    let mut j: usize = 0;
                    while j < row_len
                        invariant
                            f < n,
                            j <= row_len,
                            outs == self.rdeps(),
                            outs.len() == n,
                            self.out@.len() == n,
                            row_len == outs[f as int].len(),
                            (rem_idx as int) < n,
                            pre[rem_idx as int] > 0,
                            remaining@.len() == n,
                            disabled@.len() == n,
                            flags_cover(outs, flags_view(disabled@)),
                            counts_match(outs, flags_view(disabled@), remaining@),
                            forall|x: int| 0 <= x < n && x != rem_idx ==> remaining@[x] == pre[x],
                            forall|f2: int, j2: int| #![trigger outs[f2][j2]]
                                0 <= f2 < f && 0 <= j2 < outs[f2].len() ==> !(outs[f2][j2]
                                    == rem_idx && !flags_view(disabled@)[f2][j2]),
                            broken.contains(rem_idx),
                            sources_drained(
                                solution@,
                                cursor as int,
                                outs,
                                flags_view(disabled@),
                                broken,
                            ),
                            forall|j2: int| #![trigger outs[f as int][j2]]
                                0 <= j2 < j ==> !(outs[f as int][j2] == rem_idx && !flags_view(
                                    disabled@,
                                )[f as int][j2]),
                            drained_disabled(
                                solution@,
                                cursor as int,
                                outs,
                                flags_view(disabled@),
                            ),
                            !solution@.contains(rem_idx),
                            solution@.no_duplicates(),
                            forall|p: int|
                                0 <= p < solution@.len() ==> (#[trigger] solution@[p] as int) < n,
                            cursor == solution@.len(),
                            solution@.len() <= n,
                            forall|x: int|
                                0 <= x < n && x != rem_idx ==> ((#[trigger] remaining@[x]) == 0
                                    <==> solution@.contains(x as usize)),
                        decreases row_len - j,
                    {
                        proof {
                            assert(flags_view(disabled@)[f as int] == disabled@[f as int]@);
                            assert(disabled@[f as int]@.len() == outs[f as int].len());
                        }
                        let to = self.out[f][j];
                        if to == rem_idx && !disabled[f][j] {
                            let ghost old_flags = flags_view(disabled@);
                            proof {
                                lemma_enabled_into_positive(
                                    outs,
                                    old_flags,
                                    f as int,
                                    j as int,
                                    n as int,
                                );
                                assert(outs.len() == n);
                                assert(remaining@[rem_idx as int] as int == enabled_into(
                                    outs,
                                    old_flags,
                                    rem_idx as int,
                                ));
                                assert(remaining@[rem_idx as int] >= 1);
                            }
                            let ghost old_rem = remaining@;
                            disabled[f][j] = true;
                            let r0 = remaining[rem_idx];
                            remaining[rem_idx] = r0 - 1;
                            proof {
                                let new_flags = flags_view(disabled@);
                                assert(new_flags =~= old_flags.update(
                                    f as int,
                                    old_flags[f as int].update(j as int, true),
                                ));
                                assert forall|t: int| 0 <= t < n implies remaining@[t] as int
                                    == #[trigger] enabled_into(outs, new_flags, t) by {
                                    assert(outs.len() == n);
                                    assert(old_rem[t] as int == enabled_into(outs, old_flags, t));
                                    lemma_enabled_into_disable(
                                        outs,
                                        old_flags,
                                        f as int,
                                        j as int,
                                        t,
                                        n as int,
                                    );
                                    if t == rem_idx as int {
                                        assert(remaining@[t] == r0 - 1);
                                    } else {
                                        assert(remaining@[t] == old_rem[t]);
                                        assert(outs[f as int][j as int] != t);
                                    }
                                }
                                assert forall|q: int| 0 <= q < cursor implies row_all_disabled(
                                    outs,
                                    new_flags,
                                    (#[trigger] solution@[q]) as int,
                                ) by {
                                    assert(row_all_disabled(
                                        outs,
                                        old_flags,
                                        solution@[q] as int,
                                    ));
                                }
                                assert forall|f2: int, j2: int|
                                    #![trigger new_flags[f2][j2]]
                                    0 <= f2 < outs.len() && 0 <= j2 < outs[f2].len()
                                        && new_flags[f2][j2] implies (exists|q: int|
                                    0 <= q < cursor && solution@[q] == f2 as usize)
                                    || broken.contains(outs[f2][j2]) by {
                                    if old_flags[f2][j2] {
                                        assert(sources_drained(
                                            solution@,
                                            cursor as int,
                                            outs,
                                            old_flags,
                                            broken,
                                        ));
                                    } else {
                                        assert(f2 == f as int && j2 == j as int);
                                        assert(outs[f2][j2] == rem_idx);
                                    }
                                }
                            }
                        }
                        j = j + 1;
                    }
                    f = f + 1;
                }

                proof {
                    lemma_enabled_into_none(
                        outs,
                        flags_view(disabled@),
                        rem_idx as int,
                        n as int,
                    );
                    assert(outs.len() == n);
                    assert(remaining@[rem_idx as int] as int == enabled_into(
                        outs,
                        flags_view(disabled@),
                        rem_idx as int,
                    ));
                    assert(remaining@[rem_idx as int] == 0);
                    assert(remaining@ =~= pre.update(rem_idx as int, 0));
                    lemma_sum_update(pre, rem_idx as int, 0, n as int);
                    assert(sum_all(remaining@) <= entry_sum - 1);
                    lemma_push_nodup(solution@, rem_idx);
                }
                let ghost before = solution@;
                solution.push(rem_idx);
                proof {
                    assert forall|x: int| 0 <= x < n implies ((#[trigger] remaining@[x]) == 0
                        <==> solution@.contains(x as usize)) by {
                        lemma_push_contains(before, rem_idx, x as usize);
                    }
                    lemma_bounded_nodup_len(solution@, n);
                    assert forall|b: usize| #[trigger] broken.contains(b) implies
                        solution@.contains(b) by {
                        lemma_push_contains(before, rem_idx, b);
                        if b != rem_idx {
                            assert(held.contains(b));
                            assert(before.contains(b));
                        }
                    }
                    assert forall|p2: int, k: int|
                        0 <= p2 < solution@.len() && 0 <= k < deps[solution@[p2] as int].len()
                            && !broken.contains(solution@[p2]) implies
                        #[trigger] crate::order::dep_placed_before(solution@, deps, p2, k) by {
                        let p = before.len() as int;
                        if p2 < p {
                            assert(solution@[p2] == before[p2]);
                            assert(crate::order::dep_placed_before(before, deps, p2, k));
                            let q = choose|q: int|
                                0 <= q < p2 && before[q] == deps[before[p2] as int][k];
                            assert(solution@[q] == deps[solution@[p2] as int][k]);
                        } else {
                            assert(solution@[p2] == rem_idx);
                            assert(broken.contains(rem_idx));
                        }
                    }
                    let nf = flags_view(disabled@);
                    assert forall|f2: int, j2: int| #![trigger nf[f2][j2]]
                        0 <= f2 < outs.len() && 0 <= j2 < outs[f2].len() && nf[f2][j2] implies (
                    exists|q: int| 0 <= q < cursor && solution@[q] == f2 as usize)
                        || broken.contains(outs[f2][j2]) by {
                        assert(sources_drained(before, cursor as int, outs, nf, broken));
                        if !broken.contains(outs[f2][j2]) {
                            let q = choose|q: int|
                                0 <= q < cursor && before[q] == f2 as usize;
                            assert(solution@[q] == before[q]);
                        }
                    }
                }
            }

            // Drain: schedule ready nodes in order, releasing their
            // dependents' counters as their outbound edges are disabled.
            let ghost drain_entry = sum_all(remaining@);
            while cursor < solution.len()
                invariant
                    deps == self.deps(),
                    outs == self.rdeps(),
                    deps.len() == n,
                    outs.len() == n,
                    self.out@.len() == n,
                    is_transpose_of(outs, deps),
                    remaining@.len() == n,
                    disabled@.len() == n,
                    flags_cover(outs, flags_view(disabled@)),
                    counts_match(outs, flags_view(disabled@), remaining@),
                    solution@.no_duplicates(),
                    forall|p: int|
                        0 <= p < solution@.len() ==> (#[trigger] solution@[p] as int) < n,
                    cursor <= solution@.len(),
                    solution@.len() <= n,
                    placed_iff_done(solution@, remaining@),
                    drained_disabled(solution@, cursor as int, outs, flags_view(disabled@)),
                    sources_drained(solution@, cursor as int, outs, flags_view(disabled@), broken),
                    crate::order::respects_deps_except(solution@, deps, broken),
                    forall|b: usize| #[trigger] broken.contains(b) ==> solution@.contains(b),
                    sum_all(remaining@) <= drain_entry,
                decreases n - cursor,
            {
                let i2 = solution[cursor];
                let row_len = self.out[i2].len();
                let mut j: usize = 0;
                while j < row_len
                    invariant
                        deps == self.deps(),
                        outs == self.rdeps(),
                        deps.len() == n,
                        outs.len() == n,
                        self.out@.len() == n,
                        is_transpose_of(outs, deps),
                        j <= row_len,
                        cursor < solution@.len(),
                        i2 == solution@[cursor as int],
                        (i2 as int) < n,
                        row_len == outs[i2 as int].len(),
                        remaining@.len() == n,
                        disabled@.len() == n,
                        flags_cover(outs, flags_view(disabled@)),
                        counts_match(outs, flags_view(disabled@), remaining@),
                        solution@.no_duplicates(),
                        forall|p: int|
                            0 <= p < solution@.len() ==> (#[trigger] solution@[p] as int) < n,
                        solution@.len() <= n,
                        placed_iff_done(solution@, remaining@),
                        drained_disabled(solution@, cursor as int, outs, flags_view(disabled@)),
                        forall|j2: int| 0 <= j2 < j ==> #[trigger] flags_view(
                            disabled@,
                        )[i2 as int][j2],
                        sources_drained(
                            solution@,
                            cursor as int + 1,
                            outs,
                            flags_view(disabled@),
                            broken,
                        ),
                        crate::order::respects_deps_except(solution@, deps, broken),
                        forall|b: usize| #[trigger] broken.contains(b) ==> solution@.contains(b),
                        sum_all(remaining@) <= drain_entry,
                    decreases row_len - j,
                {
                    proof {
                        assert(flags_view(disabled@)[i2 as int] == disabled@[i2 as int]@);
                        assert(disabled@[i2 as int]@.len() == outs[i2 as int].len());
                    }
                    if !disabled[i2][j] {
                        let to = self.out[i2][j];
                        let ghost old_flags = flags_view(disabled@);
                        let ghost old_rem = remaining@;
                        proof {
                            lemma_enabled_into_positive(
                                outs,
                                old_flags,
                                i2 as int,
                                j as int,
                                n as int,
                            );
                            assert(outs.len() == n);
                            assert(remaining@[to as int] as int == enabled_into(
                                outs,
                                old_flags,
                                to as int,
                            ));
                            assert(remaining@[to as int] >= 1);
                        }
                        disabled[i2][j] = true;
                        let r0 = remaining[to];
                        remaining[to] = r0 - 1;
                        proof {
                            let new_flags = flags_view(disabled@);
                            assert(new_flags =~= old_flags.update(
                                i2 as int,
                                old_flags[i2 as int].update(j as int, true),
                            ));
                            assert forall|t: int| 0 <= t < n implies remaining@[t] as int
                                == #[trigger] enabled_into(outs, new_flags, t) by {
                                assert(outs.len() == n);
                                assert(old_rem[t] as int == enabled_into(outs, old_flags, t));
                                lemma_enabled_into_disable(
                                    outs,
                                    old_flags,
                                    i2 as int,
                                    j as int,
                                    t,
                                    n as int,
                                );
                                if t == to as int {
                                    assert(remaining@[t] == r0 - 1);
                                } else {
                                    assert(remaining@[t] == old_rem[t]);
                                    assert(outs[i2 as int][j as int] != t);
                                }
                            }
                            lemma_sum_update(old_rem, to as int, (r0 - 1) as usize, n as int);
                            assert forall|q: int| 0 <= q < cursor implies row_all_disabled(
                                outs,
                                new_flags,
                                (#[trigger] solution@[q]) as int,
                            ) by {
                                assert(row_all_disabled(outs, old_flags, solution@[q] as int));
                            }
                            assert forall|f2: int, j2: int| #![trigger new_flags[f2][j2]]
                                0 <= f2 < outs.len() && 0 <= j2 < outs[f2].len()
                                && new_flags[f2][j2] implies (exists|q: int|
                                0 <= q < cursor + 1 && solution@[q] == f2 as usize)
                                || broken.contains(outs[f2][j2]) by {
                                if old_flags[f2][j2] {
                                    assert(sources_drained(
                                        solution@,
                                        cursor as int + 1,
                                        outs,
                                        old_flags,
                                        broken,
                                    ));
                                } else {
                                    assert(f2 == i2 as int && j2 == j as int);
                                    assert(solution@[cursor as int] == i2);
                                }
                            }
                        }
                        if remaining[to] == 0 {
                            proof {
                                assert(old_rem[to as int] >= 1);
                                assert(!solution@.contains(to));
                                lemma_push_nodup(solution@, to);
                            }
                            let ghost before = solution@;
                            solution.push(to);
                            proof {
                                assert forall|x: int| 0 <= x < n implies ((
                                #[trigger] remaining@[x]) == 0 <==> solution@.contains(
                                    x as usize,
                                )) by {
                                    lemma_push_contains(before, to, x as usize);
                                    assert(old_rem[x] == 0 <==> before.contains(x as usize));
                                }
                                lemma_bounded_nodup_len(solution@, n);
                                assert forall|q: int| 0 <= q < cursor implies row_all_disabled(
                                    outs,
                                    flags_view(disabled@),
                                    (#[trigger] solution@[q]) as int,
                                ) by {
                                    assert(solution@[q] == before[q]);
                                    assert(row_all_disabled(
                                        outs,
                                        flags_view(disabled@),
                                        before[q] as int,
                                    ));
                                }
                                let nf = flags_view(disabled@);
                                assert forall|b: usize| #[trigger] broken.contains(b) implies
                                    solution@.contains(b) by {
                                    lemma_push_contains(before, to, b);
                                    assert(before.contains(b));
                                }
                                assert forall|f2: int, j2: int| #![trigger nf[f2][j2]]
                                    0 <= f2 < outs.len() && 0 <= j2 < outs[f2].len()
                                    && nf[f2][j2] implies (exists|q: int|
                                    0 <= q < cursor + 1 && solution@[q] == f2 as usize)
                                    || broken.contains(outs[f2][j2]) by {
                                    assert(sources_drained(
                                        before,
                                        cursor as int + 1,
                                        outs,
                                        nf,
                                        broken,
                                    ));
                                    if !broken.contains(outs[f2][j2]) {
                                        let q = choose|q: int|
                                            0 <= q < cursor + 1 && before[q] == f2 as usize;
                                        assert(solution@[q] == before[q]);
                                    }
                                }
                                let p = before.len() as int;
                                assert forall|p2: int, k: int|
                                    0 <= p2 < solution@.len() && 0 <= k < deps[solution@[p2] as int].len()
                                        && !broken.contains(solution@[p2]) implies
                                    #[trigger] crate::order::dep_placed_before(solution@, deps, p2, k) by {
                                    if p2 < p {
                                        assert(solution@[p2] == before[p2]);
                                        assert(crate::order::dep_placed_before(before, deps, p2, k));
                                        let q = choose|q: int|
                                            0 <= q < p2 && before[q] == deps[before[p2] as int][k];
                                        assert(solution@[q] == deps[solution@[p2] as int][k]);
                                    } else {
                                        assert(solution@[p2] == to);
                                        let d = deps[to as int][k];
                                        assert(outs[d as int].contains(to));
                                        let j3 = choose|j3: int|
                                            0 <= j3 < outs[d as int].len() && outs[d as int][j3] == to;
                                        assert(outs.len() == n);
                                        assert(remaining@[to as int] as int == enabled_into(
                                            outs,
                                            nf,
                                            to as int,
                                        ));
                                        if !nf[d as int][j3] {
                                            lemma_enabled_into_positive(
                                                outs,
                                                nf,
                                                d as int,
                                                j3,
                                                n as int,
                                            );
                                        }
                                        assert(!broken.contains(outs[d as int][j3]));
                                        let q = choose|q: int|
                                            0 <= q < cursor + 1 && before[q] == d;
                                        assert(solution@[q] == before[q]);
                                        assert(solution@[q] == deps[solution@[p2] as int][k]);
                                    }
                                }
                            }
                        } else {
                            proof {
                                assert forall|x: int| 0 <= x < n implies ((
                                #[trigger] remaining@[x]) == 0 <==> solution@.contains(
                                    x as usize,
                                )) by {
                                    assert(old_rem[x] == 0 <==> solution@.contains(x as usize));
                                    if x != to as int {
                                        assert(remaining@[x] == old_rem[x]);
                                    }
                                }
                            }
                        }
                    }
                    j = j + 1;
                }
                cursor = cursor + 1;
            }

            let new_total = total_remaining(&remaining);
            proof {
                if stalled {
                    assert(new_total as int <= entry_sum - 1);
                }
            }
            hist = hist.push(new_total);
        }

        proof {
            lemma_sum_zero(remaining@, n as int);
            assert forall|u: usize| (u as int) < n implies solution@.contains(u) by {
                assert(remaining@[u as int] == 0);
            }
            lemma_complete_nodup_len(solution@, n);
            if broken =~= Set::<usize>::empty() {
                crate::order::lemma_respects_no_exceptions(solution@, deps);
                crate::order::lemma_topo_order_implies_acyclic(solution@, deps);
            }
            crate::order::lemma_acyclic_iff_no_cycle(deps);
            assert(broken.finite() && (acyclic(deps) <==> broken =~= Set::<usize>::empty()) && (
            forall|b: usize|
                #[trigger] broken.contains(b) ==> solution@.contains(b) && deps[b as int].len()
                    > 0) && crate::order::respects_deps_except(solution@, deps, broken));
        }
        solution
    }
}

} // verus!
