//! Two worked example graphs: an acyclic program-startup order, and a chain
//! whose tail feeds back into its head, closing two cycles.

use vstd::prelude::*;
use crate::count::count_in_row;
use crate::count::lemma_count_absent;
use crate::count::lemma_count_small;
use crate::count::lemma_sorted_counts_equal;
use crate::graph::Graph;
use crate::graph::GraphBuilder;
use crate::order::acyclic;
use crate::order::lemma_cycle_refutes_acyclic;
use crate::order::lemma_forward_deps_acyclic;

verus! {

/// A sample startup graph: `boot` (0) first; `xorg` (1) and `net` (3) need
/// `boot`; `dwm` (2) needs `xorg`; `firefox` (4) needs `net` and `xorg`.
/// Every dependency points backwards, so the graph is acyclic.
pub fn programs() -> (g: Graph<&'static str>)
    ensures
        g.wf(),
        g.node_count() == 5,
        g.payloads().len() == 5,
        g.payloads()[0]@ == "boot"@,
        g.payloads()[1]@ == "xorg"@,
        g.payloads()[2]@ == "dwm"@,
        g.payloads()[3]@ == "net"@,
        g.payloads()[4]@ == "firefox"@,
        g.deps() == seq![
            Seq::<usize>::empty(),
            seq![0usize],
            seq![1usize],
            seq![0usize],
            seq![3usize, 1usize],
        ],
        g.rdeps() == seq![
            seq![1usize, 3usize],
            seq![2usize, 4usize],
            Seq::<usize>::empty(),
            seq![4usize],
            Seq::<usize>::empty(),
        ],
        acyclic(g.deps()),
{
    let mut graph: GraphBuilder<&'static str> = GraphBuilder::default();

    let boot = graph.add_node("boot", Vec::new());

    let mut xorg_deps: Vec<usize> = Vec::new();
    xorg_deps.push(boot);
    let xorg = graph.add_node("xorg", xorg_deps);

    let mut dwm_deps: Vec<usize> = Vec::new();
    dwm_deps.push(xorg);
    let _dwm = graph.add_node("dwm", dwm_deps);

    let mut net_deps: Vec<usize> = Vec::new();
    net_deps.push(boot);
    let net = graph.add_node("net", net_deps);

    let mut firefox_deps: Vec<usize> = Vec::new();
    firefox_deps.push(net);
    firefox_deps.push(xorg);
    let _firefox = graph.add_node("firefox", firefox_deps);

    let g = graph.build();
    proof {
        assert(g.deps() =~~= seq![
            Seq::<usize>::empty(),
            seq![0usize],
            seq![1usize],
            seq![0usize],
            seq![3usize, 1usize],
        ]);
        lemma_forward_deps_acyclic(g.deps());
        let ds = g.deps();
        let outs = g.rdeps();
        let cand: Seq<Seq<usize>> = seq![
            seq![1usize, 3usize],
            seq![2usize, 4usize],
            Seq::<usize>::empty(),
            seq![4usize],
            Seq::<usize>::empty(),
        ];
        assert forall|d: int| 0 <= d < 5 implies outs[d] == cand[d] by {
            assert forall|v: int| #[trigger] count_in_row(outs[d], v) == count_in_row(
                cand[d],
                v,
            ) by {
                lemma_count_small(cand[d], v);
                if 0 <= v < 5 {
                    assert(count_in_row(outs[d], v) == count_in_row(ds[v], d));
                    if v == 0 {
                        lemma_count_small(ds[0], d);
                    } else if v == 1 {
                        lemma_count_small(ds[1], d);
                    } else if v == 2 {
                        lemma_count_small(ds[2], d);
                    } else if v == 3 {
                        lemma_count_small(ds[3], d);
                    } else {
                        lemma_count_small(ds[4], d);
                    }
                } else {
                    assert forall|p: int| 0 <= p < outs[d].len() implies outs[d][p] != v by {
                        assert((outs[d][p] as int) < 5);
                    }
                    lemma_count_absent(outs[d], v, outs[d].len() as int);
                }
            }
            lemma_sorted_counts_equal(outs[d], cand[d]);
        }
        assert(outs =~= cand);
    }
    g
}

/// A sample cyclic graph: the chain `a b c d`, two sub-chains `d e f g` and
/// `d i j k`, and then `c` made to depend on both `g` and `k`, closing two
/// cycles through `c`.
pub fn cycle() -> (gr: Graph<&'static str>)
    ensures
        gr.wf(),
        gr.node_count() == 10,
        gr.payloads().len() == 10,
        gr.payloads()[0]@ == "a"@,
        gr.payloads()[1]@ == "b"@,
        gr.payloads()[2]@ == "c"@,
        gr.payloads()[3]@ == "d"@,
        gr.payloads()[4]@ == "e"@,
        gr.payloads()[5]@ == "f"@,
        gr.payloads()[6]@ == "g"@,
        gr.payloads()[7]@ == "i"@,
        gr.payloads()[8]@ == "j"@,
        gr.payloads()[9]@ == "k"@,
        gr.deps() == seq![
            Seq::<usize>::empty(),
            seq![0usize],
            seq![1usize, 6usize, 9usize],
            seq![2usize],
            seq![3usize],
            seq![4usize],
            seq![5usize],
            seq![3usize],
            seq![7usize],
            seq![8usize],
        ],
        crate::graph::is_transpose_of(gr.rdeps(), gr.deps()),
        crate::graph::sorted_rows(gr.rdeps()),
        !acyclic(gr.deps()),
{
    let mut graph: GraphBuilder<&'static str> = GraphBuilder::default();

    let a = graph.add_node("a", Vec::new());

    let mut b_deps: Vec<usize> = Vec::new();
    b_deps.push(a);
    let b = graph.add_node("b", b_deps);

    // c cannot name g and k yet: they do not exist. Their indices arrive
    // later through add_deps.
    let mut c_deps: Vec<usize> = Vec::new();
    c_deps.push(b);
    let c = graph.add_node("c", c_deps);

    let mut d_deps: Vec<usize> = Vec::new();
    d_deps.push(c);
    let d = graph.add_node("d", d_deps);

    let mut e_deps: Vec<usize> = Vec::new();
    e_deps.push(d);
    let e = graph.add_node("e", e_deps);

    let mut f_deps: Vec<usize> = Vec::new();
    f_deps.push(e);
    let f = graph.add_node("f", f_deps);

    let mut g_deps: Vec<usize> = Vec::new();
    g_deps.push(f);
    let g = graph.add_node("g", g_deps);

    let mut i_deps: Vec<usize> = Vec::new();
    i_deps.push(d);
    let i = graph.add_node("i", i_deps);

    let mut j_deps: Vec<usize> = Vec::new();
    j_deps.push(i);
    let j = graph.add_node("j", j_deps);

    let mut k_deps: Vec<usize> = Vec::new();
    k_deps.push(j);
    let k = graph.add_node("k", k_deps);

    let mut late: Vec<usize> = Vec::new();
    late.push(g);
    late.push(k);
    graph.add_deps(c, late);

    let gr = graph.build();
    proof {
        let ds = gr.deps();
        assert(ds =~~= seq![
            Seq::<usize>::empty(),
            seq![0usize],
            seq![1usize, 6usize, 9usize],
            seq![2usize],
            seq![3usize],
            seq![4usize],
            seq![5usize],
            seq![3usize],
            seq![7usize],
            seq![8usize],
        ]);
        lemma_cycle_sample_cyclic(ds);
    }
    gr
}

/// The chain through c, g, f, e and d closes on itself, so the cyclic
/// sample's dependency lists are not acyclic.
proof fn lemma_cycle_sample_cyclic(ds: Seq<Seq<usize>>)
    requires
        ds == seq![
            Seq::<usize>::empty(),
            seq![0usize],
            seq![1usize, 6usize, 9usize],
            seq![2usize],
            seq![3usize],
            seq![4usize],
            seq![5usize],
            seq![3usize],
            seq![7usize],
            seq![8usize],
        ],
    ensures
        !acyclic(ds),
{
    let loop_nodes: Seq<usize> = seq![2usize, 6usize, 5usize, 4usize, 3usize];
    assert forall|p: int| 0 <= p < loop_nodes.len() implies #[trigger] crate::order::cycle_step(
        ds,
        loop_nodes,
        p,
    ) by {
        if p == 0 {
            assert(ds[loop_nodes[p] as int][1] == loop_nodes[p + 1]);
        } else if p < 4 {
            assert(ds[loop_nodes[p] as int][0] == loop_nodes[p + 1]);
        } else {
            assert(ds[loop_nodes[p] as int][0] == loop_nodes[0]);
        }
    }
    assert(crate::order::is_dependency_cycle(ds, loop_nodes));
    lemma_cycle_refutes_acyclic(ds, loop_nodes);
}

/// The reverse table of the cyclic sample is exactly
/// `[[1],[2],[3],[4,7],[5],[6],[2],[8],[9],[2]]`: the dependency lists
/// determine it through the transpose conditions and the sortedness of its
/// rows, which `cycle` ensures.
pub proof fn lemma_cycle_reverse_rows(ds: Seq<Seq<usize>>, outs: Seq<Seq<usize>>)
    requires
        ds == seq![
            Seq::<usize>::empty(),
            seq![0usize],
            seq![1usize, 6usize, 9usize],
            seq![2usize],
            seq![3usize],
            seq![4usize],
            seq![5usize],
            seq![3usize],
            seq![7usize],
            seq![8usize],
        ],
        crate::graph::is_transpose_of(outs, ds),
        crate::graph::sorted_rows(outs),
    ensures
        outs == seq![
            seq![1usize],
            seq![2usize],
            seq![3usize],
            seq![4usize, 7usize],
            seq![5usize],
            seq![6usize],
            seq![2usize],
            seq![8usize],
            seq![9usize],
            seq![2usize],
        ],
{
    let cand: Seq<Seq<usize>> = seq![
            seq![1usize],
            seq![2usize],
            seq![3usize],
            seq![4usize, 7usize],
            seq![5usize],
            seq![6usize],
            seq![2usize],
            seq![8usize],
            seq![9usize],
            seq![2usize],
        ];
    assert forall|d: int| 0 <= d < 10 implies outs[d] == cand[d] by {
        assert forall|v: int| #[trigger] count_in_row(outs[d], v) == count_in_row(
            cand[d],
            v,
        ) by {
            lemma_count_small(cand[d], v);
            if 0 <= v < 10 {
                assert(count_in_row(outs[d], v) == count_in_row(ds[v], d));
                if v == 0 {
                    lemma_count_small(ds[0], d);
                } else if v == 1 {
                    lemma_count_small(ds[1], d);
                } else if v == 2 {
                    lemma_count_small(ds[2], d);
                } else if v == 3 {
                    lemma_count_small(ds[3], d);
                } else if v == 4 {
                    lemma_count_small(ds[4], d);
                } else if v == 5 {
                    lemma_count_small(ds[5], d);
                } else if v == 6 {
                    lemma_count_small(ds[6], d);
                } else if v == 7 {
                    lemma_count_small(ds[7], d);
                } else if v == 8 {
                    lemma_count_small(ds[8], d);
                } else {
                    lemma_count_small(ds[9], d);
                }
            } else {
                assert forall|p: int| 0 <= p < outs[d].len() implies outs[d][p] != v by {
                    assert((outs[d][p] as int) < 10);
                }
                lemma_count_absent(outs[d], v, outs[d].len() as int);
            }
        }
        lemma_sorted_counts_equal(outs[d], cand[d]);
    }
    assert(outs =~= cand);
}


} // verus!
