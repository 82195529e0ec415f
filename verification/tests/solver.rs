use depsolve::graph::busiest_node;
use depsolve::graph::GraphBuilder;
use depsolve::history::History;
use depsolve::samples::cycle;
use depsolve::samples::programs;

fn position(order: &[usize], idx: usize) -> usize {
    order
        .iter()
        .position(|&x| x == idx)
        .expect("index missing from order")
}

fn assert_permutation(order: &[usize], n: usize) {
    assert_eq!(order.len(), n);
    let mut seen = vec![false; n];
    for &i in order {
        assert!(i < n);
        assert!(!seen[i], "index listed twice");
        seen[i] = true;
    }
}

#[test]
fn empty_graph_yields_empty_order() {
    let builder: GraphBuilder<u32> = GraphBuilder::default();
    let graph = builder.build();
    assert_eq!(graph.len(), 0);
    assert_eq!(graph.solve(), Vec::<usize>::new());
}

#[test]
fn no_edges_scheduled_in_index_order() {
    let mut builder: GraphBuilder<&str> = GraphBuilder::default();
    builder.add_node("x", Vec::new());
    builder.add_node("y", Vec::new());
    builder.add_node("z", Vec::new());
    let graph = builder.build();
    assert_eq!(graph.solve(), vec![0, 1, 2]);
}

#[test]
fn add_node_assigns_indices_in_creation_order() {
    let mut builder: GraphBuilder<&str> = GraphBuilder::default();
    assert_eq!(builder.add_node("first", Vec::new()), 0);
    assert_eq!(builder.add_node("second", Vec::new()), 1);
    assert_eq!(builder.add_node("third", vec![0, 1]), 2);
}

#[test]
fn payloads_reachable_by_index() {
    let mut builder: GraphBuilder<&str> = GraphBuilder::default();
    builder.add_node("alpha", Vec::new());
    builder.add_node("beta", vec![0]);
    let graph = builder.build();
    assert_eq!(graph.len(), 2);
    assert_eq!(*graph.node(0), "alpha");
    assert_eq!(*graph.node(1), "beta");
}

#[test]
fn self_loop_yields_single_element() {
    let mut builder: GraphBuilder<&str> = GraphBuilder::default();
    let only = builder.add_node("only", Vec::new());
    builder.add_deps(only, vec![only]);
    let graph = builder.build();
    assert_eq!(graph.solve(), vec![0]);
}

#[test]
fn disconnected_chains_keep_their_internal_order() {
    let mut builder: GraphBuilder<&str> = GraphBuilder::default();
    let a = builder.add_node("a", Vec::new());
    let b = builder.add_node("b", vec![a]);
    let c = builder.add_node("c", Vec::new());
    let d = builder.add_node("d", vec![c]);
    let graph = builder.build();
    let order = graph.solve();
    assert_permutation(&order, 4);
    assert!(position(&order, a) < position(&order, b));
    assert!(position(&order, c) < position(&order, d));
}

#[test]
fn retroactive_dependency_reverses_two_nodes() {
    let mut builder: GraphBuilder<&str> = GraphBuilder::default();
    let early = builder.add_node("early", Vec::new());
    let late = builder.add_node("late", Vec::new());
    builder.add_deps(early, vec![late]);
    let graph = builder.build();
    assert_eq!(graph.solve(), vec![late, early]);
}

#[test]
fn duplicate_edges_are_not_double_counted() {
    let mut builder: GraphBuilder<&str> = GraphBuilder::default();
    let a = builder.add_node("a", Vec::new());
    let b = builder.add_node("b", vec![a, a]);
    let graph = builder.build();
    assert_eq!(graph.solve(), vec![a, b]);
}

#[test]
fn diamond_respects_all_edges() {
    let mut builder: GraphBuilder<&str> = GraphBuilder::default();
    let root = builder.add_node("root", Vec::new());
    let left = builder.add_node("left", vec![root]);
    let right = builder.add_node("right", vec![root]);
    let join = builder.add_node("join", vec![left, right]);
    let graph = builder.build();
    let order = graph.solve();
    assert_permutation(&order, 4);
    assert!(position(&order, root) < position(&order, left));
    assert!(position(&order, root) < position(&order, right));
    assert!(position(&order, left) < position(&order, join));
    assert!(position(&order, right) < position(&order, join));
}

#[test]
fn startup_graph_names_its_programs() {
    let graph = programs();
    let names: Vec<&str> = (0..graph.len()).map(|i| *graph.node(i)).collect();
    assert_eq!(names, vec!["boot", "xorg", "dwm", "net", "firefox"]);
}

#[test]
fn cycle_graph_names_its_nodes() {
    let graph = cycle();
    let names: Vec<&str> = (0..graph.len()).map(|i| *graph.node(i)).collect();
    assert_eq!(names, vec!["a", "b", "c", "d", "e", "f", "g", "i", "j", "k"]);
}

#[test]
fn repair_rule_picks_largest_counter_lowest_index() {
    // The counters of the cycle graph at its stall, built by hand.
    let counters = vec![0, 0, 2, 1, 1, 1, 1, 1, 1, 1];
    assert_eq!(busiest_node(&counters), 2);
    // Ties go to the lowest index.
    assert_eq!(busiest_node(&vec![0, 1, 1]), 1);
}

#[test]
fn equal_builders_build_equal_orders() {
    // Deferring a dependency through add_deps is the same as supplying it
    // at creation; both routes build the same graph.
    let mut direct: GraphBuilder<&str> = GraphBuilder::default();
    direct.add_node("x", Vec::new());
    direct.add_node("y", vec![0]);
    direct.add_node("z", vec![0, 1]);
    let mut deferred: GraphBuilder<&str> = GraphBuilder::default();
    deferred.add_node("x", Vec::new());
    deferred.add_node("y", Vec::new());
    deferred.add_node("z", vec![0]);
    deferred.add_deps(1, vec![0]);
    deferred.add_deps(2, vec![1]);
    assert_eq!(direct.build().solve(), deferred.build().solve());
}

#[test]
fn startup_graph_orders_programs() {
    let graph = programs();
    let order = graph.solve();
    assert_permutation(&order, 5);
    let boot = position(&order, 0);
    let xorg = position(&order, 1);
    let dwm = position(&order, 2);
    let net = position(&order, 3);
    let firefox = position(&order, 4);
    assert_eq!(boot, 0);
    assert!(boot < xorg);
    assert!(xorg < dwm);
    assert!(boot < net);
    assert!(net < firefox);
    assert!(xorg < firefox);
    // With first-in-first-out draining the order is exactly this one.
    assert_eq!(order, vec![0, 1, 3, 2, 4]);
}

#[test]
fn cycle_graph_breaks_at_the_busiest_node() {
    let graph = cycle();
    let order = graph.solve();
    assert_permutation(&order, 10);
    // Scratch state at the stall, built by hand: after a (0) and b (1)
    // drain, the counters are [0, 0, 2, 1, 1, 1, 1, 1, 1, 1]. The repair
    // rule picks the strictly largest counter, which is node c (2), so c is
    // scheduled third.
    assert_eq!(order[2], 2);
    assert_eq!(order, vec![0, 1, 2, 3, 4, 7, 5, 8, 6, 9]);
}

#[test]
fn two_node_cycle_breaks_at_lowest_index() {
    let mut builder: GraphBuilder<&str> = GraphBuilder::default();
    let first = builder.add_node("first", Vec::new());
    let second = builder.add_node("second", vec![first]);
    builder.add_deps(first, vec![second]);
    let graph = builder.build();
    // Both counters are 1 at the stall; the tie goes to the lowest index.
    assert_eq!(graph.solve(), vec![first, second]);
}

#[test]
fn solving_twice_gives_identical_orders() {
    let acyclic_graph = programs();
    assert_eq!(acyclic_graph.solve(), acyclic_graph.solve());
    let cyclic_graph = cycle();
    assert_eq!(cyclic_graph.solve(), cyclic_graph.solve());
}

#[test]
fn history_shifts_current_into_last() {
    let history = History::new(7u64, 9u64);
    assert_eq!(history.last, 7);
    assert_eq!(history.current, 9);
    let history = history.push(11);
    assert_eq!(history.last, 9);
    assert_eq!(history.current, 11);
}
