//! What it means for a solver result to be correct: being a permutation of
//! the node indices, respecting the dependency lists, and the notion of
//! acyclicity the solver's contract is stated against.

use vstd::prelude::*;
use vstd::set_lib::lemma_len_subset;
use vstd::set_lib::lemma_map_size;
use vstd::set_lib::lemma_int_range;
use vstd::set_lib::set_int_range;
use vstd::relations::injective_on;

verus! {

/// `r` lists every index below `n` exactly once.
pub open spec fn is_permutation_of(r: Seq<usize>, n: int) -> bool {
    &&& r.len() == n
    &&& r.no_duplicates()
    &&& forall|i: usize| (i as int) < n ==> r.contains(i)
}

/// The `k`-th dependency of the node at position `p` of `r` appears at some
/// strictly earlier position of `r`.
pub open spec fn dep_placed_before(r: Seq<usize>, deps: Seq<Seq<usize>>, p: int, k: int) -> bool {
    exists|q: int| 0 <= q < p && r[q] == deps[r[p] as int][k]
}

/// Every dependency of every listed node appears strictly earlier in `r`.
/// `deps[i]` is the list of indices node `i` depends on.
pub open spec fn respects_deps(r: Seq<usize>, deps: Seq<Seq<usize>>) -> bool {
    forall|p: int, k: int|
        0 <= p < r.len() && 0 <= k < deps[r[p] as int].len() ==> #[trigger] dep_placed_before(
            r,
            deps,
            p,
            k,
        )
}

/// Every dependency of every listed node outside `broken` appears strictly
/// earlier in `r`. The solver's repair step force-clears the remaining
/// inbound edges of the nodes it picks to break a cycle; only those nodes
/// may be scheduled ahead of their dependencies.
pub open spec fn respects_deps_except(
    r: Seq<usize>,
    deps: Seq<Seq<usize>>,
    broken: Set<usize>,
) -> bool {
    forall|p: int, k: int|
        0 <= p < r.len() && 0 <= k < deps[r[p] as int].len() && !broken.contains(r[p])
            ==> #[trigger] dep_placed_before(r, deps, p, k)
}

/// With nothing broken, the qualified ordering property is ordinary
/// dependency order.
pub proof fn lemma_respects_no_exceptions(r: Seq<usize>, deps: Seq<Seq<usize>>)
    requires
        respects_deps_except(r, deps, Set::empty()),
    ensures
        respects_deps(r, deps),
{
    assert forall|p: int, k: int|
        0 <= p < r.len() && 0 <= k < deps[r[p] as int].len() implies #[trigger] dep_placed_before(
        r,
        deps,
        p,
        k,
    ) by {
        assert(!Set::<usize>::empty().contains(r[p]));
    }
}

/// A nonempty set of nodes each of which depends on a member of the set.
/// No member of such a set can ever be scheduled first among them, so the
/// set witnesses a dependency cycle.
pub open spec fn stuck_set(deps: Seq<Seq<usize>>, s: Set<usize>) -> bool {
    &&& exists|i: usize| s.contains(i)
    &&& forall|i: usize| s.contains(i) ==> (i as int) < deps.len()
    &&& forall|i: usize| #[trigger] s.contains(i) ==> exists|k: int|
            0 <= k < deps[i as int].len() && s.contains(deps[i as int][k])
}

/// A dependency relation is acyclic when it admits no stuck set. For finite
/// graphs this coincides with the absence of a directed dependency cycle:
/// the nodes of a cycle form a stuck set, and a stuck set contains a cycle
/// because each member has a predecessor inside the set.
pub open spec fn acyclic(deps: Seq<Seq<usize>>) -> bool {
    forall|s: Set<usize>| !(#[trigger] stuck_set(deps, s))
}

/// The node at position `p` of `c` depends on the node at the next position
/// of `c`, wrapping around at the end.
pub open spec fn cycle_step(deps: Seq<Seq<usize>>, c: Seq<usize>, p: int) -> bool {
    exists|k: int|
        0 <= k < deps[c[p] as int].len() && deps[c[p] as int][k] == c[if p + 1 < c.len() {
            p + 1
        } else {
            0int
        }]
}

/// `c` is a directed dependency cycle: a nonempty list of nodes, each
/// depending on the next, the last depending on the first.
pub open spec fn is_dependency_cycle(deps: Seq<Seq<usize>>, c: Seq<usize>) -> bool {
    &&& c.len() > 0
    &&& forall|p: int| 0 <= p < c.len() ==> ((#[trigger] c[p]) as int) < deps.len()
    &&& forall|p: int| 0 <= p < c.len() ==> #[trigger] cycle_step(deps, c, p)
}

/// Scans forward for the first listed position whose node lies in `s`.
proof fn first_position_in(r: Seq<usize>, s: Set<usize>, start: int) -> (q: int)
    requires
        0 <= start <= r.len(),
        exists|p: int| start <= p < r.len() && s.contains(#[trigger] r[p]),
    ensures
        start <= q < r.len(),
        s.contains(r[q]),
        forall|p: int| start <= p < q ==> !s.contains(#[trigger] r[p]),
    decreases r.len() - start,
{
    if s.contains(r[start]) {
        start
    } else {
        first_position_in(r, s, start + 1)
    }
}

/// A dependency-respecting permutation certifies acyclicity: the member of a
/// stuck set listed first would need one of its dependencies, also in the
/// set, listed before it.
pub proof fn lemma_topo_order_implies_acyclic(r: Seq<usize>, deps: Seq<Seq<usize>>)
    requires
        is_permutation_of(r, deps.len() as int),
        respects_deps(r, deps),
    ensures
        acyclic(deps),
{
    assert forall|s: Set<usize>| !(#[trigger] stuck_set(deps, s)) by {
        if stuck_set(deps, s) {
            let x = choose|i: usize| s.contains(i);
            assert(r.contains(x));
            let px = choose|p: int| 0 <= p < r.len() && r[p] == x;
            assert(s.contains(r[px]));
            let q = first_position_in(r, s, 0);
            let i = r[q];
            let k = choose|k: int| 0 <= k < deps[i as int].len() && s.contains(deps[i as int][k]);
            assert(dep_placed_before(r, deps, q, k));
            let q2 = choose|q2: int| 0 <= q2 < q && r[q2] == deps[i as int][k];
            assert(s.contains(r[q2]));
            assert(!s.contains(r[q2]));
        }
    }
}

/// A dependency cycle refutes acyclicity: its members form a stuck set.
pub proof fn lemma_cycle_refutes_acyclic(deps: Seq<Seq<usize>>, c: Seq<usize>)
    requires
        is_dependency_cycle(deps, c),
    ensures
        !acyclic(deps),
{
    let s = c.to_set();
    assert(s.contains(c[0]));
    assert forall|i: usize| #[trigger] s.contains(i) implies exists|k: int|
        0 <= k < deps[i as int].len() && s.contains(deps[i as int][k]) by {
        let p = choose|p: int| 0 <= p < c.len() && c[p] == i;
        let succ = if p + 1 < c.len() {
            p + 1
        } else {
            0int
        };
        assert(cycle_step(deps, c, p));
        let k = choose|k: int|
            0 <= k < deps[c[p] as int].len() && deps[c[p] as int][k] == c[succ];
        assert(s.contains(c[succ]));
        assert(0 <= k < deps[i as int].len() && s.contains(deps[i as int][k]));
    }
    assert(stuck_set(deps, s));
}

/// The node at position `p` of `w` depends on the node at position `p + 1`.
spec fn walk_step(deps: Seq<Seq<usize>>, w: Seq<usize>, p: int) -> bool {
    exists|k: int| 0 <= k < deps[w[p] as int].len() && deps[w[p] as int][k] == w[p + 1]
}

/// Walks `m` dependency steps through a stuck set, starting at `x`.
proof fn stuck_walk(deps: Seq<Seq<usize>>, s: Set<usize>, x: usize, m: nat) -> (w: Seq<usize>)
    requires
        forall|i: usize| s.contains(i) ==> (i as int) < deps.len(),
        forall|i: usize| #[trigger] s.contains(i) ==> exists|k: int|
            0 <= k < deps[i as int].len() && s.contains(deps[i as int][k]),
        s.contains(x),
    ensures
        w.len() == m + 1,
        w[0] == x,
        forall|p: int| 0 <= p < w.len() ==> s.contains(#[trigger] w[p]),
        forall|p: int| 0 <= p < m ==> #[trigger] walk_step(deps, w, p),
    decreases m,
{
    if m == 0 {
        seq![x]
    } else {
        let k = choose|k: int| 0 <= k < deps[x as int].len() && s.contains(deps[x as int][k]);
        let d = deps[x as int][k];
        let rest = stuck_walk(deps, s, d, (m - 1) as nat);
        let w = seq![x] + rest;
        assert(w[0] == x);
        assert forall|p: int| 0 <= p < w.len() implies s.contains(#[trigger] w[p]) by {
            if p > 0 {
                assert(w[p] == rest[p - 1]);
            }
        }
        assert forall|p: int| 0 <= p < m implies #[trigger] walk_step(deps, w, p) by {
            if p == 0 {
                assert(w[1] == rest[0]);
                assert(deps[w[0] as int][k] == w[1]);
            } else {
                assert(walk_step(deps, rest, p - 1));
                assert(w[p] == rest[p - 1] && w[p + 1] == rest[p]);
                let kk = choose|kk: int|
                    0 <= kk < deps[rest[p - 1] as int].len() && #[trigger] deps[rest[p
                        - 1] as int][kk] == rest[p];
                assert(deps[w[p] as int][kk] == w[p + 1]);
            }
        }
        w
    }
}

/// A stuck set contains a directed dependency cycle: following dependencies
/// inside the set must revisit a node.
pub proof fn lemma_stuck_set_contains_cycle(deps: Seq<Seq<usize>>, s: Set<usize>)
    requires
        stuck_set(deps, s),
        deps.len() <= usize::MAX,
    ensures
        exists|c: Seq<usize>| is_dependency_cycle(deps, c),
{
    let n = deps.len() as usize;
    let x = choose|i: usize| s.contains(i);
    let w = stuck_walk(deps, s, x, n as nat);
    assert(forall|p: int| 0 <= p < w.len() ==> ((#[trigger] w[p]) as int) < n);
    if w.no_duplicates() {
        lemma_bounded_nodup_len(w, n);
        assert(false);
    }
    let (qa, qb) = choose|qa: int, qb: int|
        0 <= qa < w.len() && 0 <= qb < w.len() && qa != qb && w[qa] == w[qb];
    let lo = if qa < qb {
        qa
    } else {
        qb
    };
    let hi = if qa < qb {
        qb
    } else {
        qa
    };
    let c = w.subrange(lo, hi);
    assert(c.len() == hi - lo > 0);
    assert forall|p: int| 0 <= p < c.len() implies #[trigger] cycle_step(deps, c, p) by {
        assert(c[p] == w[lo + p]);
        assert(walk_step(deps, w, lo + p));
        let kk = choose|kk: int|
            0 <= kk < deps[w[lo + p] as int].len() && #[trigger] deps[w[lo + p] as int][kk] == w[lo
                + p + 1];
        if p + 1 < c.len() {
            assert(c[p + 1] == w[lo + p + 1]);
            assert(deps[c[p] as int][kk] == c[p + 1]);
        } else {
            assert(w[lo + p + 1] == w[hi]);
            assert(w[hi] == w[lo]);
            assert(c[0] == w[lo]);
            assert(deps[c[p] as int][kk] == c[0]);
        }
    }
    assert(is_dependency_cycle(deps, c));
}

/// The closed-set reading of acyclicity coincides with the absence of a
/// directed dependency cycle.
pub proof fn lemma_acyclic_iff_no_cycle(deps: Seq<Seq<usize>>)
    requires
        deps.len() <= usize::MAX,
    ensures
        acyclic(deps) <==> !(exists|c: Seq<usize>| is_dependency_cycle(deps, c)),
{
    if exists|c: Seq<usize>| is_dependency_cycle(deps, c) {
        let c = choose|c: Seq<usize>| is_dependency_cycle(deps, c);
        lemma_cycle_refutes_acyclic(deps, c);
    }
    if !acyclic(deps) {
        let s = choose|s: Set<usize>| stuck_set(deps, s);
        lemma_stuck_set_contains_cycle(deps, s);
    }
}

proof fn lemma_forward_set_empty(deps: Seq<Seq<usize>>, s: Set<usize>, x: usize)
    requires
        forall|i: int, k: int|
            0 <= i < deps.len() && 0 <= k < deps[i].len() ==> (deps[i][k] as int) < i,
        forall|i: usize| s.contains(i) ==> (i as int) < deps.len(),
        forall|i: usize| #[trigger] s.contains(i) ==> exists|k: int|
            0 <= k < deps[i as int].len() && s.contains(deps[i as int][k]),
    ensures
        !s.contains(x),
    decreases x,
{
    if s.contains(x) {
        let k = choose|k: int| 0 <= k < deps[x as int].len() && s.contains(deps[x as int][k]);
        let d = deps[x as int][k];
        lemma_forward_set_empty(deps, s, d);
    }
}

/// When every dependency points to a strictly smaller index, the relation
/// is acyclic. This is the shape the builder produces when no dependency
/// list is extended after the fact.
pub proof fn lemma_forward_deps_acyclic(deps: Seq<Seq<usize>>)
    requires
        forall|i: int, k: int|
            0 <= i < deps.len() && 0 <= k < deps[i].len() ==> (deps[i][k] as int) < i,
    ensures
        acyclic(deps),
{
    assert forall|s: Set<usize>| !(#[trigger] stuck_set(deps, s)) by {
        if stuck_set(deps, s) {
            let x = choose|i: usize| s.contains(i);
            lemma_forward_set_empty(deps, s, x);
        }
    }
}

/// The set of `usize` values below `n` is finite and has `n` elements.
proof fn lemma_usize_below(n: usize)
    ensures
        Set::new(|x: usize| x < n).finite(),
        Set::new(|x: usize| x < n).len() == n,
{
    let ints = set_int_range(0, n as int);
    let f = |i: int| i as usize;
    let s = Set::new(|x: usize| x < n);
    lemma_int_range(0, n as int);
    assert(injective_on(f, ints));
    assert(ints.map(f) =~= s) by {
        assert forall|x: usize| s.contains(x) implies ints.map(f).contains(x) by {
            assert(ints.contains(x as int) && f(x as int) == x);
        }
    }
    lemma_map_size(ints, s, f);
}

/// A duplicate-free sequence of indices below `n` has at most `n` entries.
pub proof fn lemma_bounded_nodup_len(s: Seq<usize>, n: usize)
    requires
        s.no_duplicates(),
        forall|p: int| 0 <= p < s.len() ==> (s[p] as int) < n,
    ensures
        s.len() <= n,
{
    s.unique_seq_to_set();
    let below = Set::new(|x: usize| x < n);
    lemma_usize_below(n);
    assert(s.to_set().subset_of(below));
    lemma_len_subset(s.to_set(), below);
}

/// A duplicate-free sequence of indices below `n` that contains every index
/// below `n` has exactly `n` entries: it is a permutation.
pub proof fn lemma_complete_nodup_len(s: Seq<usize>, n: usize)
    requires
        s.no_duplicates(),
        forall|p: int| 0 <= p < s.len() ==> (s[p] as int) < n,
        forall|i: usize| (i as int) < n ==> s.contains(i),
    ensures
        s.len() == n,
{
    lemma_bounded_nodup_len(s, n);
    s.unique_seq_to_set();
    let below = Set::new(|x: usize| x < n);
    lemma_usize_below(n);
    assert(below.subset_of(s.to_set()));
    lemma_len_subset(below, s.to_set());
}

/// Appending a fresh element keeps a sequence duplicate-free.
pub proof fn lemma_push_nodup(s: Seq<usize>, x: usize)
    requires
        s.no_duplicates(),
        !s.contains(x),
    ensures
        s.push(x).no_duplicates(),
{
    let t = s.push(x);
    assert forall|p: int, q: int| 0 <= p < t.len() && 0 <= q < t.len() && p != q implies t[p]
        != t[q] by {
        if p < s.len() && q < s.len() {
        } else if p < s.len() {
            assert(s[p] == t[p]);
        } else {
            assert(q < s.len() && s[q] == t[q]);
        }
    }
}

/// Membership in a pushed sequence is membership in the shorter sequence or
/// equality with the pushed element.
pub proof fn lemma_push_contains(s: Seq<usize>, x: usize, y: usize)
    ensures
        s.push(x).contains(y) <==> (s.contains(y) || y == x),
{
    let t = s.push(x);
    if s.contains(y) {
        let p = choose|p: int| 0 <= p < s.len() && s[p] == y;
        assert(t[p] == y);
    }
    if y == x {
        assert(t[s.len() as int] == y);
    }
    if t.contains(y) && y != x {
        let p = choose|p: int| 0 <= p < t.len() && t[p] == y;
        assert(p < s.len() && s[p] == y);
    }
}

} // verus!
