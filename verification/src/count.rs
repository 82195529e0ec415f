//! Counting specifications for edge bookkeeping.
//!
//! The solver stores the reverse adjacency as rows: `outs[d]` lists the nodes
//! that depend on `d`. An edge is a position `(f, j)` in those rows, and it
//! points *into* the node `outs[f][j]`. A parallel table of flags marks edges
//! that have already been accounted for (disabled). These functions count
//! edges into a given target, either all of them or only the still-enabled
//! ones, and sum the per-node counters.

use vstd::prelude::*;

verus! {

/// Occurrences of `t` among the first `upto` entries of `row`.
pub open spec fn count_in_row_upto(row: Seq<usize>, t: int, upto: int) -> int
    decreases upto,
{
    if upto <= 0 {
        0
    } else {
        count_in_row_upto(row, t, upto - 1) + if row[upto - 1] == t {
            1int
        } else {
            0int
        }
    }
}

/// Occurrences of `t` in the whole of `row`.
pub open spec fn count_in_row(row: Seq<usize>, t: int) -> int {
    count_in_row_upto(row, t, row.len() as int)
}

/// Edges into `t` among the first `rows` rows: total occurrences of `t`.
pub open spec fn edges_into_upto(outs: Seq<Seq<usize>>, t: int, rows: int) -> int
    decreases rows,
{
    if rows <= 0 {
        0
    } else {
        edges_into_upto(outs, t, rows - 1) + count_in_row(outs[rows - 1], t)
    }
}

/// Edges into `t` across all rows.
pub open spec fn edges_into(outs: Seq<Seq<usize>>, t: int) -> int {
    edges_into_upto(outs, t, outs.len() as int)
}

/// Enabled occurrences of `t` among the first `upto` entries of `row`,
/// where `dis[j]` marks entry `j` as disabled.
pub open spec fn enabled_in_row_upto(row: Seq<usize>, dis: Seq<bool>, t: int, upto: int) -> int
    decreases upto,
{
    if upto <= 0 {
        0
    } else {
        enabled_in_row_upto(row, dis, t, upto - 1) + if row[upto - 1] == t && !dis[upto - 1] {
            1int
        } else {
            0int
        }
    }
}

/// Enabled occurrences of `t` in the whole of `row`.
pub open spec fn enabled_in_row(row: Seq<usize>, dis: Seq<bool>, t: int) -> int {
    enabled_in_row_upto(row, dis, t, row.len() as int)
}

/// Enabled edges into `t` among the first `rows` rows.
pub open spec fn enabled_into_upto(
    outs: Seq<Seq<usize>>,
    diss: Seq<Seq<bool>>,
    t: int,
    rows: int,
) -> int
    decreases rows,
{
    if rows <= 0 {
        0
    } else {
        enabled_into_upto(outs, diss, t, rows - 1) + enabled_in_row(outs[rows - 1], diss[rows - 1], t)
    }
}

/// Enabled edges into `t` across all rows.
pub open spec fn enabled_into(outs: Seq<Seq<usize>>, diss: Seq<Seq<bool>>, t: int) -> int {
    enabled_into_upto(outs, diss, t, outs.len() as int)
}

/// Sum of the first `k` entries of `s`.
pub open spec fn sum_upto(s: Seq<usize>, k: int) -> int
    decreases k,
{
    if k <= 0 {
        0
    } else {
        sum_upto(s, k - 1) + s[k - 1]
    }
}

/// Sum of all entries of `s`.
pub open spec fn sum_all(s: Seq<usize>) -> int {
    sum_upto(s, s.len() as int)
}

pub proof fn lemma_count_nonneg(row: Seq<usize>, t: int, upto: int)
    ensures
        0 <= count_in_row_upto(row, t, upto),
    decreases upto,
{
    if upto > 0 {
        lemma_count_nonneg(row, t, upto - 1);
    }
}

/// A value absent from a row is counted zero times.
pub proof fn lemma_count_absent(row: Seq<usize>, t: int, upto: int)
    requires
        forall|p: int| 0 <= p < upto ==> row[p] != t,
    ensures
        count_in_row_upto(row, t, upto) == 0,
    decreases upto,
{
    if upto > 0 {
        lemma_count_absent(row, t, upto - 1);
    }
}

/// A positive count names an occurrence.
pub proof fn lemma_count_occurrence(row: Seq<usize>, t: int, upto: int)
    requires
        count_in_row_upto(row, t, upto) > 0,
    ensures
        exists|p: int| 0 <= p < upto && row[p] == t,
    decreases upto,
{
    if upto > 0 {
        if row[upto - 1] == t {
            assert(0 <= upto - 1 < upto && row[upto - 1] == t);
        } else {
            lemma_count_occurrence(row, t, upto - 1);
        }
    }
}

/// An occurrence makes the count positive.
pub proof fn lemma_occurrence_count(row: Seq<usize>, t: int, p: int, upto: int)
    requires
        0 <= p < upto,
        row[p] == t,
    ensures
        count_in_row_upto(row, t, upto) >= 1,
    decreases upto,
{
    if p == upto - 1 {
        lemma_count_nonneg(row, t, upto - 1);
    } else {
        lemma_occurrence_count(row, t, p, upto - 1);
    }
}

/// Evaluates the count over a row of at most three entries.
pub proof fn lemma_count_small(row: Seq<usize>, v: int)
    requires
        row.len() <= 3,
    ensures
        count_in_row(row, v) == (if row.len() > 0 && row[0] == v {
            1int
        } else {
            0int
        }) + (if row.len() > 1 && row[1] == v {
            1int
        } else {
            0int
        }) + (if row.len() > 2 && row[2] == v {
            1int
        } else {
            0int
        }),
{
    assert(count_in_row_upto(row, v, 0) == 0);
    assert(count_in_row_upto(row, v, 1) == count_in_row_upto(row, v, 0) + if row[0] == v {
        1int
    } else {
        0int
    });
    assert(count_in_row_upto(row, v, 2) == count_in_row_upto(row, v, 1) + if row[1] == v {
        1int
    } else {
        0int
    });
    assert(count_in_row_upto(row, v, 3) == count_in_row_upto(row, v, 2) + if row[2] == v {
        1int
    } else {
        0int
    });
}

/// Two nondecreasing rows in which every value occurs equally often are the
/// same row: the counts fix the multiset, and the order fixes the listing.
pub proof fn lemma_sorted_counts_equal(r1: Seq<usize>, r2: Seq<usize>)
    requires
        forall|j1: int, j2: int| #![trigger r1[j1], r1[j2]]
            0 <= j1 <= j2 < r1.len() ==> r1[j1] <= r1[j2],
        forall|j1: int, j2: int| #![trigger r2[j1], r2[j2]]
            0 <= j1 <= j2 < r2.len() ==> r2[j1] <= r2[j2],
        forall|v: int| #[trigger] count_in_row(r1, v) == count_in_row(r2, v),
    ensures
        r1 == r2,
    decreases r1.len(),
{
    if r1.len() == 0 && r2.len() == 0 {
        assert(r1 =~= r2);
    } else if r1.len() == 0 {
        let t = r2.last();
        lemma_occurrence_count(r2, t as int, r2.len() - 1, r2.len() as int);
        assert(count_in_row(r2, t as int) >= 1);
        assert(count_in_row(r1, t as int) == 0);
        assert(false);
    } else if r2.len() == 0 {
        let t = r1.last();
        lemma_occurrence_count(r1, t as int, r1.len() - 1, r1.len() as int);
        assert(count_in_row(r1, t as int) >= 1);
        assert(count_in_row(r2, t as int) == 0);
        assert(false);
    } else {
        let a = r1.last();
        let b = r2.last();
        lemma_occurrence_count(r1, a as int, r1.len() - 1, r1.len() as int);
        assert(count_in_row(r1, a as int) >= 1);
        assert(count_in_row(r2, a as int) >= 1);
        lemma_count_occurrence(r2, a as int, r2.len() as int);
        let pa = choose|p: int| 0 <= p < r2.len() && r2[p] == a;
        assert(r2[pa] <= r2[r2.len() - 1]);
        lemma_occurrence_count(r2, b as int, r2.len() - 1, r2.len() as int);
        assert(count_in_row(r2, b as int) >= 1);
        assert(count_in_row(r1, b as int) >= 1);
        lemma_count_occurrence(r1, b as int, r1.len() as int);
        let pb = choose|p: int| 0 <= p < r1.len() && r1[p] == b;
        assert(r1[pb] <= r1[r1.len() - 1]);
        assert(a == b);
        let s1 = r1.drop_last();
        let s2 = r2.drop_last();
        assert forall|v: int| #[trigger] count_in_row(s1, v) == count_in_row(s2, v) by {
            assert(count_in_row(r1, v) == count_in_row(r2, v));
            lemma_count_agree(s1, r1, v, s1.len() as int);
            lemma_count_agree(s2, r2, v, s2.len() as int);
            assert(count_in_row(s1, v) == count_in_row_upto(r1, v, r1.len() - 1));
            assert(count_in_row(s2, v) == count_in_row_upto(r2, v, r2.len() - 1));
        }
        assert forall|j1: int, j2: int| #![trigger s1[j1], s1[j2]]
            0 <= j1 <= j2 < s1.len() implies s1[j1] <= s1[j2] by {
            assert(r1[j1] <= r1[j2]);
        }
        assert forall|j1: int, j2: int| #![trigger s2[j1], s2[j2]]
            0 <= j1 <= j2 < s2.len() implies s2[j1] <= s2[j2] by {
            assert(r2[j1] <= r2[j2]);
        }
        lemma_sorted_counts_equal(s1, s2);
        assert(r1 =~= s1.push(a));
        assert(r2 =~= s2.push(b));
    }
}

/// Empty rows hold no edges.
pub proof fn lemma_edges_into_empty(outs: Seq<Seq<usize>>, t: int, rows: int)
    requires
        forall|f: int| 0 <= f < rows ==> outs[f].len() == 0,
    ensures
        edges_into_upto(outs, t, rows) == 0,
    decreases rows,
{
    if rows > 0 {
        lemma_edges_into_empty(outs, t, rows - 1);
    }
}

pub proof fn lemma_count_agree(r1: Seq<usize>, r2: Seq<usize>, t: int, upto: int)
    requires
        forall|x: int| 0 <= x < upto ==> r1[x] == r2[x],
    ensures
        count_in_row_upto(r1, t, upto) == count_in_row_upto(r2, t, upto),
    decreases upto,
{
    if upto > 0 {
        lemma_count_agree(r1, r2, t, upto - 1);
    }
}

/// Appending one entry adds one occurrence of the appended value.
pub proof fn lemma_count_push(row: Seq<usize>, v: usize, t: int)
    ensures
        count_in_row(row.push(v), t) == count_in_row(row, t) + if v == t {
            1int
        } else {
            0int
        },
{
    let r2 = row.push(v);
    lemma_count_agree(row, r2, t, row.len() as int);
}

/// Appending to one row shifts the edge totals by exactly that entry.
pub proof fn lemma_edges_into_push(outs: Seq<Seq<usize>>, d: int, v: usize, t: int, rows: int)
    requires
        0 <= d < outs.len(),
        rows <= outs.len(),
    ensures
        edges_into_upto(outs.update(d, outs[d].push(v)), t, rows) == edges_into_upto(outs, t, rows)
            + if d < rows && v == t {
            1int
        } else {
            0int
        },
    decreases rows,
{
    if rows > 0 {
        lemma_edges_into_push(outs, d, v, t, rows - 1);
        if rows - 1 == d {
            lemma_count_push(outs[d], v, t);
        }
    }
}

pub proof fn lemma_enabled_row_nonneg(row: Seq<usize>, dis: Seq<bool>, t: int, upto: int)
    ensures
        enabled_in_row_upto(row, dis, t, upto) >= 0,
    decreases upto,
{
    if upto > 0 {
        lemma_enabled_row_nonneg(row, dis, t, upto - 1);
    }
}

pub proof fn lemma_enabled_into_nonneg(outs: Seq<Seq<usize>>, diss: Seq<Seq<bool>>, t: int, rows: int)
    ensures
        enabled_into_upto(outs, diss, t, rows) >= 0,
    decreases rows,
{
    if rows > 0 {
        lemma_enabled_into_nonneg(outs, diss, t, rows - 1);
        lemma_enabled_row_nonneg(outs[rows - 1], diss[rows - 1], t, outs[rows - 1].len() as int);
    }
}

/// With every flag clear, the enabled count is the full count.
pub proof fn lemma_enabled_row_all_clear(row: Seq<usize>, dis: Seq<bool>, t: int, upto: int)
    requires
        forall|j: int| 0 <= j < upto ==> !dis[j],
    ensures
        enabled_in_row_upto(row, dis, t, upto) == count_in_row_upto(row, t, upto),
    decreases upto,
{
    if upto > 0 {
        lemma_enabled_row_all_clear(row, dis, t, upto - 1);
    }
}

/// With every flag clear, the enabled totals equal the full totals.
pub proof fn lemma_enabled_into_all_clear(
    outs: Seq<Seq<usize>>,
    diss: Seq<Seq<bool>>,
    t: int,
    rows: int,
)
    requires
        rows <= outs.len(),
        forall|f: int| 0 <= f < rows ==> diss[f].len() == outs[f].len(),
        forall|f: int, j: int| 0 <= f < rows && 0 <= j < diss[f].len() ==> !diss[f][j],
    ensures
        enabled_into_upto(outs, diss, t, rows) == edges_into_upto(outs, t, rows),
    decreases rows,
{
    if rows > 0 {
        lemma_enabled_into_all_clear(outs, diss, t, rows - 1);
        lemma_enabled_row_all_clear(outs[rows - 1], diss[rows - 1], t, outs[rows - 1].len() as int);
    }
}

/// Setting the flag of one enabled entry lowers the row count by one when
/// that entry holds `t`, and leaves it unchanged otherwise.
pub proof fn lemma_enabled_row_disable(row: Seq<usize>, dis: Seq<bool>, j: int, t: int, upto: int)
    requires
        0 <= j < dis.len(),
        !dis[j],
        upto <= dis.len(),
    ensures
        enabled_in_row_upto(row, dis.update(j, true), t, upto) == enabled_in_row_upto(
            row,
            dis,
            t,
            upto,
        ) - if j < upto && row[j] == t {
            1int
        } else {
            0int
        },
    decreases upto,
{
    if upto > 0 {
        lemma_enabled_row_disable(row, dis, j, t, upto - 1);
    }
}

/// Disabling the edge at `(f, j)` lowers the totals into its target by one
/// and leaves every other target's totals unchanged.
pub proof fn lemma_enabled_into_disable(
    outs: Seq<Seq<usize>>,
    diss: Seq<Seq<bool>>,
    f: int,
    j: int,
    t: int,
    rows: int,
)
    requires
        0 <= f < diss.len(),
        diss.len() == outs.len(),
        diss[f].len() == outs[f].len(),
        0 <= j < diss[f].len(),
        !diss[f][j],
        rows <= outs.len(),
    ensures
        enabled_into_upto(outs, diss.update(f, diss[f].update(j, true)), t, rows)
            == enabled_into_upto(outs, diss, t, rows) - if f < rows && outs[f][j] == t {
            1int
        } else {
            0int
        },
    decreases rows,
{
    if rows > 0 {
        lemma_enabled_into_disable(outs, diss, f, j, t, rows - 1);
        if rows - 1 == f {
            lemma_enabled_row_disable(outs[f], diss[f], j, t, outs[f].len() as int);
        }
    }
}

/// An enabled entry holding `t` makes the row count positive.
pub proof fn lemma_enabled_row_positive(row: Seq<usize>, dis: Seq<bool>, j: int, t: int, upto: int)
    requires
        0 <= j < upto,
        row[j] == t,
        !dis[j],
    ensures
        enabled_in_row_upto(row, dis, t, upto) >= 1,
    decreases upto,
{
    if j == upto - 1 {
        lemma_enabled_row_nonneg(row, dis, t, upto - 1);
    } else {
        lemma_enabled_row_positive(row, dis, j, t, upto - 1);
    }
}

/// An enabled edge into `t` makes the totals into `t` positive.
pub proof fn lemma_enabled_into_positive(
    outs: Seq<Seq<usize>>,
    diss: Seq<Seq<bool>>,
    f: int,
    j: int,
    rows: int,
)
    requires
        0 <= f < rows,
        rows <= outs.len(),
        diss.len() == outs.len(),
        diss[f].len() == outs[f].len(),
        0 <= j < outs[f].len(),
        !diss[f][j],
    ensures
        enabled_into_upto(outs, diss, outs[f][j] as int, rows) >= 1,
    decreases rows,
{
    let t = outs[f][j] as int;
    if f == rows - 1 {
        lemma_enabled_into_nonneg(outs, diss, t, rows - 1);
        lemma_enabled_row_positive(outs[f], diss[f], j, t, outs[f].len() as int);
    } else {
        lemma_enabled_into_positive(outs, diss, f, j, rows - 1);
        lemma_enabled_row_nonneg(outs[rows - 1], diss[rows - 1], t, outs[rows - 1].len() as int);
    }
}

/// A row in which no enabled entry holds `t` contributes nothing to `t`.
pub proof fn lemma_enabled_row_none(row: Seq<usize>, dis: Seq<bool>, t: int, upto: int)
    requires
        forall|j: int| 0 <= j < upto ==> !(row[j] == t && !dis[j]),
    ensures
        enabled_in_row_upto(row, dis, t, upto) == 0,
    decreases upto,
{
    if upto > 0 {
        lemma_enabled_row_none(row, dis, t, upto - 1);
    }
}

/// When no enabled edge points into `t`, the totals into `t` are zero.
pub proof fn lemma_enabled_into_none(
    outs: Seq<Seq<usize>>,
    diss: Seq<Seq<bool>>,
    t: int,
    rows: int,
)
    requires
        rows <= outs.len(),
        forall|f: int, j: int|
            0 <= f < rows && 0 <= j < outs[f].len() ==> !(outs[f][j] == t && !diss[f][j]),
    ensures
        enabled_into_upto(outs, diss, t, rows) == 0,
    decreases rows,
{
    if rows > 0 {
        lemma_enabled_into_none(outs, diss, t, rows - 1);
        lemma_enabled_row_none(outs[rows - 1], diss[rows - 1], t, outs[rows - 1].len() as int);
    }
}

proof fn lemma_enabled_row_le_count(row: Seq<usize>, dis: Seq<bool>, t: int, upto: int)
    ensures
        enabled_in_row_upto(row, dis, t, upto) <= count_in_row_upto(row, t, upto),
    decreases upto,
{
    if upto > 0 {
        lemma_enabled_row_le_count(row, dis, t, upto - 1);
    }
}

/// Disabling edges never raises a count: the enabled edges into `t` are
/// among all the edges into `t`.
pub proof fn lemma_enabled_le_edges(
    outs: Seq<Seq<usize>>,
    diss: Seq<Seq<bool>>,
    t: int,
    rows: int,
)
    ensures
        enabled_into_upto(outs, diss, t, rows) <= edges_into_upto(outs, t, rows),
    decreases rows,
{
    if rows > 0 {
        lemma_enabled_le_edges(outs, diss, t, rows - 1);
        lemma_enabled_row_le_count(outs[rows - 1], diss[rows - 1], t, outs[rows - 1].len() as int);
    }
}

/// Replacing one entry moves the sum by the difference.
pub proof fn lemma_sum_update(s: Seq<usize>, i: int, v: usize, k: int)
    requires
        0 <= i < s.len(),
        k <= s.len(),
    ensures
        sum_upto(s.update(i, v), k) == sum_upto(s, k) + if i < k {
            v - s[i]
        } else {
            0int
        },
    decreases k,
{
    if k > 0 {
        lemma_sum_update(s, i, v, k - 1);
    }
}

pub proof fn lemma_sum_nonneg(s: Seq<usize>, k: int)
    ensures
        sum_upto(s, k) >= 0,
    decreases k,
{
    if k > 0 {
        lemma_sum_nonneg(s, k - 1);
    }
}

/// A zero sum forces every summand to zero.
pub proof fn lemma_sum_zero(s: Seq<usize>, k: int)
    requires
        k <= s.len(),
        sum_upto(s, k) == 0,
    ensures
        forall|i: int| 0 <= i < k ==> s[i] == 0,
    decreases k,
{
    if k > 0 {
        lemma_sum_nonneg(s, k - 1);
        lemma_sum_zero(s, k - 1);
    }
}

/// A positive sum has a positive summand.
pub proof fn lemma_sum_positive(s: Seq<usize>, k: int)
    requires
        k <= s.len(),
        sum_upto(s, k) > 0,
    ensures
        exists|i: int| 0 <= i < k && s[i] > 0,
    decreases k,
{
    if k > 0 {
        if s[k - 1] > 0 {
            assert(0 <= k - 1 < k && s[k - 1] > 0);
        } else {
            lemma_sum_positive(s, k - 1);
        }
    }
}

/// Each summand fits in 64 bits, so `k` of them stay under `k * u64::MAX`.
pub proof fn lemma_sum_bound(s: Seq<usize>, k: int)
    requires
        0 <= k,
    ensures
        sum_upto(s, k) <= k * (u64::MAX as int),
    decreases k,
{
    if k > 0 {
        lemma_sum_bound(s, k - 1);
        assert((k - 1) * (u64::MAX as int) + (u64::MAX as int) == k * (u64::MAX as int))
            by (nonlinear_arith);
    }
}

} // verus!
