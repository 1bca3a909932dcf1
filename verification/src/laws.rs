//! The store's global laws: the coalesced run form of a coverage is unique,
//! and a batch of pairwise-disjoint assignments yields the same table in any
//! insertion order.

use vstd::prelude::*;
use crate::pipeline::all_valid;
use crate::pipeline::last_label;
use crate::store::Run;
use crate::store::run_contains;
use crate::store::seq_covers;
use crate::store::seq_has;
use crate::store::seq_wf;
use crate::store::lemma_unique_run;

verus! {

/// No point lies in both ranges.
pub open spec fn runs_disjoint<L>(a: Run<L>, b: Run<L>) -> bool {
    forall|p: int| !(run_contains(a, p) && #[trigger] run_contains(b, p))
}

/// No point lies in two distinct assignments of the batch.
pub open spec fn pairwise_disjoint<L>(asgns: Seq<Run<L>>) -> bool {
    forall|i: int, j: int|
        0 <= i < j < asgns.len() ==> runs_disjoint(#[trigger] asgns[i], #[trigger] asgns[j])
}

/// In a pairwise-disjoint batch the last containing assignment is the only
/// containing assignment, so `last_label` is determined by membership alone.
pub proof fn lemma_last_label_disjoint<L>(asgns: Seq<Run<L>>, p: int)
    requires
        pairwise_disjoint(asgns),
    ensures
        last_label(asgns, p) is Some <==> exists|i: int|
            0 <= i < asgns.len() && run_contains(#[trigger] asgns[i], p),
        forall|i: int|
            0 <= i < asgns.len() && run_contains(#[trigger] asgns[i], p)
                ==> last_label(asgns, p) == Some(asgns[i].1),
    decreases asgns.len(),
{
    if asgns.len() > 0 {
        let pre = asgns.drop_last();
        let n = asgns.len() - 1;
        assert forall|i: int, j: int| 0 <= i < j < pre.len() implies
            runs_disjoint(#[trigger] pre[i], #[trigger] pre[j]) by {
            assert(runs_disjoint(asgns[i], asgns[j]));
        }
        lemma_last_label_disjoint(pre, p);
        if run_contains(asgns.last(), p) {
            assert forall|i: int|
                0 <= i < asgns.len() && run_contains(#[trigger] asgns[i], p)
                    implies last_label(asgns, p) == Some(asgns[i].1) by {
                if i < n {
                    assert(runs_disjoint(asgns[i], asgns[n]));
                    assert(run_contains(asgns[n], p));
                    assert(false);
                }
            }
        } else {
            assert forall|i: int|
                0 <= i < asgns.len() && run_contains(#[trigger] asgns[i], p)
                    implies last_label(asgns, p) == Some(asgns[i].1) by {
                assert(i < n);
                assert(pre[i] == asgns[i]);
            }
            if last_label(asgns, p) is Some {
                let i = choose|i: int| 0 <= i < pre.len() && run_contains(#[trigger] pre[i], p);
                assert(run_contains(asgns[i], p));
            }
            if exists|i: int| 0 <= i < asgns.len() && run_contains(#[trigger] asgns[i], p) {
                let i = choose|i: int|
                    0 <= i < asgns.len() && run_contains(#[trigger] asgns[i], p);
                assert(i < n);
                assert(run_contains(pre[i], p));
            }
        }
    }
}

/// Inserting a batch of pairwise-disjoint assignments gives every point the
/// same label in any order: `last_label` depends only on the multiset of
/// assignments, not their sequence.
pub proof fn lemma_order_independent<L>(a: Seq<Run<L>>, b: Seq<Run<L>>)
    requires
        a.to_multiset() == b.to_multiset(),
        pairwise_disjoint(a),
        pairwise_disjoint(b),
    ensures
        forall|p: int| last_label(a, p) == last_label(b, p),
{
    a.to_multiset_ensures();
    b.to_multiset_ensures();
    assert forall|p: int| last_label(a, p) == last_label(b, p) by {
        lemma_last_label_disjoint(a, p);
        lemma_last_label_disjoint(b, p);
        if exists|i: int| 0 <= i < a.len() && run_contains(#[trigger] a[i], p) {
            let i = choose|i: int| 0 <= i < a.len() && run_contains(#[trigger] a[i], p);
            let x = a[i];
            assert(a.contains(x));
            assert(a.to_multiset().count(x) > 0);
            assert(b.to_multiset().count(x) > 0);
            assert(b.contains(x));
            let j = choose|j: int| 0 <= j < b.len() && b[j] == x;
            assert(run_contains(b[j], p));
            assert(last_label(a, p) == Some(x.1));
            assert(last_label(b, p) == Some(x.1));
        } else {
            assert(last_label(a, p) is None);
            if exists|j: int| 0 <= j < b.len() && run_contains(#[trigger] b[j], p) {
                let j = choose|j: int| 0 <= j < b.len() && run_contains(#[trigger] b[j], p);
                let x = b[j];
                assert(b.contains(x));
                assert(b.to_multiset().count(x) > 0);
                assert(a.to_multiset().count(x) > 0);
                assert(a.contains(x));
                let i = choose|i: int| 0 <= i < a.len() && a[i] == x;
                assert(run_contains(a[i], p));
                assert(false);
            }
            assert(last_label(b, p) is None);
        }
    }
}

/// A coverage has exactly one well-formed run sequence: two sorted,
/// disjoint, coalesced sequences that cover the same points with the same
/// labels are equal. Hence the enumerated table is determined by the
/// pointwise coverage alone.
pub proof fn lemma_canonical_runs<L>(r1: Seq<Run<L>>, r2: Seq<Run<L>>)
    requires
        seq_wf(r1),
        seq_wf(r2),
        forall|p: int| seq_covers(r1, p) <==> seq_covers(r2, p),
        forall|p: int, l: L| seq_has(r1, p, l) <==> seq_has(r2, p, l),
    ensures
        r1 == r2,
    decreases r1.len(),
{
    if r1.len() == 0 && r2.len() == 0 {
        assert(r1 =~= r2);
    } else if r1.len() == 0 {
        assert(run_contains(r2[0], r2[0].0.0 as int));
        assert(seq_covers(r2, r2[0].0.0 as int));
        assert(false);
    } else if r2.len() == 0 {
        assert(run_contains(r1[0], r1[0].0.0 as int));
        assert(seq_covers(r1, r1[0].0.0 as int));
        assert(false);
    } else {
        let s1 = r1[0].0.0 as int;
        let e1 = r1[0].0.1 as int;
        let s2 = r2[0].0.0 as int;
        let e2 = r2[0].0.1 as int;
        // The first starts agree: each is the least covered point.
        assert(run_contains(r1[0], s1));
        assert(seq_covers(r2, s1));
        let j1 = choose|j: int| 0 <= j < r2.len() && run_contains(#[trigger] r2[j], s1);
        assert(s2 <= r2[j1].0.0 as int <= s1) by {
            if j1 > 0 {
                assert(r2[0].0.1 < r2[j1].0.0);
            }
        }
        assert(run_contains(r2[0], s2));
        assert(seq_covers(r1, s2));
        let i1 = choose|i: int| 0 <= i < r1.len() && run_contains(#[trigger] r1[i], s2);
        assert(s1 <= r1[i1].0.0 as int <= s2) by {
            if i1 > 0 {
                assert(r1[0].0.1 < r1[i1].0.0);
            }
        }
        assert(s1 == s2);
        // The first ends agree, else the longer side would need an adjacent
        // equally-labeled run on the shorter side, against coalescing.
        lemma_first_end_agrees(r1, r2);
        lemma_first_end_agrees(r2, r1);
        assert(e1 == e2);
        // The first labels agree at the shared start point.
        assert(seq_has(r1, s1, r1[0].1));
        assert(seq_has(r2, s1, r1[0].1));
        let j2 = choose|j: int|
            0 <= j < r2.len() && run_contains(#[trigger] r2[j], s1) && r2[j].1 == r1[0].1;
        lemma_unique_run(r2, s1, j2, 0);
        assert(r1[0] == r2[0]);
        // Strip the equal heads and recurse on the tails.
        let t1 = r1.drop_first();
        let t2 = r2.drop_first();
        lemma_wf_drop_first(r1);
        lemma_wf_drop_first(r2);
        assert forall|p: int| seq_covers(t1, p) <==> seq_covers(t2, p) by {
            lemma_tail_coverage(r1, p);
            lemma_tail_coverage(r2, p);
        }
        assert forall|p: int, l: L| seq_has(t1, p, l) <==> seq_has(t2, p, l) by {
            lemma_tail_coverage(r1, p);
            lemma_tail_coverage(r2, p);
            assert(seq_has(t1, p, l) <==> seq_has(r1, p, l) && p > r1[0].0.1 as int);
            assert(seq_has(t2, p, l) <==> seq_has(r2, p, l) && p > r2[0].0.1 as int);
        }
        lemma_canonical_runs(t1, t2);
        assert forall|k: int| 0 <= k < r1.len() implies r1[k] == r2[k] by {
            if k > 0 {
                assert(t1[k - 1] == t2[k - 1]);
            }
        }
        assert(r1 =~= r2);
    }
}

/// The tail of a well-formed run sequence is well-formed.
proof fn lemma_wf_drop_first<L>(rs: Seq<Run<L>>)
    requires
        seq_wf(rs),
        rs.len() > 0,
    ensures
        seq_wf(rs.drop_first()),
{
    let t = rs.drop_first();
    assert forall|i: int| 0 <= i < t.len() implies (#[trigger] t[i]).0.0 <= t[i].0.1 by {
        assert(rs[i + 1].0.0 <= rs[i + 1].0.1);
    }
    assert forall|i: int, j: int| 0 <= i < j < t.len() implies
        (#[trigger] t[i]).0.1 < (#[trigger] t[j]).0.0 by {
        assert(rs[i + 1].0.1 < rs[j + 1].0.0);
    }
    assert forall|i: int| 0 <= i && i + 1 < t.len() && (#[trigger] t[i]).0.1 + 1 == t[i + 1].0.0
        implies t[i].1 != t[i + 1].1 by {
        assert(rs[i + 1].0.1 + 1 == rs[i + 2].0.0);
    }
}

/// Coverage of the tail of a well-formed sequence: exactly the coverage of
/// the whole beyond the first run's end.
proof fn lemma_tail_coverage<L>(rs: Seq<Run<L>>, p: int)
    requires
        seq_wf(rs),
        rs.len() > 0,
    ensures
        seq_covers(rs.drop_first(), p) <==> seq_covers(rs, p) && p > rs[0].0.1 as int,
        forall|l: L|
            seq_has(rs.drop_first(), p, l) <==> seq_has(rs, p, l) && p > rs[0].0.1 as int,
{
    let t = rs.drop_first();
    if seq_covers(t, p) {
        let i = choose|i: int| 0 <= i < t.len() && run_contains(#[trigger] t[i], p);
        assert(t[i] == rs[i + 1]);
        assert(run_contains(rs[i + 1], p));
        assert(rs[0].0.1 < rs[i + 1].0.0);
    }
    if seq_covers(rs, p) && p > rs[0].0.1 as int {
        let i = choose|i: int| 0 <= i < rs.len() && run_contains(#[trigger] rs[i], p);
        assert(i > 0);
        assert(run_contains(t[i - 1], p));
    }
    assert forall|l: L|
        seq_has(t, p, l) <==> seq_has(rs, p, l) && p > rs[0].0.1 as int by {
        if seq_has(t, p, l) {
            let i = choose|i: int|
                0 <= i < t.len() && run_contains(#[trigger] t[i], p) && t[i].1 == l;
            assert(t[i] == rs[i + 1]);
            assert(run_contains(rs[i + 1], p) && rs[i + 1].1 == l);
            assert(rs[0].0.1 < rs[i + 1].0.0);
        }
        if seq_has(rs, p, l) && p > rs[0].0.1 as int {
            let i = choose|i: int|
                0 <= i < rs.len() && run_contains(#[trigger] rs[i], p) && rs[i].1 == l;
            assert(i > 0);
            assert(run_contains(t[i - 1], p) && t[i - 1].1 == l);
        }
    }
}

/// If two well-formed sequences cover alike and start their first runs
/// together, the first run of `r1` ends no earlier than that of `r2`:
/// otherwise the point just past it would force an adjacent run of the same
/// label in `r1`, against coalescing.
proof fn lemma_first_end_agrees<L>(r1: Seq<Run<L>>, r2: Seq<Run<L>>)
    requires
        seq_wf(r1),
        seq_wf(r2),
        r1.len() > 0,
        r2.len() > 0,
        r1[0].0.0 == r2[0].0.0,
        forall|p: int| seq_covers(r1, p) <==> seq_covers(r2, p),
        forall|p: int, l: L| seq_has(r1, p, l) <==> seq_has(r2, p, l),
    ensures
        r1[0].0.1 >= r2[0].0.1,
{
    let s = r1[0].0.0 as int;
    let e1 = r1[0].0.1 as int;
    let e2 = r2[0].0.1 as int;
    if e1 < e2 {
        // The point e1 + 1 is covered (inside r2's first run) and so must
        // start a new run of r1, adjacent to its first.
        assert(run_contains(r2[0], e1 + 1));
        assert(seq_covers(r2, e1 + 1));
        assert(seq_covers(r1, e1 + 1));
        let i = choose|i: int| 0 <= i < r1.len() && run_contains(#[trigger] r1[i], e1 + 1);
        assert(i > 0);
        assert(r1[0].0.1 < r1[i].0.0);
        assert(r1[i].0.0 as int == e1 + 1);
        // That run is the very next one.
        assert(i == 1) by {
            if i > 1 {
                assert(r1[1].0.1 < r1[i].0.0);
                assert(r1[0].0.1 < r1[1].0.0);
                assert(r1[1].0.0 <= r1[1].0.1);
            }
        }
        // Both e1 and e1 + 1 lie inside r2's first run, so both carry its
        // label; in r1 they lie in adjacent runs, which by coalescing must
        // carry different labels.
        assert(run_contains(r1[0], e1));
        assert(seq_has(r1, e1, r1[0].1));
        assert(seq_has(r2, e1, r1[0].1));
        let ja = choose|j: int|
            0 <= j < r2.len() && run_contains(#[trigger] r2[j], e1) && r2[j].1 == r1[0].1;
        assert(run_contains(r2[0], e1));
        lemma_unique_run(r2, e1, ja, 0);
        assert(r2[0].1 == r1[0].1);
        assert(run_contains(r1[1], e1 + 1));
        assert(seq_has(r1, e1 + 1, r1[1].1));
        assert(seq_has(r2, e1 + 1, r1[1].1));
        let jb = choose|j: int|
            0 <= j < r2.len() && run_contains(#[trigger] r2[j], e1 + 1) && r2[j].1 == r1[1].1;
        lemma_unique_run(r2, e1 + 1, jb, 0);
        assert(r2[0].1 == r1[1].1);
        assert(r1[0].0.1 + 1 == r1[1].0.0);
        assert(r1[0].1 != r1[1].1);
        assert(false);
    }
}

/// A batch of pairwise-disjoint, well-formed assignments builds the same
/// table in any insertion order: two built tables over permuted batches are
/// equal run for run.
pub proof fn lemma_order_independent_tables<L>(
    a: Seq<Run<L>>,
    b: Seq<Run<L>>,
    out1: Seq<Run<L>>,
    out2: Seq<Run<L>>,
)
    requires
        a.to_multiset() == b.to_multiset(),
        pairwise_disjoint(a),
        pairwise_disjoint(b),
        all_valid(a),
        seq_wf(out1),
        seq_wf(out2),
        forall|p: int| seq_covers(out1, p) <==> last_label(a, p) is Some,
        forall|p: int, l: L| seq_has(out1, p, l) <==> last_label(a, p) == Some(l),
        forall|p: int| seq_covers(out2, p) <==> last_label(b, p) is Some,
        forall|p: int, l: L| seq_has(out2, p, l) <==> last_label(b, p) == Some(l),
    ensures
        out1 == out2,
{
    lemma_order_independent(a, b);
    lemma_canonical_runs(out1, out2);
}

} // verus!
