//! The range store: an ordered interval map from a discrete `u32` domain to
//! labels, with last-write-wins insertion and coalesced enumeration.
//!
//! The store's state is a sorted sequence of runs `((start, end), label)`,
//! pairwise disjoint, each with `start <= end`, and with no two adjacent runs
//! (`left.end + 1 == right.start`) sharing a label: such runs are merged.
//! Coverage is the pointwise reading of that sequence: a point `p` carries
//! label `l` when some run containing `p` is labeled `l`.

use vstd::prelude::*;

verus! {

/// A label that the store can file ranges under: a small copyable value whose
/// executable equality test agrees with mathematical equality.
pub trait Label: Sized + Copy {
    /// Decide equality of two labels, faithfully to spec-level equality.
    fn eq_label(&self, other: &Self) -> (r: bool)
        ensures
            r <==> *self == *other,
    ;
}

/// The one error the store can raise: `insert` was handed a range whose
/// start lies beyond its end. The store is left unchanged.
#[derive(Clone, Copy, PartialEq, Eq, Structural, Debug)]
pub struct InvalidRange;

/// A run: a closed range of the domain and the label covering it.
pub type Run<L> = ((u32, u32), L);

/// `p` lies in the closed range of run `r`.
pub open spec fn run_contains<L>(r: Run<L>, p: int) -> bool {
    r.0.0 as int <= p <= r.0.1 as int
}

/// Well-formedness of a run sequence: every run nonempty, runs sorted and
/// pairwise disjoint, and no two adjacent runs share a label.
pub open spec fn seq_wf<L>(rs: Seq<Run<L>>) -> bool {
    &&& forall|i: int| 0 <= i < rs.len() ==> (#[trigger] rs[i]).0.0 <= rs[i].0.1
    &&& forall|i: int, j: int|
        0 <= i < j < rs.len() ==> (#[trigger] rs[i]).0.1 < (#[trigger] rs[j]).0.0
    &&& forall|i: int|
        0 <= i && i + 1 < rs.len() && (#[trigger] rs[i]).0.1 + 1 == rs[i + 1].0.0
            ==> rs[i].1 != rs[i + 1].1
}

/// Some run of `rs` contains `p`.
pub open spec fn seq_covers<L>(rs: Seq<Run<L>>, p: int) -> bool {
    exists|i: int| 0 <= i < rs.len() && run_contains(#[trigger] rs[i], p)
}

/// Some run of `rs` contains `p` and carries label `l`.
pub open spec fn seq_has<L>(rs: Seq<Run<L>>, p: int, l: L) -> bool {
    exists|i: int| 0 <= i < rs.len() && run_contains(#[trigger] rs[i], p) && rs[i].1 == l
}

/// In a well-formed sequence, at most one run contains any given point.
pub proof fn lemma_unique_run<L>(rs: Seq<Run<L>>, p: int, i: int, j: int)
    requires
        seq_wf(rs),
        0 <= i < rs.len(),
        0 <= j < rs.len(),
        run_contains(rs[i], p),
        run_contains(rs[j], p),
    ensures
        i == j,
{
    if i < j {
        assert(rs[i].0.1 < rs[j].0.0);
    } else if j < i {
        assert(rs[j].0.1 < rs[i].0.0);
    }
}

/// A covered point carries exactly one label.
pub proof fn lemma_label_at_unique<L>(rs: Seq<Run<L>>, p: int, l1: L, l2: L)
    requires
        seq_wf(rs),
        seq_has(rs, p, l1),
        seq_has(rs, p, l2),
    ensures
        l1 == l2,
{
    let i = choose|i: int| 0 <= i < rs.len() && run_contains(#[trigger] rs[i], p) && rs[i].1 == l1;
    let j = choose|j: int| 0 <= j < rs.len() && run_contains(#[trigger] rs[j], p) && rs[j].1 == l2;
    lemma_unique_run(rs, p, i, j);
}

/// `seq_has` over a sequence extended by one run on the right.
proof fn lemma_seq_has_push<L>(rs: Seq<Run<L>>, x: Run<L>, p: int, l: L)
    ensures
        seq_has(rs.push(x), p, l) <==> seq_has(rs, p, l) || (run_contains(x, p) && x.1 == l),
        seq_covers(rs.push(x), p) <==> seq_covers(rs, p) || run_contains(x, p),
{
    let rs2 = rs.push(x);
    if seq_has(rs, p, l) {
        let i = choose|i: int| 0 <= i < rs.len() && run_contains(#[trigger] rs[i], p) && rs[i].1 == l;
        assert(run_contains(rs2[i], p) && rs2[i].1 == l);
    }
    if run_contains(x, p) {
        assert(run_contains(rs2[rs.len() as int], p));
    }
    if seq_has(rs2, p, l) {
        let i = choose|i: int| 0 <= i < rs2.len() && run_contains(#[trigger] rs2[i], p) && rs2[i].1 == l;
        if i < rs.len() {
            assert(run_contains(rs[i], p) && rs[i].1 == l);
        }
    }
    if seq_covers(rs, p) {
        let i = choose|i: int| 0 <= i < rs.len() && run_contains(#[trigger] rs[i], p);
        assert(run_contains(rs2[i], p));
    }
    if seq_covers(rs2, p) {
        let i = choose|i: int| 0 <= i < rs2.len() && run_contains(#[trigger] rs2[i], p);
        if i < rs.len() {
            assert(run_contains(rs[i], p));
        }
    }
}

/// In a well-formed sequence, every run ends no later than the last one.
proof fn lemma_ends_below_last<L>(rs: Seq<Run<L>>, i: int)
    requires
        seq_wf(rs),
        0 <= i < rs.len(),
    ensures
        rs[i].0.1 <= rs[rs.len() - 1].0.1,
{
    if i < rs.len() - 1 {
        assert(rs[i].0.1 < rs[rs.len() - 1].0.0);
        assert(rs[rs.len() - 1].0.0 <= rs[rs.len() - 1].0.1);
    }
}

/// Appending a nonempty run strictly beyond a well-formed sequence, not
/// adjacent-with-equal-label to its last run, keeps it well-formed.
proof fn lemma_wf_push<L>(rs: Seq<Run<L>>, x: Run<L>)
    requires
        seq_wf(rs),
        x.0.0 <= x.0.1,
        rs.len() > 0 ==> rs.last().0.1 < x.0.0,
        rs.len() > 0 && rs.last().0.1 + 1 == x.0.0 ==> rs.last().1 != x.1,
    ensures
        seq_wf(rs.push(x)),
{
    let m = rs.push(x);
    let n = rs.len() as int;
    assert forall|i: int| 0 <= i < m.len() implies (#[trigger] m[i]).0.0 <= m[i].0.1 by {
        if i < n {
            assert(rs[i].0.0 <= rs[i].0.1);
        }
    }
    assert forall|i: int, j: int| 0 <= i < j < m.len() implies
        (#[trigger] m[i]).0.1 < (#[trigger] m[j]).0.0 by {
        if j < n {
            assert(rs[i].0.1 < rs[j].0.0);
        } else {
            lemma_ends_below_last(rs, i);
        }
    }
    assert forall|i: int| 0 <= i && i + 1 < m.len() && (#[trigger] m[i]).0.1 + 1 == m[i + 1].0.0
        implies m[i].1 != m[i + 1].1 by {
        if i + 1 < n {
            assert(m[i] == rs[i]);
            assert(m[i + 1] == rs[i + 1]);
            assert(rs[i].0.1 + 1 == rs[i + 1].0.0);
        } else {
            assert(i == n - 1);
            assert(m[i] == rs[i]);
            assert(rs[i] == rs.last());
            assert(m[i + 1] == x);
        }
    }
}

/// Extending the end of the last run of a well-formed sequence keeps it
/// well-formed.
proof fn lemma_wf_extend_last<L>(rs: Seq<Run<L>>, e: u32)
    requires
        seq_wf(rs),
        rs.len() > 0,
        rs.last().0.1 <= e,
    ensures
        seq_wf(rs.update(rs.len() - 1, ((rs.last().0.0, e), rs.last().1))),
{
    let n = rs.len() as int;
    let m = rs.update(n - 1, ((rs.last().0.0, e), rs.last().1));
    assert forall|i: int| 0 <= i < m.len() implies (#[trigger] m[i]).0.0 <= m[i].0.1 by {
        assert(rs[i].0.0 <= rs[i].0.1);
    }
    assert forall|i: int, j: int| 0 <= i < j < m.len() implies
        (#[trigger] m[i]).0.1 < (#[trigger] m[j]).0.0 by {
        assert(rs[i].0.1 < rs[j].0.0);
    }
    assert forall|i: int| 0 <= i && i + 1 < m.len() && (#[trigger] m[i]).0.1 + 1 == m[i + 1].0.0
        implies m[i].1 != m[i + 1].1 by {
        assert(m[i] == rs[i]);
        assert(m[i + 1].0.0 == rs[i + 1].0.0 && m[i + 1].1 == rs[i + 1].1);
        assert(rs[i].0.1 + 1 == rs[i + 1].0.0 ==> rs[i].1 != rs[i + 1].1);
    }
}

/// Append the run `((s, e), l)` to a well-formed sequence that ends strictly
/// before `s`, merging with the last run when it is adjacent and equally
/// labeled, so that the result is again well-formed.
fn push_merge<L: Label>(out: &mut Vec<Run<L>>, s: u32, e: u32, l: L)
    requires
        seq_wf(old(out)@),
        s <= e,
        old(out)@.len() > 0 ==> old(out)@.last().0.1 < s,
    ensures
        seq_wf(final(out)@),
        final(out)@.len() > 0,
        final(out)@.last().0.1 == e,
        final(out)@.last().1 == l,
        forall|p: int, ll: L| p < s as int ==> (seq_has(final(out)@, p, ll) <==> seq_has(old(out)@, p, ll)),
        forall|p: int| p < s as int ==> (seq_covers(final(out)@, p) <==> seq_covers(old(out)@, p)),
        forall|p: int| s as int <= p <= e as int ==> seq_has(final(out)@, p, l),
        forall|p: int| s as int <= p <= e as int ==> seq_covers(final(out)@, p),
        forall|p: int| p > e as int ==> !seq_covers(final(out)@, p),
        forall|p: int, ll: L| p > e as int ==> !seq_has(final(out)@, p, ll),
{
    proof {
        // No point at or beyond s is covered by the old sequence.
        assert forall|p: int| p >= s as int implies !seq_covers(old(out)@, p) by {
            if seq_covers(old(out)@, p) {
                let i = choose|i: int|
                    0 <= i < old(out)@.len() && run_contains(#[trigger] old(out)@[i], p);
                lemma_ends_below_last(old(out)@, i);
            }
        }
        assert forall|p: int, ll: L| p >= s as int implies !seq_has(old(out)@, p, ll) by {
            if seq_has(old(out)@, p, ll) {
                let i = choose|i: int|
                    0 <= i < old(out)@.len() && run_contains(#[trigger] old(out)@[i], p)
                        && old(out)@[i].1 == ll;
                lemma_ends_below_last(old(out)@, i);
            }
        }
    }
    let n = out.len();
    if n > 0 {
        let lastv = out[n - 1];
        if lastv.0.1 + 1 == s && lastv.1.eq_label(&l) {
            // Merge: extend the last run to end at e.
            let _ = out.pop();
            out.push(((lastv.0.0, e), lastv.1));
            proof {
                let o = old(out)@;
                let m = out@;
                assert(m =~= o.update(n - 1, ((lastv.0.0, e), lastv.1)));
                assert(lastv == o.last());
                lemma_wf_extend_last(o, e);
                assert(seq_wf(m));
                assert forall|p: int, ll: L| p < s as int implies
                    (seq_has(m, p, ll) <==> seq_has(o, p, ll)) by {
                    if seq_has(o, p, ll) {
                        let i = choose|i: int|
                            0 <= i < o.len() && run_contains(#[trigger] o[i], p) && o[i].1 == ll;
                        assert(run_contains(m[i], p) && m[i].1 == ll);
                    }
                    if seq_has(m, p, ll) {
                        let i = choose|i: int|
                            0 <= i < m.len() && run_contains(#[trigger] m[i], p) && m[i].1 == ll;
                        assert(run_contains(o[i], p) && o[i].1 == ll);
                    }
                }
                assert forall|p: int| p < s as int implies
                    (seq_covers(m, p) <==> seq_covers(o, p)) by {
                    if seq_covers(o, p) {
                        let i = choose|i: int| 0 <= i < o.len() && run_contains(#[trigger] o[i], p);
                        assert(run_contains(m[i], p));
                    }
                    if seq_covers(m, p) {
                        let i = choose|i: int| 0 <= i < m.len() && run_contains(#[trigger] m[i], p);
                        assert(run_contains(o[i], p));
                    }
                }
                assert forall|p: int| s as int <= p <= e as int implies
                    seq_has(m, p, l) by {
                    assert(run_contains(m[n - 1], p) && m[n - 1].1 == l);
                }
                assert forall|p: int| s as int <= p <= e as int implies
                    seq_covers(m, p) by {
                    assert(run_contains(m[n - 1], p));
                }
                assert forall|p: int| p > e as int implies !seq_covers(m, p) by {
                    if seq_covers(m, p) {
                        let i = choose|i: int| 0 <= i < m.len() && run_contains(#[trigger] m[i], p);
                        if i < n - 1 {
                            assert(run_contains(o[i], p));
                            lemma_ends_below_last(o, i);
                        }
                    }
                }
                assert forall|p: int, ll: L| p > e as int implies !seq_has(m, p, ll) by {
                    if seq_has(m, p, ll) {
                        let i = choose|i: int|
                            0 <= i < m.len() && run_contains(#[trigger] m[i], p) && m[i].1 == ll;
                        if i < n - 1 {
                            lemma_ends_below_last(o, i);
                        }
                    }
                }
            }
            return;
        }
    }
    out.push(((s, e), l));
    proof {
        let o = old(out)@;
        let m = out@;
        assert(m =~= o.push(((s, e), l)));
        // Well-formedness: the new run lies strictly beyond every old run.
        lemma_wf_push(o, ((s, e), l));
        assert(seq_wf(m));
        assert forall|p: int, ll: L|
            true implies (seq_has(m, p, ll) <==> seq_has(o, p, ll)
                || (run_contains(((s, e), l), p) && ll == l)) by {
            lemma_seq_has_push(o, ((s, e), l), p, ll);
        }
        assert forall|p: int|
            true implies (seq_covers(m, p) <==> seq_covers(o, p)
                || run_contains(((s, e), l), p)) by {
            lemma_seq_has_push(o, ((s, e), l), p, l);
        }
    }
}

/// `a` and `b` cover point `p` alike: same coverage, same label.
pub open spec fn agrees_at<L>(a: Seq<Run<L>>, b: Seq<Run<L>>, p: int) -> bool {
    &&& (seq_covers(a, p) <==> seq_covers(b, p))
    &&& forall|ll: L| seq_has(a, p, ll) <==> seq_has(b, p, ll)
}

/// At a point inside run `k` of a well-formed sequence, the coverage is
/// exactly that run's label.
proof fn lemma_has_at_run<L>(rs: Seq<Run<L>>, k: int, p: int)
    requires
        seq_wf(rs),
        0 <= k < rs.len(),
        run_contains(rs[k], p),
    ensures
        seq_covers(rs, p),
        seq_has(rs, p, rs[k].1),
        forall|ll: L| seq_has(rs, p, ll) <==> ll == rs[k].1,
    {
    assert(seq_covers(rs, p));
    assert(seq_has(rs, p, rs[k].1));
    assert forall|ll: L| seq_has(rs, p, ll) implies ll == rs[k].1 by {
        lemma_label_at_unique(rs, p, ll, rs[k].1);
    }
}

/// A point contained in no run of `rs` is uncovered and carries no label.
proof fn lemma_uncovered<L>(rs: Seq<Run<L>>, p: int)
    requires
        forall|i: int| 0 <= i < rs.len() ==> !run_contains(#[trigger] rs[i], p),
    ensures
        !seq_covers(rs, p),
        forall|ll: L| !seq_has(rs, p, ll),
{
}

/// Point coverage is unchanged between `prev` and `cur` at `p`, so agreement
/// with `b` carries over.
proof fn lemma_agrees_preserved<L>(prev: Seq<Run<L>>, cur: Seq<Run<L>>, b: Seq<Run<L>>, p: int)
    requires
        forall|ll: L| seq_has(cur, p, ll) <==> seq_has(prev, p, ll),
        seq_covers(cur, p) <==> seq_covers(prev, p),
        agrees_at(prev, b, p),
    ensures
        agrees_at(cur, b, p),
{
}

/// Two well-formed sequences that both assign `l` to `p` agree at `p`.
proof fn lemma_label_agrees<L>(a: Seq<Run<L>>, b: Seq<Run<L>>, p: int, l: L)
    requires
        seq_wf(a),
        seq_wf(b),
        seq_has(a, p, l),
        seq_has(b, p, l),
    ensures
        agrees_at(a, b, p),
{
    let i = choose|i: int| 0 <= i < a.len() && run_contains(#[trigger] a[i], p) && a[i].1 == l;
    let j = choose|j: int| 0 <= j < b.len() && run_contains(#[trigger] b[j], p) && b[j].1 == l;
    assert(seq_covers(a, p));
    assert(seq_covers(b, p));
    assert forall|ll: L| seq_has(a, p, ll) <==> seq_has(b, p, ll) by {
        if seq_has(a, p, ll) {
            lemma_label_at_unique(a, p, ll, l);
        }
        if seq_has(b, p, ll) {
            lemma_label_at_unique(b, p, ll, l);
        }
    }
}

/// Rebuild a well-formed run sequence with every point of `[start, end]`
/// reassigned to `label`, all other points untouched, splitting and merging
/// runs at the boundaries as needed.
fn insert_runs<L: Label>(rs: &Vec<Run<L>>, start: u32, end: u32, label: L) -> (out: Vec<Run<L>>)
    requires
        seq_wf(rs@),
        start <= end,
    ensures
        seq_wf(out@),
        forall|p: int| start as int <= p <= end as int ==> seq_has(out@, p, label),
        forall|p: int| !(start as int <= p <= end as int) ==> agrees_at(out@, rs@, p),
{
    let n = rs.len();
    let mut out: Vec<Run<L>> = Vec::new();
    let mut i: usize = 0;

    // Copy over the runs that lie entirely before the inserted range.
    while i < n && rs[i].0.1 < start
        invariant
            seq_wf(rs@),
            start <= end,
            n == rs@.len(),
            seq_wf(out@),
            i <= n,
            forall|j: int| 0 <= j < i as int ==> (#[trigger] rs@[j]).0.1 < start,
            i == 0 ==> out@.len() == 0,
            i > 0 ==> out@.len() > 0 && out@.last().0.1 == rs@[i as int - 1].0.1,
            forall|p: int|
                i > 0 && p <= rs@[i as int - 1].0.1 as int ==> agrees_at(out@, rs@, p),
            forall|p: int|
                (i == 0 || p > rs@[i as int - 1].0.1 as int) ==> !seq_covers(out@, p),
            forall|p: int, ll: L|
                (i == 0 || p > rs@[i as int - 1].0.1 as int) ==> !seq_has(out@, p, ll),
        decreases n - i,
    {
        let r = rs[i];
        let ghost prev = out@;
        push_merge(&mut out, r.0.0, r.0.1, r.1);
        proof {
            let gi = i as int;
            assert forall|p: int| p <= rs@[gi].0.1 as int implies agrees_at(out@, rs@, p) by {
                if p < r.0.0 as int {
                    if gi > 0 && p <= rs@[gi - 1].0.1 as int {
                        lemma_agrees_preserved(prev, out@, rs@, p);
                    } else {
                        // A gap before this run: no run of rs contains p.
                        assert forall|j: int| 0 <= j < rs@.len() implies
                            !run_contains(#[trigger] rs@[j], p) by {
                            if j < gi - 1 {
                                assert(rs@[j].0.1 < rs@[gi - 1].0.0);
                                assert(rs@[gi - 1].0.0 <= rs@[gi - 1].0.1);
                            } else if j > gi {
                                assert(rs@[gi].0.0 <= rs@[j].0.0);
                            }
                        }
                        lemma_uncovered(rs@, p);
                        assert(!seq_covers(out@, p));
                    }
                } else {
                    lemma_has_at_run(rs@, gi, p);
                    lemma_label_agrees(out@, rs@, p, r.1);
                }
            }
        }
        i += 1;
    }

    // If a run straddles the left boundary, keep its part before start.
    let ghost out_a = out@;
    let ghost i_a = i as int;
    if i < n && rs[i].0.0 < start {
        let r = rs[i];
        push_merge(&mut out, r.0.0, start - 1, r.1);
        proof {
            assert forall|p: int| p < start as int implies agrees_at(out@, rs@, p) by {
                if p < r.0.0 as int {
                    if i_a > 0 && p <= rs@[i_a - 1].0.1 as int {
                        lemma_agrees_preserved(out_a, out@, rs@, p);
                    } else {
                        assert forall|j: int| 0 <= j < rs@.len() implies
                            !run_contains(#[trigger] rs@[j], p) by {
                            if j < i_a - 1 {
                                assert(rs@[j].0.1 < rs@[i_a - 1].0.0);
                                assert(rs@[i_a - 1].0.0 <= rs@[i_a - 1].0.1);
                            } else if j > i_a {
                                assert(rs@[i_a].0.0 <= rs@[j].0.0);
                            }
                        }
                        lemma_uncovered(rs@, p);
                        assert(!seq_covers(out@, p));
                    }
                } else {
                    lemma_has_at_run(rs@, i_a, p);
                    lemma_label_agrees(out@, rs@, p, r.1);
                }
            }
            assert(forall|p: int| p >= start as int ==> !seq_covers(out@, p));
            assert(forall|p: int, ll: L| p >= start as int ==> !seq_has(out@, p, ll));
        }
    } else {
        proof {
            assert forall|p: int| p < start as int implies agrees_at(out@, rs@, p) by {
                if i_a > 0 && p <= rs@[i_a - 1].0.1 as int {
                } else {
                    assert forall|j: int| 0 <= j < rs@.len() implies
                        !run_contains(#[trigger] rs@[j], p) by {
                        if j < i_a - 1 {
                            assert(rs@[j].0.1 < rs@[i_a - 1].0.0);
                            assert(rs@[i_a - 1].0.0 <= rs@[i_a - 1].0.1);
                        } else if j >= i_a && i_a < n as int {
                            assert(rs@[i_a].0.0 <= rs@[j].0.0);
                            assert(rs@[i_a].0.0 >= start || rs@[i_a].0.1 >= start);
                        } else if j == i_a - 1 {
                        }
                    }
                    lemma_uncovered(rs@, p);
                    assert(!seq_covers(out@, p));
                }
            }
        }
    }

    // The inserted run itself.
    let ghost out_b = out@;
    push_merge(&mut out, start, end, label);
    proof {
        assert forall|p: int| p < start as int implies agrees_at(out@, rs@, p) by {
            lemma_agrees_preserved(out_b, out@, rs@, p);
        }
        assert(forall|p: int| start as int <= p <= end as int ==> seq_has(out@, p, label));
        assert(out@.last().0.1 == end);
    }

    // Skip the runs wholly overwritten by the inserted range.
    while i < n && rs[i].0.1 <= end
        invariant
            seq_wf(rs@),
            start <= end,
            n == rs@.len(),
            i <= n,
            forall|j: int| 0 <= j < i as int ==> (#[trigger] rs@[j]).0.1 <= end,
        decreases n - i,
    {
        i += 1;
    }

    // If a run straddles the right boundary, keep its part after end.
    let ghost out_n = out@;
    if i < n {
        let r = rs[i];
        if r.0.0 <= end {
            push_merge(&mut out, end + 1, r.0.1, r.1);
            proof {
                let gi = i as int;
                assert forall|p: int| (end as int) < p && p <= out@.last().0.1 as int implies
                    agrees_at(out@, rs@, p) by {
                    lemma_has_at_run(rs@, gi, p);
                    lemma_label_agrees(out@, rs@, p, r.1);
                }
                assert forall|p: int| p < start as int implies agrees_at(out@, rs@, p) by {
                    lemma_agrees_preserved(out_n, out@, rs@, p);
                }
                assert forall|p: int| start as int <= p <= end as int implies
                    seq_has(out@, p, label) by {
                    assert(seq_has(out_n, p, label));
                }
            }
            i += 1;
        }
    }

    // Copy over the runs that lie entirely after the inserted range.
    while i < n
        invariant
            seq_wf(rs@),
            start <= end,
            n == rs@.len(),
            seq_wf(out@),
            i <= n,
            out@.len() > 0,
            out@.last().0.1 >= end,
            i < n ==> out@.last().0.1 < rs@[i as int].0.0,
            i < n ==> end < rs@[i as int].0.0,
            forall|j: int| 0 <= j < i as int ==>
                (#[trigger] rs@[j]).0.1 as int <= out@.last().0.1 as int,
            forall|p: int| start as int <= p <= end as int ==> seq_has(out@, p, label),
            forall|p: int| p < start as int ==> agrees_at(out@, rs@, p),
            forall|p: int| (end as int) < p && p <= out@.last().0.1 as int ==> agrees_at(out@, rs@, p),
            forall|p: int| p > out@.last().0.1 as int ==> !seq_covers(out@, p),
            forall|p: int, ll: L| p > out@.last().0.1 as int ==> !seq_has(out@, p, ll),
        decreases n - i,
    {
        let r = rs[i];
        let ghost prev = out@;
        let ghost prev_last = out@.last().0.1 as int;
        push_merge(&mut out, r.0.0, r.0.1, r.1);
        proof {
            let gi = i as int;
            assert forall|p: int| (end as int) < p && p <= out@.last().0.1 as int implies
                agrees_at(out@, rs@, p) by {
                if p <= prev_last {
                    lemma_agrees_preserved(prev, out@, rs@, p);
                } else if p < r.0.0 as int {
                    assert forall|j: int| 0 <= j < rs@.len() implies
                        !run_contains(#[trigger] rs@[j], p) by {
                        if j < gi {
                            assert(rs@[j].0.1 as int <= prev_last);
                        } else {
                            assert(rs@[gi].0.0 <= rs@[j].0.0);
                        }
                    }
                    lemma_uncovered(rs@, p);
                    assert(!seq_covers(out@, p));
                } else {
                    lemma_has_at_run(rs@, gi, p);
                    lemma_label_agrees(out@, rs@, p, r.1);
                }
            }
            assert forall|p: int| p < start as int implies agrees_at(out@, rs@, p) by {
                lemma_agrees_preserved(prev, out@, rs@, p);
            }
            assert forall|p: int| start as int <= p <= end as int implies
                seq_has(out@, p, label) by {
                assert(seq_has(prev, p, label));
            }
        }
        i += 1;
    }

    proof {
        // Points beyond the last output run are uncovered on both sides.
        assert forall|p: int| !(start as int <= p <= end as int) implies
            agrees_at(out@, rs@, p) by {
            if p > end as int && p > out@.last().0.1 as int {
                assert forall|j: int| 0 <= j < rs@.len() implies
                    !run_contains(#[trigger] rs@[j], p) by {
                    assert(rs@[j].0.1 as int <= out@.last().0.1 as int);
                }
                lemma_uncovered(rs@, p);
                assert(!seq_covers(out@, p));
            }
        }
    }
    out
}

/// An ordered interval map: each point of `0..=u32::MAX` carries at most one
/// label; insertion overwrites pointwise; enumeration lists the maximal runs.
pub struct RangeStore<L: Label> {
    runs: Vec<Run<L>>,
}

impl<L: Label> RangeStore<L> {
    /// The internal run sequence, the basis of all the store's specifications.
    pub closed spec fn runs_seq(&self) -> Seq<Run<L>> {
        self.runs@
    }

    /// The store's invariant: its runs form a well-formed sequence.
    pub open spec fn wf(&self) -> bool {
        seq_wf(self.runs_seq())
    }

    /// Point `p` is covered by some run.
    pub open spec fn covers(&self, p: int) -> bool {
        seq_covers(self.runs_seq(), p)
    }

    /// Point `p` is covered by a run labeled `l`.
    pub open spec fn has(&self, p: int, l: L) -> bool {
        seq_has(self.runs_seq(), p, l)
    }

    /// Create an empty store: nothing is covered.
    pub fn new() -> (s: Self)
        ensures
            s.wf(),
            s.runs_seq() == Seq::<Run<L>>::empty(),
            forall|p: int| !s.covers(p),
    {
        let s = RangeStore { runs: Vec::new() };
        assert(forall|p: int| !s.covers(p));
        s
    }

    /// Reassign every point of `[start, end]` to `label`, overwriting
    /// whatever covered those points before; every other point keeps its
    /// previous coverage exactly. Fails, leaving the store untouched, if and
    /// only if the range is inverted.
    pub fn insert(&mut self, start: u32, end: u32, label: L) -> (r: Result<(), InvalidRange>)
        requires
            old(self).wf(),
        ensures
            final(self).wf(),
            r is Ok <==> start <= end,
            r is Err ==> *final(self) == *old(self),
            r is Ok ==> forall|p: int|
                start as int <= p <= end as int ==> final(self).has(p, label),
            r is Ok ==> forall|p: int|
                !(start as int <= p <= end as int)
                    ==> (final(self).covers(p) <==> old(self).covers(p)),
            r is Ok ==> forall|p: int, ll: L|
                !(start as int <= p <= end as int)
                    ==> (final(self).has(p, ll) <==> old(self).has(p, ll)),
    {
        if start > end {
            return Err(InvalidRange);
        }
        self.runs = insert_runs(&self.runs, start, end, label);
        proof {
            let cur = self.runs@;
            let prev = old(self).runs@;
            assert forall|p: int| !(start as int <= p <= end as int) implies
                (seq_covers(cur, p) <==> seq_covers(prev, p)) by {
                assert(agrees_at(cur, prev, p));
            }
            assert forall|p: int, ll: L| !(start as int <= p <= end as int) implies
                (seq_has(cur, p, ll) <==> seq_has(prev, p, ll)) by {
                assert(agrees_at(cur, prev, p));
            }
        }
        Ok(())
    }

    /// Enumerating mutates nothing and its result is a function of the
    /// store's state alone, so two enumerations with no insertion between
    /// them yield the same sequence.
    pub proof fn lemma_enumerate_idempotent(&self, r1: Seq<Run<L>>, r2: Seq<Run<L>>)
        requires
            r1 == self.runs_seq(),
            r2 == self.runs_seq(),
        ensures
            r1 == r2,
    {
    }

    /// Enumerate the store's coverage as its run sequence: sorted by start,
    /// pairwise disjoint, every run nonempty, no two adjacent runs sharing a
    /// label, and assigning to every point exactly the label the store holds
    /// for it. The result is exactly `runs_seq()`, so two calls with no
    /// insertion in between return equal vectors.
    pub fn enumerate(&self) -> (r: Vec<Run<L>>)
        requires
            self.wf(),
        ensures
            r@ == self.runs_seq(),
            seq_wf(r@),
            forall|p: int| seq_covers(r@, p) <==> self.covers(p),
            forall|p: int, ll: L| seq_has(r@, p, ll) <==> self.has(p, ll),
    {
        let n = self.runs.len();
        let mut r: Vec<Run<L>> = Vec::new();
        let mut i: usize = 0;
        while i < n
            invariant
                n == self.runs@.len(),
                i <= n,
                r@ == self.runs@.take(i as int),
            decreases n - i,
        {
            r.push(self.runs[i]);
            proof {
                assert(r@ =~= self.runs@.take(i as int + 1));
            }
            i += 1;
        }
        proof {
            assert(r@ =~= self.runs_seq());
        }
        r
    }
}

} // verus!
