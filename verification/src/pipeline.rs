//! The assignment pipeline: the broad low-priority defaults, the parsed
//! override rows appended after them, and the fold of a whole assignment
//! batch into a range store. Insertion order is the priority order: a later
//! assignment overwrites an earlier one wherever they overlap.

use vstd::prelude::*;
use crate::parse::Orient;
use crate::parse::ParseError;
use crate::parse::get_csv_ranges;
use crate::parse::parse_csv_spec;
use crate::store::InvalidRange;
use crate::store::Label;
use crate::store::RangeStore;
use crate::store::Run;
use crate::store::run_contains;
use crate::store::seq_covers;
use crate::store::seq_has;
use crate::store::seq_wf;
use crate::store::lemma_label_at_unique;

verus! {

/// The label of the last assignment in `asgns` whose range contains `p`,
/// if any: the pointwise meaning of inserting the batch in order.
pub open spec fn last_label<L>(asgns: Seq<Run<L>>, p: int) -> Option<L>
    decreases asgns.len(),
{
    if asgns.len() == 0 {
        None
    } else if run_contains(asgns.last(), p) {
        Some(asgns.last().1)
    } else {
        last_label(asgns.drop_last(), p)
    }
}

/// Every assignment's range is well-formed (`start <= end`).
pub open spec fn all_valid<L>(asgns: Seq<Run<L>>) -> bool {
    forall|i: int| 0 <= i < asgns.len() ==> (#[trigger] asgns[i]).0.0 <= asgns[i].0.1
}

/// The built-in low-priority defaults: one run spanning the whole scalar
/// domain, then the blocks of unassigned code points that default upright.
pub open spec fn default_ranges() -> Seq<Run<Orient>> {
    seq![
        ((0u32, 0x10ffffu32), Orient::R),
        ((0x18b0u32, 0x18ffu32), Orient::U),
        ((0x2065u32, 0x2065u32), Orient::U),
        ((0x2150u32, 0x218fu32), Orient::U),
        ((0x2400u32, 0x245fu32), Orient::U),
        ((0x2bb8u32, 0x2bffu32), Orient::U),
        ((0x2e80u32, 0xa4cfu32), Orient::U),
        ((0xa960u32, 0xa97fu32), Orient::U),
        ((0xac00u32, 0xd7ffu32), Orient::U),
        ((0xe000u32, 0xfaffu32), Orient::U),
        ((0xfe10u32, 0xfe1fu32), Orient::U),
        ((0xfe50u32, 0xfe6fu32), Orient::U),
        ((0xffe7u32, 0xffe7u32), Orient::U),
        ((0xfff0u32, 0xfff8u32), Orient::U),
        ((0x11580u32, 0x115ffu32), Orient::U),
        ((0x11a00u32, 0x11aafu32), Orient::U),
        ((0x13000u32, 0x1345fu32), Orient::U),
        ((0x14400u32, 0x1467fu32), Orient::U),
        ((0x16fe0u32, 0x18affu32), Orient::U),
        ((0x18b00u32, 0x18d7fu32), Orient::U),
        ((0x1aff0u32, 0x1afffu32), Orient::U),
        ((0x1b100u32, 0x1b16fu32), Orient::U),
        ((0x1b170u32, 0x1b2ffu32), Orient::U),
        ((0x1cf00u32, 0x1cfcfu32), Orient::U),
        ((0x1d000u32, 0x1d1ffu32), Orient::U),
        ((0x1d2e0u32, 0x1d2ffu32), Orient::U),
        ((0x1d300u32, 0x1d37fu32), Orient::U),
        ((0x1d800u32, 0x1daafu32), Orient::U),
        ((0x1f000u32, 0x1f0ffu32), Orient::U),
        ((0x1f100u32, 0x1f2ffu32), Orient::U),
        ((0x1f680u32, 0x1f7ffu32), Orient::U),
        ((0x1f900u32, 0x1f9ffu32), Orient::U),
        ((0x1fa00u32, 0x1faffu32), Orient::U),
        ((0x20000u32, 0x2fffdu32), Orient::U),
        ((0x30000u32, 0x3fffdu32), Orient::U),
        ((0xf0000u32, 0xffffdu32), Orient::U),
        ((0x100000u32, 0x10fffdu32), Orient::U),
    ]
}

/// Certain ranges of unassigned code points default to upright; everything
/// else defaults to rotated. These are inserted before the parsed rows, so
/// the rows override them.
pub fn get_default_ranges() -> (r: Vec<Run<Orient>>)
    ensures
        r@ == default_ranges(),
{
    let r: Vec<Run<Orient>> = vec![
        ((0u32, 0x10ffffu32), Orient::R),
        ((0x18b0u32, 0x18ffu32), Orient::U),
        ((0x2065u32, 0x2065u32), Orient::U),
        ((0x2150u32, 0x218fu32), Orient::U),
        ((0x2400u32, 0x245fu32), Orient::U),
        ((0x2bb8u32, 0x2bffu32), Orient::U),
        ((0x2e80u32, 0xa4cfu32), Orient::U),
        ((0xa960u32, 0xa97fu32), Orient::U),
        ((0xac00u32, 0xd7ffu32), Orient::U),
        ((0xe000u32, 0xfaffu32), Orient::U),
        ((0xfe10u32, 0xfe1fu32), Orient::U),
        ((0xfe50u32, 0xfe6fu32), Orient::U),
        ((0xffe7u32, 0xffe7u32), Orient::U),
        ((0xfff0u32, 0xfff8u32), Orient::U),
        ((0x11580u32, 0x115ffu32), Orient::U),
        ((0x11a00u32, 0x11aafu32), Orient::U),
        ((0x13000u32, 0x1345fu32), Orient::U),
        ((0x14400u32, 0x1467fu32), Orient::U),
        ((0x16fe0u32, 0x18affu32), Orient::U),
        ((0x18b00u32, 0x18d7fu32), Orient::U),
        ((0x1aff0u32, 0x1afffu32), Orient::U),
        ((0x1b100u32, 0x1b16fu32), Orient::U),
        ((0x1b170u32, 0x1b2ffu32), Orient::U),
        ((0x1cf00u32, 0x1cfcfu32), Orient::U),
        ((0x1d000u32, 0x1d1ffu32), Orient::U),
        ((0x1d2e0u32, 0x1d2ffu32), Orient::U),
        ((0x1d300u32, 0x1d37fu32), Orient::U),
        ((0x1d800u32, 0x1daafu32), Orient::U),
        ((0x1f000u32, 0x1f0ffu32), Orient::U),
        ((0x1f100u32, 0x1f2ffu32), Orient::U),
        ((0x1f680u32, 0x1f7ffu32), Orient::U),
        ((0x1f900u32, 0x1f9ffu32), Orient::U),
        ((0x1fa00u32, 0x1faffu32), Orient::U),
        ((0x20000u32, 0x2fffdu32), Orient::U),
        ((0x30000u32, 0x3fffdu32), Orient::U),
        ((0xf0000u32, 0xffffdu32), Orient::U),
        ((0x100000u32, 0x10fffdu32), Orient::U),
    ];
    proof {
        assert(r@ =~= default_ranges());
    }
    r
}

/// Assemble the full assignment batch: the defaults first, then the parsed
/// rows, so that the rows take priority.
pub fn get_ranges(csv: &[u8]) -> (r: Result<Vec<Run<Orient>>, ParseError>)
    ensures
        r is Ok <==> parse_csv_spec(csv@) is Ok,
        r matches Ok(v) ==> Ok::<_, int>(v@.skip(default_ranges().len() as int))
            == parse_csv_spec(csv@) && v@.take(default_ranges().len() as int)
            == default_ranges(),
        r matches Err(e) ==> Err::<Seq<Run<Orient>>, _>(e.line_index as int)
            == parse_csv_spec(csv@),
{
    let mut res = get_default_ranges();
    match get_csv_ranges(csv) {
        Err(e) => Err(e),
        Ok(mut rows) => {
            let ghost rows_seq = rows@;
            res.append(&mut rows);
            proof {
                assert(res@.take(default_ranges().len() as int) =~= default_ranges());
                assert(res@.skip(default_ranges().len() as int) =~= rows_seq);
            }
            Ok(res)
        },
    }
}

/// Insert a whole batch of assignments, in order, into a fresh store and
/// enumerate the result: every point covered by some assignment carries the
/// label of the last assignment containing it, in a well-formed (sorted,
/// disjoint, coalesced) run sequence. Fails if and only if some assignment
/// has an inverted range, as the store's `insert` would.
pub fn build_table<L: Label>(asgns: &Vec<Run<L>>) -> (r: Result<Vec<Run<L>>, InvalidRange>)
    ensures
        r is Ok <==> all_valid(asgns@),
        r matches Ok(out) ==> seq_wf(out@),
        r matches Ok(out) ==> forall|p: int|
            seq_covers(out@, p) <==> last_label(asgns@, p) is Some,
        r matches Ok(out) ==> forall|p: int, l: L|
            seq_has(out@, p, l) <==> last_label(asgns@, p) == Some(l),
{
    let n = asgns.len();
    let mut store: RangeStore<L> = RangeStore::new();
    let mut i: usize = 0;
    proof {
        assert(asgns@.take(0) =~= Seq::<Run<L>>::empty());
    }
    while i < n
        invariant
            n == asgns@.len(),
            i <= n,
            store.wf(),
            forall|j: int| 0 <= j < i as int ==> (#[trigger] asgns@[j]).0.0 <= asgns@[j].0.1,
            forall|p: int| store.covers(p) <==> last_label(asgns@.take(i as int), p) is Some,
            forall|p: int, l: L|
                store.has(p, l) <==> last_label(asgns@.take(i as int), p) == Some(l),
        decreases n - i,
    {
        let a = asgns[i];
        let ghost prev = store;
        match store.insert(a.0.0, a.0.1, a.1) {
            Err(_) => {
                return Err(InvalidRange);
            },
            Ok(()) => {},
        }
        proof {
            let gi = i as int;
            let t1 = asgns@.take(gi + 1);
            assert(t1.drop_last() =~= asgns@.take(gi));
            assert(t1.last() == asgns@[gi]);
            assert forall|p: int| store.covers(p) <==> last_label(t1, p) is Some by {
                if run_contains(asgns@[gi], p) {
                    assert(store.has(p, a.1));
                    assert(last_label(t1, p) == Some(a.1));
                } else {
                    assert(last_label(t1, p) == last_label(asgns@.take(gi), p));
                    assert(store.covers(p) <==> prev.covers(p));
                }
            }
            assert forall|p: int, l: L|
                store.has(p, l) <==> last_label(t1, p) == Some(l) by {
                if run_contains(asgns@[gi], p) {
                    assert(store.has(p, a.1));
                    assert(last_label(t1, p) == Some(a.1));
                    if store.has(p, l) {
                        lemma_label_at_unique(store.runs_seq(), p, l, a.1);
                    }
                } else {
                    assert(last_label(t1, p) == last_label(asgns@.take(gi), p));
                    assert(store.has(p, l) <==> prev.has(p, l));
                }
            }
        }
        i += 1;
    }
    proof {
        assert(asgns@.take(n as int) =~= asgns@);
    }
    let out = store.enumerate();
    proof {
        assert forall|p: int| seq_covers(out@, p) <==> last_label(asgns@, p) is Some by {
            assert(seq_covers(out@, p) <==> store.covers(p));
        }
        assert forall|p: int, l: L| seq_has(out@, p, l) <==> last_label(asgns@, p) == Some(l) by {
            assert(seq_has(out@, p, l) <==> store.has(p, l));
        }
    }
    Ok(out)
}

} // verus!
