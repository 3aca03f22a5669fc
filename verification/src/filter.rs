use vstd::prelude::*;

use super::diff::{spec_is_diff, IHex16Diff};

verus! {

/// An inclusive range of output addresses to leave out of the report.
#[derive(Clone, Copy, Debug, PartialEq, Eq, Structural)]
pub struct IgnoreRange {
    pub start: u32,
    pub end: u32,
}

/// The record's output address span overlaps the ignore range: a single
/// address lies within it, a range touches it.
pub open spec fn spec_overlaps(r: IHex16Diff, g: IgnoreRange) -> bool {
    match r {
        IHex16Diff::Single { address, value_1, value_2 } => g.start <= address <= g.end,
        IHex16Diff::Range { start, end, value_1, value_2 } => start <= g.end && end >= g.start,
    }
}

/// A record survives filtering when it overlaps no ignore range and, unless
/// everything is shown, reports a real difference. Ignore filtering applies
/// first and unconditionally; `show_all` only controls same/diff selection.
pub open spec fn spec_keep(r: IHex16Diff, show_all: bool, ignores: Seq<IgnoreRange>) -> bool {
    &&& forall|i: int| 0 <= i < ignores.len() ==> !spec_overlaps(r, #[trigger] ignores[i])
    &&& (show_all || spec_is_diff(r))
}

/// The subsequence of records that survive filtering, in order.
pub open spec fn spec_filter(
    records: Seq<IHex16Diff>,
    show_all: bool,
    ignores: Seq<IgnoreRange>,
) -> Seq<IHex16Diff> {
    records.filter(|r: IHex16Diff| spec_keep(r, show_all, ignores))
}

impl IHex16Diff {
    /// Overlap test against one ignore range.
    pub fn in_range(&self, g: &IgnoreRange) -> (r: bool)
        ensures
            r == spec_overlaps(*self, *g),
    {
        match self {
            IHex16Diff::Single { address, value_1: _, value_2: _ } => g.start <= *address
                && *address <= g.end,
            IHex16Diff::Range { start, end, value_1: _, value_2: _ } => *start <= g.end && *end
                >= g.start,
        }
    }
}

/// Keeps exactly the records that pass the ignore-range filter and the
/// same/diff selection, in their original order.
pub fn filter_records(records: &Vec<IHex16Diff>, show_all: bool, ignores: &Vec<IgnoreRange>) -> (out:
    Vec<IHex16Diff>)
    ensures
        out@ == spec_filter(records@, show_all, ignores@),
{
    let mut out: Vec<IHex16Diff> = Vec::new();
    let mut i: usize = 0;
    proof {
        reveal(Seq::filter);
        assert(spec_filter(records@.take(0), show_all, ignores@) =~= Seq::<IHex16Diff>::empty());
    }
    while i < records.len()
        invariant
            i <= records.len(),
            out@ == spec_filter(records@.take(i as int), show_all, ignores@),
        decreases records.len() - i,
    {
        let rec = records[i];
        let mut dropped: bool = false;
        let mut j: usize = 0;
        while j < ignores.len()
            invariant
                j <= ignores.len(),
                !dropped ==> forall|k: int|
                    0 <= k < j ==> !spec_overlaps(rec, #[trigger] ignores@[k]),
                dropped ==> exists|k: int|
                    0 <= k < ignores@.len() && spec_overlaps(rec, #[trigger] ignores@[k]),
            decreases ignores.len() - j,
        {
            if rec.in_range(&ignores[j]) {
                dropped = true;
            }
            j = j + 1;
        }
        let keep = !dropped && (show_all || rec.is_diff());
        proof {
            if dropped {
                let k = choose|k: int|
                    0 <= k < ignores@.len() && spec_overlaps(rec, #[trigger] ignores@[k]);
                assert(spec_overlaps(rec, ignores@[k]));
                assert(!spec_keep(rec, show_all, ignores@));
            }
            assert(keep == spec_keep(rec, show_all, ignores@));
        }
        if keep {
            out.push(rec);
        }
        proof {
            reveal(Seq::filter);
            let t = records@.take(i + 1);
            assert(t.drop_last() =~= records@.take(i as int));
            assert(t.last() == rec);
        }
        i = i + 1;
    }
    proof {
        assert(records@.take(records@.len() as int) =~= records@);
    }
    out
}

/// A record that overlaps some ignore range never survives filtering,
/// whatever `show_all` is.
pub proof fn lemma_ignored_dropped(
    records: Seq<IHex16Diff>,
    show_all: bool,
    ignores: Seq<IgnoreRange>,
    r: IHex16Diff,
    i: int,
)
    requires
        0 <= i < ignores.len(),
        spec_overlaps(r, ignores[i]),
    ensures
        !spec_filter(records, show_all, ignores).contains(r),
    decreases records.len(),
{
    reveal(Seq::filter);
    let filtered = spec_filter(records, show_all, ignores);
    if records.len() == 0 {
        assert(filtered =~= Seq::<IHex16Diff>::empty());
    } else {
        lemma_ignored_dropped(records.drop_last(), show_all, ignores, r, i);
        let prev = spec_filter(records.drop_last(), show_all, ignores);
        if spec_keep(records.last(), show_all, ignores) {
            assert(filtered == prev.push(records.last()));
            if filtered.contains(r) {
                let k = choose|k: int| 0 <= k < filtered.len() && filtered[k] == r;
                if k < prev.len() {
                    assert(prev[k] == r);
                    assert(prev.contains(r));
                } else {
                    assert(r == records.last());
                    assert(!spec_overlaps(r, ignores[i]));
                }
                assert(false);
            }
        } else {
            assert(filtered == prev);
        }
    }
}

} // verus!
