use vstd::prelude::*;

use super::ihex16::{word_ok, words_wf, IHex16File, IHex16Word, MAX_WORD_ADDRESS};

verus! {

/// Reserved value standing for "this sequence has no entry at this address".
///
/// Note: the sentinel is only 24 bits wide while word values are 32-bit, so a
/// legitimate data value equal to `SENTINEL` is indistinguishable from true
/// absence. This is a documented limitation of the record format.
pub const SENTINEL: u32 = 0xFFFFFF;

/// One element of the diff report, over the output address domain (internal
/// byte offsets divided by 2).
#[derive(Clone, Copy, Debug, PartialEq, Eq, Structural)]
pub enum IHex16Diff {
    /// Exactly one word stride matches/differs at this single address.
    Single { address: u32, value_1: u32, value_2: u32 },
    /// An inclusive contiguous run of addresses sharing one (value_1, value_2) pair.
    Range { start: u32, end: u32, value_1: u32, value_2: u32 },
}

/// The (value_1, value_2) pair a record carries.
pub open spec fn rec_values(r: IHex16Diff) -> (u32, u32) {
    match r {
        IHex16Diff::Single { address, value_1, value_2 } => (value_1, value_2),
        IHex16Diff::Range { start, end, value_1, value_2 } => (value_1, value_2),
    }
}

/// First internal byte address covered by a record.
pub open spec fn rec_lo(r: IHex16Diff) -> int {
    match r {
        IHex16Diff::Single { address, value_1, value_2 } => 2 * (address as int),
        IHex16Diff::Range { start, end, value_1, value_2 } => 2 * (start as int),
    }
}

/// One past the last internal byte address covered by a record. A `Single`
/// covers one word. A `Range` with an even end covers words up to `2 * end`;
/// an odd end arises only from a gap record, whose byte span ends at `2 * end + 2`.
pub open spec fn rec_hi(r: IHex16Diff) -> int {
    match r {
        IHex16Diff::Single { address, value_1, value_2 } => 2 * (address as int) + 4,
        IHex16Diff::Range { start, end, value_1, value_2 } => if end % 2 == 0 {
            2 * (end as int) + 4
        } else {
            2 * (end as int) + 2
        },
    }
}

/// Structural well-formedness of a record: a range never degenerates to a
/// single address.
pub open spec fn rec_wf(r: IHex16Diff) -> bool {
    match r {
        IHex16Diff::Single { address, value_1, value_2 } => true,
        IHex16Diff::Range { start, end, value_1, value_2 } => start < end,
    }
}

/// The record reports identical content in both images.
pub open spec fn spec_is_same(r: IHex16Diff) -> bool {
    rec_values(r).0 == rec_values(r).1
}

/// The record reports differing content.
pub open spec fn spec_is_diff(r: IHex16Diff) -> bool {
    rec_values(r).0 != rec_values(r).1
}

/// Every record is exactly one of "same" and "diff": the two predicates are
/// mutually exclusive and exhaustive.
pub proof fn lemma_same_diff_partition(r: IHex16Diff)
    ensures
        spec_is_same(r) <==> !spec_is_diff(r),
{
}

impl IHex16Diff {
    fn range(start: u32, end: u32, value_1: u32, value_2: u32) -> (r: IHex16Diff)
        ensures
            r == (IHex16Diff::Range { start, end, value_1, value_2 }),
    {
        IHex16Diff::Range { start, end, value_1, value_2 }
    }

    fn single(address: u32, value_1: u32, value_2: u32) -> (r: IHex16Diff)
        ensures
            r == (IHex16Diff::Single { address, value_1, value_2 }),
    {
        IHex16Diff::Single { address, value_1, value_2 }
    }

    pub fn is_same(&self) -> (r: bool)
        ensures
            r == spec_is_same(*self),
    {
        match self {
            IHex16Diff::Single { address: _, value_1, value_2 } => value_1 == value_2,
            IHex16Diff::Range { start: _, end: _, value_1, value_2 } => value_1 == value_2,
        }
    }

    pub fn is_diff(&self) -> (r: bool)
        ensures
            r == spec_is_diff(*self),
    {
        match self {
            IHex16Diff::Single { address: _, value_1, value_2 } => value_1 != value_2,
            IHex16Diff::Range { start: _, end: _, value_1, value_2 } => value_1 != value_2,
        }
    }
}

/// The triple (address, value_1, value_2) for the next address to consider,
/// given the unconsumed remainders of the two input sequences: the smaller
/// head address wins, and an absent side contributes the sentinel.
pub open spec fn spec_compare(r1: Seq<IHex16Word>, r2: Seq<IHex16Word>) -> Option<(u32, u32, u32)> {
    if r1.len() == 0 && r2.len() == 0 {
        None
    } else if r2.len() == 0 {
        Some((r1[0].address, r1[0].value, SENTINEL))
    } else if r1.len() == 0 {
        Some((r2[0].address, SENTINEL, r2[0].value))
    } else if r1[0].address == r2[0].address {
        Some((r1[0].address, r1[0].value, r2[0].value))
    } else if r1[0].address < r2[0].address {
        Some((r1[0].address, r1[0].value, SENTINEL))
    } else {
        Some((r2[0].address, SENTINEL, r2[0].value))
    }
}

/// The value pair the next emitted record will carry: sentinel/sentinel when a
/// gap (addresses present in neither input) starts at the cursor, else the
/// compared values at the next address.
pub open spec fn run_values(r1: Seq<IHex16Word>, r2: Seq<IHex16Word>, cursor: u32) -> Option<
    (u32, u32),
> {
    match spec_compare(r1, r2) {
        None => None,
        Some(t) => if t.0 > cursor {
            Some((SENTINEL, SENTINEL))
        } else {
            Some((t.1, t.2))
        },
    }
}

/// Largest head-of-line address over both remainders' final elements
/// (-1 when both are empty).
pub open spec fn max_last(r1: Seq<IHex16Word>, r2: Seq<IHex16Word>) -> int {
    if r1.len() == 0 && r2.len() == 0 {
        -1
    } else if r1.len() == 0 {
        r2.last().address as int
    } else if r2.len() == 0 {
        r1.last().address as int
    } else if r1.last().address >= r2.last().address {
        r1.last().address as int
    } else {
        r2.last().address as int
    }
}

/// Remainder of the first sequence after one `advance` step: its head is
/// popped exactly when it sits at the minimum of the two head addresses.
pub open spec fn advance1(r1: Seq<IHex16Word>, r2: Seq<IHex16Word>) -> Seq<IHex16Word> {
    if r1.len() > 0 && (r2.len() == 0 || r1[0].address <= r2[0].address) {
        r1.skip(1)
    } else {
        r1
    }
}

/// Remainder of the second sequence after one `advance` step.
pub open spec fn advance2(r1: Seq<IHex16Word>, r2: Seq<IHex16Word>) -> Seq<IHex16Word> {
    if r2.len() > 0 && (r1.len() == 0 || r2[0].address <= r1[0].address) {
        r2.skip(1)
    } else {
        r2
    }
}

/// Lazy diff engine: a two-pointer merge over the two input sequences with
/// run coalescing. `address` is the cursor: the next internal byte address not
/// yet accounted for in the output.
pub struct IHex16DiffEngine {
    words_1: Vec<IHex16Word>,
    idx_1: usize,
    words_2: Vec<IHex16Word>,
    idx_2: usize,
    address: u32,
}

impl IHex16DiffEngine {
    /// Unconsumed remainder of the first input.
    pub closed spec fn rem1(self) -> Seq<IHex16Word> {
        self.words_1@.skip(self.idx_1 as int)
    }

    /// Unconsumed remainder of the second input.
    pub closed spec fn rem2(self) -> Seq<IHex16Word> {
        self.words_2@.skip(self.idx_2 as int)
    }

    /// Next internal byte address not yet covered by an emitted record.
    pub closed spec fn cursor(self) -> u32 {
        self.address
    }

    /// Engine invariant: inputs well formed, cursor aligned, and no
    /// unconsumed word lies below the cursor.
    pub closed spec fn wf(self) -> bool {
        &&& self.idx_1 <= self.words_1@.len()
        &&& self.idx_2 <= self.words_2@.len()
        &&& words_wf(self.words_1@)
        &&& words_wf(self.words_2@)
        &&& self.address % 4 == 0
        &&& (self.rem1().len() > 0 ==> self.rem1()[0].address >= self.address)
        &&& (self.rem2().len() > 0 ==> self.rem2()[0].address >= self.address)
    }

    /// Termination measure for the record stream: every produced record
    /// strictly decreases it.
    pub open spec fn measure(self) -> int {
        2 * (self.rem1().len() + self.rem2().len()) + (if match spec_compare(
            self.rem1(),
            self.rem2(),
        ) {
            None => false,
            Some(t) => t.0 > self.cursor(),
        } {
            1int
        } else {
            0int
        })
    }

    /// Starts a diff run over two well-formed memory images.
    pub fn diff(hex_1: IHex16File, hex_2: IHex16File) -> (e: IHex16DiffEngine)
        requires
            hex_1.wf(),
            hex_2.wf(),
        ensures
            e.wf(),
            e.rem1() == hex_1.0@,
            e.rem2() == hex_2.0@,
            e.cursor() == 0,
    {
        let e = IHex16DiffEngine {
            words_1: hex_1.0,
            idx_1: 0,
            words_2: hex_2.0,
            idx_2: 0,
            address: 0,
        };
        assert(e.rem1() =~= hex_1.0@);
        assert(e.rem2() =~= hex_2.0@);
        e
    }

    fn compare(&self) -> (r: Option<(u32, u32, u32)>)
        requires
            self.wf(),
        ensures
            r == spec_compare(self.rem1(), self.rem2()),
    {
        let curr_1 = if self.idx_1 < self.words_1.len() {
            Some(self.words_1[self.idx_1])
        } else {
            None
        };
        let curr_2 = if self.idx_2 < self.words_2.len() {
            Some(self.words_2[self.idx_2])
        } else {
            None
        };
        match (curr_1, curr_2) {
            (None, None) => None,
            (Some(l), None) => Some((l.address, l.value, SENTINEL)),
            (None, Some(r)) => Some((r.address, SENTINEL, r.value)),
            (Some(l), Some(r)) => {
                if l.address == r.address {
                    Some((l.address, l.value, r.value))
                } else if l.address < r.address {
                    Some((l.address, l.value, SENTINEL))
                } else {
                    Some((r.address, SENTINEL, r.value))
                }
            },
        }
    }

    fn advance(&mut self)
        requires
            old(self).wf(),
        ensures
            final(self).wf(),
            final(self).cursor() == old(self).cursor(),
            final(self).rem1() == advance1(old(self).rem1(), old(self).rem2()),
            final(self).rem2() == advance2(old(self).rem1(), old(self).rem2()),
    {
        let has_1 = self.idx_1 < self.words_1.len();
        let has_2 = self.idx_2 < self.words_2.len();
        let adv_1 = has_1 && (!has_2 || self.words_1[self.idx_1].address
            <= self.words_2[self.idx_2].address);
        let adv_2 = has_2 && (!has_1 || self.words_2[self.idx_2].address
            <= self.words_1[self.idx_1].address);
        let ghost r1 = self.rem1();
        let ghost r2 = self.rem2();
        if adv_1 {
            self.idx_1 = self.idx_1 + 1;
            assert(self.rem1() =~= r1.skip(1));
        }
        if adv_2 {
            self.idx_2 = self.idx_2 + 1;
            assert(self.rem2() =~= r2.skip(1));
        }
        assert(self.rem1() == advance1(r1, r2));
        assert(self.rem2() == advance2(r1, r2));
        assert(self.rem1().len() > 0 ==> self.rem1()[0].address >= self.address) by {
            if adv_1 && self.rem1().len() > 0 {
                assert(self.words_1@[self.idx_1 - 1].address < self.words_1@[
                    self.idx_1 as int].address);
            }
        }
        assert(self.rem2().len() > 0 ==> self.rem2()[0].address >= self.address) by {
            if adv_2 && self.rem2().len() > 0 {
                assert(self.words_2@[self.idx_2 - 1].address < self.words_2@[
                    self.idx_2 as int].address);
            }
        }
    }

    proof fn lemma_rem_wf(self)
        requires
            self.wf(),
        ensures
            words_wf(self.rem1()),
            words_wf(self.rem2()),
    {
        assert forall|i: int| 0 <= i < self.rem1().len() implies #[trigger] word_ok(
            self.rem1()[i],
        ) by {
            assert(self.rem1()[i] == self.words_1@[self.idx_1 + i]);
            assert(word_ok(self.words_1@[self.idx_1 + i]));
        }
        assert forall|i: int, j: int| 0 <= i < j < self.rem1().len() implies #[trigger] self.rem1()[i].address
            < #[trigger] self.rem1()[j].address by {
            assert(self.words_1@[self.idx_1 + i].address < self.words_1@[self.idx_1 + j].address);
        }
        assert forall|i: int| 0 <= i < self.rem2().len() implies #[trigger] word_ok(
            self.rem2()[i],
        ) by {
            assert(self.rem2()[i] == self.words_2@[self.idx_2 + i]);
            assert(word_ok(self.words_2@[self.idx_2 + i]));
        }
        assert forall|i: int, j: int| 0 <= i < j < self.rem2().len() implies #[trigger] self.rem2()[i].address
            < #[trigger] self.rem2()[j].address by {
            assert(self.words_2@[self.idx_2 + i].address < self.words_2@[self.idx_2 + j].address);
        }
    }

    proof fn lemma_heads(self)
        requires
            self.wf(),
        ensures
            self.rem1().len() > 0 ==> word_ok(self.rem1()[0]) && self.rem1()[0].address
                <= self.rem1().last().address,
            self.rem2().len() > 0 ==> word_ok(self.rem2()[0]) && self.rem2()[0].address
                <= self.rem2().last().address,
    {
        if self.rem1().len() > 0 {
            assert(self.rem1()[0] == self.words_1@[self.idx_1 as int]);
            assert(word_ok(self.words_1@[self.idx_1 as int]));
            if self.rem1().len() > 1 {
                assert(self.words_1@[self.idx_1 as int].address < self.words_1@[
                    self.words_1@.len() - 1].address);
            }
        }
        if self.rem2().len() > 0 {
            assert(self.rem2()[0] == self.words_2@[self.idx_2 as int]);
            assert(word_ok(self.words_2@[self.idx_2 as int]));
            if self.rem2().len() > 1 {
                assert(self.words_2@[self.idx_2 as int].address < self.words_2@[
                    self.words_2@.len() - 1].address);
            }
        }
    }

    /// Produces the next diff record, or `None` once both inputs are
    /// exhausted (after which the engine state no longer changes).
    ///
    /// The record covers exactly the internal byte span from the old cursor to
    /// the new one, carries the value pair determined by the pre-state, and is
    /// maximal: the record that follows (if any) carries a different pair.
    #[verifier::rlimit(100)]
    pub fn next(&mut self) -> (r: Option<IHex16Diff>)
        requires
            old(self).wf(),
        ensures
            final(self).wf(),
            (r is None) <==> (old(self).rem1().len() == 0 && old(self).rem2().len() == 0),
            r is None ==> final(self).rem1() == old(self).rem1() && final(self).rem2() == old(self).rem2() && final(self).cursor() == old(self).cursor(),
            r matches Some(rec) ==> ({
                &&& rec_wf(rec)
                &&& rec_lo(rec) == old(self).cursor() as int
                &&& rec_hi(rec) == final(self).cursor() as int
                &&& old(self).cursor() < final(self).cursor()
                &&& Some(rec_values(rec)) == run_values(
                    old(self).rem1(),
                    old(self).rem2(),
                    old(self).cursor(),
                )
                &&& run_values(final(self).rem1(), final(self).rem2(), final(self).cursor())
                    != Some(rec_values(rec))
                &&& final(self).measure() < old(self).measure()
                &&& (final(self).rem1().len() > 0 ==> old(self).rem1().len() > 0 && final(self).rem1().last() == old(self).rem1().last())
                &&& (final(self).rem2().len() > 0 ==> old(self).rem2().len() > 0 && final(self).rem2().last() == old(self).rem2().last())
                &&& ((final(self).rem1().len() > 0 || final(self).rem2().len() > 0) ==> max_last(
                    final(self).rem1(),
                    final(self).rem2(),
                ) == max_last(old(self).rem1(), old(self).rem2()))
                &&& ((final(self).rem1().len() == 0 && final(self).rem2().len() == 0) ==> final(self).cursor() as int == max_last(old(self).rem1(), old(self).rem2()) + 4)
                &&& (old(self).rem1() =~= old(self).rem2() ==> final(self).rem1() =~= final(self).rem2() && rec_values(rec).0 == rec_values(rec).1)
            }),
    {
        let c = self.compare();
        match c {
            None => None,
            Some((a, v1, v2)) => {
                let start: u32 = self.address;
                let gap_run: bool = a > start;
                let rv1: u32 = if gap_run {
                    SENTINEL
                } else {
                    v1
                };
                let rv2: u32 = if gap_run {
                    SENTINEL
                } else {
                    v2
                };
                let mut next_address: u32 = start;
                let mut absorbed: bool = false;
                let ghost orem1 = self.rem1();
                let ghost orem2 = self.rem2();
                proof {
                    assert(a >= start);
                    self.lemma_heads();
                    assert(a % 4 == 0);
                }
                loop
                    invariant_except_break
                        !absorbed ==> next_address == start && self.rem1() == orem1 && self.rem2()
                            == orem2,
                    invariant
                        self.wf(),
                        self.address == start,
                        start % 4 == 0,
                        next_address % 4 == 0,
                        start <= next_address,
                        self.rem1().len() > 0 ==> self.rem1()[0].address >= next_address,
                        self.rem2().len() > 0 ==> self.rem2()[0].address >= next_address,
                        spec_compare(orem1, orem2) == Some((a, v1, v2)),
                        run_values(orem1, orem2, start) == Some((rv1, rv2)),
                        gap_run == (a > start),
                        a % 4 == 0,
                        absorbed ==> start < next_address,
                        absorbed ==> next_address as int - 4 <= max_last(orem1, orem2),
                        absorbed ==> self.rem1().len() + self.rem2().len() < orem1.len()
                            + orem2.len(),
                        self.rem1().len() > 0 ==> orem1.len() > 0 && self.rem1().last()
                            == orem1.last(),
                        self.rem2().len() > 0 ==> orem2.len() > 0 && self.rem2().last()
                            == orem2.last(),
                        orem1.len() > 0 && self.rem1().len() == 0 ==> orem1.last().address as int
                            <= next_address as int - 4,
                        orem2.len() > 0 && self.rem2().len() == 0 ==> orem2.last().address as int
                            <= next_address as int - 4,
                        orem1 =~= orem2 ==> self.rem1() =~= self.rem2() && rv1 == rv2,
                    ensures
                        !absorbed ==> gap_run && next_address == a && self.rem1() == orem1
                            && self.rem2() == orem2 && rv1 == SENTINEL && rv2 == SENTINEL,
                        run_values(self.rem1(), self.rem2(), next_address) != Some((rv1, rv2)),
                    decreases self.rem1().len() + self.rem2().len(),
                {
                    let c2 = self.compare();
                    match c2 {
                        None => {
                            proof {
                                if !absorbed {
                                    assert(spec_compare(self.rem1(), self.rem2()) == Some(
                                        (a, v1, v2),
                                    ));
                                }
                            }
                            break ;
                        },
                        Some((na, nv1, nv2)) => {
                            proof {
                                assert(na >= next_address);
                                self.lemma_heads();
                            }
                            if nv1 == rv1 && nv2 == rv2 && (na == next_address || (rv1 == SENTINEL
                                && rv2 == SENTINEL)) {
                                proof {
                                    assert(na % 4 == 0 && na <= MAX_WORD_ADDRESS);
                                    if !absorbed {
                                        assert(!gap_run ==> na == start);
                                    }
                                }
                                let ghost prev1 = self.rem1();
                                let ghost prev2 = self.rem2();
                                proof {
                                    self.lemma_rem_wf();
                                }
                                next_address = na + 4;
                                absorbed = true;
                                self.advance();
                                proof {
                                    assert(prev1.len() > 0 || prev2.len() > 0);
                                    if prev1.len() > 0 {
                                        assert(word_ok(prev1[0]));
                                        if prev1.len() > 1 {
                                            assert(word_ok(prev1[1]));
                                            assert(prev1[0].address < prev1[1].address);
                                            assert(prev1.skip(1)[0] == prev1[1]);
                                        }
                                    }
                                    if prev2.len() > 0 {
                                        assert(word_ok(prev2[0]));
                                        if prev2.len() > 1 {
                                            assert(word_ok(prev2[1]));
                                            assert(prev2[0].address < prev2[1].address);
                                            assert(prev2.skip(1)[0] == prev2[1]);
                                        }
                                    }
                                    if self.rem1() != prev1 {
                                        assert(self.rem1() == prev1.skip(1));
                                        assert(prev1[0].address == na);
                                        if self.rem1().len() > 0 {
                                            assert(self.rem1().last() == prev1.last()) by {
                                                assert(prev1.skip(1)[prev1.len() - 2] == prev1[
                                                    prev1.len() - 1]);
                                            }
                                            assert(self.rem1()[0].address > na);
                                            lemma_aligned_gt(self.rem1()[0].address, na);
                                        } else {
                                            assert(prev1.last() == prev1[0]);
                                        }
                                    } else {
                                        if self.rem1().len() > 0 {
                                            assert(prev2.len() > 0 && prev1[0].address
                                                > prev2[0].address);
                                            assert(prev2[0].address == na);
                                            lemma_aligned_gt(prev1[0].address, na);
                                        }
                                    }
                                    if self.rem2() != prev2 {
                                        assert(self.rem2() == prev2.skip(1));
                                        assert(prev2[0].address == na);
                                        if self.rem2().len() > 0 {
                                            assert(self.rem2().last() == prev2.last()) by {
                                                assert(prev2.skip(1)[prev2.len() - 2] == prev2[
                                                    prev2.len() - 1]);
                                            }
                                            assert(self.rem2()[0].address > na);
                                            lemma_aligned_gt(self.rem2()[0].address, na);
                                        } else {
                                            assert(prev2.last() == prev2[0]);
                                        }
                                    } else {
                                        if self.rem2().len() > 0 {
                                            assert(prev1.len() > 0 && prev2[0].address
                                                > prev1[0].address);
                                            assert(prev1[0].address == na);
                                            lemma_aligned_gt(prev2[0].address, na);
                                        }
                                    }
                                    assert(self.rem1() != prev1 || self.rem2() != prev2);
                                    assert(na as int <= max_last(orem1, orem2)) by {
                                        if prev1.len() > 0 && prev1[0].address == na {
                                            assert(prev1[0].address <= prev1.last().address);
                                        } else {
                                            assert(prev2.len() > 0 && prev2[0].address == na);
                                            assert(prev2[0].address <= prev2.last().address);
                                        }
                                    }
                                    if orem1 =~= orem2 {
                                        assert(self.rem1() =~= self.rem2());
                                    }
                                }
                            } else {
                                if rv1 == SENTINEL && rv2 == SENTINEL && na > next_address {
                                    next_address = na;
                                    proof {
                                        assert(!(nv1 == rv1 && nv2 == rv2));
                                        assert(run_values(self.rem1(), self.rem2(), next_address)
                                            == Some((nv1, nv2)));
                                    }
                                } else {
                                    proof {
                                        if na == next_address {
                                            assert(!(nv1 == rv1 && nv2 == rv2));
                                        } else {
                                            assert(na > next_address);
                                            assert(!(rv1 == SENTINEL && rv2 == SENTINEL));
                                            assert(run_values(
                                                self.rem1(),
                                                self.rem2(),
                                                next_address,
                                            ) == Some((SENTINEL, SENTINEL)));
                                        }
                                    }
                                }
                                proof {
                                    if !absorbed {
                                        assert(spec_compare(self.rem1(), self.rem2()) == Some(
                                            (a, v1, v2),
                                        ));
                                        assert(na == a && nv1 == v1 && nv2 == v2);
                                        if !gap_run {
                                            assert(nv1 == rv1 && nv2 == rv2 && na == start);
                                        }
                                    }
                                }
                                break ;
                            }
                        },
                    }
                }
                proof {
                    if absorbed {
                        lemma_aligned_gt(next_address, start);
                    }
                    if self.rem1().len() == 0 && self.rem2().len() == 0 {
                        assert(absorbed);
                        assert(next_address as int - 4 >= max_last(orem1, orem2) - 0) by {
                            if orem1.len() > 0 && orem2.len() > 0 {
                            }
                        }
                        assert(next_address as int == max_last(orem1, orem2) + 4);
                    }
                    if self.rem1().len() > 0 || self.rem2().len() > 0 {
                        self.lemma_heads();
                        assert(max_last(self.rem1(), self.rem2()) == max_last(orem1, orem2)) by {
                            if self.rem1().len() > 0 && self.rem2().len() > 0 {
                            } else if self.rem1().len() > 0 {
                                if orem2.len() > 0 {
                                    assert(orem2.last().address as int <= next_address as int - 4);
                                    assert(self.rem1().last().address >= self.rem1()[0].address);
                                    assert(self.rem1()[0].address >= next_address);
                                }
                            } else {
                                if orem1.len() > 0 {
                                    assert(orem1.last().address as int <= next_address as int - 4);
                                    assert(self.rem2().last().address >= self.rem2()[0].address);
                                    assert(self.rem2()[0].address >= next_address);
                                }
                            }
                        }
                    }
                }
                let ghost pre_measure = 2 * (orem1.len() + orem2.len()) + (if a > start {
                    1int
                } else {
                    0int
                });
                self.address = next_address;
                let out: IHex16Diff;
                if absorbed {
                    if start == next_address - 4 {
                        out = IHex16Diff::single(start / 2, rv1, rv2);
                        proof {
                            assert(2 * ((start / 2) as int) == start as int);
                        }
                    } else {
                        out = IHex16Diff::range(start / 2, (next_address - 4) / 2, rv1, rv2);
                        proof {
                            assert(2 * ((start / 2) as int) == start as int);
                            let e = (next_address - 4) / 2;
                            assert((next_address - 4) % 4 == 0);
                            assert(e % 2 == 0 && 2 * (e as int) == next_address as int - 4);
                            assert(start < next_address - 4);
                            assert(start / 2 < e);
                        }
                    }
                } else {
                    out = IHex16Diff::range(start / 2, (next_address - 2) / 2, rv1, rv2);
                    proof {
                        assert(2 * ((start / 2) as int) == start as int);
                        let e = (next_address - 2) / 2;
                        assert(next_address % 4 == 0 && next_address >= start + 4);
                        assert((next_address - 2) % 4 == 2);
                        assert(e % 2 == 1 && 2 * (e as int) == next_address as int - 2);
                        assert(start / 2 < e);
                    }
                }
                proof {
                    assert(self.measure() < pre_measure) by {
                        if absorbed {
                        } else {
                            assert(spec_compare(self.rem1(), self.rem2()) == Some((a, v1, v2)));
                            assert(!(a > self.address));
                        }
                    }
                }
                Some(out)
            },
        }
    }
}

impl IHex16DiffEngine {
    /// Runs a diff to exhaustion and collects the whole record stream.
    ///
    /// The stream partitions the internal byte span `[0, max_address + 4)`
    /// into adjacent records (coverage and monotonicity), no two consecutive
    /// records carry the same value pair (maximal coalescing), and diffing an
    /// image against itself yields only records whose two values agree.
    #[verifier::rlimit(100)]
    #[verifier::spinoff_prover]
    pub fn diff_all(hex_1: IHex16File, hex_2: IHex16File) -> (out: Vec<IHex16Diff>)
        requires
            hex_1.wf(),
            hex_2.wf(),
        ensures
            out@.len() > 0 ==> rec_lo(out@[0]) == 0,
            forall|i: int|
                0 <= i < out@.len() - 1 ==> #[trigger] rec_hi(out@[i]) == rec_lo(out@[i + 1]),
            forall|i: int|
                0 <= i < out@.len() - 1 ==> #[trigger] rec_values(out@[i]) != rec_values(
                    out@[i + 1],
                ),
            forall|i: int| 0 <= i < out@.len() ==> #[trigger] rec_wf(out@[i]),
            forall|i: int| 0 <= i < out@.len() ==> rec_lo(out@[i]) < #[trigger] rec_hi(out@[i]),
            (out@.len() == 0) <==> (hex_1.0@.len() == 0 && hex_2.0@.len() == 0),
            out@.len() > 0 ==> rec_hi(out@.last()) == max_last(hex_1.0@, hex_2.0@) + 4,
            hex_1.0@ == hex_2.0@ ==> forall|i: int|
                0 <= i < out@.len() ==> #[trigger] rec_values(out@[i]).0 == rec_values(out@[i]).1,
    {
        let ghost s1 = hex_1.0@;
        let ghost s2 = hex_2.0@;
        let mut engine = IHex16DiffEngine::diff(hex_1, hex_2);
        let mut out: Vec<IHex16Diff> = Vec::new();
        let mut done = false;
        while !done
            invariant
                engine.wf(),
                done ==> engine.rem1().len() == 0 && engine.rem2().len() == 0,
                out@.len() == 0 ==> engine.cursor() == 0 && engine.rem1() == s1 && engine.rem2()
                    == s2,
                out@.len() > 0 ==> rec_lo(out@[0]) == 0,
                forall|i: int|
                    0 <= i < out@.len() - 1 ==> #[trigger] rec_hi(out@[i]) == rec_lo(out@[i + 1]),
                forall|i: int|
                    0 <= i < out@.len() - 1 ==> #[trigger] rec_values(out@[i]) != rec_values(
                        out@[i + 1],
                    ),
                forall|i: int| 0 <= i < out@.len() ==> #[trigger] rec_wf(out@[i]),
                forall|i: int|
                    0 <= i < out@.len() ==> rec_lo(out@[i]) < #[trigger] rec_hi(out@[i]),
                out@.len() > 0 ==> rec_hi(out@.last()) == engine.cursor() as int,
                out@.len() > 0 ==> run_values(engine.rem1(), engine.rem2(), engine.cursor())
                    != Some(rec_values(out@.last())),
                out@.len() > 0 ==> (s1.len() > 0 || s2.len() > 0),
                (engine.rem1().len() > 0 || engine.rem2().len() > 0) ==> max_last(
                    engine.rem1(),
                    engine.rem2(),
                ) == max_last(s1, s2),
                (engine.rem1().len() == 0 && engine.rem2().len() == 0 && out@.len() > 0)
                    ==> engine.cursor() as int == max_last(s1, s2) + 4,
                s1 == s2 ==> engine.rem1() == engine.rem2(),
                s1 == s2 ==> forall|i: int|
                    0 <= i < out@.len() ==> #[trigger] rec_values(out@[i]).0 == rec_values(
                        out@[i],
                    ).1,
            decreases 2 * engine.measure() + (if done {
                0int
            } else {
                1int
            }),
        {
            let ghost pre = engine;
            let ghost pre_out = out@;
            let r = engine.next();
            match r {
                None => {
                    done = true;
                },
                Some(rec) => {
                    proof {
                        if s1 == s2 {
                            assert(pre.rem1() =~= pre.rem2());
                        }
                    }
                    out.push(rec);
                    proof {
                        assert(out@.last() == rec);
                        assert(rec_wf(rec));
                        assert(rec_lo(rec) < rec_hi(rec));
                        assert(out@ == pre_out.push(rec));
                        assert forall|i: int| 0 <= i < out@.len() - 1 implies #[trigger] rec_hi(
                            out@[i],
                        ) == rec_lo(out@[i + 1]) by {
                            if i < pre_out.len() - 1 {
                                assert(out@[i] == pre_out[i] && out@[i + 1] == pre_out[i + 1]);
                            } else {
                                assert(out@[i] == pre_out.last() && out@[i + 1] == rec);
                            }
                        }
                        assert forall|i: int| 0 <= i < out@.len() - 1 implies #[trigger] rec_values(
                            out@[i],
                        ) != rec_values(out@[i + 1]) by {
                            if i < pre_out.len() - 1 {
                                assert(out@[i] == pre_out[i] && out@[i + 1] == pre_out[i + 1]);
                            } else {
                                assert(out@[i] == pre_out.last() && out@[i + 1] == rec);
                                assert(Some(rec_values(rec)) == run_values(
                                    pre.rem1(),
                                    pre.rem2(),
                                    pre.cursor(),
                                ));
                            }
                        }
                        assert forall|i: int| 0 <= i < out@.len() implies #[trigger] rec_wf(
                            out@[i],
                        ) by {
                            if i < pre_out.len() {
                                assert(out@[i] == pre_out[i]);
                            } else {
                                assert(out@[i] == rec);
                            }
                        }
                        assert forall|i: int| 0 <= i < out@.len() implies rec_lo(out@[i])
                            < #[trigger] rec_hi(out@[i]) by {
                            if i < pre_out.len() {
                                assert(out@[i] == pre_out[i]);
                            } else {
                                assert(out@[i] == rec);
                            }
                        }
                        if s1 == s2 {
                            assert forall|i: int| 0 <= i < out@.len() implies #[trigger] rec_values(
                                out@[i],
                            ).0 == rec_values(out@[i]).1 by {
                                if i < pre_out.len() {
                                    assert(out@[i] == pre_out[i]);
                                } else {
                                    assert(out@[i] == rec);
                                }
                            }
                        }
                        if pre_out.len() == 0 {
                            assert(rec_lo(out@[0]) == 0);
                            assert(pre.rem1().len() > 0 || pre.rem2().len() > 0);
                        }
                    }
                },
            }
        }
        out
    }
}

/// Within a chain of adjacent records, every aligned position before the end
/// of the last record falls inside some record: the emitted spans cover the
/// whole reported interval with no hole.
pub proof fn lemma_chain_covers(recs: Seq<IHex16Diff>, w: int)
    requires
        recs.len() > 0,
        rec_lo(recs[0]) <= w < rec_hi(recs.last()),
        forall|i: int| 0 <= i < recs.len() - 1 ==> #[trigger] rec_hi(recs[i]) == rec_lo(recs[i + 1]),
        forall|i: int| 0 <= i < recs.len() ==> #[trigger] rec_lo(recs[i]) < rec_hi(recs[i]),
    ensures
        exists|i: int| 0 <= i < recs.len() && #[trigger] rec_lo(recs[i]) <= w < rec_hi(recs[i]),
    decreases recs.len(),
{
    if w < rec_hi(recs[0]) {
        assert(rec_lo(recs[0]) <= w < rec_hi(recs[0]));
    } else {
        assert(recs.len() > 1);
        let tail = recs.skip(1);
        assert(tail[0] == recs[1]);
        assert(tail.last() == recs.last());
        assert(rec_lo(tail[0]) == rec_hi(recs[0]));
        assert forall|i: int| 0 <= i < tail.len() - 1 implies #[trigger] rec_hi(tail[i]) == rec_lo(
            tail[i + 1],
        ) by {
            assert(tail[i] == recs[i + 1]);
            assert(tail[i + 1] == recs[i + 2]);
        }
        assert forall|i: int| 0 <= i < tail.len() implies #[trigger] rec_lo(tail[i]) < rec_hi(
            tail[i],
        ) by {
            assert(tail[i] == recs[i + 1]);
        }
        lemma_chain_covers(tail, w);
        let j = choose|j: int| 0 <= j < tail.len() && #[trigger] rec_lo(tail[j]) <= w < rec_hi(tail[j]);
        assert(tail[j] == recs[j + 1]);
    }
}

/// Within a chain of adjacent records, spans never overlap and appear in
/// non-decreasing address order.
pub proof fn lemma_chain_ordered(recs: Seq<IHex16Diff>, i: int, j: int)
    requires
        0 <= i < j < recs.len(),
        forall|k: int| 0 <= k < recs.len() - 1 ==> #[trigger] rec_hi(recs[k]) == rec_lo(recs[k + 1]),
        forall|k: int| 0 <= k < recs.len() ==> #[trigger] rec_lo(recs[k]) < rec_hi(recs[k]),
    ensures
        rec_hi(recs[i]) <= rec_lo(recs[j]),
    decreases j - i,
{
    if j > i + 1 {
        lemma_chain_ordered(recs, i, j - 1);
    }
}

/// Aligned addresses that are strictly ordered lie at least one stride apart.
proof fn lemma_aligned_gt(x: u32, y: u32)
    requires
        x % 4 == 0,
        y % 4 == 0,
        x > y,
    ensures
        x >= y + 4,
{
}

} // verus!
