//! How well verdicts agree with what is known of a set of transactions.

use vstd::prelude::*;

use crate::marks::{lemma_marked, marked};

verus! {

/// What a wrongly approved fraud weighs against a wrongly declined purchase.
pub const MISSED_FRAUD_WEIGHT: u64 = 3;

/// What a failed request weighs.
pub const ERROR_WEIGHT: u64 = 5;

/// Verdicts, counted by what was expected: frauds declined, purchases approved,
/// purchases declined and frauds approved.
#[derive(Copy, Clone, Debug)]
pub struct Tally {
    pub tp: u64,
    pub tn: u64,
    pub fp: u64,
    pub fn_: u64,
}

/// The number of transactions, given as what was expected and what came out,
/// that were expected to be approved or not and were approved or not.
pub open spec fn occurrences(verdicts: Seq<(bool, bool)>, expected: bool, approved: bool) -> nat
    decreases verdicts.len(),
{
    if verdicts.len() == 0 {
        0
    } else {
        occurrences(verdicts.drop_last(), expected, approved) + if verdicts.last() == (
            expected,
            approved,
        ) {
            1nat
        } else {
            0
        }
    }
}

impl Tally {
    /// The tally of these verdicts.
    pub open spec fn counts(&self, verdicts: Seq<(bool, bool)>) -> bool {
        &&& self.tp == occurrences(verdicts, false, false)
        &&& self.tn == occurrences(verdicts, true, true)
        &&& self.fp == occurrences(verdicts, true, false)
        &&& self.fn_ == occurrences(verdicts, false, true)
    }

    /// The tally of nothing.
    pub fn new() -> (tally: Tally)
        ensures
            tally.counts(Seq::empty()),
            tally.tp == 0 && tally.tn == 0 && tally.fp == 0 && tally.fn_ == 0,
    {
        Tally { tp: 0, tn: 0, fp: 0, fn_: 0 }
    }

    /// Counts one more verdict.
    pub fn record(&mut self, expected_approved: bool, approved: bool)
        requires
            old(self).tp < u64::MAX,
            old(self).tn < u64::MAX,
            old(self).fp < u64::MAX,
            old(self).fn_ < u64::MAX,
        ensures
            final(self).tp == old(self).tp + if !expected_approved && !approved {
                1int
            } else {
                0
            },
            final(self).tn == old(self).tn + if expected_approved && approved {
                1int
            } else {
                0
            },
            final(self).fp == old(self).fp + if expected_approved && !approved {
                1int
            } else {
                0
            },
            final(self).fn_ == old(self).fn_ + if !expected_approved && approved {
                1int
            } else {
                0
            },
            forall|verdicts: Seq<(bool, bool)>| #[trigger]
                old(self).counts(verdicts) ==> final(self).counts(
                    verdicts.push((expected_approved, approved)),
                ),
    {
        let ghost before = *self;
        if expected_approved {
            if approved {
                self.tn += 1;
            } else {
                self.fp += 1;
            }
        } else {
            if approved {
                self.fn_ += 1;
            } else {
                self.tp += 1;
            }
        }
        proof {
            assert forall|verdicts: Seq<(bool, bool)>| #[trigger] before.counts(
                verdicts,
            ) implies self.counts(verdicts.push((expected_approved, approved))) by {
                assert(verdicts.push((expected_approved, approved)).drop_last() =~= verdicts);
            }
        }
    }

    /// Wrong verdicts and failed requests, by weight.
    pub fn weighted_errors(&self, errs: u64) -> (weight: u64)
        requires
            self.fp + MISSED_FRAUD_WEIGHT * self.fn_ + ERROR_WEIGHT * errs <= u64::MAX,
        ensures
            weight == self.fp + MISSED_FRAUD_WEIGHT * self.fn_ + ERROR_WEIGHT * errs,
    {
        self.fp + self.fn_ * MISSED_FRAUD_WEIGHT + errs * ERROR_WEIGHT
    }

    /// Wrong verdicts and failed requests.
    pub fn failures(&self, errs: u64) -> (failures: u64)
        requires
            self.fp + self.fn_ + errs <= u64::MAX,
        ensures
            failures == self.fp + self.fn_ + errs,
    {
        self.fp + self.fn_ + errs
    }
}

/// Every verdict is counted once.
pub proof fn every_verdict_is_counted(tally: Tally, verdicts: Seq<(bool, bool)>)
    requires
        tally.counts(verdicts),
    ensures
        tally.tp + tally.tn + tally.fp + tally.fn_ == verdicts.len(),
{
    lemma_occurrences_add_up(verdicts);
}

proof fn lemma_occurrences_add_up(verdicts: Seq<(bool, bool)>)
    ensures
        occurrences(verdicts, false, false) + occurrences(verdicts, true, true) + occurrences(
            verdicts,
            true,
            false,
        ) + occurrences(verdicts, false, true) == verdicts.len(),
    decreases verdicts.len(),
{
    if verdicts.len() > 0 {
        lemma_occurrences_add_up(verdicts.drop_last());
        let (expected, approved) = verdicts.last();
        assert(verdicts.last() == (expected, approved));
    }
}

/// Verdicts of a kind are counted position by position.
pub proof fn occurrences_are_positions(
    verdicts: Seq<(bool, bool)>,
    expected: bool,
    approved: bool,
)
    ensures
        occurrences(verdicts, expected, approved) == Set::new(
            |i: int|
                0 <= i < verdicts.len() && verdicts[i].0 == expected && verdicts[i].1 == approved,
        ).len(),
    decreases verdicts.len(),
{
    let mark = |i: int| verdicts[i].0 == expected && verdicts[i].1 == approved;
    assert(marked(mark, verdicts.len()) =~= Set::new(
        |i: int|
            0 <= i < verdicts.len() && verdicts[i].0 == expected && verdicts[i].1 == approved,
    ));
    if verdicts.len() == 0 {
        lemma_marked(mark, 0);
    } else {
        let n = (verdicts.len() - 1) as nat;
        let front = verdicts.drop_last();
        occurrences_are_positions(front, expected, approved);
        lemma_marked(mark, n);
        assert(marked(mark, n) =~= Set::new(
            |i: int| 0 <= i < front.len() && front[i].0 == expected && front[i].1 == approved,
        ));
        let (e, a) = verdicts.last();
        assert(verdicts.last() == (e, a));
    }
}

/// What a tally counts: frauds declined, purchases approved, purchases declined
/// and frauds approved.
pub proof fn a_tally_tells_the_kinds_apart(tally: Tally, verdicts: Seq<(bool, bool)>)
    requires
        tally.counts(verdicts),
    ensures
        tally.tp == Set::new(
            |i: int| 0 <= i < verdicts.len() && !verdicts[i].0 && !verdicts[i].1,
        ).len(),
        tally.tn == Set::new(
            |i: int| 0 <= i < verdicts.len() && verdicts[i].0 && verdicts[i].1,
        ).len(),
        tally.fp == Set::new(
            |i: int| 0 <= i < verdicts.len() && verdicts[i].0 && !verdicts[i].1,
        ).len(),
        tally.fn_ == Set::new(
            |i: int| 0 <= i < verdicts.len() && !verdicts[i].0 && verdicts[i].1,
        ).len(),
{
    occurrences_are_positions(verdicts, false, false);
    occurrences_are_positions(verdicts, true, true);
    occurrences_are_positions(verdicts, true, false);
    occurrences_are_positions(verdicts, false, true);
    assert(Set::new(
        |i: int| 0 <= i < verdicts.len() && verdicts[i].0 == false && verdicts[i].1 == false,
    ) =~= Set::new(|i: int| 0 <= i < verdicts.len() && !verdicts[i].0 && !verdicts[i].1));
    assert(Set::new(
        |i: int| 0 <= i < verdicts.len() && verdicts[i].0 == true && verdicts[i].1 == true,
    ) =~= Set::new(|i: int| 0 <= i < verdicts.len() && verdicts[i].0 && verdicts[i].1));
    assert(Set::new(
        |i: int| 0 <= i < verdicts.len() && verdicts[i].0 == true && verdicts[i].1 == false,
    ) =~= Set::new(|i: int| 0 <= i < verdicts.len() && verdicts[i].0 && !verdicts[i].1));
    assert(Set::new(
        |i: int| 0 <= i < verdicts.len() && verdicts[i].0 == false && verdicts[i].1 == true,
    ) =~= Set::new(|i: int| 0 <= i < verdicts.len() && !verdicts[i].0 && verdicts[i].1));
}

} // verus!
