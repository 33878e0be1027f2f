//! The table of lock durations and the reward rate that each one earns.

use vstd::prelude::*;
use bounded_collections::{BoundedVec, ConstU32};
use crate::percent::Percent;
use crate::primitives::BlockNumber;

verus! {

/// The most tiers that a table holds.
pub const MAX_TIERS: usize = 10;

/// One lock duration on offer, with the rate at which it is rewarded.
#[derive(Clone, Copy, Debug, PartialEq, Eq, Structural)]
pub struct DurationTier {
    pub duration: BlockNumber,
    pub reward_rate: Percent,
}

/// No two tiers offer the same duration.
pub open spec fn durations_distinct(tiers: Seq<DurationTier>) -> bool {
    forall|i: int, j: int|
        0 <= i < j < tiers.len() ==> (#[trigger] tiers[i]).duration != (#[trigger] tiers[j]).duration
}

/// Some tier offers exactly `duration`.
pub open spec fn has_tier(tiers: Seq<DurationTier>, duration: BlockNumber) -> bool {
    exists|i: int| 0 <= i < tiers.len() && (#[trigger] tiers[i]).duration == duration
}

/// The rate of the tier that offers exactly `duration`, if there is one.
pub open spec fn rate_in(tiers: Seq<DurationTier>, duration: BlockNumber) -> Option<Percent> {
    if has_tier(tiers, duration) {
        let i = choose|i: int| 0 <= i < tiers.len() && (#[trigger] tiers[i]).duration == duration;
        Some(tiers[i].reward_rate)
    } else {
        None
    }
}

/// The tiers that a ledger starts with: 150 blocks at 1 percent, then 15, 30,
/// 60 and 90 days of 14,400 blocks at 2, 3, 4 and 5 percent.
pub open spec fn standard_tiers() -> Seq<DurationTier> {
    seq![
        DurationTier { duration: 150, reward_rate: Percent::of_parts(1) },
        DurationTier { duration: 216_000, reward_rate: Percent::of_parts(2) },
        DurationTier { duration: 432_000, reward_rate: Percent::of_parts(3) },
        DurationTier { duration: 864_000, reward_rate: Percent::of_parts(4) },
        DurationTier { duration: 1_296_000, reward_rate: Percent::of_parts(5) },
    ]
}

/// The standard tiers offer every duration once.
pub proof fn lemma_standard_tiers_distinct()
    ensures
        durations_distinct(standard_tiers()),
        standard_tiers().len() == 5,
{
    let t = standard_tiers();
    assert(t[0].duration == 150 && t[1].duration == 216_000 && t[2].duration == 432_000);
    assert(t[3].duration == 864_000 && t[4].duration == 1_296_000);
}

/// `bounded_collections::BoundedVec`, a vector that is kept within the bound
/// that its second parameter names. Nothing is known of what is inside
/// but through `tier_items`.
#[verifier::external_type_specification]
#[verifier::external_body]
#[verifier::reject_recursive_types(T)]
#[verifier::reject_recursive_types(S)]
pub struct ExBoundedVec<T, S>(BoundedVec<T, S>);

/// `bounded_collections::ConstU32`, the bound `N` as a type.
#[verifier::external_type_specification]
#[verifier::external_body]
pub struct ExConstU32<const N: u32>(ConstU32<N>);

/// The tiers that a bounded vector holds, in their order.
pub uninterp spec fn tier_items(tiers: BoundedVec<DurationTier, ConstU32<10>>) -> Seq<DurationTier>;

/// Calls `BoundedVec::try_from` on a vector.
///
/// The source hands the vector over unchanged if it is no longer than the
/// bound, which is ten here, and refuses it otherwise.
#[verifier::external_body]
fn bounded_from(tiers: Vec<DurationTier>) -> (r: Option<BoundedVec<DurationTier, ConstU32<10>>>)
    ensures
        r.is_some() <==> tiers@.len() <= 10,
        r matches Some(bounded) ==> tier_items(bounded) == tiers@,
{
    BoundedVec::try_from(tiers).ok()
}

/// Calls `len` on the vector that a `BoundedVec` dereferences to.
///
/// The source keeps the vector within its bound, which is ten here.
#[verifier::external_body]
fn bounded_len(tiers: &BoundedVec<DurationTier, ConstU32<10>>) -> (n: usize)
    ensures
        n == tier_items(*tiers).len(),
        n <= 10,
{
    tiers.len()
}

/// Calls `BoundedVec::index`, which indexes the vector inside and panics
/// beyond its end.
#[verifier::external_body]
fn bounded_get(tiers: &BoundedVec<DurationTier, ConstU32<10>>, i: usize) -> (tier: DurationTier)
    requires
        i < tier_items(*tiers).len(),
    ensures
        tier == tier_items(*tiers)[i as int],
{
    tiers[i]
}

/// A set of tiers with distinct durations, ten at most.
pub struct TierTable {
    tiers: BoundedVec<DurationTier, ConstU32<10>>,
}

impl View for TierTable {
    type V = Seq<DurationTier>;

    closed spec fn view(&self) -> Seq<DurationTier> {
        tier_items(self.tiers)
    }
}

impl TierTable {
    /// The table keeps to its bound and offers every duration once.
    pub open spec fn wf(&self) -> bool {
        &&& self@.len() <= MAX_TIERS
        &&& durations_distinct(self@)
    }

    /// A table of the given tiers, in their order. There is none if they are
    /// more than ten or if two of them offer the same duration.
    pub fn new(tiers: Vec<DurationTier>) -> (table: Option<TierTable>)
        ensures
            table.is_some() <==> tiers@.len() <= MAX_TIERS && durations_distinct(tiers@),
            table matches Some(t) ==> t.wf() && t@ == tiers@,
    {
        let mut j: usize = 0;
        while j < tiers.len()
            invariant
                j <= tiers.len(),
                durations_distinct(tiers@.take(j as int)),
            decreases tiers.len() - j,
        {
            let mut i: usize = 0;
            while i < j
                invariant
                    i <= j < tiers.len(),
                    forall|k: int| 0 <= k < i ==> (#[trigger] tiers[k]).duration != tiers[j as int].duration,
                decreases j - i,
            {
                if tiers[i].duration == tiers[j].duration {
                    return None;
                }
                i += 1;
            }
            assert forall|a: int, b: int| 0 <= a < b < j + 1 implies (#[trigger] tiers@.take(j + 1)[a]).duration
                != (#[trigger] tiers@.take(j + 1)[b]).duration by {
                if b < j {
                    assert(tiers@.take(j as int)[a] == tiers[a]);
                    assert(tiers@.take(j as int)[b] == tiers[b]);
                }
            }
            j += 1;
        }
        assert(tiers@.take(tiers.len() as int) =~= tiers@);
        match bounded_from(tiers) {
            Some(bounded) => Some(TierTable { tiers: bounded }),
            None => None,
        }
    }

    /// The table of the standard tiers.
    pub fn standard() -> (table: TierTable)
        ensures
            table.wf(),
            table@ == standard_tiers(),
    {
        let mut tiers: Vec<DurationTier> = Vec::new();
        tiers.push(DurationTier { duration: 150, reward_rate: Percent::from_parts(1) });
        tiers.push(DurationTier { duration: 216_000, reward_rate: Percent::from_parts(2) });
        tiers.push(DurationTier { duration: 432_000, reward_rate: Percent::from_parts(3) });
        tiers.push(DurationTier { duration: 864_000, reward_rate: Percent::from_parts(4) });
        tiers.push(DurationTier { duration: 1_296_000, reward_rate: Percent::from_parts(5) });
        assert(tiers@ =~= standard_tiers());
        proof {
            lemma_standard_tiers_distinct();
        }
        match bounded_from(tiers) {
            Some(bounded) => TierTable { tiers: bounded },
            None => vstd::pervasive::unreached(),
        }
    }

    /// The number of tiers.
    pub fn len(&self) -> (n: usize)
        ensures
            n == self@.len(),
            n <= MAX_TIERS,
    {
        bounded_len(&self.tiers)
    }

    /// The rate configured for exactly `duration`, or nothing if no tier
    /// offers it.
    pub fn rate_for(&self, duration: BlockNumber) -> (rate: Option<Percent>)
        requires
            self.wf(),
        ensures
            rate == rate_in(self@, duration),
    {
        let n: usize = bounded_len(&self.tiers);
        let mut i: usize = 0;
        while i < n
            invariant
                self.wf(),
                n == self@.len(),
                i <= n,
                forall|k: int| 0 <= k < i ==> (#[trigger] self@[k]).duration != duration,
            decreases n - i,
        {
            let tier: DurationTier = bounded_get(&self.tiers, i);
            if tier.duration == duration {
                proof {
                    let k = choose|k: int| 0 <= k < self@.len() && (#[trigger] self@[k]).duration == duration;
                    assert(self@[i as int].duration == duration);
                    assert(k == i);
                }
                return Some(tier.reward_rate);
            }
            i += 1;
        }
        None
    }

    /// The tiers, in the order in which the table was given them.
    pub fn to_vec(&self) -> (tiers: Vec<DurationTier>)
        ensures
            tiers@ == self@,
    {
        let n: usize = bounded_len(&self.tiers);
        let mut out: Vec<DurationTier> = Vec::new();
        let mut i: usize = 0;
        while i < n
            invariant
                n == self@.len(),
                i <= n,
                out@ == self@.take(i as int),
            decreases n - i,
        {
            out.push(bounded_get(&self.tiers, i));
            assert(self@.take(i + 1) =~= self@.take(i as int).push(self@[i as int]));
            i += 1;
        }
        assert(self@.take(n as int) =~= self@);
        out
    }
}

} // verus!
