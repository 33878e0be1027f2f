//! What calls cost: the weight of a call as a base and the storage reads and
//! writes that it makes, and the weight of an election by its size.

use vstd::prelude::*;
use crate::primitives::Weight;

verus! {

/// `a + b`, held at the largest weight.
pub open spec fn sat_add(a: nat, b: nat) -> nat {
    if a + b > u64::MAX {
        u64::MAX as nat
    } else {
        a + b
    }
}

/// `a * b`, held at the largest weight.
pub open spec fn sat_mul(a: nat, b: nat) -> nat {
    if a * b > u64::MAX {
        u64::MAX as nat
    } else {
        a * b
    }
}

/// The weight of a call of the given base that reads storage six times and
/// writes it five times.
pub open spec fn call_weight(base: nat, read: nat, write: nat) -> nat {
    sat_add(sat_add(base, sat_mul(read, 6)), sat_mul(write, 5))
}

/// The weight of a sequential Phragmén election with `v` voters and `d`
/// votes for each.
pub open spec fn phragmen_weight(v: nat, d: nat) -> nat {
    18_247_000 * v + 2_979_831_000 * d
}

/// The weight of a PhragMMS election with `v` voters and `d` votes for each.
pub open spec fn phragmms_weight(v: nat, d: nat) -> nat {
    16_045_000 * v + 2_712_807_000 * d
}

/// Calls `sp_weights::RuntimeDbWeight::reads` on the given costs and takes
/// the computation time of the result.
///
/// The source multiplies the cost of one read by `r`, holding the product at
/// `u64::MAX`, and gives that as the computation time.
#[verifier::external_body]
pub(crate) fn db_reads(read: u64, write: u64, r: u64) -> (t: u64)
    ensures
        t == sat_mul(read as nat, r as nat),
{
    sp_weights::RuntimeDbWeight { read, write }.reads(r).ref_time()
}

/// Calls `sp_weights::RuntimeDbWeight::writes` on the given costs and takes
/// the computation time of the result.
///
/// The source multiplies the cost of one write by `w`, holding the product
/// at `u64::MAX`, and gives that as the computation time.
#[verifier::external_body]
pub(crate) fn db_writes(read: u64, write: u64, w: u64) -> (t: u64)
    ensures
        t == sat_mul(write as nat, w as nat),
{
    sp_weights::RuntimeDbWeight { read, write }.writes(w).ref_time()
}

/// Calls `sp_weights::RuntimeDbWeight::reads_writes` on the given costs and
/// takes the computation time of the result.
///
/// The source multiplies the cost of one read by `r` and that of one write
/// by `w`, adds the two, holds each step at `u64::MAX`, and gives the sum as
/// the computation time.
#[verifier::external_body]
pub(crate) fn db_reads_writes(read: u64, write: u64, r: u64, w: u64) -> (t: u64)
    ensures
        t == sat_add(sat_mul(read as nat, r as nat), sat_mul(write as nat, w as nat)),
{
    sp_weights::RuntimeDbWeight { read, write }.reads_writes(r, w).ref_time()
}

/// The base and six reads and five writes, each step held at the largest
/// weight.
fn weigh_call(base: Weight, read: u64, write: u64) -> (w: Weight)
    ensures
        w == call_weight(base as nat, read as nat, write as nat),
{
    base.saturating_add(db_reads(read, write, 6)).saturating_add(db_writes(read, write, 5))
}

/// The weight of setting the status, where one read of storage costs `read`
/// and one write `write`.
pub fn set_status(read: u64, write: u64) -> (w: Weight)
    ensures
        w == sat_add(sat_add(61_000_300, sat_mul(read as nat, 6)), sat_mul(write as nat, 5)),
{
    weigh_call(61_000_300, read, write)
}

/// The weight of adding a market maker.
pub fn add_market_maker(read: u64, write: u64) -> (w: Weight)
    ensures
        w == sat_add(sat_add(61_000_300, sat_mul(read as nat, 6)), sat_mul(write as nat, 5)),
{
    weigh_call(61_000_300, read, write)
}

/// The weight of removing a market maker.
pub fn remove_market_maker(read: u64, write: u64) -> (w: Weight)
    ensures
        w == sat_add(sat_add(61_000_300, sat_mul(read as nat, 6)), sat_mul(write as nat, 5)),
{
    weigh_call(61_000_300, read, write)
}

/// The weight of setting the account.
pub fn set_account_id(read: u64, write: u64) -> (w: Weight)
    ensures
        w == sat_add(sat_add(62_000_300, sat_mul(read as nat, 6)), sat_mul(write as nat, 5)),
{
    weigh_call(62_000_300, read, write)
}

/// The weight of confirming a swap.
pub fn confirm_swap(read: u64, write: u64) -> (w: Weight)
    ensures
        w == sat_add(sat_add(63_000_400, sat_mul(read as nat, 6)), sat_mul(write as nat, 5)),
{
    weigh_call(63_000_400, read, write)
}

/// The weight of a sign of life.
pub fn im_alive(read: u64, write: u64) -> (w: Weight)
    ensures
        w == sat_add(sat_add(64_000_400, sat_mul(read as nat, 6)), sat_mul(write as nat, 5)),
{
    weigh_call(64_000_400, read, write)
}

/// The weight of a sequential Phragmén election with `v` voters, `t`
/// targets and `d` votes for each voter. The number of targets does not
/// count. No election is so large that its weight leaves the range.
pub fn phragmen(v: u32, t: u32, d: u32) -> (w: Weight)
    ensures
        w == phragmen_weight(v as nat, d as nat),
        w == 18_247_000 * v + 2_979_831_000 * d,
{
    let voters: Weight = 18_247_000 * (v as Weight);
    let votes: Weight = 2_979_831_000 * (d as Weight);
    voters + votes
}

/// The weight of a PhragMMS election with `v` voters, `t` targets and `d`
/// votes for each voter. The number of targets does not count. No election
/// is so large that its weight leaves the range.
pub fn phragmms(v: u32, t: u32, d: u32) -> (w: Weight)
    ensures
        w == phragmms_weight(v as nat, d as nat),
        w == 16_045_000 * v + 2_712_807_000 * d,
{
    let voters: Weight = 16_045_000 * (v as Weight);
    let votes: Weight = 2_712_807_000 * (d as Weight);
    voters + votes
}

/// An election weighs no less when it has more voters or more votes, and
/// PhragMMS never weighs more than sequential Phragmén.
pub proof fn law_election_weights(v1: nat, d1: nat, v2: nat, d2: nat)
    requires
        v1 <= v2,
        d1 <= d2,
    ensures
        phragmen_weight(v1, d1) <= phragmen_weight(v2, d2),
        phragmms_weight(v1, d1) <= phragmms_weight(v2, d2),
        phragmms_weight(v1, d1) <= phragmen_weight(v1, d1),
{
}

/// A call weighs no less when storage costs more, and never more than the
/// largest weight.
pub proof fn law_call_weight_grows_with_costs(base: nat, read1: nat, write1: nat, read2: nat, write2: nat)
    requires
        base <= u64::MAX,
        read1 <= read2,
        write1 <= write2,
    ensures
        call_weight(base, read1, write1) <= call_weight(base, read2, write2),
        call_weight(base, read2, write2) <= u64::MAX,
{
    assert(read1 * 6 <= read2 * 6);
    assert(write1 * 5 <= write2 * 5);
}

} // verus!
