//! Validator reward and exchange rates: the pure arithmetic by which the
//! rates and voting power of one epoch determine the next epoch's.

use vstd::prelude::*;

verus! {

/// The base reward rate per epoch, in hundredths of a basis point.
pub const BASE_REWARD_RATE: u64 = 30000;

/// A validator's identity: an opaque 32-byte verification key.
#[derive(Clone, Copy, Debug, PartialEq, Eq)]
pub struct IdentityKey {
    pub bytes: [u8; 32],
}

/// One funding stream of a validator: the share of rewards, in basis
/// points, that it diverts.
#[derive(Clone, Copy, Debug, PartialEq, Eq)]
pub struct FundingStream {
    pub rate_bps: u16,
}

/// The sum of the commission rates of a list of funding streams, in basis
/// points.
pub open spec fn commission_sum(streams: Seq<FundingStream>) -> int
    decreases streams.len(),
{
    if streams.len() == 0 {
        0
    } else {
        commission_sum(streams.drop_last()) + streams.last().rate_bps
    }
}

/// Describes a validator's reward rate and voting power in some epoch.
#[derive(Clone, Debug, PartialEq, Eq)]
pub struct RateData {
    /// The validator's identity key.
    pub identity_key: IdentityKey,
    /// The index of the epoch for which this rate is valid.
    pub epoch_index: u64,
    /// The validator's voting power.
    pub voting_power: u64,
    /// The validator-specific reward rate.
    pub validator_reward_rate: u64,
    /// The validator-specific exchange rate.
    pub validator_exchange_rate: u64,
}

/// Describes the base reward and exchange rates in some epoch.
#[derive(Clone, Debug, PartialEq, Eq)]
pub struct BaseRateData {
    /// The index of the epoch for which this rate is valid.
    pub epoch_index: u64,
    /// The base reward rate.
    pub base_reward_rate: u64,
    /// The base exchange rate.
    pub base_exchange_rate: u64,
}

impl RateData {
    /// The rates and voting power for the next epoch: the reward rate
    /// after commission, the compounded exchange rate, and the voting
    /// power scaled by the exchange rate against the base.
    ///
    /// The commission may not exceed 100%, and the products involved must
    /// fit the word size.
    pub fn next_rates(&self, base_rate_data: &BaseRateData, funding_streams: Vec<FundingStream>) -> (r:
        RateData)
        requires
            commission_sum(funding_streams@) <= 10000,
            base_rate_data.base_exchange_rate >= 1,
            self.validator_exchange_rate as int * (self.validator_reward_rate as int
                + 100000000) < 0x10000000000000000,
            self.voting_power as int * ((self.validator_exchange_rate as int
                * (self.validator_reward_rate as int + 100000000) / 100000000) * 100000000
                / base_rate_data.base_exchange_rate as int) < 0x10000000000000000,
            (self.validator_exchange_rate as int * (self.validator_reward_rate as int + 100000000)
                / 100000000) * 100000000 < 0x10000000000000000,
            self.validator_reward_rate as int + 100000000 < 0x10000000000000000,
            self.epoch_index < 0xffffffffffffffff,
        ensures
            r.identity_key == self.identity_key,
            r.epoch_index == self.epoch_index + 1,
            r.validator_reward_rate as int == ((100000000 - commission_sum(funding_streams@)
                * 10000) * (BASE_REWARD_RATE as int)) / 100000000,
            r.validator_exchange_rate as int == (self.validator_exchange_rate as int
                * (self.validator_reward_rate as int + 100000000)) / 100000000,
            r.voting_power as int == self.voting_power as int * ((r.validator_exchange_rate as int
                * 100000000) / base_rate_data.base_exchange_rate as int),
    {
        let commission_rate_bps = sum_rates(&funding_streams);
        proof {
            lemma_commission_mul(commission_rate_bps as int);
            assert((100000000 - commission_rate_bps as int * 10000) * (BASE_REWARD_RATE as int)
                <= 100000000 * 30000) by (nonlinear_arith)
                requires
                    0 <= commission_rate_bps as int * 10000 <= 100000000,
            ;
            assert((100000000 - commission_rate_bps as int * 10000) * (BASE_REWARD_RATE as int)
                >= 0) by (nonlinear_arith)
                requires
                    0 <= commission_rate_bps as int * 10000 <= 100000000,
            ;
            assert(((100000000 - commission_rate_bps as int * 10000) * (BASE_REWARD_RATE as int))
                / 100000000 <= 100000000 * 30000) by {
                vstd::arithmetic::div_mod::lemma_div_is_ordered(
                    (100000000 - commission_rate_bps as int * 10000) * (BASE_REWARD_RATE as int),
                    100000000int * 30000,
                    100000000int,
                );
                vstd::arithmetic::div_mod::lemma_div_is_ordered_by_denominator(
                    100000000int * 30000,
                    1int,
                    100000000int,
                );
            }
        }
        let validator_reward_rate = ((100000000u64 - (commission_rate_bps as u64) * 10000)
            * BASE_REWARD_RATE) / 100000000;
        let validator_exchange_rate = (self.validator_exchange_rate * (self.validator_reward_rate
            + 100000000)) / 100000000;
        let voting_power_adjustment = (validator_exchange_rate * 100000000)
            / base_rate_data.base_exchange_rate;
        RateData {
            identity_key: self.identity_key,
            epoch_index: self.epoch_index + 1,
            voting_power: self.voting_power * voting_power_adjustment,
            validator_reward_rate,
            validator_exchange_rate,
        }
    }
}

/// A commission within 100% stays within the word size once scaled to the
/// 1e8 denominator.
proof fn lemma_commission_mul(c: int)
    requires
        0 <= c <= 10000,
    ensures
        0 <= c * 10000 <= 100000000,
{
    assert(c * 10000 <= 10000 * 10000) by (nonlinear_arith)
        requires
            0 <= c <= 10000,
    ;
}

/// Sum the commission rates of the funding streams.
fn sum_rates(streams: &Vec<FundingStream>) -> (r: u32)
    requires
        commission_sum(streams@) <= 10000,
    ensures
        r as int == commission_sum(streams@),
        r <= 10000,
{
    let mut total: u32 = 0;
    let mut i: usize = 0;
    proof {
        lemma_commission_prefix(streams@, 0);
    }
    while i < streams.len()
        invariant
            i <= streams@.len(),
            total as int == commission_sum(streams@.take(i as int)),
            commission_sum(streams@) <= 10000,
            commission_sum(streams@.take(i as int)) <= 10000,
        decreases streams@.len() - i,
    {
        proof {
            assert(streams@.take(i as int + 1).drop_last() =~= streams@.take(i as int));
            assert(streams@.take(i as int + 1).last() == streams@[i as int]);
            lemma_commission_prefix(streams@, i as int + 1);
        }
        total = total + (streams[i].rate_bps as u32);
        i = i + 1;
    }
    proof {
        assert(streams@.take(streams@.len() as int) =~= streams@);
    }
    total
}

/// A prefix's commission never exceeds the whole list's, since rates are
/// non-negative.
proof fn lemma_commission_prefix(s: Seq<FundingStream>, i: int)
    requires
        0 <= i <= s.len(),
    ensures
        commission_sum(s.take(i)) <= commission_sum(s),
        commission_sum(s.take(i)) >= 0,
    decreases s.len() - i,
{
    if i == s.len() {
        assert(s.take(i) =~= s);
        lemma_commission_nonneg(s);
    } else {
        lemma_commission_prefix(s, i + 1);
        assert(s.take(i + 1).drop_last() =~= s.take(i));
        assert(s.take(i + 1).last() == s[i]);
        lemma_commission_nonneg(s.take(i));
    }
}

proof fn lemma_commission_nonneg(s: Seq<FundingStream>)
    ensures
        commission_sum(s) >= 0,
    decreases s.len(),
{
    if s.len() > 0 {
        lemma_commission_nonneg(s.drop_last());
    }
}

impl BaseRateData {
    /// The next epoch's base rates: the compounded base exchange rate, the
    /// base reward rate, and the next epoch index.
    pub fn next_base_rate(&self) -> (r: BaseRateData)
        requires
            self.base_exchange_rate as int * (BASE_REWARD_RATE as int + 100000000)
                < 0x10000000000000000,
            self.epoch_index < 0xffffffffffffffff,
        ensures
            r.base_exchange_rate as int == (self.base_exchange_rate as int * (BASE_REWARD_RATE
                as int + 100000000)) / 100000000,
            r.base_reward_rate == BASE_REWARD_RATE,
            r.epoch_index == self.epoch_index + 1,
    {
        let base_exchange_rate = (self.base_exchange_rate * (BASE_REWARD_RATE + 100000000))
            / 100000000;
        BaseRateData {
            base_exchange_rate,
            base_reward_rate: BASE_REWARD_RATE,
            epoch_index: self.epoch_index + 1,
        }
    }
}

} // verus!
