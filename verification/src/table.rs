//! The fixed descriptor tables that drive the initialization.
//!
//! Each row configures one bridged token.  The tables are baked into the
//! deployed logic; the builders below construct them and nothing mutates
//! them afterwards.  Reward-enabling rows must not repeat an ibc denom:
//! duplicate denoms would make later writes silently overwrite earlier ones
//! for the same key set, and `check_distinct_denoms` decides that invariant.

use vstd::prelude::*;

use crate::keys::{ibc_denom, spec_ibc_denom};

verus! {

/// One row of the reward-enabling token table.
pub struct TokenDescriptor {
    /// Power-of-ten scale at which `target_locked_amount` is stored.
    pub denomination: u8,
    /// Channel identifier of the bridge path.
    pub channel_id: String,
    /// Base token symbol on the far side of the bridge.
    pub base_token: String,
    /// Decimal literal of the maximal reward rate.
    pub max_reward_rate: String,
    /// Target locked amount, as a plain unscaled integer.
    pub target_locked_amount: u64,
    /// Decimal literal of the proportional gain.
    pub kp_gain: String,
    /// Decimal literal of the derivative gain.
    pub kd_gain: String,
}

/// Mathematical form of a reward descriptor.
pub struct DescModel {
    pub denomination: u8,
    pub channel_id: Seq<char>,
    pub base_token: Seq<char>,
    pub max_reward_rate: Seq<char>,
    pub target_locked_amount: u64,
    pub kp_gain: Seq<char>,
    pub kd_gain: Seq<char>,
}

impl View for TokenDescriptor {
    type V = DescModel;

    open spec fn view(&self) -> DescModel {
        DescModel {
            denomination: self.denomination,
            channel_id: self.channel_id@,
            base_token: self.base_token@,
            max_reward_rate: self.max_reward_rate@,
            target_locked_amount: self.target_locked_amount,
            kp_gain: self.kp_gain@,
            kd_gain: self.kd_gain@,
        }
    }
}

/// One row of the deposit/withdrawal limit table.
pub struct LimitDescriptor {
    pub channel_id: String,
    pub base_token: String,
    /// Mint limit, as a stored scaled amount.
    pub mint_limit: u128,
    /// Throughput limit, as a stored scaled amount.
    pub throughput_limit: u128,
}

/// Mathematical form of a limit descriptor.
pub struct LimitModel {
    pub channel_id: Seq<char>,
    pub base_token: Seq<char>,
    pub mint_limit: u128,
    pub throughput_limit: u128,
}

impl View for LimitDescriptor {
    type V = LimitModel;

    open spec fn view(&self) -> LimitModel {
        LimitModel {
            channel_id: self.channel_id@,
            base_token: self.base_token@,
            mint_limit: self.mint_limit,
            throughput_limit: self.throughput_limit,
        }
    }
}

/// The ibc denom that a reward descriptor's token is identified by.
pub open spec fn denom_of(d: DescModel) -> Seq<char> {
    spec_ibc_denom(d.channel_id, d.base_token)
}

/// The ibc denom that a limit descriptor's token is identified by.
pub open spec fn limit_denom_of(d: LimitModel) -> Seq<char> {
    spec_ibc_denom(d.channel_id, d.base_token)
}

pub open spec fn desc_views(s: Seq<TokenDescriptor>) -> Seq<DescModel> {
    s.map_values(|d: TokenDescriptor| d@)
}

pub open spec fn limit_views(s: Seq<LimitDescriptor>) -> Seq<LimitModel> {
    s.map_values(|d: LimitDescriptor| d@)
}

/// Builds one reward descriptor row.
pub fn token_descriptor(
    denomination: u8,
    channel_id: &str,
    base_token: &str,
    max_reward_rate: &str,
    target_locked_amount: u64,
    kp_gain: &str,
    kd_gain: &str,
) -> (r: TokenDescriptor)
    ensures
        r@ == (DescModel {
            denomination,
            channel_id: channel_id@,
            base_token: base_token@,
            max_reward_rate: max_reward_rate@,
            target_locked_amount,
            kp_gain: kp_gain@,
            kd_gain: kd_gain@,
        }),
{
    TokenDescriptor {
        denomination,
        channel_id: String::from_str(channel_id),
        base_token: String::from_str(base_token),
        max_reward_rate: String::from_str(max_reward_rate),
        target_locked_amount,
        kp_gain: String::from_str(kp_gain),
        kd_gain: String::from_str(kd_gain),
    }
}

/// Builds one limit descriptor row.
pub fn limit_descriptor(
    channel_id: &str,
    base_token: &str,
    mint_limit: u128,
    throughput_limit: u128,
) -> (r: LimitDescriptor)
    ensures
        r@ == (LimitModel {
            channel_id: channel_id@,
            base_token: base_token@,
            mint_limit,
            throughput_limit,
        }),
{
    LimitDescriptor {
        channel_id: String::from_str(channel_id),
        base_token: String::from_str(base_token),
        mint_limit,
        throughput_limit,
    }
}

/// No two rows may derive the same ibc denom.
pub open spec fn distinct_denoms(t: Seq<DescModel>) -> bool {
    forall|i: int, j: int| 0 <= i < j < t.len() ==> denom_of(t[i]) != denom_of(t[j])
}

/// Decides the table invariant: every pair of rows derives distinct ibc
/// denoms.  Meant as a deployment-time validation of a fixed table.
pub fn check_distinct_denoms(table: &Vec<TokenDescriptor>) -> (r: bool)
    ensures
        r == distinct_denoms(desc_views(table@)),
{
    let ghost t = desc_views(table@);
    let mut denoms: Vec<String> = Vec::new();
    let mut k: usize = 0;
    while k < table.len()
        invariant
            k <= table.len(),
            t == desc_views(table@),
            denoms@.len() == k,
            forall|a: int| 0 <= a < k ==> denoms@[a]@ == denom_of(t[a]),
        decreases table.len() - k,
    {
        denoms.push(ibc_denom(table[k].channel_id.as_str(), table[k].base_token.as_str()));
        k = k + 1;
    }
    let mut i: usize = 0;
    while i < denoms.len()
        invariant
            t == desc_views(table@),
            i <= denoms.len(),
            denoms@.len() == t.len(),
            forall|a: int| 0 <= a < t.len() ==> denoms@[a]@ == denom_of(t[a]),
            forall|a: int, b: int| 0 <= a < i && a < b < t.len() ==> denom_of(t[a]) != denom_of(
                t[b],
            ),
        decreases denoms.len() - i,
    {
        let mut j: usize = i + 1;
        while j < denoms.len()
            invariant
                t == desc_views(table@),
                i < denoms.len(),
                i < j,
                denoms@.len() == t.len(),
                forall|a: int| 0 <= a < t.len() ==> denoms@[a]@ == denom_of(t[a]),
                forall|b: int| i < b < j ==> denom_of(t[i as int]) != denom_of(t[b]),
            decreases denoms.len() - j,
        {
            if denoms[i] == denoms[j] {
                proof {
                    assert(denom_of(t[i as int]) == denom_of(t[j as int]));
                    assert(!distinct_denoms(t));
                }
                return false;
            }
            j = j + 1;
        }
        i = i + 1;
    }
    true
}

/// The strict variant's reward table: six bridged tokens, each targeted at
/// two percent annual inflation at most.
pub open spec fn strict_rewards_model() -> Seq<DescModel> {
    seq![
        DescModel {
            denomination: 0,
            channel_id: "channel-7"@,
            base_token: "uosmo"@,
            max_reward_rate: "0.02"@,
            target_locked_amount: 60000000,
            kp_gain: "120000"@,
            kd_gain: "120000"@,
        },
        DescModel {
            denomination: 0,
            channel_id: "channel-9"@,
            base_token: "uatom"@,
            max_reward_rate: "0.02"@,
            target_locked_amount: 60000000,
            kp_gain: "120000"@,
            kd_gain: "120000"@,
        },
        DescModel {
            denomination: 0,
            channel_id: "channel-10"@,
            base_token: "utia"@,
            max_reward_rate: "0.02"@,
            target_locked_amount: 60000000,
            kp_gain: "120000"@,
            kd_gain: "120000"@,
        },
        DescModel {
            denomination: 0,
            channel_id: "channel-8"@,
            base_token: "stuosmo"@,
            max_reward_rate: "0.02"@,
            target_locked_amount: 60000000,
            kp_gain: "120000"@,
            kd_gain: "120000"@,
        },
        DescModel {
            denomination: 0,
            channel_id: "channel-8"@,
            base_token: "stuatom"@,
            max_reward_rate: "0.02"@,
            target_locked_amount: 60000000,
            kp_gain: "120000"@,
            kd_gain: "120000"@,
        },
        DescModel {
            denomination: 0,
            channel_id: "channel-8"@,
            base_token: "stutia"@,
            max_reward_rate: "0.02"@,
            target_locked_amount: 60000000,
            kp_gain: "120000"@,
            kd_gain: "120000"@,
        },
    ]
}

/// Builds the strict variant's reward table.
pub fn strict_rewards_table() -> (r: Vec<TokenDescriptor>)
    ensures
        desc_views(r@) == strict_rewards_model(),
{
    let mut t: Vec<TokenDescriptor> = Vec::new();
    t.push(token_descriptor(0, "channel-7", "uosmo", "0.02", 60000000, "120000", "120000"));
    t.push(token_descriptor(0, "channel-9", "uatom", "0.02", 60000000, "120000", "120000"));
    t.push(token_descriptor(0, "channel-10", "utia", "0.02", 60000000, "120000", "120000"));
    t.push(token_descriptor(0, "channel-8", "stuosmo", "0.02", 60000000, "120000", "120000"));
    t.push(token_descriptor(0, "channel-8", "stuatom", "0.02", 60000000, "120000", "120000"));
    t.push(token_descriptor(0, "channel-8", "stutia", "0.02", 60000000, "120000", "120000"));
    proof {
        assert(desc_views(t@) =~= strict_rewards_model());
    }
    t
}

/// The registration variant's limit table: two tokens allowed in, each with
/// a mint and a throughput limit.
pub open spec fn registration_limits_model() -> Seq<LimitModel> {
    seq![
        LimitModel {
            channel_id: "channel-2"@,
            base_token: "uosmo"@,
            mint_limit: 10000000000,
            throughput_limit: 10000000000,
        },
        LimitModel {
            channel_id: "channel-1"@,
            base_token: "uatom"@,
            mint_limit: 10000000000,
            throughput_limit: 10000000000,
        },
    ]
}

/// Builds the registration variant's limit table.
pub fn registration_limits_table() -> (r: Vec<LimitDescriptor>)
    ensures
        limit_views(r@) == registration_limits_model(),
{
    let mut t: Vec<LimitDescriptor> = Vec::new();
    t.push(limit_descriptor("channel-2", "uosmo", 10000000000, 10000000000));
    t.push(limit_descriptor("channel-1", "uatom", 10000000000, 10000000000));
    proof {
        assert(limit_views(t@) =~= registration_limits_model());
    }
    t
}

/// The registration variant's reward table: both tokens enter the token
/// map, only one carries a non-zero incentive.
pub open spec fn registration_rewards_model() -> Seq<DescModel> {
    seq![
        DescModel {
            denomination: 0,
            channel_id: "channel-1"@,
            base_token: "uatom"@,
            max_reward_rate: "0"@,
            target_locked_amount: 0,
            kp_gain: "0"@,
            kd_gain: "0"@,
        },
        DescModel {
            denomination: 0,
            channel_id: "channel-2"@,
            base_token: "uosmo"@,
            max_reward_rate: "0.01"@,
            target_locked_amount: 1000000,
            kp_gain: "120000"@,
            kd_gain: "120000"@,
        },
    ]
}

/// Builds the registration variant's reward table.
pub fn registration_rewards_table() -> (r: Vec<TokenDescriptor>)
    ensures
        desc_views(r@) == registration_rewards_model(),
{
    let mut t: Vec<TokenDescriptor> = Vec::new();
    t.push(token_descriptor(0, "channel-1", "uatom", "0", 0, "0", "0"));
    t.push(token_descriptor(0, "channel-2", "uosmo", "0.01", 1000000, "120000", "120000"));
    proof {
        assert(desc_views(t@) =~= registration_rewards_model());
    }
    t
}

} // verus!
