//! Storage keys of the ledger entries this system touches.
//!
//! Every parameter key is a deterministic, pure function of the token it
//! belongs to; the token itself is identified by its canonical denom string
//! `transfer/{channel}/{base}`.  A key is therefore modelled as the pair of
//! the denom and the parameter it addresses, together with two singular
//! kinds: the token's pooled balance entry and the global token map entry.

use vstd::prelude::*;

verus! {

/// The per-token protocol parameters and limits that this system writes.
#[derive(Clone, Copy, PartialEq, Eq, Structural, Debug)]
pub enum ParamKind {
    LastInflation,
    LastLockedAmount,
    MaxRewardRate,
    TargetLockedAmount,
    KpGain,
    KdGain,
    MintLimit,
    ThroughputLimit,
}

/// A ledger storage key.
pub enum StorageKey {
    /// A protocol parameter or limit key derived for one token.
    Param { kind: ParamKind, denom: String },
    /// The pooled balance entry of one token.
    PoolBalance { denom: String },
    /// The single global token map entry.
    TokenMapKey,
}

/// Mathematical form of a storage key.
pub enum KeyModel {
    Param { kind: ParamKind, denom: Seq<char> },
    PoolBalance { denom: Seq<char> },
    TokenMapKey,
}

impl View for StorageKey {
    type V = KeyModel;

    open spec fn view(&self) -> KeyModel {
        match self {
            StorageKey::Param { kind, denom } => KeyModel::Param { kind: *kind, denom: denom@ },
            StorageKey::PoolBalance { denom } => KeyModel::PoolBalance { denom: denom@ },
            StorageKey::TokenMapKey => KeyModel::TokenMapKey,
        }
    }
}

/// Decides equality of two storage keys, at the level of their models.
pub fn key_eq(a: &StorageKey, b: &StorageKey) -> (r: bool)
    ensures
        r <==> a@ == b@,
{
    match (a, b) {
        (
            StorageKey::Param { kind: k1, denom: d1 },
            StorageKey::Param { kind: k2, denom: d2 },
        ) => *k1 == *k2 && *d1 == *d2,
        (StorageKey::PoolBalance { denom: d1 }, StorageKey::PoolBalance { denom: d2 }) => *d1
            == *d2,
        (StorageKey::TokenMapKey, StorageKey::TokenMapKey) => true,
        _ => false,
    }
}

/// The canonical denom string of a bridged token: `transfer/{channel}/{base}`.
pub open spec fn spec_ibc_denom(channel_id: Seq<char>, base_token: Seq<char>) -> Seq<char> {
    "transfer/"@ + channel_id + "/"@ + base_token
}

/// Builds the canonical denom string of a bridged token.
pub fn ibc_denom(channel_id: &str, base_token: &str) -> (r: String)
    ensures
        r@ == spec_ibc_denom(channel_id@, base_token@),
{
    let mut s = String::from_str("transfer/");
    s.append(channel_id);
    s.append("/");
    s.append(base_token);
    s
}

/// The canonical on-ledger identifier of a bridged token.  The host
/// environment derives it from the denom deterministically and, for the
/// descriptor tables in use, without collisions; the model therefore
/// identifies the derived address with the denom that derives it.
pub open spec fn spec_token_address(denom: Seq<char>) -> Seq<char> {
    denom
}

/// Derives the canonical on-ledger identifier of a bridged token from its
/// ibc denom.
pub fn derive_token_address(denom: &str) -> (r: String)
    ensures
        r@ == spec_token_address(denom@),
{
    String::from_str(denom)
}

/// Two tokens that share a channel but differ in their base token have
/// distinct denom strings: the denom depends on the full channel/base pair.
pub proof fn lemma_denom_distinct_bases(c: Seq<char>, b1: Seq<char>, b2: Seq<char>)
    requires
        b1 != b2,
    ensures
        spec_ibc_denom(c, b1) != spec_ibc_denom(c, b2),
{
    let pre = "transfer/"@ + c + "/"@;
    if spec_ibc_denom(c, b1) == spec_ibc_denom(c, b2) {
        assert(pre + b1 == pre + b2);
        assert((pre + b1).len() == pre.len() + b1.len());
        assert((pre + b2).len() == pre.len() + b2.len());
        assert(b1.len() == b2.len());
        assert forall|i: int| 0 <= i < b1.len() implies b1[i] == b2[i] by {
            assert((pre + b1)[pre.len() + i] == b1[i]);
            assert((pre + b2)[pre.len() + i] == b2[i]);
        }
        assert(b1 =~= b2);
    }
}

} // verus!
