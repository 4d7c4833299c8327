//! The transaction bodies.
//!
//! Both variants share one algorithm: for each reward descriptor, derive
//! the token's denom and address, read its pooled balance, and write the six
//! parameter values in a fixed order.  The strict variant requires the
//! balance entry to exist; the lenient variant substitutes zero and, in the
//! same transaction, writes deposit/withdrawal limits for a second table and
//! extends the global token map by one entry per reward descriptor.
//!
//! A transaction either commits every write or none: the body first plans
//! the full write list, faulting before anything is written, and only a
//! fault-free plan is committed.  Each contract states the exact fault, in
//! the order the checks are made, and the exact resulting ledger map.

use vstd::prelude::*;

use crate::amount::{scale_amount, spec_scale};
use crate::dec::{dec_parsed, parse_decimal};
use crate::keys::{
    derive_token_address, ibc_denom, spec_token_address, KeyModel, ParamKind, StorageKey,
};
use crate::ledger::{
    entry_views, find_last, insert_all, lemma_insert_all_find, lemma_insert_all_push,
    lemma_insert_all_twice, string_pair_views, Ledger, StateValue, TokenMap, ValueModel,
};
use crate::table::{
    denom_of, desc_views, limit_denom_of, limit_views, registration_limits_model,
    registration_limits_table, registration_rewards_model, registration_rewards_table,
    strict_rewards_model, strict_rewards_table, DescModel, LimitDescriptor, LimitModel,
    TokenDescriptor,
};

verus! {

/// A fault aborting the transaction.
#[derive(Clone, Copy, PartialEq, Eq, Structural, Debug)]
pub enum TxError {
    /// A pooled balance entry that must exist is absent.
    MissingRequiredState,
    /// A decimal literal of the table fails to parse.
    MalformedLiteral,
    /// Scaling a target locked amount exceeds the stored amount width.
    OverflowOnScale,
}

/// Every entry that this system reads carries the type its key calls for.
pub open spec fn ledger_typed(m: Map<KeyModel, ValueModel>) -> bool {
    &&& forall|d: Seq<char>|
        #[trigger] m.contains_key(KeyModel::PoolBalance { denom: d }) ==> m[KeyModel::PoolBalance {
            denom: d,
        }] is Amount
    &&& m.contains_key(KeyModel::TokenMapKey) ==> m[KeyModel::TokenMapKey] is TokenMap
}

/// Whether the ledger holds a pooled balance entry for a token.
pub open spec fn balance_present(m: Map<KeyModel, ValueModel>, denom: Seq<char>) -> bool {
    m.contains_key(KeyModel::PoolBalance { denom })
}

/// The pooled balance the ledger holds for a token, zero when absent.
pub open spec fn balance_of(m: Map<KeyModel, ValueModel>, denom: Seq<char>) -> u128 {
    if m.contains_key(KeyModel::PoolBalance { denom }) {
        match m[KeyModel::PoolBalance { denom }] {
            ValueModel::Amount(a) => a,
            _ => 0,
        }
    } else {
        0
    }
}

/// The token map the ledger holds, empty when absent.
pub open spec fn token_map_of(m: Map<KeyModel, ValueModel>) -> Map<Seq<char>, Seq<char>> {
    if m.contains_key(KeyModel::TokenMapKey) {
        match m[KeyModel::TokenMapKey] {
            ValueModel::TokenMap(t) => t,
            _ => Map::empty(),
        }
    } else {
        Map::empty()
    }
}

/// The fault one reward descriptor raises, in the order the checks are
/// made: the balance read comes first, then the three literals and the
/// target conversion in write order.
pub open spec fn desc_fault(d: DescModel, have_balance: bool, strict: bool) -> Option<TxError> {
    if strict && !have_balance {
        Some(TxError::MissingRequiredState)
    } else if dec_parsed(d.max_reward_rate) is None {
        Some(TxError::MalformedLiteral)
    } else if spec_scale(d.target_locked_amount, d.denomination) is None {
        Some(TxError::OverflowOnScale)
    } else if dec_parsed(d.kp_gain) is None {
        Some(TxError::MalformedLiteral)
    } else if dec_parsed(d.kd_gain) is None {
        Some(TxError::MalformedLiteral)
    } else {
        None
    }
}

/// The first fault the reward pass raises over the table, in table order.
pub open spec fn rewards_fault(
    t: Seq<DescModel>,
    m: Map<KeyModel, ValueModel>,
    strict: bool,
) -> Option<TxError>
    decreases t.len(),
{
    if t.len() == 0 {
        None
    } else {
        match desc_fault(t[0], balance_present(m, denom_of(t[0])), strict) {
            Some(e) => Some(e),
            None => rewards_fault(t.drop_first(), m, strict),
        }
    }
}

/// The six parameter writes of one reward descriptor, in write order.
pub open spec fn desc_writes(d: DescModel, bal: u128) -> Seq<(KeyModel, ValueModel)> {
    let denom = denom_of(d);
    seq![
        (
            KeyModel::Param { kind: ParamKind::LastLockedAmount, denom },
            ValueModel::Amount(bal),
        ),
        (KeyModel::Param { kind: ParamKind::LastInflation, denom }, ValueModel::Amount(0)),
        (
            KeyModel::Param { kind: ParamKind::MaxRewardRate, denom },
            ValueModel::Decimal(dec_parsed(d.max_reward_rate)->Some_0),
        ),
        (
            KeyModel::Param { kind: ParamKind::TargetLockedAmount, denom },
            ValueModel::Amount(spec_scale(d.target_locked_amount, d.denomination)->Some_0),
        ),
        (
            KeyModel::Param { kind: ParamKind::KpGain, denom },
            ValueModel::Decimal(dec_parsed(d.kp_gain)->Some_0),
        ),
        (
            KeyModel::Param { kind: ParamKind::KdGain, denom },
            ValueModel::Decimal(dec_parsed(d.kd_gain)->Some_0),
        ),
    ]
}

/// The whole reward pass's writes, in table order.  Balances are taken from
/// `m` as it stood before the transaction: the pass itself writes parameter
/// keys only, never balance entries.
pub open spec fn rewards_writes(t: Seq<DescModel>, m: Map<KeyModel, ValueModel>) -> Seq<
    (KeyModel, ValueModel),
>
    decreases t.len(),
{
    if t.len() == 0 {
        Seq::empty()
    } else {
        rewards_writes(t.drop_last(), m) + desc_writes(
            t.last(),
            balance_of(m, denom_of(t.last())),
        )
    }
}

/// The two limit writes of one limit descriptor, in write order.
pub open spec fn limit_writes_one(d: LimitModel) -> Seq<(KeyModel, ValueModel)> {
    let denom = limit_denom_of(d);
    seq![
        (KeyModel::Param { kind: ParamKind::MintLimit, denom }, ValueModel::Amount(d.mint_limit)),
        (
            KeyModel::Param { kind: ParamKind::ThroughputLimit, denom },
            ValueModel::Amount(d.throughput_limit),
        ),
    ]
}

/// The whole limit pass's writes, in table order.
pub open spec fn limits_writes(ls: Seq<LimitModel>) -> Seq<(KeyModel, ValueModel)>
    decreases ls.len(),
{
    if ls.len() == 0 {
        Seq::empty()
    } else {
        limits_writes(ls.drop_last()) + limit_writes_one(ls.last())
    }
}

/// The token map insertions of the reward pass: each descriptor's denom
/// mapped to its derived address.
pub open spec fn map_inserts(t: Seq<DescModel>) -> Seq<(Seq<char>, Seq<char>)> {
    t.map_values(|d: DescModel| (denom_of(d), spec_token_address(denom_of(d))))
}

/// The token map after the reward pass extended it.
pub open spec fn extended_token_map(
    m0: Map<Seq<char>, Seq<char>>,
    t: Seq<DescModel>,
) -> Map<Seq<char>, Seq<char>> {
    insert_all(m0, map_inserts(t))
}

/// Every write of the lenient variant, in write order: the limit pass, the
/// reward pass, and the single token map write.
pub open spec fn registration_writes(
    ls: Seq<LimitModel>,
    t: Seq<DescModel>,
    m: Map<KeyModel, ValueModel>,
) -> Seq<(KeyModel, ValueModel)> {
    limits_writes(ls) + rewards_writes(t, m) + seq![
        (
            KeyModel::TokenMapKey,
            ValueModel::TokenMap(extended_token_map(token_map_of(m), t)),
        ),
    ]
}

// ---------------------------------------------------------------------------
// Fault order lemmas.
// ---------------------------------------------------------------------------

proof fn lemma_rewards_fault_at(
    t: Seq<DescModel>,
    m: Map<KeyModel, ValueModel>,
    strict: bool,
    i: int,
)
    requires
        0 <= i < t.len(),
        forall|k: int|
            0 <= k < i ==> desc_fault(t[k], balance_present(m, denom_of(t[k])), strict) is None,
        desc_fault(t[i], balance_present(m, denom_of(t[i])), strict) is Some,
    ensures
        rewards_fault(t, m, strict) == desc_fault(
            t[i],
            balance_present(m, denom_of(t[i])),
            strict,
        ),
    decreases i,
{
    if i > 0 {
        let t2 = t.drop_first();
        assert(forall|k: int| 0 <= k < t2.len() ==> t2[k] == t[k + 1]);
        lemma_rewards_fault_at(t2, m, strict, i - 1);
    }
}

proof fn lemma_rewards_fault_none(t: Seq<DescModel>, m: Map<KeyModel, ValueModel>, strict: bool)
    requires
        forall|k: int|
            0 <= k < t.len() ==> desc_fault(t[k], balance_present(m, denom_of(t[k])), strict)
                is None,
    ensures
        rewards_fault(t, m, strict) is None,
    decreases t.len(),
{
    if t.len() > 0 {
        let t2 = t.drop_first();
        assert(forall|k: int| 0 <= k < t2.len() ==> t2[k] == t[k + 1]);
        lemma_rewards_fault_none(t2, m, strict);
    }
}

// ---------------------------------------------------------------------------
// Shape lemmas about the planned writes.
// ---------------------------------------------------------------------------

/// A value found in a log is the value of one of its entries.
proof fn lemma_find_last_is_entry<K, V>(entries: Seq<(K, V)>, k: K)
    ensures
        find_last(entries, k) matches Some(v) ==> exists|i: int|
            0 <= i < entries.len() && entries[i] == (k, v),
    decreases entries.len(),
{
    if entries.len() > 0 {
        lemma_find_last_is_entry(entries.drop_last(), k);
        if find_last(entries, k) is Some {
            let v = find_last(entries, k)->Some_0;
            if entries.last().0 == k {
                assert(entries[entries.len() - 1] == (k, v));
            } else {
                let i = choose|i: int|
                    0 <= i < entries.drop_last().len() && entries.drop_last()[i] == (k, v);
                assert(entries[i] == (k, v));
            }
        }
    }
}

proof fn lemma_desc_writes_params(d: DescModel, b: u128)
    ensures
        forall|i: int| 0 <= i < desc_writes(d, b).len() ==> (#[trigger] desc_writes(d, b)[i]).0
            is Param,
{
    assert forall|i: int| 0 <= i < desc_writes(d, b).len() implies (#[trigger] desc_writes(
        d,
        b,
    )[i]).0 is Param by {
        if i == 0 {
        } else if i == 1 {
        } else if i == 2 {
        } else if i == 3 {
        } else if i == 4 {
        } else {
            assert(i == 5);
        }
    }
}

/// Every key the reward pass writes is a parameter key.
proof fn lemma_rewards_writes_params(t: Seq<DescModel>, m: Map<KeyModel, ValueModel>)
    ensures
        forall|i: int|
            0 <= i < rewards_writes(t, m).len() ==> (#[trigger] rewards_writes(t, m)[i]).0
                is Param,
    decreases t.len(),
{
    if t.len() > 0 {
        lemma_rewards_writes_params(t.drop_last(), m);
        lemma_desc_writes_params(t.last(), balance_of(m, denom_of(t.last())));
    }
}

/// Every key the limit pass writes is a parameter key.
proof fn lemma_limits_writes_params(ls: Seq<LimitModel>)
    ensures
        forall|i: int|
            0 <= i < limits_writes(ls).len() ==> (#[trigger] limits_writes(ls)[i]).0 is Param,
    decreases ls.len(),
{
    if ls.len() > 0 {
        lemma_limits_writes_params(ls.drop_last());
        assert forall|i: int| 0 <= i < limit_writes_one(ls.last()).len() implies (
        #[trigger] limit_writes_one(ls.last())[i]).0 is Param by {
            if i == 0 {
            } else {
                assert(i == 1);
            }
        }
    }
}

/// If every entry of a write log carries a parameter key, no lookup of a
/// non-parameter key finds anything in it.
proof fn lemma_params_find_none(ws: Seq<(KeyModel, ValueModel)>, k: KeyModel)
    requires
        forall|i: int| 0 <= i < ws.len() ==> (#[trigger] ws[i]).0 is Param,
        !(k is Param),
    ensures
        find_last(ws, k) is None,
{
    if find_last(ws, k) is Some {
        lemma_find_last_is_entry(ws, k);
        let v = find_last(ws, k)->Some_0;
        let i = choose|i: int| 0 <= i < ws.len() && ws[i] == (k, v);
        assert((ws[i]).0 is Param);
        assert(false);
    }
}

/// Writing parameter keys alone leaves every balance entry, and the token
/// map entry, as it was.
proof fn lemma_params_preserve_reads(m: Map<KeyModel, ValueModel>, ws: Seq<(KeyModel, ValueModel)>)
    requires
        forall|i: int| 0 <= i < ws.len() ==> (#[trigger] ws[i]).0 is Param,
    ensures
        forall|d: Seq<char>|
            #[trigger] balance_present(insert_all(m, ws), d) == balance_present(m, d),
        forall|d: Seq<char>| #[trigger] balance_of(insert_all(m, ws), d) == balance_of(m, d),
        token_map_of(insert_all(m, ws)) == token_map_of(m),
{
    assert forall|d: Seq<char>|
        #[trigger] balance_present(insert_all(m, ws), d) == balance_present(m, d) by {
        let k = KeyModel::PoolBalance { denom: d };
        lemma_params_find_none(ws, k);
        lemma_insert_all_find(m, ws, k);
    }
    assert forall|d: Seq<char>|
        #[trigger] balance_of(insert_all(m, ws), d) == balance_of(m, d) by {
        let k = KeyModel::PoolBalance { denom: d };
        lemma_params_find_none(ws, k);
        lemma_insert_all_find(m, ws, k);
    }
    lemma_params_find_none(ws, KeyModel::TokenMapKey);
    lemma_insert_all_find(m, ws, KeyModel::TokenMapKey);
}

/// The reward pass plans the same writes over any two ledgers that agree on
/// every pooled balance.
proof fn lemma_rewards_congruent(
    t: Seq<DescModel>,
    m1: Map<KeyModel, ValueModel>,
    m2: Map<KeyModel, ValueModel>,
    strict: bool,
)
    requires
        forall|d: Seq<char>| #[trigger] balance_present(m1, d) == balance_present(m2, d),
        forall|d: Seq<char>| #[trigger] balance_of(m1, d) == balance_of(m2, d),
    ensures
        rewards_fault(t, m1, strict) == rewards_fault(t, m2, strict),
        rewards_writes(t, m1) == rewards_writes(t, m2),
    decreases t.len(),
{
    if t.len() > 0 {
        lemma_rewards_congruent(t.drop_first(), m1, m2, strict);
        lemma_rewards_congruent(t.drop_last(), m1, m2, strict);
    }
}

// ---------------------------------------------------------------------------
// Planning and committing.
// ---------------------------------------------------------------------------

/// Plans the limit pass: two writes per limit descriptor, appended in table
/// order.  No check can fail here: the limit values are already stored
/// amounts.
fn plan_limits(limits: &Vec<LimitDescriptor>, writes: &mut Vec<(StorageKey, StateValue)>)
    ensures
        entry_views(final(writes)@) == entry_views(old(writes)@) + limits_writes(
            limit_views(limits@),
        ),
{
    let ghost ls = limit_views(limits@);
    let mut i: usize = 0;
    proof {
        assert(entry_views(writes@) =~= entry_views(old(writes)@) + limits_writes(ls.take(0)));
    }
    while i < limits.len()
        invariant
            i <= limits.len(),
            ls == limit_views(limits@),
            entry_views(writes@) == entry_views(old(writes)@) + limits_writes(ls.take(i as int)),
        decreases limits.len() - i,
    {
        let d = &limits[i];
        let denom = ibc_denom(d.channel_id.as_str(), d.base_token.as_str());
        writes.push(
            (
                StorageKey::Param { kind: ParamKind::MintLimit, denom: denom.clone() },
                StateValue::Amount(d.mint_limit),
            ),
        );
        writes.push(
            (
                StorageKey::Param { kind: ParamKind::ThroughputLimit, denom },
                StateValue::Amount(d.throughput_limit),
            ),
        );
        proof {
            let lm = ls[i as int];
            assert(lm == limits@[i as int]@);
            assert(denom@ == limit_denom_of(lm));
            assert(entry_views(writes@) =~= entry_views(old(writes)@) + limits_writes(
                ls.take(i as int),
            ) + limit_writes_one(lm));
            assert(ls.take(i + 1).drop_last() =~= ls.take(i as int));
            assert(ls.take(i + 1).last() == lm);
            assert(limits_writes(ls.take(i + 1)) == limits_writes(ls.take(i as int))
                + limit_writes_one(lm));
            assert(entry_views(writes@) =~= entry_views(old(writes)@) + limits_writes(
                ls.take(i + 1),
            ));
        }
        i = i + 1;
    }
    proof {
        assert(ls.take(limits@.len() as int) =~= ls);
    }
}

/// Plans the reward pass: reads each descriptor's pooled balance from the
/// ledger and appends its six parameter writes; collects the token map
/// insertion for each descriptor.  Faults in the order the original checks
/// are made, before anything is written.
fn plan_rewards(
    ledger: &Ledger,
    table: &Vec<TokenDescriptor>,
    strict: bool,
    writes: &mut Vec<(StorageKey, StateValue)>,
    inserts: &mut Vec<(String, String)>,
) -> (r: Result<(), TxError>)
    requires
        ledger_typed(ledger@),
    ensures
        match r {
            Ok(()) => {
                &&& rewards_fault(desc_views(table@), ledger@, strict) is None
                &&& entry_views(final(writes)@) == entry_views(old(writes)@) + rewards_writes(
                    desc_views(table@),
                    ledger@,
                )
                &&& string_pair_views(final(inserts)@) == string_pair_views(old(inserts)@)
                    + map_inserts(desc_views(table@))
            },
            Err(e) => rewards_fault(desc_views(table@), ledger@, strict) == Some(e),
        },
{
    let ghost t = desc_views(table@);
    let mut i: usize = 0;
    proof {
        assert(entry_views(writes@) =~= entry_views(old(writes)@) + rewards_writes(
            t.take(0),
            ledger@,
        ));
        assert(string_pair_views(inserts@) =~= string_pair_views(old(inserts)@) + map_inserts(
            t.take(0),
        ));
    }
    while i < table.len()
        invariant
            i <= table.len(),
            t == desc_views(table@),
            ledger_typed(ledger@),
            forall|k: int|
                0 <= k < i ==> desc_fault(t[k], balance_present(ledger@, denom_of(t[k])), strict)
                    is None,
            entry_views(writes@) == entry_views(old(writes)@) + rewards_writes(
                t.take(i as int),
                ledger@,
            ),
            string_pair_views(inserts@) == string_pair_views(old(inserts)@) + map_inserts(
                t.take(i as int),
            ),
        decreases table.len() - i,
    {
        let d = &table[i];
        let denom = ibc_denom(d.channel_id.as_str(), d.base_token.as_str());
        let address = derive_token_address(denom.as_str());
        let ghost dm = t[i as int];
        proof {
            assert(denom@ == denom_of(dm));
        }
        let bal: u128 = match ledger.get(
            &StorageKey::PoolBalance { denom: denom.clone() },
        ) {
            Some(StateValue::Amount(a)) => *a,
            Some(_) => {
                proof {
                    assert(ledger@[KeyModel::PoolBalance { denom: denom@ }] is Amount);
                }
                vstd::pervasive::unreached()
            },
            None => {
                if strict {
                    proof {
                        lemma_rewards_fault_at(t, ledger@, strict, i as int);
                    }
                    return Err(TxError::MissingRequiredState);
                }
                0
            },
        };
        proof {
            assert(bal == balance_of(ledger@, denom_of(dm)));
        }
        let max_rate = match parse_decimal(d.max_reward_rate.as_str()) {
            Some(c) => c,
            None => {
                proof {
                    lemma_rewards_fault_at(t, ledger@, strict, i as int);
                }
                return Err(TxError::MalformedLiteral);
            },
        };
        let target = match scale_amount(d.target_locked_amount, d.denomination) {
            Some(a) => a,
            None => {
                proof {
                    lemma_rewards_fault_at(t, ledger@, strict, i as int);
                }
                return Err(TxError::OverflowOnScale);
            },
        };
        let kp = match parse_decimal(d.kp_gain.as_str()) {
            Some(c) => c,
            None => {
                proof {
                    lemma_rewards_fault_at(t, ledger@, strict, i as int);
                }
                return Err(TxError::MalformedLiteral);
            },
        };
        let kd = match parse_decimal(d.kd_gain.as_str()) {
            Some(c) => c,
            None => {
                proof {
                    lemma_rewards_fault_at(t, ledger@, strict, i as int);
                }
                return Err(TxError::MalformedLiteral);
            },
        };
        writes.push(
            (
                StorageKey::Param { kind: ParamKind::LastLockedAmount, denom: denom.clone() },
                StateValue::Amount(bal),
            ),
        );
        writes.push(
            (
                StorageKey::Param { kind: ParamKind::LastInflation, denom: denom.clone() },
                StateValue::Amount(0),
            ),
        );
        writes.push(
            (
                StorageKey::Param { kind: ParamKind::MaxRewardRate, denom: denom.clone() },
                StateValue::Decimal(max_rate),
            ),
        );
        writes.push(
            (
                StorageKey::Param { kind: ParamKind::TargetLockedAmount, denom: denom.clone() },
                StateValue::Amount(target),
            ),
        );
        writes.push(
            (
                StorageKey::Param { kind: ParamKind::KpGain, denom: denom.clone() },
                StateValue::Decimal(kp),
            ),
        );
        writes.push(
            (
                StorageKey::Param { kind: ParamKind::KdGain, denom: denom.clone() },
                StateValue::Decimal(kd),
            ),
        );
        let ghost ins0 = inserts@;
        inserts.push((denom.clone(), address.clone()));
        proof {
            assert(inserts@.last().0@ == denom_of(dm));
            assert(inserts@.last().1@ == spec_token_address(denom_of(dm)));
            assert(desc_fault(dm, balance_present(ledger@, denom_of(dm)), strict) is None);
            assert(entry_views(writes@) =~= entry_views(old(writes)@) + rewards_writes(
                t.take(i as int),
                ledger@,
            ) + desc_writes(dm, bal));
            assert(t.take(i + 1).drop_last() =~= t.take(i as int));
            assert(t.take(i + 1).last() == dm);
            assert(rewards_writes(t.take(i + 1), ledger@) == rewards_writes(
                t.take(i as int),
                ledger@,
            ) + desc_writes(dm, bal));
            assert(entry_views(writes@) =~= entry_views(old(writes)@) + rewards_writes(
                t.take(i + 1),
                ledger@,
            ));
            let pairs1 = string_pair_views(old(inserts)@) + map_inserts(t.take(i as int)).push(
                (denom_of(dm), spec_token_address(denom_of(dm))),
            );
            assert(inserts@.len() == ins0.len() + 1);
            assert(string_pair_views(inserts@).len() == inserts@.len());
            assert(string_pair_views(ins0) == string_pair_views(old(inserts)@) + map_inserts(
                t.take(i as int),
            ));
            assert(map_inserts(t.take(i as int)).len() == i);
            assert(string_pair_views(ins0).len() == ins0.len());
            assert(map_inserts(t.take(i as int)).push(
                (denom_of(dm), spec_token_address(denom_of(dm))),
            ).len() == i + 1);
            assert(pairs1.len() == string_pair_views(inserts@).len());
            assert forall|j: int| 0 <= j < string_pair_views(inserts@).len() implies
                string_pair_views(inserts@)[j] == pairs1[j] by {
                if j < ins0.len() {
                    assert(inserts@[j] == ins0[j]);
                    assert(string_pair_views(ins0)[j] == (string_pair_views(old(inserts)@)
                        + map_inserts(t.take(i as int)))[j]);
                } else {
                    assert(inserts@[j] == inserts@.last());
                }
            }
            assert(string_pair_views(inserts@) =~= pairs1);
            assert(map_inserts(t.take(i + 1)) =~= map_inserts(t.take(i as int)).push(
                (denom_of(dm), spec_token_address(denom_of(dm))),
            ));
            assert(string_pair_views(inserts@) =~= string_pair_views(old(inserts)@) + map_inserts(
                t.take(i + 1),
            ));
        }
        i = i + 1;
    }
    proof {
        assert(t.take(table@.len() as int) =~= t);
        lemma_rewards_fault_none(t, ledger@, strict);
    }
    Ok(())
}

/// Commits a planned write list to the ledger, in order.
fn commit_writes(ledger: &mut Ledger, writes: Vec<(StorageKey, StateValue)>)
    ensures
        final(ledger)@ == insert_all(old(ledger)@, entry_views(writes@)),
{
    let ghost total = entry_views(writes@);
    let mut ws = writes;
    proof {
        assert(entry_views(ws@) =~= total.skip(0));
        assert(insert_all(old(ledger)@, total.take(0)) =~= old(ledger)@);
    }
    while ws.len() > 0
        invariant
            ws@.len() <= total.len(),
            entry_views(ws@) == total.skip(total.len() - ws@.len()),
            ledger@ == insert_all(old(ledger)@, total.take(total.len() - ws@.len())),
        decreases ws@.len(),
    {
        let ghost done = total.len() - ws@.len();
        let ghost ws0 = ws@;
        let (k, v) = ws.remove(0);
        proof {
            assert(entry_views(ws0)[0] == (k@, v@));
            assert(entry_views(ws0) == total.skip(done));
            assert(total.skip(done)[0] == total[done]);
            assert((k@, v@) == total[done]);
            assert(ws@ =~= ws0.skip(1));
            assert forall|j: int| 0 <= j < entry_views(ws@).len() implies entry_views(ws@)[j]
                == total.skip(done + 1)[j] by {
                assert(ws@[j] == ws0[j + 1]);
                assert(entry_views(ws0)[j + 1] == total.skip(done)[j + 1]);
                assert(total.skip(done)[j + 1] == total[done + 1 + j]);
                assert(total.skip(done + 1)[j] == total[done + 1 + j]);
            }
            assert(entry_views(ws@) =~= total.skip(done + 1));
            lemma_insert_all_push(old(ledger)@, total.take(done), total[done].0, total[done].1);
            assert(total.take(done + 1) =~= total.take(done).push(total[done]));
        }
        ledger.write(k, v);
    }
    proof {
        assert(total.take(total.len() as int) =~= total);
    }
}

// ---------------------------------------------------------------------------
// The two transaction bodies.
// ---------------------------------------------------------------------------

/// The strict reward-initialization transaction.  For each descriptor, in
/// table order, it writes the six parameter values; the pooled balance of
/// every descriptor's token must already exist in the ledger.  On any fault
/// the ledger is left exactly as it was; on success the ledger holds the
/// planned writes and nothing else changed.
pub fn initialize_rewards(ledger: &mut Ledger, table: &Vec<TokenDescriptor>) -> (r: Result<
    (),
    TxError,
>)
    requires
        ledger_typed(old(ledger)@),
    ensures
        match r {
            Ok(()) => {
                &&& rewards_fault(desc_views(table@), old(ledger)@, true) is None
                &&& final(ledger)@ == insert_all(
                    old(ledger)@,
                    rewards_writes(desc_views(table@), old(ledger)@),
                )
            },
            Err(e) => {
                &&& rewards_fault(desc_views(table@), old(ledger)@, true) == Some(e)
                &&& final(ledger)@ == old(ledger)@
            },
        },
        ledger_typed(final(ledger)@),
{
    let mut writes: Vec<(StorageKey, StateValue)> = Vec::new();
    let mut inserts: Vec<(String, String)> = Vec::new();
    let planned = plan_rewards(ledger, table, true, &mut writes, &mut inserts);
    match planned {
        Ok(()) => {
            let ghost t = desc_views(table@);
            let ghost ws = rewards_writes(t, old(ledger)@);
            proof {
                assert(entry_views(writes@) =~= ws);
                lemma_rewards_writes_params(t, old(ledger)@);
                assert forall|d: Seq<char>|
                    #[trigger] insert_all(old(ledger)@, ws).contains_key(
                        KeyModel::PoolBalance { denom: d },
                    ) implies insert_all(old(ledger)@, ws)[KeyModel::PoolBalance { denom: d }]
                    is Amount by {
                    let k = KeyModel::PoolBalance { denom: d };
                    lemma_params_find_none(ws, k);
                    lemma_insert_all_find(old(ledger)@, ws, k);
                }
                lemma_params_find_none(ws, KeyModel::TokenMapKey);
                lemma_insert_all_find(old(ledger)@, ws, KeyModel::TokenMapKey);
            }
            commit_writes(ledger, writes);
            Ok(())
        },
        Err(e) => Err(e),
    }
}

/// The lenient registration transaction.  It writes the limit pass for the
/// limit table, the reward pass for the reward table with a zero default
/// for absent balances, and finally the global token map extended by one
/// entry per reward descriptor.  On any fault the ledger is left exactly as
/// it was.
pub fn initialize_with_registration(
    ledger: &mut Ledger,
    limits: &Vec<LimitDescriptor>,
    rewards: &Vec<TokenDescriptor>,
) -> (r: Result<(), TxError>)
    requires
        ledger_typed(old(ledger)@),
    ensures
        match r {
            Ok(()) => {
                &&& rewards_fault(desc_views(rewards@), old(ledger)@, false) is None
                &&& final(ledger)@ == insert_all(
                    old(ledger)@,
                    registration_writes(
                        limit_views(limits@),
                        desc_views(rewards@),
                        old(ledger)@,
                    ),
                )
            },
            Err(e) => {
                &&& rewards_fault(desc_views(rewards@), old(ledger)@, false) == Some(e)
                &&& final(ledger)@ == old(ledger)@
            },
        },
        ledger_typed(final(ledger)@),
{
    let ghost ls = limit_views(limits@);
    let ghost t = desc_views(rewards@);
    let mut writes: Vec<(StorageKey, StateValue)> = Vec::new();
    let mut inserts: Vec<(String, String)> = Vec::new();
    let current_map: TokenMap = match ledger.get(&StorageKey::TokenMapKey) {
        Some(StateValue::TokenMap(m)) => m.duplicate(),
        Some(_) => {
            proof {
                assert(ledger@[KeyModel::TokenMapKey] is TokenMap);
            }
            vstd::pervasive::unreached()
        },
        None => TokenMap::new(),
    };
    let ghost m0 = token_map_of(ledger@);
    proof {
        assert(current_map@ == m0);
    }
    plan_limits(limits, &mut writes);
    let planned = plan_rewards(ledger, rewards, false, &mut writes, &mut inserts);
    match planned {
        Ok(()) => {
            let mut token_map = current_map;
            let ghost pairs = map_inserts(t);
            let mut i: usize = 0;
            proof {
                assert(string_pair_views(inserts@) =~= pairs);
                assert(insert_all(m0, pairs.take(0)) =~= m0);
            }
            while i < inserts.len()
                invariant
                    i <= inserts.len(),
                    pairs == string_pair_views(inserts@),
                    token_map@ == insert_all(m0, pairs.take(i as int)),
                decreases inserts.len() - i,
            {
                let p = &inserts[i];
                token_map.insert(p.0.clone(), p.1.clone());
                proof {
                    lemma_insert_all_push(m0, pairs.take(i as int), pairs[i as int].0, pairs[i as int].1);
                    assert(pairs.take(i + 1) =~= pairs.take(i as int).push(pairs[i as int]));
                }
                i = i + 1;
            }
            proof {
                assert(pairs.take(inserts@.len() as int) =~= pairs);
                assert(token_map@ == extended_token_map(m0, t));
            }
            writes.push((StorageKey::TokenMapKey, StateValue::TokenMap(token_map)));
            let ghost ws = registration_writes(ls, t, old(ledger)@);
            let ghost lw = limits_writes(ls);
            let ghost rw = rewards_writes(t, old(ledger)@);
            let ghost tme = (
                KeyModel::TokenMapKey,
                ValueModel::TokenMap(extended_token_map(m0, t)),
            );
            proof {
                assert(entry_views(writes@) =~= ws);
                lemma_rewards_writes_params(t, old(ledger)@);
                lemma_limits_writes_params(ls);
                assert forall|d: Seq<char>|
                    #[trigger] insert_all(old(ledger)@, ws).contains_key(
                        KeyModel::PoolBalance { denom: d },
                    ) implies insert_all(old(ledger)@, ws)[KeyModel::PoolBalance { denom: d }]
                    is Amount by {
                    let k = KeyModel::PoolBalance { denom: d };
                    lemma_insert_all_find(old(ledger)@, ws, k);
                    if find_last(ws, k) is Some {
                        lemma_find_last_is_entry(ws, k);
                        let v = find_last(ws, k)->Some_0;
                        let i = choose|i: int| 0 <= i < ws.len() && ws[i] == (k, v);
                        if i < lw.len() {
                            assert(ws[i] == lw[i]);
                            assert((lw[i]).0 is Param);
                        } else if i < lw.len() + rw.len() {
                            assert(ws[i] == rw[i - lw.len()]);
                            assert((rw[i - lw.len()]).0 is Param);
                        } else {
                            assert(ws[i] == tme);
                        }
                        assert(false);
                    }
                }
                assert(ws.last() == tme);
                assert(find_last(ws, KeyModel::TokenMapKey) == Some(
                    ValueModel::TokenMap(extended_token_map(m0, t)),
                ));
                lemma_insert_all_find(old(ledger)@, ws, KeyModel::TokenMapKey);
            }
            commit_writes(ledger, writes);
            Ok(())
        },
        Err(e) => Err(e),
    }
}

/// The deployed strict transaction: initializes the built-in reward table,
/// requiring a pooled balance for every one of its six tokens.
pub fn apply_rewards_tx(ledger: &mut Ledger) -> (r: Result<(), TxError>)
    requires
        ledger_typed(old(ledger)@),
    ensures
        match r {
            Ok(()) => {
                &&& rewards_fault(strict_rewards_model(), old(ledger)@, true) is None
                &&& final(ledger)@ == insert_all(
                    old(ledger)@,
                    rewards_writes(strict_rewards_model(), old(ledger)@),
                )
            },
            Err(e) => {
                &&& rewards_fault(strict_rewards_model(), old(ledger)@, true) == Some(e)
                &&& final(ledger)@ == old(ledger)@
            },
        },
        ledger_typed(final(ledger)@),
{
    let table = strict_rewards_table();
    initialize_rewards(ledger, &table)
}

/// The deployed registration transaction: writes the built-in limit table,
/// initializes the built-in reward table leniently, and registers both of
/// its tokens in the global token map.
pub fn apply_registration_tx(ledger: &mut Ledger) -> (r: Result<(), TxError>)
    requires
        ledger_typed(old(ledger)@),
    ensures
        match r {
            Ok(()) => {
                &&& rewards_fault(registration_rewards_model(), old(ledger)@, false) is None
                &&& final(ledger)@ == insert_all(
                    old(ledger)@,
                    registration_writes(
                        registration_limits_model(),
                        registration_rewards_model(),
                        old(ledger)@,
                    ),
                )
            },
            Err(e) => {
                &&& rewards_fault(registration_rewards_model(), old(ledger)@, false) == Some(e)
                &&& final(ledger)@ == old(ledger)@
            },
        },
        ledger_typed(final(ledger)@),
{
    let limits = registration_limits_table();
    let rewards = registration_rewards_table();
    initialize_with_registration(ledger, &limits, &rewards)
}

// ---------------------------------------------------------------------------
// Laws.
// ---------------------------------------------------------------------------

/// The six parameter keys of one reward descriptor are pairwise distinct,
/// and every parameter key of one descriptor differs from every parameter
/// key of a descriptor with a different denom.  The limit pass's two keys
/// are distinct from each other and from all six reward keys, even for the
/// same token.
pub proof fn lemma_derived_keys_distinct(d1: DescModel, b1: u128, d2: DescModel, b2: u128, l: LimitModel)
    ensures
        forall|i: int, j: int|
            0 <= i < j < desc_writes(d1, b1).len() ==> #[trigger] desc_writes(d1, b1)[i].0
                != #[trigger] desc_writes(d1, b1)[j].0,
        denom_of(d1) != denom_of(d2) ==> forall|i: int, j: int|
            0 <= i < desc_writes(d1, b1).len() && 0 <= j < desc_writes(d2, b2).len()
                ==> #[trigger] desc_writes(d1, b1)[i].0 != #[trigger] desc_writes(d2, b2)[j].0,
        limit_writes_one(l)[0].0 != limit_writes_one(l)[1].0,
        forall|i: int, j: int|
            0 <= i < desc_writes(d1, b1).len() && 0 <= j < limit_writes_one(l).len()
                ==> #[trigger] desc_writes(d1, b1)[i].0 != #[trigger] limit_writes_one(l)[j].0,
{
}

/// Idempotence of the reward pass: running it a second time over the state
/// it produced plans the same writes, raises no fault, and leaves the state
/// unchanged, because the pass never writes a balance entry and the write
/// of each key is the last one planned for it.
pub proof fn lemma_rewards_idempotent(
    t: Seq<DescModel>,
    m: Map<KeyModel, ValueModel>,
    strict: bool,
)
    requires
        rewards_fault(t, m, strict) is None,
    ensures
        ({
            let m1 = insert_all(m, rewards_writes(t, m));
            &&& rewards_fault(t, m1, strict) is None
            &&& rewards_writes(t, m1) == rewards_writes(t, m)
            &&& insert_all(m1, rewards_writes(t, m1)) == m1
        }),
{
    let ws = rewards_writes(t, m);
    let m1 = insert_all(m, ws);
    lemma_rewards_writes_params(t, m);
    lemma_params_preserve_reads(m, ws);
    lemma_rewards_congruent(t, m1, m, strict);
    lemma_insert_all_twice(m, ws);
}

/// No write of the lenient variant carries a key other than a parameter key
/// or the token map key.
proof fn lemma_registration_no_write(
    ls: Seq<LimitModel>,
    t: Seq<DescModel>,
    m: Map<KeyModel, ValueModel>,
    k: KeyModel,
)
    requires
        !(k is Param),
        k != KeyModel::TokenMapKey,
    ensures
        find_last(registration_writes(ls, t, m), k) is None,
{
    let ws = registration_writes(ls, t, m);
    let lw = limits_writes(ls);
    let rw = rewards_writes(t, m);
    lemma_rewards_writes_params(t, m);
    lemma_limits_writes_params(ls);
    if find_last(ws, k) is Some {
        lemma_find_last_is_entry(ws, k);
        let v = find_last(ws, k)->Some_0;
        let i = choose|i: int| 0 <= i < ws.len() && ws[i] == (k, v);
        if i < lw.len() {
            assert(ws[i] == lw[i]);
            assert((lw[i]).0 is Param);
        } else if i < lw.len() + rw.len() {
            assert(ws[i] == rw[i - lw.len()]);
            assert((rw[i - lw.len()]).0 is Param);
        } else {
            assert(ws[i].0 == KeyModel::TokenMapKey);
        }
        assert(false);
    }
}

/// Idempotence of the whole lenient transaction: running it a second time
/// over the state it produced raises no fault, plans the same writes, and
/// leaves the state unchanged.  The pass never writes a balance entry, the
/// write of each key is the last one planned for it, and extending the
/// already-extended token map inserts the very same entries.
pub proof fn lemma_registration_idempotent(
    ls: Seq<LimitModel>,
    t: Seq<DescModel>,
    m: Map<KeyModel, ValueModel>,
)
    requires
        rewards_fault(t, m, false) is None,
    ensures
        ({
            let m1 = insert_all(m, registration_writes(ls, t, m));
            &&& rewards_fault(t, m1, false) is None
            &&& registration_writes(ls, t, m1) == registration_writes(ls, t, m)
            &&& insert_all(m1, registration_writes(ls, t, m1)) == m1
        }),
{
    let ws = registration_writes(ls, t, m);
    let m1 = insert_all(m, ws);
    let m0 = token_map_of(m);
    let tme = (
        KeyModel::TokenMapKey,
        ValueModel::TokenMap(extended_token_map(m0, t)),
    );
    assert forall|d: Seq<char>| #[trigger] balance_present(m1, d) == balance_present(m, d) by {
        let k = KeyModel::PoolBalance { denom: d };
        lemma_registration_no_write(ls, t, m, k);
        lemma_insert_all_find(m, ws, k);
    }
    assert forall|d: Seq<char>| #[trigger] balance_of(m1, d) == balance_of(m, d) by {
        let k = KeyModel::PoolBalance { denom: d };
        lemma_registration_no_write(ls, t, m, k);
        lemma_insert_all_find(m, ws, k);
    }
    lemma_rewards_congruent(t, m1, m, false);
    // The token map the second run reads is the one the first run wrote.
    assert(ws.last() == tme);
    assert(find_last(ws, KeyModel::TokenMapKey) == Some(tme.1));
    lemma_insert_all_find(m, ws, KeyModel::TokenMapKey);
    assert(token_map_of(m1) == extended_token_map(m0, t));
    // Extending it again inserts the same entries and changes nothing.
    lemma_insert_all_twice(m0, map_inserts(t));
    assert(extended_token_map(token_map_of(m1), t) == extended_token_map(m0, t));
    assert(registration_writes(ls, t, m1) == ws);
    lemma_insert_all_twice(m, ws);
}

/// After the registration variant, the token map holds exactly the old
/// entries and one entry per reward descriptor, keyed by its denom and
/// carrying its derived address; a token that no reward descriptor names
/// (a limit-only token, say) gains no entry.
#[verifier::rlimit(50)]
pub proof fn lemma_token_map_exact(m0: Map<Seq<char>, Seq<char>>, t: Seq<DescModel>)
    ensures
        forall|i: int|
            0 <= i < t.len() ==> #[trigger] extended_token_map(m0, t).contains_key(
                denom_of(t[i]),
            ),
        forall|i: int|
            0 <= i < t.len() ==> #[trigger] extended_token_map(m0, t)[denom_of(t[i])]
                == spec_token_address(denom_of(t[i])),
        forall|d: Seq<char>|
            #[trigger] extended_token_map(m0, t).contains_key(d) ==> m0.contains_key(d) || exists|
                i: int,
            | 0 <= i < t.len() && denom_of(t[i]) == d,
        forall|d: Seq<char>|
            m0.contains_key(d) && (forall|i: int| 0 <= i < t.len() ==> denom_of(t[i]) != d)
                ==> #[trigger] extended_token_map(m0, t).contains_key(d) && extended_token_map(
                m0,
                t,
            )[d] == m0[d],
{
    assert forall|d: Seq<char>| #[trigger] extended_token_map(m0, t).contains_key(d) implies
        m0.contains_key(d) || exists|i: int| 0 <= i < t.len() && denom_of(t[i]) == d by {
        lemma_insert_all_find(m0, map_inserts(t), d);
        lemma_map_inserts_find(t, d);
    }
    assert forall|i: int| 0 <= i < t.len() implies #[trigger] extended_token_map(
        m0,
        t,
    ).contains_key(denom_of(t[i])) by {
        let d = denom_of(t[i]);
        lemma_insert_all_find(m0, map_inserts(t), d);
        lemma_map_inserts_find(t, d);
        assert(0 <= i < t.len() && denom_of(t[i]) == d);
        assert(find_last(map_inserts(t), d) is Some);
    }
    assert forall|i: int| 0 <= i < t.len() implies #[trigger] extended_token_map(m0, t)[denom_of(
        t[i],
    )] == spec_token_address(denom_of(t[i])) by {
        let d = denom_of(t[i]);
        lemma_insert_all_find(m0, map_inserts(t), d);
        lemma_map_inserts_find(t, d);
        assert(0 <= i < t.len() && denom_of(t[i]) == d);
        assert(find_last(map_inserts(t), d) is Some);
    }
    assert forall|d: Seq<char>|
        m0.contains_key(d) && (forall|i: int| 0 <= i < t.len() ==> denom_of(t[i]) != d)
        implies #[trigger] extended_token_map(m0, t).contains_key(d) && extended_token_map(
        m0,
        t,
    )[d] == m0[d] by {
        lemma_insert_all_find(m0, map_inserts(t), d);
        lemma_map_inserts_find(t, d);
    }
}

proof fn lemma_map_inserts_find(t: Seq<DescModel>, d: Seq<char>)
    ensures
        find_last(map_inserts(t), d) is Some <==> exists|i: int|
            0 <= i < t.len() && denom_of(t[i]) == d,
        find_last(map_inserts(t), d) matches Some(v) ==> v == spec_token_address(d),
    decreases t.len(),
{
    if t.len() > 0 {
        let prefix = t.drop_last();
        assert(map_inserts(t).drop_last() =~= map_inserts(prefix));
        lemma_map_inserts_find(prefix, d);
        if denom_of(t.last()) == d {
            assert(t[t.len() - 1] == t.last());
        } else {
            if exists|i: int| 0 <= i < prefix.len() && denom_of(prefix[i]) == d {
                let i = choose|i: int| 0 <= i < prefix.len() && denom_of(prefix[i]) == d;
                assert(denom_of(t[i]) == d);
            }
            if exists|i: int| 0 <= i < t.len() && denom_of(t[i]) == d {
                let i = choose|i: int| 0 <= i < t.len() && denom_of(t[i]) == d;
                assert(0 <= i < prefix.len() && denom_of(prefix[i]) == d);
            }
        }
    }
}

} // verus!

