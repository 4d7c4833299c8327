use shielding_rewards::amount::{scale_amount, unscale_amount};
use shielding_rewards::dec::parse_decimal;
use shielding_rewards::keys::{derive_token_address, ibc_denom, key_eq, ParamKind, StorageKey};
use shielding_rewards::ledger::{Ledger, StateValue, TokenMap};
use shielding_rewards::table::{
    check_distinct_denoms, limit_descriptor, registration_limits_table,
    registration_rewards_table, strict_rewards_table, token_descriptor, LimitDescriptor,
    TokenDescriptor,
};
use shielding_rewards::tx::{
    apply_registration_tx, apply_rewards_tx, initialize_rewards, initialize_with_registration,
    TxError,
};

fn param(kind: ParamKind, denom: &str) -> StorageKey {
    StorageKey::Param {
        kind,
        denom: String::from(denom),
    }
}

fn balance(denom: &str) -> StorageKey {
    StorageKey::PoolBalance {
        denom: String::from(denom),
    }
}

fn amount_at(ledger: &Ledger, key: &StorageKey) -> Option<u128> {
    match ledger.get(key) {
        Some(StateValue::Amount(a)) => Some(*a),
        _ => None,
    }
}

fn decimal_at(ledger: &Ledger, key: &StorageKey) -> Option<String> {
    match ledger.get(key) {
        Some(StateValue::Decimal(s)) => Some(s.clone()),
        _ => None,
    }
}

fn token_map_at(ledger: &Ledger) -> Option<TokenMap> {
    match ledger.get(&StorageKey::TokenMapKey) {
        Some(StateValue::TokenMap(m)) => Some(m.duplicate()),
        _ => None,
    }
}

fn osmo_descriptor() -> TokenDescriptor {
    token_descriptor(0, "channel-7", "uosmo", "0.02", 60000000, "120000", "120000")
}

#[test]
fn denom_concatenation() {
    let d = ibc_denom("channel-7", "uosmo");
    assert_eq!(d, String::from("transfer/channel-7/uosmo"));
}

#[test]
fn end_to_end_strict_single_token() {
    let denom = "transfer/channel-7/uosmo";
    let mut ledger = Ledger::new();
    ledger.write(balance(denom), StateValue::Amount(1000));

    let table = vec![osmo_descriptor()];
    let r = initialize_rewards(&mut ledger, &table);
    assert_eq!(r, Ok(()));

    assert_eq!(amount_at(&ledger, &param(ParamKind::LastInflation, denom)), Some(0));
    assert_eq!(amount_at(&ledger, &param(ParamKind::LastLockedAmount, denom)), Some(1000));
    assert_eq!(
        decimal_at(&ledger, &param(ParamKind::MaxRewardRate, denom)),
        Some(String::from("0.02"))
    );
    assert_eq!(
        amount_at(&ledger, &param(ParamKind::TargetLockedAmount, denom)),
        Some(60000000)
    );
    assert_eq!(
        decimal_at(&ledger, &param(ParamKind::KpGain, denom)),
        Some(String::from("120000"))
    );
    assert_eq!(
        decimal_at(&ledger, &param(ParamKind::KdGain, denom)),
        Some(String::from("120000"))
    );
}

#[test]
fn strict_aborts_on_missing_balance() {
    let present = "transfer/channel-7/uosmo";
    let absent = "transfer/channel-9/uatom";
    let mut ledger = Ledger::new();
    ledger.write(balance(present), StateValue::Amount(500));

    let table = vec![
        osmo_descriptor(),
        token_descriptor(0, "channel-9", "uatom", "0.02", 60000000, "120000", "120000"),
    ];
    let r = initialize_rewards(&mut ledger, &table);
    assert_eq!(r, Err(TxError::MissingRequiredState));

    // Nothing was written: no parameter key exists, not even for the first
    // descriptor, and the balance entry is untouched.
    assert!(ledger.get(&param(ParamKind::LastLockedAmount, present)).is_none());
    assert!(ledger.get(&param(ParamKind::LastInflation, present)).is_none());
    assert!(ledger.get(&param(ParamKind::LastLockedAmount, absent)).is_none());
    assert_eq!(amount_at(&ledger, &balance(present)), Some(500));
}

#[test]
fn lenient_defaults_missing_balance_to_zero() {
    let present = "transfer/channel-7/uosmo";
    let absent = "transfer/channel-9/uatom";
    let mut ledger = Ledger::new();
    ledger.write(balance(present), StateValue::Amount(500));

    let limits: Vec<LimitDescriptor> = Vec::new();
    let rewards = vec![
        osmo_descriptor(),
        token_descriptor(0, "channel-9", "uatom", "0.02", 60000000, "120000", "120000"),
    ];
    let r = initialize_with_registration(&mut ledger, &limits, &rewards);
    assert_eq!(r, Ok(()));

    assert_eq!(amount_at(&ledger, &param(ParamKind::LastLockedAmount, present)), Some(500));
    assert_eq!(amount_at(&ledger, &param(ParamKind::LastLockedAmount, absent)), Some(0));
    assert_eq!(amount_at(&ledger, &param(ParamKind::LastInflation, absent)), Some(0));
    assert_eq!(
        amount_at(&ledger, &param(ParamKind::TargetLockedAmount, absent)),
        Some(60000000)
    );
}

#[test]
fn limits_write_exactly_two_keys() {
    let denom = "transfer/channel-1/uatom";
    let mut ledger = Ledger::new();
    let limits = vec![limit_descriptor("channel-1", "uatom", 10000000000, 10000000000)];
    let rewards: Vec<TokenDescriptor> = Vec::new();
    let r = initialize_with_registration(&mut ledger, &limits, &rewards);
    assert_eq!(r, Ok(()));

    assert_eq!(amount_at(&ledger, &param(ParamKind::MintLimit, denom)), Some(10000000000));
    assert_eq!(
        amount_at(&ledger, &param(ParamKind::ThroughputLimit, denom)),
        Some(10000000000)
    );
    // No reward parameter appears for that token.
    assert!(ledger.get(&param(ParamKind::LastInflation, denom)).is_none());
    assert!(ledger.get(&param(ParamKind::LastLockedAmount, denom)).is_none());
    assert!(ledger.get(&param(ParamKind::MaxRewardRate, denom)).is_none());
    assert!(ledger.get(&param(ParamKind::TargetLockedAmount, denom)).is_none());
    assert!(ledger.get(&param(ParamKind::KpGain, denom)).is_none());
    assert!(ledger.get(&param(ParamKind::KdGain, denom)).is_none());
}

#[test]
fn token_map_gets_one_entry_per_reward_descriptor() {
    let mut ledger = Ledger::new();
    let mut prior = TokenMap::new();
    prior.insert(String::from("transfer/channel-0/upre"), String::from("addr-upre"));
    ledger.write(StorageKey::TokenMapKey, StateValue::TokenMap(prior));

    let limits = vec![limit_descriptor("channel-9", "extra", 7, 7)];
    let rewards = registration_rewards_table();
    let r = initialize_with_registration(&mut ledger, &limits, &rewards);
    assert_eq!(r, Ok(()));

    let map = token_map_at(&ledger).expect("token map must be written");
    let uatom = ibc_denom("channel-1", "uatom");
    let uosmo = ibc_denom("channel-2", "uosmo");
    assert_eq!(map.get(&uatom).cloned(), Some(derive_token_address(uatom.as_str())));
    assert_eq!(map.get(&uosmo).cloned(), Some(derive_token_address(uosmo.as_str())));
    // A limit-only token gains no entry; a prior entry is kept.
    assert!(map.get(&ibc_denom("channel-9", "extra")).is_none());
    assert_eq!(
        map.get(&String::from("transfer/channel-0/upre")).cloned(),
        Some(String::from("addr-upre"))
    );
}

#[test]
fn rerunning_the_transaction_changes_nothing() {
    let uatom = "transfer/channel-1/uatom";
    let uosmo = "transfer/channel-2/uosmo";
    let mut ledger = Ledger::new();
    ledger.write(balance(uosmo), StateValue::Amount(123456));

    let limits = registration_limits_table();
    let rewards = registration_rewards_table();
    assert_eq!(initialize_with_registration(&mut ledger, &limits, &rewards), Ok(()));

    let keys = [
        param(ParamKind::LastInflation, uosmo),
        param(ParamKind::LastLockedAmount, uosmo),
        param(ParamKind::TargetLockedAmount, uosmo),
        param(ParamKind::LastLockedAmount, uatom),
        param(ParamKind::MintLimit, uatom),
        param(ParamKind::ThroughputLimit, uosmo),
    ];
    let first: Vec<Option<u128>> = keys.iter().map(|k| amount_at(&ledger, k)).collect();
    let first_max = decimal_at(&ledger, &param(ParamKind::MaxRewardRate, uosmo));

    assert_eq!(initialize_with_registration(&mut ledger, &limits, &rewards), Ok(()));
    let second: Vec<Option<u128>> = keys.iter().map(|k| amount_at(&ledger, k)).collect();
    let second_max = decimal_at(&ledger, &param(ParamKind::MaxRewardRate, uosmo));

    assert_eq!(first, second);
    assert_eq!(first_max, second_max);
}

#[test]
fn strict_rerun_is_idempotent() {
    let denom = "transfer/channel-7/uosmo";
    let mut ledger = Ledger::new();
    ledger.write(balance(denom), StateValue::Amount(42));
    let table = vec![osmo_descriptor()];

    assert_eq!(initialize_rewards(&mut ledger, &table), Ok(()));
    let locked_1 = amount_at(&ledger, &param(ParamKind::LastLockedAmount, denom));
    assert_eq!(initialize_rewards(&mut ledger, &table), Ok(()));
    let locked_2 = amount_at(&ledger, &param(ParamKind::LastLockedAmount, denom));
    assert_eq!(locked_1, Some(42));
    assert_eq!(locked_1, locked_2);
}

#[test]
fn malformed_literal_aborts() {
    let denom = "transfer/channel-7/uosmo";
    let mut ledger = Ledger::new();
    ledger.write(balance(denom), StateValue::Amount(1));
    let table = vec![token_descriptor(0, "channel-7", "uosmo", "abc", 60000000, "120000", "120000")];
    let r = initialize_rewards(&mut ledger, &table);
    assert_eq!(r, Err(TxError::MalformedLiteral));
    assert!(ledger.get(&param(ParamKind::LastLockedAmount, denom)).is_none());
}

#[test]
fn overflow_on_scale_aborts() {
    let denom = "transfer/channel-7/uosmo";
    let mut ledger = Ledger::new();
    ledger.write(balance(denom), StateValue::Amount(1));
    let table = vec![token_descriptor(
        38,
        "channel-7",
        "uosmo",
        "0.02",
        18446744073709551615,
        "120000",
        "120000",
    )];
    let r = initialize_rewards(&mut ledger, &table);
    assert_eq!(r, Err(TxError::OverflowOnScale));
}

#[test]
fn missing_balance_is_reported_before_bad_literal() {
    let mut ledger = Ledger::new();
    let table = vec![token_descriptor(0, "channel-7", "uosmo", "abc", 1, "0", "0")];
    let r = initialize_rewards(&mut ledger, &table);
    assert_eq!(r, Err(TxError::MissingRequiredState));
}

#[test]
fn built_in_tables_have_distinct_denoms() {
    // Three rows of the strict table share a channel and differ only in the
    // base token; their denoms must still be pairwise distinct.
    let strict = strict_rewards_table();
    assert_eq!(strict.len(), 6);
    assert!(check_distinct_denoms(&strict));
    let registration = registration_rewards_table();
    assert_eq!(registration.len(), 2);
    assert!(check_distinct_denoms(&registration));
}

#[test]
fn duplicate_denoms_are_detected() {
    let table = vec![osmo_descriptor(), osmo_descriptor()];
    assert!(!check_distinct_denoms(&table));
}

#[test]
fn scale_amount_round_trip() {
    assert_eq!(scale_amount(60000000, 0), Some(60000000));
    assert_eq!(unscale_amount(60000000, 0), Some(60000000));
    assert_eq!(scale_amount(5, 2), Some(500));
    assert_eq!(unscale_amount(500, 2), Some(5));
    assert_eq!(unscale_amount(501, 2), None);
}

#[test]
fn scale_amount_overflow() {
    assert_eq!(scale_amount(2, 38), Some(200000000000000000000000000000000000000));
    assert_eq!(scale_amount(4, 38), None);
    assert_eq!(scale_amount(1, 39), None);
    assert_eq!(scale_amount(0, 200), Some(0));
}

#[test]
fn decimal_literals_round_trip() {
    assert_eq!(parse_decimal("0.02"), Some(String::from("0.02")));
    assert_eq!(parse_decimal("120000"), Some(String::from("120000")));
    assert_eq!(parse_decimal("0"), Some(String::from("0")));
    assert_eq!(parse_decimal("-1.5"), Some(String::from("-1.5")));
    assert_eq!(parse_decimal("0.123456789012"), Some(String::from("0.123456789012")));
}

#[test]
fn malformed_decimal_literals_are_rejected() {
    assert_eq!(parse_decimal(""), None);
    assert_eq!(parse_decimal("-"), None);
    assert_eq!(parse_decimal("abc"), None);
    assert_eq!(parse_decimal("1.2.3"), None);
    assert_eq!(parse_decimal("1."), None);
    assert_eq!(parse_decimal(".5"), None);
    assert_eq!(parse_decimal("0.1234567890123"), None);
}

#[test]
fn ledger_overwrites_keep_the_last_value() {
    let denom = "transfer/channel-7/uosmo";
    let mut ledger = Ledger::new();
    let key = param(ParamKind::LastInflation, denom);
    assert!(ledger.get(&key).is_none());
    ledger.write(param(ParamKind::LastInflation, denom), StateValue::Amount(1));
    ledger.write(param(ParamKind::LastInflation, denom), StateValue::Amount(2));
    assert_eq!(amount_at(&ledger, &key), Some(2));
    assert!(ledger.get(&param(ParamKind::KpGain, denom)).is_none());
}

#[test]
fn key_equality_follows_kind_and_denom() {
    let a = param(ParamKind::KpGain, "transfer/channel-7/uosmo");
    let b = param(ParamKind::KpGain, "transfer/channel-7/uosmo");
    let c = param(ParamKind::KdGain, "transfer/channel-7/uosmo");
    let d = param(ParamKind::KpGain, "transfer/channel-8/uosmo");
    assert!(key_eq(&a, &b));
    assert!(!key_eq(&a, &c));
    assert!(!key_eq(&a, &d));
    assert!(!key_eq(&a, &balance("transfer/channel-7/uosmo")));
    assert!(key_eq(&StorageKey::TokenMapKey, &StorageKey::TokenMapKey));
}

#[test]
fn token_map_insert_overwrites() {
    let mut map = TokenMap::new();
    let k = String::from("transfer/channel-1/uatom");
    assert!(map.get(&k).is_none());
    map.insert(k.clone(), String::from("first"));
    map.insert(k.clone(), String::from("second"));
    assert_eq!(map.get(&k).cloned(), Some(String::from("second")));
    let copy = map.duplicate();
    assert_eq!(copy.get(&k).cloned(), Some(String::from("second")));
}

#[test]
fn deployed_strict_tx_initializes_all_six_tokens() {
    let mut ledger = Ledger::new();
    let denoms = [
        "transfer/channel-7/uosmo",
        "transfer/channel-9/uatom",
        "transfer/channel-10/utia",
        "transfer/channel-8/stuosmo",
        "transfer/channel-8/stuatom",
        "transfer/channel-8/stutia",
    ];
    for (i, d) in denoms.iter().enumerate() {
        ledger.write(balance(d), StateValue::Amount((i as u128 + 1) * 10));
    }
    assert_eq!(apply_rewards_tx(&mut ledger), Ok(()));
    for (i, d) in denoms.iter().enumerate() {
        assert_eq!(
            amount_at(&ledger, &param(ParamKind::LastLockedAmount, d)),
            Some((i as u128 + 1) * 10)
        );
        assert_eq!(amount_at(&ledger, &param(ParamKind::LastInflation, d)), Some(0));
        assert_eq!(
            amount_at(&ledger, &param(ParamKind::TargetLockedAmount, d)),
            Some(60000000)
        );
        assert_eq!(
            decimal_at(&ledger, &param(ParamKind::MaxRewardRate, d)),
            Some(String::from("0.02"))
        );
    }
}

#[test]
fn deployed_strict_tx_requires_every_balance() {
    let mut ledger = Ledger::new();
    assert_eq!(apply_rewards_tx(&mut ledger), Err(TxError::MissingRequiredState));
    assert!(ledger
        .get(&param(ParamKind::LastInflation, "transfer/channel-7/uosmo"))
        .is_none());
}

#[test]
fn deployed_registration_tx_registers_both_tokens() {
    let uatom = "transfer/channel-1/uatom";
    let uosmo = "transfer/channel-2/uosmo";
    let mut ledger = Ledger::new();
    assert_eq!(apply_registration_tx(&mut ledger), Ok(()));

    let map = token_map_at(&ledger).expect("token map must be written");
    assert!(map.get(&String::from(uatom)).is_some());
    assert!(map.get(&String::from(uosmo)).is_some());

    assert_eq!(amount_at(&ledger, &param(ParamKind::MintLimit, uosmo)), Some(10000000000));
    assert_eq!(amount_at(&ledger, &param(ParamKind::ThroughputLimit, uatom)), Some(10000000000));
    assert_eq!(amount_at(&ledger, &param(ParamKind::LastLockedAmount, uatom)), Some(0));
    assert_eq!(amount_at(&ledger, &param(ParamKind::TargetLockedAmount, uosmo)), Some(1000000));
    assert_eq!(
        decimal_at(&ledger, &param(ParamKind::MaxRewardRate, uosmo)),
        Some(String::from("0.01"))
    );
    assert_eq!(
        decimal_at(&ledger, &param(ParamKind::MaxRewardRate, uatom)),
        Some(String::from("0"))
    );
}
