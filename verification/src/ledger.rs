//! The key-value ledger state, as seen by one transaction.
//!
//! The host ledger offers `read` and `write` over typed values and commits a
//! transaction's writes atomically.  The model keeps the writes as a log:
//! writing appends an entry, and the value of the ledger is the map in which
//! the last write of each key wins.  Reading an absent key returns nothing
//! rather than failing.

use vstd::prelude::*;

use crate::keys::{key_eq, KeyModel, StorageKey};

verus! {

/// The map that results from writing `entries` in order over `m`: later
/// entries overwrite earlier ones.
pub open spec fn insert_all<K, V>(m: Map<K, V>, entries: Seq<(K, V)>) -> Map<K, V>
    decreases entries.len(),
{
    if entries.len() == 0 {
        m
    } else {
        insert_all(m, entries.drop_last()).insert(entries.last().0, entries.last().1)
    }
}

/// The value of the last entry for key `k`, absent when `k` never occurs.
pub open spec fn find_last<K, V>(entries: Seq<(K, V)>, k: K) -> Option<V>
    decreases entries.len(),
{
    if entries.len() == 0 {
        None
    } else if entries.last().0 == k {
        Some(entries.last().1)
    } else {
        find_last(entries.drop_last(), k)
    }
}

/// The map described by a write log alone.
pub open spec fn log_map<K, V>(entries: Seq<(K, V)>) -> Map<K, V> {
    insert_all(Map::empty(), entries)
}

pub proof fn lemma_insert_all_push<K, V>(m: Map<K, V>, entries: Seq<(K, V)>, k: K, v: V)
    ensures
        insert_all(m, entries.push((k, v))) == insert_all(m, entries).insert(k, v),
{
    assert(entries.push((k, v)).drop_last() =~= entries);
}

/// A key's value after writing a log: the log's last entry for it wins, and
/// a key the log never writes keeps its prior value.
pub proof fn lemma_insert_all_find<K, V>(m: Map<K, V>, entries: Seq<(K, V)>, k: K)
    ensures
        insert_all(m, entries).contains_key(k) <==> (m.contains_key(k) || find_last(entries, k)
            is Some),
        find_last(entries, k) matches Some(v) ==> insert_all(m, entries)[k] == v,
        find_last(entries, k) is None && m.contains_key(k) ==> insert_all(m, entries)[k] == m[k],
    decreases entries.len(),
{
    if entries.len() > 0 {
        lemma_insert_all_find(m, entries.drop_last(), k);
    }
}

/// Writing the same log twice gives the same map as writing it once.
pub proof fn lemma_insert_all_twice<K, V>(m: Map<K, V>, entries: Seq<(K, V)>)
    ensures
        insert_all(insert_all(m, entries), entries) == insert_all(m, entries),
{
    let m1 = insert_all(m, entries);
    let m2 = insert_all(m1, entries);
    assert forall|k: K| #[trigger] m2.contains_key(k) implies m1.contains_key(k) && m2[k] == m1[k]
        by {
        lemma_insert_all_find(m, entries, k);
        lemma_insert_all_find(m1, entries, k);
    }
    assert forall|k: K| #[trigger] m1.contains_key(k) implies m2.contains_key(k) by {
        lemma_insert_all_find(m, entries, k);
        lemma_insert_all_find(m1, entries, k);
    }
    assert(m2 =~= m1);
}

/// An in-memory token map value: denom string to canonical token address.
pub struct TokenMap {
    entries: Vec<(String, String)>,
}

/// The entry pairs of a token map log, at the level of their views.
pub open spec fn string_pair_views(s: Seq<(String, String)>) -> Seq<(Seq<char>, Seq<char>)> {
    s.map_values(|p: (String, String)| (p.0@, p.1@))
}

impl View for TokenMap {
    type V = Map<Seq<char>, Seq<char>>;

    closed spec fn view(&self) -> Map<Seq<char>, Seq<char>> {
        log_map(string_pair_views(self.entries@))
    }
}

impl TokenMap {
    pub fn new() -> (r: TokenMap)
        ensures
            r@ == Map::<Seq<char>, Seq<char>>::empty(),
    {
        TokenMap { entries: Vec::new() }
    }

    /// Inserts a mapping; a later insert with the same key overwrites the
    /// earlier one.
    pub fn insert(&mut self, denom: String, address: String)
        ensures
            final(self)@ == old(self)@.insert(denom@, address@),
    {
        proof {
            lemma_insert_all_push(
                Map::<Seq<char>, Seq<char>>::empty(),
                string_pair_views(self.entries@),
                denom@,
                address@,
            );
            assert(string_pair_views(self.entries@.push((denom, address))) =~= string_pair_views(
                self.entries@,
            ).push((denom@, address@)));
        }
        self.entries.push((denom, address));
    }

    pub fn get(&self, denom: &String) -> (r: Option<&String>)
        ensures
            match r {
                Some(a) => self@.contains_key(denom@) && a@ == self@[denom@],
                None => !self@.contains_key(denom@),
            },
    {
        let ghost views = string_pair_views(self.entries@);
        let mut i: usize = self.entries.len();
        proof {
            assert(views.take(i as int) =~= views);
        }
        while i > 0
            invariant
                i <= self.entries.len(),
                views == string_pair_views(self.entries@),
                find_last(views, denom@) == find_last(views.take(i as int), denom@),
            decreases i,
        {
            i = i - 1;
            proof {
                assert(views.take(i as int + 1).drop_last() =~= views.take(i as int));
            }
            if self.entries[i].0 == *denom {
                proof {
                    lemma_insert_all_find(
                        Map::<Seq<char>, Seq<char>>::empty(),
                        views,
                        denom@,
                    );
                }
                return Some(&self.entries[i].1);
            }
        }
        proof {
            lemma_insert_all_find(Map::<Seq<char>, Seq<char>>::empty(), views, denom@);
        }
        None
    }

    /// An owned copy with the same contents.
    pub fn duplicate(&self) -> (r: TokenMap)
        ensures
            r@ == self@,
    {
        let mut entries: Vec<(String, String)> = Vec::new();
        let mut i: usize = 0;
        while i < self.entries.len()
            invariant
                i <= self.entries.len(),
                entries@ =~= self.entries@.take(i as int),
            decreases self.entries.len() - i,
        {
            entries.push((self.entries[i].0.clone(), self.entries[i].1.clone()));
            i = i + 1;
        }
        proof {
            assert(entries@ =~= self.entries@);
        }
        TokenMap { entries }
    }
}

/// A typed value stored under one ledger key.
pub enum StateValue {
    /// An unsigned scaled amount.
    Amount(u128),
    /// An arbitrary-precision decimal, held in its canonical written form.
    Decimal(String),
    /// The global token map.
    TokenMap(TokenMap),
}

/// Mathematical form of a stored value.
pub enum ValueModel {
    Amount(u128),
    Decimal(Seq<char>),
    TokenMap(Map<Seq<char>, Seq<char>>),
}

impl View for StateValue {
    type V = ValueModel;

    open spec fn view(&self) -> ValueModel {
        match self {
            StateValue::Amount(a) => ValueModel::Amount(*a),
            StateValue::Decimal(d) => ValueModel::Decimal(d@),
            StateValue::TokenMap(m) => ValueModel::TokenMap(m@),
        }
    }
}

/// The entry pairs of a ledger log, at the level of their models.
pub open spec fn entry_views(s: Seq<(StorageKey, StateValue)>) -> Seq<(KeyModel, ValueModel)> {
    s.map_values(|p: (StorageKey, StateValue)| (p.0@, p.1@))
}

/// The ledger state handled by one transaction, kept as its write log.
pub struct Ledger {
    entries: Vec<(StorageKey, StateValue)>,
}

impl View for Ledger {
    type V = Map<KeyModel, ValueModel>;

    closed spec fn view(&self) -> Map<KeyModel, ValueModel> {
        log_map(entry_views(self.entries@))
    }
}

impl Ledger {
    pub fn new() -> (r: Ledger)
        ensures
            r@ == Map::<KeyModel, ValueModel>::empty(),
    {
        Ledger { entries: Vec::new() }
    }

    /// Writes a typed value under a key.
    pub fn write(&mut self, key: StorageKey, value: StateValue)
        ensures
            final(self)@ == old(self)@.insert(key@, value@),
    {
        proof {
            lemma_insert_all_push(
                Map::<KeyModel, ValueModel>::empty(),
                entry_views(self.entries@),
                key@,
                value@,
            );
            assert(entry_views(self.entries@.push((key, value))) =~= entry_views(
                self.entries@,
            ).push((key@, value@)));
        }
        self.entries.push((key, value));
    }

    /// Reads the value under a key; an absent key yields nothing.
    pub fn get(&self, key: &StorageKey) -> (r: Option<&StateValue>)
        ensures
            match r {
                Some(v) => self@.contains_key(key@) && v@ == self@[key@],
                None => !self@.contains_key(key@),
            },
    {
        let ghost views = entry_views(self.entries@);
        let mut i: usize = self.entries.len();
        proof {
            assert(views.take(i as int) =~= views);
        }
        while i > 0
            invariant
                i <= self.entries.len(),
                views == entry_views(self.entries@),
                find_last(views, key@) == find_last(views.take(i as int), key@),
            decreases i,
        {
            i = i - 1;
            proof {
                assert(views.take(i as int + 1).drop_last() =~= views.take(i as int));
            }
            if key_eq(&self.entries[i].0, key) {
                proof {
                    lemma_insert_all_find(Map::<KeyModel, ValueModel>::empty(), views, key@);
                }
                return Some(&self.entries[i].1);
            }
        }
        proof {
            lemma_insert_all_find(Map::<KeyModel, ValueModel>::empty(), views, key@);
        }
        None
    }
}

} // verus!
