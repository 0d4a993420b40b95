//! Bounded in-memory store of lookup records and provider announcements.
//!
//! Two independent limits apply: the number of distinct record keys and the
//! number of (key, provider) associations. The eviction policy is oldest
//! first: when a new key (or association) arrives at a full store, the one
//! that has been stored longest leaves. Overwriting a record keeps its place.
//! A limit of zero keeps the store empty.

use vstd::prelude::*;

verus! {

/// Default limit on stored records.
pub const MAX_RECORDS: usize = 4096;

/// Default limit on stored provider associations.
pub const MAX_PROVIDED_KEYS: usize = 4096;

/// A stored entry: (key, value) for records, (key, provider) for providers.
pub type Entry = (Seq<u8>, Seq<u8>);

/// Capacity limits of a [`RecordStore`].
#[derive(Debug, Clone, Copy, PartialEq, Eq, Structural)]
pub struct RecordStoreConfig {
    pub max_records: usize,
    pub max_provided_keys: usize,
}

impl RecordStoreConfig {
    /// The limits a node uses: 4096 records and 4096 provider associations.
    pub fn default_limits() -> (r: RecordStoreConfig)
        ensures
            r.max_records == MAX_RECORDS,
            r.max_provided_keys == MAX_PROVIDED_KEYS,
    {
        RecordStoreConfig { max_records: MAX_RECORDS, max_provided_keys: MAX_PROVIDED_KEYS }
    }
}

#[derive(Debug)]
struct Slot {
    key: Vec<u8>,
    data: Vec<u8>,
}

/// The store. Entries are kept oldest first.
#[derive(Debug)]
pub struct RecordStore {
    local_peer: Vec<u8>,
    config: RecordStoreConfig,
    records: Vec<Slot>,
    providers: Vec<Slot>,
}

spec fn slots_view(s: Seq<Slot>) -> Seq<Entry> {
    s.map_values(|e: Slot| (e.key@, e.data@))
}

/// Whether some entry of `s` has key `k`.
pub open spec fn has_key(s: Seq<Entry>, k: Seq<u8>) -> bool {
    exists|i: int| 0 <= i < s.len() && (#[trigger] s[i]).0 == k
}

/// No two entries share a key.
pub open spec fn keys_unique(s: Seq<Entry>) -> bool {
    forall|i: int, j: int| 0 <= i < s.len() && 0 <= j < s.len() && (#[trigger] s[i]).0 == (#[trigger] s[j]).0 ==> i == j
}

/// No entry occurs twice.
pub open spec fn entries_unique(s: Seq<Entry>) -> bool {
    forall|i: int, j: int| 0 <= i < s.len() && 0 <= j < s.len() && #[trigger] s[i] == #[trigger] s[j] ==> i == j
}

/// Appends `e` to `s`, first dropping the oldest entry when `s` holds `max`.
pub open spec fn enqueue_spec(s: Seq<Entry>, max: nat, e: Entry) -> Seq<Entry> {
    if max == 0 {
        s
    } else if s.len() < max {
        s.push(e)
    } else {
        s.drop_first().push(e)
    }
}

/// Storing `v` under `k`: overwrite in place when `k` is present, otherwise
/// enqueue a new entry.
pub open spec fn put_spec(s: Seq<Entry>, max: nat, k: Seq<u8>, v: Seq<u8>) -> Seq<Entry> {
    if has_key(s, k) {
        let i = choose|i: int| 0 <= i < s.len() && (#[trigger] s[i]).0 == k;
        s.update(i, (k, v))
    } else {
        enqueue_spec(s, max, (k, v))
    }
}

/// Announcing `p` as a provider of `k`: no change when already announced.
pub open spec fn provide_spec(s: Seq<Entry>, max: nat, k: Seq<u8>, p: Seq<u8>) -> Seq<Entry> {
    if s.contains((k, p)) {
        s
    } else {
        enqueue_spec(s, max, (k, p))
    }
}

/// The records after storing each pair of `kvs` in turn.
pub open spec fn puts_spec(s: Seq<Entry>, max: nat, kvs: Seq<Entry>) -> Seq<Entry>
    decreases kvs.len(),
{
    if kvs.len() == 0 {
        s
    } else {
        let prev = puts_spec(s, max, kvs.drop_last());
        put_spec(prev, max, kvs.last().0, kvs.last().1)
    }
}

/// Removing the record with key `k`, if any.
pub open spec fn remove_spec(s: Seq<Entry>, k: Seq<u8>) -> Seq<Entry> {
    if has_key(s, k) {
        let i = choose|i: int| 0 <= i < s.len() && (#[trigger] s[i]).0 == k;
        s.remove(i)
    } else {
        s
    }
}

/// Removing the entry `e`, if present.
pub open spec fn withdraw_spec(s: Seq<Entry>, e: Entry) -> Seq<Entry> {
    if s.contains(e) {
        let i = choose|i: int| 0 <= i < s.len() && s[i] == e;
        s.remove(i)
    } else {
        s
    }
}

/// In order, the data of the entries with key `x` (`by_key`), or the keys of
/// the entries with data `x` (otherwise).
pub open spec fn picked(s: Seq<Entry>, x: Seq<u8>, by_key: bool) -> Seq<Seq<u8>>
    decreases s.len(),
{
    if s.len() == 0 {
        Seq::empty()
    } else {
        let rest = picked(s.drop_last(), x, by_key);
        let e = s.last();
        if by_key && e.0 == x {
            rest.push(e.1)
        } else if !by_key && e.1 == x {
            rest.push(e.0)
        } else {
            rest
        }
    }
}

pub open spec fn bytes_views(v: Seq<Vec<u8>>) -> Seq<Seq<u8>> {
    v.map_values(|b: Vec<u8>| b@)
}

pub open spec fn pair_views(v: Seq<(Vec<u8>, Vec<u8>)>) -> Seq<Entry> {
    v.map_values(|p: (Vec<u8>, Vec<u8>)| (p.0@, p.1@))
}

proof fn lemma_put_keeps_bound(s: Seq<Entry>, max: nat, k: Seq<u8>, v: Seq<u8>)
    requires
        s.len() <= max,
        keys_unique(s),
    ensures
        put_spec(s, max, k, v).len() <= max,
        keys_unique(put_spec(s, max, k, v)),
{
    let r = put_spec(s, max, k, v);
    if has_key(s, k) {
        let i = choose|i: int| 0 <= i < s.len() && (#[trigger] s[i]).0 == k;
        assert forall|a: int, b: int| 0 <= a < r.len() && 0 <= b < r.len() && (#[trigger] r[a]).0 == (#[trigger] r[b]).0 implies a == b by {
            if a != i && b != i {
                assert(s[a].0 == s[b].0);
            } else if a == i && b != i {
                assert(s[b].0 == s[i].0);
            } else if b == i && a != i {
                assert(s[a].0 == s[i].0);
            }
        }
    } else if max > 0 {
        let base = if s.len() < max { s } else { s.drop_first() };
        assert(r == base.push((k, v)));
        assert forall|a: int, b: int| 0 <= a < r.len() && 0 <= b < r.len() && (#[trigger] r[a]).0 == (#[trigger] r[b]).0 implies a == b by {
            if a < base.len() && b < base.len() {
                if s.len() < max {
                    assert(s[a].0 == s[b].0);
                } else {
                    assert(s[a + 1].0 == s[b + 1].0);
                }
            } else if a < base.len() {
                if s.len() < max {
                    assert(s[a].0 == k);
                } else {
                    assert(s[a + 1].0 == k);
                }
            } else if b < base.len() {
                if s.len() < max {
                    assert(s[b].0 == k);
                } else {
                    assert(s[b + 1].0 == k);
                }
            }
        }
    }
}

/// However many records are stored, and whatever their keys, a store that
/// starts within its limit never holds more than `max` records, and its keys
/// stay distinct.
pub proof fn law_record_count_bounded(s: Seq<Entry>, max: nat, kvs: Seq<Entry>)
    requires
        s.len() <= max,
        keys_unique(s),
    ensures
        puts_spec(s, max, kvs).len() <= max,
        keys_unique(puts_spec(s, max, kvs)),
    decreases kvs.len(),
{
    if kvs.len() > 0 {
        law_record_count_bounded(s, max, kvs.drop_last());
        lemma_put_keeps_bound(puts_spec(s, max, kvs.drop_last()), max, kvs.last().0, kvs.last().1);
    }
}

fn bytes_eq(a: &Vec<u8>, b: &Vec<u8>) -> (r: bool)
    ensures
        r == (a@ == b@),
{
    if a.len() != b.len() {
        return false;
    }
    let mut i: usize = 0;
    while i < a.len()
        invariant
            a@.len() == b@.len(),
            i <= a@.len(),
            forall|j: int| 0 <= j < i ==> a@[j] == b@[j],
        decreases a@.len() - i,
    {
        if a[i] != b[i] {
            return false;
        }
        i += 1;
    }
    assert(a@ =~= b@);
    true
}

/// Index of the entry with key `k` in `s`.
fn find_key(s: &Vec<Slot>, k: &Vec<u8>) -> (r: Option<usize>)
    ensures
        r is None <==> !has_key(slots_view(s@), k@),
        r matches Some(i) ==> i < s@.len() && slots_view(s@)[i as int].0 == k@,
{
    let mut i: usize = 0;
    while i < s.len()
        invariant
            i <= s@.len(),
            forall|j: int| 0 <= j < i ==> (#[trigger] slots_view(s@)[j]).0 != k@,
        decreases s@.len() - i,
    {
        if bytes_eq(&s[i].key, k) {
            assert(slots_view(s@)[i as int].0 == k@);
            return Some(i);
        }
        i += 1;
    }
    None
}

/// Index of the entry equal to (`k`, `d`) in `s`.
fn find_entry(s: &Vec<Slot>, k: &Vec<u8>, d: &Vec<u8>) -> (r: Option<usize>)
    ensures
        r is None <==> !slots_view(s@).contains((k@, d@)),
        r matches Some(i) ==> i < s@.len() && slots_view(s@)[i as int] == (k@, d@),
{
    let mut i: usize = 0;
    while i < s.len()
        invariant
            i <= s@.len(),
            forall|j: int| 0 <= j < i ==> #[trigger] slots_view(s@)[j] != (k@, d@),
        decreases s@.len() - i,
    {
        if bytes_eq(&s[i].key, k) && bytes_eq(&s[i].data, d) {
            assert(slots_view(s@)[i as int] == (k@, d@));
            return Some(i);
        }
        i += 1;
    }
    None
}

/// The data of the entries with key `x`, or the keys of the entries with data
/// `x`.
fn pick(s: &Vec<Slot>, x: &Vec<u8>, by_key: bool) -> (r: Vec<Vec<u8>>)
    ensures
        bytes_views(r@) == picked(slots_view(s@), x@, by_key),
{
    let mut r: Vec<Vec<u8>> = Vec::new();
    let mut i: usize = 0;
    while i < s.len()
        invariant
            i <= s@.len(),
            bytes_views(r@) == picked(slots_view(s@).subrange(0, i as int), x@, by_key),
        decreases s@.len() - i,
    {
        let ghost before = r@;
        assert(slots_view(s@).subrange(0, i + 1).drop_last() =~= slots_view(s@).subrange(0, i as int));
        assert(slots_view(s@).subrange(0, i + 1).last() == slots_view(s@)[i as int]);
        if by_key && bytes_eq(&s[i].key, x) {
            r.push(s[i].data.clone());
            assert(bytes_views(r@) =~= bytes_views(before).push(s@[i as int].data@));
        } else if !by_key && bytes_eq(&s[i].data, x) {
            r.push(s[i].key.clone());
            assert(bytes_views(r@) =~= bytes_views(before).push(s@[i as int].key@));
        }
        i += 1;
    }
    assert(slots_view(s@).subrange(0, s@.len() as int) =~= slots_view(s@));
    r
}

/// Appends `e` to `s`, dropping the oldest entry first when `s` is full.
fn enqueue(s: &mut Vec<Slot>, max: usize, e: Slot)
    requires
        old(s)@.len() <= max,
    ensures
        slots_view(final(s)@) == enqueue_spec(slots_view(old(s)@), max as nat, (e.key@, e.data@)),
{
    if max == 0 {
        return;
    }
    let ghost e_view = (e.key@, e.data@);
    if s.len() >= max {
        s.remove(0);
        assert(slots_view(s@) =~= slots_view(old(s)@).drop_first());
    }
    let ghost before = s@;
    s.push(e);
    assert(slots_view(s@) =~= slots_view(before).push(e_view));
}

impl RecordStore {
    /// The stored records, oldest first.
    pub closed spec fn records(&self) -> Seq<Entry> {
        slots_view(self.records@)
    }

    /// The stored (key, provider) associations, oldest first.
    pub closed spec fn providers(&self) -> Seq<Entry> {
        slots_view(self.providers@)
    }

    pub closed spec fn limits(&self) -> RecordStoreConfig {
        self.config
    }

    pub closed spec fn local_peer(&self) -> Seq<u8> {
        self.local_peer@
    }

    /// Within both limits, with distinct record keys and distinct
    /// associations.
    pub closed spec fn wf(&self) -> bool {
        &&& self.records().len() <= self.config.max_records
        &&& self.providers().len() <= self.config.max_provided_keys
        &&& keys_unique(self.records())
        &&& entries_unique(self.providers())
    }

    #[verifier::type_invariant]
    spec fn inv(&self) -> bool {
        self.wf()
    }

    /// An empty store for the node `local_peer`, with the given limits.
    pub fn with_config(local_peer: Vec<u8>, config: RecordStoreConfig) -> (r: RecordStore)
        ensures
            r.wf(),
            r.records().len() == 0,
            r.providers().len() == 0,
            r.limits() == config,
            r.local_peer() == local_peer@,
    {
        RecordStore { local_peer, config, records: Vec::new(), providers: Vec::new() }
    }

    /// The node this store belongs to.
    pub fn local_peer_id(&self) -> (r: &Vec<u8>)
        ensures
            r@ == self.local_peer(),
    {
        &self.local_peer
    }

    /// Number of stored records.
    pub fn len(&self) -> (r: usize)
        ensures
            r == self.records().len(),
            r <= self.limits().max_records,
    {
        proof {
            use_type_invariant(self);
        }
        self.records.len()
    }

    /// Number of stored provider associations.
    pub fn provider_count(&self) -> (r: usize)
        ensures
            r == self.providers().len(),
            r <= self.limits().max_provided_keys,
    {
        proof {
            use_type_invariant(self);
        }
        self.providers.len()
    }

    /// Stores `value` under `key`, evicting the oldest record when a new key
    /// arrives at a full store.
    pub fn put(&mut self, key: Vec<u8>, value: Vec<u8>)
        ensures
            final(self).records() == put_spec(
                old(self).records(),
                old(self).limits().max_records as nat,
                key@,
                value@,
            ),
            final(self).providers() == old(self).providers(),
            final(self).limits() == old(self).limits(),
            final(self).local_peer() == old(self).local_peer(),
    {
        proof {
            use_type_invariant(&*self);
        }
        let ghost s0 = self.records();
        let ghost k = key@;
        let ghost v = value@;
        proof {
            lemma_put_keeps_bound(s0, self.config.max_records as nat, k, v);
        }
        let max = self.config.max_records;
        let mut recs: Vec<Slot> = Vec::new();
        core::mem::swap(&mut self.records, &mut recs);
        match find_key(&recs, &key) {
            Some(i) => {
                let ghost j = choose|j: int| 0 <= j < s0.len() && (#[trigger] s0[j]).0 == k;
                assert(s0[j].0 == s0[i as int].0);
                let slot = Slot { key, data: value };
                recs.set(i, slot);
                assert(slots_view(recs@) =~= s0.update(i as int, (k, v)));
            },
            None => {
                enqueue(&mut recs, max, Slot { key, data: value });
            },
        }
        core::mem::swap(&mut self.records, &mut recs);
    }

    /// The value stored under `key`.
    pub fn get(&self, key: &Vec<u8>) -> (r: Option<Vec<u8>>)
        ensures
            keys_unique(self.records()),
            r is Some <==> has_key(self.records(), key@),
            r matches Some(v) ==> self.records().contains((key@, v@)),
    {
        proof {
            use_type_invariant(&*self);
        }
        match find_key(&self.records, key) {
            Some(i) => {
                let v = self.records[i].data.clone();
                assert(self.records()[i as int] == (key@, v@));
                Some(v)
            },
            None => None,
        }
    }

    /// Removes the record stored under `key`, if any.
    pub fn remove(&mut self, key: &Vec<u8>)
        ensures
            final(self).records() == remove_spec(old(self).records(), key@),
            final(self).providers() == old(self).providers(),
            final(self).limits() == old(self).limits(),
            final(self).local_peer() == old(self).local_peer(),
    {
        proof {
            use_type_invariant(&*self);
        }
        let ghost s0 = self.records();
        match find_key(&self.records, key) {
            Some(i) => {
                let ghost j = choose|j: int| 0 <= j < s0.len() && (#[trigger] s0[j]).0 == key@;
                assert(s0[j].0 == s0[i as int].0);
                let mut recs: Vec<Slot> = Vec::new();
                core::mem::swap(&mut self.records, &mut recs);
                recs.remove(i);
                let ghost r = slots_view(recs@);
                assert(r =~= s0.remove(i as int));
                assert forall|a: int, b: int|
                    0 <= a < r.len() && 0 <= b < r.len() && (#[trigger] r[a]).0 == (#[trigger] r[b]).0 implies a == b by {
                    let a0 = if a < i { a } else { a + 1 };
                    let b0 = if b < i { b } else { b + 1 };
                    assert(s0[a0].0 == s0[b0].0);
                }
                core::mem::swap(&mut self.records, &mut recs);
            },
            None => {},
        }
    }

    /// Records that `provider` can provide `key`, evicting the oldest
    /// association when a new one arrives at a full store.
    pub fn add_provider(&mut self, key: Vec<u8>, provider: Vec<u8>)
        ensures
            final(self).providers() == provide_spec(
                old(self).providers(),
                old(self).limits().max_provided_keys as nat,
                key@,
                provider@,
            ),
            final(self).records() == old(self).records(),
            final(self).limits() == old(self).limits(),
            final(self).local_peer() == old(self).local_peer(),
    {
        proof {
            use_type_invariant(&*self);
        }
        let ghost s0 = self.providers();
        let ghost e = (key@, provider@);
        match find_entry(&self.providers, &key, &provider) {
            Some(_) => {},
            None => {
                let max = self.config.max_provided_keys;
                let mut provs: Vec<Slot> = Vec::new();
                core::mem::swap(&mut self.providers, &mut provs);
                enqueue(&mut provs, max, Slot { key, data: provider });
                let ghost r = slots_view(provs@);
                assert forall|a: int, b: int|
                    0 <= a < r.len() && 0 <= b < r.len() && #[trigger] r[a] == #[trigger] r[b] implies a == b by {
                    if max > 0 {
                        let base = if s0.len() < max { s0 } else { s0.drop_first() };
                        let off: int = if s0.len() < max { 0 } else { 1 };
                        assert(r == base.push(e));
                        if a < base.len() && b < base.len() {
                            assert(s0[a + off] == s0[b + off]);
                        } else if a < base.len() {
                            assert(s0[a + off] == e);
                        } else if b < base.len() {
                            assert(s0[b + off] == e);
                        }
                    }
                }
                core::mem::swap(&mut self.providers, &mut provs);
            },
        }
    }

    /// A copy of the stored records, oldest first.
    pub fn records_snapshot(&self) -> (r: Vec<(Vec<u8>, Vec<u8>)>)
        ensures
            pair_views(r@) == self.records(),
    {
        let mut r: Vec<(Vec<u8>, Vec<u8>)> = Vec::new();
        let mut i: usize = 0;
        while i < self.records.len()
            invariant
                i <= self.records@.len(),
                pair_views(r@) == self.records().subrange(0, i as int),
            decreases self.records@.len() - i,
        {
            let ghost before = r@;
            let k = self.records[i].key.clone();
            let v = self.records[i].data.clone();
            assert(self.records()[i as int] == (k@, v@));
            r.push((k, v));
            assert(pair_views(r@) =~= pair_views(before).push(self.records()[i as int]));
            assert(self.records().subrange(0, i + 1) =~= self.records().subrange(0, i as int).push(
                self.records()[i as int],
            ));
            i += 1;
        }
        assert(self.records().subrange(0, self.records@.len() as int) =~= self.records());
        r
    }

    /// The providers recorded for `key`, oldest first.
    pub fn providers_of(&self, key: &Vec<u8>) -> (r: Vec<Vec<u8>>)
        ensures
            bytes_views(r@) == picked(self.providers(), key@, true),
    {
        pick(&self.providers, key, true)
    }

    /// The keys `provider` is recorded for, oldest first.
    pub fn keys_provided_by(&self, provider: &Vec<u8>) -> (r: Vec<Vec<u8>>)
        ensures
            bytes_views(r@) == picked(self.providers(), provider@, false),
    {
        pick(&self.providers, provider, false)
    }

    /// Forgets that `provider` provides `key`.
    pub fn remove_provider(&mut self, key: &Vec<u8>, provider: &Vec<u8>)
        ensures
            final(self).providers() == withdraw_spec(old(self).providers(), (key@, provider@)),
            final(self).records() == old(self).records(),
            final(self).limits() == old(self).limits(),
            final(self).local_peer() == old(self).local_peer(),
    {
        proof {
            use_type_invariant(&*self);
        }
        let ghost s0 = self.providers();
        let ghost e = (key@, provider@);
        match find_entry(&self.providers, key, provider) {
            Some(i) => {
                let ghost j = choose|j: int| 0 <= j < s0.len() && s0[j] == e;
                assert(s0[j] == s0[i as int]);
                let mut provs: Vec<Slot> = Vec::new();
                core::mem::swap(&mut self.providers, &mut provs);
                provs.remove(i);
                let ghost r = slots_view(provs@);
                assert(r =~= s0.remove(i as int));
                assert forall|a: int, b: int|
                    0 <= a < r.len() && 0 <= b < r.len() && #[trigger] r[a] == #[trigger] r[b] implies a == b by {
                    let a0 = if a < i { a } else { a + 1 };
                    let b0 = if b < i { b } else { b + 1 };
                    assert(s0[a0] == s0[b0]);
                }
                core::mem::swap(&mut self.providers, &mut provs);
            },
            None => {},
        }
    }

    /// Whether `provider` is recorded as a provider of `key`.
    pub fn is_provider(&self, key: &Vec<u8>, provider: &Vec<u8>) -> (r: bool)
        ensures
            r == self.providers().contains((key@, provider@)),
    {
        match find_entry(&self.providers, key, provider) {
            Some(_) => true,
            None => false,
        }
    }
}

/// The store a node's lookup behaviour uses: empty, with the default limits.
pub fn setup_kademlia(peer_id: Vec<u8>) -> (r: RecordStore)
    ensures
        r.wf(),
        r.records().len() == 0,
        r.providers().len() == 0,
        r.limits() == (RecordStoreConfig { max_records: MAX_RECORDS, max_provided_keys: MAX_PROVIDED_KEYS }),
        r.local_peer() == peer_id@,
{
    RecordStore::with_config(peer_id, RecordStoreConfig::default_limits())
}

} // verus!
