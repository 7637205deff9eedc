//! The key-value store: one entry per key, each with an optional deadline
//! after which a read no longer sees it.

use crate::buffer::{bytes_as_slice, bytes_from_vec, contents};
use bytes::Bytes;
use vstd::prelude::*;
use vstd::slice::slice_to_vec;

verus! {

/// The mathematical model of an entry: its value, and the time in
/// milliseconds from which it counts as expired, if it has one.
pub struct EntryState {
    pub value: Seq<u8>,
    pub expires_at: Option<nat>,
}

/// The mathematical model of a store: its entries by key.
pub type StoreState = Map<Seq<u8>, EntryState>;

/// An entry with a deadline at or before `now` is expired.
pub open spec fn expired(entry: EntryState, now: u64) -> bool {
    entry.expires_at matches Some(deadline) && deadline <= now
}

/// The deadline of an entry written at `now` with the given time to live.
pub open spec fn deadline(ttl_ms: Option<u64>, now: u64) -> Option<nat> {
    match ttl_ms {
        Some(ttl) => Some((now + ttl) as nat),
        None => None,
    }
}

/// Writing a key puts a new entry in the place of any earlier one.
pub open spec fn store_set(
    store: StoreState,
    key: Seq<u8>,
    value: Seq<u8>,
    ttl_ms: Option<u64>,
    now: u64,
) -> StoreState {
    store.insert(key, EntryState { value, expires_at: deadline(ttl_ms, now) })
}

/// Reading a key gives the value of its entry. An expired entry is removed
/// instead and counts as absent.
pub open spec fn store_get(store: StoreState, key: Seq<u8>, now: u64) -> (
    StoreState,
    Option<Seq<u8>>,
) {
    if !store.dom().contains(key) {
        (store, None)
    } else if expired(store[key], now) {
        (store.remove(key), None)
    } else {
        (store, Some(store[key].value))
    }
}

/// An entry as the store holds it.
struct Entry {
    key: Vec<u8>,
    value: Bytes,
    expires_at: Option<u128>,
}

impl Entry {
    spec fn key(self) -> Seq<u8> {
        self.key@
    }

    spec fn model(self) -> EntryState {
        EntryState {
            value: contents(self.value),
            expires_at: match self.expires_at {
                Some(t) => Some(t as nat),
                None => None,
            },
        }
    }
}

/// No key occurs twice.
spec fn keys_distinct(entries: Seq<Entry>) -> bool {
    forall|i: int, j: int|
        0 <= i < j < entries.len() ==> #[trigger] entries[i].key() != #[trigger] entries[j].key()
}

/// `entries` holds an entry for `key` at index `i`.
spec fn holds_at(entries: Seq<Entry>, key: Seq<u8>, i: int) -> bool {
    0 <= i < entries.len() && entries[i].key() == key
}

/// The entries by key.
spec fn model_of(entries: Seq<Entry>) -> StoreState {
    Map::new(
        |key: Seq<u8>| exists|i: int| holds_at(entries, key, i),
        |key: Seq<u8>| entries[choose|i: int| holds_at(entries, key, i)].model(),
    )
}

/// Where no key occurs twice, the model maps each key to its one entry.
proof fn lemma_model_at(entries: Seq<Entry>, i: int)
    requires
        keys_distinct(entries),
        0 <= i < entries.len(),
    ensures
        model_of(entries).dom().contains(entries[i].key()),
        model_of(entries)[entries[i].key()] == entries[i].model(),
{
    let key = entries[i].key();
    assert(holds_at(entries, key, i));
    let c = choose|c: int| holds_at(entries, key, c);
    if c < i {
        assert(entries[c].key() != entries[i].key());
    } else if i < c {
        assert(entries[i].key() != entries[c].key());
    }
}

/// A key that no entry has is not in the model.
proof fn lemma_model_absent(entries: Seq<Entry>, key: Seq<u8>)
    requires
        forall|i: int| 0 <= i < entries.len() ==> entries[i].key() != key,
    ensures
        !model_of(entries).dom().contains(key),
{
    if exists|i: int| holds_at(entries, key, i) {
        let c = choose|c: int| holds_at(entries, key, c);
        assert(entries[c].key() != key);
    }
}

/// Putting an entry in the place of the one with the same key.
proof fn lemma_model_update(entries: Seq<Entry>, i: int, entry: Entry)
    requires
        keys_distinct(entries),
        0 <= i < entries.len(),
        entry.key() == entries[i].key(),
    ensures
        keys_distinct(entries.update(i, entry)),
        model_of(entries.update(i, entry)) == model_of(entries).insert(entry.key(), entry.model()),
{
    let after = entries.update(i, entry);
    assert forall|a: int, b: int| 0 <= a < b < after.len() implies #[trigger] after[a].key()
        != #[trigger] after[b].key() by {
        assert(entries[a].key() != entries[b].key());
    }
    let left = model_of(after);
    let right = model_of(entries).insert(entry.key(), entry.model());
    assert forall|key: Seq<u8>| left.dom().contains(key) == right.dom().contains(key) by {
        if left.dom().contains(key) {
            let c = choose|c: int| holds_at(after, key, c);
            assert(holds_at(entries, key, c));
        }
        if right.dom().contains(key) {
            if key != entry.key() {
                let c = choose|c: int| holds_at(entries, key, c);
                assert(holds_at(after, key, c));
            } else {
                assert(holds_at(after, key, i));
            }
        }
    }
    assert forall|key: Seq<u8>| left.dom().contains(key) implies left[key] == right[key] by {
        let c = choose|c: int| holds_at(after, key, c);
        lemma_model_at(after, c);
        if c != i {
            lemma_model_at(entries, c);
        }
    }
    assert(left =~= right);
}

/// Adding an entry under a key that no entry has.
proof fn lemma_model_push(entries: Seq<Entry>, entry: Entry)
    requires
        keys_distinct(entries),
        forall|i: int| 0 <= i < entries.len() ==> entries[i].key() != entry.key(),
    ensures
        keys_distinct(entries.push(entry)),
        model_of(entries.push(entry)) == model_of(entries).insert(entry.key(), entry.model()),
{
    let after = entries.push(entry);
    let last = entries.len() as int;
    assert forall|a: int, b: int| 0 <= a < b < after.len() implies #[trigger] after[a].key()
        != #[trigger] after[b].key() by {
        if b < last {
            assert(entries[a].key() != entries[b].key());
        }
    }
    let left = model_of(after);
    let right = model_of(entries).insert(entry.key(), entry.model());
    assert forall|key: Seq<u8>| left.dom().contains(key) == right.dom().contains(key) by {
        if left.dom().contains(key) {
            let c = choose|c: int| holds_at(after, key, c);
            if c < last {
                assert(holds_at(entries, key, c));
            }
        }
        if right.dom().contains(key) {
            if key != entry.key() {
                let c = choose|c: int| holds_at(entries, key, c);
                assert(holds_at(after, key, c));
            } else {
                assert(holds_at(after, key, last));
            }
        }
    }
    assert forall|key: Seq<u8>| left.dom().contains(key) implies left[key] == right[key] by {
        let c = choose|c: int| holds_at(after, key, c);
        lemma_model_at(after, c);
        if c < last {
            lemma_model_at(entries, c);
        }
    }
    assert(left =~= right);
}

/// Taking out the entry at `i`.
proof fn lemma_model_remove(entries: Seq<Entry>, i: int)
    requires
        keys_distinct(entries),
        0 <= i < entries.len(),
    ensures
        keys_distinct(entries.remove(i)),
        model_of(entries.remove(i)) == model_of(entries).remove(entries[i].key()),
{
    let after = entries.remove(i);
    let gone = entries[i].key();
    assert forall|a: int, b: int| 0 <= a < b < after.len() implies #[trigger] after[a].key()
        != #[trigger] after[b].key() by {
        let a0 = if a < i {
            a
        } else {
            a + 1
        };
        let b0 = if b < i {
            b
        } else {
            b + 1
        };
        assert(entries[a0].key() != entries[b0].key());
    }
    let left = model_of(after);
    let right = model_of(entries).remove(gone);
    assert forall|key: Seq<u8>| left.dom().contains(key) == right.dom().contains(key) by {
        if left.dom().contains(key) {
            let c = choose|c: int| holds_at(after, key, c);
            let c0 = if c < i {
                c
            } else {
                c + 1
            };
            assert(holds_at(entries, key, c0));
            if c0 < i {
                assert(entries[c0].key() != entries[i].key());
            } else {
                assert(entries[i].key() != entries[c0].key());
            }
        }
        if right.dom().contains(key) {
            let c = choose|c: int| holds_at(entries, key, c);
            let c1 = if c < i {
                c
            } else {
                c - 1
            };
            assert(holds_at(after, key, c1));
        }
    }
    assert forall|key: Seq<u8>| left.dom().contains(key) implies left[key] == right[key] by {
        let c = choose|c: int| holds_at(after, key, c);
        let c0 = if c < i {
            c
        } else {
            c + 1
        };
        lemma_model_at(after, c);
        lemma_model_at(entries, c0);
    }
    assert(left =~= right);
}

/// The model of what a read gives.
pub open spec fn found_view(found: Option<Vec<u8>>) -> Option<Seq<u8>> {
    match found {
        Some(value) => Some(value@),
        None => None,
    }
}

/// Tells whether two byte strings are the same.
fn same_bytes(a: &[u8], b: &[u8]) -> (same: bool)
    ensures
        same == (a@ == b@),
{
    if a.len() != b.len() {
        return false;
    }
    let mut i: usize = 0;
    while i < a.len()
        invariant
            i <= a@.len(),
            a@.len() == b@.len(),
            forall|j: int| 0 <= j < i ==> a@[j] == b@[j],
        decreases a@.len() - i,
    {
        if a[i] != b[i] {
            return false;
        }
        i = i + 1;
    }
    assert(a@ =~= b@);
    true
}

/// The store: at most one entry per key. The entries stand in a vector that
/// a lookup walks from the front.
pub struct Store {
    entries: Vec<Entry>,
}

impl View for Store {
    type V = StoreState;

    closed spec fn view(&self) -> StoreState {
        model_of(self.entries@)
    }
}

impl Store {
    /// No key has two entries.
    #[verifier::type_invariant]
    spec fn well_formed(self) -> bool {
        keys_distinct(self.entries@)
    }

    /// An empty store.
    pub fn new() -> (store: Store)
        ensures
            store@ == Map::<Seq<u8>, EntryState>::empty(),
    {
        let store = Store { entries: Vec::new() };
        assert(store@ =~= Map::<Seq<u8>, EntryState>::empty());
        store
    }

    /// The index of the entry for `key`, if there is one.
    fn find(&self, key: &[u8]) -> (r: Option<usize>)
        ensures
            match r {
                Some(i) => holds_at(self.entries@, key@, i as int),
                None => forall|i: int| 0 <= i < self.entries@.len() ==> self.entries@[i].key()
                    != key@,
            },
    {
        let mut i: usize = 0;
        while i < self.entries.len()
            invariant
                i <= self.entries@.len(),
                forall|j: int| 0 <= j < i ==> self.entries@[j].key() != key@,
            decreases self.entries@.len() - i,
        {
            if same_bytes(self.entries[i].key.as_slice(), key) {
                return Some(i);
            }
            i = i + 1;
        }
        None
    }

    /// Writes `value` under `key` at time `now`, in milliseconds. With a time
    /// to live the entry expires that many milliseconds after `now`; without
    /// one it never does. An earlier entry for the key is replaced whole.
    pub fn set(&mut self, key: Vec<u8>, value: Vec<u8>, ttl_ms: Option<u64>, now: u64)
        ensures
            final(self)@ == store_set(old(self)@, key@, value@, ttl_ms, now),
    {
        proof {
            use_type_invariant(&*self);
        }
        let expires_at: Option<u128> = match ttl_ms {
            Some(ttl) => Some(now as u128 + ttl as u128),
            None => None,
        };
        let found = self.find(key.as_slice());
        let entry = Entry { key, value: bytes_from_vec(value), expires_at };
        // The entries leave the store while they change and come back whole.
        let mut entries: Vec<Entry> = Vec::new();
        core::mem::swap(&mut self.entries, &mut entries);
        match found {
            Some(i) => {
                proof {
                    lemma_model_update(entries@, i as int, entry);
                }
                entries.set(i, entry);
            },
            None => {
                proof {
                    lemma_model_push(entries@, entry);
                }
                entries.push(entry);
            },
        }
        core::mem::swap(&mut self.entries, &mut entries);
    }

    /// Reads the value under `key` at time `now`, in milliseconds. An entry
    /// whose deadline is at or before `now` is removed and counts as absent.
    pub fn get(&mut self, key: &[u8], now: u64) -> (r: Option<Vec<u8>>)
        ensures
            (final(self)@, found_view(r)) == store_get(old(self)@, key@, now),
    {
        proof {
            use_type_invariant(&*self);
        }
        match self.find(key) {
            None => {
                proof {
                    lemma_model_absent(self.entries@, key@);
                }
                None
            },
            Some(i) => {
                proof {
                    lemma_model_at(self.entries@, i as int);
                }
                let is_expired = match self.entries[i].expires_at {
                    Some(deadline) => deadline <= now as u128,
                    None => false,
                };
                if is_expired {
                    // The entries leave the store while they change and come
                    // back whole.
                    let mut entries: Vec<Entry> = Vec::new();
                    core::mem::swap(&mut self.entries, &mut entries);
                    proof {
                        lemma_model_remove(entries@, i as int);
                    }
                    let _ = entries.remove(i);
                    core::mem::swap(&mut self.entries, &mut entries);
                    None
                } else {
                    Some(slice_to_vec(bytes_as_slice(&self.entries[i].value)))
                }
            },
        }
    }
}

/// The store after a run of reads, each of some key at some time.
pub open spec fn after_reads(store: StoreState, reads: Seq<(Seq<u8>, u64)>) -> StoreState
    decreases reads.len(),
{
    if reads.len() == 0 {
        store
    } else {
        store_get(after_reads(store, reads.drop_last()), reads.last().0, reads.last().1).0
    }
}

/// Reads take no entry away that has no deadline.
pub proof fn lemma_reads_keep_unexpiring(
    store: StoreState,
    key: Seq<u8>,
    reads: Seq<(Seq<u8>, u64)>,
)
    requires
        store.dom().contains(key),
        store[key].expires_at is None,
    ensures
        after_reads(store, reads).dom().contains(key),
        after_reads(store, reads)[key] == store[key],
    decreases reads.len(),
{
    if reads.len() > 0 {
        lemma_reads_keep_unexpiring(store, key, reads.drop_last());
    }
}

/// A value written without a time to live is read back at any time, earlier
/// or later, and however many reads of this key or of others came between.
pub proof fn theorem_no_spurious_expiry(
    store: StoreState,
    key: Seq<u8>,
    value: Seq<u8>,
    written: u64,
    reads: Seq<(Seq<u8>, u64)>,
    read: u64,
)
    ensures
        store_get(
            after_reads(store_set(store, key, value, None, written), reads),
            key,
            read,
        ).1 == Some(value),
{
    lemma_reads_keep_unexpiring(store_set(store, key, value, None, written), key, reads);
}

/// A value written with a time to live is read back before its deadline and
/// is absent, and removed, from the deadline on. With a time to live of zero
/// it is absent for every read that follows the write.
pub proof fn theorem_expiry(
    store: StoreState,
    key: Seq<u8>,
    value: Seq<u8>,
    ttl_ms: u64,
    written: u64,
    read: u64,
)
    ensures
        read < written + ttl_ms ==> store_get(
            store_set(store, key, value, Some(ttl_ms), written),
            key,
            read,
        ).1 == Some(value),
        read >= written + ttl_ms ==> store_get(
            store_set(store, key, value, Some(ttl_ms), written),
            key,
            read,
        ) == (store.remove(key), None::<Seq<u8>>),
        ttl_ms == 0 && read >= written ==> store_get(
            store_set(store, key, value, Some(ttl_ms), written),
            key,
            read,
        ).1 is None,
{
    let after = store_set(store, key, value, Some(ttl_ms), written);
    assert(after.remove(key) =~= store.remove(key));
}

/// A second write to a key leaves nothing of the first: the store is as if
/// only the second had been made.
pub proof fn theorem_set_replaces(
    store: StoreState,
    key: Seq<u8>,
    first: Seq<u8>,
    first_ttl: Option<u64>,
    first_written: u64,
    second: Seq<u8>,
    second_ttl: Option<u64>,
    second_written: u64,
)
    ensures
        store_set(
            store_set(store, key, first, first_ttl, first_written),
            key,
            second,
            second_ttl,
            second_written,
        ) == store_set(store, key, second, second_ttl, second_written),
{
    assert(store_set(
        store_set(store, key, first, first_ttl, first_written),
        key,
        second,
        second_ttl,
        second_written,
    ) =~= store_set(store, key, second, second_ttl, second_written));
}

/// A read never gives the value of an entry whose deadline has passed, and
/// takes no entry away but an expired one under the key that was read.
pub proof fn theorem_get_sees_live_entries(store: StoreState, key: Seq<u8>, now: u64)
    ensures
        store_get(store, key, now).1 is Some ==> store.dom().contains(key) && !expired(
            store[key],
            now,
        ) && store_get(store, key, now).1 == Some(store[key].value),
        forall|other: Seq<u8>|
            other != key ==> (store_get(store, key, now).0.dom().contains(other)
                <==> store.dom().contains(other)) && store_get(store, key, now).0[other]
                == store[other],
{
}

} // verus!
