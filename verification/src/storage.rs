//! The storage engine: a map from keys to items with lazy expiry.

use vstd::prelude::*;

use crate::resp::{Value, ValueModel};

verus! {

/// One stored entry: its text, the millisecond timestamp of the SET that
/// created it, and the optional time-to-live in milliseconds.  The
/// time-to-live is fixed at creation; a later SET replaces the whole item.
pub struct Item {
    pub value: String,
    pub created: u64,
    pub expires: Option<u64>,
}

/// The mathematical shape of an [`Item`].
pub struct ItemModel {
    pub value: Seq<char>,
    pub created: u64,
    pub expires: Option<u64>,
}

impl View for Item {
    type V = ItemModel;

    open spec fn view(&self) -> ItemModel {
        ItemModel { value: self.value@, created: self.created, expires: self.expires }
    }
}

/// An item with a time-to-live is expired once more than that many
/// milliseconds have passed since its creation.
pub open spec fn expired(item: ItemModel, now: u64) -> bool {
    match item.expires {
        Some(d) => item.created + d < now,
        None => false,
    }
}

/// The key-value store: keys to items, keys unique.  Expiry is lazy: an
/// expired entry stays in the map until a read of it evicts it.
pub struct Storage {
    map: vstd::hash_map::StringHashMap<Item>,
}

impl View for Storage {
    type V = Map<Seq<char>, ItemModel>;

    closed spec fn view(&self) -> Map<Seq<char>, ItemModel> {
        self.map@.map_values(|it: Item| it@)
    }
}

impl Storage {
    /// Creates an empty store.
    pub fn new() -> (s: Storage)
        ensures
            s@ == Map::<Seq<char>, ItemModel>::empty(),
    {
        let s = Storage { map: vstd::hash_map::StringHashMap::new() };
        proof {
            assert(s@ =~= Map::<Seq<char>, ItemModel>::empty());
        }
        s
    }

    /// Unconditionally inserts or replaces the item for `key`, created at
    /// `now` with the given time-to-live, and always replies `OK`.
    pub fn set(&mut self, key: String, value: String, expires: Option<u64>, now: u64) -> (r: Value)
        ensures
            final(self)@ == old(self)@.insert(
                key@,
                (ItemModel { value: value@, created: now, expires }),
            ),
            r@ == ValueModel::SimpleString("OK"@),
    {
        let ghost k = key@;
        let item = Item { value, created: now, expires };
        let ghost itemm = item@;
        self.map.insert(key, item);
        proof {
            assert(final(self)@ =~= old(self)@.insert(k, itemm));
        }
        Value::SimpleString("OK".to_owned())
    }

    /// Looks up `key` at time `now`.  A missing key reads as null; a live
    /// entry reads as its text; an expired entry is evicted as a side
    /// effect and reads as null.
    pub fn get(&mut self, key: String, now: u64) -> (r: Value)
        ensures
            ({
                let st = old(self)@;
                if !st.contains_key(key@) {
                    r@ == ValueModel::Null && final(self)@ == st
                } else if expired(st[key@], now) {
                    r@ == ValueModel::Null && final(self)@ == st.remove(key@)
                } else {
                    r@ == ValueModel::BulkString(st[key@].value) && final(self)@ == st
                }
            }),
    {
        match self.map.get(key.as_str()) {
            None => {
                return Value::Null;
            },
            Some(item) => {
                let is_expired = match item.expires {
                    Some(d) => now > item.created && now - item.created > d,
                    None => false,
                };
                if !is_expired {
                    return Value::BulkString(item.value.clone());
                }
            },
        }
        self.map.remove(key.as_str());
        proof {
            assert(final(self)@ =~= old(self)@.remove(key@));
        }
        Value::Null
    }
}

impl Default for Storage {
    /// The default store is empty.
    fn default() -> (s: Storage)
        ensures
            s@ == Map::<Seq<char>, ItemModel>::empty(),
    {
        Storage::new()
    }
}

/// SET then GET: after a set without a time-to-live, a get of the same key
/// at any later time finds exactly the value that was set.
pub proof fn lemma_set_then_get(
    st: Map<Seq<char>, ItemModel>,
    k: Seq<char>,
    v: Seq<char>,
    now: u64,
    later: u64,
)
    ensures
        ({
            let st2 = st.insert(k, (ItemModel { value: v, created: now, expires: None }));
            st2.contains_key(k) && !expired(st2[k], later) && st2[k].value == v
        }),
{
}

/// Overwrite: a second SET of the same key replaces the first entirely, so
/// a get finds the second value.
pub proof fn lemma_overwrite(
    st: Map<Seq<char>, ItemModel>,
    k: Seq<char>,
    v1: Seq<char>,
    v2: Seq<char>,
    t1: u64,
    t2: u64,
    later: u64,
)
    ensures
        ({
            let st2 = st.insert(k, (ItemModel { value: v1, created: t1, expires: None })).insert(
                k,
                (ItemModel { value: v2, created: t2, expires: None }),
            );
            st2.contains_key(k) && !expired(st2[k], later) && st2[k].value == v2
        }),
{
}

/// No premature expiry: within its time-to-live, an entry still reads as
/// the value that was set.
pub proof fn lemma_no_premature_expiry(
    st: Map<Seq<char>, ItemModel>,
    k: Seq<char>,
    v: Seq<char>,
    ttl: u64,
    now: u64,
    later: u64,
)
    requires
        later <= now + ttl,
    ensures
        ({
            let st2 = st.insert(k, (ItemModel { value: v, created: now, expires: Some(ttl) }));
            st2.contains_key(k) && !expired(st2[k], later) && st2[k].value == v
        }),
{
}

/// Expiry: past its time-to-live an entry reads as expired, the read
/// evicts it, and after the eviction the key is absent for good.
pub proof fn lemma_expiry_evicts(
    st: Map<Seq<char>, ItemModel>,
    k: Seq<char>,
    v: Seq<char>,
    ttl: u64,
    now: u64,
    later: u64,
)
    requires
        now + ttl < later,
    ensures
        ({
            let st2 = st.insert(k, (ItemModel { value: v, created: now, expires: Some(ttl) }));
            st2.contains_key(k) && expired(st2[k], later) && !st2.remove(k).contains_key(k)
        }),
{
}

/// Independence of keys: a set or an eviction of one key leaves the entry
/// of every other key exactly as it was, so interleaved clients working on
/// distinct keys each observe their own writes.
pub proof fn lemma_other_keys_unchanged(
    st: Map<Seq<char>, ItemModel>,
    k: Seq<char>,
    other: Seq<char>,
    item: ItemModel,
)
    requires
        k != other,
    ensures
        st.insert(k, item).contains_key(other) == st.contains_key(other),
        st.contains_key(other) ==> st.insert(k, item)[other] == st[other],
        st.remove(k).contains_key(other) == st.contains_key(other),
        st.contains_key(other) ==> st.remove(k)[other] == st[other],
{
}

} // verus!
