//! An ordered, byte-valued key/value store.

use std::collections::BTreeMap;
use vstd::prelude::*;

verus! {

broadcast use vstd::std_specs::btree::group_btree_axioms, vstd::laws_cmp::group_laws_cmp;

/// A store key: its eight bytes read as a big-endian integer, so that the
/// numeric order of keys is the byte-wise order of their bytes.
pub type Key = u64;

/// Values that the store can hold, through a byte encoding.
pub trait StoreCodec: Sized {
    /// What decoding a byte string gives, if it is a valid encoding.
    spec fn decode_spec(bytes: Seq<u8>) -> Option<Self>;

    /// The bytes that stand for the value.
    spec fn encode_spec(&self) -> Seq<u8>;

    /// Decoding a value's bytes gives the value back.
    proof fn lemma_decode_encode(v: Self)
        ensures
            Self::decode_spec(v.encode_spec()) == Some(v),
    ;

    fn decode(bytes: &[u8]) -> (r: Option<Self>)
        ensures
            r == Self::decode_spec(bytes@),
    ;

    fn encode(&self) -> (r: Vec<u8>)
        ensures
            r@ == self.encode_spec(),
    ;
}

/// The raw bytes kept under a key.
#[derive(Debug, Clone, PartialEq, Eq)]
pub struct StoreItem(pub Vec<u8>);

impl StoreItem {
    pub fn as_bytes(&self) -> (r: &[u8])
        ensures
            r@ == self.0@,
    {
        self.0.as_slice()
    }

    /// The item that holds the eight big-endian bytes of a number.
    pub fn from_u64(value: u64) -> (r: StoreItem)
        ensures
            r.0@ == crate::types::u64_be(value),
    {
        StoreItem(crate::types::Amount(value).to_bytes())
    }
}

impl From<StoreItem> for Vec<u8> {
    fn from(item: StoreItem) -> (r: Vec<u8>) {
        item.0
    }
}

impl vstd::std_specs::convert::FromSpecImpl<StoreItem> for Vec<u8> {
    open spec fn obeys_from_spec() -> bool {
        true
    }

    open spec fn from_spec(item: StoreItem) -> Vec<u8> {
        item.0
    }
}

/// The number that an item's first eight bytes hold, big-endian, or zero where
/// it holds fewer.
pub open spec fn item_number(item: StoreItem) -> u64 {
    if item.0@.len() >= 8 {
        crate::types::be_u64_at(item.0@, 0)
    } else {
        0
    }
}

impl From<StoreItem> for u64 {
    fn from(item: StoreItem) -> (r: u64) {
        match crate::types::Amount::from_bytes(item.0.as_slice()) {
            Some(a) => a.0,
            None => 0,
        }
    }
}

impl vstd::std_specs::convert::FromSpecImpl<StoreItem> for u64 {
    open spec fn obeys_from_spec() -> bool {
        true
    }

    open spec fn from_spec(item: StoreItem) -> u64 {
        item_number(item)
    }
}

/// The store: a map from keys to the bytes kept under them.
pub enum Store {
    Memory(BTreeMap<Key, StoreItem>),
}

/// The store's contents with each value read as a byte string.
pub open spec fn bytes_view(m: Map<Key, StoreItem>) -> Map<Key, Seq<u8>> {
    m.map_values(|it: StoreItem| it.0@)
}

impl View for Store {
    type V = Map<Key, Seq<u8>>;

    open spec fn view(&self) -> Map<Key, Seq<u8>> {
        match self {
            Store::Memory(m) => bytes_view(m@),
        }
    }
}

/// What a typed read of `key` gives: the decoded value kept there, if any
/// and if it decodes.
pub open spec fn read_as<T: StoreCodec>(m: Map<Key, Seq<u8>>, key: Key) -> Option<T> {
    if m.contains_key(key) {
        T::decode_spec(m[key])
    } else {
        None
    }
}

/// The value that an upsert hands to its update function: what `key` holds,
/// decoded, or `default` where it holds nothing or nothing that decodes.
pub open spec fn upsert_input<T: StoreCodec>(m: Map<Key, Seq<u8>>, key: Key, default: T) -> T {
    match read_as::<T>(m, key) {
        Some(v) => v,
        None => default,
    }
}

/// The key of the `i`-th listed entry.
pub open spec fn key_at(s: Seq<(Key, StoreItem)>, i: int) -> Key {
    s[i].0
}

/// The bytes of the `i`-th listed entry.
pub open spec fn bytes_at(s: Seq<(Key, StoreItem)>, i: int) -> Seq<u8> {
    s[i].1.0@
}

/// A typed read of a key gives back the value last written there, and a
/// write leaves what every other key reads as it was.
pub proof fn lemma_read_after_put<T: StoreCodec, U: StoreCodec>(
    m: Map<Key, Seq<u8>>,
    k: Key,
    v: T,
    k2: Key,
)
    ensures
        read_as::<T>(m.insert(k, v.encode_spec()), k) == Some(v),
        k2 != k ==> read_as::<U>(m.insert(k, v.encode_spec()), k2) == read_as::<U>(m, k2),
{
    T::lemma_decode_encode(v);
}

impl Store {
    pub fn memory() -> (s: Store)
        ensures
            s@ == Map::<Key, Seq<u8>>::empty(),
    {
        let s = Store::Memory(BTreeMap::new());
        assert(s@ =~= Map::<Key, Seq<u8>>::empty());
        s
    }

    pub fn get<T: StoreCodec>(&self, key: Key) -> (r: Option<T>)
        ensures
            r == read_as::<T>(self@, key),
    {
        match self {
            Store::Memory(m) => {
                match m.get(&key) {
                    Some(item) => T::decode(item.as_bytes()),
                    None => None,
                }
            },
        }
    }

    pub fn contains_key(&self, key: Key) -> (r: bool)
        ensures
            r == self@.contains_key(key),
    {
        match self {
            Store::Memory(m) => m.contains_key(&key),
        }
    }

    pub fn put<T: StoreCodec>(&mut self, key: Key, value: T)
        ensures
            final(self)@ == old(self)@.insert(key, value.encode_spec()),
    {
        let bytes = value.encode();
        match self {
            Store::Memory(m) => {
                m.insert(key, StoreItem(bytes));
            },
        }
        assert(self@ =~= old(self)@.insert(key, value.encode_spec()));
    }

    /// Replaces the value under `key` by `f` applied to what it holds (or to
    /// `default`, see `upsert_input`).
    pub fn upsert<T: StoreCodec, F: FnOnce(T) -> T>(&mut self, key: Key, default: T, f: F)
        requires
            f.requires((upsert_input(old(self)@, key, default),)),
        ensures
            exists|n: T|
                #![trigger f.ensures((upsert_input(old(self)@, key, default),), n)]
                f.ensures((upsert_input(old(self)@, key, default),), n) && final(self)@ == old(
                    self,
                )@.insert(key, n.encode_spec()),
    {
        let current = match self.get::<T>(key) {
            Some(v) => v,
            None => default,
        };
        let n = f(current);
        self.put(key, n);
    }

    /// Every entry of the store, in increasing key order.
    pub fn iter(&self) -> (r: Vec<(Key, StoreItem)>)
        ensures
            r@.len() == self@.dom().len(),
            forall|i: int|
                0 <= i < r@.len() ==> self@.contains_key(#[trigger] r@[i].0) && self@[r@[i].0]
                    == r@[i].1.0@,
            forall|k: Key| #[trigger]
                self@.contains_key(k) ==> exists|i: int| 0 <= i < r@.len() && #[trigger] r@[i].0 == k,
            forall|i: int, j: int| 0 <= i < j < r@.len() ==> #[trigger] r@[i].0 < #[trigger] r@[j].0,
    {
        match self {
            Store::Memory(m) => {
                let mut out: Vec<(Key, StoreItem)> = Vec::new();
                let ghost entries = vstd::std_specs::iter::IteratorSpec::remaining(
                    &vstd::std_specs::btree::spec_btree_map_iter(m),
                );
                let iter = m.iter();
                for kv in it: iter
                    invariant
                        it.seq() == entries,
                        out@.len() == it.index(),
                        forall|i: int|
                            0 <= i < out@.len() ==> #[trigger] key_at(out@, i) == *entries[i].0,
                        forall|i: int|
                            0 <= i < out@.len() ==> #[trigger] bytes_at(out@, i) == entries[i].1.0@,
                {
                    assert(kv == entries[it.index()]);
                    let (k, v) = kv;
                    let bytes = v.0.clone();
                    assert(bytes@ =~= v.0@);
                    let ghost old_out = out@;
                    out.push((*k, StoreItem(bytes)));
                    assert forall|i: int| 0 <= i < out@.len() implies #[trigger] key_at(out@, i)
                        == *entries[i].0 by {
                        if i < old_out.len() {
                            assert(key_at(old_out, i) == *entries[i].0);
                        }
                    }
                    assert forall|i: int| 0 <= i < out@.len() implies #[trigger] bytes_at(out@, i)
                        == entries[i].1.0@ by {
                        if i < old_out.len() {
                            assert(bytes_at(old_out, i) == entries[i].1.0@);
                        }
                    }
                }
                assert(self@.dom() =~= m@.dom());
                assert forall|i: int| 0 <= i < out@.len() implies self@.contains_key(
                    #[trigger] out@[i].0,
                ) && self@[out@[i].0] == out@[i].1.0@ by {
                    assert(key_at(out@, i) == *entries[i].0);
                    assert(bytes_at(out@, i) == entries[i].1.0@);
                    assert(m@.contains_key(*entries[i].0));
                    assert(m@[*entries[i].0] == *entries[i].1);
                }
                assert forall|i: int, j: int| 0 <= i < j < out@.len() implies #[trigger] out@[i].0
                    < #[trigger] out@[j].0 by {
                    let ks = entries.map_values(|kv: (&Key, &StoreItem)| *kv.0);
                    assert(vstd::std_specs::cmp::OrdSpec::cmp_spec(&ks[i], &ks[j]) is Less);
                    assert(key_at(out@, i) == *entries[i].0);
                    assert(key_at(out@, j) == *entries[j].0);
                }
                assert forall|k: Key| #[trigger] self@.contains_key(k) implies exists|i: int|
                    0 <= i < out@.len() && #[trigger] out@[i].0 == k by {
                    assert(entries.contains((&k, &m@[k])));
                    let j = choose|j: int| 0 <= j < entries.len() && entries[j] == (&k, &m@[k]);
                    assert(key_at(out@, j) == k);
                }
                out
            },
        }
    }
}

} // verus!
