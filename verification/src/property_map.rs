//! Property maps: per-element storage of typed layout properties, kept in
//! insertion order.

use vstd::prelude::*;
use indexmap::IndexMap;
use crate::properties::{index_of, str_eq};
use std::rc::Rc;
use crate::compound::{same_segments, CrossHierarchyMap};
use crate::index_map::segment_entries;
use crate::index_map::{find_key, property_entries, entries_new, entries_len, entries_insert, entries_get, entries_contains_key, entries_shift_remove, entries_get_index};

verus! {

/// A property value as a map stores it: plain values, variants and variant
/// sets tagged with the enum they belong to, and cross-hierarchy maps, held
/// by shared pointer (a copy of the value points to the same map, which no
/// operation changes once it is stored).
pub enum StoredValue {
    Bool(bool),
    Int(i32),
    Text(String),
    Variant { kind: u32, ordinal: u32 },
    VariantSet { kind: u32, bits: u64 },
    CrossHierarchy(Rc<CrossHierarchyMap>),
}

/// Two stored values are equal, texts by their characters.
pub open spec fn same_value(x: StoredValue, y: StoredValue) -> bool {
    match (x, y) {
        (StoredValue::Text(a), StoredValue::Text(b)) => a@ == b@,
        (StoredValue::CrossHierarchy(a), StoredValue::CrossHierarchy(b)) => same_segments(
            segment_entries(a.0),
            segment_entries(b.0),
        ),
        _ => x == y,
    }
}

/// `Rc::clone`: another pointer to the same allocation, so the same value.
#[verifier::external_body]
fn share<T>(p: &Rc<T>) -> (r: Rc<T>)
    ensures
        r == *p,
{
    Rc::clone(p)
}

impl StoredValue {
    /// Whether two stored values are equal (texts by their characters).
    pub fn same_as(&self, other: &StoredValue) -> (r: bool)
        ensures
            r == same_value(*self, *other),
    {
        match (self, other) {
            (StoredValue::Bool(a), StoredValue::Bool(b)) => *a == *b,
            (StoredValue::Int(a), StoredValue::Int(b)) => *a == *b,
            (StoredValue::Text(a), StoredValue::Text(b)) => str_eq(a.as_str(), b.as_str()),
            (StoredValue::Variant { kind: k1, ordinal: o1 }, StoredValue::Variant { kind: k2, ordinal: o2 }) => *k1
                == *k2 && *o1 == *o2,
            (StoredValue::VariantSet { kind: k1, bits: b1 }, StoredValue::VariantSet { kind: k2, bits: b2 }) => *k1
                == *k2 && *b1 == *b2,
            (StoredValue::CrossHierarchy(a), StoredValue::CrossHierarchy(b)) => a.equals(b),
            _ => false,
        }
    }

    /// A copy of the value.
    pub fn duplicate(&self) -> (r: StoredValue)
        ensures
            r == *self,
    {
        match self {
            StoredValue::Bool(b) => StoredValue::Bool(*b),
            StoredValue::Int(i) => StoredValue::Int(*i),
            StoredValue::Text(s) => StoredValue::Text(s.clone()),
            StoredValue::Variant { kind, ordinal } => StoredValue::Variant { kind: *kind, ordinal: *ordinal },
            StoredValue::VariantSet { kind, bits } => StoredValue::VariantSet { kind: *kind, bits: *bits },
            StoredValue::CrossHierarchy(m) => StoredValue::CrossHierarchy(share(m)),
        }
    }
}

/// A type whose values can be held in a property map.
pub trait PropValue: Sized {
    /// How a value is stored.
    spec fn stored_spec(&self) -> StoredValue;

    /// The value a stored entry holds, if it holds one of this type.
    spec fn decoded_spec(v: StoredValue) -> Option<Self>;

    /// Values that exist at run time (enum sets hold only variant bits).
    spec fn value_ok(&self) -> bool;

    /// The value of this type that a read of an unset property without a
    /// default falls back to.
    spec fn is_default(x: Self) -> bool;

    /// Storing a value and reading it back gives the value.
    proof fn lemma_round_trip(x: Self)
        requires
            x.value_ok(),
        ensures
            Self::decoded_spec(x.stored_spec()) == Some(x),
    ;

    fn to_stored(&self) -> (r: StoredValue)
        ensures
            r == self.stored_spec(),
            self.value_ok(),
    ;

    fn from_stored(v: &StoredValue) -> (r: Option<Self>)
        ensures
            r == Self::decoded_spec(*v),
            r matches Some(x) ==> x.value_ok(),
    ;

    fn copy_value(&self) -> (r: Self)
        ensures
            r == *self,
    ;

    fn default_value() -> (r: Self)
        ensures
            Self::is_default(r),
            r.value_ok(),
    ;
}

impl PropValue for bool {
    open spec fn stored_spec(&self) -> StoredValue {
        StoredValue::Bool(*self)
    }

    open spec fn decoded_spec(v: StoredValue) -> Option<Self> {
        match v {
            StoredValue::Bool(b) => Some(b),
            _ => None,
        }
    }

    open spec fn value_ok(&self) -> bool {
        true
    }

    open spec fn is_default(x: Self) -> bool {
        !x
    }

    proof fn lemma_round_trip(x: Self) {
    }

    fn to_stored(&self) -> (r: StoredValue) {
        StoredValue::Bool(*self)
    }

    fn from_stored(v: &StoredValue) -> (r: Option<Self>) {
        match v {
            StoredValue::Bool(b) => Some(*b),
            _ => None,
        }
    }

    fn copy_value(&self) -> (r: Self) {
        *self
    }

    fn default_value() -> (r: Self) {
        false
    }
}

impl PropValue for i32 {
    open spec fn stored_spec(&self) -> StoredValue {
        StoredValue::Int(*self)
    }

    open spec fn decoded_spec(v: StoredValue) -> Option<Self> {
        match v {
            StoredValue::Int(i) => Some(i),
            _ => None,
        }
    }

    open spec fn value_ok(&self) -> bool {
        true
    }

    open spec fn is_default(x: Self) -> bool {
        x == 0
    }

    proof fn lemma_round_trip(x: Self) {
    }

    fn to_stored(&self) -> (r: StoredValue) {
        StoredValue::Int(*self)
    }

    fn from_stored(v: &StoredValue) -> (r: Option<Self>) {
        match v {
            StoredValue::Int(i) => Some(*i),
            _ => None,
        }
    }

    fn copy_value(&self) -> (r: Self) {
        *self
    }

    fn default_value() -> (r: Self) {
        0
    }
}

impl PropValue for String {
    open spec fn stored_spec(&self) -> StoredValue {
        StoredValue::Text(*self)
    }

    open spec fn decoded_spec(v: StoredValue) -> Option<Self> {
        match v {
            StoredValue::Text(s) => Some(s),
            _ => None,
        }
    }

    open spec fn value_ok(&self) -> bool {
        true
    }

    open spec fn is_default(x: Self) -> bool {
        x@ == Seq::<char>::empty()
    }

    proof fn lemma_round_trip(x: Self) {
    }

    fn to_stored(&self) -> (r: StoredValue) {
        StoredValue::Text(self.clone())
    }

    fn from_stored(v: &StoredValue) -> (r: Option<Self>) {
        match v {
            StoredValue::Text(s) => Some(s.clone()),
            _ => None,
        }
    }

    fn copy_value(&self) -> (r: Self) {
        self.clone()
    }

    fn default_value() -> (r: Self) {
        String::new()
    }
}

} // verus!

verus! {

/// Typed handle to a property: its id and its default and bounds.
pub struct Property<T> {
    pub id: &'static str,
    pub default: Option<T>,
    pub lower_bound: Option<T>,
    pub upper_bound: Option<T>,
}

impl<T> Property<T> {
    /// A property without default.
    pub fn new(id: &'static str) -> (r: Self)
        ensures
            r.id@ == id@,
            r.default is None,
            r.lower_bound is None,
            r.upper_bound is None,
    {
        Property { id, default: None, lower_bound: None, upper_bound: None }
    }

    /// A property with a default value.
    pub fn with_default(id: &'static str, default: T) -> (r: Self)
        ensures
            r.id@ == id@,
            r.default == Some(default),
            r.lower_bound is None,
            r.upper_bound is None,
    {
        Property { id, default: Some(default), lower_bound: None, upper_bound: None }
    }

    /// A property with a default value and optional bounds.
    pub fn with_bounds(id: &'static str, default: T, lower: Option<T>, upper: Option<T>) -> (r: Self)
        ensures
            r.id@ == id@,
            r.default == Some(default),
            r.lower_bound == lower,
            r.upper_bound == upper,
    {
        Property { id, default: Some(default), lower_bound: lower, upper_bound: upper }
    }
}

impl<T: PropValue> Property<T> {
    /// A copy of the default value, if the property has one.
    pub fn get_default(&self) -> (r: Option<T>)
        ensures
            r == self.default,
    {
        match &self.default {
            Some(d) => Some(d.copy_value()),
            None => None,
        }
    }
}

/// No two entries share a key.
pub open spec fn keys_unique(e: Seq<(Seq<char>, StoredValue)>) -> bool {
    forall|i: int, j: int| 0 <= i < j < e.len() ==> (#[trigger] e[i]).0 != (#[trigger] e[j]).0
}

/// The value stored under a key, if any.
pub open spec fn lookup(e: Seq<(Seq<char>, StoredValue)>, key: Seq<char>) -> Option<StoredValue> {
    match find_key(e, key) {
        Some(i) => Some(e[i].1),
        None => None,
    }
}

/// The value of type `T` stored under a key, if one of that type is stored.
pub open spec fn read<T: PropValue>(e: Seq<(Seq<char>, StoredValue)>, key: Seq<char>) -> Option<T> {
    match lookup(e, key) {
        Some(v) => T::decoded_spec(v),
        None => None,
    }
}

/// Entries after storing `v` under `key`: a present key keeps its place, an
/// absent one is appended.
pub open spec fn put(e: Seq<(Seq<char>, StoredValue)>, key: Seq<char>, v: StoredValue) -> Seq<(Seq<char>, StoredValue)> {
    match find_key(e, key) {
        Some(i) => e.update(i, (key, v)),
        None => e.push((key, v)),
    }
}

/// Entries after removing `key`, the later entries keeping their order.
pub open spec fn erase(e: Seq<(Seq<char>, StoredValue)>, key: Seq<char>) -> Seq<(Seq<char>, StoredValue)> {
    match find_key(e, key) {
        Some(i) => e.remove(i),
        None => e,
    }
}

/// Entries after storing every entry of `src`, in order.
pub open spec fn put_all(e: Seq<(Seq<char>, StoredValue)>, src: Seq<(Seq<char>, StoredValue)>) -> Seq<(Seq<char>, StoredValue)>
    decreases src.len(),
{
    if src.len() == 0 {
        e
    } else {
        let last = src.last();
        put(put_all(e, src.drop_last()), last.0, last.1)
    }
}

/// What `find_key` finds: the first entry with the key.
pub proof fn lemma_find_key(e: Seq<(Seq<char>, StoredValue)>, key: Seq<char>)
    ensures
        find_key(e, key) matches Some(i) ==> 0 <= i < e.len() && e[i].0 == key && forall|j: int|
            0 <= j < i ==> (#[trigger] e[j]).0 != key,
        find_key(e, key) is None ==> forall|j: int| 0 <= j < e.len() ==> (#[trigger] e[j]).0 != key,
    decreases e.len(),
{
    if e.len() > 0 {
        lemma_find_key(e.drop_first(), key);
        if e[0].0 != key {
            assert forall|j: int| 0 < j < e.len() implies e[j] == e.drop_first()[j - 1] by {}
        }
    }
}

/// With unique keys, `find_key` finds exactly the entry with the key.
pub proof fn lemma_find_unique(e: Seq<(Seq<char>, StoredValue)>, key: Seq<char>, i: int)
    requires
        keys_unique(e),
        0 <= i < e.len(),
        e[i].0 == key,
    ensures
        find_key(e, key) == Some(i),
{
    lemma_find_key(e, key);
    if let Some(j) = find_key(e, key) {
        if j != i {
            if j < i {
                assert(e[j].0 != e[i].0);
            }
        }
    }
}

/// Absent keys are found nowhere; unique keys are found where they are.
proof fn lemma_lookup_at(e: Seq<(Seq<char>, StoredValue)>, key: Seq<char>)
    requires
        keys_unique(e),
    ensures
        (exists|i: int| 0 <= i < e.len() && e[i].0 == key) ==> lookup(e, key) == Some(
            e[choose|i: int| 0 <= i < e.len() && e[i].0 == key].1,
        ),
        !(exists|i: int| 0 <= i < e.len() && e[i].0 == key) ==> lookup(e, key) is None,
{
    lemma_find_key(e, key);
    if exists|i: int| 0 <= i < e.len() && e[i].0 == key {
        let i = choose|i: int| 0 <= i < e.len() && e[i].0 == key;
        lemma_find_unique(e, key, i);
    }
}

/// Storing under a key: keys stay unique, the key reads back the value,
/// every other key reads as before, and the map grows only by a new key.
pub proof fn lemma_put(e: Seq<(Seq<char>, StoredValue)>, key: Seq<char>, v: StoredValue)
    requires
        keys_unique(e),
    ensures
        keys_unique(put(e, key, v)),
        lookup(put(e, key, v), key) == Some(v),
        forall|k2: Seq<char>| k2 != key ==> lookup(put(e, key, v), k2) == #[trigger] lookup(e, k2),
        put(e, key, v).len() == if lookup(e, key) is Some { e.len() } else { e.len() + 1 },
{
    lemma_find_key(e, key);
    let f = put(e, key, v);
    match find_key(e, key) {
        Some(i) => {
            assert(keys_unique(f));
        },
        None => {
            assert(keys_unique(f));
        },
    }
    lemma_lookup_at(f, key);
    assert(exists|i: int| 0 <= i < f.len() && f[i].0 == key) by {
        match find_key(e, key) {
            Some(i) => assert(f[i].0 == key),
            None => assert(f[e.len() as int].0 == key),
        }
    }
    assert forall|k2: Seq<char>| k2 != key implies lookup(f, k2) == #[trigger] lookup(e, k2) by {
        lemma_lookup_at(e, k2);
        lemma_lookup_at(f, k2);
        if exists|i: int| 0 <= i < e.len() && e[i].0 == k2 {
            let i = choose|i: int| 0 <= i < e.len() && e[i].0 == k2;
            assert(f[i] == e[i]);
            let j = choose|j: int| 0 <= j < f.len() && f[j].0 == k2;
            if j != i {
                if j < i {
                    assert(f[j].0 != f[i].0);
                } else {
                    assert(f[i].0 != f[j].0);
                }
            }
        } else {
            assert forall|j: int| 0 <= j < f.len() implies f[j].0 != k2 by {
                if j < e.len() && f[j] != (key, v) {
                    assert(f[j] == e[j]);
                }
            }
        }
    }
}

/// Removing a key: keys stay unique, the key reads as absent, every other
/// key reads as before, and the later entries keep their order.
pub proof fn lemma_erase(e: Seq<(Seq<char>, StoredValue)>, key: Seq<char>)
    requires
        keys_unique(e),
    ensures
        keys_unique(erase(e, key)),
        lookup(erase(e, key), key) is None,
        forall|k2: Seq<char>| k2 != key ==> lookup(erase(e, key), k2) == #[trigger] lookup(e, k2),
        erase(e, key).len() == if lookup(e, key) is Some { e.len() - 1 } else { e.len() as int },
{
    lemma_find_key(e, key);
    let f = erase(e, key);
    match find_key(e, key) {
        Some(i) => {
            assert forall|a: int, b: int| 0 <= a < b < f.len() implies (#[trigger] f[a]).0 != (#[trigger] f[b]).0 by {
                let a0 = if a < i { a } else { a + 1 };
                let b0 = if b < i { b } else { b + 1 };
                assert(f[a] == e[a0]);
                assert(f[b] == e[b0]);
            }
            assert forall|j: int| 0 <= j < f.len() implies f[j].0 != key by {
                let j0 = if j < i { j } else { j + 1 };
                assert(f[j] == e[j0]);
                if j0 != i {
                    if j0 < i {
                        assert(e[j0].0 != e[i].0);
                    } else {
                        assert(e[i].0 != e[j0].0);
                    }
                }
            }
        },
        None => {},
    }
    lemma_lookup_at(f, key);
    assert forall|k2: Seq<char>| k2 != key implies lookup(f, k2) == #[trigger] lookup(e, k2) by {
        lemma_lookup_at(e, k2);
        lemma_lookup_at(f, k2);
        match find_key(e, key) {
            Some(i) => {
                if exists|j: int| 0 <= j < e.len() && e[j].0 == k2 {
                    let j = choose|j: int| 0 <= j < e.len() && e[j].0 == k2;
                    assert(j != i);
                    let j1 = if j < i { j } else { j - 1 };
                    assert(f[j1] == e[j]);
                    let m = choose|m: int| 0 <= m < f.len() && f[m].0 == k2;
                    if m != j1 {
                        if m < j1 {
                            assert(f[m].0 != f[j1].0);
                        } else {
                            assert(f[j1].0 != f[m].0);
                        }
                    }
                } else {
                    assert forall|m: int| 0 <= m < f.len() implies f[m].0 != k2 by {
                        let m0 = if m < i { m } else { m + 1 };
                        assert(f[m] == e[m0]);
                    }
                }
            },
            None => {},
        }
    }
}

/// What a typed read gives back of a write: after storing a value under a
/// key, reading that key as the value's type gives the value; after removing
/// the key, the read gives nothing; other keys read as before.
pub proof fn lemma_read_after_write<T: PropValue>(e: Seq<(Seq<char>, StoredValue)>, key: Seq<char>, v: T, other: Seq<char>)
    requires
        keys_unique(e),
        v.value_ok(),
        other != key,
    ensures
        read::<T>(put(e, key, v.stored_spec()), key) == Some(v),
        read::<T>(erase(e, key), key) is None,
        read::<T>(put(e, key, v.stored_spec()), other) == read::<T>(e, other),
        read::<T>(erase(e, key), other) == read::<T>(e, other),
{
    lemma_put(e, key, v.stored_spec());
    lemma_erase(e, key);
    T::lemma_round_trip(v);
    assert(lookup(put(e, key, v.stored_spec()), other) == lookup(e, other));
    assert(lookup(erase(e, key), other) == lookup(e, other));
}

/// Storing all entries of a map with unique keys: keys stay unique, every key
/// of the source reads as in the source, every other key as before.
pub proof fn lemma_put_all(e: Seq<(Seq<char>, StoredValue)>, src: Seq<(Seq<char>, StoredValue)>)
    requires
        keys_unique(e),
        keys_unique(src),
    ensures
        keys_unique(put_all(e, src)),
        forall|k: Seq<char>| #[trigger] lookup(src, k) is Some ==> lookup(put_all(e, src), k) == lookup(src, k),
        forall|k: Seq<char>| #[trigger] lookup(src, k) is None ==> lookup(put_all(e, src), k) == lookup(e, k),
    decreases src.len(),
{
    if src.len() > 0 {
        let init = src.drop_last();
        let last = src.last();
        assert(keys_unique(init));
        lemma_put_all(e, init);
        let mid = put_all(e, init);
        lemma_put(mid, last.0, last.1);
        lemma_find_key(init, last.0);
        assert forall|j: int| 0 <= j < init.len() implies init[j].0 != last.0 by {
            assert(src[j] == init[j]);
            assert(src[src.len() - 1] == last);
        }
        assert(lookup(init, last.0) is None) by {
            lemma_lookup_at(init, last.0);
        }
        assert(put(init, last.0, last.1) == src) by {
            assert(find_key(init, last.0) is None);
            assert(init.push(last) =~= src);
        }
        lemma_put(init, last.0, last.1);
        assert(put_all(e, src) == put(mid, last.0, last.1));
        assert forall|k: Seq<char>| #[trigger] lookup(src, k) is Some implies lookup(put_all(e, src), k) == lookup(src, k) by {
            if k != last.0 {
                assert(lookup(src, k) == lookup(init, k));
                assert(lookup(put(mid, last.0, last.1), k) == lookup(mid, k));
            }
        }
        assert forall|k: Seq<char>| #[trigger] lookup(src, k) is None implies lookup(put_all(e, src), k) == lookup(e, k) by {
            if k != last.0 {
                assert(lookup(src, k) == lookup(init, k));
                assert(lookup(put(mid, last.0, last.1), k) == lookup(mid, k));
            }
        }
    }
}

/// Two entry lists hold the same keys with equal values, in whatever order.
pub open spec fn same_entries(x: Seq<(Seq<char>, StoredValue)>, y: Seq<(Seq<char>, StoredValue)>) -> bool {
    &&& x.len() == y.len()
    &&& forall|i: int| 0 <= i < x.len() ==> (#[trigger] lookup(y, x[i].0) matches Some(v) && same_value(x[i].1, v))
}

/// Per-element property storage, kept in insertion order.
pub struct PropertyMap {
    map: IndexMap<String, StoredValue>,
}

impl View for PropertyMap {
    type V = Seq<(Seq<char>, StoredValue)>;

    /// The entries in insertion order.
    closed spec fn view(&self) -> Seq<(Seq<char>, StoredValue)> {
        property_entries(self.map)
    }
}

impl PropertyMap {
    #[verifier::type_invariant]
    closed spec fn unique_keys(self) -> bool {
        keys_unique(property_entries(self.map))
    }

    /// Moves the entries out, leaving this map empty.
    fn take_entries(&mut self) -> (r: IndexMap<String, StoredValue>)
        ensures
            property_entries(r) == old(self)@,
            final(self)@ == Seq::<(Seq<char>, StoredValue)>::empty(),
    {
        let mut m = entries_new();
        std::mem::swap(&mut m, &mut self.map);
        m
    }

    /// An empty map.
    pub fn new() -> (r: Self)
        ensures
            r@ == Seq::<(Seq<char>, StoredValue)>::empty(),
    {
        PropertyMap { map: entries_new() }
    }

    /// No two entries share a key.
    pub fn keys_are_unique(&self)
        ensures
            keys_unique(self@),
    {
        proof {
            use_type_invariant(self);
        }
    }

    pub fn len(&self) -> (r: usize)
        ensures
            r == self@.len(),
    {
        entries_len(&self.map)
    }

    pub fn is_empty(&self) -> (r: bool)
        ensures
            r == (self@.len() == 0),
    {
        entries_len(&self.map) == 0
    }

    /// Whether a value is stored for the property.
    pub fn has<T>(&self, p: &Property<T>) -> (r: bool)
        ensures
            r == lookup(self@, p.id@) is Some,
    {
        entries_contains_key(&self.map, p.id)
    }

    /// Whether a value is stored under the option id.
    pub fn has_id(&self, id: &str) -> (r: bool)
        ensures
            r == lookup(self@, id@) is Some,
    {
        entries_contains_key(&self.map, id)
    }

    /// The stored value under the option id, whatever its type.
    pub fn get_by_id(&self, id: &str) -> (r: Option<&StoredValue>)
        ensures
            r == match lookup(self@, id@) {
                Some(v) => Some(&v),
                None => None,
            },
    {
        entries_get(&self.map, id)
    }

    /// Stores a value under the option id.
    pub fn set_by_id(&mut self, id: &str, value: StoredValue)
        ensures
            final(self)@ == put(old(self)@, id@, value),
    {
        proof {
            use_type_invariant(&*self);
            lemma_put(self@, id@, value);
        }
        let key = String::from_str(id);
        let mut m = self.take_entries();
        let _ = entries_insert(&mut m, key, value);
        self.map = m;
    }

    /// The stored value of the property's type, if one is stored.
    pub fn try_get<T: PropValue>(&self, p: &Property<T>) -> (r: Option<T>)
        ensures
            r == read::<T>(self@, p.id@),
    {
        match entries_get(&self.map, p.id) {
            Some(v) => T::from_stored(v),
            None => None,
        }
    }

    /// The stored value, else the property's default.
    pub fn get_opt<T: PropValue>(&self, p: &Property<T>) -> (r: Option<T>)
        ensures
            r == match read::<T>(self@, p.id@) {
                Some(x) => Some(x),
                None => p.default,
            },
    {
        match self.try_get(p) {
            Some(x) => Some(x),
            None => p.get_default(),
        }
    }

    /// The stored value, else the property's default, else the type's
    /// default.
    pub fn get<T: PropValue>(&self, p: &Property<T>) -> (r: T)
        ensures
            match read::<T>(self@, p.id@) {
                Some(x) => r == x,
                None => match p.default {
                    Some(d) => r == d,
                    None => T::is_default(r),
                },
            },
    {
        match self.get_opt(p) {
            Some(x) => x,
            None => T::default_value(),
        }
    }

    /// Stores the default (the property's, else the type's) if nothing is
    /// stored, and returns the value now stored.
    pub fn get_or_insert_default<T: PropValue>(&mut self, p: &Property<T>) -> (r: T)
        requires
            lookup(old(self)@, p.id@) matches Some(v) ==> T::decoded_spec(v) is Some,
        ensures
            lookup(old(self)@, p.id@) is Some ==> final(self)@ == old(self)@ && Some(r) == read::<T>(old(self)@, p.id@),
            lookup(old(self)@, p.id@) is None ==> final(self)@ == old(self)@.push((p.id@, r.stored_spec())),
            lookup(old(self)@, p.id@) is None ==> match p.default {
                Some(d) => r == d,
                None => T::is_default(r),
            },
    {
        proof {
            use_type_invariant(&*self);
        }
        if !entries_contains_key(&self.map, p.id) {
            let v: T = match p.get_default() {
                Some(d) => d,
                None => T::default_value(),
            };
            let stored = v.to_stored();
            proof {
                lemma_put(self@, p.id@, stored);
            }
            let key = String::from_str(p.id);
            let mut m = self.take_entries();
            let _ = entries_insert(&mut m, key, stored);
            self.map = m;
            return v;
        }
        match entries_get(&self.map, p.id) {
            Some(v) => T::from_stored(v).unwrap(),
            None => T::default_value(),
        }
    }

    /// Stores a value for the property.
    pub fn set<T: PropValue>(&mut self, p: &Property<T>, value: T)
        ensures
            final(self)@ == put(old(self)@, p.id@, value.stored_spec()),
            read::<T>(final(self)@, p.id@) == Some(value),
    {
        proof {
            use_type_invariant(&*self);
        }
        let stored = value.to_stored();
        proof {
            lemma_put(self@, p.id@, stored);
            T::lemma_round_trip(value);
        }
        let key = String::from_str(p.id);
        let mut m = self.take_entries();
        let _ = entries_insert(&mut m, key, stored);
        self.map = m;
    }

    /// Removes the property's value.
    pub fn unset<T>(&mut self, p: &Property<T>)
        ensures
            final(self)@ == erase(old(self)@, p.id@),
    {
        proof {
            use_type_invariant(&*self);
            lemma_erase(self@, p.id@);
        }
        let mut m = self.take_entries();
        let _ = entries_shift_remove(&mut m, p.id);
        self.map = m;
    }

    /// Every entry of `other` is stored here, in `other`'s order,
    /// overwriting ours.
    pub fn copy_from(&mut self, other: &PropertyMap)
        ensures
            final(self)@ == put_all(old(self)@, other@),
    {
        proof {
            use_type_invariant(&*self);
            use_type_invariant(other);
        }
        let n = entries_len(&other.map);
        let mut i: usize = 0;
        while i < n
            invariant
                n == other@.len(),
                i <= n,
                keys_unique(self@),
                self@ == put_all(old(self)@, other@.take(index_of(i))),
            decreases n - i,
        {
            let entry = entries_get_index(&other.map, i);
            let (k, v) = entry.unwrap();
            let key = k.clone();
            let value = v.duplicate();
            proof {
                let t = other@.take(index_of(i) + 1);
                assert(t.drop_last() =~= other@.take(index_of(i)));
                assert(t.last() == other@[index_of(i)]);
                lemma_put(self@, key@, value);
            }
            let mut m = self.take_entries();
            let _ = entries_insert(&mut m, key, value);
            self.map = m;
            i = i + 1;
        }
        proof {
            assert(other@.take(index_of(n)) =~= other@);
        }
    }

    /// The entries in insertion order.
    pub fn iter(&self) -> (r: Vec<(String, StoredValue)>)
        ensures
            r@.len() == self@.len(),
            forall|i: int| 0 <= i < r@.len() ==> (#[trigger] r@[i]).0@ == self@[i].0 && r@[i].1 == self@[i].1,
    {
        let n = entries_len(&self.map);
        let mut out: Vec<(String, StoredValue)> = Vec::new();
        let mut i: usize = 0;
        while i < n
            invariant
                n == self@.len(),
                i <= n,
                out@.len() == i,
                forall|j: int| 0 <= j < out@.len() ==> (#[trigger] out@[j]).0@ == self@[j].0 && out@[j].1 == self@[j].1,
            decreases n - i,
        {
            let entry = entries_get_index(&self.map, i);
            let (k, v) = entry.unwrap();
            out.push((k.clone(), v.duplicate()));
            i = i + 1;
        }
        out
    }
}

impl PartialEq for PropertyMap {
    /// Two maps are equal when they hold the same keys with equal values,
    /// whatever the order of their entries.
    fn eq(&self, other: &Self) -> (r: bool) {
        let n = entries_len(&self.map);
        if n != entries_len(&other.map) {
            return false;
        }
        let mut i: usize = 0;
        while i < n
            invariant
                n == self@.len(),
                n == other@.len(),
                i <= n,
                forall|j: int| 0 <= j < i ==> (#[trigger] lookup(other@, self@[j].0) matches Some(v) && same_value(self@[j].1, v)),
            decreases n - i,
        {
            let entry = entries_get_index(&self.map, i);
            let (k, v) = entry.unwrap();
            let found = entries_get(&other.map, k.as_str());
            proof {
                assert(k@ == self@[i as int].0);
                assert(found == match lookup(other@, self@[i as int].0) {
                    Some(w) => Some(&w),
                    None => None,
                }) by {
                    if let Some(j) = find_key(other@, k@) {
                        assert(lookup(other@, k@) == Some(other@[j].1));
                    }
                }
            }
            match found {
                Some(o) => {
                    if !v.same_as(o) {
                        proof {
                            assert(!(lookup(other@, self@[i as int].0) matches Some(w) && same_value(self@[i as int].1, w)));
                        }
                        return false;
                    }
                },
                None => {
                    proof {
                        assert(lookup(other@, self@[i as int].0) is None);
                    }
                    return false;
                },
            }
            i = i + 1;
        }
        true
    }
}

impl vstd::std_specs::cmp::PartialEqSpecImpl for PropertyMap {
    open spec fn obeys_eq_spec() -> bool {
        true
    }

    open spec fn eq_spec(&self, other: &Self) -> bool {
        same_entries(self@, other@)
    }
}

/// An element that holds properties (every graph element does).
pub trait PropertyHolder: Sized {
    /// The element's property map.
    spec fn held(&self) -> PropertyMap;

    /// The element with another property map, all else the same.
    spec fn with_held(&self, m: PropertyMap) -> Self;

    /// The element with another property map holds that map.
    proof fn lemma_held_with(&self)
        ensures
            forall|m: PropertyMap| #[trigger] self.with_held(m).held() == m,
    ;

    fn properties(&self) -> (r: &PropertyMap)
        ensures
            *r == self.held(),
    ;

    /// The property map, to change in place.
    fn properties_mut(&mut self) -> (r: &mut PropertyMap)
        ensures
            *r == old(self).held(),
            *final(self) == old(self).with_held(*final(r)),
    ;

    /// The stored value, else the property's default, else the type's.
    fn get_property<T: PropValue>(&self, p: &Property<T>) -> (r: T)
        ensures
            match read::<T>(self.held()@, p.id@) {
                Some(x) => r == x,
                None => match p.default {
                    Some(d) => r == d,
                    None => T::is_default(r),
                },
            },
    {
        self.properties().get(p)
    }

    /// Stores a value for the property.
    fn set_property<T: PropValue>(&mut self, p: &Property<T>, value: T)
        ensures
            ({
                let m = final(self).held();
                &&& *final(self) == old(self).with_held(m)
                &&& m@ == put(old(self).held()@, p.id@, value.stored_spec())
            }),
    {
        let ghost s0 = *self;
        proof {
            s0.lemma_held_with();
        }
        self.properties_mut().set(p, value);
    }

    /// Whether a value is stored for the property.
    fn has_property<T>(&self, p: &Property<T>) -> (r: bool)
        ensures
            r == lookup(self.held()@, p.id@) is Some,
    {
        self.properties().has(p)
    }

    /// Stores every property of `other` here, overwriting ours.
    fn copy_properties_from(&mut self, other: &PropertyMap)
        ensures
            ({
                let m = final(self).held();
                &&& *final(self) == old(self).with_held(m)
                &&& m@ == put_all(old(self).held()@, other@)
            }),
    {
        let ghost s0 = *self;
        proof {
            s0.lemma_held_with();
        }
        self.properties_mut().copy_from(other);
    }
}

/// Two stored values that are neither texts nor cross-hierarchy maps count
/// as equal only when they are the same value: the same flag, number, enum
/// variant (same enum, same ordinal) or set of variants.
pub proof fn lemma_same_value_plain(a: StoredValue, b: StoredValue)
    requires
        same_value(a, b),
        !(a is Text),
        !(a is CrossHierarchy),
    ensures
        a == b,
{
}

/// Equal property maps hold the same value under every key whose value is
/// neither a text nor a cross-hierarchy map: maps that store different enum
/// variants (or numbers, flags, sets) under a key are not equal.
pub proof fn lemma_equal_maps_agree(x: Seq<(Seq<char>, StoredValue)>, y: Seq<(Seq<char>, StoredValue)>, key: Seq<char>)
    requires
        same_entries(x, y),
        lookup(x, key) matches Some(v) && !(v is Text) && !(v is CrossHierarchy),
    ensures
        lookup(y, key) == lookup(x, key),
{
    lemma_find_key(x, key);
    lemma_find_key(y, key);
    let i = find_key(x, key).unwrap();
    assert(x[i].0 == key);
    let j = find_key(y, key).unwrap();
    lemma_same_value_plain(x[i].1, y[j].1);
}

} // verus!
