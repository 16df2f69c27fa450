//! Typed property system: Java-style enums, enum sets and property maps.

use vstd::prelude::*;
use crate::property_map::{PropValue, StoredValue};

verus! {

/// A machine index as a natural number.
pub open spec fn index_nat(i: usize) -> nat {
    i as nat
}

/// A machine index as a mathematical integer.
pub open spec fn index_of(i: usize) -> int {
    i as int
}

/// Compares two string slices by their characters.
pub fn str_eq(a: &str, b: &str) -> (r: bool)
    ensures
        r == (a@ == b@),
{
    let x = a.to_owned();
    let y = b.to_owned();
    x == y
}

/// A Java-style enumeration: a finite list of variants, each with an
/// ordinal (its position in the declaration) and a name.
pub trait ElkEnum: Sized + Copy {
    /// Number of variants.
    spec fn spec_count() -> nat;

    /// Position of the variant in the declaration.
    spec fn spec_ordinal(self) -> nat;

    /// Name of the variant, as Java's `name()` gives it.
    spec fn spec_name(self) -> Seq<char>;

    /// Tag that tells this enum's values apart from other enums' values in a
    /// property map.
    spec fn spec_kind() -> u32;

    fn kind() -> (r: u32)
        ensures
            r == Self::spec_kind(),
    ;

    /// The variant with the given ordinal (meaningful below the count).
    spec fn spec_from_ordinal(i: nat) -> Self;

    /// Ordinals lie below the variant count, which fits a 64-bit set.
    proof fn lemma_ordinal_bound(v: Self)
        ensures
            v.spec_ordinal() < Self::spec_count(),
            Self::spec_count() <= 64,
    ;

    /// Every ordinal below the count belongs to a variant.
    proof fn lemma_from_ordinal(i: nat)
        ensures
            i < Self::spec_count() ==> Self::spec_from_ordinal(i).spec_ordinal() == i,
    ;

    /// Distinct variants have distinct ordinals and distinct names.
    proof fn lemma_distinct(a: Self, b: Self)
        ensures
            a.spec_ordinal() == b.spec_ordinal() ==> a == b,
            a.spec_name() == b.spec_name() ==> a == b,
    ;

    fn ordinal(&self) -> (r: usize)
        ensures
            r == self.spec_ordinal(),
    ;

    /// All variants in declaration order (Java's `values()`).
    fn values() -> (r: Vec<Self>)
        ensures
            r@.len() == Self::spec_count(),
            forall|i: int| 0 <= i < r@.len() ==> (#[trigger] r@[i]).spec_ordinal() == i,
    ;

    fn name(&self) -> (r: &'static str)
        ensures
            r@ == self.spec_name(),
    ;

    /// Java's `valueOf`: the variant with the given name, if any.
    fn from_name(s: &str) -> (r: Option<Self>)
        ensures
            r matches Some(v) ==> v.spec_name() == s@,
            r is None ==> forall|v: Self| #[trigger] v.spec_name() != s@,
    ;
}

} // verus!

verus! {

/// Whether bit `i` of `bits` is set.
pub open spec fn bit_set(bits: u64, i: nat) -> bool {
    i < 64 && (bits >> (i as u64)) & 1u64 == 1u64
}

proof fn lemma_bit_or(b: u64, i: u64, j: u64)
    requires
        i < 64,
        j < 64,
    ensures
        ((b | (1u64 << i)) >> j) & 1u64 == 1u64 <==> (j == i || (b >> j) & 1u64 == 1u64),
{
    assert(((b | (1u64 << i)) >> j) & 1u64 == 1u64 <==> (j == i || (b >> j) & 1u64 == 1u64))
        by (bit_vector)
        requires
            i < 64,
            j < 64,
    ;
}

proof fn lemma_bit_and_not(b: u64, i: u64, j: u64)
    requires
        i < 64,
        j < 64,
    ensures
        ((b & !(1u64 << i)) >> j) & 1u64 == 1u64 <==> (j != i && (b >> j) & 1u64 == 1u64),
{
    assert(((b & !(1u64 << i)) >> j) & 1u64 == 1u64 <==> (j != i && (b >> j) & 1u64 == 1u64))
        by (bit_vector)
        requires
            i < 64,
            j < 64,
    ;
}

proof fn lemma_bit_test(b: u64, i: u64)
    requires
        i < 64,
    ensures
        (b & (1u64 << i) != 0) <==> ((b >> i) & 1u64 == 1u64),
{
    assert((b & (1u64 << i) != 0) <==> ((b >> i) & 1u64 == 1u64)) by (bit_vector)
        requires
            i < 64,
    ;
}

proof fn lemma_bit_and(a: u64, o: u64, j: u64)
    requires
        j < 64,
    ensures
        ((a & o) >> j) & 1u64 == 1u64 <==> ((a >> j) & 1u64 == 1u64 && (o >> j) & 1u64 == 1u64),
{
    assert(((a & o) >> j) & 1u64 == 1u64 <==> ((a >> j) & 1u64 == 1u64 && (o >> j) & 1u64 == 1u64))
        by (bit_vector)
        requires
            j < 64,
    ;
}

proof fn lemma_bit_zero(j: u64)
    requires
        j < 64,
    ensures
        !((0u64 >> j) & 1u64 == 1u64),
{
    assert(!((0u64 >> j) & 1u64 == 1u64)) by (bit_vector)
        requires
            j < 64,
    ;
}

proof fn lemma_shift_step(x: u64, k: u64)
    requires
        1 <= k <= 64,
    ensures
        x >> ((k - 1) as u64) == ((x >> k) << 1u64) | ((x >> ((k - 1) as u64)) & 1u64),
{
    assert(x >> ((k - 1) as u64) == ((x >> k) << 1u64) | ((x >> ((k - 1) as u64)) & 1u64))
        by (bit_vector)
        requires
            1 <= k <= 64,
    ;
}

/// Equal high parts plus equal bits below them give equal words.
proof fn lemma_bits_extensional_from(x: u64, y: u64, k: u64)
    requires
        k <= 64,
        x >> k == y >> k,
        forall|j: nat| j < 64 ==> (bit_set(x, j) <==> bit_set(y, j)),
    ensures
        x == y,
    decreases k,
{
    if k == 0 {
        assert(x >> 0u64 == x) by (bit_vector);
        assert(y >> 0u64 == y) by (bit_vector);
    } else {
        lemma_shift_step(x, k);
        lemma_shift_step(y, k);
        assert(bit_set(x, (k - 1) as nat) <==> bit_set(y, (k - 1) as nat));
        let km = (k - 1) as u64;
        assert((x >> km) & 1u64 == (y >> km) & 1u64) by (bit_vector)
            requires
                ((x >> km) & 1u64 == 1u64) <==> ((y >> km) & 1u64 == 1u64),
        ;
        lemma_bits_extensional_from(x, y, km);
    }
}

/// Two 64-bit words with the same bits are equal.
proof fn lemma_bits_extensional(x: u64, y: u64)
    requires
        forall|j: nat| j < 64 ==> (bit_set(x, j) <==> bit_set(y, j)),
    ensures
        x == y,
{
    assert(x >> 64u64 == 0u64) by (bit_vector);
    assert(y >> 64u64 == 0u64) by (bit_vector);
    lemma_bits_extensional_from(x, y, 64);
}

} // verus!

verus! {

/// The variants with ordinals below `n`, in ordinal order.
pub open spec fn ordinal_prefix<T: ElkEnum>(n: nat) -> Seq<T> {
    Seq::new(n, |k: int| T::spec_from_ordinal(k as nat))
}

/// The members of a set of variants in ordinal order.
pub open spec fn ordered_members<T: ElkEnum>(s: Set<T>) -> Seq<T> {
    ordinal_prefix::<T>(T::spec_count()).filter(|w: T| s.contains(w))
}

/// `bits` with the bit of `v`'s ordinal set.
fn with_bit<T: ElkEnum>(bits: u64, v: T) -> (r: u64)
    ensures
        forall|j: nat| j < 64 ==> (bit_set(r, j) <==> (j == v.spec_ordinal() || bit_set(bits, j))),
{
    proof {
        T::lemma_ordinal_bound(v);
    }
    let ord = v.ordinal() as u64;
    let r = bits | (1u64 << ord);
    proof {
        assert forall|j: nat| j < 64 implies (bit_set(r, j) <==> (j == ord || bit_set(bits, j))) by {
            lemma_bit_or(bits, ord, j as u64);
        }
    }
    r
}

/// A set of variants of a Java-style enum, stored as a bit set indexed by
/// ordinal, as Java's `EnumSet` is.
pub struct EnumSet<T: ElkEnum> {
    bits: u64,
    marker: core::marker::PhantomData<T>,
}

impl<T: ElkEnum> View for EnumSet<T> {
    type V = Set<T>;

    closed spec fn view(&self) -> Set<T> {
        Set::new(|v: T| bit_set(self.bits, v.spec_ordinal()))
    }
}

impl<T: ElkEnum> EnumSet<T> {
    /// Only bits that belong to a variant may be set.
    #[verifier::type_invariant]
    closed spec fn only_variant_bits(self) -> bool {
        forall|j: nat| T::spec_count() <= j ==> !#[trigger] bit_set(self.bits, j)
    }

    proof fn lemma_contains_bit(self, v: T)
        ensures
            self@.contains(v) <==> bit_set(self.bits, v.spec_ordinal()),
    {
    }

    /// The empty set.
    pub fn none() -> (r: Self)
        ensures
            r@ == Set::<T>::empty(),
    {
        proof {
            assert forall|j: nat| j < 64 implies !bit_set(0u64, j) by {
                lemma_bit_zero(j as u64);
            }
        }
        let r = EnumSet { bits: 0, marker: core::marker::PhantomData };
        assert(r@ =~= Set::<T>::empty());
        r
    }

    /// Adds a variant.
    pub fn add(&mut self, v: T)
        ensures
            final(self)@ == old(self)@.insert(v),
    {
        proof {
            use_type_invariant(&*self);
            T::lemma_ordinal_bound(v);
        }
        self.bits = with_bit(self.bits, v);
        proof {
            assert(self@ =~= old(self)@.insert(v)) by {
                assert forall|w: T| self@.contains(w) <==> old(self)@.insert(v).contains(w) by {
                    T::lemma_ordinal_bound(w);
                    T::lemma_distinct(v, w);
                }
            }
        }
    }

    /// Removes a variant.
    pub fn remove(&mut self, v: T)
        ensures
            final(self)@ == old(self)@.remove(v),
    {
        proof {
            use_type_invariant(&*self);
            T::lemma_ordinal_bound(v);
        }
        let ord = v.ordinal() as u64;
        let ghost old_bits = self.bits;
        let new_bits = self.bits & !(1u64 << ord);
        proof {
            assert forall|j: nat| j < 64 implies (bit_set(new_bits, j) <==> (j != ord && bit_set(old_bits, j))) by {
                lemma_bit_and_not(old_bits, ord, j as u64);
            }
        }
        self.bits = new_bits;
        proof {
            assert(self@ =~= old(self)@.remove(v)) by {
                assert forall|w: T| self@.contains(w) <==> old(self)@.remove(v).contains(w) by {
                    T::lemma_ordinal_bound(w);
                    T::lemma_distinct(v, w);
                }
            }
        }
    }

    /// Whether the set holds the variant.
    pub fn contains(&self, v: T) -> (r: bool)
        ensures
            r == self@.contains(v),
    {
        proof {
            T::lemma_ordinal_bound(v);
            lemma_bit_test(self.bits, v.spec_ordinal() as u64);
        }
        let ord = v.ordinal() as u64;
        self.bits & (1u64 << ord) != 0
    }

    /// Whether every variant of `other` is in this set.
    pub fn contains_all(&self, other: &EnumSet<T>) -> (r: bool)
        ensures
            r == other@.subset_of(self@),
    {
        proof {
            use_type_invariant(self);
            use_type_invariant(other);
        }
        let both = self.bits & other.bits;
        proof {
            assert forall|j: nat| j < 64 implies (bit_set(both, j) <==> (bit_set(self.bits, j) && bit_set(other.bits, j))) by {
                lemma_bit_and(self.bits, other.bits, j as u64);
            }
            if other@.subset_of(self@) {
                assert forall|j: nat| j < 64 implies (bit_set(both, j) <==> bit_set(other.bits, j)) by {
                    if j < T::spec_count() {
                        T::lemma_from_ordinal(j);
                        let w = T::spec_from_ordinal(j);
                        assert(other@.contains(w) ==> self@.contains(w));
                    }
                }
                lemma_bits_extensional(both, other.bits);
            }
            if both == other.bits {
                assert forall|w: T| other@.contains(w) implies self@.contains(w) by {
                    T::lemma_ordinal_bound(w);
                }
            }
        }
        both == other.bits
    }

    /// Whether the set holds no variant.
    pub fn is_empty(&self) -> (r: bool)
        ensures
            r == (self@ == Set::<T>::empty()),
    {
        proof {
            use_type_invariant(self);
            if self@ =~= Set::<T>::empty() {
                assert forall|j: nat| j < 64 implies (bit_set(self.bits, j) <==> bit_set(0u64, j)) by {
                    lemma_bit_zero(j as u64);
                    if j < T::spec_count() {
                        T::lemma_from_ordinal(j);
                        assert(!self@.contains(T::spec_from_ordinal(j)));
                    }
                }
                lemma_bits_extensional(self.bits, 0u64);
            }
            if self.bits == 0 {
                assert forall|w: T| !self@.contains(w) by {
                    T::lemma_ordinal_bound(w);
                    lemma_bit_zero(w.spec_ordinal() as u64);
                }
                assert(self@ =~= Set::<T>::empty());
            }
        }
        self.bits == 0
    }

    /// The variants of the set in ordinal order (the order in which Java's
    /// `EnumSet` iterates).
    pub fn iter(&self) -> (r: Vec<T>)
        ensures
            r@ == ordered_members(self@),
            r@.to_set() == self@,
            forall|i: int, j: int|
                0 <= i < j < r@.len() ==> (#[trigger] r@[i]).spec_ordinal() < (#[trigger] r@[j]).spec_ordinal(),
    {
        let vals = T::values();
        let mut out: Vec<T> = Vec::new();
        let mut i: usize = 0;
        while i < vals.len()
            invariant
                vals@.len() == T::spec_count(),
                forall|k: int| 0 <= k < vals@.len() ==> (#[trigger] vals@[k]).spec_ordinal() == k,
                i <= vals@.len(),
                forall|a: int, b: int|
                    0 <= a < b < out@.len() ==> (#[trigger] out@[a]).spec_ordinal() < (#[trigger] out@[b]).spec_ordinal(),
                forall|a: int| 0 <= a < out@.len() ==> (#[trigger] out@[a]).spec_ordinal() < i,
                forall|w: T| out@.contains(w) <==> (self@.contains(w) && w.spec_ordinal() < i),
                out@ == ordinal_prefix::<T>(i as nat).filter(|w: T| self@.contains(w)),
            decreases vals@.len() - i,
        {
            let v = vals[i];
            let ghost prev = out@;
            proof {
                T::lemma_from_ordinal(i as nat);
                T::lemma_distinct(v, T::spec_from_ordinal(i as nat));
                assert(ordinal_prefix::<T>((i + 1) as nat) == ordinal_prefix::<T>(i as nat).push(v));
                ordinal_prefix::<T>(i as nat).lemma_filter_push(v, |w: T| self@.contains(w));
            }
            let present = self.contains(v);
            if present {
                out.push(v);
            }
            proof {
                assert forall|w: T| out@.contains(w) <==> (self@.contains(w) && w.spec_ordinal() < i + 1) by {
                    T::lemma_distinct(v, w);
                    if present {
                        assert(out@ == prev.push(v));
                        if out@.contains(w) {
                            let k = choose|k: int| 0 <= k < out@.len() && out@[k] == w;
                            if k < prev.len() {
                                assert(prev.contains(w));
                            }
                        }
                        if prev.contains(w) {
                            let k = choose|k: int| 0 <= k < prev.len() && prev[k] == w;
                            assert(out@[k] == w);
                        }
                        if self@.contains(w) && w.spec_ordinal() == i {
                            assert(out@[out@.len() - 1] == v);
                        }
                    }
                }
            }
            i = i + 1;
        }
        proof {
            assert forall|w: T| out@.to_set().contains(w) <==> self@.contains(w) by {
                T::lemma_ordinal_bound(w);
            }
            assert(out@.to_set() =~= self@);
        }
        out
    }

    /// Number of variants in the set.
    pub fn len(&self) -> (r: usize)
        ensures
            self@.finite(),
            r == self@.len(),
    {
        let members = self.iter();
        proof {
            assert(members@.no_duplicates()) by {
                assert forall|i: int, j: int| 0 <= i < members@.len() && 0 <= j < members@.len() && i != j
                    implies members@[i] != members@[j] by {
                    if i < j {
                        assert(members@[i].spec_ordinal() < members@[j].spec_ordinal());
                    } else {
                        assert(members@[j].spec_ordinal() < members@[i].spec_ordinal());
                    }
                }
            }
            members@.unique_seq_to_set();
        }
        members.len()
    }

    /// The set of all variants.
    pub fn all() -> (r: Self)
        ensures
            forall|v: T| #[trigger] r@.contains(v),
    {
        let vals = T::values();
        let mut s = Self::none();
        let mut i: usize = 0;
        while i < vals.len()
            invariant
                vals@.len() == T::spec_count(),
                forall|k: int| 0 <= k < vals@.len() ==> (#[trigger] vals@[k]).spec_ordinal() == k,
                i <= vals@.len(),
                forall|w: T| s@.contains(w) <==> w.spec_ordinal() < i,
            decreases vals@.len() - i,
        {
            s.add(vals[i]);
            proof {
                assert forall|w: T| s@.contains(w) <==> w.spec_ordinal() < i + 1 by {
                    T::lemma_distinct(vals@[index_of(i)], w);
                }
            }
            i = i + 1;
        }
        proof {
            assert forall|v: T| #[trigger] s@.contains(v) by {
                T::lemma_ordinal_bound(v);
            }
        }
        s
    }

    /// The set of the given variants.
    pub fn of(values: &[T]) -> (r: Self)
        ensures
            r@ == values@.to_set(),
    {
        let mut s = Self::none();
        let mut i: usize = 0;
        while i < values.len()
            invariant
                i <= values@.len(),
                s@ == values@.take(index_of(i)).to_set(),
            decreases values@.len() - i,
        {
            s.add(values[i]);
            proof {
                let k = index_of(i);
                assert(values@.take(k + 1) == values@.take(k).push(values@[k]));
                values@.take(k).lemma_push_to_set_commute(values@[k]);
            }
            i = i + 1;
        }
        proof {
            assert(values@.take(index_of(values.len())) == values@);
        }
        s
    }
}

impl<T: ElkEnum> Clone for EnumSet<T> {
    fn clone(&self) -> (r: Self)
        ensures
            r@ == self@,
    {
        proof {
            use_type_invariant(self);
        }
        EnumSet { bits: self.bits, marker: core::marker::PhantomData }
    }
}

impl<T: ElkEnum> Copy for EnumSet<T> {
}

impl<T: ElkEnum> Default for EnumSet<T> {
    fn default() -> (r: Self)
        ensures
            r@ == Set::<T>::empty(),
    {
        Self::none()
    }
}

impl<T: ElkEnum> PartialEq for EnumSet<T> {
    fn eq(&self, other: &Self) -> (r: bool) {
        proof {
            use_type_invariant(self);
            use_type_invariant(other);
            if self@ =~= other@ {
                assert forall|j: nat| j < 64 implies (bit_set(self.bits, j) <==> bit_set(other.bits, j)) by {
                    if j < T::spec_count() {
                        T::lemma_from_ordinal(j);
                        let w = T::spec_from_ordinal(j);
                        assert(self@.contains(w) == other@.contains(w));
                    }
                }
                lemma_bits_extensional(self.bits, other.bits);
            }
        }
        self.bits == other.bits
    }
}

impl<T: ElkEnum> vstd::std_specs::cmp::PartialEqSpecImpl for EnumSet<T> {
    open spec fn obeys_eq_spec() -> bool {
        true
    }

    open spec fn eq_spec(&self, other: &Self) -> bool {
        self@ == other@
    }
}

impl<T: ElkEnum> Eq for EnumSet<T> {
}

} // verus!

verus! {

/// Items separated by a comma and a space.
pub open spec fn join_items(items: Seq<Seq<char>>) -> Seq<char>
    decreases items.len(),
{
    if items.len() == 0 {
        Seq::empty()
    } else if items.len() == 1 {
        items[0]
    } else {
        join_items(items.drop_last()) + seq![',', ' '] + items.last()
    }
}

/// Java's `List.toString` layout: `[a, b, c]`.
pub open spec fn java_list(items: Seq<Seq<char>>) -> Seq<char> {
    seq!['['] + join_items(items) + seq![']']
}

/// Formats items as Java's `List.toString` does.
pub fn format_java_list(items: &Vec<String>) -> (r: String)
    ensures
        r@ == java_list(items@.map_values(|s: String| s@)),
{
    let ghost views = items@.map_values(|s: String| s@);
    let mut res = String::from_str("[");
    proof {
        reveal_strlit("[");
        reveal_strlit(", ");
        reveal_strlit("]");
        assert(views.take(0) =~= Seq::<Seq<char>>::empty());
    }
    let mut i: usize = 0;
    while i < items.len()
        invariant
            views == items@.map_values(|s: String| s@),
            i <= items@.len(),
            res@ == seq!['['] + join_items(views.take(i as int)),
        decreases items@.len() - i,
    {
        let ghost before = res@;
        if i > 0 {
            res.append(", ");
        }
        let ghost mid = res@;
        res.append(items[i].as_str());
        proof {
            reveal_strlit(", ");
            let t = views.take((i + 1) as int);
            assert(t.drop_last() =~= views.take(i as int));
            assert(t.last() == items@[i as int]@);
            assert(res@ == mid + items@[i as int]@);
            if i == 0 {
                assert(t =~= seq![items@[0]@]);
                assert(join_items(views.take(0)) =~= Seq::<char>::empty());
                assert(join_items(t) == items@[0]@);
                assert(res@ =~= seq!['['] + join_items(t));
            } else {
                assert(mid == before + seq![',', ' ']);
                assert(join_items(t) == join_items(views.take(i as int)) + seq![',', ' '] + items@[i as int]@);
                assert(res@ =~= seq!['['] + join_items(t));
            }
        }
        i = i + 1;
    }
    res.append("]");
    proof {
        assert(views.take(items@.len() as int) =~= views);
        assert(res@ =~= java_list(views));
    }
    res
}

/// Java's `toString()` for values that are stored in properties.
pub trait JavaString {
    spec fn spec_java_string(&self) -> Seq<char>;

    fn java_string(&self) -> (r: String)
        ensures
            r@ == self.spec_java_string(),
    ;
}

impl JavaString for bool {
    open spec fn spec_java_string(&self) -> Seq<char> {
        if *self {
            seq!['t', 'r', 'u', 'e']
        } else {
            seq!['f', 'a', 'l', 's', 'e']
        }
    }

    fn java_string(&self) -> (r: String) {
        proof {
            reveal_strlit("true");
            reveal_strlit("false");
        }
        if *self {
            String::from_str("true")
        } else {
            String::from_str("false")
        }
    }
}

impl JavaString for String {
    open spec fn spec_java_string(&self) -> Seq<char> {
        self@
    }

    fn java_string(&self) -> (r: String) {
        self.clone()
    }
}

impl<T: JavaString> JavaString for Vec<T> {
    open spec fn spec_java_string(&self) -> Seq<char> {
        java_list(self@.map_values(|x: T| x.spec_java_string()))
    }

    fn java_string(&self) -> (r: String) {
        let mut parts: Vec<String> = Vec::new();
        let mut i: usize = 0;
        while i < self.len()
            invariant
                i <= self@.len(),
                parts@.len() == i,
                forall|k: int| 0 <= k < i ==> (#[trigger] parts@[k])@ == self@[k].spec_java_string(),
            decreases self@.len() - i,
        {
            parts.push(self[i].java_string());
            i = i + 1;
        }
        let r = format_java_list(&parts);
        proof {
            assert(parts@.map_values(|s: String| s@) =~= self@.map_values(|x: T| x.spec_java_string()));
        }
        r
    }
}

impl<T: ElkEnum> JavaString for EnumSet<T> {
    open spec fn spec_java_string(&self) -> Seq<char> {
        java_list(ordered_members(self@).map_values(|v: T| v.spec_name()))
    }

    fn java_string(&self) -> (r: String) {
        let members = self.iter();
        let mut parts: Vec<String> = Vec::new();
        let mut i: usize = 0;
        while i < members.len()
            invariant
                i <= members@.len(),
                parts@.len() == i,
                forall|k: int| 0 <= k < i ==> (#[trigger] parts@[k])@ == members@[k].spec_name(),
            decreases members@.len() - i,
        {
            parts.push(String::from_str(members[i].name()));
            i = i + 1;
        }
        let r = format_java_list(&parts);
        proof {
            assert(parts@.map_values(|s: String| s@) =~= members@.map_values(|v: T| v.spec_name()));
        }
        r
    }
}

} // verus!

verus! {

/// How a variant is stored in a property map: its enum's tag and its ordinal.
pub open spec fn variant_stored<T: ElkEnum>(v: T) -> StoredValue {
    StoredValue::Variant { kind: T::spec_kind(), ordinal: v.spec_ordinal() as u32 }
}

/// The variant a stored value holds, if it holds one of enum `T`.
pub open spec fn variant_decoded<T: ElkEnum>(s: StoredValue) -> Option<T> {
    match s {
        StoredValue::Variant { kind, ordinal } => if kind == T::spec_kind() && ordinal < T::spec_count() {
            Some(T::spec_from_ordinal(ordinal as nat))
        } else {
            None
        },
        _ => None,
    }
}

pub proof fn lemma_variant_round_trip<T: ElkEnum>(v: T)
    ensures
        variant_decoded::<T>(variant_stored(v)) == Some(v),
{
    T::lemma_ordinal_bound(v);
    T::lemma_from_ordinal(v.spec_ordinal());
    T::lemma_distinct(v, T::spec_from_ordinal(v.spec_ordinal()));
}

pub fn variant_to_stored<T: ElkEnum>(v: &T) -> (r: StoredValue)
    ensures
        r == variant_stored(*v),
{
    proof {
        T::lemma_ordinal_bound(*v);
    }
    StoredValue::Variant { kind: T::kind(), ordinal: v.ordinal() as u32 }
}

pub fn variant_from_stored<T: ElkEnum>(s: &StoredValue) -> (r: Option<T>)
    ensures
        r == variant_decoded::<T>(*s),
{
    match s {
        StoredValue::Variant { kind, ordinal } => {
            let vals = T::values();
            if *kind == T::kind() && (*ordinal as usize) < vals.len() {
                let v = vals[*ordinal as usize];
                proof {
                    T::lemma_from_ordinal(*ordinal as nat);
                    T::lemma_distinct(v, T::spec_from_ordinal(*ordinal as nat));
                }
                Some(v)
            } else {
                None
            }
        },
        _ => None,
    }
}

/// An index below 64 as a shift amount.
fn widen_index(i: usize) -> (r: u64)
    requires
        i < 64,
    ensures
        r == i,
{
    i as u64
}

/// The variant with ordinal zero.
pub fn first_variant<T: ElkEnum>() -> (r: T)
    ensures
        r.spec_ordinal() == 0,
{
    let vals = T::values();
    proof {
        let v = T::spec_from_ordinal(0);
        T::lemma_from_ordinal(0);
        T::lemma_ordinal_bound(v);
    }
    vals[0]
}

impl<T: ElkEnum> EnumSet<T> {
    /// Whether `bits` sets only bits that belong to variants of `T`.
    pub open spec fn valid_bits(bits: u64) -> bool {
        forall|j: nat| T::spec_count() <= j ==> !#[trigger] bit_set(bits, j)
    }

    /// The set with exactly the given bits.
    pub closed spec fn from_bits(bits: u64) -> Self {
        EnumSet { bits, marker: core::marker::PhantomData }
    }

    pub closed spec fn spec_bits(self) -> u64 {
        self.bits
    }

    /// Rebuilds the set stored as `bits`, if they are valid.
    fn decode_bits(bits: u64) -> (r: Option<Self>)
        ensures
            Self::valid_bits(bits) ==> r == Some(Self::from_bits(bits)),
            !Self::valid_bits(bits) ==> r is None,
    {
        let vals = T::values();
        let mut s = Self::none();
        proof {
            T::lemma_ordinal_bound(T::spec_from_ordinal(0));
            use_type_invariant(&s);
            assert forall|j: nat| j < 64 implies !bit_set(s.bits, j) by {
                if j < T::spec_count() {
                    T::lemma_from_ordinal(j);
                    s.lemma_contains_bit(T::spec_from_ordinal(j));
                }
            }
        }
        let mut i: usize = 0;
        while i < vals.len()
            invariant
                vals@.len() == T::spec_count(),
                T::spec_count() <= 64,
                forall|k: int| 0 <= k < vals@.len() ==> (#[trigger] vals@[k]).spec_ordinal() == k,
                i <= vals@.len(),
                forall|j: nat| j < 64 ==> (#[trigger] bit_set(s.bits, j) <==> (j < i && bit_set(bits, j))),
            decreases vals@.len() - i,
        {
            let v = vals[i];
            let ord = widen_index(i);
            proof {
                lemma_bit_test(bits, ord);
                T::lemma_ordinal_bound(v);
            }
            let ghost prev = s;
            if bits & (1u64 << ord) != 0 {
                s.add(v);
                proof {
                    use_type_invariant(&s);
                    assert forall|j: nat| j < 64 implies (#[trigger] bit_set(s.bits, j) <==> (j < i + 1 && bit_set(bits, j))) by {
                        assert(bit_set(prev.bits, j) <==> (j < i && bit_set(bits, j)));
                        if j < T::spec_count() {
                            T::lemma_from_ordinal(j);
                            let w = T::spec_from_ordinal(j);
                            s.lemma_contains_bit(w);
                            prev.lemma_contains_bit(w);
                            T::lemma_distinct(v, w);
                        }
                    }
                }
            } else {
                proof {
                    assert(!((bits >> ord) & 1u64 == 1u64));
                    assert(!bit_set(bits, index_nat(i)));
                    assert forall|j: nat| j < 64 implies (#[trigger] bit_set(s.bits, j) <==> (j < i + 1 && bit_set(bits, j))) by {
                        assert(bit_set(prev.bits, j) <==> (j < i && bit_set(bits, j)));
                        if j == i {
                            assert(!bit_set(bits, j));
                        }
                    }
                }
            }
            i = i + 1;
        }
        proof {
            if Self::valid_bits(bits) {
                lemma_bits_extensional(s.bits, bits);
                assert(s == Self::from_bits(bits));
            }
        }
        if s.bits == bits {
            Some(s)
        } else {
            proof {
                if Self::valid_bits(bits) {
                    lemma_bits_extensional(s.bits, bits);
                }
            }
            None
        }
    }
}

impl<T: ElkEnum> PropValue for EnumSet<T> {
    open spec fn stored_spec(&self) -> StoredValue {
        StoredValue::VariantSet { kind: T::spec_kind(), bits: self.spec_bits() }
    }

    open spec fn decoded_spec(v: StoredValue) -> Option<Self> {
        match v {
            StoredValue::VariantSet { kind, bits } => if kind == T::spec_kind() && Self::valid_bits(bits) {
                Some(Self::from_bits(bits))
            } else {
                None
            },
            _ => None,
        }
    }

    open spec fn value_ok(&self) -> bool {
        Self::valid_bits(self.spec_bits())
    }

    open spec fn is_default(x: Self) -> bool {
        x@ == Set::<T>::empty()
    }

    proof fn lemma_round_trip(x: Self) {
        assert(Self::from_bits(x.spec_bits()) == x);
    }

    fn to_stored(&self) -> (r: StoredValue) {
        proof {
            use_type_invariant(self);
        }
        StoredValue::VariantSet { kind: T::kind(), bits: self.bits }
    }

    fn from_stored(v: &StoredValue) -> (r: Option<Self>) {
        match v {
            StoredValue::VariantSet { kind, bits } => {
                if *kind == T::kind() {
                    Self::decode_bits(*bits)
                } else {
                    None
                }
            },
            _ => None,
        }
    }

    fn copy_value(&self) -> (r: Self) {
        proof {
            use_type_invariant(self);
        }
        EnumSet { bits: self.bits, marker: core::marker::PhantomData }
    }

    fn default_value() -> (r: Self) {
        let r = Self::none();
        proof {
            use_type_invariant(&r);
        }
        r
    }
}

} // verus!

verus! {

/// The character of a decimal digit.
pub open spec fn digit_char(d: int) -> char {
    if d == 0 { '0' } else if d == 1 { '1' } else if d == 2 { '2' } else if d == 3 { '3' }
    else if d == 4 { '4' } else if d == 5 { '5' } else if d == 6 { '6' } else if d == 7 { '7' }
    else if d == 8 { '8' } else { '9' }
}

/// Decimal digits of a natural number, most significant first.
pub open spec fn decimal_digits(n: nat) -> Seq<char>
    decreases n,
{
    if n < 10 {
        seq![digit_char(n as int)]
    } else {
        decimal_digits(n / 10).push(digit_char((n % 10) as int))
    }
}

/// Java's `Integer.toString`: an optional minus sign and the decimal digits.
pub open spec fn java_int_string(x: int) -> Seq<char> {
    if x < 0 {
        seq!['-'] + decimal_digits((-x) as nat)
    } else {
        decimal_digits(x as nat)
    }
}

fn digit_str(d: u64) -> (r: &'static str)
    requires
        d < 10,
    ensures
        r@ == seq![digit_char(d as int)],
{
    proof {
        reveal_strlit("0");
        reveal_strlit("1");
        reveal_strlit("2");
        reveal_strlit("3");
        reveal_strlit("4");
        reveal_strlit("5");
        reveal_strlit("6");
        reveal_strlit("7");
        reveal_strlit("8");
        reveal_strlit("9");
    }
    match d {
        0 => "0",
        1 => "1",
        2 => "2",
        3 => "3",
        4 => "4",
        5 => "5",
        6 => "6",
        7 => "7",
        8 => "8",
        _ => "9",
    }
}

/// Appends the decimal digits of `n`.
fn append_decimal(out: &mut String, n: u64)
    ensures
        final(out)@ == old(out)@ + decimal_digits(n as nat),
    decreases n,
{
    if n >= 10 {
        append_decimal(out, n / 10);
    }
    out.append(digit_str(n % 10));
    proof {
        if n >= 10 {
            assert(decimal_digits(n as nat) == decimal_digits((n / 10) as nat).push(digit_char((n % 10) as int)));
        }
    }
}

impl JavaString for i32 {
    open spec fn spec_java_string(&self) -> Seq<char> {
        java_int_string(*self as int)
    }

    fn java_string(&self) -> (r: String) {
        let wide = *self as i64;
        let mut out = String::new();
        if wide < 0 {
            out.append("-");
            proof {
                reveal_strlit("-");
            }
            append_decimal(&mut out, (-wide) as u64);
        } else {
            append_decimal(&mut out, wide as u64);
        }
        proof {
            assert(out@ =~= java_int_string(*self as int));
        }
        out
    }
}

} // verus!
