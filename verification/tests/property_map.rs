use elkrs::options::{PortConstraints, PortSide};
use elkrs::properties::EnumSet;
use elkrs::property_map::{Property, PropertyMap, StoredValue};

#[test]
fn defaults_and_overrides_with_integers() {
    let spacing: Property<i32> = Property::with_default("test.spacing", 20);
    let flag: Property<bool> = Property::with_default("test.flag", true);
    let mut m = PropertyMap::new();
    assert_eq!(m.get(&spacing), 20);
    assert!(!m.has(&spacing));
    m.set(&spacing, 5);
    assert_eq!(m.get(&spacing), 5);
    m.unset(&spacing);
    assert_eq!(m.get(&spacing), 20);
    assert!(m.get(&flag));
}

#[test]
fn copy_overwrites_with_integers() {
    let spacing: Property<i32> = Property::with_default("test.spacing", 20);
    let flag: Property<bool> = Property::with_default("test.flag", true);
    let mut a = PropertyMap::new();
    let mut b = PropertyMap::new();
    a.set(&spacing, 1);
    b.set(&spacing, 2);
    b.set(&flag, false);
    a.copy_from(&b);
    assert_eq!(a.get(&spacing), 2);
    assert!(!a.get(&flag));
    assert_eq!(a.len(), 2);
}

#[test]
fn get_or_insert_default_inserts_once() {
    let side: Property<PortSide> = Property::with_default("side", PortSide::EAST);
    let count: Property<i32> = Property::new("count");
    let mut m = PropertyMap::new();
    assert_eq!(m.get_or_insert_default(&side), PortSide::EAST);
    assert!(m.has(&side));
    m.set(&side, PortSide::WEST);
    assert_eq!(m.get_or_insert_default(&side), PortSide::WEST);
    assert_eq!(m.get_or_insert_default(&count), 0);
    assert_eq!(m.len(), 2);
}

#[test]
fn typed_reads_reject_other_types() {
    let as_int: Property<i32> = Property::new("shared.id");
    let as_side: Property<PortSide> = Property::new("shared.id");
    let as_constraint: Property<PortConstraints> = Property::new("shared.id");
    let mut m = PropertyMap::new();
    m.set(&as_side, PortSide::SOUTH);
    assert_eq!(m.try_get(&as_int), None);
    assert_eq!(m.try_get(&as_constraint), None);
    assert_eq!(m.try_get(&as_side), Some(PortSide::SOUTH));
    assert_eq!(m.get(&as_int), 0);
    assert_eq!(m.get_opt(&as_int), None);
}

#[test]
fn insertion_order_is_kept() {
    let a: Property<i32> = Property::new("a");
    let b: Property<bool> = Property::new("b");
    let c: Property<String> = Property::new("c");
    let mut m = PropertyMap::new();
    m.set(&a, 1);
    m.set(&b, true);
    m.set(&c, String::from("x"));
    m.set(&a, 3);
    let keys: Vec<String> = m.iter().into_iter().map(|(k, _)| k).collect();
    assert_eq!(keys, vec!["a", "b", "c"]);
    m.unset(&b);
    let keys: Vec<String> = m.iter().into_iter().map(|(k, _)| k).collect();
    assert_eq!(keys, vec!["a", "c"]);
    assert!(matches!(m.get_by_id("a"), Some(StoredValue::Int(3))));
    assert!(m.has_id("c"));
    assert!(!m.has_id("b"));
    m.set_by_id("b", StoredValue::Bool(false));
    assert_eq!(m.get(&b), false);
    assert!(!m.is_empty());
}

#[test]
fn enum_sets_are_stored() {
    let sides: Property<EnumSet<PortSide>> = Property::new("sides");
    let mut m = PropertyMap::new();
    assert!(m.get(&sides).is_empty());
    let mut s = EnumSet::none();
    s.add(PortSide::NORTH);
    s.add(PortSide::WEST);
    m.set(&sides, s);
    let back = m.get(&sides);
    assert!(back == s);
    assert_eq!(back.len(), 2);
}

#[test]
fn property_defaults() {
    let p: Property<i32> = Property::with_bounds("bounded", 5, Some(0), Some(10));
    assert_eq!(p.get_default(), Some(5));
    assert_eq!(p.lower_bound, Some(0));
    assert_eq!(p.upper_bound, Some(10));
    let q: Property<i32> = Property::new("none");
    assert_eq!(q.get_default(), None);
}

#[test]
fn maps_with_the_same_entries_are_equal_in_any_order() {
    let a: Property<i32> = Property::new("a");
    let b: Property<bool> = Property::new("b");
    let mut x = PropertyMap::new();
    x.set(&a, 1);
    x.set(&b, true);
    x.set_by_id("t", StoredValue::Text(String::from("text")));
    let mut y = PropertyMap::new();
    y.set_by_id("t", StoredValue::Text(String::from("text")));
    y.set(&b, true);
    y.set(&a, 1);
    assert!(x == y);
    y.set(&a, 2);
    assert!(x != y);
    let mut z = PropertyMap::new();
    z.set(&a, 1);
    z.set(&b, true);
    assert!(x != z);
    z.set_by_id("t", StoredValue::Text(String::from("other")));
    assert!(x != z);
}
