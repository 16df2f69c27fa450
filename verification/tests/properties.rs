use elkrs::options::{Direction, PortConstraints, PortSide, SizeConstraint};
use elkrs::properties::{ElkEnum, EnumSet, JavaString};

#[test]
fn enum_and_enumset_java_strings() {
    assert_eq!(PortSide::NORTH.java_string(), "NORTH");
    assert_eq!(PortSide::from_name("EAST"), Some(PortSide::EAST));
    let set = EnumSet::of(&[PortSide::WEST, PortSide::NORTH]);
    assert_eq!(set.java_string(), "[NORTH, WEST]");
    assert_eq!(EnumSet::<PortSide>::none().java_string(), "[]");
}

#[test]
fn port_side_rotations() {
    for s in [PortSide::NORTH, PortSide::EAST, PortSide::SOUTH, PortSide::WEST, PortSide::UNDEFINED] {
        assert_eq!(s.right().left(), s);
        assert_eq!(s.left().right(), s);
        assert_eq!(s.opposed().opposed(), s);
        assert_eq!(s.right().right(), s.opposed());
    }
    assert_eq!(PortSide::NORTH.right(), PortSide::EAST);
    assert_eq!(PortSide::NORTH.left(), PortSide::WEST);
    assert_eq!(PortSide::EAST.opposed(), PortSide::WEST);
    assert!(PortSide::NORTH.are_adjacent(PortSide::EAST));
    assert!(!PortSide::NORTH.are_adjacent(PortSide::SOUTH));
    assert!(!PortSide::UNDEFINED.are_adjacent(PortSide::NORTH));
    assert!(PortSide::is_vertical(PortSide::SOUTH));
    assert!(PortSide::is_horizontal(PortSide::WEST));
    assert!(!PortSide::is_horizontal(PortSide::UNDEFINED));
}

#[test]
fn direction_helpers() {
    assert_eq!(PortSide::from_direction(Direction::UP), PortSide::NORTH);
    assert_eq!(PortSide::from_direction(Direction::RIGHT), PortSide::EAST);
    assert_eq!(PortSide::from_direction(Direction::UNDEFINED), PortSide::UNDEFINED);
    assert_eq!(Direction::LEFT.opposite(), Direction::RIGHT);
    assert_eq!(Direction::UNDEFINED.opposite(), Direction::UNDEFINED);
    assert!(Direction::DOWN.is_vertical());
    assert!(Direction::LEFT.is_horizontal());
    assert!(!Direction::UNDEFINED.is_horizontal());
}

#[test]
fn port_constraint_levels() {
    assert!(PortConstraints::FIXED_POS.is_pos_fixed());
    assert!(PortConstraints::FIXED_RATIO.is_ratio_fixed());
    assert!(PortConstraints::FIXED_RATIO.is_order_fixed());
    assert!(!PortConstraints::FIXED_SIDE.is_order_fixed());
    assert!(PortConstraints::FIXED_SIDE.is_side_fixed());
    assert!(!PortConstraints::FREE.is_side_fixed());
    assert!(!PortConstraints::UNDEFINED.is_side_fixed());
}

#[test]
fn size_constraint_sets() {
    assert!(SizeConstraint::fixed().is_empty());
    let free = SizeConstraint::free();
    assert_eq!(free.len(), 3);
    assert!(free.contains(SizeConstraint::PORTS));
    assert!(free.contains(SizeConstraint::PORT_LABELS));
    assert!(free.contains(SizeConstraint::NODE_LABELS));
    assert!(!free.contains(SizeConstraint::MINIMUM_SIZE));
    assert_eq!(free.java_string(), "[PORTS, PORT_LABELS, NODE_LABELS]");
}

#[test]
fn enum_set_operations() {
    let mut s = EnumSet::<PortSide>::none();
    assert!(s.is_empty());
    s.add(PortSide::SOUTH);
    s.add(PortSide::NORTH);
    s.add(PortSide::SOUTH);
    assert_eq!(s.len(), 2);
    assert!(s.contains(PortSide::SOUTH));
    assert_eq!(s.iter(), vec![PortSide::NORTH, PortSide::SOUTH]);
    s.remove(PortSide::SOUTH);
    assert!(!s.contains(PortSide::SOUTH));
    assert_eq!(s.len(), 1);
    let all = EnumSet::<PortSide>::all();
    assert_eq!(all.len(), 5);
    assert!(all.contains_all(&s));
    assert!(!s.contains_all(&all));
    assert!(s == EnumSet::of(&[PortSide::NORTH]));
    assert_eq!(EnumSet::<PortSide>::default().len(), 0);
}

#[test]
fn enum_names_and_ordinals() {
    assert_eq!(PortSide::UNDEFINED.ordinal(), 0);
    assert_eq!(PortSide::WEST.ordinal(), 4);
    assert_eq!(PortSide::WEST.name(), "WEST");
    assert_eq!(PortSide::from_name("west"), None);
    assert_eq!(PortConstraints::from_name("FIXED_ORDER"), Some(PortConstraints::FIXED_ORDER));
    assert_eq!(PortSide::values().len(), 5);
    assert_eq!(true.java_string(), "true");
    assert_eq!(vec![String::from("a"), String::from("b")].java_string(), "[a, b]");
}
