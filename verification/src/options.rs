//! Layout option enums and the rules that relate their values.

use vstd::prelude::*;
use crate::properties::{str_eq, ElkEnum, EnumSet, JavaString, variant_stored, variant_decoded, lemma_variant_round_trip, variant_to_stored, variant_from_stored, first_variant};
use crate::property_map::{PropValue, StoredValue};

verus! {

#[allow(non_camel_case_types)]
/// Side of a node on which a port sits.
#[derive(Clone, Copy, Debug, PartialEq, Eq, Structural, Hash)]
pub enum PortSide {
    UNDEFINED,
    NORTH,
    EAST,
    SOUTH,
    WEST,
}

impl ElkEnum for PortSide {
    open spec fn spec_count() -> nat {
        5
    }

    open spec fn spec_ordinal(self) -> nat {
        match self {
            PortSide::UNDEFINED => 0,
            PortSide::NORTH => 1,
            PortSide::EAST => 2,
            PortSide::SOUTH => 3,
            PortSide::WEST => 4,
        }
    }

    open spec fn spec_name(self) -> Seq<char> {
        match self {
            PortSide::UNDEFINED => "UNDEFINED"@,
            PortSide::NORTH => "NORTH"@,
            PortSide::EAST => "EAST"@,
            PortSide::SOUTH => "SOUTH"@,
            PortSide::WEST => "WEST"@,
        }
    }

    open spec fn spec_from_ordinal(i: nat) -> Self {
        if i == 0 {
            PortSide::UNDEFINED
        } else if i == 1 {
            PortSide::NORTH
        } else if i == 2 {
            PortSide::EAST
        } else if i == 3 {
            PortSide::SOUTH
        } else {
            PortSide::WEST
        }
    }

    open spec fn spec_kind() -> u32 {
        1
    }

    fn kind() -> (r: u32) {
        1
    }

    proof fn lemma_ordinal_bound(v: Self) {
    }

    proof fn lemma_from_ordinal(i: nat) {
    }

    proof fn lemma_distinct(a: Self, b: Self) {
        reveal_strlit("UNDEFINED");
        reveal_strlit("NORTH");
        reveal_strlit("EAST");
        reveal_strlit("SOUTH");
        reveal_strlit("WEST");
        if a.spec_name() == b.spec_name() {
            assert(a.spec_name().len() == b.spec_name().len());
            assert(a.spec_name()[0] == b.spec_name()[0]);
        }
    }

    fn ordinal(&self) -> (r: usize) {
        match self {
            PortSide::UNDEFINED => 0,
            PortSide::NORTH => 1,
            PortSide::EAST => 2,
            PortSide::SOUTH => 3,
            PortSide::WEST => 4,
        }
    }

    fn values() -> (r: Vec<Self>) {
        vec![PortSide::UNDEFINED, PortSide::NORTH, PortSide::EAST, PortSide::SOUTH, PortSide::WEST]
    }

    fn name(&self) -> (r: &'static str) {
        match self {
            PortSide::UNDEFINED => "UNDEFINED",
            PortSide::NORTH => "NORTH",
            PortSide::EAST => "EAST",
            PortSide::SOUTH => "SOUTH",
            PortSide::WEST => "WEST",
        }
    }

    fn from_name(s: &str) -> (r: Option<Self>) {
        let vals = Self::values();
        let mut i: usize = 0;
        while i < vals.len()
            invariant
                vals@.len() == Self::spec_count(),
                forall|j: int| 0 <= j < vals@.len() ==> (#[trigger] vals@[j]).spec_ordinal() == j,
                i <= vals@.len(),
                forall|j: int| 0 <= j < i ==> (#[trigger] vals@[j]).spec_name() != s@,
            decreases vals@.len() - i,
        {
            let v = vals[i];
            if str_eq(v.name(), s) {
                return Some(v);
            }
            i = i + 1;
        }
        proof {
            assert forall|v: Self| #[trigger] v.spec_name() != s@ by {
                let j = v.spec_ordinal() as int;
                Self::lemma_distinct(v, vals@[j]);
            }
        }
        None
    }
}

impl PropValue for PortSide {
    open spec fn stored_spec(&self) -> StoredValue {
        variant_stored(*self)
    }

    open spec fn decoded_spec(v: StoredValue) -> Option<Self> {
        variant_decoded::<Self>(v)
    }

    open spec fn value_ok(&self) -> bool {
        true
    }

    open spec fn is_default(x: Self) -> bool {
        x.spec_ordinal() == 0
    }

    proof fn lemma_round_trip(x: Self) {
        lemma_variant_round_trip(x);
    }

    fn to_stored(&self) -> (r: StoredValue) {
        variant_to_stored(self)
    }

    fn from_stored(v: &StoredValue) -> (r: Option<Self>) {
        variant_from_stored(v)
    }

    fn copy_value(&self) -> (r: Self) {
        *self
    }

    fn default_value() -> (r: Self) {
        first_variant()
    }
}

impl JavaString for PortSide {
    open spec fn spec_java_string(&self) -> Seq<char> {
        self.spec_name()
    }

    fn java_string(&self) -> (r: String) {
        String::from_str(self.name())
    }
}

#[allow(non_camel_case_types)]
/// Overall direction in which edges point in a layout.
#[derive(Clone, Copy, Debug, PartialEq, Eq, Structural, Hash)]
pub enum Direction {
    UNDEFINED,
    RIGHT,
    LEFT,
    DOWN,
    UP,
}

impl ElkEnum for Direction {
    open spec fn spec_count() -> nat {
        5
    }

    open spec fn spec_ordinal(self) -> nat {
        match self {
            Direction::UNDEFINED => 0,
            Direction::RIGHT => 1,
            Direction::LEFT => 2,
            Direction::DOWN => 3,
            Direction::UP => 4,
        }
    }

    open spec fn spec_name(self) -> Seq<char> {
        match self {
            Direction::UNDEFINED => "UNDEFINED"@,
            Direction::RIGHT => "RIGHT"@,
            Direction::LEFT => "LEFT"@,
            Direction::DOWN => "DOWN"@,
            Direction::UP => "UP"@,
        }
    }

    open spec fn spec_from_ordinal(i: nat) -> Self {
        if i == 0 {
            Direction::UNDEFINED
        } else if i == 1 {
            Direction::RIGHT
        } else if i == 2 {
            Direction::LEFT
        } else if i == 3 {
            Direction::DOWN
        } else {
            Direction::UP
        }
    }

    open spec fn spec_kind() -> u32 {
        2
    }

    fn kind() -> (r: u32) {
        2
    }

    proof fn lemma_ordinal_bound(v: Self) {
    }

    proof fn lemma_from_ordinal(i: nat) {
    }

    proof fn lemma_distinct(a: Self, b: Self) {
        reveal_strlit("UNDEFINED");
        reveal_strlit("RIGHT");
        reveal_strlit("LEFT");
        reveal_strlit("DOWN");
        reveal_strlit("UP");
        if a.spec_name() == b.spec_name() {
            assert(a.spec_name().len() == b.spec_name().len());
            assert(a.spec_name()[0] == b.spec_name()[0]);
        }
    }

    fn ordinal(&self) -> (r: usize) {
        match self {
            Direction::UNDEFINED => 0,
            Direction::RIGHT => 1,
            Direction::LEFT => 2,
            Direction::DOWN => 3,
            Direction::UP => 4,
        }
    }

    fn values() -> (r: Vec<Self>) {
        vec![Direction::UNDEFINED, Direction::RIGHT, Direction::LEFT, Direction::DOWN, Direction::UP]
    }

    fn name(&self) -> (r: &'static str) {
        match self {
            Direction::UNDEFINED => "UNDEFINED",
            Direction::RIGHT => "RIGHT",
            Direction::LEFT => "LEFT",
            Direction::DOWN => "DOWN",
            Direction::UP => "UP",
        }
    }

    fn from_name(s: &str) -> (r: Option<Self>) {
        let vals = Self::values();
        let mut i: usize = 0;
        while i < vals.len()
            invariant
                vals@.len() == Self::spec_count(),
                forall|j: int| 0 <= j < vals@.len() ==> (#[trigger] vals@[j]).spec_ordinal() == j,
                i <= vals@.len(),
                forall|j: int| 0 <= j < i ==> (#[trigger] vals@[j]).spec_name() != s@,
            decreases vals@.len() - i,
        {
            let v = vals[i];
            if str_eq(v.name(), s) {
                return Some(v);
            }
            i = i + 1;
        }
        proof {
            assert forall|v: Self| #[trigger] v.spec_name() != s@ by {
                let j = v.spec_ordinal() as int;
                Self::lemma_distinct(v, vals@[j]);
            }
        }
        None
    }
}

impl PropValue for Direction {
    open spec fn stored_spec(&self) -> StoredValue {
        variant_stored(*self)
    }

    open spec fn decoded_spec(v: StoredValue) -> Option<Self> {
        variant_decoded::<Self>(v)
    }

    open spec fn value_ok(&self) -> bool {
        true
    }

    open spec fn is_default(x: Self) -> bool {
        x.spec_ordinal() == 0
    }

    proof fn lemma_round_trip(x: Self) {
        lemma_variant_round_trip(x);
    }

    fn to_stored(&self) -> (r: StoredValue) {
        variant_to_stored(self)
    }

    fn from_stored(v: &StoredValue) -> (r: Option<Self>) {
        variant_from_stored(v)
    }

    fn copy_value(&self) -> (r: Self) {
        *self
    }

    fn default_value() -> (r: Self) {
        first_variant()
    }
}

impl JavaString for Direction {
    open spec fn spec_java_string(&self) -> Seq<char> {
        self.spec_name()
    }

    fn java_string(&self) -> (r: String) {
        String::from_str(self.name())
    }
}

#[allow(non_camel_case_types)]
/// How freely a layout algorithm may move the ports of a node.
#[derive(Clone, Copy, Debug, PartialEq, Eq, Structural, Hash)]
pub enum PortConstraints {
    UNDEFINED,
    FREE,
    FIXED_SIDE,
    FIXED_ORDER,
    FIXED_RATIO,
    FIXED_POS,
}

impl ElkEnum for PortConstraints {
    open spec fn spec_count() -> nat {
        6
    }

    open spec fn spec_ordinal(self) -> nat {
        match self {
            PortConstraints::UNDEFINED => 0,
            PortConstraints::FREE => 1,
            PortConstraints::FIXED_SIDE => 2,
            PortConstraints::FIXED_ORDER => 3,
            PortConstraints::FIXED_RATIO => 4,
            PortConstraints::FIXED_POS => 5,
        }
    }

    open spec fn spec_name(self) -> Seq<char> {
        match self {
            PortConstraints::UNDEFINED => "UNDEFINED"@,
            PortConstraints::FREE => "FREE"@,
            PortConstraints::FIXED_SIDE => "FIXED_SIDE"@,
            PortConstraints::FIXED_ORDER => "FIXED_ORDER"@,
            PortConstraints::FIXED_RATIO => "FIXED_RATIO"@,
            PortConstraints::FIXED_POS => "FIXED_POS"@,
        }
    }

    open spec fn spec_from_ordinal(i: nat) -> Self {
        if i == 0 {
            PortConstraints::UNDEFINED
        } else if i == 1 {
            PortConstraints::FREE
        } else if i == 2 {
            PortConstraints::FIXED_SIDE
        } else if i == 3 {
            PortConstraints::FIXED_ORDER
        } else if i == 4 {
            PortConstraints::FIXED_RATIO
        } else {
            PortConstraints::FIXED_POS
        }
    }

    open spec fn spec_kind() -> u32 {
        3
    }

    fn kind() -> (r: u32) {
        3
    }

    proof fn lemma_ordinal_bound(v: Self) {
    }

    proof fn lemma_from_ordinal(i: nat) {
    }

    proof fn lemma_distinct(a: Self, b: Self) {
        reveal_strlit("UNDEFINED");
        reveal_strlit("FREE");
        reveal_strlit("FIXED_SIDE");
        reveal_strlit("FIXED_ORDER");
        reveal_strlit("FIXED_RATIO");
        reveal_strlit("FIXED_POS");
        if a.spec_name() == b.spec_name() {
            assert(a.spec_name().len() == b.spec_name().len());
            assert(a.spec_name()[0] == b.spec_name()[0]);
            assert(a.spec_name()[6] == b.spec_name()[6]);
        }
    }

    fn ordinal(&self) -> (r: usize) {
        match self {
            PortConstraints::UNDEFINED => 0,
            PortConstraints::FREE => 1,
            PortConstraints::FIXED_SIDE => 2,
            PortConstraints::FIXED_ORDER => 3,
            PortConstraints::FIXED_RATIO => 4,
            PortConstraints::FIXED_POS => 5,
        }
    }

    fn values() -> (r: Vec<Self>) {
        vec![PortConstraints::UNDEFINED, PortConstraints::FREE, PortConstraints::FIXED_SIDE, PortConstraints::FIXED_ORDER, PortConstraints::FIXED_RATIO, PortConstraints::FIXED_POS]
    }

    fn name(&self) -> (r: &'static str) {
        match self {
            PortConstraints::UNDEFINED => "UNDEFINED",
            PortConstraints::FREE => "FREE",
            PortConstraints::FIXED_SIDE => "FIXED_SIDE",
            PortConstraints::FIXED_ORDER => "FIXED_ORDER",
            PortConstraints::FIXED_RATIO => "FIXED_RATIO",
            PortConstraints::FIXED_POS => "FIXED_POS",
        }
    }

    fn from_name(s: &str) -> (r: Option<Self>) {
        let vals = Self::values();
        let mut i: usize = 0;
        while i < vals.len()
            invariant
                vals@.len() == Self::spec_count(),
                forall|j: int| 0 <= j < vals@.len() ==> (#[trigger] vals@[j]).spec_ordinal() == j,
                i <= vals@.len(),
                forall|j: int| 0 <= j < i ==> (#[trigger] vals@[j]).spec_name() != s@,
            decreases vals@.len() - i,
        {
            let v = vals[i];
            if str_eq(v.name(), s) {
                return Some(v);
            }
            i = i + 1;
        }
        proof {
            assert forall|v: Self| #[trigger] v.spec_name() != s@ by {
                let j = v.spec_ordinal() as int;
                Self::lemma_distinct(v, vals@[j]);
            }
        }
        None
    }
}

impl PropValue for PortConstraints {
    open spec fn stored_spec(&self) -> StoredValue {
        variant_stored(*self)
    }

    open spec fn decoded_spec(v: StoredValue) -> Option<Self> {
        variant_decoded::<Self>(v)
    }

    open spec fn value_ok(&self) -> bool {
        true
    }

    open spec fn is_default(x: Self) -> bool {
        x.spec_ordinal() == 0
    }

    proof fn lemma_round_trip(x: Self) {
        lemma_variant_round_trip(x);
    }

    fn to_stored(&self) -> (r: StoredValue) {
        variant_to_stored(self)
    }

    fn from_stored(v: &StoredValue) -> (r: Option<Self>) {
        variant_from_stored(v)
    }

    fn copy_value(&self) -> (r: Self) {
        *self
    }

    fn default_value() -> (r: Self) {
        first_variant()
    }
}

impl JavaString for PortConstraints {
    open spec fn spec_java_string(&self) -> Seq<char> {
        self.spec_name()
    }

    fn java_string(&self) -> (r: String) {
        String::from_str(self.name())
    }
}

#[allow(non_camel_case_types)]
/// What a node's size must be large enough to hold.
#[derive(Clone, Copy, Debug, PartialEq, Eq, Structural, Hash)]
pub enum SizeConstraint {
    PORTS,
    PORT_LABELS,
    NODE_LABELS,
    MINIMUM_SIZE,
}

impl ElkEnum for SizeConstraint {
    open spec fn spec_count() -> nat {
        4
    }

    open spec fn spec_ordinal(self) -> nat {
        match self {
            SizeConstraint::PORTS => 0,
            SizeConstraint::PORT_LABELS => 1,
            SizeConstraint::NODE_LABELS => 2,
            SizeConstraint::MINIMUM_SIZE => 3,
        }
    }

    open spec fn spec_name(self) -> Seq<char> {
        match self {
            SizeConstraint::PORTS => "PORTS"@,
            SizeConstraint::PORT_LABELS => "PORT_LABELS"@,
            SizeConstraint::NODE_LABELS => "NODE_LABELS"@,
            SizeConstraint::MINIMUM_SIZE => "MINIMUM_SIZE"@,
        }
    }

    open spec fn spec_from_ordinal(i: nat) -> Self {
        if i == 0 {
            SizeConstraint::PORTS
        } else if i == 1 {
            SizeConstraint::PORT_LABELS
        } else if i == 2 {
            SizeConstraint::NODE_LABELS
        } else {
            SizeConstraint::MINIMUM_SIZE
        }
    }

    open spec fn spec_kind() -> u32 {
        4
    }

    fn kind() -> (r: u32) {
        4
    }

    proof fn lemma_ordinal_bound(v: Self) {
    }

    proof fn lemma_from_ordinal(i: nat) {
    }

    proof fn lemma_distinct(a: Self, b: Self) {
        reveal_strlit("PORTS");
        reveal_strlit("PORT_LABELS");
        reveal_strlit("NODE_LABELS");
        reveal_strlit("MINIMUM_SIZE");
        if a.spec_name() == b.spec_name() {
            assert(a.spec_name().len() == b.spec_name().len());
            assert(a.spec_name()[0] == b.spec_name()[0]);
        }
    }

    fn ordinal(&self) -> (r: usize) {
        match self {
            SizeConstraint::PORTS => 0,
            SizeConstraint::PORT_LABELS => 1,
            SizeConstraint::NODE_LABELS => 2,
            SizeConstraint::MINIMUM_SIZE => 3,
        }
    }

    fn values() -> (r: Vec<Self>) {
        vec![SizeConstraint::PORTS, SizeConstraint::PORT_LABELS, SizeConstraint::NODE_LABELS, SizeConstraint::MINIMUM_SIZE]
    }

    fn name(&self) -> (r: &'static str) {
        match self {
            SizeConstraint::PORTS => "PORTS",
            SizeConstraint::PORT_LABELS => "PORT_LABELS",
            SizeConstraint::NODE_LABELS => "NODE_LABELS",
            SizeConstraint::MINIMUM_SIZE => "MINIMUM_SIZE",
        }
    }

    fn from_name(s: &str) -> (r: Option<Self>) {
        let vals = Self::values();
        let mut i: usize = 0;
        while i < vals.len()
            invariant
                vals@.len() == Self::spec_count(),
                forall|j: int| 0 <= j < vals@.len() ==> (#[trigger] vals@[j]).spec_ordinal() == j,
                i <= vals@.len(),
                forall|j: int| 0 <= j < i ==> (#[trigger] vals@[j]).spec_name() != s@,
            decreases vals@.len() - i,
        {
            let v = vals[i];
            if str_eq(v.name(), s) {
                return Some(v);
            }
            i = i + 1;
        }
        proof {
            assert forall|v: Self| #[trigger] v.spec_name() != s@ by {
                let j = v.spec_ordinal() as int;
                Self::lemma_distinct(v, vals@[j]);
            }
        }
        None
    }
}

impl PropValue for SizeConstraint {
    open spec fn stored_spec(&self) -> StoredValue {
        variant_stored(*self)
    }

    open spec fn decoded_spec(v: StoredValue) -> Option<Self> {
        variant_decoded::<Self>(v)
    }

    open spec fn value_ok(&self) -> bool {
        true
    }

    open spec fn is_default(x: Self) -> bool {
        x.spec_ordinal() == 0
    }

    proof fn lemma_round_trip(x: Self) {
        lemma_variant_round_trip(x);
    }

    fn to_stored(&self) -> (r: StoredValue) {
        variant_to_stored(self)
    }

    fn from_stored(v: &StoredValue) -> (r: Option<Self>) {
        variant_from_stored(v)
    }

    fn copy_value(&self) -> (r: Self) {
        *self
    }

    fn default_value() -> (r: Self) {
        first_variant()
    }
}

impl JavaString for SizeConstraint {
    open spec fn spec_java_string(&self) -> Seq<char> {
        self.spec_name()
    }

    fn java_string(&self) -> (r: String) {
        String::from_str(self.name())
    }
}

#[allow(non_camel_case_types)]
/// Whether a port receives or emits edges.
#[derive(Clone, Copy, Debug, PartialEq, Eq, Structural, Hash)]
pub enum PortType {
    UNDEFINED,
    INPUT,
    OUTPUT,
}

impl ElkEnum for PortType {
    open spec fn spec_count() -> nat {
        3
    }

    open spec fn spec_ordinal(self) -> nat {
        match self {
            PortType::UNDEFINED => 0,
            PortType::INPUT => 1,
            PortType::OUTPUT => 2,
        }
    }

    open spec fn spec_name(self) -> Seq<char> {
        match self {
            PortType::UNDEFINED => "UNDEFINED"@,
            PortType::INPUT => "INPUT"@,
            PortType::OUTPUT => "OUTPUT"@,
        }
    }

    open spec fn spec_from_ordinal(i: nat) -> Self {
        if i == 0 {
            PortType::UNDEFINED
        } else if i == 1 {
            PortType::INPUT
        } else {
            PortType::OUTPUT
        }
    }

    open spec fn spec_kind() -> u32 {
        5
    }

    fn kind() -> (r: u32) {
        5
    }

    proof fn lemma_ordinal_bound(v: Self) {
    }

    proof fn lemma_from_ordinal(i: nat) {
    }

    proof fn lemma_distinct(a: Self, b: Self) {
        reveal_strlit("UNDEFINED");
        reveal_strlit("INPUT");
        reveal_strlit("OUTPUT");
        if a.spec_name() == b.spec_name() {
            assert(a.spec_name().len() == b.spec_name().len());
        }
    }

    fn ordinal(&self) -> (r: usize) {
        match self {
            PortType::UNDEFINED => 0,
            PortType::INPUT => 1,
            PortType::OUTPUT => 2,
        }
    }

    fn values() -> (r: Vec<Self>) {
        vec![PortType::UNDEFINED, PortType::INPUT, PortType::OUTPUT]
    }

    fn name(&self) -> (r: &'static str) {
        match self {
            PortType::UNDEFINED => "UNDEFINED",
            PortType::INPUT => "INPUT",
            PortType::OUTPUT => "OUTPUT",
        }
    }

    fn from_name(s: &str) -> (r: Option<Self>) {
        let vals = Self::values();
        let mut i: usize = 0;
        while i < vals.len()
            invariant
                vals@.len() == Self::spec_count(),
                forall|j: int| 0 <= j < vals@.len() ==> (#[trigger] vals@[j]).spec_ordinal() == j,
                i <= vals@.len(),
                forall|j: int| 0 <= j < i ==> (#[trigger] vals@[j]).spec_name() != s@,
            decreases vals@.len() - i,
        {
            let v = vals[i];
            if str_eq(v.name(), s) {
                return Some(v);
            }
            i = i + 1;
        }
        proof {
            assert forall|v: Self| #[trigger] v.spec_name() != s@ by {
                let j = v.spec_ordinal() as int;
                Self::lemma_distinct(v, vals@[j]);
            }
        }
        None
    }
}

impl PropValue for PortType {
    open spec fn stored_spec(&self) -> StoredValue {
        variant_stored(*self)
    }

    open spec fn decoded_spec(v: StoredValue) -> Option<Self> {
        variant_decoded::<Self>(v)
    }

    open spec fn value_ok(&self) -> bool {
        true
    }

    open spec fn is_default(x: Self) -> bool {
        x.spec_ordinal() == 0
    }

    proof fn lemma_round_trip(x: Self) {
        lemma_variant_round_trip(x);
    }

    fn to_stored(&self) -> (r: StoredValue) {
        variant_to_stored(self)
    }

    fn from_stored(v: &StoredValue) -> (r: Option<Self>) {
        variant_from_stored(v)
    }

    fn copy_value(&self) -> (r: Self) {
        *self
    }

    fn default_value() -> (r: Self) {
        first_variant()
    }
}

impl JavaString for PortType {
    open spec fn spec_java_string(&self) -> Seq<char> {
        self.spec_name()
    }

    fn java_string(&self) -> (r: String) {
        String::from_str(self.name())
    }
}

#[allow(non_camel_case_types)]
/// Where along its edge a label is placed.
#[derive(Clone, Copy, Debug, PartialEq, Eq, Structural, Hash)]
pub enum EdgeLabelPlacement {
    CENTER,
    HEAD,
    TAIL,
}

impl ElkEnum for EdgeLabelPlacement {
    open spec fn spec_count() -> nat {
        3
    }

    open spec fn spec_ordinal(self) -> nat {
        match self {
            EdgeLabelPlacement::CENTER => 0,
            EdgeLabelPlacement::HEAD => 1,
            EdgeLabelPlacement::TAIL => 2,
        }
    }

    open spec fn spec_name(self) -> Seq<char> {
        match self {
            EdgeLabelPlacement::CENTER => "CENTER"@,
            EdgeLabelPlacement::HEAD => "HEAD"@,
            EdgeLabelPlacement::TAIL => "TAIL"@,
        }
    }

    open spec fn spec_from_ordinal(i: nat) -> Self {
        if i == 0 {
            EdgeLabelPlacement::CENTER
        } else if i == 1 {
            EdgeLabelPlacement::HEAD
        } else {
            EdgeLabelPlacement::TAIL
        }
    }

    open spec fn spec_kind() -> u32 {
        6
    }

    fn kind() -> (r: u32) {
        6
    }

    proof fn lemma_ordinal_bound(v: Self) {
    }

    proof fn lemma_from_ordinal(i: nat) {
    }

    proof fn lemma_distinct(a: Self, b: Self) {
        reveal_strlit("CENTER");
        reveal_strlit("HEAD");
        reveal_strlit("TAIL");
        if a.spec_name() == b.spec_name() {
            assert(a.spec_name().len() == b.spec_name().len());
            assert(a.spec_name()[0] == b.spec_name()[0]);
        }
    }

    fn ordinal(&self) -> (r: usize) {
        match self {
            EdgeLabelPlacement::CENTER => 0,
            EdgeLabelPlacement::HEAD => 1,
            EdgeLabelPlacement::TAIL => 2,
        }
    }

    fn values() -> (r: Vec<Self>) {
        vec![EdgeLabelPlacement::CENTER, EdgeLabelPlacement::HEAD, EdgeLabelPlacement::TAIL]
    }

    fn name(&self) -> (r: &'static str) {
        match self {
            EdgeLabelPlacement::CENTER => "CENTER",
            EdgeLabelPlacement::HEAD => "HEAD",
            EdgeLabelPlacement::TAIL => "TAIL",
        }
    }

    fn from_name(s: &str) -> (r: Option<Self>) {
        let vals = Self::values();
        let mut i: usize = 0;
        while i < vals.len()
            invariant
                vals@.len() == Self::spec_count(),
                forall|j: int| 0 <= j < vals@.len() ==> (#[trigger] vals@[j]).spec_ordinal() == j,
                i <= vals@.len(),
                forall|j: int| 0 <= j < i ==> (#[trigger] vals@[j]).spec_name() != s@,
            decreases vals@.len() - i,
        {
            let v = vals[i];
            if str_eq(v.name(), s) {
                return Some(v);
            }
            i = i + 1;
        }
        proof {
            assert forall|v: Self| #[trigger] v.spec_name() != s@ by {
                let j = v.spec_ordinal() as int;
                Self::lemma_distinct(v, vals@[j]);
            }
        }
        None
    }
}

impl PropValue for EdgeLabelPlacement {
    open spec fn stored_spec(&self) -> StoredValue {
        variant_stored(*self)
    }

    open spec fn decoded_spec(v: StoredValue) -> Option<Self> {
        variant_decoded::<Self>(v)
    }

    open spec fn value_ok(&self) -> bool {
        true
    }

    open spec fn is_default(x: Self) -> bool {
        x.spec_ordinal() == 0
    }

    proof fn lemma_round_trip(x: Self) {
        lemma_variant_round_trip(x);
    }

    fn to_stored(&self) -> (r: StoredValue) {
        variant_to_stored(self)
    }

    fn from_stored(v: &StoredValue) -> (r: Option<Self>) {
        variant_from_stored(v)
    }

    fn copy_value(&self) -> (r: Self) {
        *self
    }

    fn default_value() -> (r: Self) {
        first_variant()
    }
}

impl JavaString for EdgeLabelPlacement {
    open spec fn spec_java_string(&self) -> Seq<char> {
        self.spec_name()
    }

    fn java_string(&self) -> (r: String) {
        String::from_str(self.name())
    }
}

#[allow(non_camel_case_types)]
/// Structural features a layered graph was found to have.
#[derive(Clone, Copy, Debug, PartialEq, Eq, Structural, Hash)]
pub enum GraphProperties {
    COMMENTS,
    EXTERNAL_PORTS,
    HYPEREDGES,
    HYPERNODES,
    NON_FREE_PORTS,
    NORTH_SOUTH_PORTS,
    SELF_LOOPS,
    CENTER_LABELS,
    END_LABELS,
    PARTITIONS,
}

impl ElkEnum for GraphProperties {
    open spec fn spec_count() -> nat {
        10
    }

    open spec fn spec_ordinal(self) -> nat {
        match self {
            GraphProperties::COMMENTS => 0,
            GraphProperties::EXTERNAL_PORTS => 1,
            GraphProperties::HYPEREDGES => 2,
            GraphProperties::HYPERNODES => 3,
            GraphProperties::NON_FREE_PORTS => 4,
            GraphProperties::NORTH_SOUTH_PORTS => 5,
            GraphProperties::SELF_LOOPS => 6,
            GraphProperties::CENTER_LABELS => 7,
            GraphProperties::END_LABELS => 8,
            GraphProperties::PARTITIONS => 9,
        }
    }

    open spec fn spec_name(self) -> Seq<char> {
        match self {
            GraphProperties::COMMENTS => "COMMENTS"@,
            GraphProperties::EXTERNAL_PORTS => "EXTERNAL_PORTS"@,
            GraphProperties::HYPEREDGES => "HYPEREDGES"@,
            GraphProperties::HYPERNODES => "HYPERNODES"@,
            GraphProperties::NON_FREE_PORTS => "NON_FREE_PORTS"@,
            GraphProperties::NORTH_SOUTH_PORTS => "NORTH_SOUTH_PORTS"@,
            GraphProperties::SELF_LOOPS => "SELF_LOOPS"@,
            GraphProperties::CENTER_LABELS => "CENTER_LABELS"@,
            GraphProperties::END_LABELS => "END_LABELS"@,
            GraphProperties::PARTITIONS => "PARTITIONS"@,
        }
    }

    open spec fn spec_from_ordinal(i: nat) -> Self {
        if i == 0 {
            GraphProperties::COMMENTS
        } else if i == 1 {
            GraphProperties::EXTERNAL_PORTS
        } else if i == 2 {
            GraphProperties::HYPEREDGES
        } else if i == 3 {
            GraphProperties::HYPERNODES
        } else if i == 4 {
            GraphProperties::NON_FREE_PORTS
        } else if i == 5 {
            GraphProperties::NORTH_SOUTH_PORTS
        } else if i == 6 {
            GraphProperties::SELF_LOOPS
        } else if i == 7 {
            GraphProperties::CENTER_LABELS
        } else if i == 8 {
            GraphProperties::END_LABELS
        } else {
            GraphProperties::PARTITIONS
        }
    }

    open spec fn spec_kind() -> u32 {
        7
    }

    fn kind() -> (r: u32) {
        7
    }

    proof fn lemma_ordinal_bound(v: Self) {
    }

    proof fn lemma_from_ordinal(i: nat) {
    }

    proof fn lemma_distinct(a: Self, b: Self) {
        reveal_strlit("COMMENTS");
        reveal_strlit("EXTERNAL_PORTS");
        reveal_strlit("HYPEREDGES");
        reveal_strlit("HYPERNODES");
        reveal_strlit("NON_FREE_PORTS");
        reveal_strlit("NORTH_SOUTH_PORTS");
        reveal_strlit("SELF_LOOPS");
        reveal_strlit("CENTER_LABELS");
        reveal_strlit("END_LABELS");
        reveal_strlit("PARTITIONS");
        if a.spec_name() == b.spec_name() {
            assert(a.spec_name().len() == b.spec_name().len());
            assert(a.spec_name()[0] == b.spec_name()[0]);
            assert(a.spec_name()[5] == b.spec_name()[5]);
        }
    }

    fn ordinal(&self) -> (r: usize) {
        match self {
            GraphProperties::COMMENTS => 0,
            GraphProperties::EXTERNAL_PORTS => 1,
            GraphProperties::HYPEREDGES => 2,
            GraphProperties::HYPERNODES => 3,
            GraphProperties::NON_FREE_PORTS => 4,
            GraphProperties::NORTH_SOUTH_PORTS => 5,
            GraphProperties::SELF_LOOPS => 6,
            GraphProperties::CENTER_LABELS => 7,
            GraphProperties::END_LABELS => 8,
            GraphProperties::PARTITIONS => 9,
        }
    }

    fn values() -> (r: Vec<Self>) {
        vec![GraphProperties::COMMENTS, GraphProperties::EXTERNAL_PORTS, GraphProperties::HYPEREDGES, GraphProperties::HYPERNODES, GraphProperties::NON_FREE_PORTS, GraphProperties::NORTH_SOUTH_PORTS, GraphProperties::SELF_LOOPS, GraphProperties::CENTER_LABELS, GraphProperties::END_LABELS, GraphProperties::PARTITIONS]
    }

    fn name(&self) -> (r: &'static str) {
        match self {
            GraphProperties::COMMENTS => "COMMENTS",
            GraphProperties::EXTERNAL_PORTS => "EXTERNAL_PORTS",
            GraphProperties::HYPEREDGES => "HYPEREDGES",
            GraphProperties::HYPERNODES => "HYPERNODES",
            GraphProperties::NON_FREE_PORTS => "NON_FREE_PORTS",
            GraphProperties::NORTH_SOUTH_PORTS => "NORTH_SOUTH_PORTS",
            GraphProperties::SELF_LOOPS => "SELF_LOOPS",
            GraphProperties::CENTER_LABELS => "CENTER_LABELS",
            GraphProperties::END_LABELS => "END_LABELS",
            GraphProperties::PARTITIONS => "PARTITIONS",
        }
    }

    fn from_name(s: &str) -> (r: Option<Self>) {
        let vals = Self::values();
        let mut i: usize = 0;
        while i < vals.len()
            invariant
                vals@.len() == Self::spec_count(),
                forall|j: int| 0 <= j < vals@.len() ==> (#[trigger] vals@[j]).spec_ordinal() == j,
                i <= vals@.len(),
                forall|j: int| 0 <= j < i ==> (#[trigger] vals@[j]).spec_name() != s@,
            decreases vals@.len() - i,
        {
            let v = vals[i];
            if str_eq(v.name(), s) {
                return Some(v);
            }
            i = i + 1;
        }
        proof {
            assert forall|v: Self| #[trigger] v.spec_name() != s@ by {
                let j = v.spec_ordinal() as int;
                Self::lemma_distinct(v, vals@[j]);
            }
        }
        None
    }
}

impl PropValue for GraphProperties {
    open spec fn stored_spec(&self) -> StoredValue {
        variant_stored(*self)
    }

    open spec fn decoded_spec(v: StoredValue) -> Option<Self> {
        variant_decoded::<Self>(v)
    }

    open spec fn value_ok(&self) -> bool {
        true
    }

    open spec fn is_default(x: Self) -> bool {
        x.spec_ordinal() == 0
    }

    proof fn lemma_round_trip(x: Self) {
        lemma_variant_round_trip(x);
    }

    fn to_stored(&self) -> (r: StoredValue) {
        variant_to_stored(self)
    }

    fn from_stored(v: &StoredValue) -> (r: Option<Self>) {
        variant_from_stored(v)
    }

    fn copy_value(&self) -> (r: Self) {
        *self
    }

    fn default_value() -> (r: Self) {
        first_variant()
    }
}

impl JavaString for GraphProperties {
    open spec fn spec_java_string(&self) -> Seq<char> {
        self.spec_name()
    }

    fn java_string(&self) -> (r: String) {
        String::from_str(self.name())
    }
}

#[allow(non_camel_case_types)]
/// Kind of a node of a layered graph (real or one of the dummy kinds).
#[derive(Clone, Copy, Debug, PartialEq, Eq, Structural, Hash)]
pub enum NodeType {
    NORMAL,
    LONG_EDGE,
    EXTERNAL_PORT,
    NORTH_SOUTH_PORT,
    LABEL,
    BREAKING_POINT,
}

impl ElkEnum for NodeType {
    open spec fn spec_count() -> nat {
        6
    }

    open spec fn spec_ordinal(self) -> nat {
        match self {
            NodeType::NORMAL => 0,
            NodeType::LONG_EDGE => 1,
            NodeType::EXTERNAL_PORT => 2,
            NodeType::NORTH_SOUTH_PORT => 3,
            NodeType::LABEL => 4,
            NodeType::BREAKING_POINT => 5,
        }
    }

    open spec fn spec_name(self) -> Seq<char> {
        match self {
            NodeType::NORMAL => "NORMAL"@,
            NodeType::LONG_EDGE => "LONG_EDGE"@,
            NodeType::EXTERNAL_PORT => "EXTERNAL_PORT"@,
            NodeType::NORTH_SOUTH_PORT => "NORTH_SOUTH_PORT"@,
            NodeType::LABEL => "LABEL"@,
            NodeType::BREAKING_POINT => "BREAKING_POINT"@,
        }
    }

    open spec fn spec_from_ordinal(i: nat) -> Self {
        if i == 0 {
            NodeType::NORMAL
        } else if i == 1 {
            NodeType::LONG_EDGE
        } else if i == 2 {
            NodeType::EXTERNAL_PORT
        } else if i == 3 {
            NodeType::NORTH_SOUTH_PORT
        } else if i == 4 {
            NodeType::LABEL
        } else {
            NodeType::BREAKING_POINT
        }
    }

    open spec fn spec_kind() -> u32 {
        8
    }

    fn kind() -> (r: u32) {
        8
    }

    proof fn lemma_ordinal_bound(v: Self) {
    }

    proof fn lemma_from_ordinal(i: nat) {
    }

    proof fn lemma_distinct(a: Self, b: Self) {
        reveal_strlit("NORMAL");
        reveal_strlit("LONG_EDGE");
        reveal_strlit("EXTERNAL_PORT");
        reveal_strlit("NORTH_SOUTH_PORT");
        reveal_strlit("LABEL");
        reveal_strlit("BREAKING_POINT");
        if a.spec_name() == b.spec_name() {
            assert(a.spec_name().len() == b.spec_name().len());
        }
    }

    fn ordinal(&self) -> (r: usize) {
        match self {
            NodeType::NORMAL => 0,
            NodeType::LONG_EDGE => 1,
            NodeType::EXTERNAL_PORT => 2,
            NodeType::NORTH_SOUTH_PORT => 3,
            NodeType::LABEL => 4,
            NodeType::BREAKING_POINT => 5,
        }
    }

    fn values() -> (r: Vec<Self>) {
        vec![NodeType::NORMAL, NodeType::LONG_EDGE, NodeType::EXTERNAL_PORT, NodeType::NORTH_SOUTH_PORT, NodeType::LABEL, NodeType::BREAKING_POINT]
    }

    fn name(&self) -> (r: &'static str) {
        match self {
            NodeType::NORMAL => "NORMAL",
            NodeType::LONG_EDGE => "LONG_EDGE",
            NodeType::EXTERNAL_PORT => "EXTERNAL_PORT",
            NodeType::NORTH_SOUTH_PORT => "NORTH_SOUTH_PORT",
            NodeType::LABEL => "LABEL",
            NodeType::BREAKING_POINT => "BREAKING_POINT",
        }
    }

    fn from_name(s: &str) -> (r: Option<Self>) {
        let vals = Self::values();
        let mut i: usize = 0;
        while i < vals.len()
            invariant
                vals@.len() == Self::spec_count(),
                forall|j: int| 0 <= j < vals@.len() ==> (#[trigger] vals@[j]).spec_ordinal() == j,
                i <= vals@.len(),
                forall|j: int| 0 <= j < i ==> (#[trigger] vals@[j]).spec_name() != s@,
            decreases vals@.len() - i,
        {
            let v = vals[i];
            if str_eq(v.name(), s) {
                return Some(v);
            }
            i = i + 1;
        }
        proof {
            assert forall|v: Self| #[trigger] v.spec_name() != s@ by {
                let j = v.spec_ordinal() as int;
                Self::lemma_distinct(v, vals@[j]);
            }
        }
        None
    }
}

impl PropValue for NodeType {
    open spec fn stored_spec(&self) -> StoredValue {
        variant_stored(*self)
    }

    open spec fn decoded_spec(v: StoredValue) -> Option<Self> {
        variant_decoded::<Self>(v)
    }

    open spec fn value_ok(&self) -> bool {
        true
    }

    open spec fn is_default(x: Self) -> bool {
        x.spec_ordinal() == 0
    }

    proof fn lemma_round_trip(x: Self) {
        lemma_variant_round_trip(x);
    }

    fn to_stored(&self) -> (r: StoredValue) {
        variant_to_stored(self)
    }

    fn from_stored(v: &StoredValue) -> (r: Option<Self>) {
        variant_from_stored(v)
    }

    fn copy_value(&self) -> (r: Self) {
        *self
    }

    fn default_value() -> (r: Self) {
        first_variant()
    }
}

impl JavaString for NodeType {
    open spec fn spec_java_string(&self) -> Seq<char> {
        self.spec_name()
    }

    fn java_string(&self) -> (r: String) {
        String::from_str(self.name())
    }
}

#[allow(non_camel_case_types)]
/// How connected components are ordered by the model order.
#[derive(Clone, Copy, Debug, PartialEq, Eq, Structural, Hash)]
pub enum ComponentOrderingStrategy {
    NONE,
    INSIDE_PORT_SIDE_GROUPS,
    GROUP_MODEL_ORDER,
    MODEL_ORDER,
}

impl ElkEnum for ComponentOrderingStrategy {
    open spec fn spec_count() -> nat {
        4
    }

    open spec fn spec_ordinal(self) -> nat {
        match self {
            ComponentOrderingStrategy::NONE => 0,
            ComponentOrderingStrategy::INSIDE_PORT_SIDE_GROUPS => 1,
            ComponentOrderingStrategy::GROUP_MODEL_ORDER => 2,
            ComponentOrderingStrategy::MODEL_ORDER => 3,
        }
    }

    open spec fn spec_name(self) -> Seq<char> {
        match self {
            ComponentOrderingStrategy::NONE => "NONE"@,
            ComponentOrderingStrategy::INSIDE_PORT_SIDE_GROUPS => "INSIDE_PORT_SIDE_GROUPS"@,
            ComponentOrderingStrategy::GROUP_MODEL_ORDER => "GROUP_MODEL_ORDER"@,
            ComponentOrderingStrategy::MODEL_ORDER => "MODEL_ORDER"@,
        }
    }

    open spec fn spec_from_ordinal(i: nat) -> Self {
        if i == 0 {
            ComponentOrderingStrategy::NONE
        } else if i == 1 {
            ComponentOrderingStrategy::INSIDE_PORT_SIDE_GROUPS
        } else if i == 2 {
            ComponentOrderingStrategy::GROUP_MODEL_ORDER
        } else {
            ComponentOrderingStrategy::MODEL_ORDER
        }
    }

    open spec fn spec_kind() -> u32 {
        9
    }

    fn kind() -> (r: u32) {
        9
    }

    proof fn lemma_ordinal_bound(v: Self) {
    }

    proof fn lemma_from_ordinal(i: nat) {
    }

    proof fn lemma_distinct(a: Self, b: Self) {
        reveal_strlit("NONE");
        reveal_strlit("INSIDE_PORT_SIDE_GROUPS");
        reveal_strlit("GROUP_MODEL_ORDER");
        reveal_strlit("MODEL_ORDER");
        if a.spec_name() == b.spec_name() {
            assert(a.spec_name().len() == b.spec_name().len());
        }
    }

    fn ordinal(&self) -> (r: usize) {
        match self {
            ComponentOrderingStrategy::NONE => 0,
            ComponentOrderingStrategy::INSIDE_PORT_SIDE_GROUPS => 1,
            ComponentOrderingStrategy::GROUP_MODEL_ORDER => 2,
            ComponentOrderingStrategy::MODEL_ORDER => 3,
        }
    }

    fn values() -> (r: Vec<Self>) {
        vec![ComponentOrderingStrategy::NONE, ComponentOrderingStrategy::INSIDE_PORT_SIDE_GROUPS, ComponentOrderingStrategy::GROUP_MODEL_ORDER, ComponentOrderingStrategy::MODEL_ORDER]
    }

    fn name(&self) -> (r: &'static str) {
        match self {
            ComponentOrderingStrategy::NONE => "NONE",
            ComponentOrderingStrategy::INSIDE_PORT_SIDE_GROUPS => "INSIDE_PORT_SIDE_GROUPS",
            ComponentOrderingStrategy::GROUP_MODEL_ORDER => "GROUP_MODEL_ORDER",
            ComponentOrderingStrategy::MODEL_ORDER => "MODEL_ORDER",
        }
    }

    fn from_name(s: &str) -> (r: Option<Self>) {
        let vals = Self::values();
        let mut i: usize = 0;
        while i < vals.len()
            invariant
                vals@.len() == Self::spec_count(),
                forall|j: int| 0 <= j < vals@.len() ==> (#[trigger] vals@[j]).spec_ordinal() == j,
                i <= vals@.len(),
                forall|j: int| 0 <= j < i ==> (#[trigger] vals@[j]).spec_name() != s@,
            decreases vals@.len() - i,
        {
            let v = vals[i];
            if str_eq(v.name(), s) {
                return Some(v);
            }
            i = i + 1;
        }
        proof {
            assert forall|v: Self| #[trigger] v.spec_name() != s@ by {
                let j = v.spec_ordinal() as int;
                Self::lemma_distinct(v, vals@[j]);
            }
        }
        None
    }
}

impl PropValue for ComponentOrderingStrategy {
    open spec fn stored_spec(&self) -> StoredValue {
        variant_stored(*self)
    }

    open spec fn decoded_spec(v: StoredValue) -> Option<Self> {
        variant_decoded::<Self>(v)
    }

    open spec fn value_ok(&self) -> bool {
        true
    }

    open spec fn is_default(x: Self) -> bool {
        x.spec_ordinal() == 0
    }

    proof fn lemma_round_trip(x: Self) {
        lemma_variant_round_trip(x);
    }

    fn to_stored(&self) -> (r: StoredValue) {
        variant_to_stored(self)
    }

    fn from_stored(v: &StoredValue) -> (r: Option<Self>) {
        variant_from_stored(v)
    }

    fn copy_value(&self) -> (r: Self) {
        *self
    }

    fn default_value() -> (r: Self) {
        first_variant()
    }
}

impl JavaString for ComponentOrderingStrategy {
    open spec fn spec_java_string(&self) -> Seq<char> {
        self.spec_name()
    }

    fn java_string(&self) -> (r: String) {
        String::from_str(self.name())
    }
}

/// Position of a defined side in clockwise order starting at north.
pub open spec fn clockwise_index(s: PortSide) -> int {
    match s {
        PortSide::NORTH => 0,
        PortSide::EAST => 1,
        PortSide::SOUTH => 2,
        PortSide::WEST => 3,
        PortSide::UNDEFINED => -1,
    }
}

/// The defined side at the given clockwise position (taken modulo four).
pub open spec fn side_at(i: int) -> PortSide {
    let k = i % 4;
    if k == 0 {
        PortSide::NORTH
    } else if k == 1 {
        PortSide::EAST
    } else if k == 2 {
        PortSide::SOUTH
    } else {
        PortSide::WEST
    }
}

/// The side `steps` quarter turns clockwise from `s`; undefined stays undefined.
pub open spec fn rotate(s: PortSide, steps: int) -> PortSide {
    if s == PortSide::UNDEFINED {
        PortSide::UNDEFINED
    } else {
        side_at(clockwise_index(s) + steps)
    }
}

/// Two defined sides meet at a corner of the node: they are a quarter turn apart.
pub open spec fn sides_adjacent(a: PortSide, b: PortSide) -> bool {
    a != PortSide::UNDEFINED && b != PortSide::UNDEFINED && (clockwise_index(a) - clockwise_index(b))
        % 2 != 0
}

/// The side of a node that faces the given layout direction.
pub open spec fn facing_side(d: Direction) -> PortSide {
    match d {
        Direction::UP => PortSide::NORTH,
        Direction::RIGHT => PortSide::EAST,
        Direction::DOWN => PortSide::SOUTH,
        Direction::LEFT => PortSide::WEST,
        Direction::UNDEFINED => PortSide::UNDEFINED,
    }
}

/// Sides on the top and bottom of a node.
pub open spec fn side_is_vertical(s: PortSide) -> bool {
    s == PortSide::NORTH || s == PortSide::SOUTH
}

/// Sides on the left and right of a node.
pub open spec fn side_is_horizontal(s: PortSide) -> bool {
    s == PortSide::WEST || s == PortSide::EAST
}

/// Directions along the x axis.
pub open spec fn direction_is_horizontal(d: Direction) -> bool {
    d == Direction::LEFT || d == Direction::RIGHT
}

/// Directions along the y axis.
pub open spec fn direction_is_vertical(d: Direction) -> bool {
    d == Direction::UP || d == Direction::DOWN
}

/// The reverse of a direction; undefined stays undefined.
pub open spec fn reversed_direction(d: Direction) -> Direction {
    match d {
        Direction::LEFT => Direction::RIGHT,
        Direction::RIGHT => Direction::LEFT,
        Direction::UP => Direction::DOWN,
        Direction::DOWN => Direction::UP,
        Direction::UNDEFINED => Direction::UNDEFINED,
    }
}

/// Constraints that fix the side of every port.
pub open spec fn side_fixed(c: PortConstraints) -> bool {
    c != PortConstraints::FREE && c != PortConstraints::UNDEFINED
}

/// Constraints that fix the order of the ports on each side.
pub open spec fn order_fixed(c: PortConstraints) -> bool {
    c == PortConstraints::FIXED_ORDER || c == PortConstraints::FIXED_RATIO || c
        == PortConstraints::FIXED_POS
}

impl PortSide {
    /// Side after this one in clockwise order.
    pub fn right(self) -> (r: PortSide)
        ensures
            r == rotate(self, 1),
    {
        match self {
            PortSide::NORTH => PortSide::EAST,
            PortSide::EAST => PortSide::SOUTH,
            PortSide::SOUTH => PortSide::WEST,
            PortSide::WEST => PortSide::NORTH,
            PortSide::UNDEFINED => PortSide::UNDEFINED,
        }
    }

    /// Side before this one in clockwise order.
    pub fn left(self) -> (r: PortSide)
        ensures
            r == rotate(self, 3),
    {
        match self {
            PortSide::NORTH => PortSide::WEST,
            PortSide::EAST => PortSide::NORTH,
            PortSide::SOUTH => PortSide::EAST,
            PortSide::WEST => PortSide::SOUTH,
            PortSide::UNDEFINED => PortSide::UNDEFINED,
        }
    }

    /// The side across the node.
    pub fn opposed(self) -> (r: PortSide)
        ensures
            r == rotate(self, 2),
    {
        match self {
            PortSide::NORTH => PortSide::SOUTH,
            PortSide::EAST => PortSide::WEST,
            PortSide::SOUTH => PortSide::NORTH,
            PortSide::WEST => PortSide::EAST,
            PortSide::UNDEFINED => PortSide::UNDEFINED,
        }
    }

    /// Whether the two sides meet at a corner.
    pub fn are_adjacent(self, other: PortSide) -> (r: bool)
        ensures
            r == sides_adjacent(self, other),
    {
        if self == PortSide::UNDEFINED {
            false
        } else {
            self.left() == other || self.right() == other
        }
    }

    /// The side that faces the given direction.
    pub fn from_direction(direction: Direction) -> (r: PortSide)
        ensures
            r == facing_side(direction),
    {
        match direction {
            Direction::UP => PortSide::NORTH,
            Direction::RIGHT => PortSide::EAST,
            Direction::DOWN => PortSide::SOUTH,
            Direction::LEFT => PortSide::WEST,
            Direction::UNDEFINED => PortSide::UNDEFINED,
        }
    }

    pub fn is_vertical(side: PortSide) -> (r: bool)
        ensures
            r == side_is_vertical(side),
    {
        side == PortSide::NORTH || side == PortSide::SOUTH
    }

    pub fn is_horizontal(side: PortSide) -> (r: bool)
        ensures
            r == side_is_horizontal(side),
    {
        side == PortSide::WEST || side == PortSide::EAST
    }
}

impl Direction {
    pub fn is_horizontal(self) -> (r: bool)
        ensures
            r == direction_is_horizontal(self),
    {
        self == Direction::LEFT || self == Direction::RIGHT
    }

    pub fn is_vertical(self) -> (r: bool)
        ensures
            r == direction_is_vertical(self),
    {
        self == Direction::UP || self == Direction::DOWN
    }

    pub fn opposite(self) -> (r: Direction)
        ensures
            r == reversed_direction(self),
    {
        match self {
            Direction::LEFT => Direction::RIGHT,
            Direction::RIGHT => Direction::LEFT,
            Direction::UP => Direction::DOWN,
            Direction::DOWN => Direction::UP,
            Direction::UNDEFINED => Direction::UNDEFINED,
        }
    }
}

impl PortConstraints {
    pub fn is_pos_fixed(self) -> (r: bool)
        ensures
            r == (self == PortConstraints::FIXED_POS),
    {
        self == PortConstraints::FIXED_POS
    }

    pub fn is_ratio_fixed(self) -> (r: bool)
        ensures
            r == (self == PortConstraints::FIXED_RATIO),
    {
        self == PortConstraints::FIXED_RATIO
    }

    pub fn is_order_fixed(self) -> (r: bool)
        ensures
            r == order_fixed(self),
    {
        matches!(
            self,
            PortConstraints::FIXED_ORDER | PortConstraints::FIXED_RATIO | PortConstraints::FIXED_POS
        )
    }

    pub fn is_side_fixed(self) -> (r: bool)
        ensures
            r == side_fixed(self),
    {
        self != PortConstraints::FREE && self != PortConstraints::UNDEFINED
    }
}

impl SizeConstraint {
    /// The constraints of a fixed size: the empty set.
    pub fn fixed() -> (r: EnumSet<SizeConstraint>)
        ensures
            r@ == Set::<SizeConstraint>::empty(),
    {
        EnumSet::none()
    }

    /// The constraints of a free size: ports, port labels and node labels.
    pub fn free() -> (r: EnumSet<SizeConstraint>)
        ensures
            r@ == set![SizeConstraint::PORTS, SizeConstraint::PORT_LABELS, SizeConstraint::NODE_LABELS],
    {
        let r = EnumSet::of(
            &[SizeConstraint::PORTS, SizeConstraint::PORT_LABELS, SizeConstraint::NODE_LABELS],
        );
        proof {
            let s = seq![SizeConstraint::PORTS, SizeConstraint::PORT_LABELS, SizeConstraint::NODE_LABELS];
            assert(s.to_set() =~= set![SizeConstraint::PORTS, SizeConstraint::PORT_LABELS, SizeConstraint::NODE_LABELS]) by {
                assert(s[0] == SizeConstraint::PORTS);
                assert(s[1] == SizeConstraint::PORT_LABELS);
                assert(s[2] == SizeConstraint::NODE_LABELS);
            }
        }
        r
    }
}

/// Quarter turns compose: turning right undoes turning left, two right turns
/// reach the opposite side, and turning to the opposite side twice is no turn.
pub proof fn lemma_side_rotation(s: PortSide)
    ensures
        rotate(rotate(s, 3), 1) == s,
        rotate(rotate(s, 1), 3) == s,
        rotate(rotate(s, 1), 1) == rotate(s, 2),
        rotate(rotate(s, 3), 3) == rotate(s, 2),
        rotate(rotate(s, 2), 2) == s,
        rotate(s, 2) != s || s == PortSide::UNDEFINED,
{
}

/// Adjacency is symmetric; a side is adjacent to its left and right
/// neighbours and neither to itself nor to its opposite.
pub proof fn lemma_side_adjacency(a: PortSide, b: PortSide)
    ensures
        sides_adjacent(a, b) == sides_adjacent(b, a),
        a != PortSide::UNDEFINED ==> sides_adjacent(a, rotate(a, 1)) && sides_adjacent(a, rotate(a, 3)),
        !sides_adjacent(a, a),
        !sides_adjacent(a, rotate(a, 2)),
{
}

/// Every defined side is either horizontal or vertical, never both, and a
/// quarter turn switches between the two.
pub proof fn lemma_side_axes(s: PortSide)
    ensures
        !(side_is_vertical(s) && side_is_horizontal(s)),
        s != PortSide::UNDEFINED ==> (side_is_vertical(s) || side_is_horizontal(s)),
        side_is_vertical(s) == side_is_horizontal(rotate(s, 1)),
        side_is_vertical(s) == side_is_vertical(rotate(s, 2)),
{
}

/// Reversing a direction twice gives it back; the reverse keeps the axis and
/// faces the opposite side; a direction's axis matches that of its side.
pub proof fn lemma_direction_reversal(d: Direction)
    ensures
        reversed_direction(reversed_direction(d)) == d,
        direction_is_horizontal(reversed_direction(d)) == direction_is_horizontal(d),
        direction_is_vertical(reversed_direction(d)) == direction_is_vertical(d),
        facing_side(reversed_direction(d)) == rotate(facing_side(d), 2),
        direction_is_horizontal(d) == side_is_horizontal(facing_side(d)),
        direction_is_vertical(d) == side_is_vertical(facing_side(d)),
{
}

/// Fixed positions and fixed ratios fix the port order, and a fixed order
/// fixes the sides.
pub proof fn lemma_constraint_hierarchy(c: PortConstraints)
    ensures
        c == PortConstraints::FIXED_POS ==> order_fixed(c),
        c == PortConstraints::FIXED_RATIO ==> order_fixed(c),
        order_fixed(c) ==> side_fixed(c),
{
}

/// A direction's name says where it points: the direction named LEFT is the
/// one facing WEST, RIGHT faces EAST, UP faces NORTH, DOWN faces SOUTH, and
/// UNDEFINED faces no side.
pub proof fn lemma_direction_names(d: Direction)
    ensures
        d.spec_name() == "LEFT"@ <==> facing_side(d) == PortSide::WEST,
        d.spec_name() == "RIGHT"@ <==> facing_side(d) == PortSide::EAST,
        d.spec_name() == "UP"@ <==> facing_side(d) == PortSide::NORTH,
        d.spec_name() == "DOWN"@ <==> facing_side(d) == PortSide::SOUTH,
        d.spec_name() == "UNDEFINED"@ <==> facing_side(d) == PortSide::UNDEFINED,
{
    reveal_strlit("LEFT");
    reveal_strlit("RIGHT");
    reveal_strlit("UP");
    reveal_strlit("DOWN");
    reveal_strlit("UNDEFINED");
    assert("LEFT"@[0] == 'L' && "RIGHT"@[0] == 'R' && "UP"@[0] == 'U' && "DOWN"@[0] == 'D');
    assert("UP"@.len() == 2 && "UNDEFINED"@.len() == 9);
    match d {
        Direction::UNDEFINED => {}
        Direction::RIGHT => {}
        Direction::LEFT => {}
        Direction::DOWN => {}
        Direction::UP => {}
    }
}

/// A side's name says where it lies: the side named NORTH is the one an
/// upward direction faces, EAST a rightward one, SOUTH a downward one, WEST
/// a leftward one.
pub proof fn lemma_side_names(s: PortSide)
    ensures
        s.spec_name() == "NORTH"@ <==> s == facing_side(Direction::UP),
        s.spec_name() == "EAST"@ <==> s == facing_side(Direction::RIGHT),
        s.spec_name() == "SOUTH"@ <==> s == facing_side(Direction::DOWN),
        s.spec_name() == "WEST"@ <==> s == facing_side(Direction::LEFT),
        s.spec_name() == "UNDEFINED"@ <==> s == facing_side(Direction::UNDEFINED),
{
    reveal_strlit("NORTH");
    reveal_strlit("EAST");
    reveal_strlit("SOUTH");
    reveal_strlit("WEST");
    reveal_strlit("UNDEFINED");
    assert("NORTH"@[0] == 'N' && "EAST"@[0] == 'E' && "SOUTH"@[0] == 'S' && "WEST"@[0] == 'W' && "UNDEFINED"@[0] == 'U');
}

} // verus!
