use vstd::prelude::*;

verus! {

/// A set of collision layers, one bit per layer.
#[derive(Clone, Copy, Debug, PartialEq, Eq, Structural, Hash)]
pub struct CollisionLayers {
    bits: u32,
}

/// The layers an object belongs to and the layers it collides with.
#[derive(Clone, Copy, Debug, PartialEq, Eq, Structural, Hash)]
pub struct CollisionGroups {
    pub memberships: u32,
    pub filters: u32,
}

/// Every defined layer bit.
pub open spec fn all_layer_bits() -> u32 {
    0x1f
}

impl CollisionLayers {
    pub closed spec fn spec_bits(&self) -> u32 {
        self.bits
    }

    /// Static level geometry.
    pub fn static_layer() -> (r: CollisionLayers)
        ensures
            r.spec_bits() == 1,
    {
        CollisionLayers { bits: 1 }
    }

    /// Moving physics objects.
    pub fn dynamic() -> (r: CollisionLayers)
        ensures
            r.spec_bits() == 2,
    {
        assert(1u32 << 1u32 == 2u32) by (bit_vector);
        CollisionLayers { bits: 1 << 1 }
    }

    /// Surfaces agents can walk on.
    pub fn walkable() -> (r: CollisionLayers)
        ensures
            r.spec_bits() == 4,
    {
        assert(1u32 << 2u32 == 4u32) by (bit_vector);
        CollisionLayers { bits: 1 << 2 }
    }

    /// Agents: dynamic objects with their own layer.
    pub fn agents() -> (r: CollisionLayers)
        ensures
            r.spec_bits() == 0b1010,
    {
        assert(2u32 | (1u32 << 3u32) == 0b1010u32) by (bit_vector);
        CollisionLayers { bits: Self::dynamic().bits | 1 << 3 }
    }

    /// The player character: an agent with its own layer.
    pub fn character() -> (r: CollisionLayers)
        ensures
            r.spec_bits() == 0b11010,
    {
        assert(0b1010u32 | (1u32 << 4u32) == 0b11010u32) by (bit_vector);
        CollisionLayers { bits: Self::agents().bits | 1 << 4 }
    }

    pub fn static_and_dynamic() -> (r: CollisionLayers)
        ensures
            r.spec_bits() == 0b11,
    {
        assert(1u32 | 2u32 == 0b11u32) by (bit_vector);
        CollisionLayers { bits: Self::static_layer().bits | Self::dynamic().bits }
    }

    pub fn static_walkable() -> (r: CollisionLayers)
        ensures
            r.spec_bits() == 0b101,
    {
        assert(1u32 | 4u32 == 0b101u32) by (bit_vector);
        CollisionLayers { bits: Self::static_layer().bits | Self::walkable().bits }
    }

    /// The raw bits.
    pub fn bits(&self) -> (r: u32)
        ensures
            r == self.spec_bits(),
    {
        self.bits
    }

    /// The layers named by `bits`, dropping bits of no defined layer.
    pub fn from_bits_truncate(bits: u32) -> (r: CollisionLayers)
        ensures
            r.spec_bits() == bits & all_layer_bits(),
    {
        CollisionLayers { bits: bits & 0x1f }
    }

    /// Whether every layer of `other` is also in `self`.
    pub fn contains(&self, other: CollisionLayers) -> (r: bool)
        ensures
            r == (self.spec_bits() & other.spec_bits() == other.spec_bits()),
    {
        self.bits & other.bits == other.bits
    }

    /// The layers of both sets.
    pub fn union(self, other: CollisionLayers) -> (r: CollisionLayers)
        ensures
            r.spec_bits() == self.spec_bits() | other.spec_bits(),
    {
        CollisionLayers { bits: self.bits | other.bits }
    }

    /// Collision groups for an object on these layers that collides with
    /// the layers of `mask`.
    pub fn with_mask(self, mask: CollisionLayers) -> (r: CollisionGroups)
        ensures
            r == (CollisionGroups { memberships: self.spec_bits(), filters: mask.spec_bits() }),
    {
        CollisionGroups { memberships: self.bits, filters: mask.bits }
    }

    /// Static geometry, hit by dynamic objects.
    pub fn static_group() -> (r: CollisionGroups)
        ensures
            r == (CollisionGroups { memberships: 1, filters: 2 }),
    {
        Self::static_layer().with_mask(Self::dynamic())
    }

    /// Walkable static geometry, hit by dynamic objects.
    pub fn static_walkable_group() -> (r: CollisionGroups)
        ensures
            r == (CollisionGroups { memberships: 0b101, filters: 0b10 }),
    {
        Self::static_walkable().with_mask(Self::dynamic())
    }

    /// Dynamic objects, hitting static and dynamic objects.
    pub fn dynamic_group() -> (r: CollisionGroups)
        ensures
            r == (CollisionGroups { memberships: 0b10, filters: 0b11 }),
    {
        Self::dynamic().with_mask(Self::static_and_dynamic())
    }

    /// The character, hitting static geometry.
    pub fn character_group() -> (r: CollisionGroups)
        ensures
            r == (CollisionGroups { memberships: 0b11010, filters: 0b1 }),
    {
        Self::character().with_mask(Self::static_layer())
    }
}

/// The union of two sets of layers contains each of them, and a set that
/// contains both contains their union.
pub proof fn lemma_union_contains(a: CollisionLayers, b: CollisionLayers, c: CollisionLayers)
    ensures
        (a.spec_bits() | b.spec_bits()) & a.spec_bits() == a.spec_bits(),
        (a.spec_bits() | b.spec_bits()) & b.spec_bits() == b.spec_bits(),
        (c.spec_bits() & a.spec_bits() == a.spec_bits() && c.spec_bits() & b.spec_bits() == b.spec_bits())
            ==> c.spec_bits() & (a.spec_bits() | b.spec_bits()) == (a.spec_bits() | b.spec_bits()),
{
    let x = a.spec_bits();
    let y = b.spec_bits();
    let z = c.spec_bits();
    assert((x | y) & x == x) by (bit_vector);
    assert((x | y) & y == y) by (bit_vector);
    assert((z & x == x && z & y == y) ==> z & (x | y) == (x | y)) by (bit_vector);
}

} // verus!
