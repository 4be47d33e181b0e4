//! Which parameters of a mixture an accumulator carries statistics for.

use vstd::prelude::*;

verus! {

/// A set of parameters: bit 0 the means, bit 1 the variances, bit 2 the weights.
#[derive(Clone, Copy, Debug, PartialEq, Eq, Structural)]
pub struct GmmFlags(pub u8);

/// `flags` holds every bit of `part`.
pub open spec fn holds(flags: u8, part: u8) -> bool {
    flags & part == part
}

/// The flags with what they imply: variances imply means, and weights are always there.
pub open spec fn augmented(flags: u8) -> u8 {
    flags | 4u8 | (if holds(flags, 2) {
        1u8
    } else {
        0u8
    })
}

impl GmmFlags {
    /// The means.
    pub fn means() -> (r: GmmFlags)
        ensures
            r == GmmFlags(1),
    {
        GmmFlags(1)
    }

    /// The variances.
    pub fn variances() -> (r: GmmFlags)
        ensures
            r == GmmFlags(2),
    {
        GmmFlags(2)
    }

    /// The weights.
    pub fn weights() -> (r: GmmFlags)
        ensures
            r == GmmFlags(4),
    {
        GmmFlags(4)
    }

    /// All three.
    pub fn all() -> (r: GmmFlags)
        ensures
            r == GmmFlags(7),
    {
        GmmFlags(7)
    }

    /// Whether every flag of `other` is set.
    pub fn contains(self, other: GmmFlags) -> (r: bool)
        ensures
            r == holds(self.0, other.0),
    {
        (self.0 & other.0) == other.0
    }

    /// Whether some flag of `other` is set.
    pub fn intersects(self, other: GmmFlags) -> (r: bool)
        ensures
            r == (self.0 & other.0 != 0),
    {
        (self.0 & other.0) != 0
    }

    pub fn union(self, other: GmmFlags) -> (r: GmmFlags)
        ensures
            r.0 == self.0 | other.0,
    {
        GmmFlags(self.0 | other.0)
    }

    pub fn is_empty(self) -> (r: bool)
        ensures
            r == (self.0 == 0),
    {
        self.0 == 0
    }

    /// The flags with what they imply: variances imply means, means imply weights, and weights
    /// are added in any case.
    pub fn augment(self) -> (r: GmmFlags)
        requires
            self.0 <= 7,
        ensures
            r.0 == augmented(self.0),
            r.0 <= 7,
    {
        let mut f = self;
        if f.contains(GmmFlags::variances()) {
            f = f.union(GmmFlags::means());
        }
        if f.contains(GmmFlags::means()) {
            f = f.union(GmmFlags::weights());
        }
        if !f.contains(GmmFlags::weights()) {
            f = f.union(GmmFlags::weights());
        }
        proof {
            let a = self.0;
            let b = if holds(a, 2) {
                a | 1u8
            } else {
                a
            };
            assert(b & 1u8 == 1u8 ==> (b | 4u8) & 4u8 == 4u8) by (bit_vector);
            assert(b & 4u8 == 4u8 ==> b == b | 4u8) by (bit_vector);
            assert(a | 1u8 | 4u8 == a | 4u8 | 1u8) by (bit_vector);
            assert(a | 4u8 | 0u8 == a | 4u8) by (bit_vector);
            assert(a <= 7u8 ==> a | 4u8 | 1u8 <= 7u8) by (bit_vector);
            assert(a <= 7u8 ==> a | 4u8 | 0u8 <= 7u8) by (bit_vector);
        }
        f
    }

    /// The flags as letters: `m` for means, `v` for variances, `w` for weights.
    pub fn to_string(&self) -> (r: String)
        ensures
            r@ == (if holds(self.0, 1) {
                seq!['m']
            } else {
                seq![]
            }) + (if holds(self.0, 2) {
                seq!['v']
            } else {
                seq![]
            }) + (if holds(self.0, 4) {
                seq!['w']
            } else {
                seq![]
            }),
    {
        let mut out = String::new();
        if self.contains(GmmFlags::means()) {
            out.push('m');
        }
        if self.contains(GmmFlags::variances()) {
            out.push('v');
        }
        if self.contains(GmmFlags::weights()) {
            out.push('w');
        }
        out
    }
}

impl core::ops::BitOr for GmmFlags {
    type Output = GmmFlags;

    fn bitor(self, rhs: GmmFlags) -> (r: GmmFlags) {
        GmmFlags(self.0 | rhs.0)
    }
}

impl vstd::std_specs::ops::BitOrSpecImpl for GmmFlags {
    open spec fn obeys_bitor_spec() -> bool {
        true
    }

    open spec fn bitor_req(self, rhs: GmmFlags) -> bool {
        true
    }

    open spec fn bitor_spec(self, rhs: GmmFlags) -> GmmFlags {
        GmmFlags(self.0 | rhs.0)
    }
}

impl core::ops::BitAnd for GmmFlags {
    type Output = GmmFlags;

    fn bitand(self, rhs: GmmFlags) -> (r: GmmFlags) {
        GmmFlags(self.0 & rhs.0)
    }
}

impl vstd::std_specs::ops::BitAndSpecImpl for GmmFlags {
    open spec fn obeys_bitand_spec() -> bool {
        true
    }

    open spec fn bitand_req(self, rhs: GmmFlags) -> bool {
        true
    }

    open spec fn bitand_spec(self, rhs: GmmFlags) -> GmmFlags {
        GmmFlags(self.0 & rhs.0)
    }
}

/// Augmenting adds flags and takes none away, leaves nothing to add, and always gives weights.
pub proof fn augmenting_is_a_closure(flags: u8)
    requires
        flags <= 7,
    ensures
        holds(augmented(flags), flags),
        augmented(augmented(flags)) == augmented(flags),
        holds(augmented(flags), 4),
        holds(flags, 2) ==> holds(augmented(flags), 1),
{
    let a = flags;
    assert((a | 4u8 | 1u8) & a == a && (a | 4u8 | 0u8) & a == a) by (bit_vector);
    assert((a | 4u8 | 1u8) & 4u8 == 4u8 && (a | 4u8 | 0u8) & 4u8 == 4u8) by (bit_vector);
    assert((a | 4u8 | 1u8) & 1u8 == 1u8) by (bit_vector);
    assert((a | 4u8 | 1u8) & 2u8 == a & 2u8 && (a | 4u8 | 0u8) & 2u8 == a & 2u8) by (bit_vector);
    assert((a | 4u8 | 1u8) | 4u8 | 1u8 == a | 4u8 | 1u8) by (bit_vector);
    assert((a | 4u8 | 0u8) | 4u8 | 0u8 == a | 4u8 | 0u8) by (bit_vector);
}

/// A union holds both of its parts, and whatever holds both parts holds the union.
pub proof fn union_is_least(a: u8, b: u8, c: u8)
    ensures
        holds(a | b, a),
        holds(a | b, b),
        holds(c, a) && holds(c, b) ==> holds(c, a | b),
{
    assert((a | b) & a == a) by (bit_vector);
    assert((a | b) & b == b) by (bit_vector);
    assert(c & a == a && c & b == b ==> c & (a | b) == a | b) by (bit_vector);
}

} // verus!
