//! The switches that change how a path is resolved.

use vstd::prelude::*;

verus! {

/// The bit of [`RealpathFlags::allow_missing`].
pub const ALLOW_MISSING: u32 = 0x01;

/// The bit of [`RealpathFlags::allow_last_missing`].
pub const ALLOW_LAST_MISSING: u32 = 0x02;

/// The bit of [`RealpathFlags::ignore_symlinks`].
pub const IGNORE_SYMLINKS: u32 = 0x04;

/// The bits of all switches.
pub const ALL: u32 = 0x07;

/// A set of switches for path resolution.
#[derive(Clone, Copy, Debug, PartialEq, Eq, Structural, Hash)]
pub struct RealpathFlags {
    /// The switches, one bit each.
    pub bits: u32,
}

impl RealpathFlags {
    /// Whether every switch of `other` is set in `self`.
    pub open spec fn has(self, other: RealpathFlags) -> bool {
        self.bits & other.bits == other.bits
    }

    /// Whether any component may be missing, closed to the caller, or no
    /// directory where it should be one.
    pub open spec fn allows_missing(self) -> bool {
        self.has(RealpathFlags { bits: ALLOW_MISSING })
    }

    /// Whether the last component may be missing.
    pub open spec fn allows_last_missing(self) -> bool {
        self.has(RealpathFlags { bits: ALLOW_LAST_MISSING })
    }

    /// Whether symbolic links are left unfollowed.
    pub open spec fn ignores_symlinks(self) -> bool {
        self.has(RealpathFlags { bits: IGNORE_SYMLINKS })
    }

    /// No switch.
    pub fn empty() -> (r: Self)
        ensures
            r.bits == 0,
    {
        RealpathFlags { bits: 0 }
    }

    /// Every switch.
    pub fn all() -> (r: Self)
        ensures
            r.bits == ALL,
    {
        RealpathFlags { bits: ALL }
    }

    /// Any component of the path may be missing, may be closed to the caller,
    /// or may be no directory where it should be one.
    pub fn allow_missing() -> (r: Self)
        ensures
            r.bits == ALLOW_MISSING,
    {
        RealpathFlags { bits: ALLOW_MISSING }
    }

    /// The last component of the path may be missing.
    pub fn allow_last_missing() -> (r: Self)
        ensures
            r.bits == ALLOW_LAST_MISSING,
    {
        RealpathFlags { bits: ALLOW_LAST_MISSING }
    }

    /// Symbolic links are not followed. Each component still has to exist.
    pub fn ignore_symlinks() -> (r: Self)
        ensures
            r.bits == IGNORE_SYMLINKS,
    {
        RealpathFlags { bits: IGNORE_SYMLINKS }
    }

    /// The switches as bits of one number.
    pub fn bits(&self) -> (r: u32)
        ensures
            r == self.bits,
    {
        self.bits
    }

    /// The set with the bits `bits`, unless a bit among them is no switch.
    pub fn from_bits(bits: u32) -> (r: Option<Self>)
        ensures
            r == if bits & !ALL == 0 {
                Some(RealpathFlags { bits })
            } else {
                None
            },
    {
        if bits & !ALL == 0 {
            Some(RealpathFlags { bits })
        } else {
            None
        }
    }

    /// The set with those of the bits `bits` that are switches.
    pub fn from_bits_truncate(bits: u32) -> (r: Self)
        ensures
            r.bits == bits & ALL,
    {
        RealpathFlags { bits: bits & ALL }
    }

    /// Whether no switch is set.
    pub fn is_empty(&self) -> (r: bool)
        ensures
            r == (self.bits == 0),
    {
        self.bits == 0
    }

    /// Whether every switch of `other` is set in `self`.
    pub fn contains(&self, other: RealpathFlags) -> (r: bool)
        ensures
            r == self.has(other),
    {
        self.bits & other.bits == other.bits
    }

    /// The switches of both sets.
    pub fn union(self, other: RealpathFlags) -> (r: Self)
        ensures
            r.bits == self.bits | other.bits,
    {
        RealpathFlags { bits: self.bits | other.bits }
    }

    /// Sets the switches of `other`.
    pub fn insert(&mut self, other: RealpathFlags)
        ensures
            final(self).bits == old(self).bits | other.bits,
    {
        self.bits = self.bits | other.bits;
    }

    /// Clears the switches of `other`.
    pub fn remove(&mut self, other: RealpathFlags)
        ensures
            final(self).bits == old(self).bits & !other.bits,
    {
        self.bits = self.bits & !other.bits;
    }
}

/// A switch is set in a union where it is set in one of the two sets, and
/// each of the three switches stands for itself alone.
pub proof fn law_switches(a: RealpathFlags, b: RealpathFlags)
    ensures
        (RealpathFlags { bits: a.bits | b.bits }).allows_missing() == (a.allows_missing()
            || b.allows_missing()),
        (RealpathFlags { bits: a.bits | b.bits }).allows_last_missing() == (
        a.allows_last_missing() || b.allows_last_missing()),
        (RealpathFlags { bits: a.bits | b.bits }).ignores_symlinks() == (a.ignores_symlinks()
            || b.ignores_symlinks()),
        !(RealpathFlags { bits: 0 }).allows_missing(),
        !(RealpathFlags { bits: 0 }).allows_last_missing(),
        !(RealpathFlags { bits: 0 }).ignores_symlinks(),
        (RealpathFlags { bits: ALLOW_MISSING }).allows_missing(),
        !(RealpathFlags { bits: ALLOW_MISSING }).allows_last_missing(),
        !(RealpathFlags { bits: ALLOW_MISSING }).ignores_symlinks(),
        !(RealpathFlags { bits: ALLOW_LAST_MISSING }).allows_missing(),
        (RealpathFlags { bits: ALLOW_LAST_MISSING }).allows_last_missing(),
        !(RealpathFlags { bits: ALLOW_LAST_MISSING }).ignores_symlinks(),
        !(RealpathFlags { bits: IGNORE_SYMLINKS }).allows_missing(),
        !(RealpathFlags { bits: IGNORE_SYMLINKS }).allows_last_missing(),
        (RealpathFlags { bits: IGNORE_SYMLINKS }).ignores_symlinks(),
{
    let x = a.bits;
    let y = b.bits;
    assert(((x | y) & 1u32 == 1u32) == ((x & 1u32 == 1u32) || (y & 1u32 == 1u32))) by (bit_vector);
    assert(((x | y) & 2u32 == 2u32) == ((x & 2u32 == 2u32) || (y & 2u32 == 2u32))) by (bit_vector);
    assert(((x | y) & 4u32 == 4u32) == ((x & 4u32 == 4u32) || (y & 4u32 == 4u32))) by (bit_vector);
    assert(0u32 & 1u32 == 0u32) by (bit_vector);
    assert(0u32 & 2u32 == 0u32) by (bit_vector);
    assert(0u32 & 4u32 == 0u32) by (bit_vector);
    assert(1u32 & 1u32 == 1u32) by (bit_vector);
    assert(1u32 & 2u32 == 0u32) by (bit_vector);
    assert(1u32 & 4u32 == 0u32) by (bit_vector);
    assert(2u32 & 1u32 == 0u32) by (bit_vector);
    assert(2u32 & 2u32 == 2u32) by (bit_vector);
    assert(2u32 & 4u32 == 0u32) by (bit_vector);
    assert(4u32 & 1u32 == 0u32) by (bit_vector);
    assert(4u32 & 2u32 == 0u32) by (bit_vector);
    assert(4u32 & 4u32 == 4u32) by (bit_vector);
}

} // verus!
