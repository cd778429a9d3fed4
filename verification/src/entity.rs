//! Entity handles.

use vstd::prelude::*;

verus! {

/// A handle to an entity: the index of its slot and the generation of that slot
/// at the time the handle was issued.
///
/// A handle owns nothing. It is valid for as long as its slot is live and still
/// has the handle's generation.
#[derive(Clone, Copy, Debug, PartialEq, Eq, Hash, Structural)]
pub struct Entity {
    pub id: u32,
    pub generation: u32,
}

/// The 64-bit encoding of a handle: the generation in the upper half, the id in
/// the lower half.
pub open spec fn bits_of(e: Entity) -> u64 {
    (e.generation as u64) << 32 | (e.id as u64)
}

impl Entity {
    /// The handle of slot `id` at `generation`.
    pub fn new(id: u32, generation: u32) -> (e: Entity)
        ensures
            e.id == id,
            e.generation == generation,
    {
        Entity { id, generation }
    }

    /// A handle that no store ever issues.
    pub open spec fn spec_dangling() -> Entity {
        Entity { id: u32::MAX, generation: u32::MAX }
    }

    /// A handle that no store ever issues.
    #[verifier::when_used_as_spec(spec_dangling)]
    pub fn dangling() -> (e: Entity)
        ensures
            e == Self::spec_dangling(),
    {
        Entity { id: u32::MAX, generation: u32::MAX }
    }

    /// The index of the handle's slot.
    pub fn id(&self) -> (id: u32)
        ensures
            id == self.id,
    {
        self.id
    }

    /// The generation the slot had when the handle was issued.
    pub fn generation(&self) -> (generation: u32)
        ensures
            generation == self.generation,
    {
        self.generation
    }

    /// The handle as one 64-bit value.
    pub fn to_bits(&self) -> (bits: u64)
        ensures
            bits == bits_of(*self),
    {
        (self.generation as u64) << 32 | (self.id as u64)
    }

    /// The handle that `bits` encodes.
    pub fn from_bits(bits: u64) -> (e: Entity)
        ensures
            bits_of(e) == bits,
            e.id == (bits & 0xffff_ffff) as u32,
            e.generation == (bits >> 32) as u32,
    {
        let id: u32 = (bits & 0xffff_ffff) as u32;
        let generation: u32 = (bits >> 32) as u32;
        assert(((bits >> 32) as u32 as u64) << 32 | ((bits & 0xffff_ffff) as u32 as u64) == bits)
            by (bit_vector);
        Entity { id, generation }
    }
}


} // verus!
