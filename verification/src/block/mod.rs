//! A block is a `u32` whose bits hold its kind, its flags and two light levels:
//! bits 0..12 the kind, bit 12 solid, bit 13 transparent,
//! bits 24..28 the sunlight level and bits 28..32 the block light level.

pub mod blockregistry;

pub use blockregistry::{BlockDef, BlockRegistry};

use vstd::prelude::*;

verus! {

pub const LIGHT_BIT_MASK: u32 = 0xF0000000;
pub const SUNLIGHT_BIT_MASK: u32 = 0x0F000000;
pub const KIND_BIT_MASK: u32 = 0x00000FFF;
pub const SOLID_BIT_MASK: u32 = 0x00001000;
pub const TRANSPARENT_BIT_MASK: u32 = 0x00002000;

pub type Block = u32;

/// Air is a special case with kind 0.
pub const AIR_BLOCK_KIND: u32 = 0;
pub const AIR_BLOCK: u32 = 0x2000;
pub const BEDROCK_BLOCK_KIND: u32 = 1;
pub const BEDROCK_BLOCK: u32 = 0x1001;
pub const WATER_BLOCK_KIND: u32 = 2;
pub const ROCK_BLOCK_KIND: u32 = 3;

/// Special block used by world generation that never stands in the world itself.
pub const IGNORE_BLOCK: u32 = 0xFFFF_FFFF;

/// The kind of a block: its low twelve bits.
pub open spec fn spec_kind(b: Block) -> Block {
    b & KIND_BIT_MASK
}

/// Whether light passes through a block.
pub open spec fn spec_transparent(b: Block) -> bool {
    b & TRANSPARENT_BIT_MASK != 0
}

/// Whether objects are stopped by a block.
pub open spec fn spec_solid(b: Block) -> bool {
    b & SOLID_BIT_MASK != 0
}

/// The block light level: the top four bits.
pub open spec fn spec_light(b: Block) -> u8 {
    (b >> 28u32) as u8
}

/// The sunlight level: bits 24..28.
pub open spec fn spec_sunlight(b: Block) -> u8 {
    ((b >> 24u32) & 0xFu32) as u8
}

/// `b` with its block light level replaced by `l` (which must be below 16).
pub open spec fn spec_with_light(b: Block, l: u8) -> Block {
    (b & !LIGHT_BIT_MASK) | ((l as u32) << 28u32)
}

/// `b` with its sunlight level replaced by `l` (which must be below 16).
pub open spec fn spec_with_sunlight(b: Block, l: u8) -> Block {
    (b & !SUNLIGHT_BIT_MASK) | (((l as u32) & 0xFu32) << 24u32)
}

/// Everything of a block but its block light level.
pub open spec fn without_light(b: Block) -> Block {
    b & !LIGHT_BIT_MASK
}

/// Everything of a block but its sunlight level.
pub open spec fn without_sunlight(b: Block) -> Block {
    b & !SUNLIGHT_BIT_MASK
}

/// Setting the block light keeps kind, flags and sunlight, and reads back.
pub proof fn lemma_with_light(b: Block, l: u8)
    by (bit_vector)
    ensures
        l < 16 ==> spec_light(spec_with_light(b, l)) == l,
        without_light(spec_with_light(b, l)) == without_light(b),
        spec_kind(spec_with_light(b, l)) == spec_kind(b),
        spec_transparent(spec_with_light(b, l)) == spec_transparent(b),
        spec_solid(spec_with_light(b, l)) == spec_solid(b),
        spec_sunlight(spec_with_light(b, l)) == spec_sunlight(b),
        spec_light(b) < 16,
        spec_light(b) == ((b & LIGHT_BIT_MASK) >> 28u32) as u8,
{
}

/// Setting the sunlight keeps kind, flags and block light, and reads back.
pub proof fn lemma_with_sunlight(b: Block, l: u8)
    by (bit_vector)
    ensures
        l < 16 ==> spec_sunlight(spec_with_sunlight(b, l)) == l,
        without_sunlight(spec_with_sunlight(b, l)) == without_sunlight(b),
        spec_kind(spec_with_sunlight(b, l)) == spec_kind(b),
        spec_transparent(spec_with_sunlight(b, l)) == spec_transparent(b),
        spec_solid(spec_with_sunlight(b, l)) == spec_solid(b),
        spec_light(spec_with_sunlight(b, l)) == spec_light(b),
        spec_sunlight(b) < 16,
        spec_sunlight(b) == ((b & SUNLIGHT_BIT_MASK) >> 24u32) as u8,
{
}

/// Flipping the transparent or the solid bit flips that flag alone.
pub proof fn lemma_toggle(b: Block)
    by (bit_vector)
    ensures
        spec_transparent(b ^ TRANSPARENT_BIT_MASK) == !spec_transparent(b),
        spec_solid(b ^ TRANSPARENT_BIT_MASK) == spec_solid(b),
        spec_kind(b ^ TRANSPARENT_BIT_MASK) == spec_kind(b),
        spec_solid(b ^ SOLID_BIT_MASK) == !spec_solid(b),
        spec_transparent(b ^ SOLID_BIT_MASK) == spec_transparent(b),
        spec_kind(b ^ SOLID_BIT_MASK) == spec_kind(b),
        spec_kind(b) < 0x1000,
{
}

/// Air is transparent, passable, of kind 0 and unlit.
pub proof fn lemma_air()
    by (bit_vector)
    ensures
        spec_kind(AIR_BLOCK) == AIR_BLOCK_KIND,
        spec_transparent(AIR_BLOCK),
        !spec_solid(AIR_BLOCK),
        spec_light(AIR_BLOCK) == 0,
        spec_sunlight(AIR_BLOCK) == 0,
{
}

/// Kind and flag queries of a block.
pub trait BlockTrait: Copy + Clone + PartialEq + Eq {
    fn kind(&self) -> Block;

    /// If true light will not pass through
    fn is_opaque(&self) -> bool;

    /// If true light will pass through
    fn is_transparent(&self) -> bool;

    /// If true is not empty but light will pass through
    fn is_translucent(&self) -> bool;

    /// If true objects cannot pass through
    fn is_solid(&self) -> bool;

    /// If true objects can pass through
    fn is_passable(&self) -> bool;

    /// If true the block is air
    fn is_empty(&self) -> bool;

    fn toggle_transparency(&mut self);

    fn toggle_solidity(&mut self);

    /// The empty (air) block.
    fn empty_block() -> Block;

    /// The kind of water.
    fn water_block() -> Block;

    /// The kind of rock.
    fn rock_block() -> Block;
}

impl BlockTrait for u32 {
    fn kind(&self) -> (r: Block)
        ensures
            r == spec_kind(*self),
            r < 0x1000,
    {
        proof {
            lemma_toggle(*self);
        }
        *self & KIND_BIT_MASK
    }

    fn is_opaque(&self) -> (r: bool)
        ensures
            r == !spec_transparent(*self),
    {
        (*self & TRANSPARENT_BIT_MASK) == 0
    }

    fn is_transparent(&self) -> (r: bool)
        ensures
            r == spec_transparent(*self),
    {
        (*self & TRANSPARENT_BIT_MASK) > 0
    }

    fn is_translucent(&self) -> (r: bool)
        ensures
            r == (spec_kind(*self) != AIR_BLOCK_KIND && spec_transparent(*self)),
    {
        self.kind() != AIR_BLOCK_KIND && self.is_transparent()
    }

    fn is_solid(&self) -> (r: bool)
        ensures
            r == spec_solid(*self),
    {
        (*self & SOLID_BIT_MASK) > 0
    }

    fn is_passable(&self) -> (r: bool)
        ensures
            r == !spec_solid(*self),
    {
        (*self & SOLID_BIT_MASK) == 0
    }

    fn is_empty(&self) -> (r: bool)
        ensures
            r == (spec_kind(*self) == AIR_BLOCK_KIND),
    {
        self.kind() == AIR_BLOCK_KIND
    }

    fn toggle_transparency(&mut self)
        ensures
            *final(self) == *old(self) ^ TRANSPARENT_BIT_MASK,
            spec_transparent(*final(self)) == !spec_transparent(*old(self)),
            spec_solid(*final(self)) == spec_solid(*old(self)),
            spec_kind(*final(self)) == spec_kind(*old(self)),
    {
        proof {
            lemma_toggle(*old(self));
        }
        *self = *self ^ TRANSPARENT_BIT_MASK;
    }

    fn toggle_solidity(&mut self)
        ensures
            *final(self) == *old(self) ^ SOLID_BIT_MASK,
            spec_solid(*final(self)) == !spec_solid(*old(self)),
            spec_transparent(*final(self)) == spec_transparent(*old(self)),
            spec_kind(*final(self)) == spec_kind(*old(self)),
    {
        proof {
            lemma_toggle(*old(self));
        }
        *self = *self ^ SOLID_BIT_MASK;
    }

    fn empty_block() -> (r: Block)
        ensures
            r == AIR_BLOCK,
    {
        AIR_BLOCK
    }

    fn water_block() -> (r: Block)
        ensures
            r == WATER_BLOCK_KIND,
    {
        WATER_BLOCK_KIND
    }

    fn rock_block() -> (r: Block)
        ensures
            r == ROCK_BLOCK_KIND,
    {
        ROCK_BLOCK_KIND
    }
}

/// Blocks that support getting and setting light values
pub trait LightBlock: Copy + Clone + PartialEq + Eq {
    fn get_light(&self) -> u8;

    fn set_light(&mut self, light: u8);

    fn get_sunlight(&self) -> u8;

    fn set_sunlight(&mut self, light: u8);
}

impl LightBlock for Block {
    fn get_light(&self) -> (r: u8)
        ensures
            r == spec_light(*self),
            r < 16,
    {
        proof {
            lemma_with_light(*self, 0);
        }
        ((*self & LIGHT_BIT_MASK) >> 28) as u8
    }

    fn set_light(&mut self, light: u8)
        ensures
            *final(self) == spec_with_light(*old(self), light),
            light < 16 ==> spec_light(*final(self)) == light,
            without_light(*final(self)) == without_light(*old(self)),
            spec_kind(*final(self)) == spec_kind(*old(self)),
            spec_transparent(*final(self)) == spec_transparent(*old(self)),
            spec_solid(*final(self)) == spec_solid(*old(self)),
            spec_sunlight(*final(self)) == spec_sunlight(*old(self)),
    {
        proof {
            lemma_with_light(*old(self), light);
        }
        *self = (*self & !LIGHT_BIT_MASK) | ((light as Block) << 28);
    }

    fn get_sunlight(&self) -> (r: u8)
        ensures
            r == spec_sunlight(*self),
            r < 16,
    {
        proof {
            lemma_with_sunlight(*self, 0);
        }
        ((*self & SUNLIGHT_BIT_MASK) >> 24) as u8
    }

    fn set_sunlight(&mut self, light: u8)
        ensures
            *final(self) == spec_with_sunlight(*old(self), light),
            light < 16 ==> spec_sunlight(*final(self)) == light,
            without_sunlight(*final(self)) == without_sunlight(*old(self)),
            spec_kind(*final(self)) == spec_kind(*old(self)),
            spec_transparent(*final(self)) == spec_transparent(*old(self)),
            spec_solid(*final(self)) == spec_solid(*old(self)),
            spec_light(*final(self)) == spec_light(*old(self)),
    {
        proof {
            lemma_with_sunlight(*old(self), light);
        }
        *self = (*self & !SUNLIGHT_BIT_MASK) | (((light as Block) & 0xF) << 24);
    }
}

} // verus!
