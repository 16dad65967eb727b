//! Shape of a virtual texture: page-grid side, texel format and mip count.
use vstd::prelude::*;
use crate::layout::{exp2, lemma_exp2_up_to_12};

verus! {

/// Largest supported page-grid side.
pub const MAX_TEXTURE_SIZE: u16 = 4096;

/// Largest supported mip count, `log2(MAX_TEXTURE_SIZE)`.
pub const MAX_MIP_LEVELS: u8 = 12;

/// The only supported texel format: four 8-bit channels.
pub const RGBA8_BYTES_PER_TEXEL: u8 = 4;

/// What a metadata record with these fields must satisfy.
pub open spec fn valid_shape(side_len: nat, bytes_per_texel: nat, mip_levels: nat) -> bool {
    &&& mip_levels <= MAX_MIP_LEVELS
    &&& side_len == exp2(mip_levels)
    &&& bytes_per_texel == RGBA8_BYTES_PER_TEXEL
}

/// Describes a square virtual texture of `side_len` pages per side, with
/// `mip_levels == log2(side_len)` coarser levels below the finest one.
pub struct TextureMetadata {
    side_len: u16,
    bytes_per_texel: u8,
    mip_levels: u8,
}

impl Clone for TextureMetadata {
    fn clone(&self) -> (r: Self)
        ensures
            r == *self,
    {
        TextureMetadata {
            side_len: self.side_len,
            bytes_per_texel: self.bytes_per_texel,
            mip_levels: self.mip_levels,
        }
    }
}

impl TextureMetadata {
    pub closed spec fn spec_side_len(&self) -> u16 {
        self.side_len
    }

    pub closed spec fn spec_bytes_per_texel(&self) -> u8 {
        self.bytes_per_texel
    }

    pub closed spec fn spec_mip_levels(&self) -> u8 {
        self.mip_levels
    }

    /// Every constructor yields a valid shape, and nothing changes it afterwards.
    pub open spec fn wf(&self) -> bool {
        valid_shape(self.side_len() as nat, self.bytes_per_texel() as nat, self.mip_levels() as nat)
    }

    /// Pages per side at the finest level.
    #[verifier::when_used_as_spec(spec_side_len)]
    pub fn side_len(&self) -> (r: u16)
        ensures
            r == self.side_len(),
    {
        self.side_len
    }

    #[verifier::when_used_as_spec(spec_bytes_per_texel)]
    pub fn bytes_per_texel(&self) -> (r: u8)
        ensures
            r == self.bytes_per_texel(),
    {
        self.bytes_per_texel
    }

    #[verifier::when_used_as_spec(spec_mip_levels)]
    pub fn mip_levels(&self) -> (r: u8)
        ensures
            r == self.mip_levels(),
    {
        self.mip_levels
    }

    /// Width and height of the page grid (the texture is square).
    pub fn dimensions(&self) -> (r: (u16, u16))
        ensures
            r == (self.side_len(), self.side_len()),
    {
        (self.side_len, self.side_len)
    }

    /// Metadata whose finest level has the smallest power-of-two side that is
    /// at least the longer of the two requested sides.
    pub fn from_dimensions(dimensions: (u16, u16), bytes_per_texel: u8) -> (r: Self)
        requires
            dimensions.0 <= MAX_TEXTURE_SIZE,
            dimensions.1 <= MAX_TEXTURE_SIZE,
            bytes_per_texel == RGBA8_BYTES_PER_TEXEL,
        ensures
            r.wf(),
            r.bytes_per_texel() == bytes_per_texel,
            r.side_len() == exp2(r.mip_levels() as nat),
            r.mip_levels() <= MAX_MIP_LEVELS,
            r.side_len() >= dimensions.0,
            r.side_len() >= dimensions.1,
            r.mip_levels() == 0 || exp2((r.mip_levels() - 1) as nat) < dimensions.0
                || exp2((r.mip_levels() - 1) as nat) < dimensions.1,
    {
        let longest_side: u16 = if dimensions.0 >= dimensions.1 {
            dimensions.0
        } else {
            dimensions.1
        };
        let mut side: u16 = 1;
        let mut mip_levels: u8 = 0;
        proof {
            lemma_exp2_up_to_12();
        }
        while side < longest_side
            invariant
                longest_side <= MAX_TEXTURE_SIZE,
                mip_levels <= MAX_MIP_LEVELS,
                side == exp2(mip_levels as nat),
                mip_levels == 0 || exp2((mip_levels - 1) as nat) < longest_side,
            decreases MAX_TEXTURE_SIZE - side,
        {
            proof {
                lemma_exp2_up_to_12();
                if mip_levels == 12 {
                    assert(false);
                }
            }
            side = side * 2;
            mip_levels = mip_levels + 1;
            assert(side == exp2(mip_levels as nat));
        }
        TextureMetadata { side_len: side, bytes_per_texel, mip_levels }
    }

    /// Square metadata with `2^mip_levels` pages per side.
    pub fn from_mip(mip_levels: u8, bytes_per_texel: u8) -> (r: Self)
        requires
            mip_levels <= MAX_MIP_LEVELS,
            bytes_per_texel == RGBA8_BYTES_PER_TEXEL,
        ensures
            r.wf(),
            r.side_len() == exp2(mip_levels as nat),
            r.mip_levels() == mip_levels,
            r.bytes_per_texel() == bytes_per_texel,
    {
        let mut side: u16 = 1;
        let mut i: u8 = 0;
        proof {
            lemma_exp2_up_to_12();
        }
        while i < mip_levels
            invariant
                i <= mip_levels <= MAX_MIP_LEVELS,
                side == exp2(i as nat),
            decreases mip_levels - i,
        {
            proof {
                lemma_exp2_up_to_12();
            }
            side = side * 2;
            i = i + 1;
        }
        TextureMetadata { side_len: side, bytes_per_texel, mip_levels }
    }

    /// Rebuilds metadata from its stored fields; `None` unless they describe a
    /// square, power-of-two, supported texture whose mip count matches its side.
    pub fn from_parts(dimensions: (u16, u16), bytes_per_texel: u8, mip_levels: u8) -> (r: Option<
        Self,
    >)
        ensures
            r is Some <==> dimensions.0 == dimensions.1 && valid_shape(
                dimensions.0 as nat,
                bytes_per_texel as nat,
                mip_levels as nat,
            ),
            r matches Some(m) ==> m.wf() && m.side_len() == dimensions.0 && m.bytes_per_texel()
                == bytes_per_texel && m.mip_levels() == mip_levels,
    {
        if dimensions.0 != dimensions.1 || bytes_per_texel != RGBA8_BYTES_PER_TEXEL || mip_levels
            > MAX_MIP_LEVELS {
            return None;
        }
        let expected = Self::from_mip(mip_levels, bytes_per_texel);
        if expected.side_len != dimensions.0 {
            return None;
        }
        Some(expected)
    }
}

/// Rebuilding metadata from its own stored fields gives it back unchanged:
/// the fields are valid, so `from_parts` accepts them, and any metadata with
/// those fields is the original.
pub proof fn lemma_metadata_fields_round_trip(m: TextureMetadata, rebuilt: TextureMetadata)
    requires
        m.wf(),
        rebuilt.side_len() == m.side_len(),
        rebuilt.bytes_per_texel() == m.bytes_per_texel(),
        rebuilt.mip_levels() == m.mip_levels(),
    ensures
        valid_shape(m.side_len() as nat, m.bytes_per_texel() as nat, m.mip_levels() as nat),
        rebuilt == m,
{
}

} // verus!
