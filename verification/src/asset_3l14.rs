//! 64-bit asset keys and the asset type ids of the runtime asset system.
use vstd::prelude::*;
use std::hash::Hash;
use crate::bytes::{le_u128, le_value, lemma_le_value_bound, lemma_pow256_mono, lemma_pow256_values};
use crate::entropy::{metrohash64_of, random_bytes};
use crate::text::{hex_lower_padded, hex_padded, push_str, string_push};

verus! {

/// All the supported (runtime) asset types.
#[derive(Debug, Hash, Clone, Copy, PartialEq, Eq, Structural, PartialOrd, Ord)]
pub enum AssetTypeId {
    Invalid,
    Test1,
    Test2,
    Untyped,
    Geometry,
    Skeleton,
    Texture,
    TextureMips,
    Material,
    Shader,
    Model,
    Look,
    SkeletalAnimation,
    Circuit,
    Scene,
    SceneChunk,
}

impl AssetTypeId {
    /// The number that identifies this type inside an asset key.
    pub open spec fn spec_number(self) -> u16 {
        match self {
            AssetTypeId::Invalid => 0x0,
            AssetTypeId::Test1 => 0x1,
            AssetTypeId::Test2 => 0x2,
            AssetTypeId::Untyped => 0x3,
            AssetTypeId::Geometry => 0x4,
            AssetTypeId::Skeleton => 0x5,
            AssetTypeId::Texture => 0x6,
            AssetTypeId::TextureMips => 0x7,
            AssetTypeId::Material => 0x8,
            AssetTypeId::Shader => 0x9,
            AssetTypeId::Model => 0xa,
            AssetTypeId::Look => 0xb,
            AssetTypeId::SkeletalAnimation => 0xc,
            AssetTypeId::Circuit => 0xd,
            AssetTypeId::Scene => 0xe,
            AssetTypeId::SceneChunk => 0xf,
        }
    }

    /// The type whose number is `n`, if any.
    pub open spec fn spec_from_number(n: u16) -> Option<AssetTypeId> {
        if n == 0x0 { Some(AssetTypeId::Invalid) }
        else if n == 0x1 { Some(AssetTypeId::Test1) }
        else if n == 0x2 { Some(AssetTypeId::Test2) }
        else if n == 0x3 { Some(AssetTypeId::Untyped) }
        else if n == 0x4 { Some(AssetTypeId::Geometry) }
        else if n == 0x5 { Some(AssetTypeId::Skeleton) }
        else if n == 0x6 { Some(AssetTypeId::Texture) }
        else if n == 0x7 { Some(AssetTypeId::TextureMips) }
        else if n == 0x8 { Some(AssetTypeId::Material) }
        else if n == 0x9 { Some(AssetTypeId::Shader) }
        else if n == 0xa { Some(AssetTypeId::Model) }
        else if n == 0xb { Some(AssetTypeId::Look) }
        else if n == 0xc { Some(AssetTypeId::SkeletalAnimation) }
        else if n == 0xd { Some(AssetTypeId::Circuit) }
        else if n == 0xe { Some(AssetTypeId::Scene) }
        else if n == 0xf { Some(AssetTypeId::SceneChunk) }
        else { None }
    }

    /// The number that identifies this type inside an asset key.
    pub fn number(self) -> (r: u16)
        ensures
            r == self.spec_number(),
    {
        match self {
            AssetTypeId::Invalid => 0x0,
            AssetTypeId::Test1 => 0x1,
            AssetTypeId::Test2 => 0x2,
            AssetTypeId::Untyped => 0x3,
            AssetTypeId::Geometry => 0x4,
            AssetTypeId::Skeleton => 0x5,
            AssetTypeId::Texture => 0x6,
            AssetTypeId::TextureMips => 0x7,
            AssetTypeId::Material => 0x8,
            AssetTypeId::Shader => 0x9,
            AssetTypeId::Model => 0xa,
            AssetTypeId::Look => 0xb,
            AssetTypeId::SkeletalAnimation => 0xc,
            AssetTypeId::Circuit => 0xd,
            AssetTypeId::Scene => 0xe,
            AssetTypeId::SceneChunk => 0xf,
        }
    }

    /// The type whose number is `n`, or `None` when no type has that number.
    pub fn from_number(n: u16) -> (r: Option<AssetTypeId>)
        ensures
            r == Self::spec_from_number(n),
    {
        if n == 0x0 { Some(AssetTypeId::Invalid) }
        else if n == 0x1 { Some(AssetTypeId::Test1) }
        else if n == 0x2 { Some(AssetTypeId::Test2) }
        else if n == 0x3 { Some(AssetTypeId::Untyped) }
        else if n == 0x4 { Some(AssetTypeId::Geometry) }
        else if n == 0x5 { Some(AssetTypeId::Skeleton) }
        else if n == 0x6 { Some(AssetTypeId::Texture) }
        else if n == 0x7 { Some(AssetTypeId::TextureMips) }
        else if n == 0x8 { Some(AssetTypeId::Material) }
        else if n == 0x9 { Some(AssetTypeId::Shader) }
        else if n == 0xa { Some(AssetTypeId::Model) }
        else if n == 0xb { Some(AssetTypeId::Look) }
        else if n == 0xc { Some(AssetTypeId::SkeletalAnimation) }
        else if n == 0xd { Some(AssetTypeId::Circuit) }
        else if n == 0xe { Some(AssetTypeId::Scene) }
        else if n == 0xf { Some(AssetTypeId::SceneChunk) }
        else { None }
    }
}

/// Numbering a type and reading the number back gives the type again, and two types
/// with the same number are the same type.
pub proof fn lemma_asset_type_number_roundtrip(t: AssetTypeId, u: AssetTypeId)
    ensures
        AssetTypeId::spec_from_number(t.spec_number()) == Some(t),
        t.spec_number() < 16,
        t.spec_number() == u.spec_number() <==> t == u,
{
}

/// The kinds of file that belong to a built asset.
#[derive(Debug, Clone, Copy, PartialEq, Eq, Structural)]
pub enum AssetFileType {
    Asset,
    MetaData,
    DebugData,
}

impl AssetFileType {
    /// The file extension (without the dot) of this kind of file.
    pub open spec fn spec_extension(self) -> Seq<char> {
        match self {
            AssetFileType::Asset => seq!['a', 's', 's'],
            AssetFileType::MetaData => seq!['m', 'a', 's', 's'],
            AssetFileType::DebugData => seq!['d', 'a', 's', 's'],
        }
    }

    /// The file extension (without the dot) of this kind of file.
    pub fn file_extension(&self) -> (r: &'static str)
        ensures
            r@ == self.spec_extension(),
    {
        match self {
            AssetFileType::Asset => {
                proof { reveal_strlit("ass"); }
                "ass"
            },
            AssetFileType::MetaData => {
                proof { reveal_strlit("mass"); }
                "mass"
            },
            AssetFileType::DebugData => {
                proof { reveal_strlit("dass"); }
                "dass"
            },
        }
    }
}

/// Number of bits in a key.
pub const TOTAL_BITS: u64 = 64;
/// Bits of the asset type, at the top of the key.
pub const ASSET_TYPE_BITS: u64 = 12;
/// Bits of the flag that marks synthetic keys.
pub const SYNTH_FLAG_BITS: u64 = 1;
/// Bits of the content hash of a synthetic key.
pub const SYNTH_HASH_BITS: u64 = 51;
/// Bits of the derived id of a unique key.
pub const DERIVED_ID_BITS: u64 = 15;
/// Bits of the source id of a unique key.
pub const SOURCE_ID_BITS: u64 = 36;

/// Largest value of the source-id field.
pub const SOURCE_KEY_MAX: u64 = 0xf_ffff_ffff;
/// Largest value of the derived-id field.
pub const DERIVED_KEY_MAX: u16 = 0x7fff;
/// Largest value of the synthetic-hash field.
pub const SYNTH_HASH_MAX: u64 = 0x7_ffff_ffff_ffff;
/// Largest value of the asset-type field.
pub const ASSET_TYPE_MAX: u16 = 0xfff;

/// Bit position of the source id.
pub const SOURCE_KEY_SHIFT: u64 = 0;
/// Bit position of the derived id.
pub const DERIVED_KEY_SHIFT: u64 = 36;
/// Bit position of the synthetic hash.
pub const SYNTH_HASH_SHIFT: u64 = 0;
/// Bit position of the synthetic flag.
pub const SYNTH_FLAG_SHIFT: u64 = 51;
/// Bit position of the asset type.
pub const ASSET_TYPE_SHIFT: u64 = 52;

/// The id that tells apart the assets built from one source (only 15 bits are used).
#[derive(Default, Clone, Copy, PartialEq, Eq, Structural, Debug)]
pub struct AssetKeyDerivedId(pub u16);

impl AssetKeyDerivedId {
    /// The derived id used by tests.
    pub fn test() -> (r: Self)
        ensures
            r.0 == 0,
    {
        AssetKeyDerivedId(0)
    }

    /// Hands out the current id and advances `self` by one; returns `None` (and leaves
    /// `self` alone) once the id has left the 15 bits that derived ids use.
    pub fn next(&mut self) -> (r: Option<Self>)
        ensures
            old(self).0 < DERIVED_KEY_MAX ==> r == Some(*old(self)) && final(self).0 == old(self).0 + 1,
            old(self).0 >= DERIVED_KEY_MAX ==> r is None && *final(self) == *old(self),
    {
        if self.0 < DERIVED_KEY_MAX {
            let rval = *self;
            self.0 = self.0 + 1;
            Some(rval)
        } else {
            None
        }
    }
}

/// The random id given to an asset source (only the low 36 bits are used).
#[derive(Clone, Copy, PartialEq, Eq, Structural, Debug)]
pub struct AssetKeySourceId(pub u64);

impl AssetKeySourceId {
    /// Builds a source id from little-endian bytes.
    pub fn from_le_bytes_prefix(bytes: &[u8]) -> (r: Self)
        requires
            bytes@.len() <= 8,
        ensures
            r.0 as nat == le_value(bytes@),
    {
        proof {
            lemma_le_value_bound(bytes@);
            lemma_pow256_mono(bytes@.len(), 8);
            lemma_pow256_values();
        }
        let v = le_u128(bytes);
        AssetKeySourceId(v as u64)
    }

    /// A fresh random source id. As many whole bytes as fit in the source-id field
    /// (four) are random; the rest are zero.
    pub fn generate() -> (r: Self)
        ensures
            r.0 < 0x1_0000_0000,
    {
        let bytes = random_bytes((SOURCE_ID_BITS / 8) as usize);
        proof {
            lemma_le_value_bound(bytes@);
            lemma_pow256_values();
        }
        Self::from_le_bytes_prefix(bytes.as_slice())
    }

    /// The source id `n`, for tests.
    pub fn test(n: u8) -> (r: Self)
        ensures
            r.0 == n,
    {
        AssetKeySourceId(n as u64)
    }
}

/// The content hash of a synthetic asset (only the low 51 bits are used).
#[derive(Clone, Copy, PartialEq, Eq, Structural, Debug)]
pub struct AssetKeySynthHash(pub u64);

impl AssetKeySynthHash {
    /// The synthetic hash made from a raw 64-bit hash: its low 51 bits.
    pub fn from_hash(n: u64) -> (r: Self)
        ensures
            r.0 == n & SYNTH_HASH_MAX,
    {
        AssetKeySynthHash(n & SYNTH_HASH_MAX)
    }

    /// Hashes `hashable` with MetroHash64 and keeps the low 51 bits.
    pub fn generate<H: Hash>(hashable: H) -> (r: Self)
        ensures
            r.0 <= SYNTH_HASH_MAX,
    {
        let n = metrohash64_of(&hashable);
        let r = Self::from_hash(n);
        assert(n & SYNTH_HASH_MAX <= SYNTH_HASH_MAX) by (bit_vector);
        r
    }

    /// The synthetic hash `n`, for tests.
    pub fn test(n: u64) -> (r: Self)
        ensures
            r.0 == n,
    {
        AssetKeySynthHash(n)
    }
}

/// The bits of a unique key.
pub open spec fn unique_repr(asset_type: u16, derived_id: u16, source_id: u64) -> u64 {
    (source_id & SOURCE_KEY_MAX) | (((derived_id & DERIVED_KEY_MAX) as u64) << DERIVED_KEY_SHIFT) | (
    ((asset_type & ASSET_TYPE_MAX) as u64) << ASSET_TYPE_SHIFT)
}

/// The bits of a synthetic key.
pub open spec fn synthetic_repr(asset_type: u16, synth_hash: u64) -> u64 {
    (synth_hash & SYNTH_HASH_MAX) | (1u64 << SYNTH_FLAG_SHIFT) | (((asset_type & ASSET_TYPE_MAX) as u64)
        << ASSET_TYPE_SHIFT)
}

/// The asset-type field of a key.
pub open spec fn type_field(k: u64) -> u16 {
    ((k >> ASSET_TYPE_SHIFT) as u16) & ASSET_TYPE_MAX
}

/// The synthetic flag of a key.
pub open spec fn synth_flag(k: u64) -> bool {
    (((k >> SYNTH_FLAG_SHIFT) as u8) & 1u8) == 1u8
}

/// The derived-id field of a key.
pub open spec fn derived_field(k: u64) -> u16 {
    ((k >> DERIVED_KEY_SHIFT) as u16) & DERIVED_KEY_MAX
}

/// The source-id field of a key.
pub open spec fn source_field(k: u64) -> u64 {
    k & SOURCE_KEY_MAX
}

/// The synthetic-hash field of a key.
pub open spec fn hash_field(k: u64) -> u64 {
    k & SYNTH_HASH_MAX
}

pub(crate) proof fn lemma_unique_bits(t: u16, d: u16, s: u64)
    requires
        t < 0xfff,
        d < 0x7fff,
        s < 0xf_ffff_ffff,
    ensures
        type_field(unique_repr(t, d, s)) == t,
        !synth_flag(unique_repr(t, d, s)),
        derived_field(unique_repr(t, d, s)) == d,
        source_field(unique_repr(t, d, s)) == s,
{
    let k = unique_repr(t, d, s);
    assert(k == (s & 0xf_ffff_ffffu64) | (((d & 0x7fffu16) as u64) << 36u64) | (((t & 0xfffu16) as u64) << 52u64));
    assert((((((s & 0xf_ffff_ffffu64) | (((d & 0x7fffu16) as u64) << 36u64) | (((t & 0xfffu16) as u64) << 52u64)) >> 52u64) as u16) & 0xfffu16) == t) by (bit_vector)
        requires t < 0xfff;
    assert(((((((s & 0xf_ffff_ffffu64) | (((d & 0x7fffu16) as u64) << 36u64) | (((t & 0xfffu16) as u64) << 52u64)) >> 51u64) as u8) & 1u8) == 1u8) == false) by (bit_vector)
        requires t < 0xfff, d < 0x7fff, s < 0xf_ffff_ffff;
    assert((((((s & 0xf_ffff_ffffu64) | (((d & 0x7fffu16) as u64) << 36u64) | (((t & 0xfffu16) as u64) << 52u64)) >> 36u64) as u16) & 0x7fffu16) == d) by (bit_vector)
        requires d < 0x7fff, s < 0xf_ffff_ffff;
    assert((((s & 0xf_ffff_ffffu64) | (((d & 0x7fffu16) as u64) << 36u64) | (((t & 0xfffu16) as u64) << 52u64)) & 0xf_ffff_ffffu64) == s) by (bit_vector)
        requires s < 0xf_ffff_ffff;
}

proof fn lemma_synthetic_bits(t: u16, h: u64)
    requires
        t < 0xfff,
        h < 0x7_ffff_ffff_ffff,
    ensures
        type_field(synthetic_repr(t, h)) == t,
        synth_flag(synthetic_repr(t, h)),
        hash_field(synthetic_repr(t, h)) == h,
{
    let k = synthetic_repr(t, h);
    assert(k == (h & 0x7_ffff_ffff_ffffu64) | (1u64 << 51u64) | (((t & 0xfffu16) as u64) << 52u64));
    assert((((((h & 0x7_ffff_ffff_ffffu64) | (1u64 << 51u64) | (((t & 0xfffu16) as u64) << 52u64)) >> 52u64) as u16) & 0xfffu16) == t) by (bit_vector)
        requires t < 0xfff;
    assert(((((((h & 0x7_ffff_ffff_ffffu64) | (1u64 << 51u64) | (((t & 0xfffu16) as u64) << 52u64)) >> 51u64) as u8) & 1u8) == 1u8)) by (bit_vector)
        requires t < 0xfff, h < 0x7_ffff_ffff_ffff;
    assert((((h & 0x7_ffff_ffff_ffffu64) | (1u64 << 51u64) | (((t & 0xfffu16) as u64) << 52u64)) & 0x7_ffff_ffff_ffffu64) == h) by (bit_vector)
        requires h < 0x7_ffff_ffff_ffff;
}

/// Each asset type is numbered in keys as it is declared, from `Invalid` (0x0) up to
/// `SceneChunk` (0xf): the type field of every unique and every synthetic key of `t` holds
/// that number, and any key `k` whose type field holds it reads back as `t`.
pub proof fn lemma_declared_type_numbers(
    t: AssetTypeId,
    d: AssetKeyDerivedId,
    s: AssetKeySourceId,
    h: AssetKeySynthHash,
    k: AssetKey,
)
    requires
        d.0 < DERIVED_KEY_MAX,
        s.0 < SOURCE_KEY_MAX,
        h.0 < SYNTH_HASH_MAX,
    ensures
        type_field(unique_repr(t.spec_number(), d.0, s.0)) == (match t {
            AssetTypeId::Invalid => 0x0u16,
            AssetTypeId::Test1 => 0x1u16,
            AssetTypeId::Test2 => 0x2u16,
            AssetTypeId::Untyped => 0x3u16,
            AssetTypeId::Geometry => 0x4u16,
            AssetTypeId::Skeleton => 0x5u16,
            AssetTypeId::Texture => 0x6u16,
            AssetTypeId::TextureMips => 0x7u16,
            AssetTypeId::Material => 0x8u16,
            AssetTypeId::Shader => 0x9u16,
            AssetTypeId::Model => 0xau16,
            AssetTypeId::Look => 0xbu16,
            AssetTypeId::SkeletalAnimation => 0xcu16,
            AssetTypeId::Circuit => 0xdu16,
            AssetTypeId::Scene => 0xeu16,
            AssetTypeId::SceneChunk => 0xfu16,
        }),
        type_field(synthetic_repr(t.spec_number(), h.0)) == (match t {
            AssetTypeId::Invalid => 0x0u16,
            AssetTypeId::Test1 => 0x1u16,
            AssetTypeId::Test2 => 0x2u16,
            AssetTypeId::Untyped => 0x3u16,
            AssetTypeId::Geometry => 0x4u16,
            AssetTypeId::Skeleton => 0x5u16,
            AssetTypeId::Texture => 0x6u16,
            AssetTypeId::TextureMips => 0x7u16,
            AssetTypeId::Material => 0x8u16,
            AssetTypeId::Shader => 0x9u16,
            AssetTypeId::Model => 0xau16,
            AssetTypeId::Look => 0xbu16,
            AssetTypeId::SkeletalAnimation => 0xcu16,
            AssetTypeId::Circuit => 0xdu16,
            AssetTypeId::Scene => 0xeu16,
            AssetTypeId::SceneChunk => 0xfu16,
        }),
        type_field(k.0) == (match t {
            AssetTypeId::Invalid => 0x0u16,
            AssetTypeId::Test1 => 0x1u16,
            AssetTypeId::Test2 => 0x2u16,
            AssetTypeId::Untyped => 0x3u16,
            AssetTypeId::Geometry => 0x4u16,
            AssetTypeId::Skeleton => 0x5u16,
            AssetTypeId::Texture => 0x6u16,
            AssetTypeId::TextureMips => 0x7u16,
            AssetTypeId::Material => 0x8u16,
            AssetTypeId::Shader => 0x9u16,
            AssetTypeId::Model => 0xau16,
            AssetTypeId::Look => 0xbu16,
            AssetTypeId::SkeletalAnimation => 0xcu16,
            AssetTypeId::Circuit => 0xdu16,
            AssetTypeId::Scene => 0xeu16,
            AssetTypeId::SceneChunk => 0xfu16,
        }) ==> k.spec_asset_type() == t,
{
    lemma_asset_type_number_roundtrip(t, t);
    lemma_unique_bits(t.spec_number(), d.0, s.0);
    lemma_synthetic_bits(t.spec_number(), h.0);
}

/// A unique identifier of a built asset. It is either synthetic (its id is a hash of its
/// contents) or unique (its id combines a source id and a derived id).
#[derive(Clone, Copy, PartialEq, Eq, Structural, PartialOrd, Ord, Hash, Debug)]
pub struct AssetKey(pub u64);

impl AssetKey {
    /// The asset type recorded in the key; a number that names no type reads as `Invalid`.
    pub open spec fn spec_asset_type(self) -> AssetTypeId {
        match AssetTypeId::spec_from_number(type_field(self.0)) {
            Some(t) => t,
            None => AssetTypeId::Invalid,
        }
    }

    /// The derived id of a unique key; 0 for a synthetic key.
    pub open spec fn spec_derived_id(self) -> u16 {
        if synth_flag(self.0) { 0 } else { derived_field(self.0) }
    }

    /// The source id of a unique key; 0 for a synthetic key.
    pub open spec fn spec_source_id(self) -> u64 {
        if synth_flag(self.0) { 0 } else { source_field(self.0) }
    }

    /// The content hash of a synthetic key; 0 for a unique key.
    pub open spec fn spec_synth_hash(self) -> u64 {
        if synth_flag(self.0) { hash_field(self.0) } else { 0 }
    }

    /// The key of the asset derived as `derived_id` from the source `source_id`.
    pub fn unique(asset_type: AssetTypeId, derived_id: AssetKeyDerivedId, source_id: AssetKeySourceId) -> (r: Self)
        requires
            asset_type.spec_number() < ASSET_TYPE_MAX,
            derived_id.0 < DERIVED_KEY_MAX,
            source_id.0 < SOURCE_KEY_MAX,
        ensures
            r.0 == unique_repr(asset_type.spec_number(), derived_id.0, source_id.0),
            r.spec_asset_type() == asset_type,
            !synth_flag(r.0),
            r.spec_derived_id() == derived_id.0,
            r.spec_source_id() == source_id.0,
            r.spec_synth_hash() == 0,
    {
        let mut u: u64 = (source_id.0 & SOURCE_KEY_MAX) << SOURCE_KEY_SHIFT;
        u = u | (((derived_id.0 & DERIVED_KEY_MAX) as u64) << DERIVED_KEY_SHIFT);
        u = u | (((asset_type.number() & ASSET_TYPE_MAX) as u64) << ASSET_TYPE_SHIFT);
        proof {
            let s = source_id.0;
            assert((s & 0xf_ffff_ffffu64) << 0u64 == s & 0xf_ffff_ffffu64) by (bit_vector);
            lemma_unique_bits(asset_type.spec_number(), derived_id.0, source_id.0);
            lemma_asset_type_number_roundtrip(asset_type, asset_type);
        }
        AssetKey(u)
    }

    /// The key of the synthetic asset of `asset_type` whose contents hash to `synth_hash`.
    pub fn synthetic(asset_type: AssetTypeId, synth_hash: AssetKeySynthHash) -> (r: Self)
        requires
            asset_type.spec_number() < ASSET_TYPE_MAX,
            synth_hash.0 < SYNTH_HASH_MAX,
        ensures
            r.0 == synthetic_repr(asset_type.spec_number(), synth_hash.0),
            r.spec_asset_type() == asset_type,
            synth_flag(r.0),
            r.spec_derived_id() == 0,
            r.spec_source_id() == 0,
            r.spec_synth_hash() == synth_hash.0,
    {
        let mut u: u64 = (synth_hash.0 & SYNTH_HASH_MAX) << SYNTH_HASH_SHIFT;
        u = u | (1u64 << SYNTH_FLAG_SHIFT);
        u = u | (((asset_type.number() & ASSET_TYPE_MAX) as u64) << ASSET_TYPE_SHIFT);
        proof {
            let h = synth_hash.0;
            assert((h & 0x7_ffff_ffff_ffffu64) << 0u64 == h & 0x7_ffff_ffff_ffffu64) by (bit_vector);
            lemma_synthetic_bits(asset_type.spec_number(), synth_hash.0);
            lemma_asset_type_number_roundtrip(asset_type, asset_type);
        }
        AssetKey(u)
    }

    /// The asset type recorded in the key.
    pub fn asset_type(&self) -> (r: AssetTypeId)
        ensures
            r == self.spec_asset_type(),
    {
        let n = ((self.0 >> ASSET_TYPE_SHIFT) as u16) & ASSET_TYPE_MAX;
        match AssetTypeId::from_number(n) {
            Some(t) => t,
            None => AssetTypeId::Invalid,
        }
    }

    /// The derived id of this key; 0 if the key is synthetic.
    pub fn derived_id(&self) -> (r: AssetKeyDerivedId)
        ensures
            r.0 == self.spec_derived_id(),
    {
        let u = ((self.0 >> DERIVED_KEY_SHIFT) as u16) & DERIVED_KEY_MAX;
        if self.is_synthetic() {
            AssetKeyDerivedId(0)
        } else {
            AssetKeyDerivedId(u)
        }
    }

    /// The source id of this key; 0 if the key is synthetic.
    pub fn source_id(&self) -> (r: AssetKeySourceId)
        ensures
            r.0 == self.spec_source_id(),
    {
        let u = (self.0 >> SOURCE_KEY_SHIFT) & SOURCE_KEY_MAX;
        proof {
            let k = self.0;
            assert((k >> 0u64) == k) by (bit_vector);
        }
        if self.is_synthetic() {
            AssetKeySourceId(0)
        } else {
            AssetKeySourceId(u)
        }
    }

    /// The synthesized hash of this key; 0 if the key is unique (not synthetic).
    pub fn synth_hash(&self) -> (r: AssetKeySynthHash)
        ensures
            r.0 == self.spec_synth_hash(),
    {
        let u = (self.0 >> SYNTH_HASH_SHIFT) & SYNTH_HASH_MAX;
        proof {
            let k = self.0;
            assert((k >> 0u64) == k) by (bit_vector);
        }
        if self.is_synthetic() {
            AssetKeySynthHash(u)
        } else {
            AssetKeySynthHash(0)
        }
    }

    /// Whether the key is synthetic.
    pub fn is_synthetic(&self) -> (r: bool)
        ensures
            r == synth_flag(self.0),
    {
        (((self.0 >> SYNTH_FLAG_SHIFT) as u8) & 1u8) == 1u8
    }

    /// The file name of this asset's file of kind `fty`: the key in 16 hex digits, a dot and
    /// the extension.
    pub fn as_file_name(&self, fty: AssetFileType) -> (r: String)
        ensures
            r@ == hex_padded(self.0 as nat, 16) + seq!['.'] + fty.spec_extension(),
    {
        let mut name = hex_lower_padded(self.0 as u128, 16);
        string_push(&mut name, '.');
        push_str(&mut name, fty.file_extension());
        name
    }
}

/// Two unique keys are equal exactly when their type, derived id and source id are.
pub proof fn lemma_unique_key_injective(
    t1: AssetTypeId,
    d1: AssetKeyDerivedId,
    s1: AssetKeySourceId,
    t2: AssetTypeId,
    d2: AssetKeyDerivedId,
    s2: AssetKeySourceId,
)
    requires
        t1.spec_number() < ASSET_TYPE_MAX,
        d1.0 < DERIVED_KEY_MAX,
        s1.0 < SOURCE_KEY_MAX,
        t2.spec_number() < ASSET_TYPE_MAX,
        d2.0 < DERIVED_KEY_MAX,
        s2.0 < SOURCE_KEY_MAX,
    ensures
        unique_repr(t1.spec_number(), d1.0, s1.0) == unique_repr(t2.spec_number(), d2.0, s2.0)
            <==> (t1 == t2 && d1 == d2 && s1 == s2),
{
    lemma_unique_bits(t1.spec_number(), d1.0, s1.0);
    lemma_unique_bits(t2.spec_number(), d2.0, s2.0);
    lemma_asset_type_number_roundtrip(t1, t2);
}

/// A unique key never equals a synthetic key.
pub proof fn lemma_unique_never_synthetic(
    t1: AssetTypeId,
    d: AssetKeyDerivedId,
    s: AssetKeySourceId,
    t2: AssetTypeId,
    h: AssetKeySynthHash,
)
    requires
        t1.spec_number() < ASSET_TYPE_MAX,
        d.0 < DERIVED_KEY_MAX,
        s.0 < SOURCE_KEY_MAX,
        t2.spec_number() < ASSET_TYPE_MAX,
        h.0 < SYNTH_HASH_MAX,
    ensures
        unique_repr(t1.spec_number(), d.0, s.0) != synthetic_repr(t2.spec_number(), h.0),
{
    lemma_unique_bits(t1.spec_number(), d.0, s.0);
    lemma_synthetic_bits(t2.spec_number(), h.0);
}

/// Two synthetic keys are equal exactly when their type and hash are.
pub proof fn lemma_synthetic_key_injective(
    t1: AssetTypeId,
    h1: AssetKeySynthHash,
    t2: AssetTypeId,
    h2: AssetKeySynthHash,
)
    requires
        t1.spec_number() < ASSET_TYPE_MAX,
        h1.0 < SYNTH_HASH_MAX,
        t2.spec_number() < ASSET_TYPE_MAX,
        h2.0 < SYNTH_HASH_MAX,
    ensures
        synthetic_repr(t1.spec_number(), h1.0) == synthetic_repr(t2.spec_number(), h2.0)
            <==> (t1 == t2 && h1 == h2),
{
    lemma_synthetic_bits(t1.spec_number(), h1.0);
    lemma_synthetic_bits(t2.spec_number(), h2.0);
    lemma_asset_type_number_roundtrip(t1, t2);
}

impl From<AssetKey> for u64 {
    fn from(value: AssetKey) -> (r: u64) {
        value.0
    }
}

impl vstd::std_specs::convert::FromSpecImpl<AssetKey> for u64 {
    open spec fn obeys_from_spec() -> bool {
        true
    }

    open spec fn from_spec(v: AssetKey) -> u64 {
        v.0
    }
}

impl From<u64> for AssetKey {
    fn from(u: u64) -> (r: AssetKey) {
        AssetKey(u)
    }
}

impl vstd::std_specs::convert::FromSpecImpl<u64> for AssetKey {
    open spec fn obeys_from_spec() -> bool {
        true
    }

    open spec fn from_spec(u: u64) -> AssetKey {
        AssetKey(u)
    }
}

/// A change the asset system announces to its subscribers.
pub enum AssetNotification {
    Reload(AssetKey),
}

/// Why an asset could not be loaded.
#[derive(Debug, Clone, Copy, PartialEq, Eq, Structural)]
pub enum AssetLoadError {
    /// The asset system has been shut down and no new asset can be loaded.
    Shutdown,
    /// The load request was canceled.
    Canceled,
    /// The asset key does not match the handle type.
    MismatchedAssetType,
    LifecyclerNotRegistered,
    Fetch,
    Parse,
}

impl AssetLoadError {
    /// The number that identifies this error (the first error is 1).
    pub fn code(self) -> (r: u16)
        ensures
            1 <= r <= 6,
            r == 1 <==> self == AssetLoadError::Shutdown,
            r == 6 <==> self == AssetLoadError::Parse,
    {
        match self {
            AssetLoadError::Shutdown => 1,
            AssetLoadError::Canceled => 2,
            AssetLoadError::MismatchedAssetType => 3,
            AssetLoadError::LifecyclerNotRegistered => 4,
            AssetLoadError::Fetch => 5,
            AssetLoadError::Parse => 6,
        }
    }
}

/// Whether a built asset's bytes hold the whole structured section that their
/// length prefix announces: the prefix was read (it took at least one byte) and
/// the section that follows it ends within the input.
pub open spec fn payload_fits(input_len: int, structured_size: int, structured_start: int) -> bool {
    structured_start != 0 && structured_start + structured_size <= input_len
}

/// Splits a built asset's bytes by their length prefix. The prefix has already
/// been read: it announced `structured_size` bytes of structured data and ended
/// at `structured_start`. The structured data is then
/// `input[structured_start..opaque_start]` and the opaque data is the rest.
/// Returns `Some((structured_start, opaque_start))`, or `None` where the prefix
/// was empty or the input is too short for the announced section.
pub fn payload_bounds(input_len: usize, structured_size: u64, structured_start: usize) -> (r: Option<(usize, usize)>)
    requires
        structured_start + structured_size <= usize::MAX,
    ensures
        r is Some <==> payload_fits(input_len as int, structured_size as int, structured_start as int),
        r matches Some((s, o)) ==> s == structured_start && o == structured_start + structured_size && s <= o <= input_len,
{
    let opaque_start: usize = structured_start + structured_size as usize;
    if structured_start == 0 || input_len < opaque_start {
        None
    } else {
        Some((structured_start, opaque_start))
    }
}

/// Where the asset system reads built assets from.
pub struct AssetsConfig {
    pub assets_root: String,
    pub enable_fs_watcher: bool,
}

impl AssetsConfig {
    /// The configuration used by tests.
    pub fn test() -> (r: Self)
        ensures
            r.assets_root@ == seq!['T', 'E', 'S', 'T', '_', 'D', 'I', 'R'],
            !r.enable_fs_watcher,
    {
        proof { reveal_strlit("TEST_DIR"); }
        AssetsConfig { assets_root: String::from_str("TEST_DIR"), enable_fs_watcher: false }
    }
}

/// The hash that versions a built asset's builder and format.
#[derive(Clone, Copy, PartialEq, Eq, Structural, Debug)]
pub struct VersionHash(pub u64);

/// Only the source id of a source's metadata, as read while scanning sources.
pub struct SourceMetadataStub {
    pub source_id: AssetKeySourceId,
}

} // verus!
