//! 128-bit asset keys of the asset system, and its asset type ids.
use vstd::prelude::*;
use std::hash::Hash;
use crate::bytes::{le_u128, le_value, lemma_le_value_bound, lemma_pow256_values};
use crate::entropy::{metrohash128_of, random_bytes};
use crate::text::{hex_lower_padded, hex_padded, push_str, string_push};

verus! {

/// All the supported asset types.
#[derive(Debug, Hash, Clone, Copy, PartialEq, Eq, Structural, PartialOrd, Ord)]
pub enum AssetTypeId {
    Invalid,
    Test1,
    Test2,
    /// Non-descript, untyped data.
    Untyped,
    Texture,
    Shader,
    RenderMaterial,
    Model,
    Scene,
}

impl AssetTypeId {
    /// The number that identifies this type inside an asset key.
    pub open spec fn spec_number(self) -> u16 {
        match self {
            AssetTypeId::Invalid => 0,
            AssetTypeId::Test1 => 1,
            AssetTypeId::Test2 => 2,
            AssetTypeId::Untyped => 3,
            AssetTypeId::Texture => 4,
            AssetTypeId::Shader => 5,
            AssetTypeId::RenderMaterial => 6,
            AssetTypeId::Model => 7,
            AssetTypeId::Scene => 8,
        }
    }

    /// The type whose number is `n`, if any.
    pub open spec fn spec_from_number(n: u16) -> Option<AssetTypeId> {
        if n == 0 { Some(AssetTypeId::Invalid) }
        else if n == 1 { Some(AssetTypeId::Test1) }
        else if n == 2 { Some(AssetTypeId::Test2) }
        else if n == 3 { Some(AssetTypeId::Untyped) }
        else if n == 4 { Some(AssetTypeId::Texture) }
        else if n == 5 { Some(AssetTypeId::Shader) }
        else if n == 6 { Some(AssetTypeId::RenderMaterial) }
        else if n == 7 { Some(AssetTypeId::Model) }
        else if n == 8 { Some(AssetTypeId::Scene) }
        else { None }
    }

    /// The number that identifies this type inside an asset key.
    pub fn number(self) -> (r: u16)
        ensures
            r == self.spec_number(),
    {
        match self {
            AssetTypeId::Invalid => 0,
            AssetTypeId::Test1 => 1,
            AssetTypeId::Test2 => 2,
            AssetTypeId::Untyped => 3,
            AssetTypeId::Texture => 4,
            AssetTypeId::Shader => 5,
            AssetTypeId::RenderMaterial => 6,
            AssetTypeId::Model => 7,
            AssetTypeId::Scene => 8,
        }
    }

    /// The type whose number is `n`, or `None` when no type has that number.
    pub fn from_number(n: u16) -> (r: Option<AssetTypeId>)
        ensures
            r == Self::spec_from_number(n),
    {
        if n == 0 { Some(AssetTypeId::Invalid) }
        else if n == 1 { Some(AssetTypeId::Test1) }
        else if n == 2 { Some(AssetTypeId::Test2) }
        else if n == 3 { Some(AssetTypeId::Untyped) }
        else if n == 4 { Some(AssetTypeId::Texture) }
        else if n == 5 { Some(AssetTypeId::Shader) }
        else if n == 6 { Some(AssetTypeId::RenderMaterial) }
        else if n == 7 { Some(AssetTypeId::Model) }
        else if n == 8 { Some(AssetTypeId::Scene) }
        else { None }
    }
}

/// Numbering a type and reading the number back gives the type again, and two types
/// with the same number are the same type.
pub proof fn lemma_asset_type_number_roundtrip(t: AssetTypeId, u: AssetTypeId)
    ensures
        AssetTypeId::spec_from_number(t.spec_number()) == Some(t),
        t.spec_number() < 16,
        t.spec_number() == u.spec_number() <==> t == u,
{
}

/// Bits of the source id of a unique key.
pub const SOURCE_KEY_BITS: u128 = 100;
/// Bits of the derived id of a unique key.
pub const DERIVED_KEY_BITS: u128 = 15;
/// Bits of the content hash of a synthetic key.
pub const SYNTH_HASH_BITS: u128 = 115;
/// Bits of the flag that marks synthetic keys.
pub const SYNTH_FLAG_BITS: u128 = 1;
/// Bits of the asset type, at the top of the key.
pub const ASSET_TYPE_BITS: u128 = 12;

/// Largest value of the source-id field.
pub const SOURCE_KEY_MAX: u128 = 0xf_ffff_ffff_ffff_ffff_ffff_ffff;
/// Largest value of the derived-id field.
pub const DERIVED_KEY_MAX: u16 = 0x7fff;
/// Largest value of the synthetic-hash field.
pub const SYNTH_HASH_MAX: u128 = 0x7_ffff_ffff_ffff_ffff_ffff_ffff_ffff;
/// Largest value of the asset-type field.
pub const ASSET_TYPE_MAX: u16 = 0xfff;

/// Bit position of the derived id.
pub const DERIVED_KEY_SHIFT: u128 = 100;
/// Bit position of the synthetic flag.
pub const SYNTH_FLAG_SHIFT: u128 = 115;
/// Bit position of the asset type.
pub const ASSET_TYPE_SHIFT: u128 = 116;

/// The id that tells apart the assets built from one source (only 15 bits are used).
#[derive(Default, Clone, Copy, PartialEq, Eq, Structural, Debug)]
pub struct AssetKeyDerivedId(pub u16);

impl AssetKeyDerivedId {
    /// The derived id used by tests.
    pub fn test() -> (r: Self)
        ensures
            r.0 == 0,
    {
        AssetKeyDerivedId(0)
    }

    /// Hands out the current id and advances `self` by one; returns `None` (and leaves
    /// `self` alone) once the id has left the 15 bits that derived ids use.
    pub fn next(&mut self) -> (r: Option<Self>)
        ensures
            old(self).0 < DERIVED_KEY_MAX ==> r == Some(*old(self)) && final(self).0 == old(self).0 + 1,
            old(self).0 >= DERIVED_KEY_MAX ==> r is None && *final(self) == *old(self),
    {
        if self.0 < DERIVED_KEY_MAX {
            let rval = *self;
            self.0 = self.0 + 1;
            Some(rval)
        } else {
            None
        }
    }
}

/// The random id given to an asset source (only the low 100 bits are used).
#[derive(Clone, Copy, PartialEq, Eq, Structural, Debug)]
pub struct AssetKeySourceId(pub u128);

impl AssetKeySourceId {
    /// Builds a source id from little-endian bytes.
    pub fn from_le_bytes_prefix(bytes: &[u8]) -> (r: Self)
        requires
            bytes@.len() <= 16,
        ensures
            r.0 as nat == le_value(bytes@),
    {
        AssetKeySourceId(le_u128(bytes))
    }

    /// A fresh random source id. As many whole bytes as fit in the source-id field
    /// (twelve) are random; the rest are zero.
    pub fn generate() -> (r: Self)
        ensures
            r.0 < 0x1_0000_0000_0000_0000_0000_0000,
    {
        let bytes = random_bytes((SOURCE_KEY_BITS / 8) as usize);
        proof {
            lemma_le_value_bound(bytes@);
            lemma_pow256_values();
        }
        Self::from_le_bytes_prefix(bytes.as_slice())
    }

    /// The source id `n`, for tests.
    pub fn test(n: u8) -> (r: Self)
        ensures
            r.0 == n,
    {
        AssetKeySourceId(n as u128)
    }
}

/// The content hash of a synthetic asset (only the low 115 bits are used).
#[derive(Clone, Copy, PartialEq, Eq, Structural, Debug)]
pub struct AssetKeySynthHash(pub u128);

impl AssetKeySynthHash {
    /// The synthetic hash made from the two halves of a 128-bit hash: the low 115 bits of
    /// `low | high << 64`.
    pub fn from_hash_halves(low: u64, high: u64) -> (r: Self)
        ensures
            r.0 == ((low as u128) | ((high as u128) << 64u128)) & SYNTH_HASH_MAX,
    {
        let n = (low as u128) | ((high as u128) << 64u128);
        AssetKeySynthHash(n & SYNTH_HASH_MAX)
    }

    /// Hashes `hashable` with MetroHash128 and keeps the low 115 bits.
    pub fn generate<H: Hash>(hashable: H) -> (r: Self)
        ensures
            r.0 <= SYNTH_HASH_MAX,
    {
        let (low, high) = metrohash128_of(&hashable);
        let r = Self::from_hash_halves(low, high);
        let n = (low as u128) | ((high as u128) << 64u128);
        assert(n & 0x7_ffff_ffff_ffff_ffff_ffff_ffff_ffffu128 <= 0x7_ffff_ffff_ffff_ffff_ffff_ffff_ffffu128) by (bit_vector);
        r
    }

    /// The synthetic hash `n`, for tests.
    pub fn test(n: u128) -> (r: Self)
        ensures
            r.0 == n,
    {
        AssetKeySynthHash(n)
    }
}

/// The bits of a unique key.
pub open spec fn unique_repr(asset_type: u16, derived_id: u16, source_id: u128) -> u128 {
    (source_id & SOURCE_KEY_MAX) | (((derived_id & DERIVED_KEY_MAX) as u128) << DERIVED_KEY_SHIFT) | (
    ((asset_type & ASSET_TYPE_MAX) as u128) << ASSET_TYPE_SHIFT)
}

/// The bits of a synthetic key.
pub open spec fn synthetic_repr(asset_type: u16, synth_hash: u128) -> u128 {
    (synth_hash & SYNTH_HASH_MAX) | (1u128 << SYNTH_FLAG_SHIFT) | (((asset_type & ASSET_TYPE_MAX) as u128)
        << ASSET_TYPE_SHIFT)
}

/// The asset-type field of a key.
pub open spec fn type_field(k: u128) -> u16 {
    ((k >> ASSET_TYPE_SHIFT) as u16) & ASSET_TYPE_MAX
}

/// The synthetic flag of a key.
pub open spec fn synth_flag(k: u128) -> bool {
    (((k >> SYNTH_FLAG_SHIFT) as u8) & 1u8) == 1u8
}

/// The derived-id field of a key.
pub open spec fn derived_field(k: u128) -> u16 {
    ((k >> DERIVED_KEY_SHIFT) as u16) & DERIVED_KEY_MAX
}

/// The source-id field of a key.
pub open spec fn source_field(k: u128) -> u128 {
    k & SOURCE_KEY_MAX
}

/// The synthetic-hash field of a key.
pub open spec fn hash_field(k: u128) -> u128 {
    k & SYNTH_HASH_MAX
}

proof fn lemma_unique_bits(t: u16, d: u16, s: u128)
    requires
        t < 0xfff,
        d < 0x7fff,
        s < 0xf_ffff_ffff_ffff_ffff_ffff_ffff,
    ensures
        type_field(unique_repr(t, d, s)) == t,
        !synth_flag(unique_repr(t, d, s)),
        derived_field(unique_repr(t, d, s)) == d,
        source_field(unique_repr(t, d, s)) == s,
{
    assert((((((s & 0xf_ffff_ffff_ffff_ffff_ffff_ffffu128) | (((d & 0x7fffu16) as u128) << 100u128) | (((t & 0xfffu16) as u128) << 116u128)) >> 116u128) as u16) & 0xfffu16) == t) by (bit_vector)
        requires t < 0xfff;
    assert(((((((s & 0xf_ffff_ffff_ffff_ffff_ffff_ffffu128) | (((d & 0x7fffu16) as u128) << 100u128) | (((t & 0xfffu16) as u128) << 116u128)) >> 115u128) as u8) & 1u8) == 1u8) == false) by (bit_vector)
        requires t < 0xfff, d < 0x7fff, s < 0xf_ffff_ffff_ffff_ffff_ffff_ffff;
    assert((((((s & 0xf_ffff_ffff_ffff_ffff_ffff_ffffu128) | (((d & 0x7fffu16) as u128) << 100u128) | (((t & 0xfffu16) as u128) << 116u128)) >> 100u128) as u16) & 0x7fffu16) == d) by (bit_vector)
        requires d < 0x7fff, s < 0xf_ffff_ffff_ffff_ffff_ffff_ffff;
    assert((((s & 0xf_ffff_ffff_ffff_ffff_ffff_ffffu128) | (((d & 0x7fffu16) as u128) << 100u128) | (((t & 0xfffu16) as u128) << 116u128)) & 0xf_ffff_ffff_ffff_ffff_ffff_ffffu128) == s) by (bit_vector)
        requires s < 0xf_ffff_ffff_ffff_ffff_ffff_ffff;
}

proof fn lemma_synthetic_bits(t: u16, h: u128)
    requires
        t < 0xfff,
        h < 0x7_ffff_ffff_ffff_ffff_ffff_ffff_ffff,
    ensures
        type_field(synthetic_repr(t, h)) == t,
        synth_flag(synthetic_repr(t, h)),
        hash_field(synthetic_repr(t, h)) == h,
{
    assert((((((h & 0x7_ffff_ffff_ffff_ffff_ffff_ffff_ffffu128) | (1u128 << 115u128) | (((t & 0xfffu16) as u128) << 116u128)) >> 116u128) as u16) & 0xfffu16) == t) by (bit_vector)
        requires t < 0xfff;
    assert(((((((h & 0x7_ffff_ffff_ffff_ffff_ffff_ffff_ffffu128) | (1u128 << 115u128) | (((t & 0xfffu16) as u128) << 116u128)) >> 115u128) as u8) & 1u8) == 1u8)) by (bit_vector)
        requires t < 0xfff, h < 0x7_ffff_ffff_ffff_ffff_ffff_ffff_ffff;
    assert((((h & 0x7_ffff_ffff_ffff_ffff_ffff_ffff_ffffu128) | (1u128 << 115u128) | (((t & 0xfffu16) as u128) << 116u128)) & 0x7_ffff_ffff_ffff_ffff_ffff_ffff_ffffu128) == h) by (bit_vector)
        requires h < 0x7_ffff_ffff_ffff_ffff_ffff_ffff_ffff;
}

/// Each asset type is numbered in keys as it is declared, from `Invalid` (0) up to `Scene`
/// (8): the type field of every unique and every synthetic key of `t` holds that number,
/// and any key `k` whose type field holds it reads back as `t`.
pub proof fn lemma_declared_type_numbers(
    t: AssetTypeId,
    d: AssetKeyDerivedId,
    s: AssetKeySourceId,
    h: AssetKeySynthHash,
    k: AssetKey,
)
    requires
        d.0 < DERIVED_KEY_MAX,
        s.0 < SOURCE_KEY_MAX,
        h.0 < SYNTH_HASH_MAX,
    ensures
        type_field(unique_repr(t.spec_number(), d.0, s.0)) == (match t {
            AssetTypeId::Invalid => 0u16,
            AssetTypeId::Test1 => 1u16,
            AssetTypeId::Test2 => 2u16,
            AssetTypeId::Untyped => 3u16,
            AssetTypeId::Texture => 4u16,
            AssetTypeId::Shader => 5u16,
            AssetTypeId::RenderMaterial => 6u16,
            AssetTypeId::Model => 7u16,
            AssetTypeId::Scene => 8u16,
        }),
        type_field(synthetic_repr(t.spec_number(), h.0)) == (match t {
            AssetTypeId::Invalid => 0u16,
            AssetTypeId::Test1 => 1u16,
            AssetTypeId::Test2 => 2u16,
            AssetTypeId::Untyped => 3u16,
            AssetTypeId::Texture => 4u16,
            AssetTypeId::Shader => 5u16,
            AssetTypeId::RenderMaterial => 6u16,
            AssetTypeId::Model => 7u16,
            AssetTypeId::Scene => 8u16,
        }),
        type_field(k.0) == (match t {
            AssetTypeId::Invalid => 0u16,
            AssetTypeId::Test1 => 1u16,
            AssetTypeId::Test2 => 2u16,
            AssetTypeId::Untyped => 3u16,
            AssetTypeId::Texture => 4u16,
            AssetTypeId::Shader => 5u16,
            AssetTypeId::RenderMaterial => 6u16,
            AssetTypeId::Model => 7u16,
            AssetTypeId::Scene => 8u16,
        }) ==> k.spec_asset_type() == t,
{
    lemma_asset_type_number_roundtrip(t, t);
    lemma_unique_bits(t.spec_number(), d.0, s.0);
    lemma_synthetic_bits(t.spec_number(), h.0);
}

/// A unique identifier of a built asset. It is either synthetic (its id is a hash of its
/// contents) or unique (its id combines a source id and a derived id).
#[derive(Clone, Copy, PartialEq, Eq, Structural, PartialOrd, Ord, Hash, Debug)]
pub struct AssetKey(pub u128);

impl AssetKey {
    /// The asset type recorded in the key; a number that names no type reads as `Invalid`.
    pub open spec fn spec_asset_type(self) -> AssetTypeId {
        match AssetTypeId::spec_from_number(type_field(self.0)) {
            Some(t) => t,
            None => AssetTypeId::Invalid,
        }
    }

    /// The derived id of a unique key; 0 for a synthetic key.
    pub open spec fn spec_derived_id(self) -> u16 {
        if synth_flag(self.0) { 0 } else { derived_field(self.0) }
    }

    /// The source id of a unique key; 0 for a synthetic key.
    pub open spec fn spec_source_id(self) -> u128 {
        if synth_flag(self.0) { 0 } else { source_field(self.0) }
    }

    /// The content hash of a synthetic key; 0 for a unique key.
    pub open spec fn spec_synth_hash(self) -> u128 {
        if synth_flag(self.0) { hash_field(self.0) } else { 0 }
    }

    /// The key of the asset derived as `derived_id` from the source `source_id`.
    pub fn unique(asset_type: AssetTypeId, derived_id: AssetKeyDerivedId, source_id: AssetKeySourceId) -> (r: Self)
        requires
            asset_type.spec_number() < ASSET_TYPE_MAX,
            derived_id.0 < DERIVED_KEY_MAX,
            source_id.0 < SOURCE_KEY_MAX,
        ensures
            r.0 == unique_repr(asset_type.spec_number(), derived_id.0, source_id.0),
            r.spec_asset_type() == asset_type,
            !synth_flag(r.0),
            r.spec_derived_id() == derived_id.0,
            r.spec_source_id() == source_id.0,
            r.spec_synth_hash() == 0,
    {
        let mut u: u128 = source_id.0 & SOURCE_KEY_MAX;
        u = u | (((derived_id.0 & DERIVED_KEY_MAX) as u128) << DERIVED_KEY_SHIFT);
        u = u | (((asset_type.number() & ASSET_TYPE_MAX) as u128) << ASSET_TYPE_SHIFT);
        proof {
            lemma_unique_bits(asset_type.spec_number(), derived_id.0, source_id.0);
            lemma_asset_type_number_roundtrip(asset_type, asset_type);
        }
        AssetKey(u)
    }

    /// The key of the synthetic asset of `asset_type` whose contents hash to `synth_hash`.
    pub fn synthetic(asset_type: AssetTypeId, synth_hash: AssetKeySynthHash) -> (r: Self)
        requires
            asset_type.spec_number() < ASSET_TYPE_MAX,
            synth_hash.0 < SYNTH_HASH_MAX,
        ensures
            r.0 == synthetic_repr(asset_type.spec_number(), synth_hash.0),
            r.spec_asset_type() == asset_type,
            synth_flag(r.0),
            r.spec_derived_id() == 0,
            r.spec_source_id() == 0,
            r.spec_synth_hash() == synth_hash.0,
    {
        let mut u: u128 = synth_hash.0 & SYNTH_HASH_MAX;
        u = u | (1u128 << SYNTH_FLAG_SHIFT);
        u = u | (((asset_type.number() & ASSET_TYPE_MAX) as u128) << ASSET_TYPE_SHIFT);
        proof {
            lemma_synthetic_bits(asset_type.spec_number(), synth_hash.0);
            lemma_asset_type_number_roundtrip(asset_type, asset_type);
        }
        AssetKey(u)
    }

    /// The asset type recorded in the key.
    pub fn asset_type(&self) -> (r: AssetTypeId)
        ensures
            r == self.spec_asset_type(),
    {
        let n = ((self.0 >> ASSET_TYPE_SHIFT) as u16) & ASSET_TYPE_MAX;
        match AssetTypeId::from_number(n) {
            Some(t) => t,
            None => AssetTypeId::Invalid,
        }
    }

    /// The derived id of this key; 0 if the key is synthetic.
    pub fn derived_id(&self) -> (r: AssetKeyDerivedId)
        ensures
            r.0 == self.spec_derived_id(),
    {
        let u = ((self.0 >> DERIVED_KEY_SHIFT) as u16) & DERIVED_KEY_MAX;
        if self.is_synthetic() {
            AssetKeyDerivedId(0)
        } else {
            AssetKeyDerivedId(u)
        }
    }

    /// The source id of this key; 0 if the key is synthetic.
    pub fn source_id(&self) -> (r: AssetKeySourceId)
        ensures
            r.0 == self.spec_source_id(),
    {
        let u = self.0 & SOURCE_KEY_MAX;
        if self.is_synthetic() {
            AssetKeySourceId(0)
        } else {
            AssetKeySourceId(u)
        }
    }

    /// The synthesized hash of this key; 0 if the key is unique (not synthetic).
    pub fn synth_hash(&self) -> (r: AssetKeySynthHash)
        ensures
            r.0 == self.spec_synth_hash(),
    {
        let u = self.0 & SYNTH_HASH_MAX;
        if self.is_synthetic() {
            AssetKeySynthHash(u)
        } else {
            AssetKeySynthHash(0)
        }
    }

    /// Whether the key is synthetic.
    pub fn is_synthetic(&self) -> (r: bool)
        ensures
            r == synth_flag(self.0),
    {
        (((self.0 >> SYNTH_FLAG_SHIFT) as u8) & 1u8) == 1u8
    }

    /// The name of the asset's file: the key in 32 hex digits followed by `.ass`.
    pub fn as_file_name(&self) -> (r: String)
        ensures
            r@ == hex_padded(self.0 as nat, 32) + seq!['.', 'a', 's', 's'],
    {
        let mut name = hex_lower_padded(self.0, 32);
        proof { reveal_strlit(".ass"); }
        push_str(&mut name, ".ass");
        name
    }

    /// The name of the asset's metadata file: the key in 32 hex digits followed by `.mass`.
    pub fn as_meta_file_name(&self) -> (r: String)
        ensures
            r@ == hex_padded(self.0 as nat, 32) + seq!['.', 'm', 'a', 's', 's'],
    {
        let mut name = hex_lower_padded(self.0, 32);
        proof { reveal_strlit(".mass"); }
        push_str(&mut name, ".mass");
        name
    }
}

/// Two unique keys are equal exactly when their type, derived id and source id are.
pub proof fn lemma_unique_key_injective(
    t1: AssetTypeId,
    d1: AssetKeyDerivedId,
    s1: AssetKeySourceId,
    t2: AssetTypeId,
    d2: AssetKeyDerivedId,
    s2: AssetKeySourceId,
)
    requires
        t1.spec_number() < ASSET_TYPE_MAX,
        d1.0 < DERIVED_KEY_MAX,
        s1.0 < SOURCE_KEY_MAX,
        t2.spec_number() < ASSET_TYPE_MAX,
        d2.0 < DERIVED_KEY_MAX,
        s2.0 < SOURCE_KEY_MAX,
    ensures
        unique_repr(t1.spec_number(), d1.0, s1.0) == unique_repr(t2.spec_number(), d2.0, s2.0)
            <==> (t1 == t2 && d1 == d2 && s1 == s2),
{
    lemma_unique_bits(t1.spec_number(), d1.0, s1.0);
    lemma_unique_bits(t2.spec_number(), d2.0, s2.0);
    lemma_asset_type_number_roundtrip(t1, t2);
}

/// A unique key never equals a synthetic key.
pub proof fn lemma_unique_never_synthetic(
    t1: AssetTypeId,
    d: AssetKeyDerivedId,
    s: AssetKeySourceId,
    t2: AssetTypeId,
    h: AssetKeySynthHash,
)
    requires
        t1.spec_number() < ASSET_TYPE_MAX,
        d.0 < DERIVED_KEY_MAX,
        s.0 < SOURCE_KEY_MAX,
        t2.spec_number() < ASSET_TYPE_MAX,
        h.0 < SYNTH_HASH_MAX,
    ensures
        unique_repr(t1.spec_number(), d.0, s.0) != synthetic_repr(t2.spec_number(), h.0),
{
    lemma_unique_bits(t1.spec_number(), d.0, s.0);
    lemma_synthetic_bits(t2.spec_number(), h.0);
}

/// Two synthetic keys are equal exactly when their type and hash are.
pub proof fn lemma_synthetic_key_injective(
    t1: AssetTypeId,
    h1: AssetKeySynthHash,
    t2: AssetTypeId,
    h2: AssetKeySynthHash,
)
    requires
        t1.spec_number() < ASSET_TYPE_MAX,
        h1.0 < SYNTH_HASH_MAX,
        t2.spec_number() < ASSET_TYPE_MAX,
        h2.0 < SYNTH_HASH_MAX,
    ensures
        synthetic_repr(t1.spec_number(), h1.0) == synthetic_repr(t2.spec_number(), h2.0)
            <==> (t1 == t2 && h1 == h2),
{
    lemma_synthetic_bits(t1.spec_number(), h1.0);
    lemma_synthetic_bits(t2.spec_number(), h2.0);
    lemma_asset_type_number_roundtrip(t1, t2);
}

impl From<AssetKey> for u128 {
    fn from(value: AssetKey) -> (r: u128) {
        value.0
    }
}

impl vstd::std_specs::convert::FromSpecImpl<AssetKey> for u128 {
    open spec fn obeys_from_spec() -> bool {
        true
    }

    open spec fn from_spec(v: AssetKey) -> u128 {
        v.0
    }
}

impl From<u128> for AssetKey {
    fn from(u: u128) -> (r: AssetKey) {
        AssetKey(u)
    }
}

impl vstd::std_specs::convert::FromSpecImpl<u128> for AssetKey {
    open spec fn obeys_from_spec() -> bool {
        true
    }

    open spec fn from_spec(u: u128) -> AssetKey {
        AssetKey(u)
    }
}

} // verus!
