//! The 128-bit asset key of the `assets` storage, which carries a "temporary" flag in
//! place of a synthetic one, and the decisions of that storage's worker.
use vstd::prelude::*;
use crate::bytes::{le_u128, le_value, lemma_le_value_bound, lemma_pow256_values};
use crate::entropy::random_bytes;
use crate::text::{hex_lower_padded, hex_padded, push_str};

pub use crate::asset::AssetTypeId;

verus! {

/// The id that tells apart the assets built from one source (only 15 bits are used).
pub type AssetKeyDerivedId = u16;
/// The random id of an asset source (only 100 bits are used).
pub type AssetKeyBaseId = u128;

/// Bits of the base id.
pub const BASE_KEY_BITS: u128 = 100;
/// Bits of the derived id.
pub const DERIVED_KEY_BITS: u128 = 15;
/// Bits of the temporary flag.
pub const TEMP_FLAG_BITS: u128 = 1;
/// Bits of the asset type.
pub const ASSET_TYPE_BITS: u128 = 12;

/// Largest value of the base-id field.
pub const BASE_KEY_MAX: u128 = 0xf_ffff_ffff_ffff_ffff_ffff_ffff;
/// Largest value of the derived-id field.
pub const DERIVED_KEY_MAX: u16 = 0x7fff;
/// Largest value of the asset-type field.
pub const ASSET_TYPE_MAX: u16 = 0xfff;

/// Bit position of the derived id.
pub const DERIVED_KEY_SHIFT: u128 = 100;
/// Bit position of the temporary flag.
pub const TEMP_FLAG_SHIFT: u128 = 115;
/// Bit position of the asset type.
pub const ASSET_TYPE_SHIFT: u128 = 116;

/// The bits of a key.
pub open spec fn key_repr(asset_type: u16, is_temporary: bool, derived_id: u16, base_id: u128) -> u128 {
    (base_id & BASE_KEY_MAX) | (((derived_id & DERIVED_KEY_MAX) as u128) << DERIVED_KEY_SHIFT) | (
    (if is_temporary { 1u128 } else { 0u128 }) << TEMP_FLAG_SHIFT) | (((asset_type & ASSET_TYPE_MAX) as u128)
        << ASSET_TYPE_SHIFT)
}

/// The asset-type field of a key.
pub open spec fn type_field(k: u128) -> u16 {
    ((k >> ASSET_TYPE_SHIFT) as u16) & ASSET_TYPE_MAX
}

/// The temporary flag of a key.
pub open spec fn temp_flag(k: u128) -> bool {
    (((k >> TEMP_FLAG_SHIFT) as u8) & 1u8) == 1u8
}

/// The derived-id field of a key.
pub open spec fn derived_field(k: u128) -> u16 {
    ((k >> DERIVED_KEY_SHIFT) as u16) & DERIVED_KEY_MAX
}

/// The base-id field of a key.
pub open spec fn base_field(k: u128) -> u128 {
    k & BASE_KEY_MAX
}

/// The bits of a key whose temporary flag is the number `f`.
pub open spec fn key_repr_bits(t: u16, f: u128, d: u16, b: u128) -> u128 {
    (b & BASE_KEY_MAX) | (((d & DERIVED_KEY_MAX) as u128) << DERIVED_KEY_SHIFT) | (f << TEMP_FLAG_SHIFT) | (
    ((t & ASSET_TYPE_MAX) as u128) << ASSET_TYPE_SHIFT)
}

proof fn lemma_key_bits(t: u16, f: u128, d: u16, b: u128)
    requires
        t < 0xfff,
        f <= 1,
        d < 0x7fff,
        b < 0xf_ffff_ffff_ffff_ffff_ffff_ffff,
    ensures
        type_field(key_repr_bits(t, f, d, b)) == t,
        temp_flag(key_repr_bits(t, f, d, b)) == (f == 1),
        derived_field(key_repr_bits(t, f, d, b)) == d,
        base_field(key_repr_bits(t, f, d, b)) == b,
{
    assert(type_field(key_repr_bits(t, f, d, b)) == t) by (bit_vector)
        requires t < 0xfff, f <= 1;
    assert(temp_flag(key_repr_bits(t, f, d, b)) == (f == 1)) by (bit_vector)
        requires t < 0xfff, f <= 1, d < 0x7fff, b < 0xf_ffff_ffff_ffff_ffff_ffff_ffff;
    assert(derived_field(key_repr_bits(t, f, d, b)) == d) by (bit_vector)
        requires d < 0x7fff, f <= 1, b < 0xf_ffff_ffff_ffff_ffff_ffff_ffff;
    assert(base_field(key_repr_bits(t, f, d, b)) == b) by (bit_vector)
        requires b < 0xf_ffff_ffff_ffff_ffff_ffff_ffff;
}

proof fn lemma_key_fields(t: u16, tmp: bool, d: u16, b: u128)
    requires
        t < 0xfff,
        d < 0x7fff,
        b < 0xf_ffff_ffff_ffff_ffff_ffff_ffff,
    ensures
        type_field(key_repr(t, tmp, d, b)) == t,
        temp_flag(key_repr(t, tmp, d, b)) == tmp,
        derived_field(key_repr(t, tmp, d, b)) == d,
        base_field(key_repr(t, tmp, d, b)) == b,
{
    let f: u128 = if tmp { 1 } else { 0 };
    lemma_key_bits(t, f, d, b);
    assert(key_repr(t, tmp, d, b) == key_repr_bits(t, f, d, b));
}

/// A key identifying a built asset: its type, whether it is temporary, the id derived
/// within its source and the source's base id.
#[derive(Clone, Copy, PartialEq, Eq, Structural, PartialOrd, Ord, Hash, Debug)]
pub struct AssetKey(pub u128);

impl AssetKey {
    /// The asset type recorded in the key; a number that names no type reads as `Invalid`.
    pub open spec fn spec_asset_type(self) -> AssetTypeId {
        match AssetTypeId::spec_from_number(type_field(self.0)) {
            Some(t) => t,
            None => AssetTypeId::Invalid,
        }
    }

    /// Packs the four parts of a key.
    pub fn new(asset_type: AssetTypeId, is_temporary: bool, derived_id: AssetKeyDerivedId, base_id: AssetKeyBaseId) -> (r: Self)
        requires
            asset_type.spec_number() < ASSET_TYPE_MAX,
            derived_id < DERIVED_KEY_MAX,
            base_id < BASE_KEY_MAX,
        ensures
            r.0 == key_repr(asset_type.spec_number(), is_temporary, derived_id, base_id),
            r.spec_asset_type() == asset_type,
            temp_flag(r.0) == is_temporary,
            derived_field(r.0) == derived_id,
            base_field(r.0) == base_id,
    {
        let mut u: u128 = base_id & BASE_KEY_MAX;
        u = u | (((derived_id & DERIVED_KEY_MAX) as u128) << DERIVED_KEY_SHIFT);
        let flag: u128 = if is_temporary { 1 } else { 0 };
        u = u | (flag << TEMP_FLAG_SHIFT);
        u = u | (((asset_type.number() & ASSET_TYPE_MAX) as u128) << ASSET_TYPE_SHIFT);
        proof {
            lemma_key_fields(asset_type.spec_number(), is_temporary, derived_id, base_id);
            crate::asset::lemma_asset_type_number_roundtrip(asset_type, asset_type);
        }
        AssetKey(u)
    }

    /// Builds a base id from little-endian bytes.
    pub fn base_id_from_le_bytes(bytes: &[u8]) -> (r: AssetKeyBaseId)
        requires
            bytes@.len() <= 16,
        ensures
            r as nat == le_value(bytes@),
    {
        le_u128(bytes)
    }

    /// A fresh random base id. As many whole bytes as fit in the base-id field (twelve)
    /// are random; the rest are zero.
    pub fn generate_base_id() -> (r: AssetKeyBaseId)
        ensures
            r < 0x1_0000_0000_0000_0000_0000_0000,
    {
        let bytes = random_bytes((BASE_KEY_BITS / 8) as usize);
        proof {
            lemma_le_value_bound(bytes@);
            lemma_pow256_values();
        }
        Self::base_id_from_le_bytes(bytes.as_slice())
    }

    /// The asset type recorded in the key.
    pub fn asset_type(&self) -> (r: AssetTypeId)
        ensures
            r == self.spec_asset_type(),
    {
        let n = ((self.0 >> ASSET_TYPE_SHIFT) as u16) & ASSET_TYPE_MAX;
        match AssetTypeId::from_number(n) {
            Some(t) => t,
            None => AssetTypeId::Invalid,
        }
    }

    /// The derived id recorded in the key.
    pub fn derived_id(&self) -> (r: AssetKeyDerivedId)
        ensures
            r == derived_field(self.0),
    {
        ((self.0 >> DERIVED_KEY_SHIFT) as u16) & DERIVED_KEY_MAX
    }

    /// The base id recorded in the key.
    pub fn base_id(&self) -> (r: AssetKeyBaseId)
        ensures
            r == base_field(self.0),
    {
        self.0 & BASE_KEY_MAX
    }

    /// Whether the key is temporary.
    pub fn is_temporary(&self) -> (r: bool)
        ensures
            r == temp_flag(self.0),
    {
        (((self.0 >> TEMP_FLAG_SHIFT) as u8) & 1u8) == 1u8
    }

    /// The name of the asset's file: the key in 32 hex digits followed by `.ass`.
    pub fn as_file_name(&self) -> (r: String)
        ensures
            r@ == hex_padded(self.0 as nat, 32) + seq!['.', 'a', 's', 's'],
    {
        let mut name = hex_lower_padded(self.0, 32);
        proof { reveal_strlit(".ass"); }
        push_str(&mut name, ".ass");
        name
    }

    /// The name of the asset's metadata file: the key in 32 hex digits followed by `.mass`.
    pub fn as_meta_file_name(&self) -> (r: String)
        ensures
            r@ == hex_padded(self.0 as nat, 32) + seq!['.', 'm', 'a', 's', 's'],
    {
        let mut name = hex_lower_padded(self.0, 32);
        proof { reveal_strlit(".mass"); }
        push_str(&mut name, ".mass");
        name
    }
}

/// Reading the parts of a packed key gives back the parts it was packed from.
pub proof fn lemma_key_roundtrip(t: AssetTypeId, is_temporary: bool, d: AssetKeyDerivedId, b: AssetKeyBaseId)
    requires
        t.spec_number() < ASSET_TYPE_MAX,
        d < DERIVED_KEY_MAX,
        b < BASE_KEY_MAX,
    ensures
        AssetKey(key_repr(t.spec_number(), is_temporary, d, b)).spec_asset_type() == t,
        temp_flag(key_repr(t.spec_number(), is_temporary, d, b)) == is_temporary,
        derived_field(key_repr(t.spec_number(), is_temporary, d, b)) == d,
        base_field(key_repr(t.spec_number(), is_temporary, d, b)) == b,
{
    lemma_key_fields(t.spec_number(), is_temporary, d, b);
    crate::asset::lemma_asset_type_number_roundtrip(t, t);
}

/// Each asset type is numbered in keys as it is declared, from `Invalid` (0) up to `Scene`
/// (8): the type field of every key packed for `t` holds that number, and any key `k` whose
/// type field holds it reads back as `t`.
pub proof fn lemma_declared_type_numbers(t: AssetTypeId, is_temporary: bool, d: AssetKeyDerivedId, b: AssetKeyBaseId, k: AssetKey)
    requires
        d < DERIVED_KEY_MAX,
        b < BASE_KEY_MAX,
    ensures
        type_field(key_repr(t.spec_number(), is_temporary, d, b)) == (match t {
            AssetTypeId::Invalid => 0u16,
            AssetTypeId::Test1 => 1u16,
            AssetTypeId::Test2 => 2u16,
            AssetTypeId::Untyped => 3u16,
            AssetTypeId::Texture => 4u16,
            AssetTypeId::Shader => 5u16,
            AssetTypeId::RenderMaterial => 6u16,
            AssetTypeId::Model => 7u16,
            AssetTypeId::Scene => 8u16,
        }),
        type_field(k.0) == (match t {
            AssetTypeId::Invalid => 0u16,
            AssetTypeId::Test1 => 1u16,
            AssetTypeId::Test2 => 2u16,
            AssetTypeId::Untyped => 3u16,
            AssetTypeId::Texture => 4u16,
            AssetTypeId::Shader => 5u16,
            AssetTypeId::RenderMaterial => 6u16,
            AssetTypeId::Model => 7u16,
            AssetTypeId::Scene => 8u16,
        }) ==> k.spec_asset_type() == t,
{
    crate::asset::lemma_asset_type_number_roundtrip(t, t);
    lemma_key_fields(t.spec_number(), is_temporary, d, b);
}

/// Two keys are equal exactly when all four of their parts are.
pub proof fn lemma_key_injective(
    t1: AssetTypeId,
    tmp1: bool,
    d1: AssetKeyDerivedId,
    b1: AssetKeyBaseId,
    t2: AssetTypeId,
    tmp2: bool,
    d2: AssetKeyDerivedId,
    b2: AssetKeyBaseId,
)
    requires
        t1.spec_number() < ASSET_TYPE_MAX,
        d1 < DERIVED_KEY_MAX,
        b1 < BASE_KEY_MAX,
        t2.spec_number() < ASSET_TYPE_MAX,
        d2 < DERIVED_KEY_MAX,
        b2 < BASE_KEY_MAX,
    ensures
        key_repr(t1.spec_number(), tmp1, d1, b1) == key_repr(t2.spec_number(), tmp2, d2, b2)
            <==> (t1 == t2 && tmp1 == tmp2 && d1 == d2 && b1 == b2),
{
    lemma_key_fields(t1.spec_number(), tmp1, d1, b1);
    lemma_key_fields(t2.spec_number(), tmp2, d2, b2);
    crate::asset::lemma_asset_type_number_roundtrip(t1, t2);
}

impl From<AssetKey> for u128 {
    fn from(value: AssetKey) -> (r: u128) {
        value.0
    }
}

impl vstd::std_specs::convert::FromSpecImpl<AssetKey> for u128 {
    open spec fn obeys_from_spec() -> bool {
        true
    }

    open spec fn from_spec(v: AssetKey) -> u128 {
        v.0
    }
}

impl From<u128> for AssetKey {
    fn from(u: u128) -> (r: AssetKey) {
        AssetKey(u)
    }
}

impl vstd::std_specs::convert::FromSpecImpl<u128> for AssetKey {
    open spec fn obeys_from_spec() -> bool {
        true
    }

    open spec fn from_spec(u: u128) -> AssetKey {
        AssetKey(u)
    }
}

/// Where the asset system reads built assets from.
pub struct AssetsConfig {
    pub assets_root: String,
    pub enable_fs_watcher: bool,
}

impl AssetsConfig {
    /// The configuration used by tests.
    pub fn test() -> (r: Self)
        ensures
            r.assets_root@ == seq!['T', 'E', 'S', 'T', '_', 'D', 'I', 'R'],
            !r.enable_fs_watcher,
    {
        proof { reveal_strlit("TEST_DIR"); }
        AssetsConfig { assets_root: String::from_str("TEST_DIR"), enable_fs_watcher: false }
    }
}

/// The kind of an I/O error, from `std::io`.
#[verifier::external_type_specification]
#[verifier::external_body]
pub struct ExIoErrorKind(std::io::ErrorKind);

/// Why an asset could not be loaded.
#[derive(Debug, Clone, Copy)]
pub enum AssetLoadError {
    /// The asset system has been shut down and no new asset can be loaded.
    Shutdown,
    /// The asset key does not match the handle type.
    MismatchedAssetType,
    LifecyclerNotRegistered,
    InvalidFormat,
    IOError(std::io::ErrorKind),
    /// A parse error, whose number is specific to each lifecycler.
    ParseError(u16),
}

/// What this storage's worker does after trying to find and open the built file of an
/// asset it was asked to load.
#[derive(Clone, Copy, PartialEq, Eq, Structural, Debug)]
pub enum FileBackedStep {
    /// Hand the opened file to the asset type's lifecycler, and keep serving.
    Load,
    /// Fail the load with the I/O error, and end the worker.
    FailAndStop,
}

/// What this storage's worker does after trying to find and open an asset's built file:
/// a file that could not be found or opened fails the load and ends the worker.
pub fn file_backed_step(opened: bool) -> (r: (crate::asset_worker::WorkerPhase, FileBackedStep))
    ensures
        opened ==> r == (crate::asset_worker::WorkerPhase::Serving, FileBackedStep::Load),
        !opened ==> r == (crate::asset_worker::WorkerPhase::Stopped, FileBackedStep::FailAndStop),
{
    if opened {
        (crate::asset_worker::WorkerPhase::Serving, FileBackedStep::Load)
    } else {
        (crate::asset_worker::WorkerPhase::Stopped, FileBackedStep::FailAndStop)
    }
}

} // verus!
