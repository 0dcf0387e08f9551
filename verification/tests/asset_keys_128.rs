use engine_3l14::asset::{self, AssetKeyDerivedId, AssetKeySourceId, AssetKeySynthHash, AssetTypeId};
use engine_3l14::assets;

#[test]
fn asset_construct_unique() {
    let asset_type = AssetTypeId::Test1;
    let is_synthetic = false;
    let derived_id = AssetKeyDerivedId(0x33u16);
    let source_id = AssetKeySourceId(0x111111u128);
    let synth_hash = AssetKeySynthHash(0);

    let k = asset::AssetKey::unique(asset_type, derived_id, source_id);
    assert_eq!(k.asset_type(), asset_type, "Asset type");
    assert_eq!(k.is_synthetic(), is_synthetic, "Is synthetic");
    assert_eq!(k.derived_id(), derived_id, "Derived ID");
    assert_eq!(k.source_id(), source_id, "Source ID");
    assert_eq!(k.synth_hash(), synth_hash, "Synth Hash");

    let bits: u128 = k.into();
    assert_eq!(0x00100330000000000000000000111111u128, bits);
}

#[test]
fn asset_construct_synthetic() {
    let asset_type = AssetTypeId::Test1;
    let is_synthetic = true;
    let derived_id = AssetKeyDerivedId(0);
    let source_id = AssetKeySourceId(0);
    let synth_hash = AssetKeySynthHash::test(0x123);

    let k = asset::AssetKey::synthetic(asset_type, synth_hash);
    assert_eq!(k.asset_type(), asset_type, "Asset type");
    assert_eq!(k.is_synthetic(), is_synthetic, "Is synthetic");
    assert_eq!(k.derived_id(), derived_id, "Derived ID");
    assert_eq!(k.source_id(), source_id, "Source ID");
    assert_eq!(k.synth_hash(), synth_hash, "Synth Hash");

    let bits: u128 = k.into();
    assert_eq!(0x00180000000000000000000000000123u128, bits);
}

#[test]
fn asset_source_id_generate_only_fills_bottom_bytes() {
    let bid = AssetKeySourceId::generate();
    assert_eq!(0u128, bid.0 >> asset::SOURCE_KEY_BITS);
}

#[test]
fn asset_key128_same_asset_keys_match() {
    let k1 = asset::AssetKey::unique(AssetTypeId::Test1, AssetKeyDerivedId(0), AssetKeySourceId(0x111111111111111111111111));
    let k2 = asset::AssetKey::unique(AssetTypeId::Test1, AssetKeyDerivedId(0), AssetKeySourceId(0x111111111111111111111111));

    assert_eq!(k1, k2);
}

#[test]
fn asset_key128_mismatched_asset_type() {
    let k1 = asset::AssetKey::unique(AssetTypeId::Test1, AssetKeyDerivedId(0), AssetKeySourceId(0x111111111111111111111111));
    let k2 = asset::AssetKey::unique(AssetTypeId::Test2, AssetKeyDerivedId(0), AssetKeySourceId(0x111111111111111111111111));

    assert_ne!(k1, k2);
}

#[test]
fn asset_key128_mismatched_derived_id() {
    let k1 = asset::AssetKey::unique(AssetTypeId::Test1, AssetKeyDerivedId(0), AssetKeySourceId(0x111111111111111111111111));
    let k2 = asset::AssetKey::unique(AssetTypeId::Test1, AssetKeyDerivedId(1), AssetKeySourceId(0x111111111111111111111111));

    assert_ne!(k1, k2);
}

#[test]
fn asset_mismatched_source_id() {
    let k1 = asset::AssetKey::unique(AssetTypeId::Test1, AssetKeyDerivedId(0), AssetKeySourceId(0x111111111111111111111111));
    let k2 = asset::AssetKey::unique(AssetTypeId::Test1, AssetKeyDerivedId(0), AssetKeySourceId(0x222222222222222222222222));

    assert_ne!(k1, k2);
}

#[test]
fn asset_key128_file_names() {
    let k = asset::AssetKey::unique(AssetTypeId::Model, AssetKeyDerivedId(1), AssetKeySourceId(0xfeed));
    assert_eq!(k.as_file_name(), "0070001000000000000000000000feed.ass");
    assert_eq!(k.as_meta_file_name(), "0070001000000000000000000000feed.mass");
}

#[test]
fn asset_key128_synth_hash_from_halves() {
    let h = AssetKeySynthHash::from_hash_halves(0x1, u64::MAX);
    assert_eq!(h.0, 0x0007_ffff_ffff_ffff_0000_0000_0000_0001);
    let a = AssetKeySynthHash::generate(42u32);
    assert_eq!(a, AssetKeySynthHash::generate(42u32));
}

#[test]
fn construct_destruct() {
    let asset_type = AssetTypeId::Test1;
    let is_temporary = true;
    let derived_id = 0x33u16;
    let base_id = 0x111111u128;

    let k = assets::AssetKey::new(asset_type, is_temporary, derived_id, base_id);
    assert_eq!(k.asset_type(), asset_type, "Asset type");
    assert_eq!(k.is_temporary(), is_temporary, "Is temporary");
    assert_eq!(k.derived_id(), derived_id, "Derived ID");
    assert_eq!(k.base_id(), base_id, "Base ID");

    let bits: u128 = k.into();
    assert_eq!(0x00180330000000000000000000111111u128, bits);
}

#[test]
fn generate_base_id_only_fills_bottom_bytes() {
    let bid = assets::AssetKey::generate_base_id();
    assert_eq!(0u128, bid >> assets::BASE_KEY_BITS);
}

#[test]
fn asset_same_asset_keys_match() {
    let k1 = assets::AssetKey::new(AssetTypeId::Test1, false, 0, 0x111111111111111111111111);
    let k2 = assets::AssetKey::new(AssetTypeId::Test1, false, 0, 0x111111111111111111111111);

    assert_eq!(k1, k2);
}

#[test]
fn asset_mismatched_asset_type() {
    let k1 = assets::AssetKey::new(AssetTypeId::Test1, false, 0, 0x111111111111111111111111);
    let k2 = assets::AssetKey::new(AssetTypeId::Test2, false, 0, 0x111111111111111111111111);

    assert_ne!(k1, k2);
}

#[test]
fn asset_mismatched_derived_id() {
    let k1 = assets::AssetKey::new(AssetTypeId::Test1, false, 0, 0x111111111111111111111111);
    let k2 = assets::AssetKey::new(AssetTypeId::Test1, false, 1, 0x111111111111111111111111);

    assert_ne!(k1, k2);
}

#[test]
fn mismatched_base_id() {
    let k1 = assets::AssetKey::new(AssetTypeId::Test1, false, 0, 0x111111111111111111111111);
    let k2 = assets::AssetKey::new(AssetTypeId::Test1, false, 0, 0x222222222222222222222222);

    assert_ne!(k1, k2);
}

#[test]
fn assets_key_temporary_flag_and_names() {
    let k = assets::AssetKey::new(AssetTypeId::Scene, false, 0x7ffe, 0xf_ffff_ffff_ffff_ffff_ffff_fffe);
    assert!(!k.is_temporary());
    assert_eq!(k.asset_type(), AssetTypeId::Scene);
    assert_eq!(k.derived_id(), 0x7ffe);
    assert_eq!(k.base_id(), 0xf_ffff_ffff_ffff_ffff_ffff_fffe);
    assert_eq!(k.as_file_name(), "0087ffeffffffffffffffffffffffffe.ass");
}
