use engine_3l14::asset_3l14::{
    AssetFileType, AssetKey, AssetKeyDerivedId, AssetKeySourceId, AssetKeySynthHash, AssetTypeId, AssetsConfig,
    SOURCE_ID_BITS, DERIVED_KEY_MAX,
};

#[test]
fn asset_key_construct_unique() {
    let asset_type = AssetTypeId::Test1;
    let is_synthetic = false;
    let derived_id = AssetKeyDerivedId(0x33u16);
    let source_id = AssetKeySourceId(0x111111u64);
    let synth_hash = AssetKeySynthHash(0);

    let k = AssetKey::unique(asset_type, derived_id, source_id);
    assert_eq!(k.asset_type(), asset_type, "Asset type");
    assert_eq!(k.is_synthetic(), is_synthetic, "Is synthetic");
    assert_eq!(k.derived_id(), derived_id, "Derived ID");
    assert_eq!(k.source_id(), source_id, "Source ID");
    assert_eq!(k.synth_hash(), synth_hash, "Synth Hash");

    assert_eq!(0x0010033000111111u64, <u64>::from(k));
}

#[test]
fn asset_key_construct_synthetic() {
    let asset_type = AssetTypeId::Test1;
    let is_synthetic = true;
    let derived_id = AssetKeyDerivedId(0);
    let source_id = AssetKeySourceId(0);
    let synth_hash = AssetKeySynthHash::test(0x123);

    let k = AssetKey::synthetic(asset_type, synth_hash);
    assert_eq!(k.asset_type(), asset_type, "Asset type");
    assert_eq!(k.is_synthetic(), is_synthetic, "Is synthetic");
    assert_eq!(k.derived_id(), derived_id, "Derived ID");
    assert_eq!(k.source_id(), source_id, "Source ID");
    assert_eq!(k.synth_hash(), synth_hash, "Synth Hash");

    assert_eq!(0x0018_0000_0000_0123, <u64>::from(k));
}

#[test]
fn asset_key_source_id_generate_only_fills_bottom_bytes() {
    let bid = AssetKeySourceId::generate();
    assert_eq!(0u64, bid.0 >> SOURCE_ID_BITS);
}

#[test]
fn asset_key_same_asset_keys_match() {
    let k1 = AssetKey::unique(AssetTypeId::Test1, AssetKeyDerivedId(0), AssetKeySourceId(0x1_1111_1111));
    let k2 = AssetKey::unique(AssetTypeId::Test1, AssetKeyDerivedId(0), AssetKeySourceId(0x1_1111_1111));

    assert_eq!(k1, k2);
}

#[test]
fn asset_key_mismatched_asset_type() {
    let k1 = AssetKey::unique(AssetTypeId::Test1, AssetKeyDerivedId(0), AssetKeySourceId(0x1_1111_1111));
    let k2 = AssetKey::unique(AssetTypeId::Test2, AssetKeyDerivedId(0), AssetKeySourceId(0x1_1111_1111));

    assert_ne!(k1, k2);
}

#[test]
fn asset_key_mismatched_derived_id() {
    let k1 = AssetKey::unique(AssetTypeId::Test1, AssetKeyDerivedId(0), AssetKeySourceId(0x1_1111_1111));
    let k2 = AssetKey::unique(AssetTypeId::Test1, AssetKeyDerivedId(1), AssetKeySourceId(0x1_1111_1111));

    assert_ne!(k1, k2);
}

#[test]
fn asset_key_mismatched_source_id() {
    let k1 = AssetKey::unique(AssetTypeId::Test1, AssetKeyDerivedId(0), AssetKeySourceId(0x1_1111_1111));
    let k2 = AssetKey::unique(AssetTypeId::Test1, AssetKeyDerivedId(0), AssetKeySourceId(0x2_2222_2222));

    assert_ne!(k1, k2);
}

#[test]
fn asset_key_file_names() {
    let k = AssetKey::unique(AssetTypeId::Texture, AssetKeyDerivedId(2), AssetKeySourceId(0xabc));
    assert_eq!(k.as_file_name(AssetFileType::Asset), "0060002000000abc.ass");
    assert_eq!(k.as_file_name(AssetFileType::MetaData), "0060002000000abc.mass");
    assert_eq!(k.as_file_name(AssetFileType::DebugData), "0060002000000abc.dass");
    assert_eq!(AssetFileType::MetaData.file_extension(), "mass");
}

#[test]
fn asset_key_unknown_type_reads_invalid() {
    let k = AssetKey::from(0xfff0_0000_0000_0000u64);
    assert_eq!(k.asset_type(), AssetTypeId::Invalid);
    let k = AssetKey::from(0x00f0_0000_0000_0000u64);
    assert_eq!(k.asset_type(), AssetTypeId::SceneChunk);
}

#[test]
fn asset_key_derived_id_counts_up_until_exhausted() {
    let mut d = AssetKeyDerivedId::test();
    assert_eq!(d.next(), Some(AssetKeyDerivedId(0)));
    assert_eq!(d.next(), Some(AssetKeyDerivedId(1)));
    assert_eq!(d, AssetKeyDerivedId(2));
    let mut last = AssetKeyDerivedId(DERIVED_KEY_MAX - 1);
    assert_eq!(last.next(), Some(AssetKeyDerivedId(DERIVED_KEY_MAX - 1)));
    assert_eq!(last, AssetKeyDerivedId(DERIVED_KEY_MAX));
    assert_eq!(last.next(), None);
    assert_eq!(last, AssetKeyDerivedId(DERIVED_KEY_MAX));
    let mut high = AssetKeyDerivedId(u16::MAX);
    assert_eq!(high.next(), None);
    assert_eq!(high, AssetKeyDerivedId(u16::MAX));
}

#[test]
fn asset_key_source_id_from_bytes() {
    let s = AssetKeySourceId::from_le_bytes_prefix(&[0x01, 0x02, 0x03, 0x04]);
    assert_eq!(s.0, 0x0403_0201);
    assert_eq!(AssetKeySourceId::test(9).0, 9);
}

#[test]
fn asset_key_synth_hash_is_masked() {
    assert_eq!(AssetKeySynthHash::from_hash(u64::MAX).0, 0x7_ffff_ffff_ffff);
    let a = AssetKeySynthHash::generate("some contents");
    let b = AssetKeySynthHash::generate("some contents");
    let c = AssetKeySynthHash::generate("other contents");
    assert_eq!(a, b);
    assert_ne!(a, c);
    assert!(a.0 <= 0x7_ffff_ffff_ffff);
}

#[test]
fn asset_key_type_numbers_roundtrip() {
    for t in [AssetTypeId::Invalid, AssetTypeId::Geometry, AssetTypeId::Shader, AssetTypeId::SceneChunk] {
        assert_eq!(AssetTypeId::from_number(t.number()), Some(t));
    }
    assert_eq!(AssetTypeId::from_number(16), None);
}

#[test]
fn assets_config_for_tests() {
    let c = AssetsConfig::test();
    assert_eq!(c.assets_root, "TEST_DIR");
    assert!(!c.enable_fs_watcher);
}
