use base64::Engine;
use engine_3l14::asset_3l14::{AssetKey, AssetKeySourceId, AssetKeySynthHash, VersionHash};
use engine_3l14::asset as asset128;
use engine_3l14::codec::{hex_width_of_bits, parse_hex_u128, parse_hex_u64};

#[test]
fn codec_asset_key_lower_hex() {
    let k = AssetKey(0x0010033000111111);
    assert_eq!(k.lower_hex(false), "0010033000111111");
    assert_eq!(k.lower_hex(true), "0x0010033000111111");
    assert_eq!(AssetKey(0).lower_hex(false), "0000000000000000");
    assert_eq!(AssetKey(u64::MAX).lower_hex(false), "ffffffffffffffff");
}

#[test]
fn codec_asset_key_hex_roundtrip() {
    for v in [0u64, 1, 0x0010033000111111, u64::MAX, 0xdead_beef] {
        let k = AssetKey(v);
        assert_eq!(AssetKey::from_hex(&k.lower_hex(false)), Some(k));
    }
}

#[test]
fn codec_parse_hex_matches_from_str_radix() {
    for s in ["ff", "FF", "+1a", "0", "00000000000000001", "ffffffffffffffff", "10000000000000000", "", "+", "-1", "g", "1 ", "aBc"] {
        assert_eq!(parse_hex_u64(s), u64::from_str_radix(s, 16).ok(), "{s:?}");
    }
}

#[test]
fn codec_ids_hex() {
    assert_eq!(hex_width_of_bits(36), 9);
    assert_eq!(hex_width_of_bits(51), 13);
    assert_eq!(AssetKeySourceId(0x1).to_hex(), "000000001");
    assert_eq!(AssetKeySourceId::from_hex("000000001"), Some(AssetKeySourceId(1)));
    assert_eq!(AssetKeySynthHash(0x123).to_hex(), "0000000000123");
    assert_eq!(AssetKeySynthHash::from_hex("0000000000123"), Some(AssetKeySynthHash(0x123)));
    assert_eq!(AssetKeySynthHash::from_hex("xyz"), None);
}

#[test]
fn codec_version_hash_text() {
    let h = VersionHash(0x0123_4567_89ab_cdef);
    let expected = base64::engine::general_purpose::URL_SAFE_NO_PAD.encode(h.0.to_le_bytes());
    assert_eq!(h.to_text(), expected);
    assert_eq!(VersionHash::from_text(&h.to_text()), Some(h));
    assert_eq!(VersionHash::from_text(&VersionHash(0).to_text()), Some(VersionHash(0)));
    assert_eq!(VersionHash::from_text(&VersionHash(u64::MAX).to_text()), Some(VersionHash(u64::MAX)));
    assert_eq!(VersionHash::from_text("***"), None);
    // fewer bytes read as a smaller number
    let short = base64::engine::general_purpose::URL_SAFE_NO_PAD.encode([7u8, 1]);
    assert_eq!(VersionHash::from_text(&short), Some(VersionHash(0x107)));
}

#[test]
fn codec_parse_hex_u128_matches_from_str_radix() {
    for s in ["ff", "+FF", "0", "ffffffffffffffffffffffffffffffff", "100000000000000000000000000000000", "", "+", "x1", "0x1"] {
        assert_eq!(parse_hex_u128(s), u128::from_str_radix(s, 16).ok(), "{s:?}");
    }
}

#[test]
fn codec_asset128_text_forms() {
    let k = asset128::AssetKey(0x0123_4567_89ab_cdef_0011_2233_4455_6677);
    assert_eq!(k.to_hex(), format!("{:032x}", k.0));
    assert_eq!(asset128::AssetKey::from_hex(&k.to_hex()), Some(k));
    let id = asset128::AssetKeySourceId(0xabc);
    assert_eq!(id.to_hex(), format!("{:026x}", 0xabcu128));
    assert_eq!(asset128::AssetKeySourceId::from_hex(&id.to_hex()), Some(id));
    let h = asset128::AssetKeySynthHash(0x1234);
    assert_eq!(h.to_hex(), format!("{:030x}", 0x1234u128));
    assert_eq!(asset128::AssetKeySynthHash::from_hex(&h.to_hex()), Some(h));
    assert_eq!(asset128::AssetKey::from_hex("zz"), None);
}

#[test]
fn version_hash_text_spells_each_six_bits() {
    assert_eq!(VersionHash(0).to_text(), "AAAAAAAAAAA");
    assert_eq!(VersionHash(1).to_text(), "AQAAAAAAAAA");
    assert_eq!(VersionHash(u64::MAX).to_text(), "__________8");
}
