use engine_3l14::asset_3l14::{AssetKey, AssetKeyDerivedId, AssetKeySourceId, AssetTypeId, DERIVED_KEY_MAX};
use engine_3l14::builder::{
    hash_bstrings, is_source_meta_extension, sorted_unique_keys, source_meta_file_extension, AssetsBuilderConfig, BuildError, BuildOutput, BuildOutputs,
    RegisterBuilderError,
};
use engine_3l14::builders::{ModelBuilder, ShaderBuildConfig, ShaderBuilder, ShaderStage};
use metrohash::MetroHash64;
use std::hash::Hasher;

fn metro64(seed: u64, bytes: &[u8]) -> u64 {
    let mut h = MetroHash64::with_seed(seed);
    h.write(bytes);
    h.finish()
}

#[test]
fn builder_hash_bstrings_hashes_the_concatenation() {
    let parts: [&[u8]; 3] = [b"ab", b"", b"cde"];
    assert_eq!(hash_bstrings(7, &parts), metro64(7, b"abcde"));
    assert_eq!(hash_bstrings(0, &[]), metro64(0, b""));
    assert_ne!(hash_bstrings(1, &parts), hash_bstrings(2, &parts));
}

#[test]
fn builder_config_new_versions_with_initial() {
    let config = AssetsBuilderConfig::new("src_root", "built_root");
    assert_eq!(config.source_files_root, "src_root");
    assert_eq!(config.built_files_root, "built_root");
    assert_eq!(config.builders_version_hash(), metro64(0, b"Initial"));
    assert_eq!(config.builder_for_extension("png"), None);
}

#[test]
fn builder_config_registers_extensions() {
    let mut config = AssetsBuilderConfig::new("s", "b");
    assert_eq!(config.check_extensions(&["png", "jpg"]), Ok(()));
    let texture = config.add_builder("Texture", &[b"v1"], &[b"f1"], &["png", "jpg"]);
    assert_eq!(texture, 0);
    let model = config.add_builder("Model", &[b"v2"], &[b"f2"], &["glb"]);
    assert_eq!(model, 1);
    assert_eq!(config.builder_for_extension("png"), Some(0));
    assert_eq!(config.builder_for_extension("JPG"), Some(0));
    assert_eq!(config.builder_for_extension("Glb"), Some(1));
    assert_eq!(config.builder_for_extension("hlsl"), None);
}

#[test]
fn builder_config_rejects_the_metadata_extension() {
    let mut config = AssetsBuilderConfig::new("s", "b");
    let r = config.check_extensions(&["txt", "SORK"]);
    assert_eq!(r, Err(RegisterBuilderError::ReservedExtension { index: 1 }));
    // checking claims nothing
    assert_eq!(config.builder_for_extension("txt"), None);
}

#[test]
fn builder_config_rejects_claimed_extensions_ignoring_case() {
    let mut config = AssetsBuilderConfig::new("s", "b");
    assert_eq!(config.add_builder("Texture", &[], &[], &["png"]), 0);
    let r = config.check_extensions(&["tga", "PNG"]);
    assert_eq!(r, Err(RegisterBuilderError::ExtensionAlreadyRegistered { index: 1, existing: 0 }));
    // an extension listed twice is claimed by the builder about to be added
    let dup = config.check_extensions(&["dds", "DDS"]);
    assert_eq!(dup, Err(RegisterBuilderError::ExtensionAlreadyRegistered { index: 1, existing: 1 }));
}

#[test]
fn builder_outputs_hand_out_derived_ids_in_order() {
    let source = AssetKeySourceId(0x1234);
    let mut outputs = BuildOutputs::new(source, 11, 22);
    assert_eq!(outputs.hashes(), (11, 22));
    let a = outputs.add_output(AssetTypeId::Texture).unwrap();
    let b = outputs.add_output(AssetTypeId::Texture).unwrap();
    let c = outputs.add_output(AssetTypeId::Model).unwrap();
    assert_eq!(a, AssetKey::unique(AssetTypeId::Texture, AssetKeyDerivedId(0), source));
    assert_eq!(b, AssetKey::unique(AssetTypeId::Texture, AssetKeyDerivedId(1), source));
    assert_eq!(c, AssetKey::unique(AssetTypeId::Model, AssetKeyDerivedId(0), source));
    assert_eq!(outputs.outputs_count(), 3);
    assert_eq!(outputs.results(), &vec![a, b, c]);
}

#[test]
fn builder_outputs_run_out_of_derived_ids() {
    let mut outputs = BuildOutputs::new(AssetKeySourceId(1), 0, 0);
    for i in 0..DERIVED_KEY_MAX {
        let key = outputs.add_output(AssetTypeId::Shader).unwrap();
        assert_eq!(key.derived_id(), AssetKeyDerivedId(i));
    }
    assert_eq!(outputs.add_output(AssetTypeId::Shader), Err(BuildError::TooManyDerivedIDs));
    assert_eq!(outputs.outputs_count(), DERIVED_KEY_MAX as usize);
    // other types still have ids
    assert!(outputs.add_output(AssetTypeId::Texture).is_ok());
}

#[test]
fn builder_output_dependencies_are_sorted_and_unique() {
    let k = |n: u64| AssetKey::unique(AssetTypeId::Texture, AssetKeyDerivedId(0), AssetKeySourceId(n));
    let mut output = BuildOutput::new(k(1));
    assert_eq!(output.asset_key(), k(1));
    output.depends_on(k(9));
    output.depends_on_multiple(&[k(3), k(9), k(5)]);
    output.depends_on(k(3));
    assert_eq!(output.finish_dependencies(), vec![k(3), k(5), k(9)]);
}

#[test]
fn builder_sorted_unique_keys_handles_empty_and_repeats() {
    assert!(sorted_unique_keys(&vec![]).is_empty());
    let keys = vec![AssetKey(5), AssetKey(1), AssetKey(5), AssetKey(0)];
    assert_eq!(sorted_unique_keys(&keys), vec![AssetKey(0), AssetKey(1), AssetKey(5)]);
}

#[test]
fn builder_shader_compile_options() {
    let plain = ShaderBuildConfig::default().compile_options();
    assert_eq!(plain.entry_point, "vs_main");
    assert_eq!(plain.profile, "vs_6_0");
    assert_eq!(plain.args, vec!["-spirv"]);
    assert!(plain.defines.is_empty());

    let config = ShaderBuildConfig { stage: ShaderStage::Pixel, debug: true, emit_symbols: true };
    let opts = config.compile_options();
    assert_eq!(opts.entry_point, "ps_main");
    assert_eq!(opts.profile, "ps_6_0");
    assert_eq!(opts.args, vec!["-spirv", "-Od", "-Zi", "-Zss"]);
    assert_eq!(opts.defines, vec![("DEBUG", Some("1"))]);

    let compute = ShaderBuildConfig { stage: ShaderStage::Compute, debug: false, emit_symbols: true };
    assert_eq!(compute.compile_options().args, vec!["-spirv", "-Zi", "-Zss"]);
    assert_eq!(ShaderStage::Compute.prefix(), "cs");
    assert_eq!(ShaderStage::Pixel.number(), 1);
}

#[test]
fn builder_shader_builder_keeps_its_root() {
    let builder = ShaderBuilder::new("assets/shaders");
    assert_eq!(builder.shaders_root(), "assets/shaders");
}

#[test]
fn builder_model_builder_shaders_root() {
    for root in ["assets", "assets/", "", "/abs/dir"] {
        let expected = std::path::Path::new(root).join("shaders");
        assert_eq!(ModelBuilder::new(root).shaders_root(), expected.to_str().unwrap());
    }
}

#[test]
fn builder_source_meta_extension() {
    assert!(is_source_meta_extension("sork"));
    assert!(is_source_meta_extension("SoRk"));
    assert!(!is_source_meta_extension("sorkk"));
    assert!(!is_source_meta_extension(""));
}

#[test]
fn builder_source_meta_file_extension_appends_the_reserved_one() {
    assert_eq!(source_meta_file_extension("png"), "png.sork");
    assert_eq!(source_meta_file_extension(""), ".sork");
    assert!(is_source_meta_extension(source_meta_file_extension("hlsl").rsplit('.').next().unwrap()));
}
