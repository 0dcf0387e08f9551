//! The individual asset builders: what they read, how they are versioned, and how the
//! shader builder configures its compiler.
use vstd::prelude::*;
use crate::text::{push_str, string_push};

verus! {

/// What an asset builder declares about itself.
pub trait AssetBuilderMeta {
    /// The file extensions (without the dot) that this builder reads.
    fn supported_input_file_extensions() -> Vec<&'static str>;

    /// One byte string per version of the builder, hashed to version the builder.
    fn builder_version() -> Vec<&'static [u8]>;

    /// One byte string per version of the output format, hashed to version the format.
    fn format_version() -> Vec<&'static [u8]>;
}

/// The characters of each string of a list.
pub open spec fn str_views(v: Seq<&str>) -> Seq<Seq<char>> {
    v.map_values(|s: &str| s@)
}

/// The bytes of the word "Initial".
pub open spec fn initial_bytes() -> Seq<u8> {
    seq![73u8, 110u8, 105u8, 116u8, 105u8, 97u8, 108u8]
}

/// The bytes of each byte string of a list.
pub open spec fn byte_views(v: Seq<&[u8]>) -> Seq<Seq<u8>> {
    v.map_values(|s: &[u8]| s@)
}

fn initial_version() -> (r: Vec<&'static [u8]>)
    ensures
        byte_views(r@) == seq![initial_bytes()],
{
    let s: &'static str = "Initial";
    proof {
        reveal_strlit("Initial");
        vstd::string::is_ascii_spec_bytes(s);
    }
    let b = s.as_bytes();
    assert(b@ =~= initial_bytes());
    let mut v: Vec<&'static [u8]> = Vec::new();
    v.push(b);
    assert(byte_views(v@) =~= seq![initial_bytes()]);
    v
}

/// The build options of a material (there are none yet).
pub struct MaterialBuildConfig {}

/// Builds materials from `.matl` files.
pub struct MaterialBuilder;

impl AssetBuilderMeta for MaterialBuilder {
    fn supported_input_file_extensions() -> (r: Vec<&'static str>)
        ensures
            str_views(r@) == seq![seq!['m', 'a', 't', 'l']],
    {
        proof { reveal_strlit("matl"); }
        let mut v: Vec<&'static str> = Vec::new();
        let e: &'static str = "matl";
        assert(e@ =~= seq!['m', 'a', 't', 'l']);
        v.push(e);
        assert(str_views(v@) =~= seq![seq!['m', 'a', 't', 'l']]);
        v
    }

    fn builder_version() -> (r: Vec<&'static [u8]>)
        ensures
            byte_views(r@) == seq![initial_bytes()],
    {
        initial_version()
    }

    fn format_version() -> (r: Vec<&'static [u8]>)
        ensures
            byte_views(r@) == seq![initial_bytes()],
    {
        initial_version()
    }
}

/// Builds textures from `.dds` and `.png` files.
pub struct TextureBuilder;

impl AssetBuilderMeta for TextureBuilder {
    fn supported_input_file_extensions() -> (r: Vec<&'static str>)
        ensures
            str_views(r@) == seq![seq!['d', 'd', 's'], seq!['p', 'n', 'g']],
    {
        proof {
            reveal_strlit("dds");
            reveal_strlit("png");
        }
        let mut v: Vec<&'static str> = Vec::new();
        let e1: &'static str = "dds";
        let e2: &'static str = "png";
        assert(e1@ =~= seq!['d', 'd', 's']);
        assert(e2@ =~= seq!['p', 'n', 'g']);
        v.push(e1);
        v.push(e2);
        assert(str_views(v@) =~= seq![seq!['d', 'd', 's'], seq!['p', 'n', 'g']]);
        v
    }

    fn builder_version() -> (r: Vec<&'static [u8]>)
        ensures
            byte_views(r@) == seq![initial_bytes()],
    {
        initial_version()
    }

    fn format_version() -> (r: Vec<&'static [u8]>)
        ensures
            byte_views(r@) == seq![initial_bytes()],
    {
        initial_version()
    }
}

/// What went wrong importing a model.
#[derive(Debug, Clone, Copy, PartialEq, Eq, Structural)]
pub enum ModelImportError {
    NoPositionData,
    NoNormalData,
    NoIndexData,
    MismatchedVertexCount,
}

/// The build options of a model (there are none yet).
pub struct ModelBuildConfig {}

/// Builds models from glTF files. Its shaders are compiled from the shaders directory of
/// the assets root.
pub struct ModelBuilder {
    shaders_root: String,
}

/// `base` joined with the relative path `name`, as `Path::join` joins them: `name` alone
/// when `base` is empty, else with one `/` between them.
pub open spec fn joined_path(base: Seq<char>, name: Seq<char>) -> Seq<char> {
    if base.len() == 0 {
        name
    } else if base.last() == '/' {
        base + name
    } else {
        base + seq!['/'] + name
    }
}

impl ModelBuilder {
    /// The directory that the model's shaders are compiled from.
    pub closed spec fn spec_shaders_root(&self) -> Seq<char> {
        self.shaders_root@
    }

    /// A model builder whose shaders are under `<assets_root>/shaders`.
    pub fn new(assets_root: &str) -> (r: Self)
        ensures
            r.spec_shaders_root() == joined_path(assets_root@, seq!['s', 'h', 'a', 'd', 'e', 'r', 's']),
    {
        let mut root = String::from_str(assets_root);
        let n = assets_root.unicode_len();
        if n > 0 && assets_root.get_char(n - 1) != '/' {
            string_push(&mut root, '/');
        }
        proof {
            reveal_strlit("shaders");
        }
        push_str(&mut root, "shaders");
        ModelBuilder { shaders_root: root }
    }

    /// The directory that the model's shaders are compiled from.
    pub fn shaders_root(&self) -> (r: &str)
        ensures
            r@ == self.spec_shaders_root(),
    {
        self.shaders_root.as_str()
    }
}

impl AssetBuilderMeta for ModelBuilder {
    fn supported_input_file_extensions() -> (r: Vec<&'static str>)
        ensures
            str_views(r@) == seq![seq!['g', 'l', 'b'], seq!['g', 'l', 't', 'f']],
    {
        proof {
            reveal_strlit("glb");
            reveal_strlit("gltf");
        }
        let mut v: Vec<&'static str> = Vec::new();
        let e1: &'static str = "glb";
        let e2: &'static str = "gltf";
        assert(e1@ =~= seq!['g', 'l', 'b']);
        assert(e2@ =~= seq!['g', 'l', 't', 'f']);
        v.push(e1);
        v.push(e2);
        assert(str_views(v@) =~= seq![seq!['g', 'l', 'b'], seq!['g', 'l', 't', 'f']]);
        v
    }

    fn builder_version() -> (r: Vec<&'static [u8]>)
        ensures
            byte_views(r@) == seq![initial_bytes()],
    {
        initial_version()
    }

    fn format_version() -> (r: Vec<&'static [u8]>)
        ensures
            byte_views(r@) == seq![initial_bytes()],
    {
        initial_version()
    }
}

/// Builds scenes.
pub struct SceneBuilder {}

/// The pipeline stage a shader is compiled for.
#[derive(Debug, Clone, Copy, PartialEq, Eq, Structural)]
pub enum ShaderStage {
    Vertex,
    /// Fragment shader.
    Pixel,
    Compute,
}

impl Default for ShaderStage {
    fn default() -> (r: Self)
        ensures
            r == ShaderStage::Vertex,
    {
        ShaderStage::Vertex
    }
}

impl ShaderStage {
    /// The number of this stage.
    pub fn number(self) -> (r: u8)
        ensures
            self == ShaderStage::Vertex ==> r == 0,
            self == ShaderStage::Pixel ==> r == 1,
            self == ShaderStage::Compute ==> r == 2,
    {
        match self {
            ShaderStage::Vertex => 0,
            ShaderStage::Pixel => 1,
            ShaderStage::Compute => 2,
        }
    }

    /// The profile prefix of this stage.
    pub open spec fn spec_prefix(self) -> Seq<char> {
        match self {
            ShaderStage::Vertex => seq!['v', 's'],
            ShaderStage::Pixel => seq!['p', 's'],
            ShaderStage::Compute => seq!['c', 's'],
        }
    }

    /// The profile prefix of this stage: `vs`, `ps` or `cs`.
    pub fn prefix(self) -> (r: &'static str)
        ensures
            r@ == self.spec_prefix(),
    {
        match self {
            ShaderStage::Vertex => {
                proof { reveal_strlit("vs"); }
                "vs"
            },
            ShaderStage::Pixel => {
                proof { reveal_strlit("ps"); }
                "ps"
            },
            ShaderStage::Compute => {
                proof { reveal_strlit("cs"); }
                "cs"
            },
        }
    }
}

/// The build options of a shader.
pub struct ShaderBuildConfig {
    pub stage: ShaderStage,
    pub debug: bool,
    pub emit_symbols: bool,
}

impl Default for ShaderBuildConfig {
    fn default() -> (r: Self)
        ensures
            r.stage == ShaderStage::Vertex,
            !r.debug,
            !r.emit_symbols,
    {
        ShaderBuildConfig { stage: ShaderStage::Vertex, debug: false, emit_symbols: false }
    }
}

/// How the shader compiler is invoked.
pub struct ShaderCompileOptions {
    pub entry_point: String,
    pub profile: String,
    pub args: Vec<&'static str>,
    pub defines: Vec<(&'static str, Option<&'static str>)>,
}

/// The compiler arguments for a configuration: always emit SPIR-V; `-Od` when debugging;
/// `-Zi -Zss` when emitting symbols.
pub open spec fn shader_args(debug: bool, emit_symbols: bool) -> Seq<Seq<char>> {
    let base = seq![seq!['-', 's', 'p', 'i', 'r', 'v']];
    let with_debug = if debug { base.push(seq!['-', 'O', 'd']) } else { base };
    if emit_symbols {
        with_debug.push(seq!['-', 'Z', 'i']).push(seq!['-', 'Z', 's', 's'])
    } else {
        with_debug
    }
}

impl ShaderBuildConfig {
    /// The compiler invocation for this configuration: entry point `<stage>_main`, profile
    /// `<stage>_6_0`, the arguments of `shader_args`, and `DEBUG=1` defined when debugging.
    pub fn compile_options(&self) -> (r: ShaderCompileOptions)
        ensures
            r.entry_point@ == self.stage.spec_prefix() + seq!['_', 'm', 'a', 'i', 'n'],
            r.profile@ == self.stage.spec_prefix() + seq!['_', '6', '_', '0'],
            str_views(r.args@) == shader_args(self.debug, self.emit_symbols),
            self.debug ==> r.defines@.len() == 1 && r.defines@[0].0@ == seq!['D', 'E', 'B', 'U', 'G']
                && r.defines@[0].1 is Some && r.defines@[0].1->0@ == seq!['1'],
            !self.debug ==> r.defines@.len() == 0,
    {
        let prefix = self.stage.prefix();
        let mut entry_point = String::new();
        push_str(&mut entry_point, prefix);
        proof { reveal_strlit("_main"); }
        push_str(&mut entry_point, "_main");
        let mut profile = String::new();
        push_str(&mut profile, prefix);
        proof { reveal_strlit("_6_0"); }
        push_str(&mut profile, "_6_0");

        let mut defines: Vec<(&'static str, Option<&'static str>)> = Vec::new();
        let mut args: Vec<&'static str> = Vec::new();
        proof {
            reveal_strlit("-spirv");
            reveal_strlit("-Od");
            reveal_strlit("-Zi");
            reveal_strlit("-Zss");
            reveal_strlit("DEBUG");
            reveal_strlit("1");
        }
        let spirv: &'static str = "-spirv";
        let od: &'static str = "-Od";
        let zi: &'static str = "-Zi";
        let zss: &'static str = "-Zss";
        let debug_name: &'static str = "DEBUG";
        let one: &'static str = "1";
        assert(spirv@ =~= seq!['-', 's', 'p', 'i', 'r', 'v']);
        assert(od@ =~= seq!['-', 'O', 'd']);
        assert(zi@ =~= seq!['-', 'Z', 'i']);
        assert(zss@ =~= seq!['-', 'Z', 's', 's']);
        assert(debug_name@ =~= seq!['D', 'E', 'B', 'U', 'G']);
        assert(one@ =~= seq!['1']);
        args.push(spirv);
        if self.debug {
            defines.push((debug_name, Some(one)));
            args.push(od);
        }
        if self.emit_symbols {
            args.push(zi);
            args.push(zss);
        }
        proof {
            let base = seq![seq!['-', 's', 'p', 'i', 'r', 'v']];
            if self.debug {
                if self.emit_symbols {
                    assert(str_views(args@) =~= base.push(seq!['-', 'O', 'd']).push(seq!['-', 'Z', 'i']).push(seq!['-', 'Z', 's', 's']));
                } else {
                    assert(str_views(args@) =~= base.push(seq!['-', 'O', 'd']));
                }
            } else {
                if self.emit_symbols {
                    assert(str_views(args@) =~= base.push(seq!['-', 'Z', 'i']).push(seq!['-', 'Z', 's', 's']));
                } else {
                    assert(str_views(args@) =~= base);
                }
            }
        }
        ShaderCompileOptions { entry_point, profile, args, defines }
    }
}

/// Builds shaders from `.hlsl` files, resolving includes under its shaders root.
pub struct ShaderBuilder {
    shaders_root: String,
}

impl ShaderBuilder {
    /// The directory that shader includes are resolved against.
    pub closed spec fn spec_shaders_root(&self) -> Seq<char> {
        self.shaders_root@
    }

    /// A shader builder whose includes are resolved under `assets_root`.
    pub fn new(assets_root: &str) -> (r: Self)
        ensures
            r.spec_shaders_root() == assets_root@,
    {
        ShaderBuilder { shaders_root: String::from_str(assets_root) }
    }

    /// The directory that shader includes are resolved against.
    pub fn shaders_root(&self) -> (r: &str)
        ensures
            r@ == self.spec_shaders_root(),
    {
        self.shaders_root.as_str()
    }
}

impl AssetBuilderMeta for ShaderBuilder {
    fn supported_input_file_extensions() -> (r: Vec<&'static str>)
        ensures
            str_views(r@) == seq![seq!['h', 'l', 's', 'l']],
    {
        proof { reveal_strlit("hlsl"); }
        let mut v: Vec<&'static str> = Vec::new();
        let e: &'static str = "hlsl";
        assert(e@ =~= seq!['h', 'l', 's', 'l']);
        v.push(e);
        assert(str_views(v@) =~= seq![seq!['h', 'l', 's', 'l']]);
        v
    }

    fn builder_version() -> (r: Vec<&'static [u8]>)
        ensures
            byte_views(r@) == seq![initial_bytes()],
    {
        initial_version()
    }

    fn format_version() -> (r: Vec<&'static [u8]>)
        ensures
            byte_views(r@) == seq![initial_bytes()],
    {
        initial_version()
    }
}

/// How hard the texture compressor works.
#[derive(Debug, Clone, Copy, PartialEq, Eq, Structural)]
pub enum CompressionQuality {
    Low,
    Standard,
    HighDetail,
    Lossless,
}

/// What a texture is used for.
#[derive(Debug, Clone, Copy, PartialEq, Eq, Structural)]
pub enum TextureType {
    Background,
    Model,
    NormalMap,
    Detail,
    UI,
    Text,
}

/// One channel of a texture.
#[derive(Debug, Clone, Copy, PartialEq, Eq, Structural)]
pub enum ChannelMapping {
    Red,
    Green,
    Blue,
    Alpha,
}

impl ChannelMapping {
    /// The bit of this channel.
    pub open spec fn spec_bits(self) -> u8 {
        match self {
            ChannelMapping::Red => 0b0001,
            ChannelMapping::Green => 0b0010,
            ChannelMapping::Blue => 0b0100,
            ChannelMapping::Alpha => 0b1000,
        }
    }

    /// The bit of this channel.
    pub fn bits(self) -> (r: u8)
        ensures
            r == self.spec_bits(),
    {
        match self {
            ChannelMapping::Red => 0b0001,
            ChannelMapping::Green => 0b0010,
            ChannelMapping::Blue => 0b0100,
            ChannelMapping::Alpha => 0b1000,
        }
    }

    /// Whether this mapping includes the channel `flag`.
    pub fn has_flag(self, flag: ChannelMapping) -> (r: bool)
        ensures
            r == (self == flag),
    {
        let a = self.bits();
        let b = flag.bits();
        let r = (a & b) != 0;
        proof {
            assert((1u8 & 2u8) == 0u8 && (1u8 & 4u8) == 0u8 && (1u8 & 8u8) == 0u8 && (2u8 & 1u8) == 0u8 && (2u8 & 4u8) == 0u8
                && (2u8 & 8u8) == 0u8 && (4u8 & 1u8) == 0u8 && (4u8 & 2u8) == 0u8 && (4u8 & 8u8) == 0u8 && (8u8 & 1u8) == 0u8
                && (8u8 & 2u8) == 0u8 && (8u8 & 4u8) == 0u8 && (1u8 & 1u8) == 1u8 && (2u8 & 2u8) == 2u8 && (4u8 & 4u8) == 4u8
                && (8u8 & 8u8) == 8u8) by (bit_vector);
        }
        r
    }
}

/// Compresses textures into block-compressed formats.
pub struct TextureCompressor;

} // verus!
