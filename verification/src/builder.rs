//! The asset builder's bookkeeping: version hashes, the registry that maps source file
//! extensions to builders, the keys handed to a source's outputs, and each output's
//! dependency list.
use vstd::prelude::*;
use std::collections::HashMap;
use std::hash::Hasher;
use crate::text::{push_str, string_push};
use crate::asset_3l14::{
    AssetKey, AssetKeyDerivedId, AssetKeySourceId, AssetTypeId, DERIVED_KEY_MAX, SOURCE_KEY_MAX,
    ASSET_TYPE_MAX, unique_repr, synth_flag, lemma_unique_key_injective, lemma_unique_bits,
    lemma_asset_type_number_roundtrip,
};

verus! {

/// The MetroHash64 hash, with seed `seed`, of the bytes `bytes`.
pub uninterp spec fn metrohash64_seeded(seed: u64, bytes: Seq<u8>) -> u64;

/// Hashes `bytes` with a `metrohash::MetroHash64` made by `with_seed(seed)`: one `write` of
/// the bytes, then `finish`. The result is named `metrohash64_seeded(seed, bytes)`.
#[verifier::external_body]
fn metrohash64_with_seed(seed: u64, bytes: &[u8]) -> (r: u64)
    ensures
        r == metrohash64_seeded(seed, bytes@),
{
    let mut hasher = metrohash::MetroHash64::with_seed(seed);
    hasher.write(bytes);
    hasher.finish()
}

/// Whether two strings are equal when case is ignored, as `unicase::UniCase` compares them.
pub uninterp spec fn unicase_eq_spec(a: Seq<char>, b: Seq<char>) -> bool;

/// Compares `UniCase::new(a)` with `UniCase::new(b)`. The result is named
/// `unicase_eq_spec(a, b)`.
#[verifier::external_body]
fn unicase_eq(a: &str, b: &str) -> (r: bool)
    ensures
        r == unicase_eq_spec(a@, b@),
{
    unicase::UniCase::new(a) == unicase::UniCase::new(b)
}

/// The bytes of a list of byte strings, one after the other.
pub open spec fn concat_bytes(bstrings: Seq<&[u8]>) -> Seq<u8> {
    bstrings.map_values(|s: &[u8]| s@).flatten()
}

/// Hashes a list of byte strings, one after the other, with MetroHash64 seeded by `seed`.
pub fn hash_bstrings(seed: u64, bstrings: &[&[u8]]) -> (r: u64)
    ensures
        r == metrohash64_seeded(seed, concat_bytes(bstrings@)),
{
    let mut bytes: Vec<u8> = Vec::new();
    let mut i: usize = 0;
    while i < bstrings.len()
        invariant
            i <= bstrings@.len(),
            bytes@ == concat_bytes(bstrings@.take(i as int)),
        decreases bstrings.len() - i,
    {
        let s: &[u8] = bstrings[i];
        let ghost before = bytes@;
        let mut j: usize = 0;
        while j < s.len()
            invariant
                j <= s@.len(),
                bytes@ == before + s@.take(j as int),
            decreases s.len() - j,
        {
            bytes.push(s[j]);
            assert(s@.take(j as int + 1) =~= s@.take(j as int).push(s@[j as int]));
            j = j + 1;
        }
        proof {
            assert(s@.take(j as int) =~= s@);
            let m = bstrings@.take(i as int).map_values(|s: &[u8]| s@);
            assert(bstrings@.take(i as int + 1).map_values(|s: &[u8]| s@) =~= m.push(s@));
            m.lemma_flatten_push(s@);
        }
        i = i + 1;
    }
    assert(bstrings@.take(i as int) =~= bstrings@);
    metrohash64_with_seed(seed, bytes.as_slice())
}

/// The extension of source metadata files, which no builder may claim.
pub open spec fn source_file_meta_extension() -> Seq<char> {
    seq!['s', 'o', 'r', 'k']
}

/// Whether `ext` is the extension of source metadata files, compared ignoring case.
pub fn is_source_meta_extension(ext: &str) -> (r: bool)
    ensures
        r == unicase_eq_spec(ext@, source_file_meta_extension()),
{
    let reserved: &str = "sork";
    proof {
        reveal_strlit("sork");
    }
    assert(reserved@ =~= source_file_meta_extension());
    unicase_eq(ext, reserved)
}

/// The extension of the metadata file that sits beside a source whose extension is
/// `file_ext`: the source's own extension, a dot, then the reserved metadata extension.
pub fn source_meta_file_extension(file_ext: &str) -> (r: String)
    ensures
        r@ == file_ext@ + seq!['.'] + source_file_meta_extension(),
{
    let mut r = String::new();
    push_str(&mut r, file_ext);
    string_push(&mut r, '.');
    let reserved: &str = "sork";
    proof {
        reveal_strlit("sork");
    }
    push_str(&mut r, reserved);
    r
}

/// Why a builder could not be registered.
#[derive(Debug, Clone, Copy, PartialEq, Eq, Structural)]
pub enum RegisterBuilderError {
    /// The extension at `index` is the reserved source metadata extension.
    ReservedExtension { index: usize },
    /// The extension at `index` is already claimed by the builder `existing`.
    ExtensionAlreadyRegistered { index: usize, existing: usize },
}

/// A registered builder: its name and the hashes that version it and its output format.
pub struct AssetBuilderEntry {
    pub name: String,
    pub builder_hash: u64,
    pub format_hash: u64,
}

/// The registry of asset builders and the source file extensions each one reads.
pub struct AssetsBuilderConfig {
    pub source_files_root: String,
    pub built_files_root: String,
    builders_version_hash: u64,
    asset_builders: Vec<AssetBuilderEntry>,
    file_ext_to_builder: Vec<(String, usize)>,
}

/// Whether some claimed extension (or one of the first `upto` new ones) matches `ext`,
/// ignoring case.
pub open spec fn ext_taken(keys: Seq<Seq<char>>, ext: Seq<char>) -> bool {
    exists|k: int| 0 <= k < keys.len() && unicase_eq_spec(#[trigger] keys[k], ext)
}

/// The characters of each extension.
pub open spec fn ext_views(exts: Seq<&str>) -> Seq<Seq<char>> {
    exts.map_values(|e: &str| e@)
}

/// Whether the `i`-th of `exts` may be claimed after the earlier ones were claimed.
pub open spec fn ext_acceptable(keys: Seq<Seq<char>>, exts: Seq<Seq<char>>, i: int) -> bool {
    &&& !unicase_eq_spec(exts[i], source_file_meta_extension())
    &&& !ext_taken(keys + exts.take(i), exts[i])
}

impl AssetsBuilderConfig {
    /// The claimed extensions, in the order they were claimed.
    pub closed spec fn spec_ext_keys(&self) -> Seq<Seq<char>> {
        self.file_ext_to_builder@.map_values(|e: (String, usize)| e.0@)
    }

    /// The builder that claimed each extension.
    pub closed spec fn spec_ext_builders(&self) -> Seq<usize> {
        self.file_ext_to_builder@.map_values(|e: (String, usize)| e.1)
    }

    /// The registered builders: name, builder hash and format hash.
    pub closed spec fn spec_builders(&self) -> Seq<(Seq<char>, u64, u64)> {
        self.asset_builders@.map_values(|b: AssetBuilderEntry| (b.name@, b.builder_hash, b.format_hash))
    }

    /// The roots of the source files and of the built files.
    pub closed spec fn spec_roots(&self) -> (Seq<char>, Seq<char>) {
        (self.source_files_root@, self.built_files_root@)
    }

    /// The hash that versions the builder framework itself.
    pub closed spec fn spec_version_hash(&self) -> u64 {
        self.builders_version_hash
    }

    /// Every claimed extension belongs to a registered builder.
    pub closed spec fn wf(&self) -> bool {
        forall|k: int| 0 <= k < self.file_ext_to_builder@.len() ==> (#[trigger] self.file_ext_to_builder@[k]).1
            < self.asset_builders@.len()
    }

    /// A registry with no builders.
    pub fn new(source_files_root: &str, built_files_root: &str) -> (r: Self)
        ensures
            r.wf(),
            r.spec_roots() == (source_files_root@, built_files_root@),
            r.spec_builders().len() == 0,
            r.spec_ext_keys().len() == 0,
            r.spec_version_hash() == metrohash64_seeded(0, seq!['I', 'n', 'i', 't', 'i', 'a', 'l'].map_values(|c: char| c as u8)),
    {
        let initial: &str = "Initial";
        proof { reveal_strlit("Initial"); }
        let bytes = initial.as_bytes();
        let versions: [&[u8]; 1] = [bytes];
        let versions_slice = versions.as_slice();
        let h = hash_bstrings(0, versions_slice);
        proof {
            assert(bytes@ =~= seq!['I', 'n', 'i', 't', 'i', 'a', 'l'].map_values(|c: char| c as u8)) by {
                vstd::string::is_ascii_spec_bytes(initial);
            }
            assert(versions_slice@ =~= seq![bytes]);
            reveal_with_fuel(Seq::<_>::flatten, 2);
            assert(concat_bytes(seq![bytes]) =~= bytes@);
        }
        AssetsBuilderConfig {
            source_files_root: String::from_str(source_files_root),
            built_files_root: String::from_str(built_files_root),
            builders_version_hash: h,
            asset_builders: Vec::new(),
            file_ext_to_builder: Vec::new(),
        }
    }

    /// The hash that versions the builder framework itself.
    pub fn builders_version_hash(&self) -> (r: u64)
        ensures
            r == self.spec_version_hash(),
    {
        self.builders_version_hash
    }

    /// The number of registered builders.
    pub fn builder_count(&self) -> (r: usize)
        ensures
            r == self.spec_builders().len(),
    {
        self.asset_builders.len()
    }

    /// The name, builder hash and format hash of the `index`-th registered builder.
    pub fn builder_entry(&self, index: usize) -> (r: (&str, u64, u64))
        requires
            index < self.spec_builders().len(),
        ensures
            (r.0@, r.1, r.2) == self.spec_builders()[index as int],
    {
        let e = &self.asset_builders[index];
        (e.name.as_str(), e.builder_hash, e.format_hash)
    }

    /// The builder that claimed `ext` (compared ignoring case), if any.
    pub fn builder_for_extension(&self, ext: &str) -> (r: Option<usize>)
        requires
            self.wf(),
        ensures
            r is None <==> !ext_taken(self.spec_ext_keys(), ext@),
            r matches Some(b) ==> b < self.spec_builders().len() && exists|k: int| 0 <= k < self.spec_ext_keys().len()
                && unicase_eq_spec(#[trigger] self.spec_ext_keys()[k], ext@) && self.spec_ext_builders()[k] == b,
    {
        let mut k: usize = 0;
        while k < self.file_ext_to_builder.len()
            invariant
                self.wf(),
                k <= self.file_ext_to_builder@.len(),
                forall|j: int| 0 <= j < k ==> !unicase_eq_spec(#[trigger] self.spec_ext_keys()[j], ext@),
            decreases self.file_ext_to_builder.len() - k,
        {
            if unicase_eq(self.file_ext_to_builder[k].0.as_str(), ext) {
                assert(self.spec_ext_keys()[k as int] == self.file_ext_to_builder@[k as int].0@);
                assert(self.spec_ext_builders()[k as int] == self.file_ext_to_builder@[k as int].1);
                assert(unicase_eq_spec(self.spec_ext_keys()[k as int], ext@));
                assert(self.spec_builders().len() == self.asset_builders@.len());
                return Some(self.file_ext_to_builder[k].1);
            }
            assert(self.spec_ext_keys()[k as int] == self.file_ext_to_builder@[k as int].0@);
            k = k + 1;
        }
        None
    }

    /// Checks that a builder may claim `extensions`: none of them may be the reserved
    /// metadata extension or one that another builder, or an earlier extension in the list,
    /// already claimed, compared ignoring case. Returns the first that fails; for a claimed
    /// one, with the builder that claimed it (the builder about to be added, for an earlier
    /// extension in the list).
    pub fn check_extensions(&self, extensions: &[&str]) -> (r: Result<(), RegisterBuilderError>)
        requires
            self.wf(),
        ensures
            r is Ok <==> forall|i: int| 0 <= i < extensions@.len() ==> #[trigger] ext_acceptable(
                self.spec_ext_keys(), ext_views(extensions@), i),
            r matches Err(e) ==> {
                let i = match e {
                    RegisterBuilderError::ReservedExtension { index } => index as int,
                    RegisterBuilderError::ExtensionAlreadyRegistered { index, existing: _ } => index as int,
                };
                &&& 0 <= i < extensions@.len()
                &&& !ext_acceptable(self.spec_ext_keys(), ext_views(extensions@), i)
                &&& forall|j: int| 0 <= j < i ==> #[trigger] ext_acceptable(self.spec_ext_keys(), ext_views(extensions@), j)
                &&& (e is ReservedExtension <==> unicase_eq_spec(extensions@[i]@, source_file_meta_extension()))
                &&& (e matches RegisterBuilderError::ExtensionAlreadyRegistered { index: _, existing } ==> {
                    ||| existing < self.spec_builders().len() && exists|k: int| 0 <= k < self.spec_ext_keys().len()
                        && unicase_eq_spec(#[trigger] self.spec_ext_keys()[k], extensions@[i]@) && self.spec_ext_builders()[k] == existing
                    ||| existing == self.spec_builders().len() && !ext_taken(self.spec_ext_keys(), extensions@[i]@)
                })
            },
    {
        let ghost exts = ext_views(extensions@);
        let ghost keys0 = self.spec_ext_keys();
        let reserved: &str = "sork";
        proof { reveal_strlit("sork"); }
        let mut i: usize = 0;
        while i < extensions.len()
            invariant
                self.wf(),
                reserved@ == source_file_meta_extension(),
                exts == ext_views(extensions@),
                keys0 == self.spec_ext_keys(),
                i <= extensions@.len(),
                forall|j: int| 0 <= j < i ==> #[trigger] ext_acceptable(keys0, exts, j),
            decreases extensions.len() - i,
        {
            let ext: &str = extensions[i];
            assert(exts[i as int] == ext@);
            if unicase_eq(ext, reserved) {
                assert(!ext_acceptable(keys0, exts, i as int));
                return Err(RegisterBuilderError::ReservedExtension { index: i });
            }
            match self.builder_for_extension(ext) {
                Some(existing) => {
                    assert(!ext_acceptable(keys0, exts, i as int)) by {
                        let k = choose|k: int| 0 <= k < self.spec_ext_keys().len()
                            && unicase_eq_spec(#[trigger] self.spec_ext_keys()[k], ext@) && self.spec_ext_builders()[k] == existing;
                        assert((keys0 + exts.take(i as int))[k] == keys0[k]);
                    }
                    return Err(RegisterBuilderError::ExtensionAlreadyRegistered { index: i, existing });
                },
                None => {},
            }
            let mut j: usize = 0;
            while j < i
                invariant
                    i < extensions@.len(),
                    j <= i,
                    exts == ext_views(extensions@),
                    forall|m: int| 0 <= m < j ==> !unicase_eq_spec(#[trigger] exts[m], ext@),
                    ext@ == exts[i as int],
                    self.wf(),
                    keys0 == self.spec_ext_keys(),
                    forall|m: int| 0 <= m < i ==> #[trigger] ext_acceptable(keys0, exts, m),
                    !ext_taken(keys0, ext@),
                    !unicase_eq_spec(ext@, source_file_meta_extension()),
                    extensions@[i as int]@ == ext@,
                decreases i - j,
            {
                assert(exts[j as int] == extensions@[j as int]@);
                if unicase_eq(extensions[j], ext) {
                    assert(!ext_acceptable(keys0, exts, i as int)) by {
                        let k = keys0.len() + j;
                        assert((keys0 + exts.take(i as int))[k] == exts[j as int]);
                    }
                    let existing = self.asset_builders.len();
                    assert(existing == self.spec_builders().len());
                    return Err(RegisterBuilderError::ExtensionAlreadyRegistered { index: i, existing });
                }
                j = j + 1;
            }
            proof {
                assert(ext_acceptable(keys0, exts, i as int)) by {
                    if ext_taken(keys0 + exts.take(i as int), ext@) {
                        let k = choose|k: int| 0 <= k < (keys0 + exts.take(i as int)).len()
                            && unicase_eq_spec(#[trigger] (keys0 + exts.take(i as int))[k], ext@);
                        if k < keys0.len() {
                            assert(ext_taken(keys0, ext@));
                        } else {
                            assert((keys0 + exts.take(i as int))[k] == exts[k - keys0.len()]);
                        }
                    }
                }
            }
            i = i + 1;
        }
        Ok(())
    }

    /// Registers a builder named `name` for `extensions` and returns its index. Every
    /// extension must be one a builder may claim (see `check_extensions`): registering one
    /// that is reserved or already claimed is refused.
    pub fn add_builder(
        &mut self,
        name: &str,
        builder_version: &[&[u8]],
        format_version: &[&[u8]],
        extensions: &[&str],
    ) -> (r: usize)
        requires
            old(self).wf(),
            forall|i: int| 0 <= i < extensions@.len() ==> #[trigger] ext_acceptable(
                old(self).spec_ext_keys(), ext_views(extensions@), i),
        ensures
            final(self).wf(),
            final(self).spec_version_hash() == old(self).spec_version_hash(),
            final(self).spec_builders() == old(self).spec_builders().push((
                name@,
                metrohash64_seeded(old(self).spec_version_hash(), concat_bytes(builder_version@)),
                metrohash64_seeded(0, concat_bytes(format_version@)),
            )),
            r == old(self).spec_builders().len(),
            final(self).spec_ext_keys() == old(self).spec_ext_keys() + ext_views(extensions@),
            final(self).spec_ext_builders() == old(self).spec_ext_builders() + Seq::new(extensions@.len(), |i: int| r),
    {
        let b_index = self.asset_builders.len();
        let builder_hash = hash_bstrings(self.builders_version_hash, builder_version);
        let format_hash = hash_bstrings(0, format_version);
        self.asset_builders.push(AssetBuilderEntry { name: String::from_str(name), builder_hash, format_hash });
        proof {
            assert(self.spec_builders() =~= old(self).spec_builders().push((name@, builder_hash, format_hash)));
        }
        let ghost exts = ext_views(extensions@);
        let ghost keys0 = old(self).spec_ext_keys();
        let ghost builders0 = old(self).spec_ext_builders();
        let mut i: usize = 0;
        while i < extensions.len()
            invariant
                self.wf(),
                b_index < self.asset_builders@.len(),
                b_index == old(self).asset_builders@.len(),
                exts == ext_views(extensions@),
                keys0 == old(self).spec_ext_keys(),
                builders0 == old(self).spec_ext_builders(),
                i <= extensions@.len(),
                self.spec_ext_keys() == keys0 + exts.take(i as int),
                self.spec_ext_builders() == builders0 + Seq::new(i as nat, |j: int| b_index),
                forall|j: int| 0 <= j < extensions@.len() ==> #[trigger] ext_acceptable(keys0, exts, j),
                self.spec_builders() == old(self).spec_builders().push((name@, builder_hash, format_hash)),
                self.builders_version_hash == old(self).builders_version_hash,
                builder_hash == metrohash64_seeded(old(self).spec_version_hash(), concat_bytes(builder_version@)),
                format_hash == metrohash64_seeded(0, concat_bytes(format_version@)),
            decreases extensions.len() - i,
        {
            let ext: &str = extensions[i];
            assert(exts[i as int] == ext@);
            assert(ext_acceptable(keys0, exts, i as int));
            let ghost keys_before = self.spec_ext_keys();
            let ghost builders_before = self.spec_ext_builders();
            self.file_ext_to_builder.push((String::from_str(ext), b_index));
            proof {
                assert(exts.take(i as int + 1) =~= exts.take(i as int).push(ext@));
                assert(self.spec_ext_keys() =~= keys_before.push(ext@));
                assert(self.spec_ext_builders() =~= builders_before.push(b_index));
                assert(Seq::new(i as nat + 1, |j: int| b_index) =~= Seq::new(i as nat, |j: int| b_index).push(b_index));
            }
            i = i + 1;
        }
        proof {
            assert(exts.take(i as int) =~= exts);
        }
        b_index
    }
}

/// Why a build step failed.
#[derive(Debug, PartialEq, Eq)]
pub enum BuildError {
    /// The source lies outside of the sources root.
    InvalidSourcePath,
    /// No builder is registered for this extension.
    NoBuilderForSource(String),
    /// A source produced more assets of one type than derived ids can tell apart.
    TooManyDerivedIDs,
}

/// The asset keys handed out to the outputs of one source. Each output of a given asset
/// type gets the next derived id of that type, so keys depend on the order of the calls.
pub struct BuildOutputs {
    source_id: AssetKeySourceId,
    builder_hash: u64,
    format_hash: u64,
    derived_ids: HashMap<u16, u16>,
    results: Vec<AssetKey>,
}

/// The number of outputs of asset type `t` handed out so far.
pub open spec fn derived_count(counts: Map<u16, u16>, t: u16) -> u16 {
    if counts.contains_key(t) { counts[t] } else { 0 }
}

impl BuildOutputs {
    /// The source whose outputs these are.
    pub closed spec fn spec_source_id(&self) -> AssetKeySourceId {
        self.source_id
    }

    /// How many outputs of each asset type (by type number) were handed out.
    pub closed spec fn spec_counts(&self) -> Map<u16, u16> {
        self.derived_ids@
    }

    /// The keys handed out so far, in order.
    pub closed spec fn spec_results(&self) -> Seq<AssetKey> {
        self.results@
    }

    /// The hashes that version the builder and its output format.
    pub closed spec fn spec_hashes(&self) -> (u64, u64) {
        (self.builder_hash, self.format_hash)
    }

    /// No two outputs of a source get the same key, and every key handed out is one of this
    /// source's unique keys.
    pub proof fn lemma_results_distinct(&self)
        requires
            self.wf(),
        ensures
            self.spec_results().no_duplicates(),
            forall|k: int| 0 <= k < self.spec_results().len() ==> {
                &&& !synth_flag((#[trigger] self.spec_results()[k]).0)
                &&& self.spec_results()[k].spec_source_id() == self.spec_source_id().0
            },
    {
        assert forall|k: int| 0 <= k < self.spec_results().len() implies {
            &&& !synth_flag((#[trigger] self.spec_results()[k]).0)
            &&& self.spec_results()[k].spec_source_id() == self.spec_source_id().0
        } by {
            let (t, d) = choose|t: AssetTypeId, d: u16| d < derived_count(self.derived_ids@, t.spec_number())
                && d < DERIVED_KEY_MAX && self.results@[k].0 == unique_repr(t.spec_number(), d, self.source_id.0);
            lemma_asset_type_number_roundtrip(t, t);
            lemma_unique_bits(t.spec_number(), d, self.source_id.0);
        }
    }

    /// Every handed-out key is the unique key of this source for some type and one of the
    /// derived ids already used for that type, and no key is handed out twice.
    pub closed spec fn wf(&self) -> bool {
        &&& self.source_id.0 < SOURCE_KEY_MAX
        &&& self.results@.no_duplicates()
        &&& forall|k: int| 0 <= k < self.results@.len() ==> exists|t: AssetTypeId, d: u16|
            #![trigger unique_repr(t.spec_number(), d, self.source_id.0)]
            d < derived_count(self.derived_ids@, t.spec_number()) && d < DERIVED_KEY_MAX
                && (#[trigger] self.results@[k]).0 == unique_repr(t.spec_number(), d, self.source_id.0)
    }

    /// No outputs yet.
    pub fn new(source_id: AssetKeySourceId, builder_hash: u64, format_hash: u64) -> (r: Self)
        requires
            source_id.0 < SOURCE_KEY_MAX,
        ensures
            r.wf(),
            r.spec_source_id() == source_id,
            r.spec_counts() == Map::<u16, u16>::empty(),
            r.spec_results() == Seq::<AssetKey>::empty(),
            r.spec_hashes() == (builder_hash, format_hash),
    {
        BuildOutputs { source_id, builder_hash, format_hash, derived_ids: HashMap::new(), results: Vec::new() }
    }

    /// The number of outputs handed out so far.
    pub fn outputs_count(&self) -> (r: usize)
        ensures
            r == self.spec_results().len(),
    {
        self.results.len()
    }

    /// The keys handed out so far, in order.
    pub fn results(&self) -> (r: &Vec<AssetKey>)
        ensures
            r@ == self.spec_results(),
    {
        &self.results
    }

    /// The hashes that version the builder and its output format.
    pub fn hashes(&self) -> (r: (u64, u64))
        ensures
            r == self.spec_hashes(),
    {
        (self.builder_hash, self.format_hash)
    }

    /// Hands out the key of the next output of `asset_type`: the unique key of this source
    /// with the next derived id of that type.
    pub fn add_output(&mut self, asset_type: AssetTypeId) -> (r: Result<AssetKey, BuildError>)
        requires
            old(self).wf(),
        ensures
            final(self).wf(),
            final(self).spec_source_id() == old(self).spec_source_id(),
            final(self).spec_hashes() == old(self).spec_hashes(),
            derived_count(old(self).spec_counts(), asset_type.spec_number()) >= DERIVED_KEY_MAX ==> r
                == Err::<AssetKey, BuildError>(BuildError::TooManyDerivedIDs) && final(self).spec_results()
                == old(self).spec_results() && final(self).spec_counts() == old(self).spec_counts(),
            derived_count(old(self).spec_counts(), asset_type.spec_number()) < DERIVED_KEY_MAX ==> {
                let d = derived_count(old(self).spec_counts(), asset_type.spec_number());
                &&& r matches Ok(key)
                &&& key.0 == unique_repr(asset_type.spec_number(), d, old(self).spec_source_id().0)
                &&& key.spec_asset_type() == asset_type
                &&& key.spec_derived_id() == d
                &&& key.spec_source_id() == old(self).spec_source_id().0
                &&& final(self).spec_results() == old(self).spec_results().push(key)
                &&& final(self).spec_counts() == old(self).spec_counts().insert(asset_type.spec_number(), (d + 1) as u16)
            },
    {
        broadcast use vstd::std_specs::hash::group_hash_axioms;
        let t = asset_type.number();
        proof {
            lemma_asset_type_number_roundtrip(asset_type, asset_type);
        }
        let current: u16 = match self.derived_ids.get(&t) {
            Some(c) => *c,
            None => 0,
        };
        assert(current == derived_count(self.derived_ids@, t));
        if current >= DERIVED_KEY_MAX {
            return Err(BuildError::TooManyDerivedIDs);
        }
        let mut derived_id = AssetKeyDerivedId(current);
        let handed = derived_id.next();
        let handed = match handed {
            Some(d) => d,
            None => {
                return Err(BuildError::TooManyDerivedIDs);
            },
        };
        let ghost counts0 = self.derived_ids@;
        self.derived_ids.insert(t, derived_id.0);
        let key = AssetKey::unique(asset_type, handed, self.source_id);
        let ghost results0 = self.results@;
        proof {
            assert forall|k: int| 0 <= k < results0.len() implies results0[k] != key by {
                let (t2, d2) = choose|t2: AssetTypeId, d2: u16| d2 < derived_count(counts0, t2.spec_number()) && d2 < DERIVED_KEY_MAX
                    && (#[trigger] results0[k]).0 == unique_repr(t2.spec_number(), d2, self.source_id.0);
                lemma_unique_key_injective(asset_type, handed, self.source_id, t2, AssetKeyDerivedId(d2), self.source_id);
                lemma_asset_type_number_roundtrip(t2, t2);
                if results0[k] == key {
                    assert(t2 == asset_type);
                    assert(d2 == handed.0);
                }
            }
        }
        self.results.push(key);
        proof {
            let results1 = self.results@;
            assert forall|a: int, b: int| 0 <= a < b < results1.len() implies results1[a] != results1[b] by {
                if b == results0.len() {
                    assert(results1[b] == key);
                    assert(results1[a] == results0[a]);
                }
            }
            assert forall|k: int| 0 <= k < results1.len() implies exists|t2: AssetTypeId, d2: u16|
                #![trigger unique_repr(t2.spec_number(), d2, self.source_id.0)]
                d2 < derived_count(self.derived_ids@, t2.spec_number()) && d2 < DERIVED_KEY_MAX
                    && (#[trigger] results1[k]).0 == unique_repr(t2.spec_number(), d2, self.source_id.0) by {
                if k == results0.len() {
                    assert(unique_repr(asset_type.spec_number(), handed.0, self.source_id.0) == key.0);
                } else {
                    let (t2, d2) = choose|t2: AssetTypeId, d2: u16| d2 < derived_count(counts0, t2.spec_number()) && d2 < DERIVED_KEY_MAX
                        && (#[trigger] results0[k]).0 == unique_repr(t2.spec_number(), d2, self.source_id.0);
                    assert(results1[k] == results0[k]);
                    assert(unique_repr(t2.spec_number(), d2, self.source_id.0) == results1[k].0);
                }
            }
        }
        Ok(key)
    }
}

/// The outputs that one built asset depends on.
pub struct BuildOutput {
    asset_key: AssetKey,
    dependencies: Vec<AssetKey>,
}

/// Whether the keys are in strictly increasing order.
pub open spec fn strictly_sorted(keys: Seq<AssetKey>) -> bool {
    forall|a: int, b: int| 0 <= a < b < keys.len() ==> (#[trigger] keys[a]).0 < (#[trigger] keys[b]).0
}

impl BuildOutput {
    /// The key of the asset being written.
    pub closed spec fn spec_asset_key(&self) -> AssetKey {
        self.asset_key
    }

    /// The dependencies recorded so far, in order (repeats included).
    pub closed spec fn spec_dependencies(&self) -> Seq<AssetKey> {
        self.dependencies@
    }

    /// An output with no dependencies.
    pub fn new(asset_key: AssetKey) -> (r: Self)
        ensures
            r.spec_asset_key() == asset_key,
            r.spec_dependencies() == Seq::<AssetKey>::empty(),
    {
        BuildOutput { asset_key, dependencies: Vec::new() }
    }

    /// The key of the asset being written.
    pub fn asset_key(&self) -> (r: AssetKey)
        ensures
            r == self.spec_asset_key(),
    {
        self.asset_key
    }

    /// Records that this asset depends on `dependent_asset`.
    pub fn depends_on(&mut self, dependent_asset: AssetKey)
        ensures
            final(self).spec_dependencies() == old(self).spec_dependencies().push(dependent_asset),
            final(self).spec_asset_key() == old(self).spec_asset_key(),
    {
        self.dependencies.push(dependent_asset);
    }

    /// Records that this asset depends on each of `dependent_assets`.
    pub fn depends_on_multiple(&mut self, dependent_assets: &[AssetKey])
        ensures
            final(self).spec_dependencies() == old(self).spec_dependencies() + dependent_assets@,
            final(self).spec_asset_key() == old(self).spec_asset_key(),
    {
        let mut i: usize = 0;
        while i < dependent_assets.len()
            invariant
                i <= dependent_assets@.len(),
                self.dependencies@ == old(self).dependencies@ + dependent_assets@.take(i as int),
                self.asset_key == old(self).asset_key,
            decreases dependent_assets.len() - i,
        {
            self.dependencies.push(dependent_assets[i]);
            assert(dependent_assets@.take(i as int + 1) =~= dependent_assets@.take(i as int).push(dependent_assets@[i as int]));
            i = i + 1;
        }
        assert(dependent_assets@.take(i as int) =~= dependent_assets@);
    }

    /// The recorded dependencies, sorted and without repeats, as they are written to the
    /// asset's metadata.
    pub fn finish_dependencies(self) -> (r: Vec<AssetKey>)
        ensures
            strictly_sorted(r@),
            r@.to_set() == self.spec_dependencies().to_set(),
    {
        sorted_unique_keys(&self.dependencies)
    }
}

proof fn lemma_push_to_set<A>(s: Seq<A>, x: A)
    ensures
        s.push(x).to_set() =~= s.to_set().insert(x),
{
    assert forall|y: A| s.push(x).to_set().contains(y) implies s.to_set().insert(x).contains(y) by {
        let j = choose|j: int| 0 <= j < s.push(x).len() && s.push(x)[j] == y;
        if j < s.len() {
            assert(s[j] == y);
        }
    }
    assert forall|y: A| s.to_set().insert(x).contains(y) implies s.push(x).to_set().contains(y) by {
        if y == x {
            assert(s.push(x)[s.len() as int] == x);
        } else {
            let j = choose|j: int| 0 <= j < s.len() && s[j] == y;
            assert(s.push(x)[j] == y);
        }
    }
}

/// The keys of `keys`, sorted in increasing order and with repeats removed.
pub fn sorted_unique_keys(keys: &Vec<AssetKey>) -> (r: Vec<AssetKey>)
    ensures
        strictly_sorted(r@),
        r@.to_set() == keys@.to_set(),
{
    let mut out: Vec<AssetKey> = Vec::new();
    let mut i: usize = 0;
    while i < keys.len()
        invariant
            i <= keys@.len(),
            strictly_sorted(out@),
            out@.to_set() == keys@.take(i as int).to_set(),
        decreases keys.len() - i,
    {
        let key = keys[i];
        // find the first position whose key is not below `key`
        let mut p: usize = 0;
        while p < out.len() && out[p].0 < key.0
            invariant
                p <= out@.len(),
                forall|j: int| 0 <= j < p ==> (#[trigger] out@[j]).0 < key.0,
            decreases out.len() - p,
        {
            p = p + 1;
        }
        let ghost out0 = out@;
        assert(keys@.take(i as int + 1) =~= keys@.take(i as int).push(key));
        if p < out.len() && out[p].0 == key.0 {
            // already present
            proof {
                assert(out0[p as int] == key);
                lemma_push_to_set(keys@.take(i as int), key);
                assert(out0.to_set().contains(key));
                assert(out0.to_set().insert(key) =~= out0.to_set());
            }
        } else {
            out.insert(p, key);
            proof {
                let out1 = out@;
                assert(out1 =~= out0.insert(p as int, key));
                assert forall|a: int, b: int| 0 <= a < b < out1.len() implies (#[trigger] out1[a]).0 < (#[trigger] out1[b]).0 by {
                    if b == p as int {
                        assert(out1[a] == out0[a]);
                    } else if a == p as int {
                        assert(out1[b] == out0[b - 1]);
                        if b - 1 > p as int {
                            assert(out0[p as int].0 < out0[b - 1].0);
                        }
                    } else if a < p as int && b > p as int {
                        assert(out1[a] == out0[a] && out1[b] == out0[b - 1]);
                    } else if b < p as int {
                        assert(out1[a] == out0[a] && out1[b] == out0[b]);
                    } else {
                        assert(out1[a] == out0[a - 1] && out1[b] == out0[b - 1]);
                    }
                }
                assert(out1.to_set() =~= out0.to_set().insert(key)) by {
                    assert forall|x: AssetKey| out1.to_set().contains(x) implies out0.to_set().insert(key).contains(x) by {
                        let j = choose|j: int| 0 <= j < out1.len() && out1[j] == x;
                        if j < p as int {
                            assert(out0[j] == x);
                        } else if j > p as int {
                            assert(out0[j - 1] == x);
                        }
                    }
                    assert forall|x: AssetKey| out0.to_set().insert(key).contains(x) implies out1.to_set().contains(x) by {
                        if x == key {
                            assert(out1[p as int] == key);
                        } else {
                            let j = choose|j: int| 0 <= j < out0.len() && out0[j] == x;
                            if j < p as int {
                                assert(out1[j] == x);
                            } else {
                                assert(out1[j + 1] == x);
                            }
                        }
                    }
                }
                lemma_push_to_set(keys@.take(i as int), key);
            }
        }
        i = i + 1;
    }
    assert(keys@.take(i as int) =~= keys@);
    out
}

} // verus!
