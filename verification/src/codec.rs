//! The text forms of keys and hashes, as they are written to metadata files: hexadecimal
//! for asset keys and ids, URL-safe base64 (without padding) of the little-endian bytes
//! for version hashes.
use vstd::prelude::*;
use base64::Engine;
use crate::asset_3l14::{AssetKey, AssetKeySourceId, AssetKeySynthHash, VersionHash, SOURCE_ID_BITS, SYNTH_HASH_BITS};
use crate::bytes::{le_u128, le_value, lemma_le_value_bound, lemma_pow256_values, pow256};
use crate::text::{hex_digit, hex_lower_padded, hex_padded, hex_seq, push_str, repeat_char};

verus! {

/// The value of the hexadecimal digit `c` (either case), if it is one.
pub open spec fn hex_digit_value(c: char) -> Option<nat> {
    if '0' <= c && c <= '9' {
        Some((c as nat - '0' as nat) as nat)
    } else if 'a' <= c && c <= 'f' {
        Some((c as nat - 'a' as nat + 10) as nat)
    } else if 'A' <= c && c <= 'F' {
        Some((c as nat - 'A' as nat + 10) as nat)
    } else {
        None
    }
}

/// The value of a string of hexadecimal digits, most significant first, if every character
/// is one (the empty string is 0).
pub open spec fn hex_digits_value(s: Seq<char>) -> Option<nat>
    decreases s.len(),
{
    if s.len() == 0 {
        Some(0)
    } else {
        match (hex_digits_value(s.drop_last()), hex_digit_value(s.last())) {
            (Some(high), Some(d)) => Some(high * 16 + d),
            _ => None,
        }
    }
}

/// The digits that `from_str_radix(s, 16)` reads: `s` without one leading `+`.
pub open spec fn hex_body(s: Seq<char>) -> Seq<char> {
    if s.len() > 0 && s[0] == '+' { s.drop_first() } else { s }
}

/// What `u128::from_str_radix(s, 16)` accepts: an optional `+`, then one or more
/// hexadecimal digits whose value fits in 128 bits.
pub open spec fn spec_parse_hex_u128(s: Seq<char>) -> Option<u128> {
    let digits = hex_body(s);
    if digits.len() == 0 {
        None
    } else {
        match hex_digits_value(digits) {
            Some(v) => if v <= u128::MAX { Some(v as u128) } else { None },
            None => None,
        }
    }
}

/// What `u64::from_str_radix(s, 16)` accepts: the same digits, for a value that fits in 64
/// bits.
pub open spec fn spec_parse_hex_u64(s: Seq<char>) -> Option<u64> {
    match spec_parse_hex_u128(s) {
        Some(v) => if v <= u64::MAX { Some(v as u64) } else { None },
        None => None,
    }
}

fn hex_char_value(c: char) -> (r: Option<u8>)
    ensures
        r matches Some(d) ==> hex_digit_value(c) == Some(d as nat) && d < 16,
        r is None ==> hex_digit_value(c) is None,
{
    if '0' <= c && c <= '9' {
        Some((c as u32 - '0' as u32) as u8)
    } else if 'a' <= c && c <= 'f' {
        Some((c as u32 - 'a' as u32 + 10) as u8)
    } else if 'A' <= c && c <= 'F' {
        Some((c as u32 - 'A' as u32 + 10) as u8)
    } else {
        None
    }
}

proof fn lemma_hex_digits_value_prefix(s: Seq<char>, i: int)
    requires
        0 <= i <= s.len(),
        hex_digits_value(s.take(i)) is None,
    ensures
        hex_digits_value(s) is None,
    decreases s.len(),
{
    if i == s.len() {
        assert(s.take(i) =~= s);
    } else if i < s.len() - 1 {
        assert(s.drop_last().take(i) =~= s.take(i));
        lemma_hex_digits_value_prefix(s.drop_last(), i);
    } else {
        assert(s.drop_last() =~= s.take(i));
    }
}

proof fn lemma_hex_digits_value_grows(s: Seq<char>, i: int)
    requires
        0 <= i <= s.len(),
        hex_digits_value(s) is Some,
    ensures
        hex_digits_value(s.take(i)) is Some,
        hex_digits_value(s.take(i))->0 <= hex_digits_value(s)->0,
    decreases s.len(),
{
    if i < s.len() {
        assert(s.drop_last().take(i) =~= s.take(i));
        lemma_hex_digits_value_grows(s.drop_last(), i);
    } else {
        assert(s.take(i) =~= s);
    }
}

/// Reads a hexadecimal number as `u128::from_str_radix(s, 16)` does.
pub fn parse_hex_u128(s: &str) -> (r: Option<u128>)
    ensures
        r == spec_parse_hex_u128(s@),
{
    let n = s.unicode_len();
    let mut i: usize = 0;
    if n > 0 && s.get_char(0) == '+' {
        i = 1;
    }
    if i == n {
        return None;
    }
    let start = i;
    let ghost digits = s@.subrange(start as int, n as int);
    proof {
        if start == 1 {
            assert(digits =~= s@.drop_first());
        } else {
            assert(digits =~= s@);
        }
    }
    let mut v: u128 = 0;
    while i < n
        invariant
            start <= i <= n,
            n == s@.len(),
            digits == s@.subrange(start as int, n as int),
            digits == hex_body(s@),
            digits.len() > 0,
            hex_digits_value(digits.take(i - start)) == Some(v as nat),
        decreases n - i,
    {
        let c = s.get_char(i);
        let ghost prefix = digits.take(i - start);
        let ghost next = digits.take(i - start + 1);
        assert(next.drop_last() =~= prefix);
        assert(next.last() == c);
        match hex_char_value(c) {
            None => {
                proof {
                    assert(hex_digits_value(next) is None);
                    lemma_hex_digits_value_prefix(digits, i - start + 1);
                }
                return None;
            },
            Some(d) => {
                if v > 0x0fff_ffff_ffff_ffff_ffff_ffff_ffff_ffff {
                    proof {
                        assert(hex_digits_value(next) == Some(v as nat * 16 + d as nat));
                        if hex_digits_value(digits) is Some {
                            lemma_hex_digits_value_grows(digits, i - start + 1);
                        }
                    }
                    return None;
                }
                v = v * 16 + d as u128;
            },
        }
        i = i + 1;
    }
    assert(digits.take(i - start) =~= digits);
    Some(v)
}

/// Reads a hexadecimal number as `u64::from_str_radix(s, 16)` does.
pub fn parse_hex_u64(s: &str) -> (r: Option<u64>)
    ensures
        r == spec_parse_hex_u64(s@),
{
    match parse_hex_u128(s) {
        Some(v) => if v <= 0xffff_ffff_ffff_ffff { Some(v as u64) } else { None },
        None => None,
    }
}

proof fn lemma_hex_seq_value(v: nat)
    ensures
        hex_digits_value(hex_seq(v)) == Some(v),
    decreases v,
{
    lemma_hex_digit_value(v % 16);
    let s = hex_seq(v);
    if v >= 16 {
        lemma_hex_seq_value(v / 16);
        assert(s.drop_last() =~= hex_seq(v / 16));
        assert(s.last() == hex_digit(v % 16));
        assert(hex_digits_value(s.drop_last()) == Some(v / 16));
        assert(hex_digit_value(s.last()) == Some(v % 16));
        assert(v / 16 * 16 + v % 16 == v);
        assert(hex_digits_value(s) == Some(v / 16 * 16 + v % 16));
    } else {
        assert(s.drop_last() =~= Seq::<char>::empty());
        assert(hex_digits_value(s.drop_last()) == Some(0nat));
        assert(s.last() == hex_digit(v));
        assert(v % 16 == v);
        assert(hex_digit_value(s.last()) == Some(v));
        assert(hex_digits_value(s) == Some(0 * 16 + v));
    }
}

proof fn lemma_hex_digit_value(d: nat)
    requires
        d < 16,
    ensures
        hex_digit_value(hex_digit(d)) == Some(d),
        hex_digit(d) != '+',
{
    if d < 10 {
        let c = ('0' as u32 + d) as char;
        assert(c as nat == 48 + d);
    } else {
        let c = ('a' as u32 + (d - 10)) as char;
        assert(c as nat == 97 + d - 10);
    }
}

proof fn lemma_leading_zeros_value(k: nat, s: Seq<char>)
    ensures
        hex_digits_value(repeat_char('0', k) + s) == hex_digits_value(s),
    decreases s.len(), k,
{
    if s.len() == 0 {
        assert(repeat_char('0', k) + s =~= repeat_char('0', k));
        if k > 0 {
            lemma_leading_zeros_value((k - 1) as nat, s);
            assert(repeat_char('0', k).drop_last() =~= repeat_char('0', (k - 1) as nat) + s);
        }
    } else {
        lemma_leading_zeros_value(k, s.drop_last());
        assert((repeat_char('0', k) + s).drop_last() =~= repeat_char('0', k) + s.drop_last());
    }
}

/// Reading back a zero-padded hexadecimal spelling gives the number back.
pub proof fn lemma_hex_roundtrip(v: u128, width: nat)
    ensures
        spec_parse_hex_u128(hex_padded(v as nat, width)) == Some(v),
        v <= u64::MAX ==> spec_parse_hex_u64(hex_padded(v as nat, width)) == Some(v as u64),
{
    lemma_hex_seq_value(v as nat);
    let digits = hex_seq(v as nat);
    let s = hex_padded(v as nat, width);
    if digits.len() < width {
        lemma_leading_zeros_value((width - digits.len()) as nat, digits);
    }
    assert(s.len() > 0);
    assert(s[0] != '+') by {
        if digits.len() < width {
            assert(s[0] == '0');
        } else {
            let d = s[0];
            lemma_hex_seq_first(v as nat);
        }
    }
}

proof fn lemma_hex_seq_first(v: nat)
    ensures
        hex_seq(v).len() > 0,
        hex_digit_value(hex_seq(v)[0]) is Some,
    decreases v,
{
    if v >= 16 {
        lemma_hex_seq_first(v / 16);
        assert(hex_seq(v)[0] == hex_seq(v / 16)[0]);
    } else {
        let d = v % 16;
        if d < 10 {
            assert(hex_seq(v)[0] == ('0' as u32 + d) as char);
        } else {
            assert(hex_seq(v)[0] == ('a' as u32 + (d - 10)) as char);
        }
    }
}

/// The number of hexadecimal digits that hold `bits` bits.
pub open spec fn spec_hex_width(bits: nat) -> nat {
    (bits + 3) / 4
}

/// The number of hexadecimal digits that hold `bits` bits.
pub fn hex_width_of_bits(bits: u64) -> (r: usize)
    requires
        bits <= 128,
    ensures
        r == spec_hex_width(bits as nat),
{
    ((bits + 3) / 4) as usize
}

impl AssetKey {
    /// The key as 16 lower-case hexadecimal digits, with `0x` in front when `alternate`.
    pub fn lower_hex(&self, alternate: bool) -> (r: String)
        ensures
            r@ == (if alternate { seq!['0', 'x'] } else { Seq::empty() }) + hex_padded(self.0 as nat, 16),
    {
        let digits = hex_lower_padded(self.0 as u128, 16);
        if alternate {
            let mut r = String::new();
            proof { reveal_strlit("0x"); }
            push_str(&mut r, "0x");
            push_str(&mut r, digits.as_str());
            r
        } else {
            proof {
                assert(Seq::<char>::empty() + digits@ =~= digits@);
            }
            digits
        }
    }

    /// Reads a key written by `lower_hex` (without `0x`), as the key's deserializer does.
    pub fn from_hex(s: &str) -> (r: Option<AssetKey>)
        ensures
            r == (match spec_parse_hex_u64(s@) {
                Some(v) => Some(AssetKey(v)),
                None => None,
            }),
    {
        match parse_hex_u64(s) {
            Some(v) => Some(AssetKey(v)),
            None => None,
        }
    }
}

/// Writing a key in hexadecimal and reading it back gives the same key.
pub proof fn lemma_asset_key_hex_roundtrip(k: AssetKey)
    ensures
        spec_parse_hex_u64(hex_padded(k.0 as nat, 16)) == Some(k.0),
{
    lemma_hex_roundtrip(k.0 as u128, 16);
}

/// Different numbers have different zero-padded hexadecimal spellings.
pub proof fn lemma_hex_padded_injective(a: u128, b: u128, width: nat)
    ensures
        hex_padded(a as nat, width) == hex_padded(b as nat, width) ==> a == b,
{
    lemma_hex_roundtrip(a, width);
    lemma_hex_roundtrip(b, width);
}

/// Two spellings with the same ending are equal only when their beginnings are.
proof fn lemma_same_suffix(a: Seq<char>, b: Seq<char>, suffix: Seq<char>)
    ensures
        a + suffix == b + suffix ==> a == b,
{
    if a + suffix == b + suffix {
        assert((a + suffix).len() == (b + suffix).len());
        assert(a =~= (a + suffix).subrange(0, a.len() as int));
        assert(b =~= (b + suffix).subrange(0, b.len() as int));
    }
}

/// Different keys give different file names (`AssetKey::as_file_name`) for each kind of
/// file.
pub proof fn lemma_file_names_distinct(k1: AssetKey, k2: AssetKey, extension: Seq<char>)
    ensures
        k1 != k2 ==> hex_padded(k1.0 as nat, 16) + seq!['.'] + extension != hex_padded(k2.0 as nat, 16) + seq!['.'] + extension,
{
    let suffix = seq!['.'] + extension;
    assert(hex_padded(k1.0 as nat, 16) + seq!['.'] + extension =~= hex_padded(k1.0 as nat, 16) + suffix);
    assert(hex_padded(k2.0 as nat, 16) + seq!['.'] + extension =~= hex_padded(k2.0 as nat, 16) + suffix);
    lemma_same_suffix(hex_padded(k1.0 as nat, 16), hex_padded(k2.0 as nat, 16), suffix);
    lemma_hex_padded_injective(k1.0 as u128, k2.0 as u128, 16);
}

/// Different 128-bit keys give different file names (the `as_file_name` and
/// `as_meta_file_name` of the keys of `asset` and `assets`: 32 hex digits, then an ending).
pub proof fn lemma_wide_file_names_distinct(a: u128, b: u128, ending: Seq<char>)
    ensures
        a != b ==> hex_padded(a as nat, 32) + ending != hex_padded(b as nat, 32) + ending,
{
    lemma_same_suffix(hex_padded(a as nat, 32), hex_padded(b as nat, 32), ending);
    lemma_hex_padded_injective(a, b, 32);
}

impl AssetKeySourceId {
    /// The id in as many lower-case hexadecimal digits as its bits need.
    pub fn to_hex(&self) -> (r: String)
        ensures
            r@ == hex_padded(self.0 as nat, spec_hex_width(SOURCE_ID_BITS as nat)),
    {
        hex_lower_padded(self.0 as u128, hex_width_of_bits(SOURCE_ID_BITS))
    }

    /// Reads an id written in hexadecimal.
    pub fn from_hex(s: &str) -> (r: Option<AssetKeySourceId>)
        ensures
            r == (match spec_parse_hex_u64(s@) {
                Some(v) => Some(AssetKeySourceId(v)),
                None => None,
            }),
    {
        match parse_hex_u64(s) {
            Some(v) => Some(AssetKeySourceId(v)),
            None => None,
        }
    }
}

impl AssetKeySynthHash {
    /// The hash in as many lower-case hexadecimal digits as its bits need.
    pub fn to_hex(&self) -> (r: String)
        ensures
            r@ == hex_padded(self.0 as nat, spec_hex_width(SYNTH_HASH_BITS as nat)),
    {
        hex_lower_padded(self.0 as u128, hex_width_of_bits(SYNTH_HASH_BITS))
    }

    /// Reads a hash written in hexadecimal.
    pub fn from_hex(s: &str) -> (r: Option<AssetKeySynthHash>)
        ensures
            r == (match spec_parse_hex_u64(s@) {
                Some(v) => Some(AssetKeySynthHash(v)),
                None => None,
            }),
    {
        match parse_hex_u64(s) {
            Some(v) => Some(AssetKeySynthHash(v)),
            None => None,
        }
    }
}

impl crate::asset::AssetKey {
    /// The key as 32 lower-case hexadecimal digits, as it is written to metadata files.
    pub fn to_hex(&self) -> (r: String)
        ensures
            r@ == hex_padded(self.0 as nat, 32),
    {
        hex_lower_padded(self.0, 32)
    }

    /// Reads a key written in hexadecimal.
    pub fn from_hex(s: &str) -> (r: Option<crate::asset::AssetKey>)
        ensures
            r == (match spec_parse_hex_u128(s@) {
                Some(v) => Some(crate::asset::AssetKey(v)),
                None => None,
            }),
    {
        match parse_hex_u128(s) {
            Some(v) => Some(crate::asset::AssetKey(v)),
            None => None,
        }
    }
}

impl crate::asset::AssetKeySourceId {
    /// The id as 26 lower-case hexadecimal digits.
    pub fn to_hex(&self) -> (r: String)
        ensures
            r@ == hex_padded(self.0 as nat, 26),
    {
        hex_lower_padded(self.0, 26)
    }

    /// Reads an id written in hexadecimal.
    pub fn from_hex(s: &str) -> (r: Option<crate::asset::AssetKeySourceId>)
        ensures
            r == (match spec_parse_hex_u128(s@) {
                Some(v) => Some(crate::asset::AssetKeySourceId(v)),
                None => None,
            }),
    {
        match parse_hex_u128(s) {
            Some(v) => Some(crate::asset::AssetKeySourceId(v)),
            None => None,
        }
    }
}

impl crate::asset::AssetKeySynthHash {
    /// The hash as 30 lower-case hexadecimal digits.
    pub fn to_hex(&self) -> (r: String)
        ensures
            r@ == hex_padded(self.0 as nat, 30),
    {
        hex_lower_padded(self.0, 30)
    }

    /// Reads a hash written in hexadecimal.
    pub fn from_hex(s: &str) -> (r: Option<crate::asset::AssetKeySynthHash>)
        ensures
            r == (match spec_parse_hex_u128(s@) {
                Some(v) => Some(crate::asset::AssetKeySynthHash(v)),
                None => None,
            }),
    {
        match parse_hex_u128(s) {
            Some(v) => Some(crate::asset::AssetKeySynthHash(v)),
            None => None,
        }
    }
}

/// The character of the URL-safe base64 alphabet for the six-bit value `v`: `A`-`Z`,
/// `a`-`z`, `0`-`9`, then `-` and `_`.
pub open spec fn base64_url_char(v: int) -> char {
    if v < 26 {
        (('A' as int) + v) as char
    } else if v < 52 {
        (('a' as int) + (v - 26)) as char
    } else if v < 62 {
        (('0' as int) + (v - 52)) as char
    } else if v == 62 {
        '-'
    } else {
        '_'
    }
}

/// The URL-safe base64 spelling, without padding, of `bytes`: each group of three bytes,
/// read as a 24-bit big-endian number, gives four characters of six bits each; a last
/// group of one or two bytes gives two or three characters, its bits followed by zeros.
pub open spec fn base64_url_nopad(bytes: Seq<u8>) -> Seq<char>
    decreases bytes.len(),
{
    if bytes.len() == 0 {
        Seq::empty()
    } else if bytes.len() == 1 {
        let n = bytes[0] as int * 16;
        seq![base64_url_char(n / 64), base64_url_char(n % 64)]
    } else if bytes.len() == 2 {
        let n = (bytes[0] as int * 256 + bytes[1] as int) * 4;
        seq![base64_url_char(n / 4096), base64_url_char((n / 64) % 64), base64_url_char(n % 64)]
    } else {
        let n = bytes[0] as int * 65536 + bytes[1] as int * 256 + bytes[2] as int;
        seq![
            base64_url_char(n / 262144),
            base64_url_char((n / 4096) % 64),
            base64_url_char((n / 64) % 64),
            base64_url_char(n % 64),
        ] + base64_url_nopad(bytes.subrange(3, bytes.len() as int))
    }
}

/// What decoding `s` as URL-safe base64 without padding into an 8-byte buffer gives: the
/// decoded bytes, or none when it fails.
pub uninterp spec fn base64_url_nopad_decoded8(s: Seq<char>) -> Option<Seq<u8>>;

/// `base64::engine::general_purpose::URL_SAFE_NO_PAD.encode(bytes)`: the URL-safe
/// alphabet, no padding characters, as `base64_url_nopad` spells it out.
#[verifier::external_body]
fn base64_encode_url_nopad(bytes: &[u8]) -> (r: String)
    requires
        bytes@.len() <= 8,
    ensures
        r@ == base64_url_nopad(bytes@),
{
    base64::engine::general_purpose::URL_SAFE_NO_PAD.encode(bytes)
}

/// `base64::engine::general_purpose::URL_SAFE_NO_PAD.decode_slice(s, &mut buf)` into an
/// 8-byte buffer: the decoded bytes, or none on an error. The result is named
/// `base64_url_nopad_decoded8(s)`; at most 8 bytes come out, and the spelling that
/// `encode` gives of at most 8 bytes decodes to those bytes.
#[verifier::external_body]
fn base64_decode_url_nopad8(s: &str) -> (r: Option<Vec<u8>>)
    ensures
        r is Some ==> r->0@.len() <= 8 && base64_url_nopad_decoded8(s@) == Some(r->0@),
        r is None ==> base64_url_nopad_decoded8(s@) is None,
        forall|b: Seq<u8>| b.len() <= 8 && #[trigger] base64_url_nopad(b) == s@ ==> r is Some && r->0@ == b,
{
    let mut buf = [0u8; 8];
    match base64::engine::general_purpose::URL_SAFE_NO_PAD.decode_slice(s, &mut buf) {
        Ok(n) => Some(buf[..n].to_vec()),
        Err(_) => None,
    }
}

/// The `n` little-endian bytes of `v` (the bytes beyond `v`'s size are 0).
pub open spec fn le_bytes(v: nat, n: nat) -> Seq<u8>
    decreases n,
{
    if n == 0 {
        Seq::empty()
    } else {
        seq![(v % 256) as u8] + le_bytes(v / 256, (n - 1) as nat)
    }
}

proof fn lemma_le_bytes_len(v: nat, n: nat)
    ensures
        le_bytes(v, n).len() == n,
    decreases n,
{
    if n > 0 {
        lemma_le_bytes_len(v / 256, (n - 1) as nat);
    }
}

proof fn lemma_le_bytes_value(v: nat, n: nat)
    requires
        v < pow256(n),
    ensures
        le_value(le_bytes(v, n)) == v,
    decreases n,
{
    if n > 0 {
        let rest = le_bytes(v / 256, (n - 1) as nat);
        assert(v / 256 < pow256((n - 1) as nat)) by (nonlinear_arith)
            requires
                v < 256 * pow256((n - 1) as nat),
        ;
        lemma_le_bytes_value(v / 256, (n - 1) as nat);
        assert(le_bytes(v, n).drop_first() =~= rest);
        assert(v % 256 + 256 * (v / 256) == v);
    } else {
        assert(v == 0);
    }
}

fn u64_le_bytes(v: u64) -> (r: Vec<u8>)
    ensures
        r@ == le_bytes(v as nat, 8),
{
    let mut out: Vec<u8> = Vec::new();
    let mut cur: u64 = v;
    let mut i: usize = 0;
    while i < 8
        invariant
            i <= 8,
            out@ + le_bytes(cur as nat, (8 - i) as nat) == le_bytes(v as nat, 8),
        decreases 8 - i,
    {
        let ghost before = out@;
        proof {
            assert(le_bytes(cur as nat, (8 - i) as nat) =~= seq![(cur % 256) as u8] + le_bytes((cur / 256) as nat, (8 - i - 1) as nat));
        }
        out.push((cur % 256) as u8);
        proof {
            assert(before + (seq![(cur % 256) as u8] + le_bytes((cur / 256) as nat, (8 - i - 1) as nat))
                =~= out@ + le_bytes((cur / 256) as nat, (8 - i - 1) as nat));
        }
        cur = cur / 256;
        i = i + 1;
    }
    assert(out@ + le_bytes(cur as nat, 0) =~= out@);
    out
}

/// The text form of a version hash: the URL-safe base64 spelling, without padding, of its
/// little-endian bytes.
pub open spec fn spec_version_hash_text(h: VersionHash) -> Seq<char> {
    base64_url_nopad(le_bytes(h.0 as nat, 8))
}

/// The version hash that a text form reads as: the little-endian number of its decoded
/// bytes, or none when it does not decode.
pub open spec fn spec_version_hash_from_text(s: Seq<char>) -> Option<VersionHash> {
    match base64_url_nopad_decoded8(s) {
        Some(b) => if b.len() <= 8 { Some(VersionHash(le_value(b) as u64)) } else { None },
        None => None,
    }
}

impl VersionHash {
    /// The text form of this hash, as it is written to metadata files.
    pub fn to_text(&self) -> (r: String)
        ensures
            r@ == spec_version_hash_text(*self),
    {
        let bytes = u64_le_bytes(self.0);
        proof {
            lemma_le_bytes_len(self.0 as nat, 8);
        }
        base64_encode_url_nopad(bytes.as_slice())
    }

    /// Reads the text form of a version hash. The text that `to_text` writes of a hash
    /// reads back as that hash.
    pub fn from_text(s: &str) -> (r: Option<VersionHash>)
        ensures
            r == spec_version_hash_from_text(s@),
            forall|h: VersionHash| #[trigger] spec_version_hash_text(h) == s@ ==> r == Some(h),
    {
        let decoded = base64_decode_url_nopad8(s);
        proof {
            assert forall|h: VersionHash| #[trigger] spec_version_hash_text(h) == s@ implies decoded is Some
                && le_value(decoded->0@) == h.0 as nat by {
                let b = le_bytes(h.0 as nat, 8);
                lemma_le_bytes_len(h.0 as nat, 8);
                lemma_pow256_values();
                lemma_le_bytes_value(h.0 as nat, 8);
                assert(base64_url_nopad(b) == s@);
                assert(decoded is Some && decoded->0@ == b);
            }
        }
        match decoded {
            Some(b) => {
                let v = le_u128(b.as_slice());
                proof {
                    lemma_le_value_bound(b@);
                    crate::bytes::lemma_pow256_mono(b@.len(), 8);
                    lemma_pow256_values();
                }
                Some(VersionHash(v as u64))
            },
            None => None,
        }
    }
}

} // verus!
