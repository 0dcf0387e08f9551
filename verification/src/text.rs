use vstd::prelude::*;

verus! {

/// The lower-case hexadecimal digit for `n` (taken modulo 16).
pub open spec fn hex_digit(n: nat) -> char {
    let d = n % 16;
    if d < 10 {
        ('0' as u32 + d) as char
    } else {
        ('a' as u32 + (d - 10)) as char
    }
}

/// The lower-case hexadecimal spelling of `v` without leading zeros (`0` is spelled "0").
pub open spec fn hex_seq(v: nat) -> Seq<char>
    decreases v,
{
    if v < 16 {
        seq![hex_digit(v)]
    } else {
        hex_seq(v / 16).push(hex_digit(v % 16))
    }
}

/// `n` copies of the character `c`.
pub open spec fn repeat_char(c: char, n: nat) -> Seq<char> {
    Seq::new(n, |i: int| c)
}

/// The hexadecimal spelling of `v`, padded on the left with zeros to at least `width`
/// characters, as `format!("{:0width$x}", v)` prints it.
pub open spec fn hex_padded(v: nat, width: nat) -> Seq<char> {
    let digits = hex_seq(v);
    if digits.len() < width {
        repeat_char('0', (width - digits.len()) as nat) + digits
    } else {
        digits
    }
}

/// Appends one character to a string.
#[verifier::external_body]
pub(crate) fn string_push(s: &mut String, c: char)
    ensures
        final(s)@ == old(s)@.push(c),
{
    s.push(c);
}

/// Appends a string slice to a string.
#[verifier::external_body]
pub(crate) fn push_str(s: &mut String, t: &str)
    ensures
        final(s)@ == old(s)@ + t@,
{
    s.push_str(t);
}

fn hex_digit_char(d: u8) -> (c: char)
    requires
        d < 16,
    ensures
        c == hex_digit(d as nat),
{
    if d < 10 {
        ((48u8 + d) as char)
    } else {
        ((97u8 + (d - 10)) as char)
    }
}

/// Appends every character of `chars` to `s`.
pub fn push_all(s: &mut String, chars: &Vec<char>)
    ensures
        final(s)@ == old(s)@ + chars@,
{
    let mut i: usize = 0;
    while i < chars.len()
        invariant
            i <= chars.len(),
            s@ == old(s)@ + chars@.take(i as int),
        decreases chars.len() - i,
    {
        string_push(s, chars[i]);
        assert(chars@.take(i as int + 1) =~= chars@.take(i as int).push(chars@[i as int]));
        i = i + 1;
    }
    assert(chars@.take(i as int) =~= chars@);
}

/// The digits of `n` that are still to be emitted, most significant first.
pub open spec fn hex_prefix(n: nat) -> Seq<char> {
    if n == 0 {
        Seq::empty()
    } else {
        hex_seq(n)
    }
}

proof fn lemma_hex_step(n: nat)
    ensures
        hex_seq(n) =~= hex_prefix(n / 16).push(hex_digit(n % 16)),
{
    if n < 16 {
        assert(n / 16 == 0);
        assert(n % 16 == n);
    }
}

/// The lower-case hexadecimal spelling of `v`, zero-padded to at least `width` characters.
pub fn hex_lower_padded(v: u128, width: usize) -> (r: String)
    ensures
        r@ == hex_padded(v as nat, width as nat),
{
    // digits are collected least significant first
    let mut digits: Vec<char> = Vec::new();
    digits.push(hex_digit_char((v % 16) as u8));
    let mut n: u128 = v / 16;
    proof {
        lemma_hex_step(v as nat);
        if v == 0 {
            assert(hex_seq(0) =~= seq![hex_digit(0)]);
        }
        assert(digits@.reverse() =~= seq![hex_digit((v % 16) as nat)]);
    }
    while n > 0
        invariant
            n <= v,
            hex_seq(v as nat) =~= hex_prefix(n as nat) + digits@.reverse(),
            digits@.len() >= 1,
        decreases n,
    {
        let ghost old_digits = digits@;
        proof {
            lemma_hex_step(n as nat);
        }
        digits.push(hex_digit_char((n % 16) as u8));
        proof {
            assert(digits@.reverse() =~= seq![hex_digit((n % 16) as nat)] + old_digits.reverse());
        }
        n = n / 16;
    }
    let mut r = String::new();
    let len = digits.len();
    if len < width {
        let mut k: usize = 0;
        while k < width - len
            invariant
                len < width,
                k <= width - len,
                r@ =~= repeat_char('0', k as nat),
            decreases width - len - k,
        {
            string_push(&mut r, '0');
            k = k + 1;
        }
    }
    let ghost pad = r@;
    let mut j: usize = 0;
    while j < len
        invariant
            len == digits@.len(),
            j <= len,
            r@ =~= pad + digits@.reverse().take(j as int),
        decreases len - j,
    {
        string_push(&mut r, digits[len - 1 - j]);
        assert(digits@.reverse().take(j as int + 1) =~= digits@.reverse().take(j as int).push(digits@[len - 1 - j]));
        j = j + 1;
    }
    assert(digits@.reverse().take(len as int) =~= digits@.reverse());
    r
}

} // verus!
