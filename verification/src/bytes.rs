use vstd::prelude::*;

verus! {

/// The unsigned integer whose little-endian bytes are `b`.
pub open spec fn le_value(b: Seq<u8>) -> nat
    decreases b.len(),
{
    if b.len() == 0 {
        0
    } else {
        b[0] as nat + 256 * le_value(b.drop_first())
    }
}

/// `256` raised to the power `n`.
pub open spec fn pow256(n: nat) -> nat
    decreases n,
{
    if n == 0 {
        1
    } else {
        256 * pow256((n - 1) as nat)
    }
}

/// A little-endian number of `n` bytes is less than `256^n`.
pub proof fn lemma_le_value_bound(b: Seq<u8>)
    ensures
        le_value(b) < pow256(b.len()),
    decreases b.len(),
{
    if b.len() > 0 {
        lemma_le_value_bound(b.drop_first());
        assert(le_value(b.drop_first()) + 1 <= pow256((b.len() - 1) as nat));
        assert(256 * (le_value(b.drop_first()) + 1) <= 256 * pow256((b.len() - 1) as nat)) by (nonlinear_arith)
            requires
                le_value(b.drop_first()) + 1 <= pow256((b.len() - 1) as nat),
        ;
    }
}

/// The powers of 256 that the key modules rely on.
pub proof fn lemma_pow256_values()
    ensures
        pow256(16) == 0x1_0000_0000_0000_0000_0000_0000_0000_0000,
        pow256(12) == 0x1_0000_0000_0000_0000_0000_0000,
        pow256(8) == 0x1_0000_0000_0000_0000,
        pow256(4) == 0x1_0000_0000,
{
    reveal_with_fuel(pow256, 17);
}

/// Reads up to sixteen bytes as a little-endian unsigned integer.
pub fn le_u128(b: &[u8]) -> (r: u128)
    requires
        b@.len() <= 16,
    ensures
        r as nat == le_value(b@),
{
    let n = b.len();
    let mut v: u128 = 0;
    let mut i: usize = n;
    proof {
        assert(b@.subrange(n as int, n as int) =~= Seq::<u8>::empty());
    }
    while i > 0
        invariant
            i <= n,
            n == b@.len(),
            n <= 16,
            v as nat == le_value(b@.subrange(i as int, n as int)),
        decreases i,
    {
        let ghost tail = b@.subrange(i as int, n as int);
        proof {
            lemma_le_value_bound(tail);
            lemma_pow256_mono((n - i) as nat, 15);
            lemma_pow256_values();
            reveal_with_fuel(pow256, 2);
        }
        let ghost next = b@.subrange(i - 1, n as int);
        assert(next.drop_first() =~= tail);
        assert(next[0] == b@[i - 1]);
        assert(v < 0x1_0000_0000_0000_0000_0000_0000_0000_00);
        v = v * 256 + b[i - 1] as u128;
        i = i - 1;
    }
    assert(b@.subrange(0, n as int) =~= b@);
    v
}

/// Powers of 256 grow with the exponent.
pub proof fn lemma_pow256_mono(a: nat, b: nat)
    requires
        a <= b,
    ensures
        pow256(a) <= pow256(b),
    decreases b,
{
    if a < b {
        lemma_pow256_mono(a, (b - 1) as nat);
        assert(pow256(b) == 256 * pow256((b - 1) as nat));
    }
}

} // verus!
