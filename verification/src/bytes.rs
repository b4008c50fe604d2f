//! Big-endian integers read from byte sequences.
use vstd::prelude::*;

verus! {

/// 256 to the power `n`.
pub open spec fn pow256(n: nat) -> nat
    decreases n,
{
    if n == 0 {
        1
    } else {
        256 * pow256((n - 1) as nat)
    }
}

/// The unsigned big-endian value of a byte sequence.
pub open spec fn be_value(s: Seq<u8>) -> nat
    decreases s.len(),
{
    if s.len() == 0 {
        0
    } else {
        be_value(s.drop_last()) * 256 + s.last() as nat
    }
}

/// The big-endian value of the `n` bytes of `s` that start at `at`.
pub open spec fn be_at(s: Seq<u8>, at: int, n: int) -> nat {
    be_value(s.subrange(at, at + n))
}

/// A big-endian value of `n` bytes is below 256^n.
pub proof fn lemma_be_value_bound(s: Seq<u8>)
    ensures
        be_value(s) < pow256(s.len()),
    decreases s.len(),
{
    if s.len() > 0 {
        lemma_be_value_bound(s.drop_last());
        let v = be_value(s.drop_last());
        let p = pow256((s.len() - 1) as nat);
        assert(v * 256 + s.last() < p * 256) by (nonlinear_arith)
            requires
                v < p,
                s.last() < 256,
        ;
    }
}

/// The powers of 256 that fit in 64 bits.
pub proof fn lemma_pow256_values()
    ensures
        pow256(0) == 1,
        pow256(1) == 0x100,
        pow256(2) == 0x10000,
        pow256(3) == 0x1000000,
        pow256(4) == 0x100000000,
        pow256(5) == 0x10000000000,
        pow256(6) == 0x1000000000000,
        pow256(7) == 0x100000000000000,
        pow256(8) == 0x10000000000000000,
{
    reveal_with_fuel(pow256, 9);
}

/// Reads the `n`-byte big-endian number at `at`.
pub fn read_be(data: &[u8], at: usize, n: usize) -> (r: u64)
    requires
        at + n <= data@.len(),
        n <= 8,
    ensures
        r == be_at(data@, at as int, n as int),
{
    let len = data.len();
    let mut value: u64 = 0;
    let mut i: usize = 0;
    proof {
        lemma_pow256_values();
    }
    while i < n
        invariant
            at + n <= data@.len(),
            len == data@.len(),
            n <= 8,
            i <= n,
            value == be_at(data@, at as int, i as int),
            value < pow256(i as nat),
            pow256(7) == 0x100000000000000,
        decreases n - i,
    {
        let ghost prev = data@.subrange(at as int, at + i);
        let b = data[at + i];
        proof {
            let next = data@.subrange(at as int, at + i + 1);
            assert(next.drop_last() =~= prev);
            assert(pow256(i as nat) <= pow256(7)) by {
                lemma_pow256_monotone(i as nat, 7);
            }
            assert(value * 256 + b < pow256(i as nat) * 256) by (nonlinear_arith)
                requires
                    value < pow256(i as nat),
                    b < 256,
            ;
        }
        value = value * 256 + b as u64;
        i = i + 1;
    }
    value
}

/// Powers of 256 grow with the exponent.
pub proof fn lemma_pow256_monotone(a: nat, b: nat)
    requires
        a <= b,
    ensures
        pow256(a) <= pow256(b),
    decreases b,
{
    if a < b {
        lemma_pow256_monotone(a, (b - 1) as nat);
    }
}

/// Reads the big-endian 32-bit number at `at`.
pub fn read_be32(data: &[u8], at: usize) -> (r: u32)
    requires
        at + 4 <= data@.len(),
    ensures
        r == be_at(data@, at as int, 4),
{
    proof {
        lemma_be_value_bound(data@.subrange(at as int, at + 4));
        lemma_pow256_values();
    }
    read_be(data, at, 4) as u32
}

} // verus!
