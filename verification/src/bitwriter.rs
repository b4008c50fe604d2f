//! A most-significant-bit-first bit writer.
use vstd::prelude::*;

verus! {

/// 2 to the power `n`.
pub open spec fn pow2(n: nat) -> nat
    decreases n,
{
    if n == 0 { 1 } else { 2 * pow2((n - 1) as nat) }
}

/// The unsigned value of bits, most significant first.
pub open spec fn bits_value(s: Seq<bool>) -> nat
    decreases s.len(),
{
    if s.len() == 0 {
        0
    } else {
        2 * bits_value(s.drop_last()) + (if s.last() { 1nat } else { 0nat })
    }
}

/// One byte holding up to eight bits from its top, zero below them.
pub open spec fn byte_of(s: Seq<bool>) -> u8
    recommends
        s.len() <= 8,
{
    (bits_value(s) * pow2((8 - s.len()) as nat)) as u8
}

/// Bits packed into bytes, most significant bit first, the last byte padded with zeros.
pub open spec fn pack(s: Seq<bool>) -> Seq<u8> {
    Seq::new(
        ((s.len() + 7) / 8) as nat,
        |j: int| byte_of(s.subrange(8 * j, if 8 * j + 8 <= s.len() { 8 * j + 8 } else { s.len() as int })),
    )
}

/// The `count` low bits of `value`, most significant first.
pub open spec fn bits_of(value: u64, count: nat) -> Seq<bool>
    decreases count,
{
    if count == 0 {
        Seq::empty()
    } else {
        bits_of(value >> 1u64, (count - 1) as nat).push(value & 1 == 1)
    }
}

/// `bits_of` yields exactly `count` bits.
pub proof fn lemma_bits_of_len(value: u64, count: nat)
    ensures
        bits_of(value, count).len() == count,
    decreases count,
{
    if count > 0 {
        lemma_bits_of_len(value >> 1u64, (count - 1) as nat);
    }
}

/// The number of significant bits of `v`.
pub open spec fn bit_len(v: u64) -> nat
    decreases v,
{
    if v == 0 {
        0
    } else {
        proof {
            assert(v != 0 ==> v >> 1u64 < v) by (bit_vector);
        }
        1 + bit_len(v >> 1u64)
    }
}

/// The unsigned Exp-Golomb code of `value`: as many zero bits as `value + 1`
/// has bits after its leading one, then `value + 1` itself.
pub open spec fn ue_bits(value: u32) -> Seq<bool> {
    let v = (value as u64 + 1) as u64;
    bits_of(0, (bit_len(v) - 1) as nat) + bits_of(v, bit_len(v))
}

/// A bit writer: `bytes` are the written bits packed most significant bit
/// first; `log` is the sequence of bits written, as ghost state.
pub struct BitWriter {
    pub bytes: Vec<u8>,
    pub bits: usize,
    pub log: Ghost<Seq<bool>>,
}

pub proof fn lemma_pow2_values()
    ensures
        pow2(0) == 1, pow2(1) == 2, pow2(2) == 4, pow2(3) == 8, pow2(4) == 16,
        pow2(5) == 32, pow2(6) == 64, pow2(7) == 128, pow2(8) == 256,
{
    reveal_with_fuel(pow2, 9);
}

/// `2^n` grows with `n`.
pub proof fn lemma_pow2_monotone(n: nat, m: nat)
    requires
        n <= m,
    ensures
        1 <= pow2(n) <= pow2(m),
    decreases m,
{
    if n < m {
        lemma_pow2_monotone(n, (m - 1) as nat);
    } else if n > 0 {
        lemma_pow2_monotone((n - 1) as nat, (n - 1) as nat);
    }
}

/// `2^32`.
pub proof fn lemma_pow2_32()
    ensures
        pow2(32) == 0x1_0000_0000,
{
    reveal_with_fuel(pow2, 33);
}

pub proof fn lemma_bits_value_bound(s: Seq<bool>)
    ensures
        bits_value(s) < pow2(s.len()),
    decreases s.len(),
{
    if s.len() > 0 {
        lemma_bits_value_bound(s.drop_last());
    }
}

impl BitWriter {
    /// The writer's well-formedness: the bytes are exactly the packed bits.
    pub open spec fn wf(&self) -> bool {
        &&& self.bits == self.log@.len()
        &&& self.bytes@ == pack(self.log@)
    }

    /// The bits written so far.
    pub open spec fn view_bits(&self) -> Seq<bool> {
        self.log@
    }

    /// An empty writer.
    pub fn new() -> (r: BitWriter)
        ensures
            r.wf(),
            r.view_bits() == Seq::<bool>::empty(),
    {
        let r = BitWriter { bytes: Vec::new(), bits: 0, log: Ghost(Seq::empty()) };
        assert(r.bytes@ =~= pack(Seq::<bool>::empty()));
        r
    }

    /// Appends one bit.
    pub fn bit(&mut self, bit: bool)
        requires
            old(self).wf(),
            old(self).bits < usize::MAX,
        ensures
            final(self).wf(),
            final(self).view_bits() == old(self).view_bits().push(bit),
    {
        let ghost s = self.log@;
        let ghost t = s.push(bit);
        let r = self.bits % 8;
        if r == 0 {
            self.bytes.push(0);
        }
        let last = self.bytes.len() - 1;
        let old_byte = self.bytes[last];
        let mask: u8 = 0x80u8 >> (r as u8);
        let new_byte = if bit { old_byte | mask } else { old_byte };
        proof {
            lemma_pack_push(s, bit);
            let base = pack_base(s);
            assert(self.bytes@ =~= base);
            assert(old_byte == base[base.len() - 1]);
            assert(r as int == s.len() % 8);
            assert(mask == 0x80u8 >> ((s.len() % 8) as u8));
            assert(new_byte == (if bit { base[base.len() - 1] | (0x80u8 >> ((s.len() % 8) as u8)) } else { base[base.len() - 1] }));
        }
        self.bytes.set(last, new_byte);
        self.bits = self.bits + 1;
        proof {
            self.log@ = t;
        }
        proof {
            lemma_pack_push(s, bit);
            let base = pack_base(s);
            assert(self.bytes@.len() == base.len());
            assert(pack(t).len() == base.len());
            assert forall|j: int| 0 <= j < base.len() - 1 implies self.bytes@[j] == pack(t)[j] by {
                assert(pack(t)[j] == base[j]);
            }
            assert(self.bytes@[base.len() - 1] == pack(t)[base.len() - 1]);
            assert(self.bytes@ =~= pack(t));
        }
    }
}

/// Bit `q` (0 the most significant) of a byte.
pub open spec fn byte_bit(x: u8, q: int) -> bool {
    (x >> ((7 - q) as u8)) & 1u8 == 1u8
}

/// Bit `j` of bytes read most significant bit first.
pub open spec fn packed_bit(bytes: Seq<u8>, j: int) -> bool {
    byte_bit(bytes[j / 8], j % 8)
}

/// Setting bit `r` of a byte sets it and leaves the others; a zero byte has
/// no bit set.
proof fn lemma_byte_bit_set(x: u8, r: u8, q: u8)
    by (bit_vector)
    requires
        r < 8,
        q < 8,
    ensures
        q != r ==> ((x | (0x80u8 >> r)) >> (7 - q) as u8) & 1u8 == (x >> (7 - q) as u8) & 1u8,
        ((x | (0x80u8 >> r)) >> (7 - r) as u8) & 1u8 == 1u8,
        (0u8 >> (7 - q) as u8) & 1u8 == 0u8,
{
}

/// The bits of packed bits read back are the bits, then zero padding.
pub proof fn lemma_pack_bits(s: Seq<bool>)
    ensures
        forall|j: int| 0 <= j < 8 * pack(s).len() ==> #[trigger] packed_bit(pack(s), j) == (j < s.len() && s[j]),
    decreases s.len(),
{
    if s.len() > 0 {
        let u = s.drop_last();
        let b = s.last();
        assert(u.push(b) =~= s);
        lemma_pack_bits(u);
        lemma_pack_push(u, b);
        let base = pack_base(u);
        let l = base.len() - 1;
        let r = (u.len() % 8) as u8;
        assert(pack(s).len() == base.len());
        if u.len() % 8 == 0 {
            assert(base == pack(u).push(0u8));
            assert(8 * l == u.len());
        } else {
            assert(base == pack(u));
            assert(8 * l <= u.len() < 8 * l + 8);
        }
        assert forall|j: int| 0 <= j < 8 * pack(s).len() implies #[trigger] packed_bit(pack(s), j) == (j < s.len()
            && s[j]) by {
            let q = (j % 8) as u8;
            if j / 8 < l {
                assert(pack(s)[j / 8] == base[j / 8]);
                assert(base[j / 8] == pack(u)[j / 8]);
                assert(packed_bit(pack(u), j) == (j < u.len() && u[j]));
            } else {
                assert(j / 8 == l);
                lemma_byte_bit_set(base[l], r, q);
                if u.len() % 8 != 0 {
                    assert(packed_bit(pack(u), j) == (j < u.len() && u[j]));
                }
            }
        }
    }
}

impl BitWriter {
    /// Bit `j` of those written.
    pub fn get(&self, j: usize) -> (r: bool)
        requires
            self.wf(),
            j < self.view_bits().len(),
        ensures
            r == self.view_bits()[j as int],
    {
        proof {
            lemma_pack_bits(self.log@);
            assert(j < 8 * pack(self.log@).len());
            assert(packed_bit(pack(self.log@), j as int) == self.log@[j as int]);
        }
        (self.bytes[j / 8] >> ((7 - j % 8) as u8)) & 1u8 == 1u8
    }
}

/// The packing of `s` with a fresh zero byte when the next bit starts a byte.
pub open spec fn pack_base(s: Seq<bool>) -> Seq<u8> {
    if s.len() % 8 == 0 { pack(s).push(0u8) } else { pack(s) }
}

/// Adding a bit below the bits of a partial byte sets that bit.
pub proof fn lemma_byte_push(u: Seq<bool>, b: bool)
    requires
        u.len() < 8,
    ensures
        byte_of(u.push(b)) == (if b { byte_of(u) | (0x80u8 >> (u.len() as u8)) } else { byte_of(u) }),
{
    let r = u.len();
    assert(u.push(b).drop_last() =~= u);
    lemma_bits_value_bound(u);
    lemma_pow2_values();
    let v = bits_value(u);
    let bit: nat = if b { 1 } else { 0 };
    assert(bits_value(u.push(b)) == 2 * v + bit);
    let x = byte_of(u);
    let nb = byte_of(u.push(b));
    let m: u8 = 0x80u8 >> (r as u8);
    if r == 0 {
        assert(m == 128u8) by (bit_vector) requires m == 0x80u8 >> 0u8;
        assert(pow2(8) == 256 && pow2(7) == 128);
        assert(v < 1);
        assert(x == v * 256);
        assert(nb == (2 * v + bit) * 128);
        let w = v as u8;
        assert(((w * 256) as u8 | 128u8) == w * 256 + 128) by (bit_vector) requires w < 1;
    } else if r == 1 {
        assert(m == 64u8) by (bit_vector) requires m == 0x80u8 >> 1u8;
        assert(pow2(7) == 128 && pow2(6) == 64);
        assert(v < 2);
        assert(x == v * 128);
        assert(nb == (2 * v + bit) * 64);
        let w = v as u8;
        assert(((w * 128) as u8 | 64u8) == w * 128 + 64) by (bit_vector) requires w < 2;
    } else if r == 2 {
        assert(m == 32u8) by (bit_vector) requires m == 0x80u8 >> 2u8;
        assert(pow2(6) == 64 && pow2(5) == 32);
        assert(v < 4);
        assert(x == v * 64);
        assert(nb == (2 * v + bit) * 32);
        let w = v as u8;
        assert(((w * 64) as u8 | 32u8) == w * 64 + 32) by (bit_vector) requires w < 4;
    } else if r == 3 {
        assert(m == 16u8) by (bit_vector) requires m == 0x80u8 >> 3u8;
        assert(pow2(5) == 32 && pow2(4) == 16);
        assert(v < 8);
        assert(x == v * 32);
        assert(nb == (2 * v + bit) * 16);
        let w = v as u8;
        assert(((w * 32) as u8 | 16u8) == w * 32 + 16) by (bit_vector) requires w < 8;
    } else if r == 4 {
        assert(m == 8u8) by (bit_vector) requires m == 0x80u8 >> 4u8;
        assert(pow2(4) == 16 && pow2(3) == 8);
        assert(v < 16);
        assert(x == v * 16);
        assert(nb == (2 * v + bit) * 8);
        let w = v as u8;
        assert(((w * 16) as u8 | 8u8) == w * 16 + 8) by (bit_vector) requires w < 16;
    } else if r == 5 {
        assert(m == 4u8) by (bit_vector) requires m == 0x80u8 >> 5u8;
        assert(pow2(3) == 8 && pow2(2) == 4);
        assert(v < 32);
        assert(x == v * 8);
        assert(nb == (2 * v + bit) * 4);
        let w = v as u8;
        assert(((w * 8) as u8 | 4u8) == w * 8 + 4) by (bit_vector) requires w < 32;
    } else if r == 6 {
        assert(m == 2u8) by (bit_vector) requires m == 0x80u8 >> 6u8;
        assert(pow2(2) == 4 && pow2(1) == 2);
        assert(v < 64);
        assert(x == v * 4);
        assert(nb == (2 * v + bit) * 2);
        let w = v as u8;
        assert(((w * 4) as u8 | 2u8) == w * 4 + 2) by (bit_vector) requires w < 64;
    } else {
        assert(m == 1u8) by (bit_vector) requires m == 0x80u8 >> 7u8;
        assert(pow2(1) == 2 && pow2(0) == 1);
        assert(v < 128);
        assert(x == v * 2);
        assert(nb == (2 * v + bit) * 1);
        let w = v as u8;
        assert(((w * 2) as u8 | 1u8) == w * 2 + 1) by (bit_vector) requires w < 128;
    }
}

/// Appending a bit changes only the last byte of the packing (adding a fresh
/// zero byte first when the bit count is a multiple of eight), by or-ing in the
/// bit at position `len % 8` from the top.
pub proof fn lemma_pack_push(s: Seq<bool>, b: bool)
    ensures
        pack(s.push(b)).len() == pack_base(s).len(),
        forall|j: int| 0 <= j < pack_base(s).len() - 1 ==> pack(s.push(b))[j] == #[trigger] pack_base(s)[j],
        pack(s.push(b))[pack_base(s).len() - 1] == (if b {
            pack_base(s)[pack_base(s).len() - 1] | (0x80u8 >> ((s.len() % 8) as u8))
        } else {
            pack_base(s)[pack_base(s).len() - 1]
        }),
{
    let t = s.push(b);
    let n = s.len() as int;
    let r = n % 8;
    let base = pack_base(s);
    let jl = n / 8;
    assert(pack(t).len() == base.len());
    assert(base.len() - 1 == jl);
    assert forall|j: int| 0 <= j < base.len() - 1 implies pack(t)[j] == base[j] by {
        assert(8 * j + 8 <= n);
        assert(t.subrange(8 * j, 8 * j + 8) =~= s.subrange(8 * j, 8 * j + 8));
    }
    let u = s.subrange(8 * jl, n);
    assert(t.subrange(8 * jl, n + 1) =~= u.push(b));
    assert(u.len() == r);
    lemma_byte_push(u, b);
    if r == 0 {
        assert(u =~= Seq::<bool>::empty());
        assert(byte_of(u) == 0u8) by {
            lemma_pow2_values();
        }
    } else {
        assert(base[jl] == byte_of(u));
    }
}

impl BitWriter {
    /// Appends the `count` low bits of `value`, most significant first.
    pub fn bits(&mut self, value: u64, count: u32)
        requires
            old(self).wf(),
            count <= 64,
            old(self).bits + count <= usize::MAX,
        ensures
            final(self).wf(),
            final(self).view_bits() == old(self).view_bits() + bits_of(value, count as nat),
            final(self).bits == old(self).bits + count,
    {
        proof {
            lemma_bits_of_len(value, count as nat);
        }
        let mut i: u32 = count;
        while i > 0
            invariant
                self.wf(),
                i <= count,
                count <= 64,
                self.bits + i <= usize::MAX,
                self.view_bits() == old(self).view_bits() + bits_of(value >> (i as u64), (count - i) as nat),
            decreases i,
        {
            let ghost before = self.view_bits();
            let k = i - 1;
            let b = (value >> (k as u64)) & 1 == 1;
            self.bit(b);
            proof {
                let w = value >> (k as u64);
                assert(w >> 1u64 == value >> (i as u64)) by (bit_vector)
                    requires
                        w == value >> (k as u64),
                        i == k + 1,
                        i <= 64,
                ;
                assert(bits_of(w, (count - k) as nat) == bits_of(w >> 1u64, (count - i) as nat).push(w & 1 == 1));
                assert(self.view_bits() =~= old(self).view_bits() + bits_of(w, (count - k) as nat));
            }
            i = k;
        }
        proof {
            assert(value >> 0u64 == value) by (bit_vector);
        }
    }

    /// Appends the unsigned Exp-Golomb code of `value`.
    pub fn ue(&mut self, value: u32)
        requires
            old(self).wf(),
            old(self).bits + 66 <= usize::MAX,
        ensures
            final(self).wf(),
            final(self).view_bits() == old(self).view_bits() + ue_bits(value),
            final(self).bits <= old(self).bits + 65,
    {
        let v: u64 = value as u64 + 1;
        let mut length: u32 = 0;
        proof {
            assert(v >> 0u64 == v) by (bit_vector);
        }
        while (v >> (length as u64)) != 0
            invariant
                length <= 33,
                v >= 1,
                v <= 0x1_0000_0000,
                bit_len(v) == length + bit_len(v >> (length as u64)),
            decreases 33 - length,
        {
            proof {
                let l = length as u64;
                assert(v <= 0x1_0000_0000 && l >= 33 && l <= 63 ==> v >> l == 0) by (bit_vector);
                let w = v >> (length as u64);
                assert(w >> 1u64 == v >> ((length + 1) as u64)) by (bit_vector)
                    requires
                        w == v >> (length as u64),
                        length < 33,
                ;
            }
            length = length + 1;
        }
        proof {
            assert(v >= 1 ==> v >> 0u64 != 0) by (bit_vector);
            assert(length >= 1);
        }
        self.bits(0, length - 1);
        proof {
            lemma_bits_of_len(0, (length - 1) as nat);
        }
        self.bits(v, length);
        proof {
            assert(self.view_bits() =~= old(self).view_bits() + ue_bits(value));
        }
    }
}

} // verus!
