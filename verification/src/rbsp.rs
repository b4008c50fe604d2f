//! The bit reader of the configuration records' SPS parsers: the NAL unit's
//! 00 00 03 sequences are first reduced to 00 00, then bits are read most
//! significant first, zero past the end.
use vstd::prelude::*;
use crate::bitwriter::{pow2, lemma_pow2_monotone, lemma_pow2_32};

verus! {

/// The bytes from `at` with every 00 00 03 reduced to 00 00 (scanning forward).
pub open spec fn reduce_from(d: Seq<u8>, at: int) -> Seq<u8>
    decreases d.len() - at,
{
    if at < 0 || at >= d.len() {
        Seq::empty()
    } else if at + 3 <= d.len() && d[at] == 0 && d[at + 1] == 0 && d[at + 2] == 3 {
        seq![0u8, 0u8] + reduce_from(d, at + 3)
    } else {
        seq![d[at]] + reduce_from(d, at + 1)
    }
}

/// Bit `pos` of `d`, most significant first, zero past the end.
pub open spec fn bit_at(d: Seq<u8>, pos: int) -> u32 {
    if 0 <= pos && pos / 8 < d.len() { ((d[pos / 8] >> ((7 - pos % 8) as u8)) & 1) as u32 } else { 0 }
}

/// `p + n`, held at the largest position.
pub open spec fn advance(p: u64, n: int) -> u64 {
    if p + n > u64::MAX { u64::MAX } else { (p + n) as u64 }
}

/// The `n` bits of `d` from `pos` as a number, most significant first.
pub open spec fn bits_value(d: Seq<u8>, pos: u64, n: nat) -> nat
    decreases n,
{
    if n == 0 { 0 } else { 2 * bits_value(d, pos, (n - 1) as nat) + (bit_at(d, advance(pos, n - 1) as int) as nat) }
}

/// An unsigned Exp-Golomb code from `pos`, with `zeros` leading zeros seen:
/// more than 20 leading zeros fail; otherwise the value and the position after.
pub open spec fn ue_scan(d: Seq<u8>, pos: u64, zeros: nat) -> Option<(u32, u64)>
    decreases 21 - zeros,
{
    if zeros > 20 {
        None
    } else if bit_at(d, pos as int) == 0 {
        if zeros + 1 > 20 { None } else { ue_scan(d, advance(pos, 1), zeros + 1) }
    } else {
        let after = advance(pos, 1);
        Some(((pow2(zeros) - 1 + bits_value(d, after, zeros)) as u32, advance(after, zeros as int)))
    }
}

/// The unsigned Exp-Golomb code at `pos`.
#[verifier::opaque]
pub open spec fn spec_ue(d: Seq<u8>, pos: u64) -> Option<(u32, u64)> {
    ue_scan(d, pos, 0)
}

/// The signed value of an Exp-Golomb code `n`: even codes negative.
pub open spec fn signed_of(n: u32) -> i32 {
    if n % 2 == 0 { (-(n as int) / 2) as i32 } else { ((n as int + 1) / 2) as i32 }
}

/// `2^n` is at least 1 and doubles.
pub proof fn lemma_pow2_step(n: nat)
    ensures
        pow2(n) >= 1,
        pow2(n + 1) == 2 * pow2(n),
    decreases n,
{
    if n > 0 {
        lemma_pow2_step((n - 1) as nat);
    }
}

/// `n` bits make a number below `2^n`.
pub proof fn lemma_bits_value_bound(d: Seq<u8>, pos: u64, n: nat)
    ensures
        bits_value(d, pos, n) < pow2(n),
    decreases n,
{
    if n > 0 {
        lemma_bits_value_bound(d, pos, (n - 1) as nat);
        lemma_pow2_step((n - 1) as nat);
        let q = advance(pos, n - 1) as int;
        assert(bit_at(d, q) <= 1) by {
            if 0 <= q && q / 8 < d.len() {
                let b = d[q / 8];
                let s = (7 - q % 8) as u8;
                assert((b >> s) & 1 <= 1) by (bit_vector);
            }
        }
    }
}

/// A reader over a reduced NAL unit.
pub struct SpsBits {
    pub bytes: Vec<u8>,
    pub position: u64,
}

impl SpsBits {
    /// Starts reading `data` with its 00 00 03 sequences reduced to 00 00.
    pub fn new(data: &[u8]) -> (r: SpsBits)
        ensures
            r.bytes@ == reduce_from(data@, 0),
            r.position == 0,
    {
        let mut bytes: Vec<u8> = Vec::new();
        let n = data.len();
        let mut at: usize = 0;
        while at < n
            invariant
                n == data@.len(),
                at <= n,
                bytes@ + reduce_from(data@, at as int) == reduce_from(data@, 0),
            decreases n - at,
        {
            if n - at >= 3 && data[at] == 0 && data[at + 1] == 0 && data[at + 2] == 3 {
                let ghost before = bytes@;
                bytes.push(0);
                bytes.push(0);
                assert(bytes@ == before + seq![0u8, 0u8]);
                assert(bytes@ + reduce_from(data@, at + 3) =~= before + reduce_from(data@, at as int));
                at = at + 3;
            } else {
                let ghost before = bytes@;
                bytes.push(data[at]);
                assert(bytes@ + reduce_from(data@, at + 1) =~= before + reduce_from(data@, at as int));
                at = at + 1;
            }
        }
        assert(bytes@ + reduce_from(data@, at as int) =~= bytes@);
        SpsBits { bytes, position: 0 }
    }

    /// Reads `n` bits.
    pub fn get(&mut self, n: usize) -> (r: u32)
        requires
            n <= 32,
        ensures
            r == bits_value(old(self).bytes@, old(self).position, n as nat),
            final(self).bytes@ == old(self).bytes@,
            final(self).position == advance(old(self).position, n as int),
    {
        let mut value: u32 = 0;
        let mut k: usize = 0;
        let ghost start = self.position;
        while k < n
            invariant
                n <= 32,
                k <= n,
                self.bytes@ == old(self).bytes@,
                start == old(self).position,
                self.position == advance(start, k as int),
                value == bits_value(self.bytes@, start, k as nat),
                value < pow2(k as nat),
                pow2(k as nat) <= 0x1_0000_0000,
            decreases n - k,
        {
            let at = self.position / 8;
            let bit: u32 = if at < self.bytes.len() as u64 {
                let b = self.bytes[at as usize];
                let s = (7 - self.position % 8) as u8;
                proof {
                    assert((b >> s) & 1 <= 1) by (bit_vector);
                }
                ((b >> s) & 1) as u32
            } else {
                0
            };
            proof {
                lemma_pow2_step(k as nat);
                lemma_pow2_monotone((k + 1) as nat, 32);
                lemma_pow2_32();
            }
            assert(bit == bit_at(self.bytes@, self.position as int));
            value = value * 2 + bit;
            self.position = self.position.saturating_add(1);
            k = k + 1;
        }
        value
    }

    /// Skips `n` bits.
    pub fn skip(&mut self, n: usize)
        ensures
            final(self).bytes@ == old(self).bytes@,
            final(self).position == advance(old(self).position, n as int),
    {
        self.position = self.position.saturating_add(n as u64);
    }
}

impl SpsBits {
    /// Reads an unsigned Exp-Golomb code; more than 20 leading zeros fail.
    pub fn ue(&mut self) -> (r: Option<u32>)
        ensures
            final(self).bytes@ == old(self).bytes@,
            r matches Some(v) ==> v < 0x20_0000,
            match spec_ue(old(self).bytes@, old(self).position) {
                None => r is None,
                Some((v, p)) => r == Some(v) && final(self).position == p,
            },
    {
        let mut zeros: usize = 0;
        let mut base: u32 = 0;
        proof {
            reveal(spec_ue);
        }
        loop
            invariant_except_break
                spec_ue(old(self).bytes@, old(self).position) == ue_scan(self.bytes@, self.position, zeros as nat),
            invariant
                self.bytes@ == old(self).bytes@,
                zeros <= 20,
                base == pow2(zeros as nat) - 1,
            ensures
                spec_ue(old(self).bytes@, old(self).position) == Some((
                    (pow2(zeros as nat) - 1 + bits_value(self.bytes@, self.position, zeros as nat)) as u32,
                    advance(self.position, zeros as int),
                )),
            decreases 21 - zeros,
        {
            let ghost before = self.position;
            let b = self.get(1);
            proof {
                reveal_with_fuel(bits_value, 2);
                assert(advance(before, 0) == before);
            }
            if b != 0 {
                break;
            }
            zeros = zeros + 1;
            if zeros > 20 {
                return None;
            }
            proof {
                lemma_pow2_step((zeros - 1) as nat);
                lemma_pow2_monotone(zeros as nat, 20);
                crate::bitwriter::lemma_pow2_values();
                reveal_with_fuel(pow2, 21);
            }
            base = base * 2 + 1;
        }
        let ghost after = self.position;
        let rest = self.get(zeros);
        proof {
            lemma_bits_value_bound(self.bytes@, after, zeros as nat);
            lemma_pow2_monotone(zeros as nat, 20);
            reveal_with_fuel(pow2, 21);
            reveal(spec_ue);
            lemma_ue_bound(old(self).bytes@, old(self).position, 0);
        }
        Some(base + rest)
    }

    /// Reads a signed Exp-Golomb code.
    pub fn se(&mut self) -> (r: Option<i32>)
        ensures
            final(self).bytes@ == old(self).bytes@,
            r matches Some(v) ==> -0x10_0000 <= v <= 0x10_0000,
            match spec_ue(old(self).bytes@, old(self).position) {
                None => r is None,
                Some((v, p)) => r == Some(signed_of(v)) && final(self).position == p,
            },
    {
        let n = match self.ue() {
            Some(n) => n,
            None => return None,
        };
        proof {
            assert(n <= 0x20_0000) by {
                let p0 = old(self).position;
                reveal(spec_ue);
                lemma_ue_bound(old(self).bytes@, p0, 0);
            }
        }
        if n % 2 == 0 {
            Some(-(n as i32) / 2)
        } else {
            Some((n as i32 + 1) / 2)
        }
    }
}

/// An Exp-Golomb value has at most 20 leading zeros' worth of bits.
pub proof fn lemma_ue_bound(d: Seq<u8>, pos: u64, zeros: nat)
    requires
        zeros <= 20,
    ensures
        ue_scan(d, pos, zeros) matches Some((v, _)) ==> v < 0x20_0000,
    decreases 21 - zeros,
{
    if bit_at(d, pos as int) == 0 {
        if zeros + 1 <= 20 {
            lemma_ue_bound(d, advance(pos, 1), zeros + 1);
        }
    } else {
        let after = advance(pos, 1);
        lemma_bits_value_bound(d, after, zeros);
        lemma_pow2_monotone(zeros, 20);
        reveal_with_fuel(pow2, 21);
    }
}

} // verus!
