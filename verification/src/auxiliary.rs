//! HEVC depth-representation SEI: the flags, representation type, disparity
//! view and the raw sign, exponent and mantissa of each depth value.
use vstd::prelude::*;
use crate::context::ContextError;
use crate::bitwriter::{pow2, lemma_pow2_monotone, lemma_pow2_32};

verus! {

/// Bit `i` of `d`, most significant first; bits past the end read as 0.
pub open spec fn sei_bit(d: Seq<u8>, i: int) -> nat {
    if 0 <= i && i / 8 < d.len() { ((d[i / 8] >> ((7 - i % 8) as u8)) % 2) as nat } else { 0 }
}

/// The `count` bits of `d` from `at` as an unsigned number.
pub open spec fn sei_bits(d: Seq<u8>, at: int, count: nat) -> nat
    decreases count,
{
    if count == 0 { 0 } else { 2 * sei_bits(d, at, (count - 1) as nat) + sei_bit(d, at + count - 1) }
}

/// The leading zero bits from `at` (`z` counted so far), 21 where there are more than 20.
pub open spec fn ue_zeros(d: Seq<u8>, at: int, z: nat) -> nat
    decreases 21 - z,
{
    if z > 20 { z } else if sei_bit(d, at + z) == 1 { z } else { ue_zeros(d, at, z + 1) }
}

/// An Exp-Golomb number from `at` and the position after it; `None` past 20 leading zeros.
pub open spec fn sei_ue(d: Seq<u8>, at: int) -> Option<(nat, int)> {
    let z = ue_zeros(d, at, 0);
    if z > 20 { None } else { Some(((pow2(z) - 1 + sei_bits(d, at + z + 1, z)) as nat, at + 2 * z + 1)) }
}

/// One depth value as written: sign, 7-bit exponent, mantissa length (1..=32) and mantissa.
#[derive(Clone, Copy, Debug, PartialEq, Eq, Structural)]
pub struct DepthElement {
    pub negative: bool,
    pub exponent: u32,
    pub length: u32,
    pub mantissa: u32,
}

/// The depth value at `at` and the position after it.
#[verifier::opaque]
pub open spec fn sei_element(d: Seq<u8>, at: int) -> (DepthElement, int) {
    let length = sei_bits(d, at + 8, 5) + 1;
    (DepthElement {
        negative: sei_bit(d, at) == 1,
        exponent: sei_bits(d, at + 1, 7) as u32,
        length: length as u32,
        mantissa: sei_bits(d, at + 13, length) as u32,
    }, at + 13 + length)
}

/// The depth values of the set flags from `i` on, read from `at`.
pub open spec fn sei_elements(d: Seq<u8>, at: int, flags: Seq<u8>, i: int) -> Seq<Option<DepthElement>>
    decreases 4 - i,
{
    if i < 0 || i >= 4 {
        Seq::empty()
    } else if flags[i] != 0 {
        let (e, next) = sei_element(d, at);
        seq![Some(e)] + sei_elements(d, next, flags, i + 1)
    } else {
        seq![None] + sei_elements(d, at, flags, i + 1)
    }
}

/// A depth representation: the four flags (minimum, maximum, nonlinear
/// and disparity view present), the type, the disparity view and the values.
#[derive(Clone, Copy, Debug)]
pub struct RawDepthInfo {
    pub flags: [u8; 4],
    pub elements: [Option<DepthElement>; 4],
    pub representation_type: i32,
    pub disparity_reference_view: u32,
}

/// Why a depth SEI is refused.
pub enum DepthFailure {
    Short,
    BadType,
    TypeRange,
    BadView,
}

/// The failure of a refused depth SEI.
pub open spec fn depth_failure_parts(f: DepthFailure) -> (i32, i32, Seq<char>) {
    match f {
        DepthFailure::Short => (2i32, 100i32, "Invalid input: "@ + "Unexpected end of file: HEVC SEI NAL too short"@),
        DepthFailure::BadType => (2i32, 2006i32, "Invalid input: "@ + "Invalid parameter value: invalid depth representation type in input"@),
        DepthFailure::TypeRange => (2i32, 2006i32, "Invalid input: "@ + "Invalid parameter value: input depth representation type out of range"@),
        DepthFailure::BadView => (2i32, 2006i32, "Invalid input: "@ + "Invalid parameter value: invalid disparity_reference_view in input"@),
    }
}

/// The depth representation after the SEI headers: flags at bit 96, then the type.
pub open spec fn sei_body(d: Seq<u8>) -> Result<Option<(Seq<u8>, i32, u32, Seq<Option<DepthElement>>)>, DepthFailure> {
    let flags = seq![sei_bit(d, 96) as u8, sei_bit(d, 97) as u8, sei_bit(d, 98) as u8, sei_bit(d, 99) as u8];
    match sei_ue(d, 100) {
        None => Err(DepthFailure::BadType),
        Some((kind, at)) => if kind > 3 {
            Err(DepthFailure::TypeRange)
        } else if flags[2] != 0 || flags[3] != 0 {
            match sei_ue(d, at) {
                None => Err(DepthFailure::BadView),
                Some((view, at2)) => Ok(Some((flags, kind as i32, view as u32, sei_elements(d, at2, flags, 0)))),
            }
        } else {
            Ok(Some((flags, kind as i32, 0u32, sei_elements(d, at, flags, 0))))
        },
    }
}

/// The depth representation of an HEVC SEI NAL unit with a 4-byte length: none
/// unless the length exceeds 4, the NAL type is 39 or 40 and the first
/// payload is of type 177.
pub open spec fn spec_depth_info(d: Seq<u8>) -> Result<Option<(Seq<u8>, i32, u32, Seq<Option<DepthElement>>)>, DepthFailure> {
    if d.len() < 4 {
        Err(DepthFailure::Short)
    } else if sei_bits(d, 0, 32) <= 4 {
        Ok(None)
    } else if d.len() < 9 {
        Err(DepthFailure::Short)
    } else if sei_bits(d, 64, 8) / 2 != 39 && sei_bits(d, 64, 8) / 2 != 40 {
        Ok(None)
    } else if d.len() < 12 {
        Err(DepthFailure::Short)
    } else if sei_bits(d, 80, 8) != 177 {
        Ok(None)
    } else {
        sei_body(d)
    }
}

/// A bit reader that reads zeros past the end.
struct Bits<'a> {
    data: &'a [u8],
    at: usize,
}

impl<'a> Bits<'a> {
    /// Reads `count` bits (at most 32).
    fn get(&mut self, count: usize) -> (r: u32)
        requires
            count <= 32,
            old(self).at <= 100_000,
        ensures
            r == sei_bits(old(self).data@, old(self).at as int, count as nat),
            r < pow2(count as nat),
            final(self).at == old(self).at + count,
            final(self).data == old(self).data,
    {
        let mut n: u64 = 0;
        let mut i: usize = 0;
        let start = self.at;
        while i < count
            invariant
                i <= count <= 32,
                start <= 100_000,
                self.at == start + i,
                self.data == old(self).data,
                start == old(self).at,
                n == sei_bits(self.data@, start as int, i as nat),
                n < pow2(i as nat),
            decreases count - i,
        {
            let byte = self.at / 8;
            let b: u64 = if byte < self.data.len() { ((self.data[byte] >> ((7 - self.at % 8) as u8)) % 2) as u64 } else { 0 };
            proof {
                assert(b == sei_bit(self.data@, start + i));
                assert(sei_bits(self.data@, start as int, (i + 1) as nat) == 2 * n + b);
                lemma_pow2_monotone(i as nat + 1, 32);
                lemma_pow2_32();
            }
            n = 2 * n + b;
            self.at = self.at + 1;
            i = i + 1;
        }
        proof {
            lemma_pow2_monotone(count as nat, 32);
            lemma_pow2_32();
        }
        n as u32
    }

    /// Reads an Exp-Golomb number; `None` past 20 leading zeros.
    fn ue(&mut self) -> (r: Option<u32>)
        requires
            old(self).at <= 50_000,
        ensures
            match sei_ue(old(self).data@, old(self).at as int) {
                Some((v, next)) => r == Some(v as u32) && final(self).at == next && v < 0x20_0000,
                None => r is None,
            },
            final(self).data == old(self).data,
            final(self).at <= old(self).at + 64,
    {
        let start = self.at;
        let mut zeros: usize = 0;
        loop
            invariant_except_break
                self.at == start + zeros,
            invariant
                zeros <= 20,
                start == old(self).at,
                start <= 50_000,
                self.data == old(self).data,
                ue_zeros(self.data@, start as int, 0) == ue_zeros(self.data@, start as int, zeros as nat),
            ensures
                self.at == start + zeros + 1,
                sei_bit(self.data@, start + zeros) == 1,
            decreases 21 - zeros,
        {
            let at = self.at;
            let b = self.get(1);
            assert(sei_bits(self.data@, at as int, 0) == 0);
            if b != 0 {
                break;
            }
            assert(ue_zeros(self.data@, start as int, zeros as nat) == ue_zeros(self.data@, start as int, zeros as nat + 1));
            zeros = zeros + 1;
            if zeros > 20 {
                assert(ue_zeros(self.data@, start as int, 0) == 21);
                return None;
            }
        }
        assert(ue_zeros(self.data@, start as int, zeros as nat) == zeros);
        let rest = self.get(zeros);
        let mut p: u32 = 1;
        let mut k: usize = 0;
        while k < zeros
            invariant
                k <= zeros <= 20,
                p == pow2(k as nat),
                p <= 0x10_0000,
            decreases zeros - k,
        {
            proof {
                lemma_pow2_monotone(k as nat + 1, 20);
                reveal_with_fuel(pow2, 21);
            }
            p = p * 2;
            k = k + 1;
        }
        proof {
            lemma_pow2_monotone(zeros as nat, 20);
            lemma_pow2_monotone(20, 32);
            reveal_with_fuel(pow2, 21);
            lemma_pow2_32();
        }
        Some((p - 1) + rest)
    }

    /// Reads one depth value.
    fn element(&mut self) -> (r: DepthElement)
        requires
            old(self).at <= 50_000,
        ensures
            (r, final(self).at as int) == sei_element(old(self).data@, old(self).at as int),
            final(self).data == old(self).data,
            final(self).at <= old(self).at + 45,
    {
        proof {
            crate::bitwriter::lemma_pow2_values();
            reveal(sei_element);
        }
        let negative = self.get(1) != 0;
        let exponent = self.get(7);
        let length = self.get(5) + 1;
        let mantissa = self.get(length as usize);
        DepthElement { negative, exponent, length, mantissa }
    }
}

/// The view of a raw depth representation: flags, type, view and values.
pub open spec fn raw_view(r: RawDepthInfo) -> (Seq<u8>, i32, u32, Seq<Option<DepthElement>>) {
    (r.flags@, r.representation_type, r.disparity_reference_view, r.elements@)
}

/// Reads the depth value of a set flag; none for a clear one.
fn element_if(bits: &mut Bits, flag: u8) -> (r: Option<DepthElement>)
    requires
        old(bits).at <= 50_000,
    ensures
        flag != 0 ==> r == Some(sei_element(old(bits).data@, old(bits).at as int).0)
            && final(bits).at == sei_element(old(bits).data@, old(bits).at as int).1,
        flag == 0 ==> r is None && final(bits).at == old(bits).at,
        final(bits).data == old(bits).data,
        final(bits).at <= old(bits).at + 45,
{
    if flag != 0 { Some(bits.element()) } else { None }
}

/// The depth representation in an HEVC SEI NAL unit with a 4-byte length.
pub fn depth_info(data: &[u8]) -> (r: Result<Option<RawDepthInfo>, ContextError>)
    ensures
        match spec_depth_info(data@) {
            Ok(None) => r is Ok && r->Ok_0 is None,
            Ok(Some(v)) => r is Ok && r->Ok_0 is Some && raw_view(r->Ok_0->Some_0) == v,
            Err(f) => r is Err && r->Err_0.parts() == depth_failure_parts(f),
        },
{
    if data.len() < 4 {
        return Err(ContextError::invalid(100, "Unexpected end of file: HEVC SEI NAL too short"));
    }
    let mut bits = Bits { data, at: 0 };
    if bits.get(32) <= 4 {
        return Ok(None);
    }
    if data.len() < 9 {
        return Err(ContextError::invalid(100, "Unexpected end of file: HEVC SEI NAL too short"));
    }
    bits.get(32);
    let kind = bits.get(8) / 2;
    bits.get(8);
    if kind != 39 && kind != 40 {
        return Ok(None);
    }
    if data.len() < 12 {
        return Err(ContextError::invalid(100, "Unexpected end of file: HEVC SEI NAL too short"));
    }
    let payload = bits.get(8);
    bits.get(8);
    if payload != 177 {
        return Ok(None);
    }
    read_body(&mut bits)
}

/// Reads the four flags at bit 96.
fn read_flags(bits: &mut Bits) -> (r: [u8; 4])
    requires
        old(bits).at == 96,
    ensures
        r@ == seq![sei_bit(old(bits).data@, 96) as u8, sei_bit(old(bits).data@, 97) as u8,
            sei_bit(old(bits).data@, 98) as u8, sei_bit(old(bits).data@, 99) as u8],
        final(bits).at == 100,
        final(bits).data == old(bits).data,
{
    let ghost d = bits.data@;
    let f0 = bits.get(1) as u8;
    let f1 = bits.get(1) as u8;
    let f2 = bits.get(1) as u8;
    let f3 = bits.get(1) as u8;
    let flags: [u8; 4] = [f0, f1, f2, f3];
    proof {
        assert(sei_bits(d, 96, 0) == 0);
        assert(sei_bits(d, 97, 0) == 0);
        assert(sei_bits(d, 98, 0) == 0);
        assert(sei_bits(d, 99, 0) == 0);
        assert(flags@ =~= seq![sei_bit(d, 96) as u8, sei_bit(d, 97) as u8, sei_bit(d, 98) as u8, sei_bit(d, 99) as u8]);
    }
    flags
}

/// Reads the depth values of the set flags.
fn read_elements(bits: &mut Bits, flags: &[u8; 4]) -> (r: [Option<DepthElement>; 4])
    requires
        old(bits).at <= 10_000,
    ensures
        r@ == sei_elements(old(bits).data@, old(bits).at as int, flags@, 0),
{
    let ghost d = bits.data@;
    let at0 = bits.at;
    let e0 = element_if(bits, flags[0]);
    let at1 = bits.at;
    let e1 = element_if(bits, flags[1]);
    let at2 = bits.at;
    let e2 = element_if(bits, flags[2]);
    let at3 = bits.at;
    let e3 = element_if(bits, flags[3]);
    let elements: [Option<DepthElement>; 4] = [e0, e1, e2, e3];
    proof {
        let fl = flags@;
        assert(sei_elements(d, at3 as int, fl, 4) =~= Seq::<Option<DepthElement>>::empty());
        assert(sei_elements(d, sei_element(d, at3 as int).1, fl, 4) =~= Seq::<Option<DepthElement>>::empty());
        assert(sei_elements(d, at3 as int, fl, 3) =~= seq![e3]);
        assert(sei_elements(d, at2 as int, fl, 2) =~= seq![e2, e3]);
        assert(sei_elements(d, at1 as int, fl, 1) =~= seq![e1, e2, e3]);
        assert(sei_elements(d, at0 as int, fl, 0) =~= elements@);
    }
    elements
}

/// Reads the depth representation after the SEI headers (from bit 96).
fn read_body(bits: &mut Bits) -> (r: Result<Option<RawDepthInfo>, ContextError>)
    requires
        old(bits).at == 96,
    ensures
        match sei_body(old(bits).data@) {
            Ok(None) => r is Ok && r->Ok_0 is None,
            Ok(Some(v)) => r is Ok && r->Ok_0 is Some && raw_view(r->Ok_0->Some_0) == v,
            Err(f) => r is Err && r->Err_0.parts() == depth_failure_parts(f),
        },
{
    let flags = read_flags(bits);
    let f2 = flags[2];
    let f3 = flags[3];
    let kind = match bits.ue() {
        Some(v) => v,
        None => return Err(ContextError::invalid(2006, "Invalid parameter value: invalid depth representation type in input")),
    };
    if kind > 3 {
        return Err(ContextError::invalid(2006, "Invalid parameter value: input depth representation type out of range"));
    }
    let mut view: u32 = 0;
    if f2 != 0 || f3 != 0 {
        view = match bits.ue() {
            Some(v) => v,
            None => return Err(ContextError::invalid(2006, "Invalid parameter value: invalid disparity_reference_view in input")),
        };
    }
    let elements = read_elements(bits, &flags);
    Ok(Some(RawDepthInfo { flags, elements, representation_type: kind as i32, disparity_reference_view: view }))
}

} // verus!
