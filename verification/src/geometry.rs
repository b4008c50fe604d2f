//! Fractions and clean-aperture (`clap`) cropping.
use vstd::prelude::*;
use crate::bytes::{be_at, read_be32};
use crate::context::ContextError;

verus! {

/// `a / b` rounded toward zero (`b` positive), as integer division does.
pub open spec fn tdiv(a: int, b: int) -> int {
    if a >= 0 { a / b } else { -((-a) / b) }
}

/// Whether `x` fits a 32-bit signed integer.
pub open spec fn fits32(x: int) -> bool {
    i32::MIN <= x <= i32::MAX
}

/// `|x|`.
pub open spec fn abs(x: int) -> int {
    if x < 0 { -x } else { x }
}

/// Halves a fraction read from a file until its denominator lies in
/// -65536..=65536.
pub open spec fn shrink_denominator(n: int, d: int) -> (int, int)
    decreases abs(d),
{
    if -65536 <= d <= 65536 {
        (n, d)
    } else {
        shrink_denominator(tdiv(n, 2), tdiv(d, 2))
    }
}

/// Halves a fraction read from a file until its numerator lies in
/// -65536..=65536 or its denominator drops to 1.
pub open spec fn shrink_numerator(n: int, d: int) -> (int, int)
    decreases abs(n),
{
    if !(d > 1 && (n < -65536 || n > 65536)) {
        (n, d)
    } else {
        shrink_numerator(tdiv(n, 2), tdiv(d, 2))
    }
}

/// Why a fraction read from a file is refused.
pub enum FractionFailure {
    /// A part outside 32-bit range.
    Range,
    /// A zero denominator.
    Zero,
}

/// A fraction read from a file: both parts in 32-bit range, reduced in
/// precision by halving, with a nonzero denominator.
pub open spec fn spec_external(n: int, d: int) -> Result<(int, int), FractionFailure> {
    if !fits32(n) || !fits32(d) {
        Err(FractionFailure::Range)
    } else {
        let (a, b) = shrink_denominator(n, d);
        let (x, y) = shrink_numerator(a, b);
        if y == 0 { Err(FractionFailure::Zero) } else { Ok((x, y)) }
    }
}

/// Halves `x`, rounding away from zero.
pub open spec fn halve_away(x: int) -> int {
    tdiv(x + (if x >= 0 { 1int } else { -1int }), 2)
}

/// The fraction of an arithmetic result: halved (away from zero) until both
/// parts fit 32 bits.
pub open spec fn arith(n: int, d: int) -> (int, int)
    decreases abs(n) + abs(d),
{
    if fits32(n) && fits32(d) {
        (n, d)
    } else {
        arith(halve_away(n), halve_away(d))
    }
}

/// A fraction with both parts in 32-bit range and a positive denominator.
#[derive(Clone, Copy)]
pub struct Fraction {
    pub n: i64,
    pub d: i64,
}

impl Fraction {
    /// Both parts in 32-bit range, the denominator positive.
    pub open spec fn wf(&self) -> bool {
        fits32(self.n as int) && fits32(self.d as int) && self.d > 0
    }

    /// The parts.
    pub open spec fn parts(&self) -> (int, int) {
        (self.n as int, self.d as int)
    }
}

/// `a + b` of two fractions.
pub open spec fn spec_add(a: (int, int), b: (int, int)) -> (int, int) {
    if a.1 == b.1 { arith(a.0 + b.0, a.1) } else { arith(a.0 * b.1 + b.0 * a.1, a.1 * b.1) }
}

/// `a - b` of two fractions.
pub open spec fn spec_sub(a: (int, int), b: (int, int)) -> (int, int) {
    if a.1 == b.1 { arith(a.0 - b.0, a.1) } else { arith(a.0 * b.1 - b.0 * a.1, a.1 * b.1) }
}

/// `a + k` of a fraction and an integer.
pub open spec fn spec_integer(a: (int, int), k: int) -> (int, int) {
    arith(a.0 + k * a.1, a.1)
}

/// `a / 2`.
pub open spec fn spec_half(a: (int, int)) -> (int, int) {
    arith(a.0, a.1 * 2)
}

/// A fraction's integer part.
pub open spec fn spec_trunc(a: (int, int)) -> int {
    tdiv(a.0, a.1)
}

/// A fraction rounded as `(n + d / 2) / d`.
pub open spec fn spec_round(a: (int, int)) -> int {
    tdiv(a.0 + a.1 / 2, a.1)
}

/// Integer division of `a` by a positive `b`.
fn div_trunc(a: i64, b: i64) -> (r: i64)
    requires
        b > 0,
    ensures
        r == tdiv(a as int, b as int),
{
    a / b
}

/// `|tdiv(x, 2)|` is at most `|x|`, less where `|x| > 1`.
proof fn lemma_tdiv2(x: int)
    ensures
        abs(tdiv(x, 2)) <= abs(x),
        abs(x) > 1 ==> abs(tdiv(x, 2)) < abs(x),
        x >= 0 ==> tdiv(x, 2) >= 0,
        x > 1 ==> tdiv(x, 2) >= 1,
{
}

/// `|halve_away(x)|` is at most `|x|`, less where `|x| > 1`; positive stays positive.
proof fn lemma_halve_away(x: int)
    ensures
        abs(halve_away(x)) <= abs(x),
        abs(x) > 1 ==> abs(halve_away(x)) < abs(x),
        x >= 1 ==> halve_away(x) >= 1,
{
}

/// The failure of a refused file fraction (128).
pub open spec fn fraction_failure_parts(f: FractionFailure) -> (i32, i32, Seq<char>) {
    match f {
        FractionFailure::Range => (2i32, 128i32, "Invalid input: "@
            + "Invalid fractional number: Fraction value exceeds the supported range"@),
        FractionFailure::Zero => (2i32, 128i32, "Invalid input: "@ + "Invalid fractional number: Fraction with zero denominator"@),
    }
}

impl Fraction {
    /// A fraction read from a file (a non-negative denominator).
    pub fn external(n: i64, d: i64) -> (r: Result<Fraction, ContextError>)
        requires
            d >= 0,
        ensures
            match spec_external(n as int, d as int) {
                Ok(v) => r is Ok && r->Ok_0.parts() == v && r->Ok_0.wf(),
                Err(f) => r is Err && r->Err_0.parts() == fraction_failure_parts(f),
            },
    {
        if n < -0x8000_0000 || n > 0x7fff_ffff || d < -0x8000_0000 || d > 0x7fff_ffff {
            return Err(ContextError::invalid(128, "Invalid fractional number: Fraction value exceeds the supported range"));
        }
        let mut a = n;
        let mut b = d;
        while b < -65536 || b > 65536
            invariant
                fits32(a as int),
                fits32(b as int),
                b >= 0,
                shrink_denominator(n as int, d as int) == shrink_denominator(a as int, b as int),
            decreases abs(b as int),
        {
            proof {
                lemma_tdiv2(a as int);
                lemma_tdiv2(b as int);
            }
            a = div_trunc(a, 2);
            b = div_trunc(b, 2);
        }
        while b > 1 && (a < -65536 || a > 65536)
            invariant
                fits32(a as int),
                fits32(b as int),
                b >= 0,
                shrink_numerator(shrink_denominator(n as int, d as int).0, shrink_denominator(n as int, d as int).1)
                    == shrink_numerator(a as int, b as int),
            decreases abs(a as int),
        {
            proof {
                lemma_tdiv2(a as int);
                lemma_tdiv2(b as int);
            }
            a = div_trunc(a, 2);
            b = div_trunc(b, 2);
        }
        if b == 0 {
            return Err(ContextError::invalid(128, "Invalid fractional number: Fraction with zero denominator"));
        }
        Ok(Fraction { n: a, d: b })
    }

    /// The fraction of an arithmetic result, halved until both parts fit 32 bits.
    pub fn arithmetic(n: i64, d: i64) -> (r: Fraction)
        requires
            i64::MIN < n < i64::MAX,
            1 <= d < i64::MAX,
        ensures
            r.parts() == arith(n as int, d as int),
            r.wf(),
    {
        let mut a = n;
        let mut b = d;
        while a < -0x8000_0000 || a > 0x7fff_ffff || b < -0x8000_0000 || b > 0x7fff_ffff
            invariant
                i64::MIN < a < i64::MAX,
                1 <= b < i64::MAX,
                arith(n as int, d as int) == arith(a as int, b as int),
            decreases abs(a as int) + abs(b as int),
        {
            proof {
                lemma_halve_away(a as int);
                lemma_halve_away(b as int);
            }
            a = div_trunc(a + if a >= 0 { 1 } else { -1 }, 2);
            b = div_trunc(b + if b >= 0 { 1 } else { -1 }, 2);
        }
        Fraction { n: a, d: b }
    }

    /// `self + b`.
    pub fn add(self, b: Fraction) -> (r: Fraction)
        requires
            self.wf(),
            b.wf(),
        ensures
            r.parts() == spec_add(self.parts(), b.parts()),
            r.wf(),
    {
        if self.d == b.d {
            Fraction::arithmetic(self.n + b.n, self.d)
        } else {
            proof {
                lemma_products(self, b);
            }
            Fraction::arithmetic(self.n * b.d + b.n * self.d, self.d * b.d)
        }
    }

    /// `self - b`.
    pub fn sub(self, b: Fraction) -> (r: Fraction)
        requires
            self.wf(),
            b.wf(),
        ensures
            r.parts() == spec_sub(self.parts(), b.parts()),
            r.wf(),
    {
        if self.d == b.d {
            Fraction::arithmetic(self.n - b.n, self.d)
        } else {
            proof {
                lemma_products(self, b);
            }
            Fraction::arithmetic(self.n * b.d - b.n * self.d, self.d * b.d)
        }
    }

    /// `self + k`.
    pub fn integer(self, k: i64) -> (r: Fraction)
        requires
            self.wf(),
            -0x1_0000_0000 <= k <= 0x1_0000_0000,
        ensures
            r.parts() == spec_integer(self.parts(), k as int),
            r.wf(),
    {
        proof {
            let (kk, d) = (k as int, self.d as int);
            assert(-0x1_0000_0000 * 0x7fff_ffff <= kk * d <= 0x1_0000_0000 * 0x7fff_ffff) by (nonlinear_arith)
                requires -0x1_0000_0000 <= kk <= 0x1_0000_0000, 1 <= d <= 0x7fff_ffff;
        }
        Fraction::arithmetic(self.n + k * self.d, self.d)
    }

    /// `self / 2`.
    pub fn half(self) -> (r: Fraction)
        requires
            self.wf(),
        ensures
            r.parts() == spec_half(self.parts()),
            r.wf(),
    {
        Fraction::arithmetic(self.n, self.d * 2)
    }

    /// The integer part.
    pub fn trunc(self) -> (r: i64)
        requires
            self.wf(),
        ensures
            r == spec_trunc(self.parts()),
            fits32(r as int),
    {
        div_trunc(self.n, self.d)
    }

    /// Rounded as `(n + d / 2) / d`.
    pub fn round(self) -> (r: i64)
        requires
            self.wf(),
        ensures
            r == spec_round(self.parts()),
            -0x1_0000_0000 <= r <= 0x1_0000_0000,
    {
        let half = div_trunc(self.d, 2);
        let x = self.n + half;
        proof {
            lemma_tdiv_shrinks(x as int, self.d as int);
        }
        div_trunc(x, self.d)
    }
}

/// Division by a positive number does not grow a magnitude.
proof fn lemma_tdiv_shrinks(x: int, d: int)
    requires
        d >= 1,
    ensures
        abs(tdiv(x, d)) <= abs(x),
{
    if x >= 0 {
        assert(0 <= x / d <= x) by (nonlinear_arith) requires x >= 0, d >= 1;
    } else {
        let y = -x;
        assert(0 <= y / d <= y) by (nonlinear_arith) requires y >= 0, d >= 1;
    }
}

/// The products of two fractions' parts stay within 62 bits.
proof fn lemma_products(a: Fraction, b: Fraction)
    requires
        a.wf(),
        b.wf(),
    ensures
        -0x4000_0000_0000_0000 < a.n * b.d < 0x4000_0000_0000_0000,
        -0x4000_0000_0000_0000 < b.n * a.d < 0x4000_0000_0000_0000,
        1 <= a.d * b.d < 0x4000_0000_0000_0000,
{
    let (an, ad, bn, bd) = (a.n as int, a.d as int, b.n as int, b.d as int);
    assert(-0x4000_0000_0000_0000 < an * bd < 0x4000_0000_0000_0000) by (nonlinear_arith)
        requires -0x8000_0000 <= an <= 0x7fff_ffff, 1 <= bd <= 0x7fff_ffff;
    assert(-0x4000_0000_0000_0000 < bn * ad < 0x4000_0000_0000_0000) by (nonlinear_arith)
        requires -0x8000_0000 <= bn <= 0x7fff_ffff, 1 <= ad <= 0x7fff_ffff;
    assert(1 <= ad * bd < 0x4000_0000_0000_0000) by (nonlinear_arith)
        requires 1 <= ad <= 0x7fff_ffff, 1 <= bd <= 0x7fff_ffff;
}

/// The big-endian 32-bit word at `i`, or 0 where fewer than four bytes remain.
pub open spec fn word_at(p: Seq<u8>, i: int) -> int {
    if i + 4 <= p.len() { be_at(p, i, 4) as int } else { 0 }
}

/// A 32-bit word read as a two's-complement signed number.
pub open spec fn signed_word(v: int) -> int {
    if v >= 0x8000_0000 { v - 0x1_0000_0000 } else { v }
}

/// The four fractions of a clean aperture: width, height, horizontal and
/// vertical offset.
pub type ApertureParts = ((int, int), (int, int), (int, int), (int, int));

/// A `clap` body read as four fractions; the first refused one decides.
pub open spec fn spec_aperture(p: Seq<u8>) -> Result<ApertureParts, FractionFailure> {
    let w = spec_external(word_at(p, 0), word_at(p, 4));
    let h = spec_external(word_at(p, 8), word_at(p, 12));
    let x = spec_external(signed_word(word_at(p, 16)), word_at(p, 20));
    let y = spec_external(signed_word(word_at(p, 24)), word_at(p, 28));
    if w is Err {
        Err(w->Err_0)
    } else if h is Err {
        Err(h->Err_0)
    } else if x is Err {
        Err(x->Err_0)
    } else if y is Err {
        Err(y->Err_0)
    } else {
        Ok((w->Ok_0, h->Ok_0, x->Ok_0, y->Ok_0))
    }
}

/// Why a clean aperture cannot be applied.
pub enum ApertureFailure {
    /// The image has a zero dimension.
    ZeroSize,
    /// The image is larger than 2^31 pixels in a direction.
    TooLarge,
    /// The aperture leaves no pixel.
    Empty,
}

/// The failure of an aperture that cannot be applied (120).
pub open spec fn aperture_failure_parts(f: ApertureFailure) -> (i32, i32, Seq<char>) {
    match f {
        ApertureFailure::ZeroSize => (2i32, 120i32, "Invalid input: "@
            + "Invalid clean-aperture specification: Clean aperture cannot be applied to an image with zero size"@),
        ApertureFailure::TooLarge => (2i32, 120i32, "Invalid input: "@
            + "Invalid clean-aperture specification: Clean aperture cannot be applied to an image larger than 2^31 pixels in any direction"@),
        ApertureFailure::Empty => (2i32, 120i32, "Invalid input: "@ + "Invalid clean-aperture specification"@),
    }
}

/// The first column of the aperture: the centre plus half the image, less half
/// the aperture, truncated.
pub open spec fn crop_left(c: ApertureParts, hw: (int, int)) -> int {
    let centre = spec_add(c.2, hw);
    spec_trunc(spec_sub(centre, spec_half(spec_integer(c.0, -1))))
}

/// The first row of the aperture, rounded.
pub open spec fn crop_top(c: ApertureParts, hh: (int, int)) -> int {
    let centre = spec_add(c.3, hh);
    spec_round(spec_sub(centre, spec_half(spec_integer(c.1, -1))))
}

/// The last column or row: the first plus the aperture size less one, rounded.
pub open spec fn crop_end(size: (int, int), first: int) -> int {
    spec_round(spec_integer(spec_integer(size, -1), first))
}

/// The aperture's (left, right, top, bottom) on a `width` x `height` image,
/// before clamping to the image.
pub open spec fn spec_unclamped(c: ApertureParts, width: int, height: int) -> Result<(int, int, int, int), ApertureFailure> {
    if width == 0 || height == 0 {
        Err(ApertureFailure::ZeroSize)
    } else {
        let hw = spec_external(width - 1, 2);
        let hh = spec_external(height - 1, 2);
        if hw is Err || hh is Err {
            Err(ApertureFailure::TooLarge)
        } else {
            let left = crop_left(c, hw->Ok_0);
            let top = crop_top(c, hh->Ok_0);
            Ok((left, crop_end(c.0, left), top, crop_end(c.1, top)))
        }
    }
}

/// The last index kept: `end` unless it lies outside `0..size`, where it is `size - 1`.
pub open spec fn clamp_end(end: int, size: int) -> int {
    if end < 0 || end >= size { size - 1 } else { end }
}

/// The aperture clamped to the image: (left, right, top, bottom), refused where
/// it leaves no pixel.
pub open spec fn spec_crop(c: ApertureParts, width: int, height: int) -> Result<(int, int, int, int), ApertureFailure> {
    match spec_unclamped(c, width, height) {
        Err(f) => Err(f),
        Ok(e) => {
            let left = if e.0 < 0 { 0 } else { e.0 };
            let top = if e.2 < 0 { 0 } else { e.2 };
            let right = clamp_end(e.1, width);
            let bottom = clamp_end(e.3, height);
            if left > right || top > bottom {
                Err(ApertureFailure::Empty)
            } else {
                Ok((left, right, top, bottom))
            }
        }
    }
}

/// A clean aperture (`clap`): the size and centre offset of the part of an
/// image to show.
pub struct CleanAperture {
    pub width: Fraction,
    pub height: Fraction,
    pub horizontal: Fraction,
    pub vertical: Fraction,
}

impl CleanAperture {
    /// Each fraction well formed.
    pub open spec fn wf(&self) -> bool {
        self.width.wf() && self.height.wf() && self.horizontal.wf() && self.vertical.wf()
    }

    /// The four fractions.
    pub open spec fn parts(&self) -> ApertureParts {
        (self.width.parts(), self.height.parts(), self.horizontal.parts(), self.vertical.parts())
    }
}

/// The big-endian word at `i`, or 0 where fewer than four bytes remain.
fn word(p: &[u8], i: usize) -> (r: u32)
    requires
        i <= 28,
    ensures
        r as int == word_at(p@, i as int),
{
    if p.len() >= 4 && i <= p.len() - 4 {
        read_be32(p, i)
    } else {
        0
    }
}

/// A word read as a signed 32-bit number.
fn signed(v: u32) -> (r: i64)
    ensures
        r as int == signed_word(v as int),
{
    if v >= 0x8000_0000 { v as i64 - 0x1_0000_0000 } else { v as i64 }
}

impl CleanAperture {
    /// Reads a `clap` body: width, height, horizontal and vertical offset, each a
    /// numerator and denominator word; a missing word reads as 0.
    pub fn parse(p: &[u8]) -> (r: Result<CleanAperture, ContextError>)
        ensures
            match spec_aperture(p@) {
                Ok(v) => r is Ok && r->Ok_0.parts() == v && r->Ok_0.wf(),
                Err(f) => r is Err && r->Err_0.parts() == fraction_failure_parts(f),
            },
    {
        let width = match Fraction::external(word(p, 0) as i64, word(p, 4) as i64) {
            Ok(v) => v,
            Err(e) => return Err(e),
        };
        let height = match Fraction::external(word(p, 8) as i64, word(p, 12) as i64) {
            Ok(v) => v,
            Err(e) => return Err(e),
        };
        let horizontal = match Fraction::external(signed(word(p, 16)), word(p, 20) as i64) {
            Ok(v) => v,
            Err(e) => return Err(e),
        };
        let vertical = match Fraction::external(signed(word(p, 24)), word(p, 28) as i64) {
            Ok(v) => v,
            Err(e) => return Err(e),
        };
        Ok(CleanAperture { width, height, horizontal, vertical })
    }

    /// The aperture's size, each fraction rounded.
    pub fn dimensions(&self) -> (r: (u32, u32))
        requires
            self.wf(),
        ensures
            r.0 == spec_round(self.width.parts()) as u32,
            r.1 == spec_round(self.height.parts()) as u32,
    {
        (self.width.round() as u32, self.height.round() as u32)
    }

    /// The aperture's (left, right, top, bottom) on a `width` x `height` image,
    /// before clamping.
    pub fn unclamped_crop(&self, width: u32, height: u32) -> (r: Result<(i64, i64, i64, i64), ContextError>)
        requires
            self.wf(),
        ensures
            match spec_unclamped(self.parts(), width as int, height as int) {
                Ok(e) => r is Ok && r->Ok_0.0 == e.0 && r->Ok_0.1 == e.1 && r->Ok_0.2 == e.2 && r->Ok_0.3 == e.3,
                Err(f) => r is Err && r->Err_0.parts() == aperture_failure_parts(f),
            },
    {
        if width == 0 || height == 0 {
            return Err(ContextError::invalid(
                120,
                "Invalid clean-aperture specification: Clean aperture cannot be applied to an image with zero size",
            ));
        }
        let half_width = Fraction::external(width as i64 - 1, 2);
        let half_height = Fraction::external(height as i64 - 1, 2);
        let (half_width, half_height) = match (half_width, half_height) {
            (Ok(a), Ok(b)) => (a, b),
            _ => {
                return Err(ContextError::invalid(
                    120,
                    "Invalid clean-aperture specification: Clean aperture cannot be applied to an image larger than 2^31 pixels in any direction",
                ));
            }
        };
        let span_w = self.width.integer(-1).half();
        let left = self.horizontal.add(half_width).sub(span_w).trunc();
        let span_h = self.height.integer(-1).half();
        let top = self.vertical.add(half_height).sub(span_h).round();
        let right = self.width.integer(-1).integer(left).round();
        let bottom = self.height.integer(-1).integer(top).round();
        Ok((left, right, top, bottom))
    }

    /// The aperture clamped to a `width` x `height` image: (left, right, top,
    /// bottom), refused where it leaves no pixel.
    pub fn crop(&self, width: u32, height: u32) -> (r: Result<(u32, u32, u32, u32), ContextError>)
        requires
            self.wf(),
        ensures
            match spec_crop(self.parts(), width as int, height as int) {
                Ok(e) => r is Ok && r->Ok_0.0 == e.0 && r->Ok_0.1 == e.1 && r->Ok_0.2 == e.2 && r->Ok_0.3 == e.3,
                Err(f) => r is Err && r->Err_0.parts() == aperture_failure_parts(f),
            },
    {
        let (left, right, top, bottom) = match self.unclamped_crop(width, height) {
            Ok(e) => e,
            Err(e) => return Err(e),
        };
        let left = if left < 0 { 0 } else { left };
        let top = if top < 0 { 0 } else { top };
        let right = if right < 0 || right >= width as i64 { width as i64 - 1 } else { right };
        let bottom = if bottom < 0 || bottom >= height as i64 { height as i64 - 1 } else { bottom };
        if left > right || top > bottom {
            return Err(ContextError::invalid(120, "Invalid clean-aperture specification"));
        }
        Ok((left as u32, right as u32, top as u32, bottom as u32))
    }
}

} // verus!
