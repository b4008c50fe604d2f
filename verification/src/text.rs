//! Diagnostic text with decimal numbers.
use vstd::prelude::*;
use vstd::string::*;

verus! {

/// The ASCII decimal digit for `d` (0..=9).
pub open spec fn digit(d: nat) -> char {
    (48 + d) as char
}

/// The shortest decimal representation of `n`.
pub open spec fn decimal(n: nat) -> Seq<char>
    decreases n,
{
    if n < 10 {
        seq![digit(n)]
    } else {
        decimal(n / 10).push(digit(n % 10))
    }
}

/// The one-character text of a decimal digit.
fn digit_text(d: u64) -> (r: &'static str)
    requires
        d < 10,
    ensures
        r@ == seq![digit(d as nat)],
{
    proof {
        reveal_strlit("0");
        reveal_strlit("1");
        reveal_strlit("2");
        reveal_strlit("3");
        reveal_strlit("4");
        reveal_strlit("5");
        reveal_strlit("6");
        reveal_strlit("7");
        reveal_strlit("8");
        reveal_strlit("9");
    }
    if d == 0 {
        "0"
    } else if d == 1 {
        "1"
    } else if d == 2 {
        "2"
    } else if d == 3 {
        "3"
    } else if d == 4 {
        "4"
    } else if d == 5 {
        "5"
    } else if d == 6 {
        "6"
    } else if d == 7 {
        "7"
    } else if d == 8 {
        "8"
    } else {
        "9"
    }
}

/// Appends `n` in decimal.
fn push_decimal(r: &mut String, n: u64)
    ensures
        final(r)@ == old(r)@ + decimal(n as nat),
    decreases n,
{
    if n >= 10 {
        push_decimal(r, n / 10);
    }
    r.append(digit_text(n % 10));
    assert(r@ =~= old(r)@ + decimal(n as nat));
}

/// A text, a number in decimal and a text, joined.
pub fn join_number(before: &str, n: u64, after: &str) -> (r: String)
    ensures
        r@ == before@ + decimal(n as nat) + after@,
{
    let mut r = String::from_str(before);
    push_decimal(&mut r, n);
    r.append(after);
    r
}

/// The four bytes of a fourcc, most significant first.
pub open spec fn fourcc_bytes(kind: u32) -> Seq<u8> {
    seq![(kind / 0x1000000) as u8, (kind / 0x10000 % 0x100) as u8, (kind / 0x100 % 0x100) as u8, (kind % 0x100) as u8]
}

/// Whether every byte of a fourcc is ASCII.
pub open spec fn ascii_fourcc(kind: u32) -> bool {
    forall|i: int| 0 <= i < 4 ==> #[trigger] fourcc_bytes(kind)[i] < 128
}

/// The characters of an all-ASCII fourcc.
pub open spec fn fourcc_chars(kind: u32) -> Seq<char> {
    fourcc_bytes(kind).map_values(|b: u8| b as char)
}

/// `String::from_utf8_lossy`: ASCII bytes become the same characters; the
/// replacement characters it puts for other bytes are not stated.
#[verifier::external_body]
fn lossy_text(bytes: &[u8]) -> (r: String)
    ensures
        (forall|i: int| 0 <= i < bytes@.len() ==> #[trigger] bytes@[i] < 128) ==> r@ == bytes@.map_values(
            |b: u8| b as char,
        ),
{
    String::from_utf8_lossy(bytes).into_owned()
}

/// A text, a fourcc read as text (lossily where a byte is not ASCII), and a
/// text, joined. For an ASCII fourcc the result is the three pieces joined.
pub fn join_fourcc(before: &str, kind: u32, after: &str) -> (r: String)
    ensures
        ascii_fourcc(kind) ==> r@ == before@ + fourcc_chars(kind) + after@,
{
    let bytes: [u8; 4] = [(kind / 0x1000000) as u8, (kind / 0x10000 % 0x100) as u8, (kind / 0x100 % 0x100) as u8,
        (kind % 0x100) as u8];
    assert(bytes@ =~= fourcc_bytes(kind));
    let text = lossy_text(&bytes);
    let mut r = String::from_str(before);
    r.append(text.as_str());
    r.append(after);
    r
}

} // verus!
