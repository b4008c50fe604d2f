//! The AVC decoder plugin's conversion of length-prefixed NAL units into an
//! Annex B byte stream, with its start-code emulation handling.
use vstd::prelude::*;
use crate::bytes::{be_at, read_be32};
use crate::context::ContextError;

verus! {

/// A decoder-plugin failure (code 7) with the plugin's message.
pub fn plugin_error(subcode: i32, message: &str) -> (r: ContextError)
    ensures
        r.parts() == (7i32, subcode, "Decoder plugin generated an error: "@ + message@),
{
    ContextError::owned(7, subcode, crate::context::join_text("Decoder plugin generated an error: ", message))
}

/// The failure the plugin reports when the decoder rejects the stream.
pub fn decoder_error() -> (r: ContextError)
    ensures
        r.parts() == (7i32, 0i32, "Decoder plugin generated an error: "@ + "OpenH264 decoder error"@),
{
    plugin_error(0, "OpenH264 decoder error")
}

/// How many times the plugin's emulation check fires at the start of a unit of
/// `size` bytes at `at`: each time the unit (still longer than three bytes)
/// starts with 00 00 0x, x <= 3.
pub open spec fn emulation_count(input: Seq<u8>, at: int, size: int) -> nat
    decreases size,
{
    if size > 3 && at + 2 < input.len() && input[at] == 0 && input[at + 1] == 0 && input[at + 2] <= 3 {
        1 + emulation_count(input, at + 2, size - 2)
    } else {
        0
    }
}

/// `k` copies of the bytes 00 00 03.
pub open spec fn emulation_bytes(k: nat) -> Seq<u8>
    decreases k,
{
    if k == 0 { Seq::empty() } else { emulation_bytes((k - 1) as nat) + seq![0u8, 0, 3] }
}

/// The Annex B stream for the units from `idx` on, or the failing subcode.
pub open spec fn annex_b_from(input: Seq<u8>, idx: int) -> Result<Seq<u8>, i32>
    decreases input.len() - idx,
{
    if idx >= input.len() || idx < 0 {
        Ok(Seq::empty())
    } else if input.len() - 4 < idx {
        Err(100)
    } else {
        let size = be_at(input, idx, 4) as int;
        let start = idx + 4;
        if input.len() < size || input.len() - size < start {
            Err(100)
        } else {
            let k = emulation_count(input, start, size);
            let at = start + 2 * k;
            let left = size - 2 * k;
            if left <= 0 {
                Err(2006)
            } else {
                match annex_b_from(input, at + left) {
                    Err(e) => Err(e),
                    Ok(rest) => Ok(seq![0u8, 0, 1] + emulation_bytes(k) + input.subrange(at, at + left) + rest),
                }
            }
        }
    }
}

proof fn lemma_emulation_bounds(input: Seq<u8>, at: int, size: int)
    requires
        size >= 0,
    ensures
        2 * emulation_count(input, at, size) <= size,
        emulation_count(input, at, size) > 0 ==> size - 2 * emulation_count(input, at, size) >= 2,
    decreases size,
{
    if size > 3 && at + 2 < input.len() && input[at] == 0 && input[at + 1] == 0 && input[at + 2] <= 3 {
        lemma_emulation_bounds(input, at + 2, size - 2);
    }
}

/// Converts four-byte length-prefixed NAL units to an Annex B stream the way
/// the plugin does, including its check that only inspects the first bytes of
/// each unit.
pub fn annex_b(input: &[u8]) -> (r: Result<Vec<u8>, ContextError>)
    requires
        input@.len() == 0 || input@.len() >= 4,
    ensures
        match annex_b_from(input@, 0) {
            Ok(s) => r is Ok && r->Ok_0@ == s,
            Err(sub) => r is Err && r->Err_0.codes() == (7i32, sub),
        },
{
    let mut out: Vec<u8> = Vec::new();
    let mut idx: usize = 0;
    while idx < input.len()
        invariant
            input@.len() == 0 || input@.len() >= 4,
            idx <= input@.len(),
            annex_b_from(input@, 0) == match annex_b_from(input@, idx as int) {
                Ok(t) => Ok(out@ + t),
                Err(e) => Err(e),
            },
        decreases input@.len() - idx,
    {
        if input.len() - 4 < idx {
            return Err(plugin_error(100, "Insufficient input data"));
        }
        let mut size = read_be32(input, idx) as usize;
        let ghost unit_size = size as int;
        idx = idx + 4;
        let ghost start = idx as int;
        if input.len() < size || input.len() - size < idx {
            return Err(plugin_error(100, "Insufficient input data"));
        }
        let ghost before = out@;
        out.push(0);
        out.push(0);
        out.push(1);
        let ghost k0 = emulation_count(input@, start, unit_size);
        proof {
            lemma_emulation_bounds(input@, start, unit_size);
        }
        let mut check = true;
        while check && size >= 3
            invariant
                idx + size <= input@.len(),
                start + unit_size <= input@.len(),
                idx as int - start >= 0,
                (idx as int - start) % 2 == 0,
                idx as int + size == start + unit_size,
                check ==> emulation_count(input@, start, unit_size) == (idx as int - start) / 2 + emulation_count(input@, idx as int, size as int),
                !check ==> emulation_count(input@, start, unit_size) == (idx as int - start) / 2,
                out@ == before + seq![0u8, 0, 1] + emulation_bytes(((idx as int - start) / 2) as nat),
            decreases size + (if check { 1int } else { 0int }),
        {
            check = false;
            if size > 3 && input[idx] == 0 && input[idx + 1] == 0 && input[idx + 2] <= 3 {
                let ghost done = ((idx as int - start) / 2) as nat;
                out.push(0);
                out.push(0);
                out.push(3);
                proof {
                    assert(emulation_bytes(done + 1) == emulation_bytes(done) + seq![0u8, 0, 3]);
                    assert(out@ =~= before + seq![0u8, 0, 1] + emulation_bytes(done + 1));
                }
                idx = idx + 2;
                size = size - 2;
                check = true;
            }
        }
        if size == 0 {
            return Err(plugin_error(2006, "Invalid input data"));
        }
        let ghost mid = out@;
        let len = input.len();
        let mut i: usize = 0;
        while i < size
            invariant
                idx + size <= input@.len(),
                len == input@.len(),
                i <= size,
                out@ == mid + input@.subrange(idx as int, idx + i),
            decreases size - i,
        {
            out.push(input[idx + i]);
            i = i + 1;
            assert(out@ =~= mid + input@.subrange(idx as int, idx + i));
        }
        proof {
            let k = emulation_count(input@, start, unit_size);
            assert((idx as int - start) / 2 == k);
            match annex_b_from(input@, idx + size) {
                Ok(t) => {
                    assert(before + (seq![0u8, 0, 1] + emulation_bytes(k) + input@.subrange(idx as int, idx + size) + t)
                        =~= out@ + t);
                },
                Err(_) => {},
            }
        }
        idx = idx + size;
    }
    proof {
        assert(out@ + Seq::<u8>::empty() =~= out@);
    }
    Ok(out)
}

} // verus!
