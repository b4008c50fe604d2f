//! Metadata compression: which codec a method number selects, what the
//! zlib inflate loop does after each call, and the failures it reports.
use vstd::prelude::*;
use crate::context::{ContextError, join_text};

verus! {

/// `BrotliDecoderErrorString` of brotli 1.1.0 for the format errors, by
/// `-code - 1`.
pub open spec fn brotli_format_error(i: int) -> Seq<char> {
    if i == 0 { "_ERROR_FORMAT_EXUBERANT_NIBBLE"@ }
    else if i == 1 { "_ERROR_FORMAT_RESERVED"@ }
    else if i == 2 { "_ERROR_FORMAT_EXUBERANT_META_NIBBLE"@ }
    else if i == 3 { "_ERROR_FORMAT_SIMPLE_HUFFMAN_ALPHABET"@ }
    else if i == 4 { "_ERROR_FORMAT_SIMPLE_HUFFMAN_SAME"@ }
    else if i == 5 { "_ERROR_FORMAT_CL_SPACE"@ }
    else if i == 6 { "_ERROR_FORMAT_HUFFMAN_SPACE"@ }
    else if i == 7 { "_ERROR_FORMAT_CONTEXT_MAP_REPEAT"@ }
    else if i == 8 { "_ERROR_FORMAT_BLOCK_LENGTH_1"@ }
    else if i == 9 { "_ERROR_FORMAT_BLOCK_LENGTH_2"@ }
    else if i == 10 { "_ERROR_FORMAT_TRANSFORM"@ }
    else if i == 11 { "_ERROR_FORMAT_DICTIONARY"@ }
    else if i == 12 { "_ERROR_FORMAT_WINDOW_BITS"@ }
    else if i == 13 { "_ERROR_FORMAT_PADDING_1"@ }
    else if i == 14 { "_ERROR_FORMAT_PADDING_2"@ }
    else { "_ERROR_FORMAT_DISTANCE"@ }
}

/// `BrotliDecoderErrorString` of brotli 1.1.0.
pub open spec fn spec_brotli_error_string(code: i32) -> Seq<char> {
    if code == 0 { "_NO_ERROR"@ }
    else if code == 1 { "_SUCCESS"@ }
    else if code == 2 { "_NEEDS_MORE_INPUT"@ }
    else if code == 3 { "_NEEDS_MORE_OUTPUT"@ }
    else if -16 <= code <= -1 { brotli_format_error(-code - 1) }
    else if code == -18 { "_ERROR_COMPOUND_DICTIONARY"@ }
    else if code == -19 { "_ERROR_DICTIONARY_NOT_SET"@ }
    else if code == -20 { "_ERROR_INVALID_ARGUMENTS"@ }
    else if code == -21 { "_ERROR_ALLOC_CONTEXT_MODES"@ }
    else if code == -22 { "_ERROR_ALLOC_TREE_GROUPS"@ }
    else if code == -25 { "_ERROR_ALLOC_CONTEXT_MAP"@ }
    else if code == -26 { "_ERROR_ALLOC_RING_BUFFER_1"@ }
    else if code == -27 { "_ERROR_ALLOC_RING_BUFFER_2"@ }
    else if code == -30 { "_ERROR_ALLOC_BLOCK_TYPE_TREES"@ }
    else if code == -31 { "_ERROR_UNREACHABLE"@ }
    else { "INVALID"@ }
}

/// The name brotli's decoder gives an error code.
pub fn brotli_error_string(code: i32) -> (r: &'static str)
    ensures
        r@ == spec_brotli_error_string(code),
{
    if code == 0 { "_NO_ERROR" }
    else if code == 1 { "_SUCCESS" }
    else if code == 2 { "_NEEDS_MORE_INPUT" }
    else if code == 3 { "_NEEDS_MORE_OUTPUT" }
    else if code == -1 { "_ERROR_FORMAT_EXUBERANT_NIBBLE" }
    else if code == -2 { "_ERROR_FORMAT_RESERVED" }
    else if code == -3 { "_ERROR_FORMAT_EXUBERANT_META_NIBBLE" }
    else if code == -4 { "_ERROR_FORMAT_SIMPLE_HUFFMAN_ALPHABET" }
    else if code == -5 { "_ERROR_FORMAT_SIMPLE_HUFFMAN_SAME" }
    else if code == -6 { "_ERROR_FORMAT_CL_SPACE" }
    else if code == -7 { "_ERROR_FORMAT_HUFFMAN_SPACE" }
    else if code == -8 { "_ERROR_FORMAT_CONTEXT_MAP_REPEAT" }
    else if code == -9 { "_ERROR_FORMAT_BLOCK_LENGTH_1" }
    else if code == -10 { "_ERROR_FORMAT_BLOCK_LENGTH_2" }
    else if code == -11 { "_ERROR_FORMAT_TRANSFORM" }
    else if code == -12 { "_ERROR_FORMAT_DICTIONARY" }
    else if code == -13 { "_ERROR_FORMAT_WINDOW_BITS" }
    else if code == -14 { "_ERROR_FORMAT_PADDING_1" }
    else if code == -15 { "_ERROR_FORMAT_PADDING_2" }
    else if code == -16 { "_ERROR_FORMAT_DISTANCE" }
    else if code == -18 { "_ERROR_COMPOUND_DICTIONARY" }
    else if code == -19 { "_ERROR_DICTIONARY_NOT_SET" }
    else if code == -20 { "_ERROR_INVALID_ARGUMENTS" }
    else if code == -21 { "_ERROR_ALLOC_CONTEXT_MODES" }
    else if code == -22 { "_ERROR_ALLOC_TREE_GROUPS" }
    else if code == -25 { "_ERROR_ALLOC_CONTEXT_MAP" }
    else if code == -26 { "_ERROR_ALLOC_RING_BUFFER_1" }
    else if code == -27 { "_ERROR_ALLOC_RING_BUFFER_2" }
    else if code == -30 { "_ERROR_ALLOC_BLOCK_TYPE_TREES" }
    else if code == -31 { "_ERROR_UNREACHABLE" }
    else { "INVALID" }
}

/// The codec a method number selects for compressing.
#[derive(Clone, Copy, Debug, PartialEq, Eq, Structural)]
pub enum Codec {
    /// The data as it is.
    Stored,
    /// Raw deflate (`false`) or zlib (`true`).
    Deflate(bool),
    Brotli,
}

/// The codec for compressing with a method: 5 brotli, 3 raw deflate, 4 zlib,
/// any other the data as it is.
pub fn compression_codec(method: i32) -> (r: Codec)
    ensures
        r == (if method == 5 { Codec::Brotli } else if method == 3 || method == 4 { Codec::Deflate(method == 4) } else { Codec::Stored }),
{
    if method == 5 {
        Codec::Brotli
    } else if method == 3 || method == 4 {
        Codec::Deflate(method == 4)
    } else {
        Codec::Stored
    }
}

/// The failure for an unknown decompression method.
pub open spec fn unsupported_method_parts() -> (i32, i32, Seq<char>) {
    (3i32, 3005i32, "Unsupported file-type: Unsupported header compression method"@)
}

/// The failure for empty zlib or deflate data.
pub open spec fn empty_data_parts() -> (i32, i32, Seq<char>) {
    (2i32, 150i32, "Invalid input: "@ + "Invalid data in generic compression inflation: Empty zlib compressed data."@)
}

/// The codec for decompressing `len` bytes with a method: 0 the data as it
/// is, 5 brotli, 3 raw deflate and 4 zlib unless the data is empty; other
/// methods are unsupported.
pub fn decompression_codec(method: i32, len: usize) -> (r: Result<Codec, ContextError>)
    ensures
        method == 0 ==> r == Ok::<Codec, ContextError>(Codec::Stored),
        method == 5 ==> r == Ok::<Codec, ContextError>(Codec::Brotli),
        (method == 3 || method == 4) && len > 0 ==> r == Ok::<Codec, ContextError>(Codec::Deflate(method == 4)),
        (method == 3 || method == 4) && len == 0 ==> r is Err && r->Err_0.parts() == empty_data_parts(),
        !(method == 0 || method == 3 || method == 4 || method == 5) ==> r is Err && r->Err_0.parts() == unsupported_method_parts(),
{
    if method == 0 {
        Ok(Codec::Stored)
    } else if method == 5 {
        Ok(Codec::Brotli)
    } else if !(method == 3 || method == 4) {
        Err(ContextError::new(3, 3005, "Unsupported file-type: Unsupported header compression method"))
    } else if len == 0 {
        Err(ContextError::invalid(150, "Invalid data in generic compression inflation: Empty zlib compressed data."))
    } else {
        Ok(Codec::Deflate(method == 4))
    }
}

/// What an inflate call reported, besides failures.
#[derive(Clone, Copy, Debug, PartialEq, Eq, Structural)]
pub enum InflateStatus {
    Progress,
    BufError,
    StreamEnd,
}

/// What the inflate loop does next.
#[derive(Clone, Copy, Debug, PartialEq, Eq, Structural)]
pub enum InflateAction {
    /// Keep the bytes written and call again.
    Append(usize),
    /// Keep the bytes written and stop.
    AppendAndFinish(usize),
    /// Call again with a scratch buffer of the given size.
    Grow(usize),
    /// Stop: the input is used up.
    Finish,
}

/// The failure for a scratch buffer that cannot grow.
pub open spec fn buffer_overflow_parts() -> (i32, i32, Seq<char>) {
    (6i32, 0i32, "Memory allocation error"@)
}

/// The failure for a scratch buffer over the block size limit.
pub open spec fn buffer_limit_parts() -> (i32, i32, Seq<char>) {
    (6i32, 1000i32, "Memory allocation error: Security limit exceeded: zlib inflate scratch buffer exceeds the maximum block size"@)
}

/// The next step of the inflate loop after a call that reported `status`,
/// with the input consumed so far, the input's length, the scratch buffer's
/// length, the bytes written by the call and the largest block allowed (0:
/// no limit). A stalled call ends the loop once the input is used up, and
/// otherwise doubles the scratch buffer within the limit.
pub fn after_inflate(status: InflateStatus, total_in: u64, len: usize, buffer: usize, written: usize, max_block: u64)
    -> (r: Result<InflateAction, ContextError>)
    ensures
        status == InflateStatus::Progress ==> r == Ok::<InflateAction, ContextError>(InflateAction::Append(written)),
        status == InflateStatus::StreamEnd ==> r == Ok::<InflateAction, ContextError>(InflateAction::AppendAndFinish(written)),
        status == InflateStatus::BufError && total_in == len ==> r == Ok::<InflateAction, ContextError>(InflateAction::Finish),
        status == InflateStatus::BufError && total_in != len && buffer * 2 > usize::MAX
            ==> r is Err && r->Err_0.parts() == buffer_overflow_parts(),
        status == InflateStatus::BufError && total_in != len && buffer * 2 <= usize::MAX && max_block != 0 && buffer * 2 > max_block
            ==> r is Err && r->Err_0.parts() == buffer_limit_parts(),
        status == InflateStatus::BufError && total_in != len && buffer * 2 <= usize::MAX && (max_block == 0 || buffer * 2 <= max_block)
            ==> r == Ok::<InflateAction, ContextError>(InflateAction::Grow((buffer * 2) as usize)),
{
    match status {
        InflateStatus::Progress => Ok(InflateAction::Append(written)),
        InflateStatus::StreamEnd => Ok(InflateAction::AppendAndFinish(written)),
        InflateStatus::BufError => {
            if total_in == len as u64 {
                return Ok(InflateAction::Finish);
            }
            if buffer > usize::MAX / 2 {
                return Err(ContextError::new(6, 0, "Memory allocation error"));
            }
            let size = buffer * 2;
            if max_block != 0 && size as u64 > max_block {
                return Err(ContextError::new(6, 1000,
                    "Memory allocation error: Security limit exceeded: zlib inflate scratch buffer exceeds the maximum block size"));
            }
            Ok(InflateAction::Grow(size))
        },
    }
}

/// The code zlib gives an inflate failure, as text in brackets.
pub open spec fn inflate_code_text(code: i32) -> Seq<char> {
    if code == 2 { " (2)\n"@ } else if code == -2 { " (-2)\n"@ } else if code == -3 { " (-3)\n"@ } else { " (-4)\n"@ }
}

/// The failure reported for an inflate error with zlib's code (2 needs a
/// dictionary, -2 stream error, -3 data error, -4 memory error) and message.
pub fn inflate_failure(code: i32, message: &str) -> (r: ContextError)
    requires
        code == 2 || code == -2 || code == -3 || code == -4,
    ensures
        r.parts() == (2i32, 150i32, "Invalid input: "@ + "Invalid data in generic compression inflation: Error performing zlib inflate: "@
            + message@ + inflate_code_text(code)),
{
    let suffix = if code == 2 { " (2)\n" } else if code == -2 { " (-2)\n" } else if code == -3 { " (-3)\n" } else { " (-4)\n" };
    let tail = join_text(message, suffix);
    let text = join_text("Invalid data in generic compression inflation: Error performing zlib inflate: ", tail.as_str());
    assert(text@ =~= "Invalid data in generic compression inflation: Error performing zlib inflate: "@ + message@ + inflate_code_text(code));
    ContextError::invalid(150, text.as_str())
}

/// How a brotli decompression stream call ended, besides success.
#[derive(Clone, Copy, Debug, PartialEq, Eq, Structural)]
pub enum BrotliFailure {
    /// The input ended inside the stream.
    NeedsMoreInput,
    /// The stream is invalid; brotli's error code.
    Failure(i32),
}

/// The text of a brotli failure.
pub open spec fn brotli_failure_text(f: BrotliFailure) -> Seq<char> {
    match f {
        BrotliFailure::NeedsMoreInput => "Error performing brotli inflate - insufficient data.\n"@,
        BrotliFailure::Failure(code) => "Error performing brotli inflate - "@ + spec_brotli_error_string(code) + "\n"@,
    }
}

/// The failure reported for a brotli stream that cannot be decompressed.
pub fn brotli_failure(f: BrotliFailure) -> (r: ContextError)
    ensures
        r.parts() == (2i32, 150i32, "Invalid input: "@ + "Invalid data in generic compression inflation: "@ + brotli_failure_text(f)),
{
    let text = match f {
        BrotliFailure::NeedsMoreInput => join_text("Invalid data in generic compression inflation: ",
            "Error performing brotli inflate - insufficient data.\n"),
        BrotliFailure::Failure(code) => {
            let tail = join_text(brotli_error_string(code), "\n");
            let middle = join_text("Error performing brotli inflate - ", tail.as_str());
            join_text("Invalid data in generic compression inflation: ", middle.as_str())
        },
    };
    assert(text@ =~= "Invalid data in generic compression inflation: "@ + brotli_failure_text(f));
    ContextError::invalid(150, text.as_str())
}

/// What `brotli::BrotliCompress` writes for `data` in memory at the encoder's
/// default parameters (quality 11, window 22).
pub uninterp spec fn brotli_compressed(data: Seq<u8>) -> Seq<u8>;

/// What `zlib_rs::compress_slice` writes for `data` at level 6 with
/// `window_bits` (15: a zlib stream with a 32 KiB window; -15: a raw deflate
/// stream with that window).
pub uninterp spec fn zlib_rs_deflated(data: Seq<u8>, window_bits: i32) -> Seq<u8>;

/// The window bits of a zlib (`zlib`) or raw deflate stream with a 32 KiB window.
pub open spec fn window_bits_of(zlib: bool) -> i32 {
    if zlib { 15i32 } else { -15i32 }
}

/// What `zlib_rs::compress_bound` gives for an input of `n` bytes.
pub uninterp spec fn zlib_rs_bound(n: nat) -> nat;

/// `brotli::BrotliCompress` from `data` into a vector, with
/// `BrotliEncoderParams::default()`: the bytes it writes, or none where it
/// reports an error. The contract names the result as a function of `data`.
#[verifier::external_body]
fn brotli_compress(data: &[u8]) -> (r: Vec<u8>)
    ensures
        r@ == brotli_compressed(data@),
{
    let mut input: &[u8] = data;
    let mut out: Vec<u8> = Vec::new();
    match brotli::BrotliCompress(&mut input, &mut out, &brotli::enc::BrotliEncoderParams::default()) {
        Ok(_) => out,
        Err(_) => Vec::new(),
    }
}

/// `zlib_rs::compress_bound`: the output size for which compressing `n`
/// bytes in one call cannot run out of room.
#[verifier::external_body]
fn zlib_bound(n: usize) -> (r: usize)
    ensures
        r == zlib_rs_bound(n as nat),
{
    zlib_rs::compress_bound(n)
}

/// `zlib_rs::compress_slice` of `data` into `out` at level 6 with
/// `window_bits`: the number of bytes written, which are the compressed
/// stream; none where it reports a failure, which it does not into a buffer
/// of at least `compress_bound` bytes.
#[verifier::external_body]
fn zlib_compress_slice(out: &mut Vec<u8>, data: &[u8], window_bits: i32) -> (r: Option<usize>)
    ensures
        final(out)@.len() == old(out)@.len(),
        r matches Some(n) ==> n <= final(out)@.len() && final(out)@.subrange(0, n as int) == zlib_rs_deflated(
            data@,
            window_bits,
        ),
        old(out)@.len() >= zlib_rs_bound(data@.len()) ==> r is Some,
{
    let config = zlib_rs::DeflateConfig { window_bits, ..zlib_rs::DeflateConfig::new(6) };
    let (written, code) = zlib_rs::compress_slice(out.as_mut_slice(), data, config);
    match code {
        zlib_rs::ReturnCode::Ok => Some(written.len()),
        _ => None,
    }
}

/// Level-6 deflate with a 32 KiB window, as a zlib or a raw stream, in one
/// call into a buffer of the bound's size.
fn deflate(data: &[u8], zlib: bool) -> (r: Vec<u8>)
    ensures
        r@ == zlib_rs_deflated(data@, window_bits_of(zlib)),
{
    let window_bits: i32 = if zlib { 15 } else { -15 };
    let size = zlib_bound(data.len());
    let mut out: Vec<u8> = Vec::new();
    while out.len() < size
        invariant
            out@.len() <= size,
        decreases size - out@.len(),
    {
        out.push(0);
    }
    match zlib_compress_slice(&mut out, data, window_bits) {
        Some(n) => {
            let mut r: Vec<u8> = Vec::new();
            let mut k: usize = 0;
            while k < n
                invariant
                    n <= out@.len(),
                    k <= n,
                    r@ == out@.subrange(0, k as int),
                decreases n - k,
            {
                r.push(out[k]);
                k = k + 1;
            }
            r
        },
        None => Vec::new(),
    }
}

/// Compresses metadata with a method: 5 brotli, 3 raw deflate, 4 zlib, any
/// other the data as it is.
pub fn compress(data: &[u8], method: i32) -> (r: Result<Vec<u8>, ContextError>)
    ensures
        r matches Ok(v) && v@ == (if method == 5 {
            brotli_compressed(data@)
        } else if method == 3 || method == 4 {
            zlib_rs_deflated(data@, window_bits_of(method == 4))
        } else {
            data@
        }),
{
    match compression_codec(method) {
        Codec::Brotli => Ok(brotli_compress(data)),
        Codec::Deflate(zlib) => Ok(deflate(data, zlib)),
        Codec::Stored => {
            let mut v: Vec<u8> = Vec::new();
            let mut k: usize = 0;
            while k < data.len()
                invariant
                    k <= data@.len(),
                    v@ == data@.subrange(0, k as int),
                decreases data@.len() - k,
            {
                v.push(data[k]);
                k = k + 1;
            }
            assert(v@ =~= data@);
            Ok(v)
        },
    }
}

} // verus!
