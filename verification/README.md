# libheifer

A HEIF/AVIF container library written in Verus: the parsing and encoding
rules are executable Rust whose behaviour is stated in `requires`/`ensures`
contracts and proved.

## Layout

- `src/` — the verified library, one module per concern:
  - `brands`, `container`, `context`, `hvcc`, `handle_properties`,
    `entity_groups`, `derived`, `geometry`, `gimi`, `camera`, `auxiliary`,
    `components`, `color`, `properties`: box and item parsing, property
    records and their byte layouts;
  - `rbsp`, `hevc_config`, `avc_config`, `av1_config`, `avc`,
    `avc_openh264`: parameter-set readers and codec configuration records
    (`hvcC`, `avcC`, `av1C`), and the H.264 decoder's acceptance rules;
  - `bitwriter`, `avc_encoder`, `hevc_encoder`, `htj2k`, `transform`,
    `intra`: bit writers, entropy-coding pieces and coding kernels, with laws
    such as the Hadamard and DC transforms applied twice;
  - `conversion`: the colour-conversion search over formats: a refused
    conversion has no path, and a found path costs no more than any other;
  - `compression`, `decoding`, `input`: metadata compression (brotli and
    zlib-rs behind trusted wrappers whose results are named), the decisions
    around decompression, decoding (codec configuration, grid tile placement) and
    chunked input, as functions from state and event to next state and
    action;
  - `text`, `bytes`, `error`: diagnostic texts and byte helpers.
- `tests/` — the tests, run against the compiled library.
- `app/` — the plain Rust around the library: the decompression loops over
  zlib-rs and brotli, the call into hpvca, and input plumbing.

Items marked `#[verifier::external_body]` are the trusted boundary: each one
makes a single outside call, and its doc comment says what its contract
claims of that call.
