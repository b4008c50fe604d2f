//! Grid derived images: the layout record of an `grid` item.
use vstd::prelude::*;
use crate::bytes::{be_at, read_be, read_be32, lemma_be_value_bound, lemma_pow256_values};
use crate::context::ContextError;
use crate::text::{decimal, join_number};

verus! {

/// A grid's tile rows and columns and its output size.
#[derive(Clone, Copy, Debug, PartialEq, Eq, Structural)]
pub struct Grid {
    pub rows: u32,
    pub columns: u32,
    pub width: u32,
    pub height: u32,
}

/// Why a grid record is refused.
pub enum GridFailure {
    /// Fewer than 8 bytes.
    Short,
    /// A version other than 0.
    Version,
    /// A 32-bit size with fewer than 12 bytes.
    Incomplete,
}

/// The reported failure of a refused grid record.
pub open spec fn grid_failure_parts(f: GridFailure, data: Seq<u8>) -> (i32, i32, Seq<char>) {
    match f {
        GridFailure::Short => (2i32, 118i32, "Invalid input: "@ + "Invalid grid data: Less than 8 bytes of data"@),
        GridFailure::Version => (4i32, 3002i32, "Unsupported feature: Unsupported data version: Grid image version "@
            + decimal(data[0] as nat) + " is not supported"@),
        GridFailure::Incomplete => (2i32, 118i32, "Invalid input: "@ + "Invalid grid data: Grid image data incomplete"@),
    }
}

/// A grid record: version 0, flags (bit 0: 32-bit sizes), rows and columns
/// less one, then the output width and height.
pub open spec fn spec_grid(data: Seq<u8>) -> Result<Grid, GridFailure> {
    if data.len() < 8 {
        Err(GridFailure::Short)
    } else if data[0] != 0 {
        Err(GridFailure::Version)
    } else if data[1] & 1 != 0 && data.len() < 12 {
        Err(GridFailure::Incomplete)
    } else {
        let wide = data[1] & 1 != 0;
        Ok(Grid {
            rows: (data[2] + 1) as u32,
            columns: (data[3] + 1) as u32,
            width: (if wide { be_at(data, 4, 4) } else { be_at(data, 4, 2) }) as u32,
            height: (if wide { be_at(data, 8, 4) } else { be_at(data, 6, 2) }) as u32,
        })
    }
}

impl Grid {
    /// Reads a grid record.
    pub fn parse(data: &[u8]) -> (r: Result<Grid, ContextError>)
        ensures
            match spec_grid(data@) {
                Ok(g) => r == Ok::<Grid, ContextError>(g),
                Err(f) => r is Err && r->Err_0.parts() == grid_failure_parts(f, data@),
            },
    {
        if data.len() < 8 {
            return Err(ContextError::invalid(118, "Invalid grid data: Less than 8 bytes of data"));
        }
        if data[0] != 0 {
            let message = join_number(
                "Unsupported feature: Unsupported data version: Grid image version ",
                data[0] as u64,
                " is not supported",
            );
            return Err(ContextError::owned(4, 3002, message));
        }
        let (width, height) = if data[1] & 1 != 0 {
            if data.len() < 12 {
                return Err(ContextError::invalid(118, "Invalid grid data: Grid image data incomplete"));
            }
            (read_be32(data, 4), read_be32(data, 8))
        } else {
            let w = read_be(data, 4, 2);
            let h = read_be(data, 6, 2);
            proof {
                lemma_be_value_bound(data@.subrange(4, 6));
                lemma_be_value_bound(data@.subrange(6, 8));
                lemma_pow256_values();
            }
            (w as u32, h as u32)
        };
        Ok(Grid { rows: data[2] as u32 + 1, columns: data[3] as u32 + 1, width, height })
    }
}

} // verus!
