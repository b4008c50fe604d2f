//! GIMI content identifiers: the component content-ID list and C-string truncation.
use vstd::prelude::*;
use crate::bytes::{be_at, read_be32};
use crate::context::{join_text, ContextError};
use crate::text::{decimal, join_number};

verus! {

/// The bytes of a value up to its first zero byte.
pub open spec fn before_zero(v: Seq<u8>, i: int) -> Seq<u8>
    decreases v.len() - i,
{
    if i < 0 || i >= v.len() { v } else if v[i] == 0 { v.subrange(0, i) } else { before_zero(v, i + 1) }
}

/// The bytes of a value up to its first zero byte, as a C string holds them.
pub fn c_string(value: &[u8]) -> (r: Vec<u8>)
    ensures
        r@ == before_zero(value@, 0),
{
    let mut i: usize = 0;
    while i < value.len() && value[i] != 0
        invariant
            i <= value@.len(),
            before_zero(value@, 0) == before_zero(value@, i as int),
        decreases value@.len() - i,
    {
        i = i + 1;
    }
    vstd::slice::slice_to_vec(vstd::slice::slice_subrange(value, 0, i))
}

/// Where the next content ID ends: at its zero byte, or one before the end.
pub open spec fn id_end(v: Seq<u8>, i: int) -> int
    decreases v.len() - i,
{
    if i < 0 || i >= v.len() { v.len() - 1 } else if v[i] == 0 { i } else { id_end(v, i + 1) }
}

/// The `n` content IDs left in `rest`, after `ids`.
pub open spec fn component_ids(rest: Seq<u8>, n: int, ids: Seq<Seq<u8>>) -> Result<Seq<Seq<u8>>, (i32, i32, Seq<char>)>
    decreases n,
{
    if n <= 0 {
        Ok(ids)
    } else if rest.len() == 0 {
        Err((2i32, 100i32, "Invalid input: "@ + "Unexpected end of file: Not enough data for all component content IDs"@))
    } else {
        let end = id_end(rest, 0);
        component_ids(rest.subrange(end + 1, rest.len() as int), n - 1, ids.push(rest.subrange(0, end)))
    }
}

/// The limit failure for a component list longer than `maximum`.
pub open spec fn component_limit_text(count: nat, maximum: nat) -> Seq<char> {
    "Invalid input: "@ + ("Security limit exceeded: GIMI component content IDs box contains "@ + decimal(count)
        + " components, but security limit is set to "@ + decimal(maximum) + " components"@)
}

/// The component content IDs of a GIMI box: a count, at most `maximum` (0: no
/// limit), then zero-terminated IDs (the last may end with the data).
pub open spec fn spec_components(data: Seq<u8>, maximum: u32) -> Result<Seq<Seq<u8>>, (i32, i32, Seq<char>)> {
    if data.len() < 4 {
        Err((2i32, 100i32, "Invalid input: "@ + "Unexpected end of file"@))
    } else {
        let count = be_at(data, 0, 4);
        if maximum != 0 && count > maximum {
            Err((2i32, 1000i32, component_limit_text(count, maximum as nat)))
        } else {
            component_ids(data.subrange(4, data.len() as int), count as int, Seq::empty())
        }
    }
}

/// Reads the component content IDs of a GIMI box.
pub fn parse_components(data: &[u8], maximum: u32) -> (r: Result<Vec<Vec<u8>>, ContextError>)
    ensures
        match spec_components(data@, maximum) {
            Ok(ids) => r is Ok && r->Ok_0@.map_values(|v: Vec<u8>| v@) == ids,
            Err(e) => r is Err && r->Err_0.parts() == e,
        },
{
    if data.len() < 4 {
        return Err(ContextError::invalid(100, "Unexpected end of file"));
    }
    let count = read_be32(data, 0);
    if maximum != 0 && count > maximum {
        let a = join_number("Security limit exceeded: GIMI component content IDs box contains ", count as u64,
            " components, but security limit is set to ");
        let b = join_number("", maximum as u64, " components");
        proof {
            reveal_strlit("");
        }
        let text = join_text(a.as_str(), b.as_str());
        let e = ContextError::invalid(1000, text.as_str());
        proof {
            assert(e.message@ =~= component_limit_text(count as nat, maximum as nat));
        }
        return Err(e);
    }
    let mut rest = vstd::slice::slice_subrange(data, 4, data.len());
    let mut ids: Vec<Vec<u8>> = Vec::new();
    let mut k: u32 = 0;
    proof {
        assert(ids@.map_values(|v: Vec<u8>| v@) =~= Seq::<Seq<u8>>::empty());
    }
    while k < count
        invariant
            k <= count,
            spec_components(data@, maximum) == component_ids(rest@, count - k, ids@.map_values(|v: Vec<u8>| v@)),
        decreases count - k,
    {
        if rest.len() == 0 {
            return Err(ContextError::invalid(100, "Unexpected end of file: Not enough data for all component content IDs"));
        }
        let mut end: usize = 0;
        while end < rest.len() && rest[end] != 0
            invariant
                end <= rest@.len(),
                id_end(rest@, 0) == id_end(rest@, end as int),
            decreases rest@.len() - end,
        {
            end = end + 1;
        }
        if end == rest.len() {
            end = rest.len() - 1;
        }
        let ghost before = ids@;
        ids.push(vstd::slice::slice_to_vec(vstd::slice::slice_subrange(rest, 0, end)));
        proof {
            assert(ids@.map_values(|v: Vec<u8>| v@) =~= before.map_values(|v: Vec<u8>| v@).push(rest@.subrange(0, end as int)));
        }
        rest = vstd::slice::slice_subrange(rest, end + 1, rest.len());
        k = k + 1;
    }
    Ok(ids)
}

} // verus!
