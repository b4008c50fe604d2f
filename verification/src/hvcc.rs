//! The NAL-unit arrays of an HEVC configuration record (`hvcC`).
use vstd::prelude::*;
use crate::bytes::{be_at, read_be, lemma_be_value_bound, lemma_pow256_values};

verus! {

/// Where `count` length-prefixed NAL units starting at `at` end, if they fit in `p`.
pub open spec fn nals_end(p: Seq<u8>, at: int, count: nat) -> Option<int>
    decreases count,
{
    if count == 0 {
        Some(at)
    } else if at + 2 > p.len() {
        None
    } else {
        let n = be_at(p, at, 2);
        if at + 2 + n > p.len() {
            None
        } else {
            nals_end(p, at + 2 + n, (count - 1) as nat)
        }
    }
}

/// Where `arrays` NAL-unit arrays starting at `at` end, if they fit in `p`.
pub open spec fn arrays_end(p: Seq<u8>, at: int, arrays: nat) -> Option<int>
    decreases arrays,
{
    if arrays == 0 {
        Some(at)
    } else if at + 3 > p.len() {
        None
    } else {
        match nals_end(p, at + 3, be_at(p, at + 1, 2)) {
            None => None,
            Some(e) => arrays_end(p, e, (arrays - 1) as nat),
        }
    }
}

/// Whether an `hvcC` record has its 23-byte header and all its arrays in bounds.
pub open spec fn hvcc_complete(p: Seq<u8>) -> bool {
    p.len() >= 23 && arrays_end(p, 23, p[22] as nat) is Some
}

/// The end of a run of NAL units inside a configuration record.
pub proof fn lemma_nals_end_bounds(p: Seq<u8>, at: int, count: nat)
    requires
        0 <= at <= p.len(),
    ensures
        nals_end(p, at, count) matches Some(e) ==> at <= e <= p.len(),
    decreases count,
{
    if count > 0 && at + 2 <= p.len() {
        let n = be_at(p, at, 2);
        if at + 2 + n <= p.len() {
            lemma_nals_end_bounds(p, at + 2 + n, (count - 1) as nat);
        }
    }
}

/// Walks `count` length-prefixed NAL units from `at`.
pub fn walk_nals(p: &[u8], at: usize, count: u16) -> (r: Option<usize>)
    requires
        at <= p@.len(),
    ensures
        match nals_end(p@, at as int, count as nat) {
            Some(e) => r == Some(e as usize),
            None => r is None,
        },
{
    let mut pos = at;
    let mut left = count;
    while left > 0
        invariant
            pos <= p@.len(),
            nals_end(p@, at as int, count as nat) == nals_end(p@, pos as int, left as nat),
        decreases left,
    {
        if p.len() - pos < 2 {
            return None;
        }
        let n = read_be(p, pos, 2) as usize;
        proof {
            lemma_be_value_bound(p@.subrange(pos as int, pos + 2));
            lemma_pow256_values();
        }
        if p.len() - pos - 2 < n {
            return None;
        }
        pos = pos + 2 + n;
        left = left - 1;
    }
    Some(pos)
}

/// Walks `arrays` NAL-unit arrays from `at`.
pub fn walk_arrays(p: &[u8], at: usize, arrays: u8) -> (r: Option<usize>)
    requires
        at <= p@.len(),
    ensures
        match arrays_end(p@, at as int, arrays as nat) {
            Some(e) => r == Some(e as usize),
            None => r is None,
        },
{
    let mut pos = at;
    let mut left = arrays;
    while left > 0
        invariant
            pos <= p@.len(),
            arrays_end(p@, at as int, arrays as nat) == arrays_end(p@, pos as int, left as nat),
        decreases left,
    {
        if p.len() - pos < 3 {
            return None;
        }
        let count = read_be(p, pos + 1, 2) as u16;
        proof {
            lemma_be_value_bound(p@.subrange(pos + 1, pos + 3));
            lemma_pow256_values();
        }
        match walk_nals(p, pos + 3, count) {
            None => return None,
            Some(e) => {
                proof {
                    lemma_nals_end_bounds(p@, pos + 3, count as nat);
                }
                pos = e;
            },
        }
        left = left - 1;
    }
    Some(pos)
}

/// Whether an `hvcC` record is complete.
pub fn check_hvcc(p: &[u8]) -> (r: bool)
    ensures
        r == hvcc_complete(p@),
{
    p.len() >= 23 && walk_arrays(p, 23, p[22]).is_some()
}

} // verus!
