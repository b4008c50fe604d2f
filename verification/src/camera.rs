//! Camera model property types: the `uuid` forms of `cmin` and `cmex`.
use vstd::prelude::*;

verus! {

pub const UUID: u32 = 0x7575_6964;
pub const CMIN: u32 = 0x636d_696e;
pub const CMEX: u32 = 0x636d_6578;

/// The extended type of the `uuid` form of `cmin`.
pub open spec fn cmin_uuid() -> Seq<u8> {
    seq![0x22u8, 0xcc, 0x04, 0xc7, 0xd6, 0xd9, 0x4e, 0x07, 0x9d, 0x90, 0x4e, 0xb6, 0xec, 0xba, 0xf3, 0xa3]
}

/// The extended type of the `uuid` form of `cmex`.
pub open spec fn cmex_uuid() -> Seq<u8> {
    seq![0x43u8, 0x63, 0xe9, 0x14, 0x5b, 0x7d, 0x4a, 0xab, 0x97, 0xae, 0xbe, 0xa6, 0x98, 0x03, 0xb4, 0x34]
}

/// Whether two extended types are equal.
fn same(a: &[u8; 16], b: &[u8; 16]) -> (r: bool)
    ensures
        r == (a@ == b@),
{
    let mut i: usize = 0;
    while i < 16
        invariant
            i <= 16,
            a@.len() == 16,
            b@.len() == 16,
            forall|j: int| 0 <= j < i ==> a@[j] == b@[j],
        decreases 16 - i,
    {
        if a[i] != b[i] {
            return false;
        }
        i = i + 1;
    }
    assert(a@ =~= b@);
    true
}

/// The property type of a box: `cmin` or `cmex` for their `uuid` forms, the
/// box type otherwise.
pub fn kind(box_kind: u32, uuid: Option<[u8; 16]>) -> (r: u32)
    ensures
        r == (if box_kind == UUID && uuid is Some && uuid->Some_0@ == cmin_uuid() {
            CMIN
        } else if box_kind == UUID && uuid is Some && uuid->Some_0@ == cmex_uuid() {
            CMEX
        } else {
            box_kind
        }),
{
    if box_kind == UUID {
        if let Some(u) = uuid {
            let cmin: [u8; 16] = [0x22, 0xcc, 0x04, 0xc7, 0xd6, 0xd9, 0x4e, 0x07, 0x9d, 0x90, 0x4e, 0xb6, 0xec, 0xba, 0xf3, 0xa3];
            let cmex: [u8; 16] = [0x43, 0x63, 0xe9, 0x14, 0x5b, 0x7d, 0x4a, 0xab, 0x97, 0xae, 0xbe, 0xa6, 0x98, 0x03, 0xb4, 0x34];
            assert(cmin@ =~= cmin_uuid());
            assert(cmex@ =~= cmex_uuid());
            if same(&u, &cmin) {
                return CMIN;
            }
            if same(&u, &cmex) {
                return CMEX;
            }
        }
    }
    box_kind
}

} // verus!
