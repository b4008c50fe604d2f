//! Entity group boxes (`altr`, `ster`, `pymd`): their members in box order.
use vstd::prelude::*;
use crate::brands::{fourcc, spec_fourcc};
use crate::bytes::{be_at, read_be32};
use crate::context::ContextError;
use crate::text::{decimal, join_number};

verus! {

/// One entity group: its id, its type and its members.
pub struct EntityGroup {
    pub id: u32,
    pub kind: u32,
    pub entities: Vec<u32>,
}

/// The entity groups of a file, in box order, with the number of children
/// of the group list box.
pub struct EntityGroups {
    pub children: usize,
    pub groups: Vec<EntityGroup>,
}

impl EntityGroups {
    /// No groups.
    pub fn new() -> (r: EntityGroups)
        ensures
            r.children == 0,
            r.groups@.len() == 0,
    {
        EntityGroups { children: 0, groups: Vec::new() }
    }
}

/// The fourccs of the group types read.
pub const ALTR: u32 = 0x616c_7472;
pub const STER: u32 = 0x7374_6572;
pub const PYMD: u32 = 0x7079_6d64;

/// The 32-bit value at `at`, zero where it passes the end.
pub open spec fn word_at(data: Seq<u8>, at: int) -> u32 {
    if at + 4 <= data.len() { be_at(data, at, 4) as u32 } else { 0 }
}

/// How many members fit after a group's header.
pub open spec fn available(data: Seq<u8>) -> int {
    (if data.len() < 12 { 0int } else { data.len() - 12 }) / 4
}

/// Why a group box is refused.
pub enum GroupFailure {
    /// The box is shorter than its full-box header.
    Short,
    /// More members declared than the box holds.
    Members,
    /// More members than the security limit.
    Limit,
    /// A stereo pair of other than two members.
    Stereo,
}

/// The reported failure of a refused group box.
pub open spec fn group_failure_parts(f: GroupFailure, data: Seq<u8>, limit: u32) -> (i32, i32, Seq<char>) {
    let count = word_at(data, 8);
    match f {
        GroupFailure::Short => (2i32, 100i32, "Invalid input: "@ + "Unexpected end of file"@),
        GroupFailure::Members => (2i32, 100i32, "Invalid input: "@ + ("Unexpected end of file: entity group box should contain "@
            + decimal(count as nat) + " entities, but we can only read "@ + decimal(available(data) as nat) + " entities."@)),
        GroupFailure::Limit => (2i32, 1000i32, "Invalid input: "@ + ("Security limit exceeded: entity group box contains "@
            + decimal(count as nat) + " entities, but the security limit is set to "@ + decimal(limit as nat) + " entities."@)),
        GroupFailure::Stereo => (2i32, 101i32, "Invalid input: "@
            + "Invalid box size: 'ster' entity group does not exists of exactly two images"@),
    }
}

/// An entity group box of type `kind`: `None` for other types; the id and
/// members, or why the box is refused (`limit` 0: no limit).
pub open spec fn spec_group(kind: u32, data: Seq<u8>, limit: u32) -> Result<Option<(u32, Seq<u32>)>, GroupFailure> {
    if kind != ALTR && kind != STER && kind != PYMD {
        Ok(None)
    } else if data.len() < 4 {
        Err(GroupFailure::Short)
    } else {
        let count = word_at(data, 8);
        if count > available(data) {
            Err(GroupFailure::Members)
        } else if limit != 0 && count > limit {
            Err(GroupFailure::Limit)
        } else if kind == STER && count != 2 {
            Err(GroupFailure::Stereo)
        } else {
            Ok(Some((word_at(data, 4), Seq::new(count as nat, |i: int| word_at(data, 12 + 4 * i)))))
        }
    }
}

/// Whether `r` is what `spec_group` gives.
pub open spec fn group_result(r: Result<Option<EntityGroup>, ContextError>, kind: u32, data: Seq<u8>, limit: u32) -> bool {
    match spec_group(kind, data, limit) {
        Ok(None) => r is Ok && r->Ok_0 is None,
        Ok(Some((id, members))) => r is Ok && r->Ok_0 is Some && r->Ok_0->Some_0.id == id
            && r->Ok_0->Some_0.kind == kind && r->Ok_0->Some_0.entities@ == members,
        Err(f) => r is Err && r->Err_0.parts() == group_failure_parts(f, data, limit),
    }
}

/// The 32-bit value at `at`, zero where it passes the end.
fn word(data: &[u8], at: usize) -> (r: u32)
    ensures
        r == word_at(data@, at as int),
{
    if data.len() >= 4 && at <= data.len() - 4 {
        read_be32(data, at)
    } else {
        0
    }
}

fn parse_group_inner(kind: [u8; 4], data: &[u8], limit: u32) -> (r: Result<Option<EntityGroup>, ContextError>)
    ensures
        group_result(r, spec_fourcc(kind@), data@, limit),
{
    let code = fourcc(kind);
    if code != ALTR && code != STER && code != PYMD {
        return Ok(None);
    }
    if data.len() < 4 {
        return Err(ContextError::invalid(100, "Unexpected end of file"));
    }
    let id = word(data, 4);
    let count = word(data, 8);
    let available: usize = (if data.len() < 12 { 0 } else { data.len() - 12 }) / 4;
    if count as u64 > available as u64 {
        let first = join_number(
            "Unexpected end of file: entity group box should contain ",
            count as u64,
            " entities, but we can only read ",
        );
        let message = join_number(first.as_str(), available as u64, " entities.");
        return Err(ContextError::invalid(100, message.as_str()));
    }
    if limit != 0 && count > limit {
        let first = join_number(
            "Security limit exceeded: entity group box contains ",
            count as u64,
            " entities, but the security limit is set to ",
        );
        let message = join_number(first.as_str(), limit as u64, " entities.");
        return Err(ContextError::invalid(1000, message.as_str()));
    }
    if code == STER && count != 2 {
        return Err(ContextError::invalid(
            101,
            "Invalid box size: 'ster' entity group does not exists of exactly two images",
        ));
    }
    let mut entities: Vec<u32> = Vec::new();
    let len = data.len();
    let mut i: usize = 0;
    while i < count as usize
        invariant
            len == data@.len(),
            count <= available,
            available == (if data@.len() < 12 { 0int } else { data@.len() - 12 }) / 4,
            i <= count,
            entities@ == Seq::new(i as nat, |k: int| word_at(data@, 12 + 4 * k)),
        decreases count - i,
    {
        entities.push(word(data, 12 + 4 * i));
        assert(entities@ =~= Seq::new((i + 1) as nat, |k: int| word_at(data@, 12 + 4 * k)));
        i = i + 1;
    }
    Ok(Some(EntityGroup { id, kind: code, entities }))
}

/// Reads an entity group box of type `kind` with its body `data` (`limit`
/// is the security limit on members, 0 for none). A failed pyramid box is
/// kept as an ignorable child, not a group: no error.
pub fn parse_group(kind: [u8; 4], data: &[u8], limit: u32) -> (r: Result<Option<EntityGroup>, ContextError>)
    ensures
        spec_fourcc(kind@) == PYMD && spec_group(spec_fourcc(kind@), data@, limit) is Err ==> r is Ok && r->Ok_0 is None,
        !(spec_fourcc(kind@) == PYMD && spec_group(spec_fourcc(kind@), data@, limit) is Err) ==> group_result(
            r,
            spec_fourcc(kind@),
            data@,
            limit,
        ),
{
    let code = fourcc(kind);
    match parse_group_inner(kind, data, limit) {
        Err(e) => if code == PYMD { Ok(None) } else { Err(e) },
        result => result,
    }
}

} // verus!
