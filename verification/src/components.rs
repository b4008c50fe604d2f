//! Component descriptions are independent of pixel storage and retain insertion order.
use vstd::prelude::*;
use crate::error::Error;

verus! {

/// One image component: its channel, type, sample format and content id.
#[derive(Debug)]
pub struct Description {
    pub id: u32,
    pub channel: i32,
    pub kind: u16,
    pub datatype: i32,
    pub bit_depth: u16,
    pub width: u32,
    pub height: u32,
    pub has_data: bool,
    pub content_id: Vec<u8>,
}

/// The channel of a component type (65535 for unknown types).
pub open spec fn spec_channel_for_type(kind: u16) -> i32 {
    if kind == 0 || kind == 1 {
        0
    } else if 2 <= kind <= 7 {
        (kind - 1) as i32
    } else if kind == 8 {
        12
    } else if kind == 9 {
        13
    } else if kind == 11 {
        11
    } else {
        65535
    }
}

/// The channel that stores a component of the given type.
pub fn channel_for_type(kind: u16) -> (r: i32)
    ensures
        r == spec_channel_for_type(kind),
{
    if kind == 0 || kind == 1 {
        0
    } else if 2 <= kind && kind <= 7 {
        (kind - 1) as i32
    } else if kind == 8 {
        12
    } else if kind == 9 {
        13
    } else if kind == 11 {
        11
    } else {
        65535
    }
}

/// The component types that a channel holds for a chroma format.
pub open spec fn spec_types_for_channel(channel: i32, chroma: i32) -> Seq<u16> {
    if 0 <= channel <= 6 {
        seq![(channel + 1) as u16]
    } else if channel == 11 {
        seq![11u16]
    } else if channel == 12 {
        seq![8u16]
    } else if channel == 13 {
        seq![9u16]
    } else if channel == 10 && (chroma == 10 || chroma == 12 || chroma == 14) {
        seq![4u16, 5, 6]
    } else if channel == 10 && (chroma == 11 || chroma == 13 || chroma == 15) {
        seq![4u16, 5, 6, 7]
    } else {
        seq![(channel as int + 1000) as u16]
    }
}

/// The component types a channel of the given chroma format holds, in order.
pub fn types_for_channel(channel: i32, chroma: i32) -> (r: Vec<u16>)
    ensures
        r@ == spec_types_for_channel(channel, chroma),
{
    let mut v: Vec<u16> = Vec::new();
    if 0 <= channel && channel <= 6 {
        v.push((channel + 1) as u16);
    } else if channel == 11 {
        v.push(11);
    } else if channel == 12 {
        v.push(8);
    } else if channel == 13 {
        v.push(9);
    } else if channel == 10 && (chroma == 10 || chroma == 12 || chroma == 14) {
        v.push(4);
        v.push(5);
        v.push(6);
    } else if channel == 10 && (chroma == 11 || chroma == 13 || chroma == 15) {
        v.push(4);
        v.push(5);
        v.push(6);
        v.push(7);
    } else {
        let t: i64 = channel as i64 + 1000;
        v.push(t as u16);
    }
    assert(v@ =~= spec_types_for_channel(channel, chroma));
    v
}

impl Description {
    /// A reference component of the given type: no id, no data, unknown format.
    pub fn reference(kind: u16) -> (r: Description)
        ensures
            r.id == 0,
            r.channel == spec_channel_for_type(kind),
            r.kind == kind,
            r.datatype == 255,
            r.bit_depth == 0,
            r.width == 0,
            r.height == 0,
            !r.has_data,
            r.content_id@ == Seq::<u8>::empty(),
    {
        Description {
            id: 0,
            channel: channel_for_type(kind),
            kind,
            datatype: 255,
            bit_depth: 0,
            width: 0,
            height: 0,
            has_data: false,
            content_id: Vec::new(),
        }
    }
}

/// The component list of an image with its id counter.
#[derive(Debug)]
pub struct ComponentIds {
    pub next: u32,
    pub descriptions: Vec<Description>,
}

/// The index of the first description with id `id`, if any.
pub open spec fn first_with_id(ds: Seq<Description>, id: u32) -> Option<int> {
    if exists|i: int| 0 <= i < ds.len() && (#[trigger] ds[i]).id == id {
        Some(choose|i: int| 0 <= i < ds.len() && ds[i].id == id && forall|j: int| 0 <= j < i ==> (#[trigger] ds[j]).id != id)
    } else {
        None
    }
}

/// The position of the first description with id `id`.
pub open spec fn is_first_with_id(ds: Seq<Description>, id: u32, i: int) -> bool {
    0 <= i < ds.len() && ds[i].id == id && forall|j: int| 0 <= j < i ==> (#[trigger] ds[j]).id != id
}

impl ComponentIds {
    /// An empty list whose first id is 1.
    pub fn new() -> (r: ComponentIds)
        ensures
            r.next == 1,
            r.descriptions@ == Seq::<Description>::empty(),
    {
        ComponentIds { next: 1, descriptions: Vec::new() }
    }

    /// Hands out the next id; the counter wraps at 2^32.
    pub fn mint(&mut self) -> (r: u32)
        ensures
            r == old(self).next,
            final(self).next == (old(self).next as int + 1) % 0x1_0000_0000,
            final(self).descriptions@ == old(self).descriptions@,
    {
        let id = self.next;
        self.next = self.next.wrapping_add(1);
        id
    }

    /// The position of the first description with `id`, if any.
    pub fn position(&self, id: u32) -> (r: Option<usize>)
        ensures
            match r {
                Some(i) => is_first_with_id(self.descriptions@, id, i as int),
                None => forall|j: int| 0 <= j < self.descriptions@.len() ==> (#[trigger] self.descriptions@[j]).id != id,
            },
    {
        let mut i: usize = 0;
        while i < self.descriptions.len()
            invariant
                i <= self.descriptions@.len(),
                forall|j: int| 0 <= j < i ==> (#[trigger] self.descriptions@[j]).id != id,
            decreases self.descriptions@.len() - i,
        {
            if self.descriptions[i].id == id {
                return Some(i);
            }
            i = i + 1;
        }
        None
    }

    /// The first description with `id`.
    pub fn find(&self, id: u32) -> (r: Option<&Description>)
        ensures
            match r {
                Some(d) => exists|i: int| is_first_with_id(self.descriptions@, id, i) && *d == self.descriptions@[i],
                None => forall|j: int| 0 <= j < self.descriptions@.len() ==> (#[trigger] self.descriptions@[j]).id != id,
            },
    {
        match self.position(id) {
            Some(i) => Some(&self.descriptions[i]),
            None => None,
        }
    }

    /// The first description with id `id`, to change in place.
    pub fn find_mut(&mut self, id: u32) -> (r: Option<&mut Description>)
        ensures
            match r {
                Some(d) => exists|i: int| #[trigger] is_first_with_id(old(self).descriptions@, id, i)
                    && *d == old(self).descriptions@[i]
                    && final(self).descriptions@ == old(self).descriptions@.update(i, *final(d))
                    && final(self).next == old(self).next,
                None => *final(self) == *old(self) && forall|j: int| 0 <= j < old(self).descriptions@.len()
                    ==> (#[trigger] old(self).descriptions@[j]).id != id,
            },
    {
        match self.position(id) {
            Some(i) => {
                assert(is_first_with_id(self.descriptions@, id, i as int));
                Some(&mut self.descriptions[i])
            },
            None => None,
        }
    }

    /// Adds a description under a freshly minted id and returns the id.
    pub fn add(&mut self, description: Description) -> (r: Result<u32, Error>)
        ensures
            match r {
                Ok(id) => {
                    &&& id == old(self).next
                    &&& final(self).next == (old(self).next as int + 1) % 0x1_0000_0000
                    &&& final(self).descriptions@.len() == old(self).descriptions@.len() + 1
                    &&& final(self).descriptions@.subrange(0, old(self).descriptions@.len() as int)
                        == old(self).descriptions@
                    &&& final(self).descriptions@.last() == (Description { id, ..description })
                },
                Err(e) => {
                    &&& e.parts() == (6i32, 0i32, "Out of memory"@)
                    &&& final(self).next == old(self).next
                    &&& final(self).descriptions@ == old(self).descriptions@
                },
            },
    {
        if self.descriptions.try_reserve(1).is_err() {
            return Err(Error::allocation());
        }
        let mut description = description;
        description.id = self.mint();
        let id = description.id;
        self.descriptions.push(description);
        Ok(id)
    }

    /// Adds a reference description of the given type.
    pub fn add_reference(&mut self, kind: u16) -> (r: Result<u32, Error>)
        ensures
            match r {
                Ok(id) => {
                    &&& id == old(self).next
                    &&& final(self).next == (old(self).next as int + 1) % 0x1_0000_0000
                    &&& final(self).descriptions@.len() == old(self).descriptions@.len() + 1
                    &&& final(self).descriptions@.subrange(0, old(self).descriptions@.len() as int)
                        == old(self).descriptions@
                    &&& final(self).descriptions@.last().id == id
                    &&& final(self).descriptions@.last().kind == kind
                    &&& final(self).descriptions@.last().channel == spec_channel_for_type(kind)
                    &&& final(self).descriptions@.last().datatype == 255
                    &&& !final(self).descriptions@.last().has_data
                },
                Err(e) => {
                    &&& e.parts() == (6i32, 0i32, "Out of memory"@)
                    &&& final(self).next == old(self).next
                    &&& final(self).descriptions@ == old(self).descriptions@
                },
            },
    {
        self.add(Description::reference(kind))
    }
}

} // verus!
