//! The guest's side of the buffer protocol: its linear memory, the allocator
//! that hands out regions of it, and the two operations that move a payload
//! between a region and the guest's own code.
//!
//! A region is reserved at the lowest offset above every live region, so a
//! region that is freed last is the first to be handed out again.

use crate::buffer::{
    buffer_at, frame, frameable, overwritten, read_buffer, within, write_buffer, write_bytes,
};
use crate::error::AbiError;
use vstd::prelude::*;

verus! {

/// A reserved range of linear memory: `size` bytes starting at `offset`.
#[derive(Clone, Copy, Debug, PartialEq, Eq, Structural)]
pub struct Region {
    pub offset: u32,
    pub size: u32,
}

impl Region {
    /// The offset just past the region.
    pub open spec fn end(self) -> nat {
        (self.offset + self.size) as nat
    }
}

/// The lowest offset that lies above every region of `live`.
pub open spec fn top_of(live: Seq<Region>) -> nat
    decreases live.len(),
{
    if live.len() == 0 {
        0
    } else if live.last().end() > top_of(live.drop_last()) {
        live.last().end()
    } else {
        top_of(live.drop_last())
    }
}

/// `live` without the last of its regions that equals `region`.
pub open spec fn without_last(live: Seq<Region>, region: Region) -> Seq<Region>
    decreases live.len(),
{
    if live.len() == 0 {
        live
    } else if live.last() == region {
        live.drop_last()
    } else {
        without_last(live.drop_last(), region).push(live.last())
    }
}

/// Whether two regions share no byte and do not start at the same place
/// unless one of them is empty.
pub open spec fn apart(a: Region, b: Region) -> bool {
    a.end() <= b.offset || b.end() <= a.offset
}

/// Whether the regions of `live` lie within `capacity` bytes, apart from one
/// another.
pub open spec fn well_placed(live: Seq<Region>, capacity: nat) -> bool {
    &&& forall|i: int| 0 <= i < live.len() ==> (#[trigger] live[i]).end() <= capacity
    &&& forall|i: int, j: int| 0 <= i < j < live.len() ==> apart(#[trigger] live[i], #[trigger] live[j])
}

/// Every region ends at or below the top.
pub proof fn lemma_top_bounds(live: Seq<Region>)
    ensures
        forall|i: int| 0 <= i < live.len() ==> (#[trigger] live[i]).end() <= top_of(live),
    decreases live.len(),
{
    if live.len() > 0 {
        lemma_top_bounds(live.drop_last());
        assert forall|i: int| 0 <= i < live.len() implies (#[trigger] live[i]).end() <= top_of(
            live,
        ) by {
            if i < live.len() - 1 {
                assert(live.drop_last()[i] == live[i]);
            }
        }
    }
}

/// The top lies within the capacity that holds every region.
pub proof fn lemma_top_within(live: Seq<Region>, capacity: nat)
    requires
        well_placed(live, capacity),
    ensures
        top_of(live) <= capacity,
    decreases live.len(),
{
    if live.len() > 0 {
        let rest = live.drop_last();
        assert forall|i: int| 0 <= i < rest.len() implies (#[trigger] rest[i]).end()
            <= capacity by {
            assert(rest[i] == live[i]);
        }
        assert forall|i: int, j: int| 0 <= i < j < rest.len() implies apart(
            #[trigger] rest[i],
            #[trigger] rest[j],
        ) by {
            assert(rest[i] == live[i] && rest[j] == live[j]);
        }
        lemma_top_within(rest, capacity);
        assert(live.last() == live[live.len() - 1]);
    }
}

/// A region reserved at the top stays apart from every live region.
pub proof fn lemma_reserve_keeps_placement(live: Seq<Region>, capacity: nat, size: u32)
    requires
        well_placed(live, capacity),
        top_of(live) + size <= capacity,
        capacity <= u32::MAX,
    ensures
        well_placed(live.push(Region { offset: top_of(live) as u32, size }), capacity),
        top_of(live.push(Region { offset: top_of(live) as u32, size })) == top_of(live) + size,
{
    let region = Region { offset: top_of(live) as u32, size };
    let after = live.push(region);
    lemma_top_bounds(live);
    assert(after.drop_last() =~= live);
    assert forall|i: int, j: int| 0 <= i < j < after.len() implies apart(
        #[trigger] after[i],
        #[trigger] after[j],
    ) by {
        if j == live.len() {
            assert(after[i] == live[i]);
        } else {
            assert(after[i] == live[i] && after[j] == live[j]);
        }
    }
    assert forall|i: int| 0 <= i < after.len() implies (#[trigger] after[i]).end() <= capacity by {
        if i < live.len() {
            assert(after[i] == live[i]);
        }
    }
}

/// Whatever is left when a region is released is placed as it was.
pub proof fn lemma_release_keeps_placement(live: Seq<Region>, capacity: nat, region: Region)
    requires
        well_placed(live, capacity),
    ensures
        well_placed(without_last(live, region), capacity),
        forall|r: Region| without_last(live, region).contains(r) ==> live.contains(r),
    decreases live.len(),
{
    let rest = live.drop_last();
    let after = without_last(live, region);
    if live.len() == 0 {
    } else {
        assert forall|i: int| 0 <= i < rest.len() implies (#[trigger] rest[i]).end()
            <= capacity by {
            assert(rest[i] == live[i]);
        }
        assert forall|i: int, j: int| 0 <= i < j < rest.len() implies apart(
            #[trigger] rest[i],
            #[trigger] rest[j],
        ) by {
            assert(rest[i] == live[i] && rest[j] == live[j]);
        }
        assert forall|r: Region| rest.contains(r) implies live.contains(r) by {
            let i = choose|i: int| 0 <= i < rest.len() && rest[i] == r;
            assert(live[i] == r);
        }
        if live.last() != region {
            lemma_release_keeps_placement(rest, capacity, region);
            let kept = without_last(rest, region);
            assert forall|r: Region| after.contains(r) implies live.contains(r) by {
                let i = choose|i: int| 0 <= i < after.len() && after[i] == r;
                if i < kept.len() {
                    assert(kept[i] == r);
                    assert(kept.contains(r));
                } else {
                    assert(live[live.len() - 1] == r);
                }
            }
            assert forall|i: int| 0 <= i < after.len() implies (#[trigger] after[i]).end()
                <= capacity by {
                assert(after.contains(after[i]));
                let k = choose|k: int| 0 <= k < live.len() && live[k] == after[i];
                assert(live[k].end() <= capacity);
            }
            assert forall|i: int, j: int| 0 <= i < j < after.len() implies apart(
                #[trigger] after[i],
                #[trigger] after[j],
            ) by {
                if j < kept.len() {
                    assert(after[i] == kept[i] && after[j] == kept[j]);
                } else {
                    assert(after[i] == kept[i]);
                    assert(kept.contains(kept[i]));
                    assert(rest.contains(kept[i]));
                    let k = choose|k: int| 0 <= k < rest.len() && rest[k] == kept[i];
                    assert(live[k] == kept[i]);
                    assert(apart(live[k], live[live.len() - 1]));
                }
            }
        }
    }
}

/// Releasing a region that is live leaves one region fewer; releasing one
/// that is not leaves what is live as it is.
pub proof fn lemma_release_within(live: Seq<Region>, region: Region)
    ensures
        live.contains(region) ==> without_last(live, region).len() + 1 == live.len(),
        !live.contains(region) ==> without_last(live, region) == live,
    decreases live.len(),
{
    if live.len() > 0 {
        let rest = live.drop_last();
        if live.last() == region {
            assert(live[live.len() - 1] == region);
        } else {
            lemma_release_within(rest, region);
            if live.contains(region) {
                let k = choose|k: int| 0 <= k < live.len() && live[k] == region;
                assert(rest[k] == region);
            } else {
                if rest.contains(region) {
                    let k = choose|k: int| 0 <= k < rest.len() && rest[k] == region;
                    assert(live[k] == region);
                }
                assert(without_last(rest, region).push(live.last()) =~= live);
            }
        }
    }
}

/// Release undoes reservation: a region that was reserved last can be
/// released, and what is live is then what was live before.
pub proof fn lemma_release_after_reserve(live: Seq<Region>, size: u32)
    ensures
        ({
            let region = Region { offset: top_of(live) as u32, size };
            &&& live.push(region).contains(region)
            &&& without_last(live.push(region), region) == live
        }),
{
    let region = Region { offset: top_of(live) as u32, size };
    let after = live.push(region);
    assert(after[after.len() - 1] == region);
    assert(after.drop_last() =~= live);
}

/// A guest's linear memory and the regions of it that are reserved.
pub struct GuestMemory {
    bytes: Vec<u8>,
    live: Vec<Region>,
}

impl GuestMemory {
    /// The bytes of the memory.
    pub closed spec fn bytes(&self) -> Seq<u8> {
        self.bytes@
    }

    /// The reserved regions, in the order in which they were reserved.
    pub closed spec fn live(&self) -> Seq<Region> {
        self.live@
    }

    /// The size of the memory in bytes: the budget of the allocator.
    pub open spec fn capacity(&self) -> nat {
        self.bytes().len()
    }

    /// The lowest offset above every reserved region.
    pub open spec fn top(&self) -> nat {
        top_of(self.live())
    }

    /// The invariant: the memory is no larger than a 32-bit offset can
    /// address, and the reserved regions lie within it, apart from one
    /// another.
    pub open spec fn wf(&self) -> bool {
        &&& self.capacity() <= u32::MAX
        &&& well_placed(self.live(), self.capacity())
    }

    /// A zeroed memory of `capacity` bytes with nothing reserved.
    pub fn new(capacity: u32) -> (memory: GuestMemory)
        ensures
            memory.wf(),
            memory.capacity() == capacity,
            memory.live() == Seq::<Region>::empty(),
            forall|i: int| 0 <= i < capacity ==> memory.bytes()[i] == 0,
    {
        let mut bytes: Vec<u8> = Vec::new();
        let mut i: u32 = 0;
        while i < capacity
            invariant
                i <= capacity,
                bytes@.len() == i,
                forall|k: int| 0 <= k < i ==> bytes@[k] == 0,
            decreases capacity - i,
        {
            bytes.push(0u8);
            i = i + 1;
        }
        GuestMemory { bytes, live: Vec::new() }
    }

    /// The size of the memory in bytes.
    pub fn size(&self) -> (size: usize)
        ensures
            size == self.capacity(),
    {
        self.bytes.len()
    }

    /// The memory, to read.
    pub fn data(&self) -> (data: &[u8])
        ensures
            data@ == self.bytes(),
    {
        self.bytes.as_slice()
    }

    /// The memory, to read and write in place.
    pub fn data_mut(&mut self) -> (data: &mut [u8])
        ensures
            data@ == old(self).bytes(),
            final(self).bytes() == final(data)@,
            final(self).live() == old(self).live(),
    {
        self.bytes.as_mut_slice()
    }

    /// Copies `bytes` into the memory at `at`, unless they do not lie within
    /// it; then nothing is written.
    pub fn write(&mut self, at: u32, bytes: &[u8]) -> (written: bool)
        requires
            old(self).wf(),
        ensures
            final(self).wf(),
            final(self).live() == old(self).live(),
            written == within(old(self).capacity(), at as int, bytes@.len()),
            final(self).bytes() == if written {
                overwritten(old(self).bytes(), at as int, bytes@)
            } else {
                old(self).bytes()
            },
    {
        let start = at as usize;
        if start > self.bytes.len() || bytes.len() > self.bytes.len() - start {
            return false;
        }
        write_bytes(self.bytes.as_mut_slice(), start, bytes);
        true
    }

    /// The number of regions that are reserved.
    pub fn live_count(&self) -> (count: usize)
        ensures
            count == self.live().len(),
    {
        self.live.len()
    }

    /// Whether a region of exactly `size` bytes at `ptr` is reserved.
    pub fn is_allocated(&self, ptr: u32, size: u32) -> (found: bool)
        ensures
            found == self.live().contains(Region { offset: ptr, size }),
    {
        let mut i: usize = 0;
        while i < self.live.len()
            invariant
                i <= self.live@.len(),
                forall|k: int| 0 <= k < i ==> self.live@[k] != (Region { offset: ptr, size }),
            decreases self.live@.len() - i,
        {
            if self.live[i].offset == ptr && self.live[i].size == size {
                return true;
            }
            i = i + 1;
        }
        false
    }

    /// The lowest offset above every reserved region.
    fn compute_top(&self) -> (top: u32)
        requires
            self.wf(),
        ensures
            top == self.top(),
    {
        let mut top: u32 = 0;
        let mut i: usize = 0;
        proof {
            lemma_top_within(self.live@, self.capacity());
        }
        while i < self.live.len()
            invariant
                i <= self.live@.len(),
                self.wf(),
                top == top_of(self.live@.take(i as int)),
            decreases self.live@.len() - i,
        {
            let region = self.live[i];
            proof {
                assert(self.live@.take(i + 1).drop_last() =~= self.live@.take(i as int));
                assert(self.live@.take(i + 1).last() == region);
                assert(self.live@[i as int].end() <= self.capacity());
            }
            let end = region.offset + region.size;
            if end > top {
                top = end;
            }
            i = i + 1;
        }
        proof {
            assert(self.live@.take(self.live@.len() as int) =~= self.live@);
        }
        top
    }
}

/// Reserves exactly `size` bytes and returns the offset of the first. The
/// bytes keep whatever they held. Nothing is reserved where `size` bytes do
/// not fit above the reserved regions.
pub fn allocate_buffer(memory: &mut GuestMemory, size: u32) -> (r: Option<u32>)
    requires
        old(memory).wf(),
    ensures
        final(memory).wf(),
        final(memory).bytes() == old(memory).bytes(),
        match r {
            Some(ptr) => {
                &&& ptr == old(memory).top()
                &&& ptr + size <= old(memory).capacity()
                &&& final(memory).live() == old(memory).live().push(Region { offset: ptr, size })
                &&& final(memory).top() == ptr + size
            },
            None => {
                &&& old(memory).top() + size > old(memory).capacity()
                &&& final(memory).live() == old(memory).live()
            },
        },
{
    let top = memory.compute_top();
    proof {
        lemma_top_within(memory.live(), memory.capacity());
    }
    if size as usize > memory.bytes.len() - top as usize {
        return None;
    }
    proof {
        lemma_reserve_keeps_placement(memory.live(), memory.capacity(), size);
    }
    memory.live.push(Region { offset: top, size });
    Some(top)
}

/// Releases the region of `size` bytes at `ptr`. The region must be reserved
/// with exactly that size: a release with any other size is a fault of the
/// caller that this function cannot detect.
pub fn free_buffer(memory: &mut GuestMemory, ptr: u32, size: u32)
    requires
        old(memory).wf(),
        old(memory).live().contains(Region { offset: ptr, size }),
    ensures
        final(memory).wf(),
        final(memory).bytes() == old(memory).bytes(),
        final(memory).live() == without_last(old(memory).live(), Region { offset: ptr, size }),
        final(memory).live().len() + 1 == old(memory).live().len(),
{
    let ghost region = Region { offset: ptr, size };
    let ghost before = memory.live@;
    proof {
        lemma_release_keeps_placement(before, memory.capacity(), region);
        lemma_release_within(before, region);
    }
    let mut i: usize = memory.live.len();
    proof {
        assert(before.take(i as int) =~= before);
        assert(before.skip(i as int) =~= Seq::<Region>::empty());
        assert(without_last(before, region) + Seq::<Region>::empty() =~= without_last(
            before,
            region,
        ));
    }
    while i > 0
        invariant
            i <= memory.live@.len(),
            memory.live@ == before,
            before == old(memory).live@,
            region == (Region { offset: ptr, size }),
            memory.bytes@ == old(memory).bytes@,
            memory.bytes@.len() <= u32::MAX,
            well_placed(without_last(before, region), memory.bytes@.len()),
            without_last(before, region).len() + 1 == before.len(),
            before.take(i as int).contains(region),
            without_last(before, region) == without_last(before.take(i as int), region)
                + before.skip(i as int),
        decreases i,
    {
        proof {
            assert(before.take(i as int).drop_last() =~= before.take(i - 1));
            assert(before.take(i as int).last() == before[i - 1]);
        }
        if memory.live[i - 1].offset == ptr && memory.live[i - 1].size == size {
            proof {
                assert(before.remove(i - 1) =~= before.take(i - 1) + before.skip(i as int));
                assert(before[i - 1] == region);
                assert(before.take(i as int).last() == region);
                assert(without_last(before.take(i as int), region) == before.take(
                    i as int,
                ).drop_last());
            }
            memory.live.remove(i - 1);
            return ;
        }
        proof {
            let shorter = before.take(i - 1);
            assert(shorter.contains(region)) by {
                let k = choose|k: int|
                    0 <= k < before.take(i as int).len() && before.take(i as int)[k] == region;
                assert(shorter[k] == region);
            }
            assert(without_last(shorter, region).push(before[i - 1]) + before.skip(i as int)
                =~= without_last(shorter, region) + before.skip(i - 1));
        }
        i = i - 1;
    }
    proof {
        assert(before.take(0).len() == 0);
        assert(false);
    }
}

/// Writes `payload` as a buffer into a region reserved for it and returns the
/// pointer to it. The caller owns the buffer until it hands the pointer over.
pub fn into_abi(memory: &mut GuestMemory, payload: &[u8]) -> (r: Result<u32, AbiError>)
    requires
        old(memory).wf(),
    ensures
        final(memory).wf(),
        match r {
            Ok(ptr) => {
                &&& frameable(payload@.len())
                &&& ptr == old(memory).top()
                &&& ptr + payload@.len() + 4 <= old(memory).capacity()
                &&& final(memory).live() == old(memory).live().push(
                    Region { offset: ptr, size: (payload@.len() + 4) as u32 },
                )
                &&& final(memory).bytes() == overwritten(
                    old(memory).bytes(),
                    ptr as int,
                    frame(payload@),
                )
            },
            Err(e) => {
                &&& final(memory).live() == old(memory).live()
                &&& final(memory).bytes() == old(memory).bytes()
                &&& e == if !frameable(payload@.len()) {
                    AbiError::SizeLimitExceeded
                } else {
                    AbiError::OutOfMemory
                }
                &&& !frameable(payload@.len()) || old(memory).top() + payload@.len() + 4 > old(
                    memory,
                ).capacity()
            },
        },
{
    if payload.len() > 0xffff_fffb {
        return Err(AbiError::SizeLimitExceeded);
    }
    let size = (payload.len() + 4) as u32;
    match allocate_buffer(memory, size) {
        None => Err(AbiError::OutOfMemory),
        Some(ptr) => {
            let written = write_buffer(memory.bytes.as_mut_slice(), ptr, payload);
            assert(written is Ok);
            assert(memory.bytes@.len() == old(memory).bytes@.len()) by {
                crate::bytes::lemma_le_bytes_len(payload@.len(), 4);
            }
            Ok(ptr)
        },
    }
}

/// Whether `ptr` points to a buffer that lies within memory and whose region
/// is reserved with the size of the buffer.
pub open spec fn holds_buffer(memory: &GuestMemory, ptr: u32) -> bool {
    buffer_at(memory.bytes(), ptr as int) matches Some(payload) && frameable(payload.len())
        && memory.live().contains(Region { offset: ptr, size: (payload.len() + 4) as u32 })
}

/// Takes the payload out of the buffer at `ptr` and releases the buffer's
/// region. Fails, and changes nothing, where no reserved buffer starts at
/// `ptr`.
pub fn from_abi(memory: &mut GuestMemory, ptr: u32) -> (r: Result<Vec<u8>, AbiError>)
    requires
        old(memory).wf(),
    ensures
        final(memory).wf(),
        final(memory).bytes() == old(memory).bytes(),
        match r {
            Ok(payload) => {
                &&& holds_buffer(old(memory), ptr)
                &&& buffer_at(old(memory).bytes(), ptr as int) == Some(payload@)
                &&& final(memory).live() == without_last(
                    old(memory).live(),
                    Region { offset: ptr, size: (payload@.len() + 4) as u32 },
                )
            },
            Err(e) => {
                &&& e == AbiError::OutOfBounds
                &&& !holds_buffer(old(memory), ptr)
                &&& final(memory).live() == old(memory).live()
            },
        },
{
    match read_buffer(memory.bytes.as_slice(), ptr) {
        Err(e) => Err(e),
        Ok(payload) => {
            if payload.len() > 0xffff_fffb {
                return Err(AbiError::OutOfBounds);
            }
            let size = (payload.len() + 4) as u32;
            if !memory.is_allocated(ptr, size) {
                return Err(AbiError::OutOfBounds);
            }
            free_buffer(memory, ptr, size);
            Ok(payload)
        },
    }
}

} // verus!
