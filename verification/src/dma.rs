//! Leased access to guest memory by guest physical address.

use vstd::prelude::*;

use crate::bytes::put_slice;
use crate::error::{DeviceDownReason, DeviceError};
use crate::guest;
use crate::guest::{GuestMemory, Region};

verus! {

/// A run of guest physical addresses.
#[derive(Clone, Copy, Debug, PartialEq, Eq, Structural)]
pub struct DmaRange {
    pub gpa: u64,
    pub length: usize,
}

impl DmaRange {
    pub fn new(gpa: u64, length: usize) -> (range: Self)
        ensures
            range == (DmaRange { gpa, length }),
    {
        DmaRange { gpa, length }
    }

    /// The first address behind the range, if there is one.
    pub fn end(self) -> (end: Option<u64>)
        ensures
            match end {
                Some(end) => end == self.gpa + self.length,
                None => self.gpa + self.length > u64::MAX,
            },
    {
        self.gpa.checked_add(self.length as u64)
    }
}

/// One directly mapped interval of guest addresses, supplied by an embedding transport.
#[derive(Debug)]
pub struct DmaSegment<'a> {
    gpa: u64,
    bytes: &'a mut [u8],
}

impl<'a> View for DmaSegment<'a> {
    type V = Region;

    closed spec fn view(&self) -> Region {
        Region { gpa: self.gpa, bytes: self.bytes@ }
    }
}

impl<'a> DmaSegment<'a> {
    /// The bytes that were lent to the segment.
    pub closed spec fn lent(self) -> &'a mut [u8] {
        self.bytes
    }

    /// `bytes` must map exactly the guest addresses from `gpa` on, for the generation
    /// that owns the segment.  What the segment holds in the end is what the lender gets
    /// back.
    pub fn new(gpa: u64, bytes: &'a mut [u8]) -> (segment: Self)
        ensures
            segment@ == (Region { gpa, bytes: old(bytes)@ }),
            segment.lent()@ == segment@.bytes,
            final(bytes)@ == final(segment.lent())@,
    {
        DmaSegment { gpa, bytes }
    }

    pub fn gpa(&self) -> (gpa: u64)
        ensures
            gpa == self@.gpa,
    {
        self.gpa
    }

    pub fn length(&self) -> (length: usize)
        ensures
            length == self@.bytes.len(),
    {
        self.bytes.len()
    }

    /// The first address behind the segment, if there is one.
    fn end(&self) -> (end: Option<u64>)
        ensures
            match end {
                Some(end) => end == self@.end(),
                None => self@.end() > u64::MAX,
            },
    {
        self.gpa.checked_add(self.bytes.len() as u64)
    }
}

/// The regions that `segments` are.
pub open spec fn regions_of(segments: Seq<DmaSegment>) -> Seq<Region> {
    Seq::new(segments.len(), |i: int| segments[i]@)
}

/// What is wrong with region `i` of an address-ordered layout, if anything.
pub open spec fn region_fault(regions: Seq<Region>, i: int) -> Option<DeviceError> {
    if regions[i].bytes.len() == 0 || regions[i].end() > u64::MAX {
        Some(DeviceError::InvalidLayout("invalid DMA segment"))
    } else if i != 0 && regions[i - 1].end() > regions[i].gpa {
        Some(DeviceError::InvalidLayout("overlapping DMA segments"))
    } else {
        None
    }
}

/// Whether region `i` is the first one with a fault, and the fault is `error`.
pub open spec fn first_region_fault(regions: Seq<Region>, i: int, error: DeviceError) -> bool {
    &&& 0 <= i < regions.len()
    &&& region_fault(regions, i) == Some(error)
    &&& forall|j: int| 0 <= j < i ==> (#[trigger] region_fault(regions, j)) is None
}

/// Whether regions stand in address order.
pub open spec fn address_ordered(regions: Seq<Region>) -> bool {
    forall|i: int, j: int|
        #![trigger regions[i], regions[j]]
        0 <= i <= j < regions.len() ==> regions[i].gpa <= regions[j].gpa
}

proof fn lemma_disjoint_up_to(regions: Seq<Region>, i: int, j: int)
    requires
        0 <= i < j < regions.len(),
        forall|k: int| 0 <= k < regions.len() ==> (#[trigger] region_fault(regions, k)) is None,
    ensures
        regions[i].end() <= regions[j].gpa,
    decreases j - i,
{
    assert(region_fault(regions, j) is None);
    if j > i + 1 {
        lemma_disjoint_up_to(regions, i, j - 1);
        assert(region_fault(regions, j - 1) is None);
    }
}

/// Puts segments in the order of their addresses.
fn order_segments<'a>(segments: Vec<DmaSegment<'a>>) -> (ordered: Vec<DmaSegment<'a>>)
    ensures
        regions_of(ordered@).to_multiset() == regions_of(segments@).to_multiset(),
        ordered@.len() == segments@.len(),
        address_ordered(regions_of(ordered@)),
{
    let mut left = segments;
    let mut ordered: Vec<DmaSegment<'a>> = Vec::new();
    let ghost all = regions_of(segments@).to_multiset();
    proof {
        assert(regions_of(ordered@) =~= Seq::empty());
        regions_of(ordered@).to_multiset_ensures();
        assert(regions_of(ordered@).to_multiset() =~= vstd::multiset::Multiset::empty());
    }
    loop
        invariant
            all == regions_of(left@).to_multiset().add(regions_of(ordered@).to_multiset()),
            left@.len() + ordered@.len() == segments@.len(),
            address_ordered(regions_of(ordered@)),
        ensures
            left@.len() == 0,
            all == regions_of(left@).to_multiset().add(regions_of(ordered@).to_multiset()),
            left@.len() + ordered@.len() == segments@.len(),
            address_ordered(regions_of(ordered@)),
        decreases left@.len(),
    {
        let ghost before = left@;
        match left.pop() {
            None => {
                break;
            },
            Some(segment) => {
                let mut at: usize = 0;
                while at < ordered.len() && ordered[at].gpa <= segment.gpa
                    invariant
                        at <= ordered@.len(),
                        forall|k: int|
                            0 <= k < at ==> (#[trigger] regions_of(ordered@)[k]).gpa <= segment@.gpa,
                    decreases ordered@.len() - at,
                {
                    at = at + 1;
                }
                let ghost sorted = ordered@;
                ordered.insert(at, segment);
                proof {
                    let rs = regions_of(sorted);
                    assert(regions_of(ordered@) =~= rs.insert(at as int, segment@));
                    assert(regions_of(before) =~= regions_of(left@).push(segment@));
                    vstd::seq_lib::to_multiset_insert(rs, at as int, segment@);
                    vstd::seq_lib::to_multiset_build(regions_of(left@), segment@);
                    assert(all =~= regions_of(left@).to_multiset().add(
                        regions_of(ordered@).to_multiset(),
                    ));
                    if at < rs.len() {
                        assert(rs[at as int].gpa > segment@.gpa);
                    }
                    assert forall|i: int, j: int|
                        #![trigger regions_of(ordered@)[i], regions_of(ordered@)[j]]
                        0 <= i <= j < ordered@.len() implies regions_of(ordered@)[i].gpa <= regions_of(
                        ordered@,
                    )[j].gpa by {
                        let pi = if i < at { i } else { i - 1 };
                        let pj = if j < at { j } else { j - 1 };
                        if i != at {
                            assert(rs[pi] == regions_of(ordered@)[i]);
                        }
                        if j != at {
                            assert(rs[pj] == regions_of(ordered@)[j]);
                        }
                        if i == at && j > at {
                            assert(rs[at as int].gpa <= rs[pj].gpa);
                        }
                    }
                }
            },
        }
    }
    proof {
        assert(regions_of(left@) =~= Seq::empty());
        regions_of(left@).to_multiset_ensures();
        assert(regions_of(left@).to_multiset() =~= vstd::multiset::Multiset::empty());
        assert(regions_of(ordered@).to_multiset() =~= all);
    }
    ordered
}

/// Whether `regions` are the regions `given`, put in address order.
pub open spec fn is_ordering_of(regions: Seq<Region>, given: Seq<Region>) -> bool {
    address_ordered(regions) && regions.to_multiset() == given.to_multiset()
}

/// What making a memory out of regions in address order gives: memory without leases,
/// or the first fault.
pub open spec fn opens_as(
    generation: u64,
    regions: Seq<Region>,
    result: Result<GuestMemory, DeviceError>,
) -> bool {
    match result {
        Ok(memory) => {
            &&& memory == GuestMemory { generation, revoked: false, active: 0, regions }
            &&& memory.wf()
        },
        Err(error) => exists|i: int| first_region_fault(regions, i, error),
    }
}

/// A contiguous piece of a lease: `length` bytes at address `gpa`, which are the bytes
/// from `offset` on of region `region` in the memory of `generation`.
#[verifier::ext_equal]
pub struct Part {
    pub generation: u64,
    pub gpa: int,
    pub region: int,
    pub offset: int,
    pub length: int,
}

impl Part {
    /// Whether the part lies where it says in `mem`.
    pub open spec fn placed(self, mem: GuestMemory) -> bool {
        &&& self.generation == mem.generation
        &&& 0 <= self.region < mem.regions.len()
        &&& 0 <= self.offset
        &&& 0 < self.length
        &&& self.offset + self.length <= mem.regions[self.region].bytes.len()
        &&& self.gpa == mem.regions[self.region].gpa + self.offset
    }
}

/// Whether `parts` are the pieces of the `length` bytes from `gpa` on, in order: they
/// adjoin, each lies in one region, and every part but the last reaches its region's
/// end.
pub open spec fn tiles(parts: Seq<Part>, mem: GuestMemory, gpa: int, length: int) -> bool {
    &&& parts.len() == 0 <==> length == 0
    &&& parts.len() > 0 ==> parts[0].gpa == gpa && parts.last().gpa + parts.last().length == gpa
        + length
    &&& forall|i: int| 0 <= i < parts.len() ==> (#[trigger] parts[i]).placed(mem)
    &&& forall|i: int, j: int|
        #![trigger parts[i], parts[j]]
        0 <= i < parts.len() && j == i + 1 && j < parts.len() ==> {
            &&& parts[i].gpa + parts[i].length == parts[j].gpa
            &&& parts[i].offset + parts[i].length == mem.regions[parts[i].region].bytes.len()
        }
}

/// Every part ends where the range ends, or before.
proof fn lemma_part_ends_in_range(
    parts: Seq<Part>,
    mem: GuestMemory,
    gpa: int,
    length: int,
    k: int,
)
    requires
        tiles(parts, mem, gpa, length),
        0 <= k < parts.len(),
    ensures
        parts[k].gpa + parts[k].length <= gpa + length,
    decreases parts.len() - k,
{
    if k + 1 < parts.len() {
        lemma_part_ends_in_range(parts, mem, gpa, length, k + 1);
        assert(parts[k + 1].placed(mem));
        assert(parts[k].gpa + parts[k].length == parts[k + 1].gpa);
    }
}

/// The first part of a range is as much of it as lies in the region of its first byte.
pub proof fn lemma_first_part(parts: Seq<Part>, mem: GuestMemory, gpa: int, length: int)
    requires
        mem.wf(),
        tiles(parts, mem, gpa, length),
        length > 0,
    ensures
        parts.len() > 0,
        parts[0].placed(mem),
        parts[0].gpa == gpa,
        parts[0].length == mem.run(gpa, length),
        0 < parts[0].length <= length,
{
    let first = parts[0];
    assert(first.placed(mem));
    assert(mem.holds(first.region, gpa));
    guest::lemma_run(mem, first.region, gpa, length);
    lemma_part_ends_in_range(parts, mem, gpa, length, 0);
    if parts.len() > 1 {
        assert(first.gpa + first.length == parts[1].gpa);
    }
}

/// A part of a lease stays where it is for as long as the lease is held, whatever happens
/// to the memory meanwhile: further leases, releases of other leases, stores, and the
/// revocation.  While it is held the memory has not drained, and no memory of another
/// generation takes the part.
pub proof fn law_parts_outlast_all_but_their_lease(
    part: Part,
    mem: GuestMemory,
    gpa: int,
    data: Seq<u8>,
    other: GuestMemory,
)
    requires
        part.placed(mem),
    ensures
        mem.active < usize::MAX ==> mem.leased().active > 0,
        mem.active > 1 ==> mem.released().active > 0,
        part.placed(mem.leased()),
        part.placed(mem.released()),
        part.placed(mem.poke(gpa, data)),
        mem.poke(gpa, data).active == mem.active,
        part.placed(GuestMemory { revoked: true, ..mem }),
        other.generation != mem.generation ==> !part.placed(other),
{
}

/// A contiguous part of a lease.  It is used through its lease, and only while that is
/// held.
#[derive(Debug)]
pub struct DmaPart {
    generation: u64,
    gpa: u64,
    segment: usize,
    offset: usize,
    length: usize,
}

impl View for DmaPart {
    type V = Part;

    closed spec fn view(&self) -> Part {
        Part {
            generation: self.generation,
            gpa: self.gpa as int,
            region: self.segment as int,
            offset: self.offset as int,
            length: self.length as int,
        }
    }
}

/// The parts as what they stand for.
pub open spec fn parts_of(parts: Seq<DmaPart>) -> Seq<Part> {
    Seq::new(parts.len(), |i: int| parts[i]@)
}

impl DmaPart {
    pub fn gpa(&self) -> (gpa: u64)
        ensures
            gpa == self@.gpa,
    {
        self.gpa
    }

    pub fn length(&self) -> (length: usize)
        ensures
            length == self@.length,
    {
        self.length
    }

    /// The bytes of the part, while a lease of the memory is outstanding.
    pub fn read_slice<'m>(&self, memory: &'m DmaMemory<'_>) -> (bytes: &'m [u8])
        requires
            memory@.wf(),
            self@.placed(memory@),
            memory@.active > 0,
        ensures
            bytes@ == memory@.peek(self@.gpa, self@.length),
    {
        self.slice_of(memory)
    }

    /// The bytes of the part, for as long as the memory is borrowed.
    pub(crate) fn slice_of<'m>(&self, memory: &'m DmaMemory<'_>) -> (bytes: &'m [u8])
        requires
            memory@.wf(),
            self@.placed(memory@),
        ensures
            bytes@ == memory@.peek(self@.gpa, self@.length),
    {
        let segment: &'m [u8] = &*memory.segments[self.segment].bytes;
        proof {
            guest::lemma_peek_in_region(
                memory@,
                self.segment as int,
                self.offset as int,
                self.length as int,
            );
        }
        assert(self.offset + self.length <= segment.len());
        vstd::slice::slice_subrange(segment, self.offset, self.offset + self.length)
    }

    /// The bytes of the part, to be changed in place while a lease of the memory is
    /// outstanding.
    pub fn write_slice<'m>(&self, memory: &'m mut DmaMemory<'_>) -> (bytes: &'m mut [u8])
        requires
            old(memory)@.wf(),
            self@.placed(old(memory)@),
            old(memory)@.active > 0,
        ensures
            bytes@ == old(memory)@.peek(self@.gpa, self@.length),
            final(bytes)@.len() == self@.length ==> final(memory)@ == old(memory)@.poke(
                self@.gpa,
                final(bytes)@,
            ),
    {
        self.slice_of_mut(memory)
    }

    /// The bytes of the part, to be changed in place for as long as the memory is borrowed.
    pub(crate) fn slice_of_mut<'m>(&self, memory: &'m mut DmaMemory<'_>) -> (bytes: &'m mut [u8])
        requires
            old(memory)@.wf(),
            self@.placed(old(memory)@),
        ensures
            bytes@ == old(memory)@.peek(self@.gpa, self@.length),
            final(bytes)@.len() == self@.length ==> final(memory)@ == old(memory)@.poke(
                self@.gpa,
                final(bytes)@,
            ),
    {
        assert(self.offset + self.length <= memory.segments@[self.segment as int].bytes.len());
        let end: usize = self.offset + self.length;
        let ghost before = memory@;
        let ghost i = self.segment as int;
        let ghost at = self.offset as int;
        proof {
            guest::lemma_peek_in_region(before, i, at, self.length as int);
            assert forall|data: Seq<u8>| data.len() == self.length implies (#[trigger] before.poke(
                self@.gpa,
                data,
            )).regions == before.regions.update(
                i,
                Region {
                    gpa: before.regions[i].gpa,
                    bytes: before.regions[i].bytes.subrange(0, at) + data
                        + before.regions[i].bytes.subrange(
                        at + data.len(),
                        before.regions[i].bytes.len() as int,
                    ),
                },
            ) by {
                guest::lemma_poke_in_region(before, i, at, data);
            }
        }
        let segment: &'m mut [u8] = &mut *memory.segments[self.segment].bytes;
        let (head, tail) = segment.split_at_mut(end);
        let (front, bytes) = head.split_at_mut(self.offset);
        proof {
            assert(has_resolved(front));
            assert(has_resolved(tail));
            assert(final(front)@ =~= before.regions[i].bytes.subrange(0, at));
            assert(final(tail)@ =~= before.regions[i].bytes.subrange(
                at + self.length,
                before.regions[i].bytes.len() as int,
            ));
            assert(after_borrow(memory).segments@[i].bytes@ =~= final(front)@ + final(bytes)@
                + final(tail)@);
            assert(after_borrow(memory)@.regions =~= before.regions.update(
                i,
                Region {
                    gpa: before.regions[i].gpa,
                    bytes: final(front)@ + final(bytes)@ + final(tail)@,
                },
            ));
        }
        bytes
    }
}

/// A generation-scoped collection of direct guest-memory mappings.
///
/// The embedding transport calls `revoke()` before it removes mappings, and waits until
/// `is_drained()` before it unmaps them.  Whoever works on the bytes in place holds a
/// `DmaLease` meanwhile; the devices of this crate copy bytes in and out, each time under
/// a borrow of the memory that ends with the copy.
#[derive(Debug)]
pub struct DmaMemory<'a> {
    generation: u64,
    segments: Vec<DmaSegment<'a>>,
    revoked: bool,
    active: usize,
}

impl<'a> View for DmaMemory<'a> {
    type V = GuestMemory;

    closed spec fn view(&self) -> GuestMemory {
        GuestMemory {
            generation: self.generation,
            revoked: self.revoked,
            active: self.active,
            regions: regions_of(self.segments@),
        }
    }
}

impl<'a> DmaMemory<'a> {
    pub fn new(generation: u64, segments: Vec<DmaSegment<'a>>) -> (result: Result<Self, DeviceError>)
        ensures
            segments@.len() == 0 ==> result == Err::<Self, DeviceError>(
                DeviceError::InvalidLayout("DMA mapping has no segments"),
            ),
            segments@.len() > 0 ==> exists|regions: Seq<Region>|
                #[trigger] is_ordering_of(regions, regions_of(segments@)) && opens_as(
                    generation,
                    regions,
                    match result {
                        Ok(memory) => Ok(memory@),
                        Err(error) => Err(error),
                    },
                ),
    {
        if segments.len() == 0 {
            return Err(DeviceError::InvalidLayout("DMA mapping has no segments"));
        }
        let ordered = order_segments(segments);
        let ghost regions = regions_of(ordered@);
        assert(is_ordering_of(regions, regions_of(segments@)));
        let mut index: usize = 0;
        while index < ordered.len()
            invariant
                index <= ordered@.len(),
                regions == regions_of(ordered@),
                is_ordering_of(regions, regions_of(segments@)),
                segments@.len() > 0,
                forall|j: int| 0 <= j < index ==> (#[trigger] region_fault(regions, j)) is None,
            decreases ordered@.len() - index,
        {
            let segment = &ordered[index];
            if segment.length() == 0 || segment.end().is_none() {
                let error = DeviceError::InvalidLayout("invalid DMA segment");
                assert(first_region_fault(regions, index as int, error));
                return Err(error);
            }
            if index != 0 {
                assert(region_fault(regions, index - 1) is None);
                if ordered[index - 1].end().unwrap() > segment.gpa() {
                    let error = DeviceError::InvalidLayout("overlapping DMA segments");
                    assert(first_region_fault(regions, index as int, error));
                    return Err(error);
                }
            }
            assert(region_fault(regions, index as int) is None);
            index = index + 1;
        }
        let memory = DmaMemory { generation, segments: ordered, revoked: false, active: 0 };
        proof {
            assert(regions.len() > 0);
            assert forall|i: int|
                #![trigger regions[i]]
                0 <= i < regions.len() implies regions[i].bytes.len() > 0 && regions[i].end()
                <= u64::MAX by {
                assert(region_fault(regions, i) is None);
            }
            assert forall|i: int, j: int|
                #![trigger regions[i], regions[j]]
                0 <= i < j < regions.len() implies regions[i].end() <= regions[j].gpa by {
                lemma_disjoint_up_to(regions, i, j);
            }
            assert(opens_as(generation, regions, Ok(memory@)));
        }
        Ok(memory)
    }

    pub fn generation(&self) -> (generation: u64)
        ensures
            generation == self@.generation,
    {
        self.generation
    }

    /// The segments in address order.
    pub fn segments(&self) -> (segments: &[DmaSegment<'a>])
        ensures
            regions_of(segments@) == self@.regions,
    {
        self.segments.as_slice()
    }

    pub fn is_revoked(&self) -> (revoked: bool)
        ensures
            revoked == self@.revoked,
    {
        self.revoked
    }

    /// Prevents future leases.
    pub fn revoke(&mut self)
        ensures
            final(self)@ == (GuestMemory { revoked: true, ..old(self)@ }),
    {
        self.revoked = true;
    }

    /// Whether no lease is outstanding.
    pub fn is_drained(&self) -> (drained: bool)
        ensures
            drained == (self@.active == 0),
    {
        self.active == 0
    }

    /// The segment that holds `address`, if one does.
    fn find_segment(&self, address: u64) -> (found: Option<usize>)
        ensures
            match found {
                Some(i) => self@.holds(i as int, address as int),
                None => !self@.mapped(address as int),
            },
    {
        let mut i: usize = 0;
        while i < self.segments.len()
            invariant
                i <= self.segments@.len(),
                forall|k: int| 0 <= k < i ==> !#[trigger] self@.holds(k, address as int),
            decreases self.segments@.len() - i,
        {
            let segment = &self.segments[i];
            assert(self@.regions[i as int] == segment@);
            if segment.gpa <= address && address - segment.gpa < segment.bytes.len() as u64 {
                return Some(i);
            }
            i = i + 1;
        }
        None
    }

    /// The pieces of `range`.
    fn translate(&self, range: DmaRange) -> (result: Result<Vec<DmaPart>, DeviceError>)
        requires
            self@.wf(),
        ensures
            match result {
                Ok(parts) => {
                    &&& self@.covers(range.gpa as int, range.length as int)
                    &&& tiles(parts_of(parts@), self@, range.gpa as int, range.length as int)
                },
                Err(error) => {
                    &&& !self@.covers(range.gpa as int, range.length as int)
                    &&& error == (DeviceError::DmaRange { gpa: range.gpa, length: range.length })
                },
            },
    {
        let end: u64 = match range.end() {
            Some(end) => end,
            None => {
                return Err(DeviceError::DmaRange { gpa: range.gpa, length: range.length });
            },
        };
        let mut cursor: u64 = range.gpa;
        let mut parts: Vec<DmaPart> = Vec::new();
        assert(parts_of(parts@) =~= Seq::empty());
        while cursor < end
            invariant
                self@.wf(),
                end == range.gpa + range.length,
                range.gpa <= cursor <= end,
                forall|a: int| range.gpa <= a < cursor ==> #[trigger] self@.mapped(a),
                tiles(parts_of(parts@), self@, range.gpa as int, cursor - range.gpa),
                parts@.len() > 0 && cursor < end ==> parts_of(parts@).last().offset + parts_of(
                    parts@,
                ).last().length == self@.regions[parts_of(parts@).last().region].bytes.len(),
            decreases end - cursor,
        {
            let i: usize = match self.find_segment(cursor) {
                Some(i) => i,
                None => {
                    assert(!self@.mapped(cursor as int));
                    return Err(DeviceError::DmaRange { gpa: range.gpa, length: range.length });
                },
            };
            let segment = &self.segments[i];
            assert(self@.regions[i as int] == segment@);
            let segment_end: u64 = segment.gpa + segment.bytes.len() as u64;
            let part_end: u64 = if segment_end < end {
                segment_end
            } else {
                end
            };
            let offset: usize = (cursor - segment.gpa) as usize;
            let length: usize = (part_end - cursor) as usize;
            let part = DmaPart {
                generation: self.generation,
                gpa: cursor,
                segment: i,
                offset,
                length,
            };
            let ghost done = parts_of(parts@);
            parts.push(part);
            proof {
                assert(parts_of(parts@) =~= done.push(part@));
                assert(part@.placed(self@));
                assert forall|a: int| range.gpa <= a < part_end implies #[trigger] self@.mapped(a) by {
                    if a >= cursor {
                        assert(self@.holds(i as int, a));
                    }
                }
                assert forall|k: int|
                    0 <= k < parts_of(parts@).len() - 1 implies {
                    &&& (#[trigger] parts_of(parts@)[k]).gpa + parts_of(parts@)[k].length
                        == parts_of(parts@)[k + 1].gpa
                    &&& parts_of(parts@)[k].offset + parts_of(parts@)[k].length
                        == self@.regions[parts_of(parts@)[k].region].bytes.len()
                } by {
                    assert(parts_of(parts@)[k] == done[k]);
                    if k < done.len() - 1 {
                        assert(parts_of(parts@)[k + 1] == done[k + 1]);
                    }
                }
            }
            cursor = part_end;
        }
        Ok(parts)
    }

    /// Whether `range` is mapped.
    pub fn check_range(&self, range: DmaRange) -> (result: Result<(), DeviceError>)
        requires
            self@.wf(),
        ensures
            result == if self@.covers(range.gpa as int, range.length as int) {
                Ok::<(), DeviceError>(())
            } else {
                Err::<(), DeviceError>(
                    DeviceError::DmaRange { gpa: range.gpa, length: range.length },
                )
            },
    {
        match self.translate(range) {
            Ok(_) => Ok(()),
            Err(error) => Err(error),
        }
    }

    /// The pieces of `range`, unless the memory was revoked.
    pub(crate) fn grant(&self, range: DmaRange) -> (result: Result<Vec<DmaPart>, DeviceError>)
        requires
            self@.wf(),
        ensures
            match result {
                Ok(parts) => {
                    &&& self@.fault(range) is None
                    &&& tiles(parts_of(parts@), self@, range.gpa as int, range.length as int)
                },
                Err(error) => self@.fault(range) == Some(error),
            },
    {
        if self.revoked {
            return Err(DeviceError::Down(DeviceDownReason::Revoked));
        }
        self.translate(range)
    }

    /// Takes hold of `range` until the lease is handed to `release()`.
    pub fn lease(&mut self, range: DmaRange) -> (result: Result<DmaLease, DeviceError>)
        requires
            old(self)@.wf(),
        ensures
            match result {
                Ok(lease) => {
                    &&& old(self)@.fault(range) is None
                    &&& tiles(lease@, old(self)@, range.gpa as int, range.length as int)
                    &&& lease.spec_generation() == old(self)@.generation
                    &&& final(self)@ == old(self)@.leased()
                },
                Err(error) => {
                    &&& old(self)@.fault(range) == Some(error)
                    &&& final(self)@ == old(self)@
                },
            },
    {
        let parts = match self.grant(range) {
            Ok(parts) => parts,
            Err(error) => {
                return Err(error);
            },
        };
        self.active = self.active.wrapping_add(1);
        Ok(DmaLease { generation: self.generation, parts })
    }

    /// Gives a lease of this memory back, and says whether it was the last one
    /// outstanding.
    pub fn release(&mut self, lease: DmaLease) -> (drained: bool)
        requires
            lease.spec_generation() == old(self)@.generation,
            old(self)@.active > 0,
        ensures
            drained == (old(self)@.active == 1),
            final(self)@ == old(self)@.released(),
    {
        let last: bool = self.active == 1;
        self.active = self.active - 1;
        last
    }

    /// Reads `range`.
    pub fn read(&self, range: DmaRange) -> (result: Result<Vec<u8>, DeviceError>)
        requires
            self@.wf(),
        ensures
            match result {
                Ok(bytes) => {
                    &&& self@.fault(range) is None
                    &&& bytes@ == self@.peek(range.gpa as int, range.length as int)
                },
                Err(error) => self@.fault(range) == Some(error),
            },
    {
        let parts = match self.grant(range) {
            Ok(parts) => parts,
            Err(error) => {
                return Err(error);
            },
        };
        let mut bytes: Vec<u8> = Vec::with_capacity(range.length);
        let ghost tiling = parts_of(parts@);
        let ghost gpa = range.gpa as int;
        let mut k: usize = 0;
        assert(bytes@ =~= self@.peek(gpa, 0));
        while k < parts.len()
            invariant
                k <= parts@.len(),
                self@.wf(),
                gpa == range.gpa,
                tiling == parts_of(parts@),
                tiles(tiling, self@, gpa, range.length as int),
                bytes@ == self@.peek(
                    gpa,
                    (if k < tiling.len() {
                        tiling[k as int].gpa - gpa
                    } else {
                        range.length as int
                    }),
                ),
                k < tiling.len() ==> gpa <= tiling[k as int].gpa,
            decreases parts@.len() - k,
        {
            let part = &parts[k];
            assert(tiling[k as int] == part@);
            put_slice(&mut bytes, part.slice_of(self));
            proof {
                guest::lemma_peek_concat(self@, gpa, part@.gpa - gpa, part@.length);
            }
            k = k + 1;
        }
        Ok(bytes)
    }

    /// Takes hold of `range` and stores `data` at its start.
    #[verifier::spinoff_prover]
    pub fn write_prefix(&mut self, range: DmaRange, data: &[u8]) -> (result: Result<(), DeviceError>)
        requires
            old(self)@.wf(),
            data@.len() <= range.length,
        ensures
            match result {
                Ok(()) => {
                    &&& old(self)@.fault(range) is None
                    &&& final(self)@ == old(self)@.poke(range.gpa as int, data@)
                },
                Err(error) => {
                    &&& old(self)@.fault(range) == Some(error)
                    &&& final(self)@ == old(self)@
                },
            },
    {
        let parts = match self.grant(range) {
            Ok(parts) => parts,
            Err(error) => {
                return Err(error);
            },
        };
        let ghost before = self@;
        let ghost tiling = parts_of(parts@);
        let ghost gpa = range.gpa as int;
        let mut k: usize = 0;
        let mut copied: usize = 0;
        proof {
            guest::lemma_poke_empty(before, gpa);
            assert(data@.subrange(0, 0) =~= Seq::empty());
        }
        while k < parts.len() && copied < data.len()
            invariant
                k <= parts@.len(),
                copied <= data@.len() <= range.length,
                before.wf(),
                self@.wf(),
                gpa == range.gpa,
                tiling == parts_of(parts@),
                tiles(tiling, before, gpa, range.length as int),
                self@ == before.poke(gpa, data@.subrange(0, copied as int)),
                copied < data@.len() ==> copied == (if k < tiling.len() {
                    tiling[k as int].gpa - gpa
                } else {
                    range.length as int
                }),
            decreases parts@.len() - k,
        {
            let part = &parts[k];
            assert(tiling[k as int] == part@);
            let left: usize = data.len() - copied;
            let count: usize = if part.length < left {
                part.length
            } else {
                left
            };
            self.store(part.segment, part.offset, data, copied, count);
            proof {
                let so_far = data@.subrange(0, copied as int);
                let next = data@.subrange(copied as int, copied + count);
                guest::lemma_poke_concat(before, gpa, so_far, next);
                assert(so_far + next =~= data@.subrange(0, copied + count));
                guest::lemma_poke_keeps_layout(before, gpa, data@.subrange(0, copied + count));
            }
            copied = copied + count;
            k = k + 1;
        }
        proof {
            assert(data@.subrange(0, copied as int) =~= data@);
        }
        Ok(())
    }

    /// Stores the `count` bytes of `data` from `from` on at `offset` of segment `i`.
    fn store(&mut self, i: usize, offset: usize, data: &[u8], from: usize, count: usize)
        requires
            old(self)@.wf(),
            i < old(self)@.regions.len(),
            offset + count <= old(self)@.regions[i as int].bytes.len(),
            from + count <= data@.len(),
        ensures
            final(self)@ == old(self)@.poke(
                old(self)@.regions[i as int].gpa + offset,
                data@.subrange(from as int, from + count),
            ),
    {
        let ghost before = self@;
        let ghost region = before.regions[i as int];
        let ghost base = self.segments@[i as int].bytes@;
        let ghost others = self.segments@;
        assert(offset + count <= self.segments@[i as int].bytes.len());
        assert(from + count <= data.len());
        let mut j: usize = 0;
        while j < count
            invariant
                j <= count,
                i < self.segments@.len(),
                self.segments@.len() == others.len(),
                offset + count <= usize::MAX,
                from + count <= usize::MAX,
                offset + count <= base.len(),
                from + count <= data@.len(),
                self.generation == before.generation,
                self.revoked == before.revoked,
                self.active == before.active,
                self.segments@[i as int].gpa == others[i as int].gpa,
                self.segments@[i as int].bytes@ =~= base.subrange(0, offset as int)
                    + data@.subrange(from as int, from + j) + base.subrange(
                    offset + j,
                    base.len() as int,
                ),
                forall|k: int|
                    0 <= k < others.len() && k != i ==> self.segments@[k] == others[k],
            decreases count - j,
        {
            self.segments[i].bytes[offset + j] = data[from + j];
            j = j + 1;
        }
        proof {
            let stored = data@.subrange(from as int, from + count);
            guest::lemma_poke_in_region(before, i as int, offset as int, stored);
            assert(self@.regions =~= before.poke(region.gpa + offset, stored).regions);
        }
    }

    /// Stores `data` from address `gpa` on.
    pub fn write(&mut self, gpa: u64, data: &[u8]) -> (result: Result<(), DeviceError>)
        requires
            old(self)@.wf(),
        ensures
            match result {
                Ok(()) => {
                    &&& old(self)@.fault((DmaRange { gpa, length: data@.len() as usize })) is None
                    &&& final(self)@ == old(self)@.poke(gpa as int, data@)
                },
                Err(error) => {
                    &&& old(self)@.fault((DmaRange { gpa, length: data@.len() as usize })) == Some(
                        error,
                    )
                    &&& final(self)@ == old(self)@
                },
            },
    {
        self.write_prefix(DmaRange { gpa, length: data.len() }, data)
    }
}

/// An active direct-DMA request.  It holds its generation until it is released.
#[derive(Debug)]
pub struct DmaLease {
    generation: u64,
    parts: Vec<DmaPart>,
}

impl View for DmaLease {
    type V = Seq<Part>;

    closed spec fn view(&self) -> Seq<Part> {
        parts_of(self.parts@)
    }
}

impl DmaLease {
    /// The generation of the memory that the lease is of.
    pub closed spec fn spec_generation(self) -> u64 {
        self.generation
    }

    pub fn parts(&self) -> (parts: &[DmaPart])
        ensures
            parts_of(parts@) == self@,
    {
        self.parts.as_slice()
    }

    pub fn parts_mut(&mut self) -> (parts: &mut [DmaPart])
        ensures
            parts_of(parts@) == old(self)@,
            final(self)@ == parts_of(final(parts)@),
    {
        self.parts.as_mut_slice()
    }
}

/// A memory is opened of regions in address order exactly if none is empty, none runs over the last
/// address, and each ends at or below the start of the next.
pub proof fn law_valid_mappings(generation: u64, regions: Seq<Region>)
    requires
        regions.len() > 0,
        address_ordered(regions),
    ensures
        (forall|i: int|
            #![trigger regions[i]]
            0 <= i < regions.len() ==> {
                &&& regions[i].bytes.len() > 0
                &&& regions[i].gpa + regions[i].bytes.len() <= u64::MAX
                &&& i > 0 ==> regions[i - 1].gpa + regions[i - 1].bytes.len() <= regions[i].gpa
            }) ==> {
            &&& opens_as(
                generation,
                regions,
                Ok(GuestMemory { generation, revoked: false, active: 0, regions }),
            )
            &&& forall|error: DeviceError| !#[trigger] opens_as(generation, regions, Err(error))
        },
        forall|memory: GuestMemory| #[trigger]
            opens_as(generation, regions, Ok(memory)) ==> {
                &&& memory.generation == generation
                &&& !memory.revoked
                &&& memory.active == 0
                &&& memory.regions == regions
                &&& forall|i: int|
                    #![trigger regions[i]]
                    0 <= i < regions.len() ==> regions[i].bytes.len() > 0 && regions[i].gpa
                        + regions[i].bytes.len() <= u64::MAX
                &&& forall|i: int, j: int|
                    #![trigger regions[i], regions[j]]
                    0 <= i < j < regions.len() ==> regions[i].gpa + regions[i].bytes.len()
                        <= regions[j].gpa
            },
{
    if forall|i: int|
        #![trigger regions[i]]
        0 <= i < regions.len() ==> {
            &&& regions[i].bytes.len() > 0
            &&& regions[i].gpa + regions[i].bytes.len() <= u64::MAX
            &&& i > 0 ==> regions[i - 1].gpa + regions[i - 1].bytes.len() <= regions[i].gpa
        } {
        assert forall|k: int| 0 <= k < regions.len() implies (#[trigger] region_fault(regions, k))
            is None by {
            assert(regions[k].bytes.len() > 0);
        }
        assert forall|i: int, j: int|
            #![trigger regions[i], regions[j]]
            0 <= i < j < regions.len() implies regions[i].end() <= regions[j].gpa by {
            lemma_disjoint_up_to(regions, i, j);
        }
        assert forall|error: DeviceError| !#[trigger] opens_as(generation, regions, Err(error)) by {
            if opens_as(generation, regions, Err(error)) {
                let i = choose|i: int| first_region_fault(regions, i, error);
                assert(region_fault(regions, i) is None);
            }
        }
    }
}

/// The parts of a lease are the range and nothing else: part `k` has its address, its bytes are the
/// memory's at that address, the first starts where the range starts, each other one where the
/// one in front of it ends, and the last ends where the range ends.
pub proof fn law_parts_are_the_range(
    parts: Seq<Part>,
    mem: GuestMemory,
    gpa: int,
    length: int,
    k: int,
)
    requires
        mem.wf(),
        tiles(parts, mem, gpa, length),
        0 <= k < parts.len(),
    ensures
        parts[0].gpa == gpa,
        parts[parts.len() - 1].gpa + parts[parts.len() - 1].length == gpa + length,
        k + 1 < parts.len() ==> parts[k + 1].gpa == parts[k].gpa + parts[k].length,
        parts[k].length > 0,
        gpa <= parts[k].gpa,
        parts[k].gpa + parts[k].length <= gpa + length,
        ({
            let region = mem.regions[parts[k].region];
            &&& region.bytes.subrange(parts[k].offset, parts[k].offset + parts[k].length)
                == mem.peek(parts[k].gpa, parts[k].length)
        }),
    decreases k,
{
    assert(parts[k].placed(mem));
    lemma_part_ends_in_range(parts, mem, gpa, length, k);
    guest::lemma_peek_in_region(mem, parts[k].region, parts[k].offset, parts[k].length);
    if k > 0 {
        law_parts_are_the_range(parts, mem, gpa, length, k - 1);
    }
    if k + 1 < parts.len() {
        assert(parts[k].gpa + parts[k].length == parts[k + 1].gpa);
    }
}

} // verus!
