//! What guest memory is: disjoint regions of bytes, addressed by guest physical
//! address, which can be taken away from the device as a whole.

use vstd::prelude::*;

use crate::dma::DmaRange;
use crate::error::{DeviceDownReason, DeviceError};

verus! {

/// A run of mapped guest bytes.
#[verifier::ext_equal]
pub struct Region {
    pub gpa: u64,
    pub bytes: Seq<u8>,
}

impl Region {
    /// The first address behind the region.
    pub open spec fn end(self) -> int {
        self.gpa + self.bytes.len()
    }

    /// Whether the region holds address `a`.
    pub open spec fn holds(self, a: int) -> bool {
        self.gpa <= a < self.end()
    }

    /// The region after `data` was stored from address `gpa` on, as far as it falls
    /// inside the region.
    pub open spec fn overlay(self, gpa: int, data: Seq<u8>) -> Region {
        Region {
            gpa: self.gpa,
            bytes: Seq::new(
                self.bytes.len(),
                |j: int|
                    if gpa <= self.gpa + j < gpa + data.len() {
                        data[self.gpa + j - gpa]
                    } else {
                        self.bytes[j]
                    },
            ),
        }
    }
}

/// Guest memory of one generation, with its lease accounting.
#[verifier::ext_equal]
pub struct GuestMemory {
    pub generation: u64,
    pub revoked: bool,
    pub active: usize,
    pub regions: Seq<Region>,
}

impl GuestMemory {
    /// Regions are non-empty, end below the top of the address space, and follow each
    /// other in address order without overlap.
    pub open spec fn wf(self) -> bool {
        &&& self.regions.len() > 0
        &&& forall|i: int|
            #![trigger self.regions[i]]
            0 <= i < self.regions.len() ==> self.regions[i].bytes.len() > 0 && self.regions[i].end()
                <= u64::MAX
        &&& forall|i: int, j: int|
            #![trigger self.regions[i], self.regions[j]]
            0 <= i < j < self.regions.len() ==> self.regions[i].end() <= self.regions[j].gpa
    }

    /// Whether region `i` exists and holds address `a`.
    pub open spec fn holds(self, i: int, a: int) -> bool {
        0 <= i < self.regions.len() && self.regions[i].holds(a)
    }

    /// Whether address `a` is mapped.
    pub open spec fn mapped(self, a: int) -> bool {
        exists|i: int| self.holds(i, a)
    }

    /// The byte at a mapped address.
    pub open spec fn byte(self, a: int) -> u8 {
        let i = choose|i: int| self.holds(i, a);
        self.regions[i].bytes[a - self.regions[i].gpa]
    }

    /// Whether all `length` bytes from `gpa` on are mapped.
    pub open spec fn covers(self, gpa: int, length: int) -> bool {
        &&& gpa + length <= u64::MAX
        &&& forall|a: int| gpa <= a < gpa + length ==> #[trigger] self.mapped(a)
    }

    /// The `length` bytes from `gpa` on.
    pub open spec fn peek(self, gpa: int, length: int) -> Seq<u8> {
        Seq::new(length as nat, |i: int| self.byte(gpa + i))
    }

    /// How many of the `length` bytes from `gpa` on lie in the region that holds the first.
    pub open spec fn run(self, gpa: int, length: int) -> int {
        let i = choose|i: int| self.holds(i, gpa);
        if length < self.regions[i].end() - gpa {
            length
        } else {
            self.regions[i].end() - gpa
        }
    }

    /// The memory after `data` was stored from `gpa` on.
    pub open spec fn poke(self, gpa: int, data: Seq<u8>) -> GuestMemory {
        GuestMemory {
            regions: Seq::new(self.regions.len(), |i: int| self.regions[i].overlay(gpa, data)),
            ..self
        }
    }

    /// The memory with one lease more.
    pub open spec fn leased(self) -> GuestMemory {
        GuestMemory {
            active: if self.active == usize::MAX {
                0
            } else {
                (self.active + 1) as usize
            },
            ..self
        }
    }

    /// The memory with one lease fewer.
    pub open spec fn released(self) -> GuestMemory {
        GuestMemory {
            active: if self.active == 0 {
                usize::MAX
            } else {
                (self.active - 1) as usize
            },
            ..self
        }
    }

    /// Why a device may not touch `range` now: the memory was revoked, or the range is
    /// not mapped.
    pub open spec fn fault(self, range: DmaRange) -> Option<DeviceError> {
        if self.revoked {
            Some(DeviceError::Down(DeviceDownReason::Revoked))
        } else if !self.covers(range.gpa as int, range.length as int) {
            Some(DeviceError::DmaRange { gpa: range.gpa, length: range.length })
        } else {
            None
        }
    }
}

/// No two regions hold the same address.
pub proof fn lemma_one_region(mem: GuestMemory, i: int, j: int, a: int)
    requires
        mem.wf(),
        mem.holds(i, a),
        mem.holds(j, a),
    ensures
        i == j,
{
    let ri = mem.regions[i];
    let rj = mem.regions[j];
    if i < j {
        assert(ri.end() <= rj.gpa);
    } else if j < i {
        assert(rj.end() <= ri.gpa);
    }
}

/// A byte is read from the region that holds its address.
pub proof fn lemma_byte(mem: GuestMemory, i: int, a: int)
    requires
        mem.wf(),
        mem.holds(i, a),
    ensures
        mem.mapped(a),
        mem.byte(a) == mem.regions[i].bytes[a - mem.regions[i].gpa],
{
    let j = choose|j: int| mem.holds(j, a);
    lemma_one_region(mem, i, j, a);
}

/// A run is cut off by the end of the region that holds its first byte.
pub proof fn lemma_run(mem: GuestMemory, i: int, gpa: int, length: int)
    requires
        mem.wf(),
        mem.holds(i, gpa),
    ensures
        mem.run(gpa, length) == if length < mem.regions[i].end() - gpa {
            length
        } else {
            mem.regions[i].end() - gpa
        },
{
    let j = choose|j: int| mem.holds(j, gpa);
    lemma_one_region(mem, i, j, gpa);
}

/// Storing bytes moves no region, maps nothing and unmaps nothing.
pub proof fn lemma_poke_keeps_layout(mem: GuestMemory, gpa: int, data: Seq<u8>)
    ensures
        mem.wf() ==> mem.poke(gpa, data).wf(),
        forall|a: int| #[trigger] mem.poke(gpa, data).mapped(a) == mem.mapped(a),
        forall|g: int, n: int| #[trigger] mem.poke(gpa, data).covers(g, n) == mem.covers(g, n),
        forall|range: DmaRange| #[trigger] mem.poke(gpa, data).fault(range) == mem.fault(range),
{
    let after = mem.poke(gpa, data);
    assert forall|a: int| #[trigger] after.mapped(a) == mem.mapped(a) by {
        if mem.mapped(a) {
            let i = choose|i: int| mem.holds(i, a);
            assert(after.holds(i, a));
        }
        if after.mapped(a) {
            let i = choose|i: int| after.holds(i, a);
            assert(mem.holds(i, a));
        }
    }
    assert forall|g: int, n: int| #[trigger] after.covers(g, n) == mem.covers(g, n) by {
        if mem.covers(g, n) {
            assert forall|a: int| g <= a < g + n implies #[trigger] after.mapped(a) by {
                assert(mem.mapped(a));
            }
        }
        if after.covers(g, n) {
            assert forall|a: int| g <= a < g + n implies #[trigger] mem.mapped(a) by {
                assert(after.mapped(a));
            }
        }
    }
}

/// After a store, an address inside the stored range holds the stored byte, and any
/// other address what it held before.
pub proof fn lemma_poke_byte(mem: GuestMemory, gpa: int, data: Seq<u8>, a: int)
    requires
        mem.wf(),
        mem.mapped(a),
    ensures
        mem.poke(gpa, data).byte(a) == if gpa <= a < gpa + data.len() {
            data[a - gpa]
        } else {
            mem.byte(a)
        },
{
    let after = mem.poke(gpa, data);
    lemma_poke_keeps_layout(mem, gpa, data);
    let i = choose|i: int| mem.holds(i, a);
    assert(after.holds(i, a));
    lemma_byte(after, i, a);
    lemma_byte(mem, i, a);
}

/// What was stored is what is read back.
pub proof fn law_peek_after_poke(mem: GuestMemory, gpa: int, data: Seq<u8>)
    requires
        mem.wf(),
        mem.covers(gpa, data.len() as int),
    ensures
        mem.poke(gpa, data).peek(gpa, data.len() as int) == data,
{
    let after = mem.poke(gpa, data);
    assert forall|a: int| gpa <= a < gpa + data.len() implies #[trigger] after.byte(a) == data[a
        - gpa] by {
        assert(mem.mapped(a));
        lemma_poke_byte(mem, gpa, data, a);
    }
    assert(after.peek(gpa, data.len() as int) =~= data);
}

/// A store changes no byte outside the range it stores to.
pub proof fn law_poke_elsewhere(mem: GuestMemory, gpa: int, data: Seq<u8>, other: int, length: int)
    requires
        mem.wf(),
        0 <= length,
        mem.covers(other, length),
        other + length <= gpa || gpa + data.len() <= other,
    ensures
        mem.poke(gpa, data).peek(other, length) == mem.peek(other, length),
{
    let after = mem.poke(gpa, data);
    assert forall|a: int| other <= a < other + length implies #[trigger] after.byte(a) == mem.byte(
        a,
    ) by {
        assert(mem.mapped(a));
        lemma_poke_byte(mem, gpa, data, a);
    }
    assert(after.peek(other, length) =~= mem.peek(other, length));
}

/// Storing two strings one behind the other is storing their concatenation.
pub proof fn lemma_poke_concat(mem: GuestMemory, gpa: int, first: Seq<u8>, second: Seq<u8>)
    ensures
        mem.poke(gpa, first).poke(gpa + first.len(), second) == mem.poke(gpa, first + second),
{
    let one = mem.poke(gpa, first).poke(gpa + first.len(), second);
    let two = mem.poke(gpa, first + second);
    assert forall|i: int| 0 <= i < mem.regions.len() implies one.regions[i] == two.regions[i] by {
        assert(one.regions[i].bytes =~= two.regions[i].bytes);
    }
    assert(one.regions =~= two.regions);
}

/// Storing nothing changes nothing.
pub proof fn lemma_poke_empty(mem: GuestMemory, gpa: int)
    ensures
        mem.poke(gpa, Seq::empty()) == mem,
{
    let after = mem.poke(gpa, Seq::empty());
    assert forall|i: int| 0 <= i < mem.regions.len() implies after.regions[i] == mem.regions[i] by {
        assert(after.regions[i].bytes =~= mem.regions[i].bytes);
    }
    assert(after.regions =~= mem.regions);
}

/// A read of two adjoining ranges is the two reads one behind the other.
pub proof fn lemma_peek_concat(mem: GuestMemory, gpa: int, first: int, second: int)
    requires
        0 <= first,
        0 <= second,
    ensures
        mem.peek(gpa, first) + mem.peek(gpa + first, second) == mem.peek(gpa, first + second),
{
    assert(mem.peek(gpa, first) + mem.peek(gpa + first, second) =~= mem.peek(gpa, first + second));
}

/// A read that stays inside one region is a piece of that region.
pub proof fn lemma_peek_in_region(mem: GuestMemory, i: int, offset: int, length: int)
    requires
        mem.wf(),
        0 <= i < mem.regions.len(),
        0 <= offset,
        0 <= length,
        offset + length <= mem.regions[i].bytes.len(),
    ensures
        mem.peek(mem.regions[i].gpa + offset, length) == mem.regions[i].bytes.subrange(
            offset,
            offset + length,
        ),
{
    let base = mem.regions[i].gpa;
    assert forall|k: int| 0 <= k < length implies #[trigger] mem.byte(base + offset + k)
        == mem.regions[i].bytes[offset + k] by {
        assert(mem.holds(i, base + offset + k));
        lemma_byte(mem, i, base + offset + k);
    }
    assert(mem.peek(base + offset, length) =~= mem.regions[i].bytes.subrange(
        offset,
        offset + length,
    ));
}

/// A store that stays inside one region changes that region alone.
pub proof fn lemma_poke_in_region(mem: GuestMemory, i: int, offset: int, data: Seq<u8>)
    requires
        mem.wf(),
        0 <= i < mem.regions.len(),
        0 <= offset,
        offset + data.len() <= mem.regions[i].bytes.len(),
    ensures
        mem.poke(mem.regions[i].gpa + offset, data).regions == mem.regions.update(
            i,
            Region {
                gpa: mem.regions[i].gpa,
                bytes: mem.regions[i].bytes.subrange(0, offset) + data
                    + mem.regions[i].bytes.subrange(
                    offset + data.len(),
                    mem.regions[i].bytes.len() as int,
                ),
            },
        ),
{
    let base = mem.regions[i].gpa;
    let after = mem.poke(base + offset, data);
    assert forall|j: int| 0 <= j < mem.regions.len() && j != i implies after.regions[j]
        == mem.regions[j] by {
        let ri = mem.regions[i];
        let rj = mem.regions[j];
        if i < j {
            assert(ri.end() <= rj.gpa);
        } else {
            assert(rj.end() <= ri.gpa);
        }
        assert(after.regions[j].bytes =~= rj.bytes);
    }
    assert(after.regions[i].bytes =~= mem.regions[i].bytes.subrange(0, offset) + data
        + mem.regions[i].bytes.subrange(offset + data.len(), mem.regions[i].bytes.len() as int));
    assert(after.regions =~= mem.regions.update(i, after.regions[i]));
}

/// Giving a lease back undoes taking it.
pub proof fn law_release_undoes_lease(mem: GuestMemory)
    ensures
        mem.leased().released() == mem,
        mem.released().leased() == mem,
{
}

/// Memory that was revoked gives a device nothing, whatever it asks for.
pub proof fn law_revoked_memory_grants_nothing(mem: GuestMemory, range: DmaRange)
    requires
        mem.revoked,
    ensures
        mem.fault(range) == Some(DeviceError::Down(DeviceDownReason::Revoked)),
{
}

/// Whether one of the regions begins at or below address `a` and ends above it.
pub open spec fn lies_in_a_region(mem: GuestMemory, a: int) -> bool {
    exists|i: int| {
        &&& 0 <= i < mem.regions.len()
        &&& (#[trigger] mem.regions[i]).gpa <= a
        &&& a < mem.regions[i].gpa + mem.regions[i].bytes.len()
    }
}

/// A range can be touched exactly if the memory was not revoked, the range ends at or below
/// the last address, and each of its addresses lies in some region; and a range that cannot
/// be is refused with its own address and length, or because of the revocation.
pub proof fn law_faults_are_exact(mem: GuestMemory, range: DmaRange)
    ensures
        mem.fault(range) is None <==> {
            &&& !mem.revoked
            &&& range.gpa + range.length <= u64::MAX
            &&& forall|a: int|
                range.gpa <= a < range.gpa + range.length ==> #[trigger] lies_in_a_region(mem, a)
        },
        mem.revoked ==> mem.fault(range) == Some(DeviceError::Down(DeviceDownReason::Revoked)),
        !mem.revoked && mem.fault(range) is Some ==> mem.fault(range) == Some(
            DeviceError::DmaRange { gpa: range.gpa, length: range.length },
        ),
{
    assert forall|a: int| #[trigger] lies_in_a_region(mem, a) == mem.mapped(a) by {
        if mem.mapped(a) {
            let i = choose|i: int| mem.holds(i, a);
            assert(mem.regions[i].gpa <= a);
        }
        if lies_in_a_region(mem, a) {
            let i = choose|i: int| {
                &&& 0 <= i < mem.regions.len()
                &&& (#[trigger] mem.regions[i]).gpa <= a
                &&& a < mem.regions[i].gpa + mem.regions[i].bytes.len()
            };
            assert(mem.holds(i, a));
        }
    }
    if mem.fault(range) is None {
        assert forall|a: int| range.gpa <= a < range.gpa + range.length implies
            #[trigger] lies_in_a_region(mem, a) by {
            assert(mem.mapped(a));
        }
    }
    if forall|a: int|
        range.gpa <= a < range.gpa + range.length ==> #[trigger] lies_in_a_region(mem, a) {
        assert forall|a: int| range.gpa <= a < range.gpa + range.length implies
            #[trigger] mem.mapped(a) by {
            assert(lies_in_a_region(mem, a));
        }
    }
}

/// A byte is read from the region that its address lies in, at the distance of the address
/// from the region's start.
pub proof fn law_reads_come_from_regions(mem: GuestMemory, i: int, gpa: int, length: int, k: int)
    requires
        mem.wf(),
        0 <= i < mem.regions.len(),
        0 <= k < length,
        mem.regions[i].gpa <= gpa + k,
        gpa + k < mem.regions[i].gpa + mem.regions[i].bytes.len(),
    ensures
        mem.peek(gpa, length).len() == length,
        mem.peek(gpa, length)[k] == mem.regions[i].bytes[gpa + k - mem.regions[i].gpa],
{
    assert(mem.holds(i, gpa + k));
    lemma_byte(mem, i, gpa + k);
}

/// A lease counts one more and its release one fewer, and neither touches anything else.
pub proof fn law_leases_are_counted(mem: GuestMemory)
    ensures
        mem.active < usize::MAX ==> mem.leased().active == mem.active + 1,
        mem.active > 0 ==> mem.released().active == mem.active - 1,
        mem.leased().regions == mem.regions,
        mem.leased().revoked == mem.revoked,
        mem.leased().generation == mem.generation,
        mem.released().regions == mem.regions,
        mem.released().revoked == mem.revoked,
        mem.released().generation == mem.generation,
{
}

/// A store changes the bytes at the addresses that it names to those that are stored, and neither
/// any other byte, nor where the regions lie, nor anything else.
pub proof fn law_stores_change_what_they_name(
    mem: GuestMemory,
    gpa: int,
    data: Seq<u8>,
    i: int,
    k: int,
)
    requires
        0 <= i < mem.regions.len(),
        0 <= k < mem.regions[i].bytes.len(),
    ensures
        ({
            let after = mem.poke(gpa, data);
            let address = mem.regions[i].gpa + k;
            &&& after.regions.len() == mem.regions.len()
            &&& after.regions[i].gpa == mem.regions[i].gpa
            &&& after.regions[i].bytes.len() == mem.regions[i].bytes.len()
            &&& after.regions[i].bytes[k] == if gpa <= address && address < gpa + data.len() {
                data[address - gpa]
            } else {
                mem.regions[i].bytes[k]
            }
            &&& after.revoked == mem.revoked
            &&& after.active == mem.active
            &&& after.generation == mem.generation
        }),
{
}

} // verus!
