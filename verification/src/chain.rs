//! The buffers of a descriptor chain, read or written as one string of bytes.

use vstd::prelude::*;

use crate::bytes::put_slice;
use crate::dma::{DmaMemory, DmaRange};
use crate::error::DeviceError;
use crate::guest;
use crate::guest::GuestMemory;
use crate::queue::{Descriptor, DescriptorChain};

verus! {

/// The guest addresses of the buffers of `descriptors`.
pub open spec fn ranges_of(descriptors: Seq<Descriptor>) -> Seq<DmaRange> {
    Seq::new(descriptors.len(), |i: int| descriptors[i].spec_range())
}

/// Why the first of `ranges` that cannot be touched cannot be, if there is one.
pub open spec fn first_fault(mem: GuestMemory, ranges: Seq<DmaRange>) -> Option<DeviceError>
    decreases ranges.len(),
{
    if ranges.len() == 0 {
        None
    } else if mem.fault(ranges[0]) is Some {
        mem.fault(ranges[0])
    } else {
        first_fault(mem, ranges.drop_first())
    }
}

/// The bytes of `ranges`, one behind the other.
pub open spec fn joined(mem: GuestMemory, ranges: Seq<DmaRange>) -> Seq<u8>
    decreases ranges.len(),
{
    if ranges.len() == 0 {
        Seq::empty()
    } else {
        mem.peek(ranges[0].gpa as int, ranges[0].length as int) + joined(mem, ranges.drop_first())
    }
}

/// The bytes of `ranges`, or why they cannot be read.
pub open spec fn gathered(mem: GuestMemory, ranges: Seq<DmaRange>) -> Result<Seq<u8>, DeviceError> {
    match first_fault(mem, ranges) {
        Some(error) => Err(error),
        None => Ok(joined(mem, ranges)),
    }
}

/// How many bytes `ranges` hold together.
pub open spec fn total(ranges: Seq<DmaRange>) -> nat
    decreases ranges.len(),
{
    if ranges.len() == 0 {
        0
    } else {
        ranges[0].length as nat + total(ranges.drop_first())
    }
}

/// What spreading bytes over ranges gives, and what it leaves behind.
#[verifier::ext_equal]
pub struct Spread {
    pub result: Result<(), DeviceError>,
    pub memory: GuestMemory,
}

/// The lesser of two numbers.
pub open spec fn lesser(a: nat, b: nat) -> nat {
    if a < b {
        a
    } else {
        b
    }
}

/// What storing `data` gives when it fills `ranges` one after the other until it is used
/// up.
pub open spec fn scattered(mem: GuestMemory, ranges: Seq<DmaRange>, data: Seq<u8>) -> Spread
    decreases ranges.len(),
{
    if data.len() == 0 || ranges.len() == 0 {
        Spread { result: Ok(()), memory: mem }
    } else if mem.fault(ranges[0]) is Some {
        Spread { result: Err(mem.fault(ranges[0])->0), memory: mem }
    } else {
        let count = lesser(ranges[0].length as nat, data.len()) as int;
        scattered(
            mem.poke(ranges[0].gpa as int, data.subrange(0, count)),
            ranges.drop_first(),
            data.subrange(count, data.len() as int),
        )
    }
}

/// Whether the device may write one of the buffers.
pub open spec fn some_writable(descriptors: Seq<Descriptor>) -> bool {
    exists|i: int| 0 <= i < descriptors.len() && (#[trigger] descriptors[i]).spec_writable()
}

/// Whether the device may not write one of the buffers.
pub open spec fn some_readable(descriptors: Seq<Descriptor>) -> bool {
    exists|i: int| 0 <= i < descriptors.len() && !(#[trigger] descriptors[i]).spec_writable()
}

/// Whether the device may write one of the buffers.
pub fn any_writable(chain: &DescriptorChain) -> (any: bool)
    ensures
        any == some_writable(chain.descriptors@),
{
    let mut i: usize = 0;
    while i < chain.descriptors.len()
        invariant
            i <= chain.descriptors@.len(),
            forall|k: int| 0 <= k < i ==> !(#[trigger] chain.descriptors@[k]).spec_writable(),
        decreases chain.descriptors@.len() - i,
    {
        if chain.descriptors[i].writable() {
            return true;
        }
        i = i + 1;
    }
    false
}

/// Whether the device may not write one of the buffers.
pub fn any_readable(chain: &DescriptorChain) -> (any: bool)
    ensures
        any == some_readable(chain.descriptors@),
{
    let mut i: usize = 0;
    while i < chain.descriptors.len()
        invariant
            i <= chain.descriptors@.len(),
            forall|k: int| 0 <= k < i ==> (#[trigger] chain.descriptors@[k]).spec_writable(),
        decreases chain.descriptors@.len() - i,
    {
        if !chain.descriptors[i].writable() {
            return true;
        }
        i = i + 1;
    }
    false
}

/// The guest addresses of the chain's buffers.
pub fn ranges(chain: &DescriptorChain) -> (ranges: Vec<DmaRange>)
    ensures
        ranges@ == ranges_of(chain.descriptors@),
{
    let mut ranges: Vec<DmaRange> = Vec::new();
    let mut i: usize = 0;
    while i < chain.descriptors.len()
        invariant
            i <= chain.descriptors@.len(),
            ranges@ =~= ranges_of(chain.descriptors@).subrange(0, i as int),
        decreases chain.descriptors@.len() - i,
    {
        ranges.push(chain.descriptors[i].range());
        i = i + 1;
    }
    ranges
}

/// How many bytes `ranges` hold together, if that fits a `usize`.
pub fn capacity(ranges: &[DmaRange]) -> (sum: Option<usize>)
    ensures
        match sum {
            Some(sum) => sum == total(ranges@),
            None => total(ranges@) > usize::MAX,
        },
{
    let mut sum: usize = 0;
    let mut i: usize = 0;
    assert(ranges@.skip(0) =~= ranges@);
    while i < ranges.len()
        invariant
            i <= ranges@.len(),
            sum + total(ranges@.skip(i as int)) == total(ranges@),
        decreases ranges@.len() - i,
    {
        proof {
            assert(ranges@.skip(i as int).drop_first() =~= ranges@.skip(i + 1));
        }
        match sum.checked_add(ranges[i].length) {
            Some(more) => {
                sum = more;
            },
            None => {
                return None;
            },
        }
        i = i + 1;
    }
    Some(sum)
}

/// Reads `ranges`, one behind the other.
pub fn gather(memory: &DmaMemory, ranges: &[DmaRange]) -> (result: Result<Vec<u8>, DeviceError>)
    requires
        memory@.wf(),
    ensures
        match result {
            Ok(bytes) => gathered(memory@, ranges@) == Ok::<Seq<u8>, DeviceError>(bytes@),
            Err(error) => gathered(memory@, ranges@) == Err::<Seq<u8>, DeviceError>(error),
        },
{
    let mut bytes: Vec<u8> = Vec::new();
    let mut i: usize = 0;
    let ghost mem = memory@;
    proof {
        assert(ranges@.skip(0) =~= ranges@);
        assert(bytes@ + joined(mem, ranges@) =~= joined(mem, ranges@));
    }
    while i < ranges.len()
        invariant
            i <= ranges@.len(),
            mem == memory@,
            mem.wf(),
            first_fault(mem, ranges@.skip(i as int)) == first_fault(mem, ranges@),
            bytes@ + joined(mem, ranges@.skip(i as int)) == joined(mem, ranges@),
        decreases ranges@.len() - i,
    {
        proof {
            assert(ranges@.skip(i as int).drop_first() =~= ranges@.skip(i + 1));
        }
        let ghost before = bytes@;
        let piece = memory.read(ranges[i])?;
        put_slice(&mut bytes, piece.as_slice());
        proof {
            let rest = joined(mem, ranges@.skip(i + 1));
            assert(before + (piece@ + rest) =~= bytes@ + rest);
        }
        i = i + 1;
    }
    proof {
        assert(bytes@ + Seq::<u8>::empty() =~= bytes@);
    }
    Ok(bytes)
}

/// Stores `data`, filling `ranges` one after the other.
pub fn scatter(memory: &mut DmaMemory, ranges: &[DmaRange], data: &[u8]) -> (result: Result<
    (),
    DeviceError,
>)
    requires
        old(memory)@.wf(),
    ensures
        (Spread { result, memory: final(memory)@ }) == scattered(old(memory)@, ranges@, data@),
        final(memory)@.wf(),
{
    let ghost all = scattered(memory@, ranges@, data@);
    let mut i: usize = 0;
    let mut offset: usize = 0;
    proof {
        assert(ranges@.skip(0) =~= ranges@);
        assert(data@.subrange(0, data@.len() as int) =~= data@);
    }
    while i < ranges.len() && offset < data.len()
        invariant
            i <= ranges@.len(),
            offset <= data@.len(),
            memory@.wf(),
            all == scattered(old(memory)@, ranges@, data@),
            scattered(
                memory@,
                ranges@.skip(i as int),
                data@.subrange(offset as int, data@.len() as int),
            ) == all,
        decreases ranges@.len() - i,
    {
        let range = ranges[i];
        let left: usize = data.len() - offset;
        let count: usize = if range.length < left {
            range.length
        } else {
            left
        };
        let piece = vstd::slice::slice_subrange(data, offset, offset + count);
        proof {
            let rest = data@.subrange(offset as int, data@.len() as int);
            assert(ranges@.skip(i as int)[0] == range);
            assert(ranges@.skip(i as int).drop_first() =~= ranges@.skip(i + 1));
            assert(rest.subrange(0, count as int) =~= piece@);
            assert(rest.subrange(count as int, rest.len() as int) =~= data@.subrange(
                offset + count,
                data@.len() as int,
            ));
            guest::lemma_poke_keeps_layout(memory@, range.gpa as int, piece@);
        }
        match memory.write_prefix(range, piece) {
            Ok(()) => {},
            Err(error) => {
                return Err(error);
            },
        }
        offset = offset + count;
        i = i + 1;
    }
    Ok(())
}

/// Spreading bytes moves no region, and maps and unmaps nothing.
pub proof fn lemma_scatter_keeps_layout(mem: GuestMemory, ranges: Seq<DmaRange>, data: Seq<u8>)
    ensures
        mem.wf() ==> scattered(mem, ranges, data).memory.wf(),
        forall|range: DmaRange|
            #[trigger] scattered(mem, ranges, data).memory.fault(range) == mem.fault(range),
        forall|gpa: int, length: int|
            #[trigger] scattered(mem, ranges, data).memory.covers(gpa, length) == mem.covers(
                gpa,
                length,
            ),
        scattered(mem, ranges, data).memory.revoked == mem.revoked,
    decreases ranges.len(),
{
    if data.len() != 0 && ranges.len() != 0 && mem.fault(ranges[0]) is None {
        let count = lesser(ranges[0].length as nat, data.len()) as int;
        let piece = data.subrange(0, count);
        let next = mem.poke(ranges[0].gpa as int, piece);
        guest::lemma_poke_keeps_layout(mem, ranges[0].gpa as int, piece);
        lemma_scatter_keeps_layout(
            next,
            ranges.drop_first(),
            data.subrange(count, data.len() as int),
        );
        assert forall|range: DmaRange|
            #[trigger] scattered(mem, ranges, data).memory.fault(range) == mem.fault(range) by {
            assert(next.fault(range) == mem.fault(range));
        }
        assert forall|gpa: int, length: int|
            #[trigger] scattered(mem, ranges, data).memory.covers(gpa, length) == mem.covers(
                gpa,
                length,
            ) by {
            assert(next.covers(gpa, length) == mem.covers(gpa, length));
        }
    }
}

/// Whether two ranges share no address.
pub open spec fn apart(a: DmaRange, b: DmaRange) -> bool {
    a.gpa + a.length <= b.gpa || b.gpa + b.length <= a.gpa
}

/// Whether no two of `ranges` share an address.
pub open spec fn all_apart(ranges: Seq<DmaRange>) -> bool {
    forall|i: int, j: int|
        #![trigger ranges[i], ranges[j]]
        0 <= i < j < ranges.len() ==> apart(ranges[i], ranges[j])
}

/// Spreading bytes over ranges changes no byte outside them.
pub proof fn law_scatter_stays_in_ranges(
    mem: GuestMemory,
    ranges: Seq<DmaRange>,
    data: Seq<u8>,
    other: DmaRange,
)
    requires
        mem.wf(),
        mem.covers(other.gpa as int, other.length as int),
        forall|i: int| 0 <= i < ranges.len() ==> apart(#[trigger] ranges[i], other),
    ensures
        scattered(mem, ranges, data).memory.peek(other.gpa as int, other.length as int)
            == mem.peek(other.gpa as int, other.length as int),
    decreases ranges.len(),
{
    if data.len() != 0 && ranges.len() != 0 && mem.fault(ranges[0]) is None {
        let count = lesser(ranges[0].length as nat, data.len()) as int;
        let piece = data.subrange(0, count);
        let next = mem.poke(ranges[0].gpa as int, piece);
        guest::lemma_poke_keeps_layout(mem, ranges[0].gpa as int, piece);
        assert(apart(ranges[0], other));
        guest::law_poke_elsewhere(
            mem,
            ranges[0].gpa as int,
            piece,
            other.gpa as int,
            other.length as int,
        );
        assert forall|i: int| 0 <= i < ranges.drop_first().len() implies apart(
            #[trigger] ranges.drop_first()[i],
            other,
        ) by {
            assert(ranges.drop_first()[i] == ranges[i + 1]);
        }
        law_scatter_stays_in_ranges(
            next,
            ranges.drop_first(),
            data.subrange(count, data.len() as int),
            other,
        );
    }
}

/// Bytes spread over ranges that do not overlap are read back from them, in order.
pub proof fn law_gather_after_scatter(mem: GuestMemory, ranges: Seq<DmaRange>, data: Seq<u8>)
    requires
        mem.wf(),
        first_fault(mem, ranges) is None,
        all_apart(ranges),
        data.len() <= total(ranges),
    ensures
        scattered(mem, ranges, data).result is Ok,
        first_fault(scattered(mem, ranges, data).memory, ranges) is None,
        joined(scattered(mem, ranges, data).memory, ranges).len() == total(ranges),
        joined(scattered(mem, ranges, data).memory, ranges).subrange(0, data.len() as int) == data,
    decreases ranges.len(),
{
    let after = scattered(mem, ranges, data).memory;
    lemma_scatter_keeps_layout(mem, ranges, data);
    lemma_joined_len(after, ranges);
    lemma_same_faults(mem, after, ranges);
    if ranges.len() == 0 {
        assert(joined(after, ranges).subrange(0, 0) =~= data);
    } else if data.len() == 0 {
        assert(joined(after, ranges).subrange(0, 0) =~= data);
    } else {
        let first = ranges[0];
        let rest = ranges.drop_first();
        let count = lesser(first.length as nat, data.len()) as int;
        let piece = data.subrange(0, count);
        let tail = data.subrange(count, data.len() as int);
        let next = mem.poke(first.gpa as int, piece);
        guest::lemma_poke_keeps_layout(mem, first.gpa as int, piece);
        assert(mem.covers(first.gpa as int, count));
        guest::law_peek_after_poke(mem, first.gpa as int, piece);
        assert forall|i: int, j: int|
            #![trigger rest[i], rest[j]]
            0 <= i < j < rest.len() implies apart(rest[i], rest[j]) by {
            assert(rest[i] == ranges[i + 1] && rest[j] == ranges[j + 1]);
        }
        lemma_same_faults(mem, next, rest);
        law_gather_after_scatter(next, rest, tail);
        // What was stored in the first range is not overwritten by the others.
        let head = DmaRange { gpa: first.gpa, length: count as usize };
        assert forall|i: int| 0 <= i < rest.len() implies apart(#[trigger] rest[i], head) by {
            assert(rest[i] == ranges[i + 1]);
            assert(apart(ranges[0], ranges[i + 1]));
        }
        law_scatter_stays_in_ranges(next, rest, tail, head);
        assert(after.peek(first.gpa as int, count) == piece);
        let whole = after.peek(first.gpa as int, first.length as int);
        assert(whole.subrange(0, count) =~= after.peek(first.gpa as int, count));
        let behind = joined(after, rest);
        assert(joined(after, ranges) == whole + behind);
        assert(data =~= piece + tail);
        if tail.len() == 0 {
            assert((whole + behind).subrange(0, data.len() as int) =~= whole.subrange(0, count));
        } else {
            assert(count == first.length);
            assert(whole =~= piece);
            assert((whole + behind).subrange(0, data.len() as int) =~= whole + behind.subrange(
                0,
                tail.len() as int,
            ));
        }
    }
}

pub proof fn lemma_joined_len(mem: GuestMemory, ranges: Seq<DmaRange>)
    ensures
        joined(mem, ranges).len() == total(ranges),
    decreases ranges.len(),
{
    if ranges.len() != 0 {
        lemma_joined_len(mem, ranges.drop_first());
    }
}

/// Memories that refuse the same ranges refuse the same of several.
pub proof fn lemma_same_faults(a: GuestMemory, b: GuestMemory, ranges: Seq<DmaRange>)
    requires
        forall|range: DmaRange| #[trigger] b.fault(range) == a.fault(range),
    ensures
        first_fault(b, ranges) == first_fault(a, ranges),
    decreases ranges.len(),
{
    if ranges.len() != 0 {
        assert(b.fault(ranges[0]) == a.fault(ranges[0]));
        lemma_same_faults(a, b, ranges.drop_first());
    }
}

/// A buffer is the addresses that its descriptor gives, and the device may write it exactly
/// if the second bit of the descriptor's flags is set.
pub proof fn law_buffers_are_as_described(descriptors: Seq<Descriptor>, i: int)
    requires
        0 <= i < descriptors.len(),
    ensures
        ranges_of(descriptors).len() == descriptors.len(),
        ranges_of(descriptors)[i].gpa == descriptors[i].address,
        ranges_of(descriptors)[i].length == descriptors[i].length,
        descriptors[i].flags & 2 != 0 ==> some_writable(descriptors),
        descriptors[i].flags & 2 == 0 ==> some_readable(descriptors),
        (forall|k: int|
            0 <= k < descriptors.len() ==> (#[trigger] descriptors[k]).flags & 2 == 0)
            ==> !some_writable(descriptors),
        (forall|k: int|
            0 <= k < descriptors.len() ==> (#[trigger] descriptors[k]).flags & 2 != 0)
            ==> !some_readable(descriptors),
{
}

/// Where the bytes of range `i` start in the string that all ranges are: behind those of the
/// ranges in front of it.
pub open spec fn start_of(ranges: Seq<DmaRange>, i: int) -> int
    decreases i,
{
    if i <= 0 {
        0
    } else {
        start_of(ranges, i - 1) + ranges[i - 1].length
    }
}

proof fn lemma_start_of_rest(ranges: Seq<DmaRange>, i: int)
    requires
        0 <= i < ranges.len(),
    ensures
        start_of(ranges, i + 1) == ranges[0].length + start_of(ranges.drop_first(), i),
    decreases i,
{
    if i > 0 {
        lemma_start_of_rest(ranges, i - 1);
        assert(ranges.drop_first()[i - 1] == ranges[i]);
    } else {
        assert(start_of(ranges, 0) == 0);
        assert(start_of(ranges.drop_first(), 0) == 0);
    }
}

/// Ranges hold together as many bytes as their lengths add up to.
pub proof fn law_lengths_add_up(ranges: Seq<DmaRange>)
    ensures
        total(ranges) == start_of(ranges, ranges.len() as int),
    decreases ranges.len(),
{
    if ranges.len() > 0 {
        law_lengths_add_up(ranges.drop_first());
        lemma_start_of_rest(ranges, ranges.len() - 1);
    }
}

/// Ranges are read one behind the other: byte `d` of range `i` stands behind the bytes of the
/// ranges in front of it and the `d` bytes in front of it.
pub proof fn law_ranges_are_read_in_order(mem: GuestMemory, ranges: Seq<DmaRange>, i: int, d: int)
    requires
        0 <= i < ranges.len(),
        0 <= d < ranges[i].length,
    ensures
        joined(mem, ranges).len() == start_of(ranges, ranges.len() as int),
        0 <= start_of(ranges, i) + d < joined(mem, ranges).len(),
        joined(mem, ranges)[start_of(ranges, i) + d] == mem.byte(ranges[i].gpa + d),
    decreases ranges.len(),
{
    lemma_joined_len(mem, ranges);
    law_lengths_add_up(ranges);
    if i > 0 {
        law_ranges_are_read_in_order(mem, ranges.drop_first(), i - 1, d);
        lemma_start_of_rest(ranges, i - 1);
        lemma_start_of_rest(ranges, ranges.len() - 1);
        assert(ranges.drop_first()[i - 1] == ranges[i]);
        lemma_joined_len(mem, ranges.drop_first());
        law_lengths_add_up(ranges.drop_first());
    } else {
        lemma_joined_len(mem, ranges.drop_first());
    }
}

/// Ranges are read exactly if each can be touched; else the reading fails as the first that
/// cannot be does.
pub proof fn law_reads_fail_at_the_first_fault(mem: GuestMemory, ranges: Seq<DmaRange>, i: int)
    requires
        0 <= i < ranges.len(),
        forall|k: int| 0 <= k < i ==> mem.fault(#[trigger] ranges[k]) is None,
    ensures
        mem.fault(ranges[i]) is Some ==> gathered(mem, ranges) == Err::<Seq<u8>, DeviceError>(
            mem.fault(ranges[i])->0,
        ),
        mem.fault(ranges[i]) is None && i == ranges.len() - 1 ==> gathered(mem, ranges) == Ok::<
            Seq<u8>,
            DeviceError,
        >(joined(mem, ranges)),
    decreases ranges.len(),
{
    assert(first_fault(mem, ranges) == if mem.fault(ranges[i]) is Some {
        mem.fault(ranges[i])
    } else if i == ranges.len() - 1 {
        None
    } else {
        first_fault(mem, ranges)
    }) by {
        lemma_first_fault(mem, ranges, i);
    }
}

proof fn lemma_first_fault(mem: GuestMemory, ranges: Seq<DmaRange>, i: int)
    requires
        0 <= i < ranges.len(),
        forall|k: int| 0 <= k < i ==> mem.fault(#[trigger] ranges[k]) is None,
    ensures
        mem.fault(ranges[i]) is Some ==> first_fault(mem, ranges) == mem.fault(ranges[i]),
        mem.fault(ranges[i]) is None && i == ranges.len() - 1 ==> first_fault(mem, ranges) is None,
    decreases ranges.len(),
{
    if i > 0 {
        assert(mem.fault(ranges[0]) is None);
        let rest = ranges.drop_first();
        assert forall|k: int| 0 <= k < i - 1 implies mem.fault(#[trigger] rest[k]) is None by {
            assert(rest[k] == ranges[k + 1]);
        }
        lemma_first_fault(mem, rest, i - 1);
    } else if ranges.len() == 1 {
        assert(first_fault(mem, ranges.drop_first()) is None);
    }
}

/// Whether bytes that are spread over `ranges` reach range `i`, `d` bytes into it.
pub open spec fn reaches(ranges: Seq<DmaRange>, length: int, i: int, d: int) -> bool {
    &&& 0 <= i < ranges.len()
    &&& 0 <= d < ranges[i].length
    &&& start_of(ranges, i) + d < length
}

/// Bytes are spread without an error exactly if every range that they reach can be touched,
/// where a range without room is reached when bytes are left for what stands behind it.
pub proof fn law_spreading_needs_what_it_reaches(
    mem: GuestMemory,
    ranges: Seq<DmaRange>,
    data: Seq<u8>,
)
    ensures
        scattered(mem, ranges, data).result is Ok <==> forall|i: int|
            0 <= i < ranges.len() && start_of(ranges, i) < data.len() ==> mem.fault(
                #[trigger] ranges[i],
            ) is None,
    decreases ranges.len(),
{
    if data.len() != 0 && ranges.len() != 0 {
        if mem.fault(ranges[0]) is Some {
            assert(start_of(ranges, 0) == 0);
        } else {
            let rest = ranges.drop_first();
            let count = lesser(ranges[0].length as nat, data.len()) as int;
            let next = mem.poke(ranges[0].gpa as int, data.subrange(0, count));
            let left = data.subrange(count, data.len() as int);
            guest::lemma_poke_keeps_layout(mem, ranges[0].gpa as int, data.subrange(0, count));
            law_spreading_needs_what_it_reaches(next, rest, left);
            assert forall|i: int|
                0 <= i < rest.len() implies (start_of(rest, i) < left.len() <==> start_of(
                ranges,
                i + 1,
            ) < data.len()) && #[trigger] rest[i] == ranges[i + 1] by {
                lemma_start_of_rest(ranges, i);
                lemma_start_of_is_not_negative(rest, i);
            }
            if scattered(mem, ranges, data).result is Ok {
                assert forall|i: int|
                    0 <= i < ranges.len() && start_of(ranges, i) < data.len() implies mem.fault(
                    #[trigger] ranges[i],
                ) is None by {
                    if i > 0 {
                        assert(rest[i - 1] == ranges[i]);
                        assert(next.fault(rest[i - 1]) is None);
                    }
                }
            } else {
                let i = choose|i: int|
                    0 <= i < rest.len() && start_of(rest, i) < left.len() && next.fault(
                        #[trigger] rest[i],
                    ) is Some;
                assert(mem.fault(ranges[i + 1]) is Some);
            }
        }
    } else {
        assert forall|i: int| 0 <= i < ranges.len() implies start_of(ranges, i) >= data.len() by {
            lemma_start_of_is_not_negative(ranges, i);
        }
    }
}

proof fn lemma_start_of_is_not_negative(ranges: Seq<DmaRange>, i: int)
    ensures
        start_of(ranges, i) >= 0,
    decreases i,
{
    if i > 0 {
        lemma_start_of_is_not_negative(ranges, i - 1);
    }
}

/// Bytes that are spread without an error stand in the ranges in their order: the byte that
/// is `d` bytes into range `i` is the one behind those of the ranges in front and the `d` in
/// front of it, unless a later range that is reached holds the same address.
pub proof fn law_bytes_are_spread_in_order(
    mem: GuestMemory,
    ranges: Seq<DmaRange>,
    data: Seq<u8>,
    i: int,
    d: int,
)
    requires
        mem.wf(),
        scattered(mem, ranges, data).result is Ok,
        reaches(ranges, data.len() as int, i, d),
        forall|j: int, e: int|
            i < j && #[trigger] reaches(ranges, data.len() as int, j, e) ==> ranges[j].gpa + e
                != ranges[i].gpa + d,
    ensures
        scattered(mem, ranges, data).memory.byte(ranges[i].gpa + d) == data[start_of(ranges, i) + d],
    decreases ranges.len(),
{
    let rest = ranges.drop_first();
    let count = lesser(ranges[0].length as nat, data.len()) as int;
    let piece = data.subrange(0, count);
    let left = data.subrange(count, data.len() as int);
    let next = mem.poke(ranges[0].gpa as int, piece);
    let address = ranges[i].gpa + d;
    lemma_start_of_is_not_negative(ranges, i);
    assert(mem.fault(ranges[0]) is None);
    assert(mem.covers(ranges[0].gpa as int, count));
    guest::lemma_poke_keeps_layout(mem, ranges[0].gpa as int, piece);
    assert forall|j: int, e: int| #[trigger] reaches(rest, left.len() as int, j, e) implies reaches(
        ranges,
        data.len() as int,
        j + 1,
        e,
    ) && rest[j] == ranges[j + 1] by {
        lemma_start_of_rest(ranges, j);
        lemma_start_of_is_not_negative(rest, j);
    }
    if i > 0 {
        lemma_start_of_rest(ranges, i - 1);
        lemma_start_of_is_not_negative(rest, i - 1);
        assert(rest[i - 1] == ranges[i]);
        assert(reaches(rest, left.len() as int, i - 1, d));
        assert forall|j: int, e: int|
            i - 1 < j && #[trigger] reaches(rest, left.len() as int, j, e) implies rest[j].gpa + e
            != rest[i - 1].gpa + d by {
            assert(reaches(ranges, data.len() as int, j + 1, e));
        }
        law_bytes_are_spread_in_order(next, rest, left, i - 1, d);
        assert(left[start_of(rest, i - 1) + d] == data[start_of(ranges, i) + d]);
    } else {
        assert(next.byte(address) == data[d]) by {
            guest::law_peek_after_poke(mem, ranges[0].gpa as int, piece);
            assert(next.peek(ranges[0].gpa as int, count)[d] == piece[d]);
        }
        assert forall|j: int, e: int| #[trigger] reaches(rest, left.len() as int, j, e) implies rest[
            j
        ].gpa + e != address by {
            assert(reaches(ranges, data.len() as int, j + 1, e));
        }
        assert(next.mapped(address)) by {
            assert(mem.mapped(address));
        }
        law_unreached_addresses_stay(next, rest, left, address);
    }
}

/// Spreading bytes leaves an address alone that none of them reaches.
pub proof fn law_unreached_addresses_stay(
    mem: GuestMemory,
    ranges: Seq<DmaRange>,
    data: Seq<u8>,
    address: int,
)
    requires
        mem.wf(),
        mem.mapped(address),
        forall|j: int, e: int| #[trigger] reaches(ranges, data.len() as int, j, e)
            ==> ranges[j].gpa + e != address,
    ensures
        scattered(mem, ranges, data).memory.byte(address) == mem.byte(address),
    decreases ranges.len(),
{
    if data.len() != 0 && ranges.len() != 0 && mem.fault(ranges[0]) is None {
        let rest = ranges.drop_first();
        let count = lesser(ranges[0].length as nat, data.len()) as int;
        let piece = data.subrange(0, count);
        let left = data.subrange(count, data.len() as int);
        let next = mem.poke(ranges[0].gpa as int, piece);
        guest::lemma_poke_keeps_layout(mem, ranges[0].gpa as int, piece);
        assert(start_of(ranges, 0) == 0);
        let e = address - ranges[0].gpa;
        if 0 <= e < count {
            assert(reaches(ranges, data.len() as int, 0, e));
        }
        guest::lemma_poke_byte(mem, ranges[0].gpa as int, piece, address);
        assert forall|j: int, e: int| #[trigger] reaches(rest, left.len() as int, j, e) implies rest[
            j
        ].gpa + e != address by {
            lemma_start_of_rest(ranges, j);
            lemma_start_of_is_not_negative(rest, j);
            assert(rest[j] == ranges[j + 1]);
            assert(reaches(ranges, data.len() as int, j + 1, e));
        }
        law_unreached_addresses_stay(next, rest, left, address);
    }
}

/// Ranges of which each can be touched are read in full.
pub proof fn lemma_reads_without_fault(mem: GuestMemory, ranges: Seq<DmaRange>)
    requires
        forall|k: int| 0 <= k < ranges.len() ==> mem.fault(#[trigger] ranges[k]) is None,
    ensures
        first_fault(mem, ranges) is None,
        gathered(mem, ranges) == Ok::<Seq<u8>, DeviceError>(joined(mem, ranges)),
{
    if ranges.len() > 0 {
        lemma_first_fault(mem, ranges, ranges.len() - 1);
    }
}

/// Bytes that reach a range which cannot be touched are not spread any further: the spreading fails
/// as the first such range does.
pub proof fn law_spreading_fails_at_the_first_fault(
    mem: GuestMemory,
    ranges: Seq<DmaRange>,
    data: Seq<u8>,
    i: int,
)
    requires
        0 <= i < ranges.len(),
        start_of(ranges, i) < data.len(),
        mem.fault(ranges[i]) is Some,
        forall|k: int| 0 <= k < i ==> mem.fault(#[trigger] ranges[k]) is None,
    ensures
        scattered(mem, ranges, data).result == Err::<(), DeviceError>(mem.fault(ranges[i])->0),
    decreases ranges.len(),
{
    lemma_start_of_is_not_negative(ranges, i);
    if i > 0 {
        assert(mem.fault(ranges[0]) is None);
        let rest = ranges.drop_first();
        let count = lesser(ranges[0].length as nat, data.len()) as int;
        let piece = data.subrange(0, count);
        let next = mem.poke(ranges[0].gpa as int, piece);
        guest::lemma_poke_keeps_layout(mem, ranges[0].gpa as int, piece);
        lemma_start_of_rest(ranges, i - 1);
        lemma_start_of_is_not_negative(rest, i - 1);
        assert(rest[i - 1] == ranges[i]);
        assert forall|k: int| 0 <= k < i - 1 implies next.fault(#[trigger] rest[k]) is None by {
            assert(rest[k] == ranges[k + 1]);
            assert(next.fault(rest[k]) == mem.fault(rest[k]));
        }
        assert(next.fault(rest[i - 1]) == mem.fault(ranges[i]));
        law_spreading_fails_at_the_first_fault(
            next,
            rest,
            data.subrange(count, data.len() as int),
            i - 1,
        );
    }
}

/// Every byte of the string that ranges are stands in one of them.
proof fn lemma_position(ranges: Seq<DmaRange>, p: int) -> (place: (int, int))
    requires
        0 <= p < start_of(ranges, ranges.len() as int),
    ensures
        0 <= place.0 < ranges.len(),
        0 <= place.1 < ranges[place.0].length,
        start_of(ranges, place.0) + place.1 == p,
    decreases ranges.len(),
{
    let count = ranges.len() - 1;
    if p >= start_of(ranges, count) {
        (count, p - start_of(ranges, count))
    } else {
        let front = ranges.drop_last();
        lemma_same_starts(ranges, count);
        let place = lemma_position(front, p);
        lemma_same_starts(ranges, place.0);
        place
    }
}

proof fn lemma_same_starts(ranges: Seq<DmaRange>, i: int)
    requires
        i < ranges.len(),
    ensures
        start_of(ranges.drop_last(), i) == start_of(ranges, i),
    decreases i,
{
    if i > 0 {
        lemma_same_starts(ranges, i - 1);
    }
}

/// Bytes that are spread over ranges apart from each other leave what stands behind them in the
/// ranges as it was.
pub proof fn law_what_stands_behind_stays(mem: GuestMemory, ranges: Seq<DmaRange>, data: Seq<u8>)
    requires
        mem.wf(),
        first_fault(mem, ranges) is None,
        all_apart(ranges),
        data.len() <= total(ranges),
    ensures
        joined(scattered(mem, ranges, data).memory, ranges).skip(data.len() as int) == joined(
            mem,
            ranges,
        ).skip(data.len() as int),
{
    let after = scattered(mem, ranges, data).memory;
    let count = data.len() as int;
    lemma_joined_len(mem, ranges);
    lemma_joined_len(after, ranges);
    law_lengths_add_up(ranges);
    assert forall|p: int| count <= p < total(ranges) implies joined(after, ranges)[p] == joined(
        mem,
        ranges,
    )[p] by {
        let (i, d) = lemma_position(ranges, p);
        law_ranges_are_read_in_order(mem, ranges, i, d);
        law_ranges_are_read_in_order(after, ranges, i, d);
        let address = ranges[i].gpa + d;
        lemma_no_fault_at(mem, ranges, i);
        assert(mem.mapped(address));
        assert forall|j: int, e: int| #[trigger] reaches(ranges, count, j, e) implies ranges[j].gpa
            + e != address by {
            if j == i {
                assert(e < d);
            } else if j < i {
                assert(apart(ranges[j], ranges[i]));
            } else {
                assert(apart(ranges[i], ranges[j]));
            }
        }
        law_unreached_addresses_stay(mem, ranges, data, address);
    }
    assert(joined(after, ranges).skip(count) =~= joined(mem, ranges).skip(count));
}

proof fn lemma_no_fault_at(mem: GuestMemory, ranges: Seq<DmaRange>, i: int)
    requires
        first_fault(mem, ranges) is None,
        0 <= i < ranges.len(),
    ensures
        mem.fault(ranges[i]) is None,
    decreases ranges.len(),
{
    if i > 0 {
        lemma_no_fault_at(mem, ranges.drop_first(), i - 1);
        assert(ranges.drop_first()[i - 1] == ranges[i]);
    }
}

} // verus!
