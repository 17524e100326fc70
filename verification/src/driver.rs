//! A virtqueue as its driver sees it: what a driver lays out in guest memory, and what the
//! device takes from there and leaves there.

use vstd::prelude::*;

use crate::bytes;
use crate::chain;
use crate::device;
use crate::device::{DeviceLayout, DeviceResources, Queues};
use crate::dma::DmaRange;
use crate::error::DeviceError;
use crate::guest::GuestMemory;
use crate::queue;
use crate::queue::{Chain, Descriptor, QueueCursor, QueueLayout};

verus! {

/// The number that two bytes at `gpa` spell, the lower one first.
pub open spec fn u16_at(mem: GuestMemory, gpa: int) -> int {
    mem.byte(gpa) + 0x100 * mem.byte(gpa + 1)
}

/// The sixteen bytes by which a driver describes a buffer.
pub open spec fn described(descriptor: Descriptor) -> Seq<u8> {
    bytes::le_bytes(descriptor.address as nat, 8) + bytes::le_bytes(descriptor.length as nat, 4)
        + bytes::le_bytes(descriptor.flags as nat, 2) + bytes::le_bytes(descriptor.next as nat, 2)
}

/// Whether the driver has put descriptor `i` of a chain into its slot: the first bit of its
/// flags is set and it names the slot of the next one, unless it is the last.
pub open spec fn is_put(
    layout: QueueLayout,
    mem: GuestMemory,
    slots: Seq<u16>,
    descriptors: Seq<Descriptor>,
    i: int,
) -> bool {
    &&& slots[i] < layout.size
    &&& mem.peek(layout.descriptors.gpa + 16 * slots[i], 16) == described(descriptors[i])
    &&& (descriptors[i].flags & 1 != 0) == (i < slots.len() - 1)
    &&& i < slots.len() - 1 ==> descriptors[i].next == slots[i + 1]
}

/// Whether a driver has laid a chain of `descriptors` in the `slots` of its descriptor table.
pub open spec fn is_laid(
    layout: QueueLayout,
    mem: GuestMemory,
    slots: Seq<u16>,
    descriptors: Seq<Descriptor>,
) -> bool {
    &&& 1 <= slots.len() <= layout.size
    &&& slots.len() == descriptors.len()
    &&& forall|i: int| 0 <= i < slots.len() ==> #[trigger] is_put(layout, mem, slots, descriptors, i)
}

/// How many chains a driver that stands at running index `offered` has made available behind
/// the `taken` ones; the index starts over behind its sixteen bits.
pub open spec fn waiting(offered: int, taken: int) -> int {
    (offered - taken) % 0x1_0000
}

/// Where the available ring has the head of the chain with running index `index`.
pub open spec fn entry_gpa(layout: QueueLayout, index: int) -> int {
    layout.available.gpa + 4 + 2 * ((index % 0x1_0000) % layout.size as int)
}

proof fn lemma_described(descriptor: Descriptor)
    ensures
        described(descriptor).len() == 16,
        Descriptor::parse(described(descriptor)) == descriptor,
{
    let b = described(descriptor);
    bytes::lemma_limits();
    bytes::lemma_value_of_bytes(descriptor.address as nat, 8);
    bytes::lemma_value_of_bytes(descriptor.length as nat, 4);
    bytes::lemma_value_of_bytes(descriptor.flags as nat, 2);
    bytes::lemma_value_of_bytes(descriptor.next as nat, 2);
    assert(b.subrange(0, 8) =~= bytes::le_bytes(descriptor.address as nat, 8));
    assert(b.subrange(8, 12) =~= bytes::le_bytes(descriptor.length as nat, 4));
    assert(b.subrange(12, 14) =~= bytes::le_bytes(descriptor.flags as nat, 2));
    assert(b.subrange(14, 16) =~= bytes::le_bytes(descriptor.next as nat, 2));
}

proof fn lemma_parsed(bytes: Seq<u8>)
    requires
        bytes.len() == 16,
    ensures
        described(Descriptor::parse(bytes)) == bytes,
{
    bytes::lemma_limits();
    bytes::lemma_bytes_of_value(bytes.subrange(0, 8));
    bytes::lemma_bytes_of_value(bytes.subrange(8, 12));
    bytes::lemma_bytes_of_value(bytes.subrange(12, 14));
    bytes::lemma_bytes_of_value(bytes.subrange(14, 16));
    assert(described(Descriptor::parse(bytes)) =~= bytes);
}

/// A pair of bytes is read as the number it spells.
pub proof fn lemma_pair_of_bytes(mem: GuestMemory, gpa: int)
    ensures
        bytes::le_value(mem.peek(gpa, 2)) == u16_at(mem, gpa),
        0 <= u16_at(mem, gpa) < 0x1_0000,
{
    let pair = mem.peek(gpa, 2);
    bytes::law_fields_add_up(pair, 0);
    assert(pair.subrange(0, 2) =~= pair);
}

/// A layout is valid exactly if its size is a power of two, its table and its rings have room
/// for as many entries, and all of them are mapped.
pub proof fn law_valid_layouts(layout: QueueLayout, mem: GuestMemory)
    ensures
        layout.flaw(mem) is None <==> {
            &&& vstd::arithmetic::power2::is_pow2(layout.size as int)
            &&& layout.descriptors.length >= 16 * layout.size
            &&& layout.available.length >= 4 + 2 * layout.size
            &&& layout.used.length >= 4 + 8 * layout.size
            &&& mem.covers(layout.descriptors.gpa as int, layout.descriptors.length as int)
            &&& mem.covers(layout.available.gpa as int, layout.available.length as int)
            &&& mem.covers(layout.used.gpa as int, layout.used.length as int)
        },
        !vstd::arithmetic::power2::is_pow2(layout.size as int) ==> layout.flaw(mem) == Some(
            DeviceError::InvalidQueue {
                queue: layout.index,
                reason: "size must be a non-zero power of two",
            },
        ),
        vstd::arithmetic::power2::is_pow2(layout.size as int) && (layout.descriptors.length < 16
            * layout.size || layout.available.length < 4 + 2 * layout.size || layout.used.length < 4
            + 8 * layout.size) ==> layout.flaw(mem) == Some(
            DeviceError::InvalidQueue {
                queue: layout.index,
                reason: "virtqueue ring is too small",
            },
        ),
{
}

/// A chain that the driver has laid and made available is taken, with its head and its
/// descriptors, and the device moves on to the next entry of the ring.
pub proof fn law_offered_chain_is_taken(
    layout: QueueLayout,
    mem: GuestMemory,
    cursor: QueueCursor,
    slots: Seq<u16>,
    descriptors: Seq<Descriptor>,
)
    requires
        mem.wf(),
        !mem.revoked,
        layout.flaw(mem) is None,
        !cursor.inflight,
        1 <= waiting(u16_at(mem, layout.available.gpa + 2), cursor.last_available as int)
            <= layout.size,
        is_laid(layout, mem, slots, descriptors),
        u16_at(mem, entry_gpa(layout, cursor.last_available as int)) == slots[0],
    ensures
        layout.pop_result(mem, cursor) == Ok::<Option<Chain>, DeviceError>(
            Some(Chain { head: slots[0], descriptors }),
        ),
        layout.pop_cursor(mem, cursor).last_available == (cursor.last_available + 1) % 0x1_0000,
        layout.pop_cursor(mem, cursor).next_used == cursor.next_used,
        layout.pop_cursor(mem, cursor).inflight,
{
    queue::law_flawless_layout_is_sound(layout, mem);
    let slot = cursor.last_available as int % layout.size as int;
    lemma_ring_is_mapped(layout, mem, slot);
    lemma_pair_of_bytes(mem, layout.available.gpa + 2);
    lemma_pair_of_bytes(mem, layout.available.gpa + 4 + 2 * slot);
    assert forall|i: int| 0 <= i < layout.size implies mem.fault(
        #[trigger] layout.descriptor_range(i),
    ) is None by {
        lemma_table_is_mapped(layout, mem, i);
    }
    lemma_put(layout, mem, slots, descriptors, 0);
    lemma_put(layout, mem, slots, descriptors, slots.len() - 1);
    assert forall|i: int| 0 <= i < descriptors.len() - 1 implies {
        &&& (#[trigger] descriptors[i]).continues()
        &&& descriptors[i].next < layout.size
        &&& descriptors[i + 1] == layout.descriptor_at(mem, descriptors[i].next as int)
    } by {
        lemma_put(layout, mem, slots, descriptors, i);
        lemma_put(layout, mem, slots, descriptors, i + 1);
    }
    assert(queue::is_linked(layout, mem, slots[0], descriptors, layout.size as nat));
    queue::law_linked_chain_is_read(layout, mem, slots[0], descriptors);
}

proof fn lemma_put(
    layout: QueueLayout,
    mem: GuestMemory,
    slots: Seq<u16>,
    descriptors: Seq<Descriptor>,
    i: int,
)
    requires
        layout.flaw(mem) is None,
        layout.sound(),
        is_laid(layout, mem, slots, descriptors),
        0 <= i < slots.len(),
    ensures
        slots[i] < layout.size,
        descriptors[i] == layout.descriptor_at(mem, slots[i] as int),
        descriptors[i].continues() == (i < slots.len() - 1),
        i < slots.len() - 1 ==> descriptors[i].next == slots[i + 1],
{
    assert(is_put(layout, mem, slots, descriptors, i));
    lemma_table_is_mapped(layout, mem, slots[i] as int);
    lemma_described(descriptors[i]);
}

/// What is taken was offered: the ring's running index is ahead, by no more than the queue
/// holds, the entry that is next names the head, and the table holds the chain.
pub proof fn law_taken_chain_was_offered(
    layout: QueueLayout,
    mem: GuestMemory,
    cursor: QueueCursor,
    chain: Chain,
)
    requires
        mem.wf(),
        layout.flaw(mem) is None,
        layout.pop_result(mem, cursor) == Ok::<Option<Chain>, DeviceError>(Some(chain)),
    ensures
        !mem.revoked,
        !cursor.inflight,
        1 <= waiting(u16_at(mem, layout.available.gpa + 2), cursor.last_available as int)
            <= layout.size,
        chain.head == u16_at(mem, entry_gpa(layout, cursor.last_available as int)),
        exists|slots: Seq<u16>|
            slots.len() > 0 && slots[0] == chain.head && #[trigger] is_laid(
                layout,
                mem,
                slots,
                chain.descriptors,
            ),
{
    queue::law_flawless_layout_is_sound(layout, mem);
    let slot = cursor.last_available as int % layout.size as int;
    lemma_ring_is_mapped(layout, mem, slot);
    lemma_pair_of_bytes(mem, layout.available.gpa + 2);
    lemma_pair_of_bytes(mem, layout.available.gpa + 4 + 2 * slot);
    let found = chain.descriptors;
    queue::law_chain_follows_links(layout, mem, chain.head, found);
    let slots = Seq::new(
        found.len(),
        |i: int| if i == 0 {
            chain.head
        } else {
            found[i - 1].next
        },
    );
    assert forall|i: int| 0 <= i < slots.len() implies #[trigger] is_put(
        layout,
        mem,
        slots,
        found,
        i,
    ) by {
        lemma_link(layout, mem, chain.head, found, i);
    }
    assert(is_laid(layout, mem, slots, found));
}

proof fn lemma_link(
    layout: QueueLayout,
    mem: GuestMemory,
    head: u16,
    found: Seq<Descriptor>,
    i: int,
)
    requires
        layout.flaw(mem) is None,
        layout.sound(),
        head < layout.size,
        queue::is_linked(layout, mem, head, found, layout.size as nat),
        0 <= i < found.len(),
    ensures
        ({
            let slot = if i == 0 {
                head
            } else {
                found[i - 1].next
            };
            &&& slot < layout.size
            &&& mem.peek(layout.descriptors.gpa + 16 * slot, 16) == described(found[i])
            &&& (found[i].flags & 1 != 0) == (i < found.len() - 1)
        }),
{
    let slot = if i == 0 {
        head
    } else {
        found[i - 1].next
    };
    if i > 0 {
        let before = found[i - 1];
        assert(before.continues() && before.next < layout.size);
        assert(found[i] == layout.descriptor_at(mem, before.next as int));
    }
    lemma_table_is_mapped(layout, mem, slot as int);
    lemma_parsed(mem.peek(layout.descriptors.gpa + 16 * slot, 16));
    if i == found.len() - 1 {
        assert(found[i] == found.last());
    } else {
        assert(found[i].continues());
    }
}

/// Nothing is taken exactly while a chain is in flight or the ring's running index stands
/// where the device stands; an index that is further ahead than the queue holds is refused,
/// and so is a head beyond the table.
pub proof fn law_nothing_is_taken_of_an_empty_ring(
    layout: QueueLayout,
    mem: GuestMemory,
    cursor: QueueCursor,
)
    requires
        mem.wf(),
        !mem.revoked,
        layout.flaw(mem) is None,
    ensures
        ({
            let ahead = waiting(
                u16_at(mem, layout.available.gpa + 2),
                cursor.last_available as int,
            );
            let result = layout.pop_result(mem, cursor);
            &&& result == Ok::<Option<Chain>, DeviceError>(None) <==> cursor.inflight || ahead == 0
            &&& !cursor.inflight && ahead > layout.size ==> result == Err::<
                Option<Chain>,
                DeviceError,
            >(
                DeviceError::InvalidQueue {
                    queue: layout.index,
                    reason: "available index exceeds queue size",
                },
            )
            &&& !cursor.inflight && 1 <= ahead <= layout.size && u16_at(
                mem,
                entry_gpa(layout, cursor.last_available as int),
            ) >= layout.size ==> result == Err::<Option<Chain>, DeviceError>(
                DeviceError::Descriptor("head index exceeds queue size"),
            )
            &&& !(result matches Ok(Some(_))) ==> layout.pop_cursor(mem, cursor) == cursor
        }),
{
    queue::law_flawless_layout_is_sound(layout, mem);
    let slot = cursor.last_available as int % layout.size as int;
    lemma_ring_is_mapped(layout, mem, slot);
    lemma_pair_of_bytes(mem, layout.available.gpa + 2);
    lemma_pair_of_bytes(mem, layout.available.gpa + 4 + 2 * slot);
}

proof fn lemma_ring_is_mapped(layout: QueueLayout, mem: GuestMemory, slot: int)
    requires
        layout.flaw(mem) is None,
        layout.sound(),
        0 <= slot < layout.size,
    ensures
        mem.covers(layout.available.gpa + 2, 2),
        mem.covers(layout.available.gpa + 4 + 2 * slot, 2),
        layout.available_index_range().gpa == layout.available.gpa + 2,
        layout.available_entry_range(slot).gpa == layout.available.gpa + 4 + 2 * slot,
{
    assert(mem.covers(layout.available.gpa as int, layout.available.length as int));
    assert(4 + 2 * slot + 2 <= layout.available.length);
}

proof fn lemma_table_is_mapped(layout: QueueLayout, mem: GuestMemory, index: int)
    requires
        layout.flaw(mem) is None,
        layout.sound(),
        0 <= index < layout.size,
    ensures
        mem.covers(layout.descriptors.gpa + 16 * index, 16),
        layout.descriptor_range(index).gpa == layout.descriptors.gpa + 16 * index,
        layout.descriptor_range(index).length == 16,
{
    assert(mem.covers(layout.descriptors.gpa as int, layout.descriptors.length as int));
    assert(16 * index + 16 <= 16 * layout.size);
}

/// The heads of the chains that are taken when each is handed back before the next is taken,
/// the `k`-th with the length `lengths[k]`, for as long as chains are taken.
pub open spec fn served(
    layout: QueueLayout,
    mem: GuestMemory,
    cursor: QueueCursor,
    lengths: Seq<u32>,
) -> Seq<u16>
    decreases lengths.len(),
{
    if lengths.len() == 0 {
        Seq::empty()
    } else {
        match layout.pop_result(mem, cursor) {
            Ok(Some(chain)) => {
                let done = layout.completion(
                    mem,
                    layout.pop_cursor(mem, cursor),
                    chain.head,
                    lengths[0],
                );
                seq![chain.head] + served(layout, done.memory, done.cursor, lengths.drop_first())
            },
            _ => Seq::empty(),
        }
    }
}

/// Chains are served in the order in which the driver offered them, each once: the `k`-th
/// that is taken is the one that the ring's entry `k` places on names.
pub proof fn law_chains_are_served_in_order(
    layout: QueueLayout,
    mem: GuestMemory,
    cursor: QueueCursor,
    lengths: Seq<u32>,
    k: int,
)
    requires
        mem.wf(),
        layout.flaw(mem) is None,
        layout.used.gpa + layout.used.length <= layout.available.gpa || layout.available.gpa
            + layout.available.length <= layout.used.gpa,
        0 <= k < served(layout, mem, cursor, lengths).len(),
    ensures
        served(layout, mem, cursor, lengths)[k] == u16_at(
            mem,
            entry_gpa(layout, cursor.last_available + k),
        ),
    decreases lengths.len(),
{
    let chain = layout.pop_result(mem, cursor)->Ok_0->0;
    law_taken_chain_was_offered(layout, mem, cursor, chain);
    if k > 0 {
        queue::law_flawless_layout_is_sound(layout, mem);
        let next = layout.pop_cursor(mem, cursor);
        let done = layout.completion(mem, next, chain.head, lengths[0]);
        device::lemma_completion_keeps_mapping(layout, mem, next, chain.head, lengths[0]);
        assert(done.memory.covers(
            layout.descriptors.gpa as int,
            layout.descriptors.length as int,
        ));
        assert(done.memory.covers(layout.available.gpa as int, layout.available.length as int));
        assert(done.memory.covers(layout.used.gpa as int, layout.used.length as int));
        law_chains_are_served_in_order(
            layout,
            done.memory,
            done.cursor,
            lengths.drop_first(),
            k - 1,
        );
        assert(entry_gpa(layout, done.cursor.last_available + k - 1) == entry_gpa(
            layout,
            cursor.last_available + k,
        )) by {
            let last = cursor.last_available as int;
            assert((last + 1) % 0x1_0000 == done.cursor.last_available);
            assert((done.cursor.last_available + k - 1) % 0x1_0000 == (last + k) % 0x1_0000);
        }
        let gpa = entry_gpa(layout, cursor.last_available + k);
        let slot = ((cursor.last_available + k) % 0x1_0000) % layout.size as int;
        lemma_ring_is_mapped(layout, mem, slot);
        queue::law_completion_stays_in_used_ring(
            layout,
            mem,
            next,
            chain.head,
            lengths[0],
            gpa,
            2,
        );
        assert(done.memory.peek(gpa, 2)[0] == mem.peek(gpa, 2)[0]);
        assert(done.memory.peek(gpa, 2)[1] == mem.peek(gpa, 2)[1]);
    }
}

/// Whether the driver of queue `i` has made `chain` available as the next one, and none is in
/// flight.
pub open spec fn is_offered(queues: Queues, i: int, chain: Chain) -> bool {
    let layout = queues.layouts[i];
    let cursor = queues.cursors[i];
    let mem = queues.memory;
    &&& !cursor.inflight
    &&& 1 <= waiting(u16_at(mem, layout.available.gpa + 2), cursor.last_available as int)
        <= layout.size
    &&& u16_at(mem, entry_gpa(layout, cursor.last_available as int)) == chain.head
    &&& exists|slots: Seq<u16>|
        slots.len() > 0 && slots[0] == chain.head && #[trigger] is_laid(
            layout,
            mem,
            slots,
            chain.descriptors,
        )
}

/// The chain that is next on a queue is taken off it; the memory, and where the device stands
/// in every other queue, stay as they are.
pub proof fn law_next_chain_is_taken(queues: Queues, i: int, chain: Chain)
    requires
        queues.wf(),
        !queues.memory.revoked,
        0 <= i < queues.layouts.len(),
        is_offered(queues, i, chain),
    ensures
        queues.pop_result(i) == Ok::<Option<Chain>, DeviceError>(Some(chain)),
        queues.after_pop(i).memory == queues.memory,
        queues.after_pop(i).layouts == queues.layouts,
        queues.after_pop(i).cursors.len() == queues.cursors.len(),
        queues.after_pop(i).cursors[i].inflight,
        queues.after_pop(i).cursors[i].next_used == queues.cursors[i].next_used,
        queues.after_pop(i).cursors[i].last_available == (queues.cursors[i].last_available + 1)
            % 0x1_0000,
        forall|k: int|
            0 <= k < queues.cursors.len() && k != i ==> (#[trigger] queues.after_pop(
                i,
            ).cursors[k]) == queues.cursors[k],
{
    let layout = queues.layouts[i];
    let slots = choose|slots: Seq<u16>|
        slots.len() > 0 && slots[0] == chain.head && #[trigger] is_laid(
            layout,
            queues.memory,
            slots,
            chain.descriptors,
        );
    law_offered_chain_is_taken(
        layout,
        queues.memory,
        queues.cursors[i],
        slots,
        chain.descriptors,
    );
}

/// Only the chain that is next on a queue is ever taken off it.
pub proof fn law_only_the_next_chain_is_taken(queues: Queues, i: int, chain: Chain)
    requires
        queues.wf(),
        0 <= i < queues.layouts.len(),
        queues.pop_result(i) == Ok::<Option<Chain>, DeviceError>(Some(chain)),
    ensures
        !queues.memory.revoked,
        is_offered(queues, i, chain),
{
    assert(queues.layouts[i].flaw(queues.memory) is None);
    law_taken_chain_was_offered(queues.layouts[i], queues.memory, queues.cursors[i], chain);
}

/// A queue from which nothing is taken stays as it is, and nothing is taken exactly while a
/// chain is in flight or the driver has offered no other.
pub proof fn law_idle_queues(queues: Queues, i: int)
    requires
        queues.wf(),
        !queues.memory.revoked,
        0 <= i < queues.layouts.len(),
    ensures
        queues.pop_result(i) == Ok::<Option<Chain>, DeviceError>(None) <==> {
            ||| queues.cursors[i].inflight
            ||| u16_at(queues.memory, queues.layouts[i].available.gpa + 2)
                == queues.cursors[i].last_available
        },
        !(queues.pop_result(i) matches Ok(Some(_))) ==> queues.after_pop(i) == queues,
{
    let layout = queues.layouts[i];
    assert(layout.flaw(queues.memory) is None);
    law_nothing_is_taken_of_an_empty_ring(layout, queues.memory, queues.cursors[i]);
    lemma_pair_of_bytes(queues.memory, layout.available.gpa + 2);
    if !(queues.pop_result(i) matches Ok(Some(_))) {
        assert(queues.after_pop(i) =~= queues);
    }
}

/// What a driver finds in its used ring once a chain was handed back, and that nothing else
/// has changed: the next element holds the head and the length, the index has moved by one,
/// and no byte outside the ring is another.
pub proof fn law_returned_chain_is_found(
    queues: Queues,
    i: int,
    head: u16,
    used_length: u32,
    gpa: int,
    length: int,
)
    requires
        queues.wf(),
        !queues.memory.revoked,
        0 <= i < queues.layouts.len(),
        queues.cursors[i].inflight,
        0 <= length,
        queues.memory.covers(gpa, length),
        gpa + length <= queues.layouts[i].used.gpa || queues.layouts[i].used.gpa
            + queues.layouts[i].used.length <= gpa,
    ensures
        ({
            let after = queues.after_complete(i, head, used_length);
            let layout = queues.layouts[i];
            let slot = queues.cursors[i].next_used as int % layout.size as int;
            let element = layout.used.gpa + 4 + 8 * slot;
            let next_used = (queues.cursors[i].next_used + 1) % 0x1_0000;
            &&& queues.complete_result(i, head, used_length) == Ok::<(), DeviceError>(())
            &&& bytes::le_value(after.memory.peek(element, 4)) == head
            &&& bytes::le_value(after.memory.peek(element + 4, 4)) == used_length
            &&& bytes::le_value(after.memory.peek(layout.used.gpa + 2, 2)) == next_used
            &&& after.memory.peek(gpa, length) == queues.memory.peek(gpa, length)
            &&& after.layouts == queues.layouts
            &&& after.notifier_count == queues.notifier_count
            &&& after.negotiated_features == queues.negotiated_features
            &&& after.cursors.len() == queues.cursors.len()
            &&& !after.cursors[i].inflight
            &&& after.cursors[i].next_used == next_used
            &&& after.cursors[i].last_available == queues.cursors[i].last_available
            &&& forall|k: int|
                0 <= k < queues.cursors.len() && k != i ==> (#[trigger] after.cursors[k])
                    == queues.cursors[k]
        }),
{
    let layout = queues.layouts[i];
    let cursor = queues.cursors[i];
    assert(layout.flaw(queues.memory) is None);
    queue::law_flawless_layout_is_sound(layout, queues.memory);
    queue::law_completion_succeeds(layout, queues.memory, cursor, head, used_length);
    queue::law_completion_is_recorded(layout, queues.memory, cursor, head, used_length);
    queue::law_completion_stays_in_used_ring(
        layout,
        queues.memory,
        cursor,
        head,
        used_length,
        gpa,
        length,
    );
}

/// A chain is handed back only if one is in flight: otherwise the attempt is refused and
/// leaves everything as it was.
pub proof fn law_only_a_chain_in_flight_is_returned(
    queues: Queues,
    i: int,
    head: u16,
    used_length: u32,
)
    requires
        queues.layouts.len() == queues.cursors.len(),
        0 <= i < queues.layouts.len(),
        !queues.cursors[i].inflight,
    ensures
        queues.complete_result(i, head, used_length) == Err::<(), DeviceError>(
            DeviceError::InvalidQueue {
                queue: queues.layouts[i].index,
                reason: "completion without an inflight request",
            },
        ),
        queues.after_complete(i, head, used_length) == queues,
{
    assert(queues.after_complete(i, head, used_length) =~= queues);
}

/// A device starts with the queues that it was given, at the start of each, with no chain in
/// flight.
pub proof fn law_devices_start_afresh(resources: DeviceResources, i: int)
    requires
        0 <= i < resources.queues@.len(),
    ensures
        device::fresh_queues(resources).layouts == resources.queues@,
        device::fresh_queues(resources).memory == resources.dma@,
        device::fresh_queues(resources).notifier_count == resources.notifier_count,
        device::fresh_queues(resources).negotiated_features == resources.negotiated_features,
        device::fresh_queues(resources).cursors.len() == resources.queues@.len(),
        device::fresh_queues(resources).cursors[i].last_available == 0,
        device::fresh_queues(resources).cursors[i].next_used == 0,
        !device::fresh_queues(resources).cursors[i].inflight,
{
}

/// A device is activated exactly if it gets as many queues as it declares, each valid and no
/// larger than it declares, at least as many notifiers, and every feature that it requires.
pub proof fn law_sufficient_resources(resources: DeviceResources, layout: DeviceLayout)
    ensures
        resources.flaw(layout) is None <==> {
            &&& resources.queues@.len() == layout.queue_count
            &&& resources.notifier_count >= layout.notifier_count
            &&& resources.negotiated_features & layout.required_features
                == layout.required_features
            &&& forall|i: int|
                0 <= i < resources.queues@.len() ==> (#[trigger] resources.queues@[i]).size
                    <= layout.maximum_queue_size && resources.queues@[i].flaw(resources.dma@)
                    is None
        },
        resources.queues@.len() != layout.queue_count ==> resources.flaw(layout) == Some(
            DeviceError::InvalidLayout("unexpected queue count"),
        ),
        resources.queues@.len() == layout.queue_count && resources.notifier_count
            < layout.notifier_count ==> resources.flaw(layout) == Some(
            DeviceError::InvalidLayout("missing interrupt notifier"),
        ),
        resources.queues@.len() == layout.queue_count && resources.notifier_count
            >= layout.notifier_count && resources.negotiated_features & layout.required_features
            != layout.required_features ==> resources.flaw(layout) == Some(
            DeviceError::InvalidLayout("required feature not negotiated"),
        ),
{
    if resources.flaw(layout) is None {
        device::law_flawless_resources(resources, layout);
    }
    if forall|i: int|
        0 <= i < resources.queues@.len() ==> (#[trigger] resources.queues@[i]).size
            <= layout.maximum_queue_size && resources.queues@[i].flaw(resources.dma@) is None {
        lemma_no_flaw_at_all(resources.queues@, layout.maximum_queue_size, resources.dma@);
    }
}

proof fn lemma_no_flaw_at_all(queues: Seq<QueueLayout>, maximum: u16, mem: GuestMemory)
    requires
        forall|i: int|
            0 <= i < queues.len() ==> (#[trigger] queues[i]).size <= maximum && queues[i].flaw(mem)
                is None,
    ensures
        device::first_queue_flaw(queues, maximum, mem) is None,
    decreases queues.len(),
{
    if queues.len() > 0 {
        assert(queues[0].flaw(mem) is None);
        let rest = queues.drop_first();
        assert forall|i: int| 0 <= i < rest.len() implies (#[trigger] rest[i]).size <= maximum
            && rest[i].flaw(mem) is None by {
            assert(rest[i] == queues[i + 1]);
        }
        lemma_no_flaw_at_all(rest, maximum, mem);
    }
}

/// Whether a driver has laid a chain for the device to read: no buffer has the second bit of
/// its flags set, and each can be touched.
pub open spec fn is_for_reading(mem: GuestMemory, descriptors: Seq<Descriptor>) -> bool {
    forall|k: int|
        0 <= k < descriptors.len() ==> (#[trigger] descriptors[k]).flags & 2 == 0 && mem.fault(
            DmaRange { gpa: descriptors[k].address, length: descriptors[k].length as usize },
        ) is None
}

/// Whether a driver has laid a chain for the device to write: each buffer has the second bit
/// of its flags set and can be touched.
pub open spec fn is_for_writing(mem: GuestMemory, descriptors: Seq<Descriptor>) -> bool {
    forall|k: int|
        0 <= k < descriptors.len() ==> (#[trigger] descriptors[k]).flags & 2 != 0 && mem.fault(
            DmaRange { gpa: descriptors[k].address, length: descriptors[k].length as usize },
        ) is None
}

/// The bytes that a driver has in the buffers of a chain, one buffer behind the other.
pub open spec fn content(mem: GuestMemory, descriptors: Seq<Descriptor>) -> Seq<u8>
    decreases descriptors.len(),
{
    if descriptors.len() == 0 {
        Seq::empty()
    } else {
        content(mem, descriptors.drop_last()) + mem.peek(
            descriptors.last().address as int,
            descriptors.last().length as int,
        )
    }
}

/// How many bytes the buffers of a chain hold together.
pub open spec fn room(descriptors: Seq<Descriptor>) -> nat
    decreases descriptors.len(),
{
    if descriptors.len() == 0 {
        0
    } else {
        room(descriptors.drop_last()) + descriptors.last().length as nat
    }
}

/// Whether no two buffers of a chain share an address, and none shares one with `range`.
pub open spec fn is_apart(descriptors: Seq<Descriptor>, range: DmaRange) -> bool {
    &&& forall|i: int, j: int|
        #![trigger descriptors[i], descriptors[j]]
        0 <= i < j < descriptors.len() ==> descriptors[i].address + descriptors[i].length
            <= descriptors[j].address || descriptors[j].address + descriptors[j].length
            <= descriptors[i].address
    &&& forall|k: int|
        0 <= k < descriptors.len() ==> (#[trigger] descriptors[k]).address + descriptors[k].length
            <= range.gpa || range.gpa + range.length <= descriptors[k].address
}

/// A chain is read as the bytes that the driver has in its buffers.
pub proof fn lemma_content(mem: GuestMemory, descriptors: Seq<Descriptor>)
    ensures
        chain::joined(mem, chain::ranges_of(descriptors)) == content(mem, descriptors),
        chain::total(chain::ranges_of(descriptors)) == room(descriptors),
        content(mem, descriptors).len() == room(descriptors),
    decreases descriptors.len(),
{
    let ranges = chain::ranges_of(descriptors);
    if descriptors.len() > 0 {
        let front = descriptors.drop_last();
        lemma_content(mem, front);
        assert(ranges =~= chain::ranges_of(front).push(descriptors.last().spec_range()));
        lemma_one_more(mem, chain::ranges_of(front), descriptors.last().spec_range());
    } else {
        assert(ranges =~= Seq::empty());
    }
}

pub proof fn lemma_one_more(mem: GuestMemory, ranges: Seq<DmaRange>, last: DmaRange)
    ensures
        chain::joined(mem, ranges.push(last)) == chain::joined(mem, ranges) + mem.peek(
            last.gpa as int,
            last.length as int,
        ),
        chain::total(ranges.push(last)) == chain::total(ranges) + last.length,
    decreases ranges.len(),
{
    let all = ranges.push(last);
    if ranges.len() == 0 {
        assert(all.drop_first() =~= Seq::empty());
        assert(chain::joined(mem, all.drop_first()) =~= Seq::empty());
        assert(chain::total(all.drop_first()) == 0);
        assert(chain::joined(mem, all) =~= chain::joined(mem, ranges) + mem.peek(
            last.gpa as int,
            last.length as int,
        ));
    } else {
        assert(all.drop_first() =~= ranges.drop_first().push(last));
        lemma_one_more(mem, ranges.drop_first(), last);
        assert(chain::joined(mem, all) =~= chain::joined(mem, ranges) + mem.peek(
            last.gpa as int,
            last.length as int,
        ));
    }
}

/// A chain that is for reading is read, and one that is for writing can be written.
pub proof fn lemma_directions(mem: GuestMemory, descriptors: Seq<Descriptor>)
    ensures
        is_for_reading(mem, descriptors) ==> {
            &&& !chain::some_writable(descriptors)
            &&& chain::gathered(mem, chain::ranges_of(descriptors)) == Ok::<Seq<u8>, DeviceError>(
                content(mem, descriptors),
            )
        },
        is_for_writing(mem, descriptors) ==> {
            &&& !chain::some_readable(descriptors)
            &&& chain::first_fault(mem, chain::ranges_of(descriptors)) is None
        },
{
    let ranges = chain::ranges_of(descriptors);
    lemma_content(mem, descriptors);
    if is_for_reading(mem, descriptors) || is_for_writing(mem, descriptors) {
        assert forall|k: int| 0 <= k < ranges.len() implies mem.fault(#[trigger] ranges[k]) is None by {
            assert(ranges[k] == (DmaRange {
                gpa: descriptors[k].address,
                length: descriptors[k].length as usize,
            }));
        }
        chain::lemma_reads_without_fault(mem, ranges);
    }
}

/// Buffers that are apart are ranges that are apart.
pub proof fn lemma_apart(descriptors: Seq<Descriptor>, range: DmaRange)
    requires
        is_apart(descriptors, range),
    ensures
        chain::all_apart(chain::ranges_of(descriptors)),
        forall|k: int|
            0 <= k < descriptors.len() ==> chain::apart(
                #[trigger] chain::ranges_of(descriptors)[k],
                range,
            ),
{
    let ranges = chain::ranges_of(descriptors);
    assert forall|i: int, j: int|
        #![trigger ranges[i], ranges[j]]
        0 <= i < j < ranges.len() implies chain::apart(ranges[i], ranges[j]) by {
        assert(ranges[i].gpa == descriptors[i].address && ranges[j].gpa == descriptors[j].address);
    }
    assert forall|k: int| 0 <= k < descriptors.len() implies chain::apart(
        #[trigger] ranges[k],
        range,
    ) by {
        assert(ranges[k].gpa == descriptors[k].address);
    }
}

/// What a driver finds after its device stored `data` in a chain and handed the chain back:
/// the buffers hold the data, then what they held before, and the used ring has the chain.
/// This is what the devices of this crate do with everything that they give to a driver.
pub proof fn law_stored_bytes_are_found(
    queues: Queues,
    i: int,
    chain: Chain,
    data: Seq<u8>,
    used_length: u32,
)
    requires
        queues.wf(),
        !queues.memory.revoked,
        0 <= i < queues.layouts.len(),
        queues.cursors[i].inflight,
        is_for_writing(queues.memory, chain.descriptors),
        is_apart(chain.descriptors, queues.layouts[i].used),
        data.len() <= room(chain.descriptors),
    ensures
        ({
            let spread = chain::scattered(
                queues.memory,
                chain::ranges_of(chain.descriptors),
                data,
            );
            let stored = queues.with_memory(spread.memory);
            let after = stored.after_complete(i, chain.head, used_length);
            &&& spread.result is Ok
            &&& stored.complete_result(i, chain.head, used_length) == Ok::<(), DeviceError>(())
            &&& is_delivered(queues, i, chain, after, data, used_length as int)
        }),
{
    let ranges = chain::ranges_of(chain.descriptors);
    lemma_directions(queues.memory, chain.descriptors);
    lemma_content(queues.memory, chain.descriptors);
    lemma_apart(chain.descriptors, queues.layouts[i].used);
    device::law_delivered_bytes_reach_guest(queues, i, ranges, data, chain.head, used_length);
    let spread = chain::scattered(queues.memory, ranges, data);
    let stored = queues.with_memory(spread.memory);
    let after = stored.after_complete(i, chain.head, used_length);
    lemma_content(after.memory, chain.descriptors);
    assert forall|gpa: int, length: int|
        {
            &&& 0 <= length
            &&& #[trigger] queues.memory.covers(gpa, length)
            &&& is_outside(chain.descriptors, gpa, length)
            &&& gpa + length <= queues.layouts[i].used.gpa || queues.layouts[i].used.gpa
                + queues.layouts[i].used.length <= gpa
        } implies after.memory.peek(gpa, length) == queues.memory.peek(gpa, length) by {
        lemma_outside_stays(queues, i, chain, data, used_length, gpa, length);
    }
    chain::lemma_scatter_keeps_layout(queues.memory, ranges, data);
    device::lemma_queues_with_memory(queues, spread.memory);
    assert(stored.memory.covers(0, 0));
    law_returned_chain_is_found(stored, i, chain.head, used_length, 0, 0);
    assert(content(after.memory, chain.descriptors).take(data.len() as int)
        =~= chain::joined(after.memory, ranges).subrange(0, data.len() as int));
}

proof fn lemma_outside_stays(
    queues: Queues,
    i: int,
    chain: Chain,
    data: Seq<u8>,
    used_length: u32,
    gpa: int,
    length: int,
)
    requires
        queues.wf(),
        0 <= i < queues.layouts.len(),
        0 <= length,
        queues.memory.covers(gpa, length),
        is_outside(chain.descriptors, gpa, length),
        gpa + length <= queues.layouts[i].used.gpa || queues.layouts[i].used.gpa
            + queues.layouts[i].used.length <= gpa,
    ensures
        ({
            let ranges = chain::ranges_of(chain.descriptors);
            let stored = queues.with_memory(
                chain::scattered(queues.memory, ranges, data).memory,
            );
            stored.after_complete(i, chain.head, used_length).memory.peek(gpa, length)
                == queues.memory.peek(gpa, length)
        }),
{
    let mem = queues.memory;
    let ranges = chain::ranges_of(chain.descriptors);
    let spread = chain::scattered(mem, ranges, data).memory;
    let layout = queues.layouts[i];
    chain::lemma_scatter_keeps_layout(mem, ranges, data);
    assert(layout.flaw(mem) is None);
    queue::law_flawless_layout_is_sound(layout, mem);
    assert(spread.covers(gpa, length));
    queue::law_completion_stays_in_used_ring(
        layout,
        spread,
        queues.cursors[i],
        chain.head,
        used_length,
        gpa,
        length,
    );
    assert forall|k: int| 0 <= k < length implies spread.peek(gpa, length)[k] == mem.peek(
        gpa,
        length,
    )[k] by {
        let address = gpa + k;
        assert(mem.mapped(address));
        assert forall|j: int, e: int| #[trigger] chain::reaches(
            ranges,
            data.len() as int,
            j,
            e,
        ) implies ranges[j].gpa + e != address by {
            assert(ranges[j].gpa == chain.descriptors[j].address);
        }
        chain::law_unreached_addresses_stay(mem, ranges, data, address);
    }
    assert(spread.peek(gpa, length) =~= mem.peek(gpa, length));
}

/// Whether no buffer of a chain shares an address with the `length` bytes from `gpa` on.
pub open spec fn is_outside(descriptors: Seq<Descriptor>, gpa: int, length: int) -> bool {
    forall|k: int|
        0 <= k < descriptors.len() ==> (#[trigger] descriptors[k]).address + descriptors[k].length
            <= gpa || gpa + length <= descriptors[k].address
}

/// Whether `after` is `before` with `data` stored in the buffers of the chain in flight on queue `i`
/// and the chain handed back: the buffers hold the data and behind it what they held before, the
/// used ring has the chain, and every other byte of memory is what it was.
pub open spec fn is_delivered(
    before: Queues,
    i: int,
    chain: Chain,
    after: Queues,
    data: Seq<u8>,
    used_length: int,
) -> bool {
    let found = content(after.memory, chain.descriptors);
    let count = data.len() as int;
    &&& is_returned(before, i, after, chain.head, used_length)
    &&& found.len() == room(chain.descriptors)
    &&& found.take(count) == data
    &&& found.skip(count) == content(before.memory, chain.descriptors).skip(count)
    &&& forall|gpa: int, length: int|
        {
            &&& 0 <= length
            &&& #[trigger] before.memory.covers(gpa, length)
            &&& is_outside(chain.descriptors, gpa, length)
            &&& gpa + length <= before.layouts[i].used.gpa || before.layouts[i].used.gpa
                + before.layouts[i].used.length <= gpa
        } ==> after.memory.peek(gpa, length) == before.memory.peek(gpa, length)
}

/// Whether queue `i` of `after` is that of `before` with the chain in flight handed back: the
/// used ring's next element has the head and the length, its index has moved by one, no chain
/// is in flight, and the device stands in the other queues as before.
pub open spec fn is_returned(
    before: Queues,
    i: int,
    after: Queues,
    head: u16,
    used_length: int,
) -> bool {
    let layout = before.layouts[i];
    let slot = before.cursors[i].next_used as int % layout.size as int;
    let element = layout.used.gpa + 4 + 8 * slot;
    let next_used = (before.cursors[i].next_used + 1) % 0x1_0000;
    &&& bytes::le_value(after.memory.peek(element, 4)) == head
    &&& bytes::le_value(after.memory.peek(element + 4, 4)) == used_length
    &&& bytes::le_value(after.memory.peek(layout.used.gpa + 2, 2)) == next_used
    &&& after.layouts == before.layouts
    &&& after.cursors.len() == before.cursors.len()
    &&& !after.cursors[i].inflight
    &&& after.cursors[i].next_used == next_used
    &&& after.cursors[i].last_available == before.cursors[i].last_available
    &&& forall|k: int|
        0 <= k < before.cursors.len() && k != i ==> (#[trigger] after.cursors[k])
            == before.cursors[k]
}

/// A chain in flight that is handed back is found so.
pub proof fn lemma_returned(queues: Queues, i: int, head: u16, used_length: u32)
    requires
        queues.wf(),
        0 <= i < queues.layouts.len(),
    ensures
        !queues.memory.revoked && queues.cursors[i].inflight ==> {
            &&& queues.complete_result(i, head, used_length) is Ok
            &&& is_returned(
                queues,
                i,
                queues.after_complete(i, head, used_length),
                head,
                used_length as int,
            )
        },
{
    if !queues.memory.revoked && queues.cursors[i].inflight {
        assert(queues.memory.covers(0, 0));
        law_returned_chain_is_found(queues, i, head, used_length, 0, 0);
    }
}

/// A device that is given a bad queue says what is wrong with the first bad one: that it is larger
/// than the device allows, or what is wrong with its layout.
pub proof fn law_first_bad_queue_is_told(
    resources: DeviceResources,
    layout: DeviceLayout,
    i: int,
)
    requires
        resources.queues@.len() == layout.queue_count,
        resources.notifier_count >= layout.notifier_count,
        resources.negotiated_features & layout.required_features == layout.required_features,
        0 <= i < resources.queues@.len(),
        forall|k: int|
            0 <= k < i ==> (#[trigger] resources.queues@[k]).size <= layout.maximum_queue_size
                && resources.queues@[k].flaw(resources.dma@) is None,
    ensures
        resources.queues@[i].size > layout.maximum_queue_size ==> resources.flaw(layout) == Some(
            DeviceError::InvalidQueue {
                queue: resources.queues@[i].index,
                reason: "queue size exceeds device limit",
            },
        ),
        resources.queues@[i].size <= layout.maximum_queue_size && resources.queues@[i].flaw(
            resources.dma@,
        ) is Some ==> resources.flaw(layout) == resources.queues@[i].flaw(resources.dma@),
{
    lemma_first_flaw(resources.queues@, layout.maximum_queue_size, resources.dma@, i);
}

proof fn lemma_first_flaw(queues: Seq<QueueLayout>, maximum: u16, mem: GuestMemory, i: int)
    requires
        0 <= i < queues.len(),
        forall|k: int|
            0 <= k < i ==> (#[trigger] queues[k]).size <= maximum && queues[k].flaw(mem) is None,
    ensures
        device::queue_flaw(queues[i], maximum, mem) is Some ==> device::first_queue_flaw(
            queues,
            maximum,
            mem,
        ) == device::queue_flaw(queues[i], maximum, mem),
    decreases queues.len(),
{
    if i > 0 {
        assert(queues[0].flaw(mem) is None);
        let rest = queues.drop_first();
        assert forall|k: int| 0 <= k < i - 1 implies (#[trigger] rest[k]).size <= maximum
            && rest[k].flaw(mem) is None by {
            assert(rest[k] == queues[k + 1]);
        }
        lemma_first_flaw(rest, maximum, mem, i - 1);
    }
}

} // verus!
