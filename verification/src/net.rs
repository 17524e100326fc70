//! virtio-net: multi-queue Ethernet with a control queue.

use vstd::prelude::*;

use crate::bytes;
use crate::bytes::{get_u16, put_slice, put_u16, put_zeros, to_array};
use crate::chain;
use crate::chain::Spread;
use crate::device;
use crate::device::{DeviceLayout, DeviceResources, QueueSet, Queues, WakeStep};
use crate::dma::{DmaMemory, DmaRange};
use crate::driver;
use crate::error::{DeviceDownReason, DeviceError};
use crate::guest::GuestMemory;
use crate::interrupt;
use crate::interrupt::{queue_interrupt, Interrupt};
use crate::num::is_power_of_two;
use crate::queue::{Chain, Descriptor, DescriptorChain};

verus! {

pub const VIRTIO_F_VERSION_1: u64 = 0x1_0000_0000;

pub const VIRTIO_NET_F_MAC: u64 = 0x20;

pub const VIRTIO_NET_F_STATUS: u64 = 0x1_0000;

pub const VIRTIO_NET_F_CTRL_VQ: u64 = 0x2_0000;

pub const VIRTIO_NET_F_MQ: u64 = 0x40_0000;

pub const VIRTIO_NET_S_LINK_UP: u16 = 1;

/// The class of the control commands on multiple queues.
pub const VIRTIO_NET_CTRL_MQ: u8 = 4;

/// The command that sets the number of active queue pairs.
pub const VIRTIO_NET_CTRL_MQ_VQ_PAIRS_SET: u8 = 0;

/// The status of a control command that was carried out.
pub const VIRTIO_NET_OK: u8 = 0;

/// The status of a control command that was refused.
pub const VIRTIO_NET_ERR: u8 = 1;

/// The bytes of the header in front of each frame.
pub const HEADER_SIZE: usize = 12;

/// The most pairs of queues a device has.
pub const MAXIMUM_QUEUE_PAIRS: usize = 4;

/// The longest frame.
pub const MAXIMUM_FRAME_SIZE: usize = 65_536;

/// A network device to be activated, with the backend that serves it.
#[derive(Debug)]
pub struct NetDeclaration<B> {
    mac: [u8; 6],
    queue_pairs: usize,
    maximum_queue_size: u16,
    backend: B,
}

/// Whether a station can have the address: it is not zero, and no group address.
pub open spec fn is_station_address(mac: Seq<u8>) -> bool {
    mac != bytes::zeros(6) && mac[0] & 1 == 0
}

impl<B> NetDeclaration<B> {
    #[verifier::type_invariant]
    spec fn valid(self) -> bool {
        1 <= self.queue_pairs <= MAXIMUM_QUEUE_PAIRS
    }

    /// The address of the device.
    pub closed spec fn spec_mac(self) -> [u8; 6] {
        self.mac
    }

    /// How many pairs of queues the device offers.
    pub closed spec fn spec_queue_pairs(self) -> usize {
        self.queue_pairs
    }

    /// The largest queue the device takes.
    pub closed spec fn spec_maximum_queue_size(self) -> u16 {
        self.maximum_queue_size
    }

    /// The backend that serves the device.
    pub closed spec fn spec_backend(self) -> B {
        self.backend
    }

    pub fn new(mac: [u8; 6], queue_pairs: usize, maximum_queue_size: u16, backend: B) -> (result: Result<
        Self,
        DeviceError,
    >)
        ensures
            result is Ok <==> 1 <= queue_pairs <= 4 && vstd::arithmetic::power2::is_pow2(
                maximum_queue_size as int,
            ) && is_station_address(mac@),
            match result {
                Ok(declaration) => {
                    &&& 1 <= queue_pairs <= MAXIMUM_QUEUE_PAIRS
                    &&& vstd::arithmetic::power2::is_pow2(maximum_queue_size as int)
                    &&& is_station_address(mac@)
                    &&& declaration.spec_mac() == mac
                    &&& declaration.spec_queue_pairs() == queue_pairs
                    &&& declaration.spec_maximum_queue_size() == maximum_queue_size
                    &&& declaration.spec_backend() == backend
                },
                Err(error) => if !(1 <= queue_pairs <= MAXIMUM_QUEUE_PAIRS) {
                    error == DeviceError::InvalidLayout("invalid virtio-net queue pair count")
                } else if !vstd::arithmetic::power2::is_pow2(maximum_queue_size as int) {
                    error == DeviceError::InvalidLayout("invalid virtio-net queue size")
                } else {
                    &&& !is_station_address(mac@)
                    &&& error == DeviceError::InvalidLayout("invalid virtio-net MAC address")
                },
            },
    {
        if queue_pairs == 0 || queue_pairs > MAXIMUM_QUEUE_PAIRS {
            return Err(DeviceError::InvalidLayout("invalid virtio-net queue pair count"));
        }
        if !is_power_of_two(maximum_queue_size as u64) {
            return Err(DeviceError::InvalidLayout("invalid virtio-net queue size"));
        }
        let zero: bool = mac[0] == 0 && mac[1] == 0 && mac[2] == 0 && mac[3] == 0 && mac[4] == 0
            && mac[5] == 0;
        proof {
            if zero {
                assert(mac@ =~= bytes::zeros(6));
            } else {
                assert(exists|i: int| 0 <= i < 6 && mac@[i] != bytes::zeros(6)[i]) by {
                    if mac@[0] != 0 {
                        assert(mac@[0] != bytes::zeros(6)[0]);
                    } else if mac@[1] != 0 {
                        assert(mac@[1] != bytes::zeros(6)[1]);
                    } else if mac@[2] != 0 {
                        assert(mac@[2] != bytes::zeros(6)[2]);
                    } else if mac@[3] != 0 {
                        assert(mac@[3] != bytes::zeros(6)[3]);
                    } else if mac@[4] != 0 {
                        assert(mac@[4] != bytes::zeros(6)[4]);
                    } else {
                        assert(mac@[5] != bytes::zeros(6)[5]);
                    }
                }
            }
        }
        if zero || mac[0] & 1 != 0 {
            return Err(DeviceError::InvalidLayout("invalid virtio-net MAC address"));
        }
        Ok(NetDeclaration { mac, queue_pairs, maximum_queue_size, backend })
    }

    pub fn mac(&self) -> (mac: [u8; 6])
        ensures
            mac == self.spec_mac(),
    {
        self.mac
    }

    /// The backend that serves the device.
    pub fn backend(&self) -> (backend: &B)
        ensures
            *backend == self.spec_backend(),
    {
        &self.backend
    }

    /// The configuration space: the address, the link status, and the number of pairs.
    pub fn config_bytes(&self) -> (bytes: [u8; 10])
        ensures
            bytes@ == self.spec_mac()@ + bytes::le_bytes(VIRTIO_NET_S_LINK_UP as nat, 2)
                + bytes::le_bytes(self.spec_queue_pairs() as nat, 2),
            bytes@.take(6) == self.spec_mac()@,
            bytes::le_field(bytes@, 6, 2) == 1,
            bytes::le_field(bytes@, 8, 2) == self.spec_queue_pairs(),
    {
        proof {
            use_type_invariant(self);
            let b = self.mac@ + bytes::le_bytes(VIRTIO_NET_S_LINK_UP as nat, 2) + bytes::le_bytes(
                self.queue_pairs as nat,
                2,
            );
            bytes::lemma_limits();
            bytes::lemma_value_of_bytes(VIRTIO_NET_S_LINK_UP as nat, 2);
            bytes::lemma_value_of_bytes(self.queue_pairs as nat, 2);
            assert(b.take(6) =~= self.mac@);
            assert(b.subrange(6, 8) =~= bytes::le_bytes(VIRTIO_NET_S_LINK_UP as nat, 2));
            assert(b.subrange(8, 10) =~= bytes::le_bytes(self.queue_pairs as nat, 2));
            bytes::lemma_le_bytes_len(VIRTIO_NET_S_LINK_UP as nat, 2);
            bytes::lemma_le_bytes_len(self.queue_pairs as nat, 2);
        }
        let mut out: Vec<u8> = Vec::with_capacity(10);
        put_slice(&mut out, self.mac.as_slice());
        assert(out@ =~= self.mac@);
        put_u16(&mut out, VIRTIO_NET_S_LINK_UP);
        put_u16(&mut out, self.queue_pairs as u16);
        to_array::<10>(out.as_slice())
    }

    /// What the device needs: the queues of each pair and the control queue, and a
    /// notifier for each and for the configuration.
    pub open spec fn spec_layout(self) -> DeviceLayout {
        DeviceLayout {
            queue_count: (2 * self.spec_queue_pairs() + 1) as usize,
            maximum_queue_size: self.spec_maximum_queue_size(),
            notifier_count: (2 * self.spec_queue_pairs() + 2) as usize,
            required_features: VIRTIO_F_VERSION_1,
            optional_features: 0x43_0020,
        }
    }

    pub fn layout(&self) -> (layout: DeviceLayout)
        ensures
            layout == self.spec_layout(),
    {
        proof {
            use_type_invariant(self);
        }
        assert(VIRTIO_NET_F_MAC | VIRTIO_NET_F_STATUS | VIRTIO_NET_F_CTRL_VQ | VIRTIO_NET_F_MQ
            == 0x43_0020) by (bit_vector);
        DeviceLayout {
            queue_count: self.queue_pairs * 2 + 1,
            maximum_queue_size: self.maximum_queue_size,
            notifier_count: self.queue_pairs * 2 + 2,
            required_features: VIRTIO_F_VERSION_1,
            optional_features: VIRTIO_NET_F_MAC | VIRTIO_NET_F_STATUS | VIRTIO_NET_F_CTRL_VQ
                | VIRTIO_NET_F_MQ,
        }
    }

    pub fn activate<'a>(&self, resources: DeviceResources<'a>) -> (result: Result<
        NetDevice<'a>,
        DeviceError,
    >)
        requires
            resources.dma@.wf(),
        ensures
            result is Ok <==> resources.flaw(self.spec_layout()) is None,
            match result {
                Ok(device) => {
                    &&& resources.flaw(self.spec_layout()) is None
                    &&& device.wf()
                    &&& device@.maximum_pairs() == self.spec_queue_pairs()
                    &&& device@ == (Net {
                        queues: device::fresh_queues(resources),
                        kicked: false,
                        down: false,
                        active_pairs: 1,
                        next_receive_pair: 0,
                    })
                },
                Err(error) => resources.flaw(self.spec_layout()) == Some(error),
            },
    {
        proof {
            use_type_invariant(self);
        }
        let queues = QueueSet::activate(resources, &self.layout())?;
        Ok(
            NetDevice {
                queues,
                kicked: false,
                down: false,
                active_pairs: 1,
                next_receive_pair: 0,
            },
        )
    }
}

impl<B: Clone> Clone for NetDeclaration<B> {
    fn clone(&self) -> (copy: Self)
        ensures
            copy.spec_mac() == self.spec_mac(),
            copy.spec_queue_pairs() == self.spec_queue_pairs(),
            copy.spec_maximum_queue_size() == self.spec_maximum_queue_size(),
            cloned(self.spec_backend(), copy.spec_backend()),
    {
        proof {
            use_type_invariant(self);
        }
        NetDeclaration {
            mac: self.mac,
            queue_pairs: self.queue_pairs,
            maximum_queue_size: self.maximum_queue_size,
            backend: self.backend.clone(),
        }
    }
}

/// The receive queue of a pair.
pub open spec fn spec_rx_queue(pair: int) -> int {
    2 * pair
}

/// The transmit queue of a pair.
pub open spec fn spec_tx_queue(pair: int) -> int {
    2 * pair + 1
}

/// The control queue of a device with `pairs` pairs.
pub open spec fn spec_control_queue(pairs: int) -> int {
    2 * pairs
}

/// The receive queue of a pair.
pub fn rx_queue(pair: usize) -> (queue: usize)
    requires
        spec_rx_queue(pair as int) <= usize::MAX,
    ensures
        queue == spec_rx_queue(pair as int),
{
    pair * 2
}

/// The transmit queue of a pair.
pub fn tx_queue(pair: usize) -> (queue: usize)
    requires
        spec_tx_queue(pair as int) <= usize::MAX,
    ensures
        queue == spec_tx_queue(pair as int),
{
    pair * 2 + 1
}

/// The control queue of a device with `pairs` pairs.
pub fn control_queue(queue_pairs: usize) -> (queue: usize)
    requires
        spec_control_queue(queue_pairs as int) <= usize::MAX,
    ensures
        queue == spec_control_queue(queue_pairs as int),
{
    queue_pairs * 2
}

/// No queue serves two purposes: the receive queues are the even ones and the transmit
/// queues the odd ones below the control queue.
pub proof fn law_queues_are_distinct(pairs: int, a: int, b: int)
    requires
        0 <= a < pairs,
        0 <= b < pairs,
    ensures
        spec_rx_queue(a) != spec_tx_queue(b),
        spec_rx_queue(a) == spec_rx_queue(b) ==> a == b,
        spec_tx_queue(a) == spec_tx_queue(b) ==> a == b,
        spec_rx_queue(a) < spec_control_queue(pairs),
        spec_tx_queue(b) < spec_control_queue(pairs),
{
}

/// What a control chain asks for.
pub enum Control {
    /// A command that is answered with a refusal.
    Refuse,
    /// The number of pairs that are to be active.
    SetPairs(usize),
}

/// What a control chain asks for, on a device with `pairs` pairs.
pub open spec fn requested(mem: GuestMemory, descriptors: Seq<Descriptor>, pairs: int) -> Result<
    Control,
    DeviceError,
> {
    let header = descriptors[0];
    let data = descriptors[1];
    let command = mem.peek(header.address as int, 2);
    let count = bytes::le_value(mem.peek(data.address as int, 2));
    if descriptors.len() < 2 {
        Err(DeviceError::Descriptor("virtio-net control chain is too short"))
    } else if header.spec_writable() || header.length != 2 {
        Err(DeviceError::Descriptor("invalid virtio-net control header"))
    } else if mem.fault(DmaRange { gpa: header.address, length: 2 }) is Some {
        Err(mem.fault(DmaRange { gpa: header.address, length: 2 })->0)
    } else if command[0] != VIRTIO_NET_CTRL_MQ || command[1] != VIRTIO_NET_CTRL_MQ_VQ_PAIRS_SET {
        Ok(Control::Refuse)
    } else if data.spec_writable() || data.length != 2 {
        Err(DeviceError::Descriptor("invalid virtio-net queue-pair request"))
    } else if mem.fault(DmaRange { gpa: data.address, length: 2 }) is Some {
        Err(mem.fault(DmaRange { gpa: data.address, length: 2 })->0)
    } else if count == 0 || count > pairs {
        Ok(Control::Refuse)
    } else {
        Ok(Control::SetPairs(count as usize))
    }
}

/// What writing the status of a control command gives.
pub open spec fn answered(mem: GuestMemory, descriptors: Seq<Descriptor>, status: u8) -> Spread {
    let last = descriptors.last();
    if !last.spec_writable() || last.length != 1 {
        Spread {
            result: Err(DeviceError::Descriptor("invalid virtio-net control status")),
            memory: mem,
        }
    } else {
        chain::scattered(mem, seq![DmaRange { gpa: last.address, length: 1 }], seq![status])
    }
}

/// The frame that a transmit chain carries.
pub open spec fn transmitted(mem: GuestMemory, descriptors: Seq<Descriptor>) -> Result<
    Seq<u8>,
    DeviceError,
> {
    if chain::some_writable(descriptors) {
        Err(DeviceError::Descriptor("virtio-net TX chain is writable"))
    } else {
        match chain::gathered(mem, chain::ranges_of(descriptors)) {
            Err(error) => Err(error),
            Ok(bytes) => if bytes.len() <= HEADER_SIZE || bytes.len() - HEADER_SIZE
                > MAXIMUM_FRAME_SIZE {
                Err(DeviceError::Descriptor("invalid virtio-net TX frame length"))
            } else {
                Ok(bytes.subrange(HEADER_SIZE as int, bytes.len() as int))
            },
        }
    }
}

/// A frame behind an empty header.
pub open spec fn framed(frame: Seq<u8>) -> Seq<u8> {
    bytes::zeros(HEADER_SIZE as nat) + frame
}

/// What storing a frame in a receive chain gives.
pub open spec fn received(mem: GuestMemory, descriptors: Seq<Descriptor>, frame: Seq<u8>) -> Spread {
    let ranges = chain::ranges_of(descriptors);
    if frame.len() == 0 || frame.len() > MAXIMUM_FRAME_SIZE {
        Spread {
            result: Err(DeviceError::Descriptor("invalid virtio-net RX frame length")),
            memory: mem,
        }
    } else if chain::some_readable(descriptors) {
        Spread {
            result: Err(DeviceError::Descriptor("virtio-net RX chain is readable")),
            memory: mem,
        }
    } else if chain::total(ranges) > usize::MAX {
        Spread {
            result: Err(DeviceError::Descriptor("virtio-net RX capacity overflows usize")),
            memory: mem,
        }
    } else if chain::total(ranges) < framed(frame).len() {
        Spread {
            result: Err(DeviceError::Descriptor("virtio-net RX chain is too short")),
            memory: mem,
        }
    } else {
        chain::scattered(mem, ranges, framed(frame))
    }
}

/// Reads `length` bytes of guest memory.
pub fn read_chain_range(memory: &DmaMemory, address: u64, length: usize) -> (result: Result<
    Vec<u8>,
    DeviceError,
>)
    requires
        memory@.wf(),
    ensures
        match result {
            Ok(bytes) => {
                &&& memory@.fault(DmaRange { gpa: address, length }) is None
                &&& bytes@ == memory@.peek(address as int, length as int)
            },
            Err(error) => memory@.fault(DmaRange { gpa: address, length }) == Some(error),
        },
{
    memory.read(DmaRange { gpa: address, length })
}

/// Reads the frame that a transmit chain carries.
pub fn read_tx_frame(memory: &DmaMemory, chain: &DescriptorChain) -> (result: Result<
    Vec<u8>,
    DeviceError,
>)
    requires
        memory@.wf(),
    ensures
        match result {
            Ok(frame) => transmitted(memory@, chain.descriptors@) == Ok::<Seq<u8>, DeviceError>(
                frame@,
            ),
            Err(error) => transmitted(memory@, chain.descriptors@) == Err::<Seq<u8>, DeviceError>(
                error,
            ),
        },
{
    if chain::any_writable(chain) {
        return Err(DeviceError::Descriptor("virtio-net TX chain is writable"));
    }
    let bytes = chain::gather(memory, chain::ranges(chain).as_slice())?;
    if bytes.len() <= HEADER_SIZE || bytes.len() - HEADER_SIZE > MAXIMUM_FRAME_SIZE {
        return Err(DeviceError::Descriptor("invalid virtio-net TX frame length"));
    }
    let mut frame: Vec<u8> = Vec::with_capacity(bytes.len() - HEADER_SIZE);
    put_slice(
        &mut frame,
        vstd::slice::slice_subrange(bytes.as_slice(), HEADER_SIZE, bytes.len()),
    );
    proof {
        assert(frame@ =~= bytes@.subrange(HEADER_SIZE as int, bytes@.len() as int));
    }
    Ok(frame)
}

/// Where the device stands in its pass over the transmit queues.
#[derive(Clone, Copy, Debug, PartialEq, Eq, Structural)]
pub struct TransmitScan {
    /// The pair that is looked at next.
    pub pair: usize,
    /// The pairs below this one take part in the pass.
    pub limit: usize,
}

/// A frame on its way to the backend, with the chain it came in.
#[derive(Debug)]
pub struct NetTransmit {
    pub queue_index: usize,
    pub chain: DescriptorChain,
    pub frame: Vec<u8>,
}

/// A chain that waits for a frame.
#[derive(Debug)]
pub struct NetReceive {
    pub queue_index: usize,
    pub chain: DescriptorChain,
}

/// What looking for the next frame to transmit gives.
pub struct Search {
    pub result: Result<Option<(int, Chain, Seq<u8>)>, DeviceError>,
    pub queues: Queues,
    pub pair: int,
}

/// What looking for the next frame gives, in the transmit queues of the pairs from
/// `pair` on and below `limit`.
pub open spec fn search(queues: Queues, pair: int, limit: int) -> Search
    decreases limit - pair,
{
    if pair >= limit {
        Search { result: Ok(None), queues, pair }
    } else {
        let index = spec_tx_queue(pair);
        let after = queues.after_pop(index);
        match queues.pop_result(index) {
            Err(error) => Search { result: Err(error), queues: after, pair },
            Ok(None) => search(after, pair + 1, limit),
            Ok(Some(chain)) => Search {
                result: match transmitted(after.memory, chain.descriptors) {
                    Err(error) => Err(error),
                    Ok(frame) => Ok(Some((index, chain, frame))),
                },
                queues: after,
                pair,
            },
        }
    }
}

/// A network device at work.
#[verifier::ext_equal]
pub struct Net {
    pub queues: Queues,
    pub kicked: bool,
    pub down: bool,
    pub active_pairs: usize,
    pub next_receive_pair: usize,
}

impl Net {
    /// How many pairs the device has.
    pub open spec fn maximum_pairs(self) -> int {
        (self.queues.layouts.len() - 1) / 2
    }

    /// The pair whose turn it is to receive after `count` more receives.
    pub open spec fn turn(self, count: int) -> int {
        (self.next_receive_pair + count) % self.active_pairs as int
    }

    /// The pair whose turn it is to receive.
    pub open spec fn receiving_pair(self) -> int {
        self.turn(0)
    }

    /// The number behind that of the next receive.
    pub open spec fn following_receive(self) -> usize {
        if self.next_receive_pair == usize::MAX {
            0
        } else {
            (self.next_receive_pair + 1) as usize
        }
    }

    /// The device after a request of a control chain was met.
    pub open spec fn obeying(self, control: Control) -> Net {
        match control {
            Control::Refuse => self,
            Control::SetPairs(pairs) => Net { active_pairs: pairs, ..self },
        }
    }

    /// The status that a request of a control chain is answered with.
    pub open spec fn status(control: Control) -> u8 {
        match control {
            Control::Refuse => VIRTIO_NET_ERR,
            Control::SetPairs(_) => VIRTIO_NET_OK,
        }
    }

    /// What working off one control chain gives.
    pub open spec fn control(self) -> (Result<Option<Interrupt>, DeviceError>, Net) {
        let index = spec_control_queue(self.maximum_pairs());
        let popped = Net { queues: self.queues.after_pop(index), ..self };
        match self.queues.pop_result(index) {
            Err(error) => (Err(error), popped),
            Ok(None) => (Ok(None), popped),
            Ok(Some(chain)) => popped.answer(chain),
        }
    }

    /// What answering a control chain gives.
    pub open spec fn answer(self, chain: Chain) -> (Result<Option<Interrupt>, DeviceError>, Net) {
        let index = spec_control_queue(self.maximum_pairs());
        match requested(self.queues.memory, chain.descriptors, self.maximum_pairs()) {
            Err(error) => (Err(error), self),
            Ok(control) => {
                let obeyed = self.obeying(control);
                let spread = answered(
                    self.queues.memory,
                    chain.descriptors,
                    Net::status(control),
                );
                let stored = obeyed.queues.with_memory(spread.memory);
                if spread.result is Err {
                    (Err(spread.result->Err_0), Net { queues: stored, ..obeyed })
                } else {
                    (
                        match stored.complete_result(index, chain.head, 1) {
                            Ok(()) => Ok(Some(interrupt::spec_queue_interrupt(index as u16))),
                            Err(error) => Err(error),
                        },
                        Net { queues: stored.after_complete(index, chain.head, 1), ..obeyed },
                    )
                }
            },
        }
    }

    /// What handing a frame to the guest in `chain` of queue `index` gives.
    pub open spec fn deliver(self, index: int, chain: Chain, frame: Seq<u8>) -> (
        Result<Interrupt, DeviceError>,
        Queues,
    ) {
        let spread = received(self.queues.memory, chain.descriptors, frame);
        let stored = self.queues.with_memory(spread.memory);
        let used = framed(frame).len() as u32;
        if spread.result is Err {
            (Err(spread.result->Err_0), stored)
        } else {
            (
                match stored.complete_result(index, chain.head, used) {
                    Ok(()) => Ok(interrupt::spec_queue_interrupt(index as u16)),
                    Err(error) => Err(error),
                },
                stored.after_complete(index, chain.head, used),
            )
        }
    }
}

/// An active network device.
#[derive(Debug)]
pub struct NetDevice<'a> {
    queues: QueueSet<'a>,
    kicked: bool,
    down: bool,
    active_pairs: usize,
    next_receive_pair: usize,
}

impl<'a> View for NetDevice<'a> {
    type V = Net;

    closed spec fn view(&self) -> Net {
        Net {
            queues: self.queues@,
            kicked: self.kicked,
            down: self.down,
            active_pairs: self.active_pairs,
            next_receive_pair: self.next_receive_pair,
        }
    }
}

impl<'a> NetDevice<'a> {
    /// The device has whole pairs, no more than it may have, and a control queue, and at
    /// least one pair is active.
    pub open spec fn wf(self) -> bool {
        &&& self@.queues.wf()
        &&& self@.queues.layouts.len() == 2 * self@.maximum_pairs() + 1
        &&& 1 <= self@.active_pairs <= self@.maximum_pairs() <= MAXIMUM_QUEUE_PAIRS
    }

    /// The guest memory that the device works on.
    pub fn memory(&self) -> (memory: &DmaMemory<'a>)
        ensures
            memory@ == self@.queues.memory,
    {
        &self.queues.resources.dma
    }

    /// How many pairs the device has.
    pub fn maximum_queue_pairs(&self) -> (pairs: usize)
        requires
            self.wf(),
        ensures
            pairs == self@.maximum_pairs(),
    {
        (self.queues.resources.queues.len() - 1) / 2
    }

    /// How many pairs are active.
    pub fn active_queue_pairs(&self) -> (pairs: usize)
        ensures
            pairs == self@.active_pairs,
    {
        self.active_pairs
    }

    /// Whether the device was taken down.
    pub fn is_down(&self) -> (down: bool)
        ensures
            down == self@.down,
    {
        self.down
    }

    /// Notes that the guest rang the doorbell.
    pub fn kick(&mut self)
        ensures
            final(self)@ == (Net { kicked: true, ..old(self)@ }),
    {
        self.kicked = true;
    }

    /// Takes the device down, whatever the reason.
    pub fn stop(&mut self, reason: DeviceDownReason)
        requires
            old(self).wf(),
        ensures
            final(self).wf(),
            final(self)@ == (Net {
                queues: old(self)@.queues.stopped(),
                down: true,
                ..old(self)@
            }),
            final(self)@.down,
            final(self)@.queues.memory.revoked,
            final(self)@.queues.cursors == old(self)@.queues.cursors,
    {
        self.down = true;
        self.queues.stop();
    }

    /// What to do on a wake-up.
    pub fn on_wake(&mut self) -> (step: WakeStep)
        ensures
            step == if old(self)@.down {
                WakeStep::Drain
            } else if !old(self)@.kicked {
                WakeStep::Sleep
            } else {
                WakeStep::Process
            },
            final(self)@ == (Net {
                kicked: old(self)@.down && old(self)@.kicked,
                ..old(self)@
            }),
            step is Drain <==> old(self)@.down,
            step is Process <==> !old(self)@.down && old(self)@.kicked,
            step is Process ==> !final(self)@.kicked,
    {
        if self.down {
            return WakeStep::Drain;
        }
        if !self.kicked {
            return WakeStep::Sleep;
        }
        self.kicked = false;
        WakeStep::Process
    }

    /// Works off one control chain.
    pub fn process_control(&mut self) -> (result: Result<Option<Interrupt>, DeviceError>)
        requires
            old(self).wf(),
        ensures
            final(self).wf(),
            result == old(self)@.control().0,
            final(self)@ == old(self)@.control().1,
    {
        let index: usize = control_queue(self.maximum_queue_pairs());
        let popped = self.queues.pop(index)?;
        match popped {
            None => Ok(None),
            Some(chain) => {
                let status: u8 = self.handle_control(&chain)?;
                self.write_control_status(&chain, status)?;
                self.queues.complete(index, &chain, 1)?;
                Ok(Some(queue_interrupt(index as u16)))
            },
        }
    }

    /// Meets the request of a control chain, and gives the status to answer with.
    pub fn handle_control(&mut self, chain: &DescriptorChain) -> (result: Result<u8, DeviceError>)
        requires
            old(self).wf(),
        ensures
            final(self).wf(),
            match requested(
                old(self)@.queues.memory,
                chain.descriptors@,
                old(self)@.maximum_pairs(),
            ) {
                Ok(control) => {
                    &&& chain.descriptors@.len() >= 2
                    &&& result == Ok::<u8, DeviceError>(Net::status(control))
                    &&& final(self)@ == old(self)@.obeying(control)
                },
                Err(error) => {
                    &&& result == Err::<u8, DeviceError>(error)
                    &&& final(self)@ == old(self)@
                },
            },
    {
        if chain.descriptors.len() < 2 {
            return Err(DeviceError::Descriptor("virtio-net control chain is too short"));
        }
        let header = chain.descriptors[0];
        if header.writable() || header.length != 2 {
            return Err(DeviceError::Descriptor("invalid virtio-net control header"));
        }
        let command = read_chain_range(&self.queues.resources.dma, header.address, 2)?;
        if command[0] != VIRTIO_NET_CTRL_MQ || command[1] != VIRTIO_NET_CTRL_MQ_VQ_PAIRS_SET {
            return Ok(VIRTIO_NET_ERR);
        }
        let data = chain.descriptors[1];
        if data.writable() || data.length != 2 {
            return Err(DeviceError::Descriptor("invalid virtio-net queue-pair request"));
        }
        let count = read_chain_range(&self.queues.resources.dma, data.address, 2)?;
        let pairs: usize = get_u16(count.as_slice(), 0) as usize;
        proof {
            assert(count@.subrange(0, 2) =~= count@);
        }
        if pairs == 0 || pairs > self.maximum_queue_pairs() {
            return Ok(VIRTIO_NET_ERR);
        }
        self.active_pairs = pairs;
        Ok(VIRTIO_NET_OK)
    }

    /// Writes the status of a control command into the last buffer of its chain.
    fn write_control_status(&mut self, chain: &DescriptorChain, status: u8) -> (result: Result<
        (),
        DeviceError,
    >)
        requires
            old(self).wf(),
            chain.descriptors@.len() > 0,
        ensures
            final(self).wf(),
            result == answered(old(self)@.queues.memory, chain.descriptors@, status).result,
            final(self)@ == (Net {
                queues: old(self)@.queues.with_memory(
                    answered(old(self)@.queues.memory, chain.descriptors@, status).memory,
                ),
                ..old(self)@
            }),
    {
        let last = chain.descriptors[chain.descriptors.len() - 1];
        if !last.writable() || last.length != 1 {
            return Err(DeviceError::Descriptor("invalid virtio-net control status"));
        }
        let ranges: Vec<DmaRange> = vec![DmaRange { gpa: last.address, length: 1 }];
        let data: Vec<u8> = vec![status];
        proof {
            assert(ranges@ =~= seq![DmaRange { gpa: last.address, length: 1 }]);
            assert(data@ =~= seq![status]);
        }
        self.queues.store(ranges.as_slice(), data.as_slice())
    }

    /// Starts a pass over the transmit queues of the active pairs.
    pub fn start_transmit(&self) -> (scan: TransmitScan)
        ensures
            scan == (TransmitScan { pair: 0, limit: self@.active_pairs }),
    {
        TransmitScan { pair: 0, limit: self.active_pairs }
    }

    /// Takes the next chain off the transmit queues and the frame it carries.
    pub fn begin_transmit(&mut self, scan: &mut TransmitScan) -> (result: Result<
        Option<NetTransmit>,
        DeviceError,
    >)
        requires
            old(self).wf(),
            old(scan).pair <= old(scan).limit <= old(self)@.maximum_pairs(),
        ensures
            final(self).wf(),
            final(scan).limit == old(scan).limit,
            final(scan).pair <= final(scan).limit,
            ({
                let found = search(
                    old(self)@.queues,
                    old(scan).pair as int,
                    old(scan).limit as int,
                );
                &&& final(self)@ == (Net { queues: found.queues, ..old(self)@ })
                &&& final(scan).pair == found.pair
                &&& match result {
                    Ok(Some(work)) => found.result == Ok::<
                        Option<(int, Chain, Seq<u8>)>,
                        DeviceError,
                    >(Some((work.queue_index as int, work.chain@, work.frame@))),
                    Ok(None) => found.result == Ok::<
                        Option<(int, Chain, Seq<u8>)>,
                        DeviceError,
                    >(None),
                    Err(error) => found.result == Err::<
                        Option<(int, Chain, Seq<u8>)>,
                        DeviceError,
                    >(error),
                }
            }),
    {
        let ghost found = search(self@.queues, scan.pair as int, scan.limit as int);
        while scan.pair < scan.limit
            invariant
                self.wf(),
                scan.limit == old(scan).limit,
                scan.pair <= scan.limit <= self@.maximum_pairs(),
                self@ == (Net { queues: self@.queues, ..old(self)@ }),
                found == search(
                    old(self)@.queues,
                    old(scan).pair as int,
                    old(scan).limit as int,
                ),
                search(self@.queues, scan.pair as int, scan.limit as int) == found,
            decreases scan.limit - scan.pair,
        {
            let index: usize = tx_queue(scan.pair);
            let popped = self.queues.pop(index)?;
            match popped {
                Some(chain) => {
                    let frame = read_tx_frame(&self.queues.resources.dma, &chain)?;
                    return Ok(Some(NetTransmit { queue_index: index, chain, frame }));
                },
                None => {
                    scan.pair = scan.pair + 1;
                },
            }
        }
        Ok(None)
    }

    /// Hands a transmit chain back, once the backend has taken its frame.
    pub fn finish_transmit(&mut self, queue_index: usize, chain: &DescriptorChain) -> (result: Result<
        Interrupt,
        DeviceError,
    >)
        requires
            old(self).wf(),
            queue_index < old(self)@.queues.layouts.len(),
        ensures
            final(self).wf(),
            final(self)@ == (Net {
                queues: old(self)@.queues.after_complete(queue_index as int, chain.head, 0),
                ..old(self)@
            }),
            result == match old(self)@.queues.complete_result(queue_index as int, chain.head, 0) {
                Ok(()) => Ok::<Interrupt, DeviceError>(
                    interrupt::spec_queue_interrupt(queue_index as u16),
                ),
                Err(error) => Err::<Interrupt, DeviceError>(error),
            },
            old(self)@.queues.cursors[queue_index as int].inflight
                && !old(self)@.queues.memory.revoked ==> {
                &&& result == Ok::<Interrupt, DeviceError>(
                    Interrupt::Queue {
                        queue_index: queue_index as u16,
                        vector: queue_index as u16,
                    },
                )
                &&& driver::is_returned(
                    old(self)@.queues,
                    queue_index as int,
                    final(self)@.queues,
                    chain.head,
                    0,
                )
            },
    {
        proof {
            driver::lemma_returned(self@.queues, queue_index as int, chain.head, 0);
        }
        self.queues.complete(queue_index, chain, 0)?;
        Ok(queue_interrupt(queue_index as u16))
    }

    /// Takes the next chain off the receive queue whose turn it is, if the backend has a
    /// frame.
    pub fn begin_receive(&mut self, has_frame: bool) -> (result: Result<
        Option<NetReceive>,
        DeviceError,
    >)
        requires
            old(self).wf(),
        ensures
            final(self).wf(),
            !has_frame ==> result == Ok::<Option<NetReceive>, DeviceError>(None) && final(self)@
                == old(self)@,
            has_frame ==> {
                let index = spec_rx_queue(old(self)@.receiving_pair());
                &&& final(self)@ == (Net {
                    queues: old(self)@.queues.after_pop(index),
                    next_receive_pair: old(self)@.following_receive(),
                    ..old(self)@
                })
                &&& match result {
                    Ok(Some(work)) => {
                        &&& work.queue_index == index
                        &&& old(self)@.queues.pop_result(index) == Ok::<
                            Option<Chain>,
                            DeviceError,
                        >(Some(work.chain@))
                    },
                    Ok(None) => old(self)@.queues.pop_result(index) == Ok::<
                        Option<Chain>,
                        DeviceError,
                    >(None),
                    Err(error) => old(self)@.queues.pop_result(index) == Err::<
                        Option<Chain>,
                        DeviceError,
                    >(error),
                }
            },
            forall|chain: Chain|
                has_frame && !old(self)@.queues.memory.revoked && #[trigger] driver::is_offered(
                    old(self)@.queues,
                    2 * (old(self)@.next_receive_pair as int % old(self)@.active_pairs as int),
                    chain,
                ) ==> {
                    &&& result is Ok
                    &&& result->Ok_0 is Some
                    &&& result->Ok_0->0.chain@ == chain
                    &&& result->Ok_0->0.queue_index == 2 * (old(self)@.next_receive_pair as int
                        % old(self)@.active_pairs as int)
                },
    {
        proof {
            let queues = self@.queues;
            let index = spec_rx_queue(self@.receiving_pair());
            assert forall|chain: Chain|
                !queues.memory.revoked && #[trigger] driver::is_offered(
                    queues,
                    index,
                    chain,
                ) implies queues.pop_result(index) == Ok::<Option<Chain>, DeviceError>(
                Some(chain),
            ) by {
                driver::law_next_chain_is_taken(queues, index, chain);
            }
        }
        if !has_frame {
            return Ok(None);
        }
        let pair: usize = self.next_receive_pair % self.active_pairs;
        self.next_receive_pair = self.next_receive_pair.wrapping_add(1);
        let queue_index: usize = rx_queue(pair);
        let popped = self.queues.pop(queue_index)?;
        match popped {
            None => Ok(None),
            Some(chain) => Ok(Some(NetReceive { queue_index, chain })),
        }
    }

    /// Hands the frame that the backend gave to the guest.
    pub fn finish_receive(
        &mut self,
        queue_index: usize,
        chain: &DescriptorChain,
        frame: Option<Vec<u8>>,
    ) -> (result: Result<Interrupt, DeviceError>)
        requires
            old(self).wf(),
            queue_index < old(self)@.queues.layouts.len(),
        ensures
            final(self).wf(),
            match frame {
                None => {
                    &&& result == Err::<Interrupt, DeviceError>(
                        DeviceError::Descriptor("virtio-net frame disappeared"),
                    )
                    &&& final(self)@ == old(self)@
                },
                Some(frame) => {
                    &&& result == old(self)@.deliver(queue_index as int, chain@, frame@).0
                    &&& final(self)@ == (Net {
                        queues: old(self)@.deliver(queue_index as int, chain@, frame@).1,
                        ..old(self)@
                    })
                },
            },
    {
        let frame = match frame {
            Some(frame) => frame,
            None => {
                return Err(DeviceError::Descriptor("virtio-net frame disappeared"));
            },
        };
        let used_length: u32 = self.write_rx_frame(chain, frame.as_slice())?;
        self.queues.complete(queue_index, chain, used_length)?;
        Ok(queue_interrupt(queue_index as u16))
    }

    /// Stores a frame in a receive chain, and gives the length that was stored.
    fn write_rx_frame(&mut self, chain: &DescriptorChain, frame: &[u8]) -> (result: Result<
        u32,
        DeviceError,
    >)
        requires
            old(self).wf(),
        ensures
            final(self).wf(),
            result == match received(
                old(self)@.queues.memory,
                chain.descriptors@,
                frame@,
            ).result {
                Ok(()) => Ok::<u32, DeviceError>(framed(frame@).len() as u32),
                Err(error) => Err::<u32, DeviceError>(error),
            },
            final(self)@ == (Net {
                queues: old(self)@.queues.with_memory(
                    received(old(self)@.queues.memory, chain.descriptors@, frame@).memory,
                ),
                ..old(self)@
            }),
    {
        if frame.len() == 0 || frame.len() > MAXIMUM_FRAME_SIZE {
            return Err(DeviceError::Descriptor("invalid virtio-net RX frame length"));
        }
        if chain::any_readable(chain) {
            return Err(DeviceError::Descriptor("virtio-net RX chain is readable"));
        }
        let mut data: Vec<u8> = Vec::with_capacity(HEADER_SIZE + frame.len());
        put_zeros(&mut data, HEADER_SIZE);
        put_slice(&mut data, frame);
        proof {
            assert(data@ =~= framed(frame@));
        }
        let ranges = chain::ranges(chain);
        let capacity: usize = match chain::capacity(ranges.as_slice()) {
            Some(capacity) => capacity,
            None => {
                return Err(DeviceError::Descriptor("virtio-net RX capacity overflows usize"));
            },
        };
        if capacity < data.len() {
            return Err(DeviceError::Descriptor("virtio-net RX chain is too short"));
        }
        self.queues.store(ranges.as_slice(), data.as_slice())?;
        Ok(data.len() as u32)
    }
}

/// A control command changes the number of active pairs only if it is answered with
/// success, and then to the number it asks for, which the device has.
pub proof fn law_control_keeps_active_pairs_in_range(device: Net, chain: Chain, control: Control)
    requires
        1 <= device.active_pairs <= device.maximum_pairs(),
        requested(device.queues.memory, chain.descriptors, device.maximum_pairs()) == Ok::<
            Control,
            DeviceError,
        >(control),
        device.maximum_pairs() <= usize::MAX,
    ensures
        Net::status(control) == VIRTIO_NET_ERR ==> device.obeying(control) == device,
        Net::status(control) == VIRTIO_NET_OK ==> {
            let asked = bytes::le_value(
                device.queues.memory.peek(chain.descriptors[1].address as int, 2),
            );
            &&& device.obeying(control).active_pairs == asked
            &&& 1 <= asked <= device.maximum_pairs()
        },
        1 <= device.obeying(control).active_pairs <= device.maximum_pairs(),
{
}

/// Receiving visits the active pairs in turn: each receive moves on by one turn, and as
/// many turns as there are active pairs serve each pair exactly once.
pub proof fn law_receives_take_turns(device: Net, pair: int)
    requires
        device.active_pairs >= 1,
        device.next_receive_pair < usize::MAX,
        0 <= pair < device.active_pairs,
    ensures
        forall|k: int|
            (Net {
                next_receive_pair: device.following_receive(),
                ..device
            }).turn(k) == #[trigger] device.turn(k + 1),
        exists|k: int| 0 <= k < device.active_pairs && #[trigger] device.turn(k) == pair,
        forall|j: int, k: int|
            0 <= j < k < device.active_pairs ==> #[trigger] device.turn(j)
                != #[trigger] device.turn(k),
{
    let active = device.active_pairs as int;
    let first = device.next_receive_pair as int;
    let offset = (pair - first) % active;
    assert(device.turn(offset) == pair) by {
        vstd::arithmetic::div_mod::lemma_add_mod_noop_right(first, pair - first, active);
        vstd::arithmetic::div_mod::lemma_small_mod(pair as nat, active as nat);
    }
    assert forall|j: int, k: int| 0 <= j < k < active implies #[trigger] device.turn(j)
        != #[trigger] device.turn(k) by {
        if device.turn(j) == device.turn(k) {
            vstd::arithmetic::div_mod::lemma_mod_equivalence(first + k, first + j, active);
            vstd::arithmetic::div_mod::lemma_small_mod((k - j) as nat, active as nat);
        }
    }
}

/// What a driver sends reaches the backend: if the buffers of a chain are for reading and hold
/// a header of twelve bytes and then a frame, the backend gets the frame, in full.
pub proof fn law_sent_frame_reaches_backend(
    mem: GuestMemory,
    descriptors: Seq<Descriptor>,
    header: Seq<u8>,
    frame: Seq<u8>,
)
    requires
        driver::is_for_reading(mem, descriptors),
        driver::content(mem, descriptors) == header + frame,
        header.len() == 12,
        1 <= frame.len() <= 65_536,
    ensures
        transmitted(mem, descriptors) == Ok::<Seq<u8>, DeviceError>(frame),
{
    driver::lemma_directions(mem, descriptors);
    let bytes = driver::content(mem, descriptors);
    assert(bytes.subrange(12, bytes.len() as int) =~= frame);
}

/// What reaches the backend was sent: the frame is what the buffers of the chain hold behind
/// twelve bytes, none of them is for writing, and it is neither empty nor too long.
pub proof fn law_backend_gets_sent_frames(
    mem: GuestMemory,
    descriptors: Seq<Descriptor>,
    frame: Seq<u8>,
)
    requires
        transmitted(mem, descriptors) == Ok::<Seq<u8>, DeviceError>(frame),
    ensures
        1 <= frame.len() <= 65_536,
        driver::content(mem, descriptors).len() == 12 + frame.len(),
        driver::content(mem, descriptors).skip(12) == frame,
        forall|k: int|
            0 <= k < descriptors.len() ==> (#[trigger] descriptors[k]).flags & 2 == 0,
{
    driver::lemma_content(mem, descriptors);
    assert(driver::content(mem, descriptors).skip(12) =~= frame);
    assert forall|k: int| 0 <= k < descriptors.len() implies (#[trigger] descriptors[k]).flags & 2
        == 0 by {
        chain::law_buffers_are_as_described(descriptors, k);
    }
}

/// A frame that a driver sends on one of the active pairs is found, if no active pair in front
/// of it has one: it is given with its chain and its queue, the odd one of the pair, and only
/// that queue has moved on.
pub proof fn law_first_waiting_frame_is_found(
    queues: Queues,
    pair: int,
    limit: int,
    p: int,
    chain: Chain,
    header: Seq<u8>,
    frame: Seq<u8>,
)
    requires
        queues.wf(),
        !queues.memory.revoked,
        0 <= pair <= p < limit,
        2 * limit <= queues.layouts.len(),
        forall|q: int|
            pair <= q < p ==> #[trigger] queues.cursors[2 * q + 1].inflight || driver::u16_at(
                queues.memory,
                queues.layouts[2 * q + 1].available.gpa + 2,
            ) == queues.cursors[2 * q + 1].last_available,
        driver::is_offered(queues, 2 * p + 1, chain),
        driver::is_for_reading(queues.memory, chain.descriptors),
        driver::content(queues.memory, chain.descriptors) == header + frame,
        header.len() == 12,
        1 <= frame.len() <= 65_536,
    ensures
        search(queues, pair, limit).result == Ok::<Option<(int, Chain, Seq<u8>)>, DeviceError>(
            Some((2 * p + 1, chain, frame)),
        ),
        search(queues, pair, limit).pair == p,
        search(queues, pair, limit).queues == queues.after_pop(2 * p + 1),
    decreases limit - pair,
{
    if pair < p {
        assert(queues.cursors[2 * pair + 1].inflight || driver::u16_at(
            queues.memory,
            queues.layouts[2 * pair + 1].available.gpa + 2,
        ) == queues.cursors[2 * pair + 1].last_available);
        driver::law_idle_queues(queues, 2 * pair + 1);
        law_first_waiting_frame_is_found(queues, pair + 1, limit, p, chain, header, frame);
    } else {
        driver::law_next_chain_is_taken(queues, 2 * p + 1, chain);
        law_sent_frame_reaches_backend(queues.memory, chain.descriptors, header, frame);
    }
}

/// A search that finds no frame has looked at every active pair behind where it stood, found
/// nothing on any, and changed nothing.
pub proof fn law_empty_search_has_looked_everywhere(queues: Queues, pair: int, limit: int, q: int)
    requires
        queues.wf(),
        0 <= pair <= q < limit,
        2 * limit <= queues.layouts.len(),
        search(queues, pair, limit).result == Ok::<Option<(int, Chain, Seq<u8>)>, DeviceError>(
            None,
        ),
    ensures
        queues.pop_result(2 * q + 1) == Ok::<Option<Chain>, DeviceError>(None),
        search(queues, pair, limit).queues == queues,
        search(queues, pair, limit).pair == limit,
    decreases limit - pair,
{
    assert(queues.after_pop(2 * pair + 1) =~= queues);
    if pair < q {
        law_empty_search_has_looked_everywhere(queues, pair + 1, limit, q);
    } else if pair + 1 < limit {
        law_empty_search_has_looked_everywhere(queues, pair + 1, limit, pair + 1);
    } else {
        assert(search(queues, pair + 1, limit).queues == queues);
    }
}

/// The queue that receives next is the even one of the pair whose turn it is, and the turn then
/// goes to the next pair.
pub proof fn law_receive_queue(device: Net)
    requires
        device.active_pairs >= 1,
    ensures
        spec_rx_queue(device.receiving_pair()) == 2 * (device.next_receive_pair as int
            % device.active_pairs as int),
        0 <= device.receiving_pair() < device.active_pairs,
        device.next_receive_pair < usize::MAX ==> device.following_receive()
            == device.next_receive_pair + 1,
        device.next_receive_pair == usize::MAX ==> device.following_receive() == 0,
{
}

/// Whether a driver has laid a control command: two bytes that name the command, what the
/// command needs, and at the end one byte for the status.
pub open spec fn is_command(
    mem: GuestMemory,
    descriptors: Seq<Descriptor>,
    class: u8,
    command: u8,
) -> bool {
    let header = descriptors[0];
    let status = descriptors[descriptors.len() - 1];
    &&& descriptors.len() >= 2
    &&& header.flags & 2 == 0
    &&& header.length == 2
    &&& mem.fault(DmaRange { gpa: header.address, length: 2 }) is None
    &&& mem.byte(header.address as int) == class
    &&& mem.byte(header.address + 1) == command
    &&& status.flags & 2 != 0
    &&& status.length == 1
    &&& mem.fault(DmaRange { gpa: status.address, length: 1 }) is None
}

/// A driver that asks for a number of pairs that the device has gets them: they are active from
/// then on, the status is zero, and the chain is handed back with one byte written.  A number
/// that the device does not have is answered with the status one and changes nothing.
pub proof fn law_pairs_are_set(device: Net, chain: Chain, count: int)
    requires
        device.queues.wf(),
        device.queues.layouts.len() as int % 2 == 1,
        3 <= device.queues.layouts.len() <= 9,
        !device.queues.memory.revoked,
        driver::is_offered(device.queues, device.queues.layouts.len() - 1, chain),
        chain.descriptors.len() >= 3,
        is_command(device.queues.memory, chain.descriptors, 4, 0),
        chain.descriptors[1].flags & 2 == 0,
        chain.descriptors[1].length == 2,
        device.queues.memory.fault(
            (DmaRange { gpa: chain.descriptors[1].address, length: 2 }),
        ) is None,
        driver::u16_at(device.queues.memory, chain.descriptors[1].address as int) == count,
        chain::apart(
            (DmaRange { gpa: chain.descriptors.last().address, length: 1 }),
            device.queues.layouts.last().used,
        ),
    ensures
        ({
            let (result, after) = device.control();
            let control = device.queues.layouts.len() - 1;
            let has = 1 <= count && 2 * count <= control;
            &&& result == Ok::<Option<Interrupt>, DeviceError>(
                Some(
                    Interrupt::Queue { queue_index: control as u16, vector: control as u16 },
                ),
            )
            &&& after.active_pairs == if has {
                count
            } else {
                device.active_pairs as int
            }
            &&& after.queues.memory.byte(chain.descriptors.last().address as int) == if has {
                0
            } else {
                1u8
            }
            &&& driver::is_returned(
                device.queues.after_pop(control),
                control,
                after.queues,
                chain.head,
                1,
            )
            &&& after.kicked == device.kicked
            &&& after.down == device.down
            &&& after.next_receive_pair == device.next_receive_pair
        }),
{
    let control = device.queues.layouts.len() - 1;
    let mem = device.queues.memory;
    driver::law_next_chain_is_taken(device.queues, control, chain);
    let popped = Net { queues: device.queues.after_pop(control), ..device };
    assert(mem.peek(chain.descriptors[0].address as int, 2)[0] == 4);
    assert(mem.peek(chain.descriptors[0].address as int, 2)[1] == 0);
    driver::lemma_pair_of_bytes(mem, chain.descriptors[1].address as int);
    let status = if 1 <= count && 2 * count <= control {
        0u8
    } else {
        1u8
    };
    lemma_status_is_found(popped, control, chain, status);
}

/// A command that the device does not know is answered with the status one and changes nothing.
pub proof fn law_unknown_commands_are_refused(device: Net, chain: Chain, class: u8, command: u8)
    requires
        device.queues.wf(),
        device.queues.layouts.len() as int % 2 == 1,
        3 <= device.queues.layouts.len() <= 9,
        !device.queues.memory.revoked,
        driver::is_offered(device.queues, device.queues.layouts.len() - 1, chain),
        is_command(device.queues.memory, chain.descriptors, class, command),
        !(class == 4 && command == 0),
        chain::apart(
            (DmaRange { gpa: chain.descriptors.last().address, length: 1 }),
            device.queues.layouts.last().used,
        ),
    ensures
        ({
            let (result, after) = device.control();
            let control = device.queues.layouts.len() - 1;
            &&& result == Ok::<Option<Interrupt>, DeviceError>(
                Some(
                    Interrupt::Queue { queue_index: control as u16, vector: control as u16 },
                ),
            )
            &&& after.active_pairs == device.active_pairs
            &&& after.queues.memory.byte(chain.descriptors.last().address as int) == 1
            &&& driver::is_returned(
                device.queues.after_pop(control),
                control,
                after.queues,
                chain.head,
                1,
            )
        }),
{
    let control = device.queues.layouts.len() - 1;
    let mem = device.queues.memory;
    driver::law_next_chain_is_taken(device.queues, control, chain);
    let popped = Net { queues: device.queues.after_pop(control), ..device };
    assert(mem.peek(chain.descriptors[0].address as int, 2)[0] == class);
    assert(mem.peek(chain.descriptors[0].address as int, 2)[1] == command);
    lemma_status_is_found(popped, control, chain, 1);
}

/// A status that was written into its buffer is found there after the chain was handed back.
proof fn lemma_status_is_found(device: Net, control: int, chain: Chain, status: u8)
    requires
        device.queues.wf(),
        0 <= control < device.queues.layouts.len(),
        device.queues.cursors[control].inflight,
        !device.queues.memory.revoked,
        chain.descriptors.len() >= 2,
        chain.descriptors.last().spec_writable(),
        chain.descriptors.last().length == 1,
        device.queues.memory.fault(
            (DmaRange { gpa: chain.descriptors.last().address, length: 1 }),
        ) is None,
        chain::apart(
            (DmaRange { gpa: chain.descriptors.last().address, length: 1 }),
            device.queues.layouts[control].used,
        ),
    ensures
        ({
            let spread = answered(device.queues.memory, chain.descriptors, status);
            let stored = device.queues.with_memory(spread.memory);
            let after = stored.after_complete(control, chain.head, 1);
            &&& spread.result is Ok
            &&& stored.complete_result(control, chain.head, 1) is Ok
            &&& after.memory.byte(chain.descriptors.last().address as int) == status
            &&& driver::is_returned(device.queues, control, after, chain.head, 1)
        }),
{
    let last = chain.descriptors.last();
    let only = Chain { head: chain.head, descriptors: seq![last] };
    assert(chain::ranges_of(only.descriptors) =~= seq![DmaRange { gpa: last.address, length: 1 }]);
    reveal_with_fuel(driver::room, 2);
    reveal_with_fuel(driver::content, 2);
    assert(only.descriptors.drop_last() =~= Seq::empty());
    driver::law_stored_bytes_are_found(device.queues, control, only, seq![status], 1);
    let spread = answered(device.queues.memory, chain.descriptors, status);
    let after = device.queues.with_memory(spread.memory).after_complete(control, chain.head, 1);
    let found = driver::content(after.memory, only.descriptors);
    assert(found.take(1)[0] == status);
    assert(found[0] == after.memory.peek(last.address as int, 1)[0]);
}

/// What the guest finds in its buffers after a frame was received and the chain handed back: an
/// empty header of twelve bytes and then the frame, and the length of both in the used ring.
pub proof fn law_received_frame_reaches_guest(device: Net, i: int, chain: Chain, frame: Seq<u8>)
    requires
        device.queues.wf(),
        0 <= i < device.queues.layouts.len(),
        device.queues.cursors[i].inflight,
        !device.queues.memory.revoked,
        1 <= frame.len() <= 65_536,
        driver::is_for_writing(device.queues.memory, chain.descriptors),
        driver::is_apart(chain.descriptors, device.queues.layouts[i].used),
        12 + frame.len() <= driver::room(chain.descriptors) <= usize::MAX,
    ensures
        ({
            let (result, after) = device.deliver(i, chain, frame);
            let found = driver::content(after.memory, chain.descriptors);
            &&& result == Ok::<Interrupt, DeviceError>(
                Interrupt::Queue { queue_index: i as u16, vector: i as u16 },
            )
            &&& found.subrange(0, 12) == Seq::new(12, |k: int| 0u8)
            &&& found.subrange(12, 12 + frame.len() as int) == frame
            &&& driver::is_delivered(
                device.queues,
                i,
                chain,
                after,
                Seq::new(12, |k: int| 0u8) + frame,
                12 + frame.len() as int,
            )
        }),
{
    let data = framed(frame);
    driver::lemma_directions(device.queues.memory, chain.descriptors);
    driver::lemma_content(device.queues.memory, chain.descriptors);
    assert(data =~= Seq::new(12, |k: int| 0u8) + frame);
    driver::law_stored_bytes_are_found(device.queues, i, chain, data, data.len() as u32);
    let after = device.deliver(i, chain, frame).1;
    let found = driver::content(after.memory, chain.descriptors);
    let head = found.take(data.len() as int);
    assert(head == data);
    assert forall|k: int| 0 <= k < data.len() implies found[k] == data[k] by {
        assert(found[k] == head[k]);
    }
    assert(found.subrange(0, 12) =~= Seq::new(12, |k: int| 0u8));
    assert(found.subrange(12, 12 + frame.len() as int) =~= frame);
}

/// A frame that is empty, too long, or does not fit its chain with the header is refused, and so
/// is one for a chain with a buffer that is not for writing: the guest's memory and the queues
/// stay as they are.
pub proof fn law_bad_receives_are_refused(device: Net, i: int, chain: Chain, frame: Seq<u8>, k: int)
    requires
        frame.len() == 0 || frame.len() > 65_536 || 12 + frame.len() > driver::room(
            chain.descriptors,
        ) || (0 <= k < chain.descriptors.len() && chain.descriptors[k].flags & 2 == 0),
    ensures
        device.deliver(i, chain, frame).0 is Err,
        device.deliver(i, chain, frame).1 == device.queues,
{
    driver::lemma_content(device.queues.memory, chain.descriptors);
    if 0 <= k < chain.descriptors.len() {
        chain::law_buffers_are_as_described(chain.descriptors, k);
    }
    assert(device.deliver(i, chain, frame).1 =~= device.queues);
}

/// A device with `n` pairs has a receive and a transmit queue for each and a control queue, a
/// notifier for each queue and for the configuration, and offers the address, the status, the
/// control queue and more than one pair.
pub proof fn law_net_layout<B>(declaration: NetDeclaration<B>)
    requires
        declaration.spec_queue_pairs() <= 4,
    ensures
        declaration.spec_layout().queue_count == 2 * declaration.spec_queue_pairs() + 1,
        declaration.spec_layout().notifier_count == 2 * declaration.spec_queue_pairs() + 2,
        declaration.spec_layout().maximum_queue_size == declaration.spec_maximum_queue_size(),
        declaration.spec_layout().required_features == 0x1_0000_0000,
        declaration.spec_layout().optional_features == 0x20 + 0x1_0000 + 0x2_0000 + 0x40_0000,
{
}

/// A station can have an address exactly if one of its bytes is not zero and the first one is
/// even.
pub proof fn law_station_addresses(mac: Seq<u8>)
    requires
        mac.len() == 6,
    ensures
        is_station_address(mac) <==> {
            &&& mac[0] % 2 == 0
            &&& mac[0] != 0 || mac[1] != 0 || mac[2] != 0 || mac[3] != 0 || mac[4] != 0 || mac[5]
                != 0
        },
{
    let first = mac[0];
    assert((first & 1 == 0) == (first % 2 == 0)) by (bit_vector);
    if mac[0] == 0 && mac[1] == 0 && mac[2] == 0 && mac[3] == 0 && mac[4] == 0 && mac[5] == 0 {
        assert(mac =~= bytes::zeros(6));
    } else if mac == bytes::zeros(6) {
        assert(mac[0] == 0 && mac[1] == 0 && mac[2] == 0 && mac[3] == 0 && mac[4] == 0 && mac[5]
            == 0);
    }
}

/// A chain that is laid as no command is refused, and neither answered nor handed back: one that is
/// too short, whose command is not two bytes for reading, or whose number of pairs is not two bytes
/// for reading.
pub proof fn law_malformed_commands_are_refused(device: Net, chain: Chain)
    requires
        chain.descriptors.len() < 2 || chain.descriptors[0].flags & 2 != 0
            || chain.descriptors[0].length != 2 || device.queues.memory.fault(
            (DmaRange { gpa: chain.descriptors[0].address, length: 2 }),
        ) is Some || (device.queues.memory.byte(chain.descriptors[0].address as int) == 4
            && device.queues.memory.byte(chain.descriptors[0].address + 1) == 0 && (
        chain.descriptors[1].flags & 2 != 0 || chain.descriptors[1].length != 2
            || device.queues.memory.fault(
            (DmaRange { gpa: chain.descriptors[1].address, length: 2 }),
        ) is Some)),
    ensures
        device.answer(chain).0 is Err,
        device.answer(chain).1 == device,
{
    let command = device.queues.memory.peek(chain.descriptors[0].address as int, 2);
    assert(command[0] == device.queues.memory.byte(chain.descriptors[0].address as int));
    assert(command[1] == device.queues.memory.byte(chain.descriptors[0].address + 1));
}

/// The numbers of virtio-net, and the limits of a device.
pub proof fn law_net_numbers()
    ensures
        VIRTIO_F_VERSION_1 == 0x1_0000_0000,
        VIRTIO_NET_F_MAC == 0x20,
        VIRTIO_NET_F_STATUS == 0x1_0000,
        VIRTIO_NET_F_CTRL_VQ == 0x2_0000,
        VIRTIO_NET_F_MQ == 0x40_0000,
        VIRTIO_NET_S_LINK_UP == 1,
        VIRTIO_NET_CTRL_MQ == 4,
        VIRTIO_NET_CTRL_MQ_VQ_PAIRS_SET == 0,
        VIRTIO_NET_OK == 0,
        VIRTIO_NET_ERR == 1,
        HEADER_SIZE == 12,
        MAXIMUM_QUEUE_PAIRS == 4,
        MAXIMUM_FRAME_SIZE == 65_536,
{
}

/// No command is worked off exactly when no chain is taken off the control queue, and what the queue
/// fails with, the device fails with.
pub proof fn law_no_command_is_passed_over(device: Net)
    requires
        device.queues.layouts.len() as int % 2 == 1,
    ensures
        ({
            let control = device.queues.layouts.len() - 1;
            let (result, after) = device.control();
            &&& device.queues.pop_result(control) == Ok::<Option<Chain>, DeviceError>(None)
                ==> result == Ok::<Option<Interrupt>, DeviceError>(None)
            &&& device.queues.pop_result(control) matches Ok(Some(_)) ==> result != Ok::<
                Option<Interrupt>,
                DeviceError,
            >(None)
            &&& device.queues.pop_result(control) matches Err(error) ==> result == Err::<
                Option<Interrupt>,
                DeviceError,
            >(error)
            &&& !(device.queues.pop_result(control) matches Ok(Some(_))) ==> after.active_pairs
                == device.active_pairs
        }),
{
}

/// A chain that carries no frame fails the search that finds it, as does a queue that fails: the
/// search gives that error and stands where it found it.
pub proof fn law_bad_frame_fails_the_search(
    queues: Queues,
    pair: int,
    limit: int,
    p: int,
    error: DeviceError,
)
    requires
        queues.wf(),
        !queues.memory.revoked,
        0 <= pair <= p < limit,
        2 * limit <= queues.layouts.len(),
        forall|q: int|
            pair <= q < p ==> #[trigger] queues.cursors[2 * q + 1].inflight || driver::u16_at(
                queues.memory,
                queues.layouts[2 * q + 1].available.gpa + 2,
            ) == queues.cursors[2 * q + 1].last_available,
        match queues.pop_result(2 * p + 1) {
            Err(failure) => failure == error,
            Ok(Some(chain)) => transmitted(queues.memory, chain.descriptors) == Err::<
                Seq<u8>,
                DeviceError,
            >(error),
            Ok(None) => false,
        },
    ensures
        search(queues, pair, limit).result == Err::<Option<(int, Chain, Seq<u8>)>, DeviceError>(
            error,
        ),
        search(queues, pair, limit).pair == p,
        search(queues, pair, limit).queues == queues.after_pop(2 * p + 1),
    decreases limit - pair,
{
    if pair < p {
        assert(queues.cursors[2 * pair + 1].inflight || driver::u16_at(
            queues.memory,
            queues.layouts[2 * pair + 1].available.gpa + 2,
        ) == queues.cursors[2 * pair + 1].last_available);
        driver::law_idle_queues(queues, 2 * pair + 1);
        law_bad_frame_fails_the_search(queues, pair + 1, limit, p, error);
    }
}

} // verus!
