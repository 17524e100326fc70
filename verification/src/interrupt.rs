//! What a device asks its transport to signal.

use vstd::prelude::*;

verus! {

/// An interrupt of a device.
#[derive(Clone, Copy, Debug, PartialEq, Eq, Structural)]
pub enum Interrupt {
    Queue { queue_index: u16, vector: u16 },
    Config { vector: u16 },
}

/// The interrupt of queue `index`: each queue signals on the vector of its own number.
pub open spec fn spec_queue_interrupt(index: u16) -> Interrupt {
    Interrupt::Queue { queue_index: index, vector: index }
}

/// The interrupt of queue `index`.
pub fn queue_interrupt(index: u16) -> (interrupt: Interrupt)
    ensures
        interrupt == spec_queue_interrupt(index),
{
    Interrupt::Queue { queue_index: index, vector: index }
}

/// A queue signals its own number, on the vector of the same number.
pub proof fn law_queues_signal_themselves(index: u16)
    ensures
        spec_queue_interrupt(index) == (Interrupt::Queue { queue_index: index, vector: index }),
{
}

} // verus!
