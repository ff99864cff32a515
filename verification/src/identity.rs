//! Task identities: a slot index in the low byte and a generation above it.
use vstd::prelude::*;
use crate::config::TASK_SLOT_COUNT;
use crate::error::{DriverError, TaskId};

verus! {

/// The identity of the task that occupies `slot` in `generation`.
pub open spec fn task_id(slot: usize, generation: u16) -> Option<TaskId> {
    if slot < TASK_SLOT_COUNT && generation != 0 {
        Some(TaskId { raw: (generation * 256 + slot) as u32 })
    } else {
        None
    }
}

/// The slot and generation that an identity names.
pub open spec fn task_of(task: TaskId) -> Option<(usize, u16)> {
    let slot = task.raw % 256;
    let generation = task.raw / 256;
    if slot < TASK_SLOT_COUNT && 0 < generation <= u16::MAX {
        Some((slot as usize, generation as u16))
    } else {
        None
    }
}

/// Encodes an identity. Slots outside the table and the reserved generation zero have
/// none.
pub fn encode_task_id(slot: usize, generation: u16) -> (r: Result<TaskId, DriverError>)
    ensures
        r == (match task_id(slot, generation) {
            Some(id) => Ok::<TaskId, DriverError>(id),
            None => Err(DriverError::InvalidHandle),
        }),
{
    if slot >= TASK_SLOT_COUNT || generation == 0 {
        return Err(DriverError::InvalidHandle);
    }
    let slot_bits: u32 = slot as u32;
    let generation_bits: u32 = generation as u32;
    assert(((generation_bits << 8) | slot_bits) == generation_bits * 256 + slot_bits)
        by (bit_vector)
        requires
            generation_bits <= 0xffff,
            slot_bits < 256,
    ;
    Ok(TaskId::from_raw((generation_bits << 8) | slot_bits))
}

/// Decodes an identity, without asking whether its task still lives.
pub fn decode_task_id(task: TaskId) -> (r: Result<(usize, u16), DriverError>)
    ensures
        r == (match task_of(task) {
            Some(pair) => Ok::<(usize, u16), DriverError>(pair),
            None => Err(DriverError::InvalidHandle),
        }),
{
    let raw: u32 = task.into_raw();
    assert((raw & 0xff) == raw % 256) by (bit_vector);
    assert((raw >> 8) == raw / 256) by (bit_vector);
    let slot: usize = (raw & 0xff) as usize;
    let generation: u32 = raw >> 8;
    if slot >= TASK_SLOT_COUNT || generation == 0 || generation > u16::MAX as u32 {
        return Err(DriverError::InvalidHandle);
    }
    Ok((slot, generation as u16))
}

/// Decoding gives back what was encoded.
pub proof fn law_task_id_round_trip(slot: usize, generation: u16)
    requires
        task_id(slot, generation) is Some,
    ensures
        task_of(task_id(slot, generation)->0) == Some((slot, generation)),
{
    let raw = generation * 256 + slot;
    assert(raw % 256 == slot && raw / 256 == generation as int);
}

/// Whatever decodes was encoded so.
pub proof fn law_task_of_round_trip(task: TaskId)
    requires
        task_of(task) is Some,
    ensures
        task_id((task_of(task)->0).0, (task_of(task)->0).1) == Some(task),
{
}

/// Two tasks never have the same identity, be it another slot or another generation of
/// the same slot.
pub proof fn law_task_ids_differ(a: usize, a_generation: u16, b: usize, b_generation: u16)
    requires
        task_id(a, a_generation) is Some,
        task_id(b, b_generation) is Some,
        task_id(a, a_generation) == task_id(b, b_generation),
    ensures
        a == b,
        a_generation == b_generation,
{
    law_task_id_round_trip(a, a_generation);
    law_task_id_round_trip(b, b_generation);
}

} // verus!
