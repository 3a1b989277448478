use vstd::prelude::*;

verus! {

/// Where the shared-memory slots of a process start.
pub const USER_SHM_BASE: u64 = 0x0000_4000_0000_0000;

/// The size of one shared-memory slot.
pub const SHM_SLOT_SIZE: u64 = 67108864;

/// The address of shared-memory slot `shm_id`.
pub open spec fn shm_address(shm_id: u64) -> int {
    USER_SHM_BASE + shm_id * SHM_SLOT_SIZE
}

/// The address of slot `shm_id` fits in 64 bits.
pub open spec fn shm_id_in_range(shm_id: u64) -> bool {
    shm_address(shm_id) <= u64::MAX
}

} // verus!
