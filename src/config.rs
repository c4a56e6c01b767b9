//! What a board supplies to the AArch64 boot code, and the one decision made from
//! it before anything else runs: which core boots and which cores are parked.
use vstd::prelude::*;
use core::marker::PhantomData;

verus! {

/// Bits of the affinity register (MPIDR) that hold a core's number.
pub const CORE_ID_MASK: u64 = 0b11;

/// Configuration that a board built on AArch64 supplies.
pub trait Aarch64Config {
    /// Number of the core that boots; every other core is parked.
    spec fn spec_boot_core_id() -> u64;

    fn boot_core_id() -> (r: u64)
        ensures
            r == Self::spec_boot_core_id();
}

/// Configuration that the kernel supplies to the Raspberry Pi 3 board.
pub trait Rpi3Config {
    /// Entry point of the kernel, called once the board has booted.
    fn kernel_main();
}

/// The AArch64 architecture under configuration `C`.
pub struct Aarch64<C> {
    _config: PhantomData<C>,
}

impl<C: Aarch64Config> Aarch64<C> {
    /// Whether the core whose affinity register reads `mpidr` is the boot core.
    pub fn is_boot_core(mpidr: u64) -> (r: bool)
        ensures
            r == ((mpidr & CORE_ID_MASK) == C::spec_boot_core_id()),
    {
        (mpidr & CORE_ID_MASK) == C::boot_core_id()
    }
}

/// The AArch64 configuration of the Raspberry Pi 3: core 0 boots.
pub struct ArchConfig<C> {
    _config: PhantomData<C>,
}

impl<C: Rpi3Config> Aarch64Config for ArchConfig<C> {
    open spec fn spec_boot_core_id() -> u64 {
        0
    }

    fn boot_core_id() -> (r: u64) {
        0
    }
}

/// The same AArch64 configuration, as the board's architecture module names it.
pub struct Config<C> {
    _config: PhantomData<C>,
}

impl<C: Rpi3Config> Aarch64Config for Config<C> {
    open spec fn spec_boot_core_id() -> u64 {
        0
    }

    fn boot_core_id() -> (r: u64) {
        0
    }
}

} // verus!
