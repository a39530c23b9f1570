//! The figures of one memory report.

use vstd::prelude::*;

verus! {

/// The page size taken where the system does not name its own.
pub const DEFAULT_PAGE_SIZE: u64 = 4096;

/// `n` held within the range of `u64`.
pub open spec fn saturated(n: int) -> u64 {
    if n < 0 {
        0
    } else if n > u64::MAX {
        u64::MAX
    } else {
        n as u64
    }
}

/// The smaller of two numbers.
pub open spec fn smaller(a: int, b: int) -> int {
    if a < b {
        a
    } else {
        b
    }
}

/// `a * b`, or `u64::MAX` where the product does not fit.
pub fn saturating_product(a: u64, b: u64) -> (r: u64)
    ensures
        r == saturated(a * b),
{
    proof {
        assert(0 <= a * b) by (nonlinear_arith);
    }
    match a.checked_mul(b) {
        Some(product) => product,
        None => u64::MAX,
    }
}

/// System-wide memory figures, in bytes.
#[derive(Clone, Copy, Debug, PartialEq, Eq, Structural)]
pub struct Memory {
    pub total: u64,
    pub available: u64,
    pub cached: u64,
    pub swap_total: u64,
    pub swap_free: u64,
    pub commit_limit: u64,
    pub committed: u64,
}

impl Memory {
    /// The part of the installed memory that is not available.
    pub open spec fn spec_used(self) -> u64 {
        saturated(self.total - self.available)
    }

    /// The part of the installed memory that is not available, in bytes. It
    /// never exceeds the installed memory.
    pub fn used(&self) -> (r: u64)
        ensures
            r == self.spec_used(),
            r <= self.total,
    {
        self.total.saturating_sub(self.available)
    }
}

impl Default for Memory {
    fn default() -> (r: Self)
        ensures
            r == (Memory {
                total: 0,
                available: 0,
                cached: 0,
                swap_total: 0,
                swap_free: 0,
                commit_limit: 0,
                committed: 0,
            }),
    {
        Memory {
            total: 0,
            available: 0,
            cached: 0,
            swap_total: 0,
            swap_free: 0,
            commit_limit: 0,
            committed: 0,
        }
    }
}

/// Totals over the compressed swap devices, in bytes.
#[derive(Clone, Copy, Debug, PartialEq, Eq, Structural)]
pub struct Zram {
    pub configured: u64,
    pub data: u64,
    pub compressed: u64,
    pub memory_used: u64,
}

impl Default for Zram {
    fn default() -> (r: Self)
        ensures
            r == (Zram { configured: 0, data: 0, compressed: 0, memory_used: 0 }),
    {
        Zram { configured: 0, data: 0, compressed: 0, memory_used: 0 }
    }
}

/// How short of memory the kernel says it is.
#[derive(Clone, Copy, Debug, PartialEq, Eq, Structural)]
pub enum PressureLevel {
    Normal,
    Warning,
    Critical,
    /// A level without a name, as the kernel gave it.
    Unknown(i32),
}

impl PressureLevel {
    /// The meaning of a kernel pressure level.
    pub open spec fn spec_from_sysctl(level: i32) -> PressureLevel {
        if level == 1 {
            PressureLevel::Normal
        } else if level == 2 {
            PressureLevel::Warning
        } else if level == 4 {
            PressureLevel::Critical
        } else {
            PressureLevel::Unknown(level)
        }
    }

    /// Reads `kern.memorystatus_vm_pressure_level`.
    pub fn from_sysctl(level: i32) -> (r: PressureLevel)
        ensures
            r == Self::spec_from_sysctl(level),
    {
        match level {
            1 => PressureLevel::Normal,
            2 => PressureLevel::Warning,
            4 => PressureLevel::Critical,
            _ => PressureLevel::Unknown(level),
        }
    }
}

/// What only one kind of system reports.
#[derive(Clone, Copy, Debug, PartialEq, Eq, Structural)]
pub enum PlatformDetails {
    Linux { zram: Zram },
    Macos { pressure: PressureLevel, compressor_uncompressed: u64, compressor_ram: u64 },
    Windows,
}

/// The processes that run under one name.
#[derive(Debug)]
pub struct ProcessGroup {
    /// The name they share.
    pub name: String,
    /// How many they are.
    pub count: usize,
    /// The bytes that they keep in memory, together.
    pub rss: u64,
}

/// One reading of the whole system.
#[derive(Debug)]
pub struct Snapshot {
    pub hostname: String,
    pub memory: Memory,
    pub details: PlatformDetails,
    /// The groups to show, the largest first.
    pub groups: Vec<ProcessGroup>,
}

/// A number within the range of `u64` is kept, and one beyond it becomes the
/// nearest that is within.
pub proof fn law_saturated(n: int)
    ensures
        0 <= n < 0x1_0000_0000_0000_0000 ==> saturated(n) == n,
        n < 0 ==> saturated(n) == 0,
        n >= 0x1_0000_0000_0000_0000 ==> saturated(n) == 0xffff_ffff_ffff_ffffu64,
{
}

/// The smaller of two numbers is one of them, and neither is below it.
pub proof fn law_smaller(a: int, b: int)
    ensures
        smaller(a, b) <= a,
        smaller(a, b) <= b,
        smaller(a, b) == a || smaller(a, b) == b,
{
}

/// What is used and what is available are together all that there is, unless
/// more is available than there is: then nothing is used.
pub proof fn law_used_and_available_make_the_total(memory: &Memory, r: u64)
    requires
        call_ensures(Memory::used, (memory,), r),
    ensures
        memory.available <= memory.total ==> r + memory.available == memory.total,
        memory.available > memory.total ==> r == 0,
{
}

/// Each pressure level has its own meaning, and one without a name is told as
/// it is.
pub proof fn law_pressure_levels(level: i32, r: PressureLevel)
    requires
        call_ensures(PressureLevel::from_sysctl, (level,), r),
    ensures
        r is Normal <==> level == 1,
        r is Warning <==> level == 2,
        r is Critical <==> level == 4,
        r is Unknown <==> level != 1 && level != 2 && level != 4,
        r matches PressureLevel::Unknown(told) ==> told == level,
{
}

} // verus!
