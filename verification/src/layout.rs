//! The structures that the macOS kernel fills in, as they lie in memory. All
//! numbers in them are little-endian, on every machine that the system runs on.

use crate::bytes::{law_little_endian, read_u32, read_u64, u32_at, u64_at};
use vstd::array::array_as_slice;
use vstd::prelude::*;

verus! {

/// The size of the first revision of `vm_statistics64`, in bytes.
pub const VM_STATISTICS64_SIZE: usize = 152;

/// The size of the first revision of `vm_statistics64`, counted in the
/// kernel's integers of four bytes.
pub const HOST_VM_INFO64_REV1_COUNT: u32 = 38;

/// The size of `xsw_usage`, in bytes.
pub const XSW_USAGE_SIZE: usize = 32;

/// The size of `proc_taskinfo`, in bytes.
pub const PROC_TASK_INFO_SIZE: usize = 96;

/// The size of `rusage_info_v2`, in bytes.
pub const RUSAGE_INFO_V2_SIZE: usize = 160;

/// Where the footprint stands in `rusage_info_v2`.
pub const RI_PHYS_FOOTPRINT_OFFSET: usize = 72;

/// What the virtual memory system counts. All `_count`s are of pages.
#[derive(Clone, Copy, Debug, PartialEq, Eq, Structural)]
pub struct VmStatistics64 {
    pub free_count: u32,
    pub active_count: u32,
    pub inactive_count: u32,
    pub wire_count: u32,
    pub zero_fill_count: u64,
    pub reactivations: u64,
    pub pageins: u64,
    pub pageouts: u64,
    pub faults: u64,
    pub cow_faults: u64,
    pub lookups: u64,
    pub hits: u64,
    pub purges: u64,
    pub purgeable_count: u32,
    pub speculative_count: u32,
    pub decompressions: u64,
    pub compressions: u64,
    pub swapins: u64,
    pub swapouts: u64,
    pub compressor_page_count: u32,
    pub throttled_count: u32,
    pub external_page_count: u32,
    pub internal_page_count: u32,
    pub total_uncompressed_pages_in_compressor: u64,
}

/// How the swap files are used.
#[derive(Clone, Copy, Debug, PartialEq, Eq, Structural)]
pub struct XswUsage {
    pub xsu_total: u64,
    pub xsu_avail: u64,
    pub xsu_used: u64,
    pub xsu_pagesize: u32,
    pub xsu_encrypted: i32,
}

/// The sizes that a process has.
#[derive(Clone, Copy, Debug, PartialEq, Eq, Structural)]
pub struct ProcTaskInfo {
    pub pti_virtual_size: u64,
    pub pti_resident_size: u64,
}

/// What a process uses.
#[derive(Clone, Copy, Debug, PartialEq, Eq, Structural)]
pub struct RusageInfoV2 {
    pub ri_phys_footprint: u64,
}

impl VmStatistics64 {
    /// The statistics that lie in the bytes.
    pub open spec fn spec_decode(bytes: Seq<u8>) -> VmStatistics64 {
        VmStatistics64 {
            free_count: u32_at(bytes, 0),
            active_count: u32_at(bytes, 4),
            inactive_count: u32_at(bytes, 8),
            wire_count: u32_at(bytes, 12),
            zero_fill_count: u64_at(bytes, 16),
            reactivations: u64_at(bytes, 24),
            pageins: u64_at(bytes, 32),
            pageouts: u64_at(bytes, 40),
            faults: u64_at(bytes, 48),
            cow_faults: u64_at(bytes, 56),
            lookups: u64_at(bytes, 64),
            hits: u64_at(bytes, 72),
            purges: u64_at(bytes, 80),
            purgeable_count: u32_at(bytes, 88),
            speculative_count: u32_at(bytes, 92),
            decompressions: u64_at(bytes, 96),
            compressions: u64_at(bytes, 104),
            swapins: u64_at(bytes, 112),
            swapouts: u64_at(bytes, 120),
            compressor_page_count: u32_at(bytes, 128),
            throttled_count: u32_at(bytes, 132),
            external_page_count: u32_at(bytes, 136),
            internal_page_count: u32_at(bytes, 140),
            total_uncompressed_pages_in_compressor: u64_at(bytes, 144),
        }
    }

    /// Reads the statistics out of the bytes that the kernel wrote.
    pub fn decode(buffer: &[u8; VM_STATISTICS64_SIZE]) -> (r: VmStatistics64)
        ensures
            r == Self::spec_decode(buffer@),
    {
        let bytes = array_as_slice(buffer);
        VmStatistics64 {
            free_count: read_u32(bytes, 0),
            active_count: read_u32(bytes, 4),
            inactive_count: read_u32(bytes, 8),
            wire_count: read_u32(bytes, 12),
            zero_fill_count: read_u64(bytes, 16),
            reactivations: read_u64(bytes, 24),
            pageins: read_u64(bytes, 32),
            pageouts: read_u64(bytes, 40),
            faults: read_u64(bytes, 48),
            cow_faults: read_u64(bytes, 56),
            lookups: read_u64(bytes, 64),
            hits: read_u64(bytes, 72),
            purges: read_u64(bytes, 80),
            purgeable_count: read_u32(bytes, 88),
            speculative_count: read_u32(bytes, 92),
            decompressions: read_u64(bytes, 96),
            compressions: read_u64(bytes, 104),
            swapins: read_u64(bytes, 112),
            swapouts: read_u64(bytes, 120),
            compressor_page_count: read_u32(bytes, 128),
            throttled_count: read_u32(bytes, 132),
            external_page_count: read_u32(bytes, 136),
            internal_page_count: read_u32(bytes, 140),
            total_uncompressed_pages_in_compressor: read_u64(bytes, 144),
        }
    }
}

impl XswUsage {
    /// The swap usage that lies in the bytes.
    pub open spec fn spec_decode(bytes: Seq<u8>) -> XswUsage {
        XswUsage {
            xsu_total: u64_at(bytes, 0),
            xsu_avail: u64_at(bytes, 8),
            xsu_used: u64_at(bytes, 16),
            xsu_pagesize: u32_at(bytes, 24),
            xsu_encrypted: u32_at(bytes, 28) as i32,
        }
    }

    /// Reads the swap usage out of the bytes that the kernel wrote.
    pub fn decode(buffer: &[u8; XSW_USAGE_SIZE]) -> (r: XswUsage)
        ensures
            r == Self::spec_decode(buffer@),
    {
        let bytes = array_as_slice(buffer);
        XswUsage {
            xsu_total: read_u64(bytes, 0),
            xsu_avail: read_u64(bytes, 8),
            xsu_used: read_u64(bytes, 16),
            xsu_pagesize: read_u32(bytes, 24),
            xsu_encrypted: read_u32(bytes, 28) as i32,
        }
    }
}

impl Default for XswUsage {
    fn default() -> (r: Self)
        ensures
            r == (XswUsage {
                xsu_total: 0,
                xsu_avail: 0,
                xsu_used: 0,
                xsu_pagesize: 0,
                xsu_encrypted: 0,
            }),
    {
        XswUsage { xsu_total: 0, xsu_avail: 0, xsu_used: 0, xsu_pagesize: 0, xsu_encrypted: 0 }
    }
}

impl ProcTaskInfo {
    /// The sizes that lie in the bytes.
    pub open spec fn spec_decode(bytes: Seq<u8>) -> ProcTaskInfo {
        ProcTaskInfo { pti_virtual_size: u64_at(bytes, 0), pti_resident_size: u64_at(bytes, 8) }
    }

    /// Reads the sizes out of the bytes that the kernel wrote.
    pub fn decode(buffer: &[u8; PROC_TASK_INFO_SIZE]) -> (r: ProcTaskInfo)
        ensures
            r == Self::spec_decode(buffer@),
    {
        let bytes = array_as_slice(buffer);
        ProcTaskInfo {
            pti_virtual_size: read_u64(bytes, 0),
            pti_resident_size: read_u64(bytes, 8),
        }
    }
}

impl RusageInfoV2 {
    /// The usage that lies in the bytes.
    pub open spec fn spec_decode(bytes: Seq<u8>) -> RusageInfoV2 {
        RusageInfoV2 { ri_phys_footprint: u64_at(bytes, RI_PHYS_FOOTPRINT_OFFSET as int) }
    }

    /// Reads the usage out of the bytes that the kernel wrote.
    pub fn decode(buffer: &[u8; RUSAGE_INFO_V2_SIZE]) -> (r: RusageInfoV2)
        ensures
            r == Self::spec_decode(buffer@),
    {
        let bytes = array_as_slice(buffer);
        RusageInfoV2 { ri_phys_footprint: read_u64(bytes, RI_PHYS_FOOTPRINT_OFFSET) }
    }
}

/// A number tells its lowest byte and what stands above it.
proof fn lemma_low_byte(a: u8, above_a: int, b: u8, above_b: int)
    requires
        a + 0x100 * above_a == b + 0x100 * above_b,
    ensures
        a == b,
        above_a == above_b,
{
}

/// Four bytes are told apart by the number that they write.
proof fn lemma_four_digits(
    a0: u8,
    a1: u8,
    a2: u8,
    a3: u8,
    b0: u8,
    b1: u8,
    b2: u8,
    b3: u8,
)
    requires
        a0 + 0x100 * a1 + 0x1_0000 * a2 + 0x100_0000 * a3 == b0 + 0x100 * b1 + 0x1_0000 * b2
            + 0x100_0000 * b3,
    ensures
        a0 == b0,
        a1 == b1,
        a2 == b2,
        a3 == b3,
{
    let (a_high, b_high) = (a2 + 0x100 * a3, b2 + 0x100 * b3);
    lemma_low_byte(a0, a1 + 0x100 * a_high, b0, b1 + 0x100 * b_high);
    lemma_low_byte(a1, a_high, b1, b_high);
    lemma_low_byte(a2, a3 as int, b2, b3 as int);
}

/// Two halves are told apart by the number that they write.
proof fn lemma_two_halves(a0: u32, a1: u32, b0: u32, b1: u32)
    requires
        (a0 + 0x1_0000_0000 * a1) as u64 == (b0 + 0x1_0000_0000 * b1) as u64,
    ensures
        a0 == b0,
        a1 == b1,
{
}

/// Four bytes of two structures are the same where they write the same number.
proof fn lemma_u32_tells_bytes(a: Seq<u8>, b: Seq<u8>, at: int)
    requires
        u32_at(a, at) == u32_at(b, at),
    ensures
        forall|i: int| at <= i < at + 4 ==> a[i] == b[i],
{
    lemma_four_digits(
        a[at],
        a[at + 1],
        a[at + 2],
        a[at + 3],
        b[at],
        b[at + 1],
        b[at + 2],
        b[at + 3],
    );
}

/// Eight bytes of two structures are the same where they write the same number.
proof fn lemma_u64_tells_bytes(a: Seq<u8>, b: Seq<u8>, at: int)
    requires
        u64_at(a, at) == u64_at(b, at),
    ensures
        forall|i: int| at <= i < at + 8 ==> a[i] == b[i],
{
    lemma_two_halves(u32_at(a, at), u32_at(a, at + 4), u32_at(b, at), u32_at(b, at + 4));
    lemma_u32_tells_bytes(a, b, at);
    lemma_u32_tells_bytes(a, b, at + 4);
}

/// The fields of the statistics fill the whole structure: no byte of it lies
/// in a gap, so what was written can be told from what was read.
pub proof fn law_vm_statistics_fill_the_structure(a: Seq<u8>, b: Seq<u8>)
    requires
        a.len() == VM_STATISTICS64_SIZE,
        b.len() == VM_STATISTICS64_SIZE,
        VmStatistics64::spec_decode(a) == VmStatistics64::spec_decode(b),
    ensures
        a == b,
{
    lemma_u32_tells_bytes(a, b, 0);
    lemma_u32_tells_bytes(a, b, 4);
    lemma_u32_tells_bytes(a, b, 8);
    lemma_u32_tells_bytes(a, b, 12);
    lemma_u32_tells_bytes(a, b, 88);
    lemma_u32_tells_bytes(a, b, 92);
    lemma_u32_tells_bytes(a, b, 128);
    lemma_u32_tells_bytes(a, b, 132);
    lemma_u32_tells_bytes(a, b, 136);
    lemma_u32_tells_bytes(a, b, 140);
    lemma_u64_tells_bytes(a, b, 16);
    lemma_u64_tells_bytes(a, b, 24);
    lemma_u64_tells_bytes(a, b, 32);
    lemma_u64_tells_bytes(a, b, 40);
    lemma_u64_tells_bytes(a, b, 48);
    lemma_u64_tells_bytes(a, b, 56);
    lemma_u64_tells_bytes(a, b, 64);
    lemma_u64_tells_bytes(a, b, 72);
    lemma_u64_tells_bytes(a, b, 80);
    lemma_u64_tells_bytes(a, b, 96);
    lemma_u64_tells_bytes(a, b, 104);
    lemma_u64_tells_bytes(a, b, 112);
    lemma_u64_tells_bytes(a, b, 120);
    lemma_u64_tells_bytes(a, b, 144);
    assert(a =~= b);
}

/// The fields of the swap usage fill the whole structure.
pub proof fn law_swap_usage_fills_the_structure(a: Seq<u8>, b: Seq<u8>)
    requires
        a.len() == XSW_USAGE_SIZE,
        b.len() == XSW_USAGE_SIZE,
        XswUsage::spec_decode(a) == XswUsage::spec_decode(b),
    ensures
        a == b,
{
    let (x, y) = (u32_at(a, 28), u32_at(b, 28));
    assert(x as i32 == y as i32 ==> x == y) by (bit_vector);
    lemma_u64_tells_bytes(a, b, 0);
    lemma_u64_tells_bytes(a, b, 8);
    lemma_u64_tells_bytes(a, b, 16);
    lemma_u32_tells_bytes(a, b, 24);
    lemma_u32_tells_bytes(a, b, 28);
    assert(a =~= b);
}

/// The four bytes of a number, the lowest first.
pub open spec fn le4(n: u32) -> Seq<u8> {
    let n = n as int;
    seq![
        (n % 0x100) as u8,
        (n / 0x100 % 0x100) as u8,
        (n / 0x100 / 0x100 % 0x100) as u8,
        (n / 0x100 / 0x100 / 0x100) as u8,
    ]
}

/// The eight bytes of a number, the lowest first.
pub open spec fn le8(n: u64) -> Seq<u8> {
    le4((n as int % 0x1_0000_0000) as u32) + le4((n as int / 0x1_0000_0000) as u32)
}

proof fn lemma_le4(bytes: Seq<u8>, at: int)
    requires
        0 <= at,
        at + 4 <= bytes.len(),
    ensures
        le4(u32_at(bytes, at)) == bytes.subrange(at, at + 4),
{
    law_little_endian(bytes, at);
    assert(le4(u32_at(bytes, at)) =~= bytes.subrange(at, at + 4));
}

proof fn lemma_le8(bytes: Seq<u8>, at: int)
    requires
        0 <= at,
        at + 8 <= bytes.len(),
    ensures
        le8(u64_at(bytes, at)) == bytes.subrange(at, at + 8),
{
    law_little_endian(bytes, at);
    lemma_le4(bytes, at);
    lemma_le4(bytes, at + 4);
    assert(bytes.subrange(at, at + 4) + bytes.subrange(at + 4, at + 8) =~= bytes.subrange(
        at,
        at + 8,
    ));
}

/// The fields of the statistics, each little-endian, lie one behind the other
/// and make up all the bytes that the kernel wrote.
pub proof fn law_vm_statistics_lie_in_order(
    buffer: &[u8; VM_STATISTICS64_SIZE],
    r: VmStatistics64,
)
    requires
        call_ensures(VmStatistics64::decode, (buffer,), r),
    ensures
        buffer@ == le4(r.free_count)
            + le4(r.active_count)
            + le4(r.inactive_count)
            + le4(r.wire_count)
            + le8(r.zero_fill_count)
            + le8(r.reactivations)
            + le8(r.pageins)
            + le8(r.pageouts)
            + le8(r.faults)
            + le8(r.cow_faults)
            + le8(r.lookups)
            + le8(r.hits)
            + le8(r.purges)
            + le4(r.purgeable_count)
            + le4(r.speculative_count)
            + le8(r.decompressions)
            + le8(r.compressions)
            + le8(r.swapins)
            + le8(r.swapouts)
            + le4(r.compressor_page_count)
            + le4(r.throttled_count)
            + le4(r.external_page_count)
            + le4(r.internal_page_count)
            + le8(r.total_uncompressed_pages_in_compressor),
{
    let bytes = buffer@;
    assert(bytes.len() == 152);
    lemma_le4(bytes, 0);
    let part = le4(r.free_count);
    assert(part =~= bytes.subrange(0, 4));
    lemma_le4(bytes, 4);
    let part = part + le4(r.active_count);
    assert(part =~= bytes.subrange(0, 8));
    lemma_le4(bytes, 8);
    let part = part + le4(r.inactive_count);
    assert(part =~= bytes.subrange(0, 12));
    lemma_le4(bytes, 12);
    let part = part + le4(r.wire_count);
    assert(part =~= bytes.subrange(0, 16));
    lemma_le8(bytes, 16);
    let part = part + le8(r.zero_fill_count);
    assert(part =~= bytes.subrange(0, 24));
    lemma_le8(bytes, 24);
    let part = part + le8(r.reactivations);
    assert(part =~= bytes.subrange(0, 32));
    lemma_le8(bytes, 32);
    let part = part + le8(r.pageins);
    assert(part =~= bytes.subrange(0, 40));
    lemma_le8(bytes, 40);
    let part = part + le8(r.pageouts);
    assert(part =~= bytes.subrange(0, 48));
    lemma_le8(bytes, 48);
    let part = part + le8(r.faults);
    assert(part =~= bytes.subrange(0, 56));
    lemma_le8(bytes, 56);
    let part = part + le8(r.cow_faults);
    assert(part =~= bytes.subrange(0, 64));
    lemma_le8(bytes, 64);
    let part = part + le8(r.lookups);
    assert(part =~= bytes.subrange(0, 72));
    lemma_le8(bytes, 72);
    let part = part + le8(r.hits);
    assert(part =~= bytes.subrange(0, 80));
    lemma_le8(bytes, 80);
    let part = part + le8(r.purges);
    assert(part =~= bytes.subrange(0, 88));
    lemma_le4(bytes, 88);
    let part = part + le4(r.purgeable_count);
    assert(part =~= bytes.subrange(0, 92));
    lemma_le4(bytes, 92);
    let part = part + le4(r.speculative_count);
    assert(part =~= bytes.subrange(0, 96));
    lemma_le8(bytes, 96);
    let part = part + le8(r.decompressions);
    assert(part =~= bytes.subrange(0, 104));
    lemma_le8(bytes, 104);
    let part = part + le8(r.compressions);
    assert(part =~= bytes.subrange(0, 112));
    lemma_le8(bytes, 112);
    let part = part + le8(r.swapins);
    assert(part =~= bytes.subrange(0, 120));
    lemma_le8(bytes, 120);
    let part = part + le8(r.swapouts);
    assert(part =~= bytes.subrange(0, 128));
    lemma_le4(bytes, 128);
    let part = part + le4(r.compressor_page_count);
    assert(part =~= bytes.subrange(0, 132));
    lemma_le4(bytes, 132);
    let part = part + le4(r.throttled_count);
    assert(part =~= bytes.subrange(0, 136));
    lemma_le4(bytes, 136);
    let part = part + le4(r.external_page_count);
    assert(part =~= bytes.subrange(0, 140));
    lemma_le4(bytes, 140);
    let part = part + le4(r.internal_page_count);
    assert(part =~= bytes.subrange(0, 144));
    lemma_le8(bytes, 144);
    let part = part + le8(r.total_uncompressed_pages_in_compressor);
    assert(part =~= bytes.subrange(0, 152));
    assert(bytes.subrange(0, 152) =~= bytes);
}

/// The fields of the swap usage lie one behind the other and make up all the
/// bytes that the kernel wrote.
pub proof fn law_swap_usage_lies_in_order(buffer: &[u8; XSW_USAGE_SIZE], r: XswUsage)
    requires
        call_ensures(XswUsage::decode, (buffer,), r),
    ensures
        buffer@ == le8(r.xsu_total) + le8(r.xsu_avail) + le8(r.xsu_used) + le4(r.xsu_pagesize)
            + le4(r.xsu_encrypted as u32),
{
    let bytes = buffer@;
    assert(bytes.len() == 32);
    let encrypted = u32_at(bytes, 28);
    assert((encrypted as i32) as u32 == encrypted) by (bit_vector);
    lemma_le8(bytes, 0);
    lemma_le8(bytes, 8);
    lemma_le8(bytes, 16);
    lemma_le4(bytes, 24);
    lemma_le4(bytes, 28);
    assert(bytes =~= bytes.subrange(0, 8) + bytes.subrange(8, 16) + bytes.subrange(16, 24)
        + bytes.subrange(24, 28) + bytes.subrange(28, 32));
}

/// The two sizes of a process are the first numbers of their structure.
pub proof fn law_task_sizes_come_first(buffer: &[u8; PROC_TASK_INFO_SIZE], r: ProcTaskInfo)
    requires
        call_ensures(ProcTaskInfo::decode, (buffer,), r),
    ensures
        buffer@.subrange(0, 8) == le8(r.pti_virtual_size),
        buffer@.subrange(8, 16) == le8(r.pti_resident_size),
{
    assert(buffer@.len() == 96);
    lemma_le8(buffer@, 0);
    lemma_le8(buffer@, 8);
}

/// The footprint of a process stands behind nine numbers of eight bytes.
pub proof fn law_footprint_has_its_place(buffer: &[u8; RUSAGE_INFO_V2_SIZE], r: RusageInfoV2)
    requires
        call_ensures(RusageInfoV2::decode, (buffer,), r),
    ensures
        buffer@.subrange(72, 80) == le8(r.ri_phys_footprint),
{
    assert(buffer@.len() == 160);
    lemma_le8(buffer@, 72);
}

} // verus!
