//! What a macOS system reports through its kernel calls.

use crate::bytes::{
    before_first, file_name, file_name_of, head_len, is_name, lacks, law_before_first_mark,
    law_file_name_is_the_last_name, law_file_name_of_text_is_text, up_to,
};
use crate::groups::{
    bears, bytes_under, group_views, law_given_are_present, law_no_larger_process_is_left_out,
    law_present_are_given, law_shown_groups_are_whole, present, rank_process_groups, read_sample,
    reading_views, sample_reading, tally, tally_processes, top, ProcessReading, ProcessSample,
    Reading,
};
use crate::layout::{
    ProcTaskInfo, RusageInfoV2, VmStatistics64, XswUsage, PROC_TASK_INFO_SIZE,
    VM_STATISTICS64_SIZE,
};
use crate::snapshot::{
    saturated, saturating_product, smaller, Memory, PlatformDetails, PressureLevel, ProcessGroup,
    Snapshot, DEFAULT_PAGE_SIZE,
};
use crate::text::{
    all_white_space, append_number, from_utf8, from_utf8_lossy, is_white_space, label_text,
    label_view, law_white_space_is_trimmed, number_text, program_label, program_view, trim,
    trim_text, Label, LabelView,
};
use vstd::prelude::*;
use vstd::slice::slice_subrange;
use vstd::utf8::{decode_utf8, valid_utf8};

verus! {

/// What a kernel call returns on success.
pub const KERN_SUCCESS: i32 = 0;

/// The bytes in `count` pages.
pub fn pages(count: u32, page_size: u64) -> (r: u64)
    ensures
        r == saturated(count * page_size),
{
    saturating_product(count as u64, page_size)
}

/// The bytes in `count` pages.
pub fn pages_u64(count: u64, page_size: u64) -> (r: u64)
    ensures
        r == saturated(count * page_size),
{
    saturating_product(count, page_size)
}

/// Why a kernel call gave nothing.
#[derive(Debug, PartialEq, Eq)]
pub enum CallError {
    /// A failure of no kind that the system names, in words.
    Other(String),
}

/// The words for a call for statistics that returned `kr`.
pub open spec fn statistics_failure(kr: i32) -> Seq<char> {
    "host_statistics64 failed with "@ + number_text(kr as int)
}

/// Says in words that the call for statistics returned `kr`.
pub fn statistics_message(kr: i32) -> (r: String)
    ensures
        r@ == statistics_failure(kr),
{
    let mut message = "host_statistics64 failed with ".to_owned();
    append_number(&mut message, kr);
    message
}

/// The statistics that the kernel wrote, or where the call failed an error that
/// tells what it returned.
pub fn vm_statistics(kr: i32, buffer: &[u8; VM_STATISTICS64_SIZE]) -> (r: Result<
    VmStatistics64,
    CallError,
>)
    ensures
        match r {
            Ok(vm) => kr == KERN_SUCCESS && vm == VmStatistics64::spec_decode(buffer@),
            Err(CallError::Other(message)) => kr != KERN_SUCCESS && message@ == statistics_failure(
                kr,
            ),
        },
{
    if kr != KERN_SUCCESS {
        return Err(CallError::Other(statistics_message(kr)));
    }
    Ok(VmStatistics64::decode(buffer))
}

/// The page size: as the kernel call gives it where it succeeds with one, else
/// as the system variable does, else the usual one.
pub fn page_size(kr: i32, size: usize, variable: Option<i32>) -> (r: u64)
    ensures
        r == (if kr == KERN_SUCCESS && size > 0 {
            size as u64
        } else {
            match variable {
                Some(size) => if size > 0 {
                    size as u64
                } else {
                    DEFAULT_PAGE_SIZE
                },
                None => DEFAULT_PAGE_SIZE,
            }
        }),
{
    if kr == KERN_SUCCESS && size > 0 {
        return size as u64;
    }
    match variable {
        Some(size) => if size > 0 {
            size as u64
        } else {
            DEFAULT_PAGE_SIZE
        },
        None => DEFAULT_PAGE_SIZE,
    }
}

/// The room to offer for the list of processes.
#[derive(Clone, Copy, Debug, PartialEq, Eq, Structural)]
pub struct PidBuffer {
    /// How many identifiers it holds.
    pub len: usize,
    /// How many bytes the call is told it has.
    pub bytes: i32,
}

/// The room for twice as many processes as `needed` bytes list, and some more.
/// An identifier takes four bytes.
pub open spec fn pid_room(needed: i32) -> int {
    2 * (needed as int / 4) + 16
}

/// The room to offer for the list of processes, once the call has said how
/// many bytes it needs. None where it failed.
pub fn pid_buffer(needed: i32) -> (r: Option<PidBuffer>)
    ensures
        r == (if needed > 0 {
            Some(
                PidBuffer {
                    len: pid_room(needed) as usize,
                    bytes: (4 * pid_room(needed)) as i32,
                },
            )
        } else {
            None
        }),
        r matches Some(buffer) ==> buffer.len == pid_room(needed) && buffer.bytes <= 4 * buffer.len,
{
    if needed <= 0 {
        return None;
    }
    let len: u64 = 2 * ((needed / 4) as u64) + 16;
    let bytes: u64 = 4 * len;
    assert((bytes as i32) <= bytes) by (bit_vector)
        requires
            bytes <= 0x2_0000_0000,
    ;
    Some(PidBuffer { len: len as usize, bytes: bytes as i32 })
}

/// The buffer holds the list that the call announced, and the call is told its
/// whole size where that can be told.
pub proof fn law_pid_buffer_is_large_enough(needed: i32)
    requires
        needed > 0,
        4 * pid_room(needed) <= i32::MAX,
    ensures
        needed <= 4 * pid_room(needed),
        (4 * pid_room(needed)) as i32 == 4 * pid_room(needed),
{
}

/// The identifiers that are positive, in their order.
pub open spec fn positive(pids: Seq<i32>) -> Seq<i32>
    decreases pids.len(),
{
    if pids.len() == 0 {
        Seq::empty()
    } else if pids.last() > 0 {
        positive(pids.drop_last()).push(pids.last())
    } else {
        positive(pids.drop_last())
    }
}

/// The identifiers that a list of `bytes` bytes at the start of `buffer` names.
pub open spec fn listed_pids(bytes: i32, buffer: Seq<i32>) -> Seq<i32> {
    if bytes <= 0 {
        Seq::empty()
    } else {
        positive(buffer.take(smaller(bytes as int / 4, buffer.len() as int)))
    }
}

/// Every process that is looked at has a positive identifier.
pub proof fn law_pids_are_positive(bytes: i32, buffer: Seq<i32>, i: int)
    requires
        0 <= i < listed_pids(bytes, buffer).len(),
    ensures
        listed_pids(bytes, buffer)[i] > 0,
{
    lemma_positive(buffer.take(smaller(bytes as int / 4, buffer.len() as int)), i);
}

proof fn lemma_positive(pids: Seq<i32>, i: int)
    requires
        0 <= i < positive(pids).len(),
    ensures
        positive(pids)[i] > 0,
    decreases pids.len(),
{
    if i < positive(pids.drop_last()).len() {
        lemma_positive(pids.drop_last(), i);
    }
}

/// Every positive identifier in the list is looked at.
pub proof fn law_no_pid_is_lost(bytes: i32, buffer: Seq<i32>, i: int)
    requires
        0 <= i < buffer.len(),
        4 * i + 4 <= bytes,
        buffer[i] > 0,
    ensures
        listed_pids(bytes, buffer).contains(buffer[i]),
{
    let listed = buffer.take(smaller(bytes as int / 4, buffer.len() as int));
    assert(listed[i] == buffer[i]);
    lemma_positive_keeps(listed, i);
}

proof fn lemma_positive_keeps(pids: Seq<i32>, i: int)
    requires
        0 <= i < pids.len(),
        pids[i] > 0,
    ensures
        positive(pids).contains(pids[i]),
    decreases pids.len(),
{
    let front = pids.drop_last();
    if i < front.len() {
        lemma_positive_keeps(front, i);
        let k = choose|k: int| 0 <= k < positive(front).len() && positive(front)[k] == pids[i];
        assert(positive(pids)[k] == pids[i]);
    } else {
        assert(positive(pids)[positive(front).len() as int] == pids[i]);
    }
}

/// The processes, once the call has written `bytes` bytes into the buffer.
pub fn pids(bytes: i32, buffer: &[i32]) -> (r: Vec<i32>)
    ensures
        r@ == listed_pids(bytes, buffer@),
{
    let mut pids: Vec<i32> = Vec::new();
    if bytes <= 0 {
        return pids;
    }
    let count: usize = (bytes / 4) as usize;
    let len: usize = if count < buffer.len() {
        count
    } else {
        buffer.len()
    };
    let ghost listed = buffer@.take(len as int);
    let mut i: usize = 0;
    assert(pids@ =~= positive(listed.take(0)));
    while i < len
        invariant
            i <= len <= buffer.len(),
            listed == buffer@.take(len as int),
            pids@ == positive(listed.take(i as int)),
        decreases len - i,
    {
        assert(listed.take(i + 1).drop_last() =~= listed.take(i as int));
        if buffer[i] > 0 {
            pids.push(buffer[i]);
        }
        i += 1;
    }
    assert(listed.take(len as int) =~= listed);
    pids
}

/// The memory that a process is charged for: its footprint, else its resident
/// size. A call that failed, that wrote something else than the whole
/// structure, or that gave zero, tells nothing.
pub open spec fn process_bytes(
    rc: i32,
    usage: RusageInfoV2,
    written: i32,
    info: ProcTaskInfo,
) -> Option<u64> {
    if rc == 0 && usage.ri_phys_footprint > 0 {
        Some(usage.ri_phys_footprint)
    } else if written == PROC_TASK_INFO_SIZE && info.pti_resident_size > 0 {
        Some(info.pti_resident_size)
    } else {
        None
    }
}

/// The memory of a process, from what the call for its usage returned and
/// wrote, and what the call for its sizes did.
pub fn process_memory(rc: i32, usage: &RusageInfoV2, written: i32, info: &ProcTaskInfo) -> (r:
    Option<u64>)
    ensures
        r == process_bytes(rc, *usage, written, *info),
        r matches Some(bytes) ==> bytes > 0,
{
    if rc == 0 {
        let footprint = usage.ri_phys_footprint;
        if footprint > 0 {
            return Some(footprint);
        }
    }
    if written == PROC_TASK_INFO_SIZE as i32 {
        let rss = info.pti_resident_size;
        if rss > 0 {
            return Some(rss);
        }
    }
    None
}

/// A footprint settles the memory of a process, whatever the call for its sizes
/// returns and writes.
pub proof fn law_footprint_settles_memory(
    rc: i32,
    usage: RusageInfoV2,
    written: i32,
    info: ProcTaskInfo,
    other_written: i32,
    other_info: ProcTaskInfo,
)
    requires
        rc == 0,
        usage.ri_phys_footprint > 0,
    ensures
        process_bytes(rc, usage, written, info) == process_bytes(
            rc,
            usage,
            other_written,
            other_info,
        ),
{
}

/// The bytes that a call wrote into a buffer: up to the first zero byte, or as
/// many as it said where there is none.
pub open spec fn written_bytes(len: i32, buffer: Seq<u8>) -> Seq<u8> {
    if head_len(buffer, 0) < buffer.len() {
        before_first(buffer, 0)
    } else {
        buffer.take(len as int)
    }
}

/// A buffer without a zero byte is at least as long as the call said.
pub open spec fn is_reply(len: i32, buffer: Seq<u8>) -> bool {
    head_len(buffer, 0) < buffer.len() || len <= buffer.len()
}

fn reply(len: i32, buffer: &[u8]) -> (r: &[u8])
    requires
        len > 0,
        is_reply(len, buffer@),
    ensures
        r@ == written_bytes(len, buffer@),
{
    let text = up_to(buffer, 0);
    if text.len() < buffer.len() {
        text
    } else {
        slice_subrange(buffer, 0, len as usize)
    }
}

/// What names a process by the name that the kernel keeps for it.
pub open spec fn kernel_label(len: i32, buffer: Seq<u8>) -> Option<LabelView<Seq<char>>> {
    let name = written_bytes(len, buffer);
    if len > 0 && valid_utf8(name) && decode_utf8(name).len() > 0 {
        Some(LabelView::Sanitize(decode_utf8(name)))
    } else {
        None
    }
}

/// What names a process: the file name in its path, else the name that the
/// kernel keeps for it. A path that is no text, or has no file name, leaves it
/// without a name.
pub open spec fn process_label(
    path_len: i32,
    path: Seq<u8>,
    name_len: i32,
    name: Seq<u8>,
    prettify: bool,
) -> Option<LabelView<Seq<char>>> {
    let full = written_bytes(path_len, path);
    if path_len <= 0 {
        kernel_label(name_len, name)
    } else if !valid_utf8(full) {
        None
    } else {
        match file_name_of(full) {
            Some(file) => Some(program_view(decode_utf8(file), decode_utf8(full), prettify)),
            None => None,
        }
    }
}

/// Names a process by what the call for its path returned and wrote, and what
/// the call for its name did.
pub fn process_name(
    path_len: i32,
    path: &[u8],
    name_len: i32,
    name: &[u8],
    prettify: bool,
) -> (r: Option<Label<String>>)
    requires
        path_len > 0 ==> is_reply(path_len, path@),
        path_len <= 0 && name_len > 0 ==> is_reply(name_len, name@),
    ensures
        label_view(r) == process_label(path_len, path@, name_len, name@, prettify),
        r matches Some(label) ==> label_text(label@).len() > 0,
{
    if path_len > 0 {
        let full = reply(path_len, path);
        let whole = match from_utf8(full) {
            Some(text) => text,
            None => {
                return None;
            },
        };
        proof {
            law_file_name_of_text_is_text(full@);
        }
        return match file_name(full) {
            Some(file) => Some(
                program_label(from_utf8_lossy(file), whole.to_owned(), prettify),
            ),
            None => None,
        };
    }
    if name_len > 0 {
        match from_utf8(reply(name_len, name)) {
            Some(text) => {
                if !text.is_empty() {
                    return Some(Label::Sanitize(text.to_owned()));
                }
            },
            None => {
                return None;
            },
        }
    }
    None
}

/// The name of the host, from what the call for it returned and wrote.
pub fn hostname(rc: i32, buffer: &[u8]) -> (r: Label<String>)
    ensures
        r@ == ({
            let name = before_first(buffer@, 0);
            let text = trim_text(decode_utf8(name));
            if rc == 0 && valid_utf8(name) && text.len() > 0 {
                LabelView::<Seq<char>>::Sanitize(text)
            } else {
                LabelView::Fixed("macos"@)
            }
        }),
        label_text(r@).len() > 0,
{
    proof {
        reveal_strlit("macos");
    }
    if rc == 0 {
        if let Some(name) = from_utf8(up_to(buffer, 0)) {
            let text = trim(name);
            if !text.is_empty() {
                return Label::Sanitize(text.to_owned());
            }
        }
    }
    Label::Fixed("macos".to_owned())
}

/// The readings that the samples give.
pub open spec fn sample_readings(samples: Seq<ProcessSample>) -> Seq<Reading> {
    present(samples.map_values(|sample: ProcessSample| sample_reading(sample)))
}

/// Every reading tells of some memory, so no process without any is counted.
pub proof fn law_readings_keep_memory(samples: Seq<ProcessSample>, i: int)
    requires
        0 <= i < sample_readings(samples).len(),
    ensures
        sample_readings(samples)[i].rss > 0,
{
    let all = samples.map_values(|sample: ProcessSample| sample_reading(sample));
    law_present_are_given(all, i);
    let k = choose|k: int| 0 <= k < all.len() && all[k] == Some(present(all)[i]);
    assert(all[k] == sample_reading(samples[k]));
}

/// Gathers the processes under their names, and keeps the `process_count`
/// largest groups, the largest first.
pub fn process_groups(samples: &[ProcessSample], process_count: usize) -> (r: Vec<ProcessGroup>)
    ensures
        group_views(r@) == top(tally(sample_readings(samples@)), process_count as nat),
{
    let ghost all = samples@.map_values(|sample: ProcessSample| sample_reading(sample));
    let mut readings: Vec<ProcessReading> = Vec::new();
    let mut i: usize = 0;
    assert(reading_views(readings@) =~= present(all.take(0)));
    while i < samples.len()
        invariant
            i <= samples.len(),
            all == samples@.map_values(|sample: ProcessSample| sample_reading(sample)),
            reading_views(readings@) == present(all.take(i as int)),
        decreases samples.len() - i,
    {
        let ghost before = reading_views(readings@);
        proof {
            assert(all.take(i + 1).drop_last() =~= all.take(i as int));
            assert(all.take(i + 1).last() == sample_reading(samples@[i as int]));
        }
        if let Some(reading) = read_sample(&samples[i]) {
            readings.push(reading);
            assert(reading_views(readings@) =~= before.push(reading@));
        }
        i += 1;
    }
    assert(all.take(samples.len() as int) =~= all);
    rank_process_groups(tally_processes(readings.as_slice()), process_count)
}

/// The pages that programs hold and that cannot be thrown away.
pub open spec fn app_pages(vm: VmStatistics64) -> int {
    saturated(vm.internal_page_count - vm.purgeable_count) as int
}

/// The bytes in use: what programs hold, what is wired down and what the
/// compressor takes, but no more than there is.
pub open spec fn used_bytes(vm: VmStatistics64, page_size: u64, total: u64) -> int {
    smaller(
        (app_pages(vm) + vm.wire_count + vm.compressor_page_count) * page_size,
        total as int,
    )
}

/// The memory figures of a report.
pub open spec fn memory_figures(
    total: u64,
    vm: VmStatistics64,
    swap: Option<XswUsage>,
    page_size: u64,
) -> Memory {
    Memory {
        total,
        available: (total - used_bytes(vm, page_size, total)) as u64,
        cached: saturated(vm.external_page_count * page_size),
        swap_total: match swap {
            Some(swap) => swap.xsu_total,
            None => 0,
        },
        swap_free: match swap {
            Some(swap) => saturated(swap.xsu_total - swap.xsu_used),
            None => 0,
        },
        commit_limit: 0,
        committed: 0,
    }
}

/// The details of a report.
pub open spec fn details(
    vm: VmStatistics64,
    pressure: Option<i32>,
    page_size: u64,
) -> PlatformDetails {
    PlatformDetails::Macos {
        pressure: match pressure {
            Some(level) => PressureLevel::spec_from_sysctl(level),
            None => PressureLevel::Unknown((-1) as i32),
        },
        compressor_uncompressed: saturated(vm.total_uncompressed_pages_in_compressor * page_size),
        compressor_ram: saturated(vm.compressor_page_count * page_size),
    }
}

/// The bytes in use never exceed the installed memory and are never negative,
/// and it is these bytes that a report tells as used.
pub proof fn law_used_within_total(
    total: u64,
    vm: VmStatistics64,
    swap: Option<XswUsage>,
    page_size: u64,
)
    ensures
        0 <= used_bytes(vm, page_size, total) <= total,
        memory_figures(total, vm, swap, page_size).spec_used() == used_bytes(
            vm,
            page_size,
            total,
        ),
        memory_figures(total, vm, swap, page_size).available <= total,
{
    let held = app_pages(vm) + vm.wire_count + vm.compressor_page_count;
    assert(0 <= held * page_size) by (nonlinear_arith)
        requires
            0 <= held,
    ;
}

/// No more swap is free than there is.
pub proof fn law_swap_free_within_total(
    total: u64,
    vm: VmStatistics64,
    swap: Option<XswUsage>,
    page_size: u64,
)
    ensures
        memory_figures(total, vm, swap, page_size).swap_free <= memory_figures(
            total,
            vm,
            swap,
            page_size,
        ).swap_total,
{
}

/// Puts a report together. Where the installed memory or the statistics could
/// not be had there is none, but the first of their errors.
pub fn collect<E>(
    hostname: String,
    total: Result<u64, E>,
    vm: Result<VmStatistics64, E>,
    swap: Option<XswUsage>,
    pressure: Option<i32>,
    page_size: u64,
    samples: &[ProcessSample],
    process_count: usize,
) -> (r: Result<Snapshot, E>)
    ensures
        match (total, vm) {
            (Err(error), _) => r == Err::<Snapshot, E>(error),
            (Ok(_), Err(error)) => r == Err::<Snapshot, E>(error),
            (Ok(total), Ok(vm)) => {
                &&& r matches Ok(snapshot)
                &&& snapshot.hostname == hostname
                &&& snapshot.memory == memory_figures(total, vm, swap, page_size)
                &&& snapshot.details == details(vm, pressure, page_size)
                &&& group_views(snapshot.groups@) == top(
                    tally(sample_readings(samples@)),
                    process_count as nat,
                )
            },
        },
{
    let total = match total {
        Ok(total) => total,
        Err(error) => {
            return Err(error);
        },
    };
    let vm = match vm {
        Ok(vm) => vm,
        Err(error) => {
            return Err(error);
        },
    };
    let swap = match swap {
        Some(swap) => swap,
        None => XswUsage::default(),
    };
    let pressure = match pressure {
        Some(level) => PressureLevel::from_sysctl(level),
        None => PressureLevel::Unknown(-1),
    };
    let app = pages(vm.internal_page_count.saturating_sub(vm.purgeable_count), page_size);
    let wired = pages(vm.wire_count, page_size);
    let compressor_ram = pages(vm.compressor_page_count, page_size);
    let held = app.saturating_add(wired).saturating_add(compressor_ram);
    let used: u64 = if held < total {
        held
    } else {
        total
    };
    proof {
        let a = app_pages(vm);
        let w = vm.wire_count as int;
        let c = vm.compressor_page_count as int;
        let p = page_size as int;
        assert((a + w + c) * p == a * p + w * p + c * p) by (nonlinear_arith);
        assert(0 <= a * p && 0 <= w * p && 0 <= c * p) by (nonlinear_arith)
            requires
                0 <= a,
                0 <= w,
                0 <= c,
                0 <= p,
        ;
        assert(used == used_bytes(vm, page_size, total));
    }
    Ok(
        Snapshot {
            hostname,
            memory: Memory {
                total,
                available: total.saturating_sub(used),
                cached: pages(vm.external_page_count, page_size),
                swap_total: swap.xsu_total,
                swap_free: swap.xsu_total.saturating_sub(swap.xsu_used),
                commit_limit: 0,
                committed: 0,
            },
            details: PlatformDetails::Macos {
                pressure,
                compressor_uncompressed: pages_u64(
                    vm.total_uncompressed_pages_in_compressor,
                    page_size,
                ),
                compressor_ram,
            },
            groups: process_groups(samples, process_count),
        },
    )
}

/// So many pages take as many bytes, or as many as can be told.
pub proof fn law_pages_have_their_size(count: u32, page_size: u64, r: u64, wide: u64)
    requires
        call_ensures(pages, (count, page_size), r),
        call_ensures(pages_u64, (count as u64, page_size), wide),
    ensures
        count * page_size <= 0xffff_ffff_ffff_ffff ==> r == count * page_size,
        count * page_size > 0xffff_ffff_ffff_ffff ==> r == 0xffff_ffff_ffff_ffff,
        wide == r,
{
    assert(0 <= count * page_size) by (nonlinear_arith);
}

/// A count of any size takes its number of pages, or as many bytes as can be told.
pub proof fn law_many_pages_have_their_size(count: u64, page_size: u64, r: u64)
    requires
        call_ensures(pages_u64, (count, page_size), r),
    ensures
        count * page_size <= 0xffff_ffff_ffff_ffff ==> r == count * page_size,
        count * page_size > 0xffff_ffff_ffff_ffff ==> r == 0xffff_ffff_ffff_ffff,
{
    assert(0 <= count * page_size) by (nonlinear_arith);
}

/// The statistics are those in the bytes, where the call succeeded. Where it
/// failed, the error says so and ends in the number that it returned.
pub proof fn law_statistics_or_a_message(
    kr: i32,
    buffer: &[u8; VM_STATISTICS64_SIZE],
    r: Result<VmStatistics64, CallError>,
    decoded: VmStatistics64,
)
    requires
        call_ensures(vm_statistics, (kr, buffer), r),
        call_ensures(VmStatistics64::decode, (buffer,), decoded),
    ensures
        kr == 0 ==> r == Ok::<VmStatistics64, CallError>(decoded),
        kr != 0 ==> {
            &&& r matches Err(CallError::Other(message))
            &&& "host_statistics64 failed with "@.is_prefix_of(message@)
            &&& message@.skip("host_statistics64 failed with "@.len() as int) == number_text(
                kr as int,
            )
        },
{
    let words = "host_statistics64 failed with "@;
    assert(statistics_failure(kr).skip(words.len() as int) =~= number_text(kr as int));
    assert(words =~= statistics_failure(kr).subrange(0, words.len() as int));
}

/// The message says which call failed, and ends in the number that it returned.
pub proof fn law_statistics_message(kr: i32, r: String)
    requires
        call_ensures(statistics_message, (kr,), r),
    ensures
        "host_statistics64 failed with "@.is_prefix_of(r@),
        r@.skip("host_statistics64 failed with "@.len() as int) == number_text(kr as int),
{
    let words = "host_statistics64 failed with "@;
    assert(r@.skip(words.len() as int) =~= number_text(kr as int));
    assert(words =~= r@.subrange(0, words.len() as int));
}

/// The page size comes from the kernel call, where that gives one, else from
/// the system variable, where that is positive, and is else four kibibytes.
pub proof fn law_page_size_comes_from_the_first_that_tells(
    kr: i32,
    size: usize,
    variable: Option<i32>,
    r: u64,
)
    requires
        call_ensures(page_size, (kr, size, variable), r),
    ensures
        kr == 0 && size > 0 ==> r == size,
        !(kr == 0 && size > 0) ==> (variable matches Some(told) ==> told > 0 ==> r == told),
        !(kr == 0 && size > 0) ==> (variable matches Some(told) ==> told <= 0 ==> r == 4096),
        !(kr == 0 && size > 0) && variable is None ==> r == 4096,
        r > 0,
{
}

/// The room for processes is twice what was announced, to a whole number of
/// processes, and sixteen more.
pub proof fn law_pid_buffer_is_twice_the_need(needed: i32, r: Option<PidBuffer>)
    requires
        call_ensures(pid_buffer, (needed,), r),
    ensures
        r is Some <==> needed > 0,
        r matches Some(room) ==> {
            &&& room.len % 2 == 0
            &&& 2 * needed - 6 <= 4 * (room.len - 16) <= 2 * needed
            &&& 4 * room.len <= 0x7fff_ffff ==> room.bytes == 4 * room.len
            &&& (4 * room.len - room.bytes) % 0x1_0000_0000 == 0
        },
{
    if needed > 0 {
        let bytes = (4 * pid_room(needed)) as u64;
        assert((bytes - (bytes as i32)) % 0x1_0000_0000 == 0) by (bit_vector)
            requires
                bytes <= 0x2_0000_0000,
        ;
    }
}

/// The list of processes holds the positive numbers among those that the call
/// wrote, in their order, and nothing else.
pub proof fn law_pids_are_the_positive_ones(bytes: i32, buffer: &[i32], r: Vec<i32>)
    requires
        call_ensures(pids, (bytes, buffer), r),
    ensures
        bytes <= 0 ==> r@.len() == 0,
        0 < bytes && bytes / 4 <= buffer@.len() ==> r@ == buffer@.take(bytes / 4).filter(
            |pid: i32| pid > 0,
        ),
        bytes / 4 > buffer@.len() ==> r@ == buffer@.filter(|pid: i32| pid > 0),
{
    let whole = buffer@;
    assert(whole.take(whole.len() as int) =~= whole);
    assert forall|listed: Seq<i32>| #[trigger] positive(listed) == listed.filter(
        |pid: i32| pid > 0,
    ) by {
        lemma_positive_is_filter(listed);
    }
}

proof fn lemma_positive_is_filter(listed: Seq<i32>)
    ensures
        positive(listed) == listed.filter(|pid: i32| pid > 0),
    decreases listed.len(),
{
    reveal(Seq::filter);
    if listed.len() > 0 {
        lemma_positive_is_filter(listed.drop_last());
    }
}

/// The memory of a process is its footprint, where the call for it succeeded
/// and it has one, and else its resident size, where all of that was written
/// and it has one.
pub proof fn law_process_memory_is_the_first_that_is_told(
    rc: i32,
    usage: &RusageInfoV2,
    written: i32,
    info: &ProcTaskInfo,
    r: Option<u64>,
)
    requires
        call_ensures(process_memory, (rc, usage, written, info), r),
    ensures
        rc == 0 && usage.ri_phys_footprint > 0 ==> r == Some(usage.ri_phys_footprint),
        !(rc == 0 && usage.ri_phys_footprint > 0) && written == 96 && info.pti_resident_size > 0
            ==> r == Some(info.pti_resident_size),
        !(rc == 0 && usage.ri_phys_footprint > 0) && !(written == 96 && info.pti_resident_size
            > 0) ==> r is None,
{
}

/// What a call wrote is what stands before the first zero byte, and without one
/// as many bytes as it said.
pub proof fn law_written_bytes(len: i32, text: Seq<u8>, rest: Seq<u8>)
    requires
        lacks(text, 0),
    ensures
        written_bytes(len, text + seq![0u8] + rest) == text,
        0 <= len <= text.len() ==> written_bytes(len, text) == text.take(len as int),
{
    let whole = text + seq![0u8] + rest;
    law_before_first_mark(text, 0, rest);
    assert(before_first(whole, 0).len() == text.len());
    assert(before_first(text, 0).len() == text.len());
    lemma_head_within(whole);
    lemma_head_within(text);
}

proof fn lemma_head_within(bytes: Seq<u8>)
    ensures
        head_len(bytes, 0) <= bytes.len(),
    decreases bytes.len(),
{
    if bytes.len() > 0 {
        lemma_head_within(bytes.skip(1));
    }
}

/// The buffer of a call holds the text: it ends in a zero byte, or is as long
/// as the call said.
pub open spec fn holds(len: i32, buffer: Seq<u8>, text: Seq<u8>, rest: Seq<u8>) -> bool {
    &&& lacks(text, 0)
    &&& buffer == text + seq![0u8] + rest || (lacks(buffer, 0) && len <= buffer.len() && text
        == buffer.take(len as int))
}

proof fn lemma_held(len: i32, buffer: Seq<u8>, text: Seq<u8>, rest: Seq<u8>)
    requires
        len > 0,
        holds(len, buffer, text, rest),
    ensures
        written_bytes(len, buffer) == text,
{
    if buffer == text + seq![0u8] + rest {
        law_written_bytes(len, text, rest);
    } else {
        law_written_bytes(len, buffer, rest);
    }
}

/// A process is named by the file name in its path, exactly as it is there,
/// whatever the directory. Where it is to be cleaned, the whole path goes with
/// it.
pub proof fn law_path_names_the_process(
    path_len: i32,
    path: &[u8],
    name_len: i32,
    name_buffer: &[u8],
    prettify: bool,
    r: Option<Label<String>>,
    full: Seq<u8>,
    rest: Seq<u8>,
    dir: Seq<u8>,
    name: Seq<u8>,
)
    requires
        call_ensures(process_name, (path_len, path, name_len, name_buffer, prettify), r),
        path_len > 0,
        holds(path_len, path@, full, rest),
        full == dir + seq![0x2fu8] + name || full == name || file_name_of(full) == Some(name),
        is_name(name),
        valid_utf8(full),
    ensures
        prettify ==> label_view(r) == Some(
            LabelView::Clean { name: decode_utf8(name), path: decode_utf8(full) },
        ),
        !prettify ==> label_view(r) == Some(LabelView::<Seq<char>>::Sanitize(decode_utf8(name))),
{
    lemma_held(path_len, path@, full, rest);
    law_file_name_is_the_last_name(dir, name);
}

/// A path that is no text, or has no file name, leaves a process without a
/// name, whatever the kernel calls it.
pub proof fn law_unusable_path_names_nothing(
    path_len: i32,
    path: &[u8],
    name_len: i32,
    name_buffer: &[u8],
    prettify: bool,
    r: Option<Label<String>>,
    full: Seq<u8>,
    rest: Seq<u8>,
)
    requires
        call_ensures(process_name, (path_len, path, name_len, name_buffer, prettify), r),
        path_len > 0,
        holds(path_len, path@, full, rest),
        !valid_utf8(full) || file_name_of(full) is None,
    ensures
        r is None,
{
    lemma_held(path_len, path@, full, rest);
}

/// Without a path, a process is named as the kernel calls it, where that is
/// some text.
pub proof fn law_kernel_names_the_process(
    path_len: i32,
    path: &[u8],
    name_len: i32,
    name_buffer: &[u8],
    prettify: bool,
    r: Option<Label<String>>,
    name: Seq<u8>,
    rest: Seq<u8>,
)
    requires
        call_ensures(process_name, (path_len, path, name_len, name_buffer, prettify), r),
        path_len <= 0,
        holds(name_len, name_buffer@, name, rest),
    ensures
        name_len > 0 && name.len() > 0 && valid_utf8(name) ==> label_view(r) == Some(
            LabelView::<Seq<char>>::Sanitize(decode_utf8(name)),
        ),
        name_len <= 0 || name.len() == 0 || !valid_utf8(name) ==> r is None,
{
    if name_len > 0 {
        lemma_held(name_len, name_buffer@, name, rest);
        if name.len() == 0 {
            assert(decode_utf8(name).len() == 0);
        }
    }
}

/// The host bears the name that the call wrote, up to the first zero byte and
/// without the white space around it. A call that failed, or wrote no text or
/// nothing but white space, leaves it with a fixed one.
pub proof fn law_host_bears_the_name_that_was_written(
    rc: i32,
    buffer: &[u8],
    r: Label<String>,
    text: Seq<u8>,
    rest: Seq<u8>,
    front: Seq<char>,
    name: Seq<char>,
    back: Seq<char>,
)
    requires
        call_ensures(hostname, (rc, buffer), r),
        lacks(text, 0),
        buffer@ == text + seq![0u8] + rest || buffer@ == text,
        valid_utf8(text) ==> decode_utf8(text) == front + name + back,
        all_white_space(front),
        all_white_space(back),
        name.len() > 0 ==> !is_white_space(name[0]) && !is_white_space(name.last()),
    ensures
        rc == 0 && valid_utf8(text) && name.len() > 0 ==> r@ == LabelView::<
            Seq<char>,
        >::Sanitize(name),
        rc != 0 || !valid_utf8(text) || name.len() == 0 ==> r@ == LabelView::<Seq<char>>::Fixed(
            "macos"@,
        ),
{
    law_before_first_mark(text, 0, rest);
    law_white_space_is_trimmed(front, name, back);
}

/// What is not available is what programs hold and cannot be thrown away, what
/// is wired down and what the compressor takes, and nothing else. Where that is
/// more than there is, nothing is available.
pub proof fn law_available_is_what_these_pages_leave<E>(
    hostname: String,
    total: u64,
    vm: VmStatistics64,
    swap: Option<XswUsage>,
    pressure: Option<i32>,
    page_size: u64,
    samples: &[ProcessSample],
    process_count: usize,
    r: Result<Snapshot, E>,
)
    requires
        call_ensures(
            collect::<E>,
            (
                hostname,
                Ok::<u64, E>(total),
                Ok::<VmStatistics64, E>(vm),
                swap,
                pressure,
                page_size,
                samples,
                process_count,
            ),
            r,
        ),
    ensures
        r matches Ok(snapshot) && ({
            let programs = if vm.internal_page_count > vm.purgeable_count {
                vm.internal_page_count - vm.purgeable_count
            } else {
                0
            };
            let held = (programs + vm.wire_count + vm.compressor_page_count) * page_size;
            &&& snapshot.memory.total == total
            &&& held <= total ==> total - snapshot.memory.available == held
            &&& held > total ==> snapshot.memory.available == 0
        }),
{
    law_used_within_total(total, vm, swap, page_size);
}

/// Only four counts decide what is available: statistics that agree in them
/// give the same, whatever their other fields, the swap or the pressure.
pub proof fn law_other_counts_do_not_matter(
    total: u64,
    vm: VmStatistics64,
    swap: Option<XswUsage>,
    other: VmStatistics64,
    other_swap: Option<XswUsage>,
    page_size: u64,
)
    requires
        vm.internal_page_count == other.internal_page_count,
        vm.purgeable_count == other.purgeable_count,
        vm.wire_count == other.wire_count,
        vm.compressor_page_count == other.compressor_page_count,
    ensures
        memory_figures(total, vm, swap, page_size).available == memory_figures(
            total,
            other,
            other_swap,
            page_size,
        ).available,
{
}

/// The other figures of a report: cached are the external pages, swap is as the
/// system says with what is not used of it free, and nothing is committed.
pub proof fn law_report_tells_cache_and_swap<E>(
    hostname: String,
    total: u64,
    vm: VmStatistics64,
    swap: Option<XswUsage>,
    pressure: Option<i32>,
    page_size: u64,
    samples: &[ProcessSample],
    process_count: usize,
    r: Result<Snapshot, E>,
    cached: u64,
)
    requires
        call_ensures(
            collect::<E>,
            (
                hostname,
                Ok::<u64, E>(total),
                Ok::<VmStatistics64, E>(vm),
                swap,
                pressure,
                page_size,
                samples,
                process_count,
            ),
            r,
        ),
        call_ensures(pages, (vm.external_page_count, page_size), cached),
    ensures
        r is Ok,
        r->Ok_0.memory.cached == cached,
        r->Ok_0.memory.commit_limit == 0,
        r->Ok_0.memory.committed == 0,
        swap is None ==> r->Ok_0.memory.swap_total == 0 && r->Ok_0.memory.swap_free == 0,
        swap matches Some(usage) ==> {
            &&& r->Ok_0.memory.swap_total == usage.xsu_total
            &&& usage.xsu_used <= usage.xsu_total ==> r->Ok_0.memory.swap_free + usage.xsu_used
                == usage.xsu_total
            &&& usage.xsu_used > usage.xsu_total ==> r->Ok_0.memory.swap_free == 0
        },
{
}

/// A report puts together what its parts give: the pressure, the pages of the
/// compressor and the groups of the processes.
pub proof fn law_report_is_made_of_its_parts<E>(
    hostname: String,
    total: u64,
    vm: VmStatistics64,
    swap: Option<XswUsage>,
    pressure: Option<i32>,
    page_size: u64,
    samples: &[ProcessSample],
    process_count: usize,
    r: Result<Snapshot, E>,
    level: PressureLevel,
    compressor_ram: u64,
    compressor_uncompressed: u64,
    groups: Vec<ProcessGroup>,
)
    requires
        call_ensures(
            collect::<E>,
            (
                hostname,
                Ok::<u64, E>(total),
                Ok::<VmStatistics64, E>(vm),
                swap,
                pressure,
                page_size,
                samples,
                process_count,
            ),
            r,
        ),
        match pressure {
            Some(told) => call_ensures(PressureLevel::from_sysctl, (told,), level),
            None => level == PressureLevel::Unknown((-1) as i32),
        },
        call_ensures(pages, (vm.compressor_page_count, page_size), compressor_ram),
        call_ensures(
            pages_u64,
            (vm.total_uncompressed_pages_in_compressor, page_size),
            compressor_uncompressed,
        ),
        call_ensures(process_groups, (samples, process_count), groups),
    ensures
        r is Ok,
        r->Ok_0.hostname == hostname,
        r->Ok_0.details == (PlatformDetails::Macos {
            pressure: level,
            compressor_uncompressed,
            compressor_ram,
        }),
        r->Ok_0.groups@.len() == groups@.len(),
        forall|k: int|
            0 <= k < groups@.len() ==> {
                &&& (#[trigger] r->Ok_0.groups@[k]).name@ == groups@[k].name@
                &&& r->Ok_0.groups@[k].count == groups@[k].count
                &&& r->Ok_0.groups@[k].rss == groups@[k].rss
            },
{
    let shown = r->Ok_0.groups@;
    let (a, b) = (group_views(shown), group_views(groups@));
    assert(a == b);
    assert(a.len() == shown.len());
    assert(b.len() == groups@.len());
    assert forall|k: int| 0 <= k < groups@.len() implies {
        &&& (#[trigger] shown[k]).name@ == groups@[k].name@
        &&& shown[k].count == groups@[k].count
        &&& shown[k].rss == groups@[k].rss
    } by {
        assert(a[k] == shown[k]@);
        assert(b[k] == groups@[k]@);
    }
}

/// Where the installed memory could not be had there is only that error, and
/// else where the statistics could not be had only theirs.
pub proof fn law_first_error_is_given<E>(
    hostname: String,
    total: Result<u64, E>,
    vm: Result<VmStatistics64, E>,
    swap: Option<XswUsage>,
    pressure: Option<i32>,
    page_size: u64,
    samples: &[ProcessSample],
    process_count: usize,
    r: Result<Snapshot, E>,
)
    requires
        call_ensures(
            collect::<E>,
            (hostname, total, vm, swap, pressure, page_size, samples, process_count),
            r,
        ),
    ensures
        total matches Err(error) ==> r == Err::<Snapshot, E>(error),
        total is Ok ==> (vm matches Err(error) ==> r == Err::<Snapshot, E>(error)),
        total is Ok && vm is Ok ==> r is Ok,
{
}

/// A process counts: it has a name, and keeps something in memory.
pub open spec fn counts() -> spec_fn(ProcessSample) -> bool {
    |sample: ProcessSample|
        {
            &&& sample.name is Some
            &&& sample.rss matches Some(rss)
            &&& rss > 0
        }
}

/// The name and the bytes of a process that counts.
pub open spec fn counted(sample: ProcessSample) -> Reading {
    Reading { name: sample.name->0@, rss: sample.rss->0 }
}

/// Just the processes that count give a reading, with their name and bytes.
proof fn lemma_sample_counts(sample: ProcessSample)
    ensures
        counts()(sample) ==> sample_reading(sample) == Some(counted(sample)),
        !counts()(sample) ==> sample_reading(sample) is None,
{
}

/// No process is lost: each that counts is among the readings that are
/// gathered, with its name and its bytes, wherever in the list it stands.
pub proof fn law_no_process_is_lost(samples: Seq<ProcessSample>, i: int)
    requires
        0 <= i < samples.len(),
        counts()(samples[i]),
    ensures
        sample_readings(samples).contains(counted(samples[i])),
{
    let all = samples.map_values(|sample: ProcessSample| sample_reading(sample));
    lemma_sample_counts(samples[i]);
    assert(all[i] == sample_reading(samples[i]));
    law_given_are_present(all, i);
}

/// There are as many readings as processes that count, and they stand in the
/// order of the processes.
pub proof fn law_each_process_is_read_once(samples: Seq<ProcessSample>)
    ensures
        sample_readings(samples) == samples.filter(counts()).map_values(
            |sample: ProcessSample| counted(sample),
        ),
        sample_readings(samples).len() == samples.filter(counts()).len(),
    decreases samples.len(),
{
    reveal(Seq::filter);
    let all = samples.map_values(|sample: ProcessSample| sample_reading(sample));
    if samples.len() > 0 {
        let front = samples.drop_last();
        law_each_process_is_read_once(front);
        lemma_sample_counts(samples.last());
        assert(all.drop_last() =~= front.map_values(
            |sample: ProcessSample| sample_reading(sample),
        ));
        assert(all.last() == sample_reading(samples.last()));
        if counts()(samples.last()) {
            assert(samples.filter(counts()) == front.filter(counts()).push(samples.last()));
        } else {
            assert(samples.filter(counts()) == front.filter(counts()));
        }
    }
    assert(sample_readings(samples) =~= samples.filter(counts()).map_values(
        |sample: ProcessSample| counted(sample),
    ));
}

/// Every group that is shown has all the processes that count under its name
/// and all their bytes, no name is shown twice, and the largest group is first.
pub proof fn law_shown_groups_have_all_their_processes(
    samples: &[ProcessSample],
    process_count: usize,
    r: Vec<ProcessGroup>,
)
    requires
        call_ensures(process_groups, (samples, process_count), r),
    ensures
        r@.len() <= process_count,
        forall|k: int|
            0 <= k < r@.len() ==> {
                let group = #[trigger] r@[k];
                let readings = samples@.filter(counts()).map_values(
                    |sample: ProcessSample| counted(sample),
                );
                let bytes = bytes_under(readings, group.name@);
                &&& group.count > 0
                &&& group.count == readings.filter(bears(group.name@)).len()
                &&& group.rss == (if bytes <= 0xffff_ffff_ffff_ffff {
                    bytes
                } else {
                    0xffff_ffff_ffff_ffff
                })
            },
        forall|j: int, k: int|
            0 <= j < k < r@.len() ==> (#[trigger] r@[j]).rss >= (#[trigger] r@[k]).rss
                && r@[j].name@ != r@[k].name@,
{
    let readings = sample_readings(samples@);
    let shown = top(tally(readings), process_count as nat);
    law_each_process_is_read_once(samples@);
    law_shown_groups_are_whole(readings, process_count as nat);
    assert(forall|k: int| 0 <= k < r@.len() ==> shown[k] == (#[trigger] r@[k])@);
    assert(shown.len() == r@.len());
}

/// Every process that counts is shown in the group of its name, unless as many
/// groups as are asked for are shown and none of them is smaller.
pub proof fn law_no_large_process_is_missing(
    samples: &[ProcessSample],
    process_count: usize,
    r: Vec<ProcessGroup>,
    i: int,
)
    requires
        call_ensures(process_groups, (samples, process_count), r),
        0 <= i < samples@.len(),
        counts()(samples@[i]),
    ensures
        (exists|k: int|
            0 <= k < r@.len() && (#[trigger] r@[k]).name@ == counted(samples@[i]).name) || (
        r@.len() == process_count && forall|k: int|
            0 <= k < r@.len() ==> (#[trigger] r@[k]).rss >= counted(samples@[i]).rss),
{
    let readings = sample_readings(samples@);
    let shown = top(tally(readings), process_count as nat);
    assert(shown.len() == r@.len());
    assert(forall|k: int| 0 <= k < r@.len() ==> shown[k] == (#[trigger] r@[k])@);
    law_no_process_is_lost(samples@, i);
    let at = choose|at: int| 0 <= at < readings.len() && readings[at] == counted(samples@[i]);
    law_no_larger_process_is_left_out(readings, process_count as nat, at);
    if exists|k: int| 0 <= k < shown.len() && (#[trigger] shown[k]).name == readings[at].name {
        let k = choose|k: int|
            0 <= k < shown.len() && (#[trigger] shown[k]).name == readings[at].name;
        assert(r@[k]@ == shown[k]);
        assert(r@[k].name@ == counted(samples@[i]).name);
    } else {
        assert forall|k: int| 0 <= k < r@.len() implies (#[trigger] r@[k]).rss
            >= readings[at].rss by {
            assert(shown[k].rss >= readings[at].rss);
        }
    }
}

} // verus!
