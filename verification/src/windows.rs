//! What a Windows system reports through its calls.

use crate::groups::{
    bears, bytes_under, group_views, law_given_are_present, law_no_larger_process_is_left_out,
    law_present_are_given, law_shown_groups_are_whole, present, rank_process_groups, read_sample,
    reading_views, sample_reading, tally, tally_processes, top, ProcessReading, ProcessSample,
    Reading,
};
use crate::snapshot::{
    saturated, saturating_product, smaller, Memory, PlatformDetails, ProcessGroup, Snapshot,
};
use crate::text::{
    behind_last_slash, from_utf16_lossy, label_text, label_view, last_component,
    law_last_component, program_label, program_view, utf16_text, Label, LabelView,
};
use vstd::prelude::*;
use vstd::slice::slice_subrange;

verus! {

/// How many processes the first list has room for.
pub const FIRST_PID_CAPACITY: usize = 1024;

/// How many processes the longest list has room for.
pub const LAST_PID_CAPACITY: usize = 1_048_576;

/// The console mode in which escape sequences are obeyed.
pub const ENABLE_VIRTUAL_TERMINAL_PROCESSING: u32 = 0x0004;

/// The physical memory, in bytes.
#[derive(Clone, Copy, Debug, PartialEq, Eq, Structural)]
pub struct MemoryStatusEx {
    pub total_phys: u64,
    pub avail_phys: u64,
}

/// System-wide counts, in pages, and the size of a page in bytes.
#[derive(Clone, Copy, Debug, PartialEq, Eq, Structural)]
pub struct PerformanceInformation {
    pub commit_total: usize,
    pub commit_limit: usize,
    pub system_cache: usize,
    pub page_size: usize,
}

/// The bytes in `count` pages.
pub fn pages(count: usize, page_size: u64) -> (r: u64)
    ensures
        r == saturated(count * page_size),
{
    saturating_product(count as u64, page_size)
}

/// What to do about the list of processes.
#[derive(Debug)]
pub enum PidsStep {
    /// Ask for it with room for so many.
    Enumerate(usize),
    /// These are the processes.
    Done(Vec<u32>),
}

/// The bytes that a list of `capacity` processes takes, where the call can be
/// told so many. An identifier takes four bytes.
pub open spec fn list_bytes(capacity: usize) -> Option<u32> {
    if 4 * capacity <= u32::MAX {
        Some((4 * capacity) as u32)
    } else {
        None
    }
}

/// The bytes that a list of `capacity` processes takes, where the call can be
/// told so many.
pub fn pids_buffer_bytes(capacity: usize) -> (r: Option<u32>)
    ensures
        r == list_bytes(capacity),
{
    if capacity <= 0x3fff_ffff {
        Some(4 * (capacity as u32))
    } else {
        None
    }
}

/// The identifiers that are not zero, in their order.
pub open spec fn nonzero(pids: Seq<u32>) -> Seq<u32>
    decreases pids.len(),
{
    if pids.len() == 0 {
        Seq::empty()
    } else if pids.last() != 0 {
        nonzero(pids.drop_last()).push(pids.last())
    } else {
        nonzero(pids.drop_last())
    }
}

/// No process that is looked at has the identifier zero.
pub proof fn law_pids_are_not_zero(pids: Seq<u32>, i: int)
    requires
        0 <= i < nonzero(pids).len(),
    ensures
        nonzero(pids)[i] != 0,
    decreases pids.len(),
{
    if i < nonzero(pids.drop_last()).len() {
        law_pids_are_not_zero(pids.drop_last(), i);
    }
}

/// Every identifier in the list but zero is looked at.
pub proof fn law_no_pid_is_lost(pids: Seq<u32>, i: int)
    requires
        0 <= i < pids.len(),
        pids[i] != 0,
    ensures
        nonzero(pids).contains(pids[i]),
    decreases pids.len(),
{
    let front = pids.drop_last();
    if i < front.len() {
        law_no_pid_is_lost(front, i);
        let k = choose|k: int| 0 <= k < nonzero(front).len() && nonzero(front)[k] == pids[i];
        assert(nonzero(pids)[k] == pids[i]);
    } else {
        assert(nonzero(pids)[nonzero(front).len() as int] == pids[i]);
    }
}

/// The room to ask with after a list of `capacity` processes came back full.
pub open spec fn larger_capacity(capacity: usize) -> Option<usize> {
    if 2 * capacity <= LAST_PID_CAPACITY {
        Some((2 * capacity) as usize)
    } else {
        None
    }
}

/// The call was made, and filled less than the whole list.
pub open spec fn is_whole_list(capacity: usize, reply: i32, bytes_used: u32) -> bool {
    &&& reply != 0
    &&& list_bytes(capacity) matches Some(bytes)
    &&& bytes_used < bytes
}

/// The call was made, and filled the whole list, so that there may be more.
pub open spec fn is_full_list(capacity: usize, reply: i32, bytes_used: u32) -> bool {
    &&& reply != 0
    &&& list_bytes(capacity) matches Some(bytes)
    &&& bytes_used >= bytes
}

/// Goes on after the list of processes was asked for with room for `capacity`
/// of them. A list that came back full is asked for again with twice the room,
/// up to a limit; where the call failed or the limit is reached there are none.
pub fn pids(capacity: usize, reply: i32, bytes_used: u32, process_ids: &[u32]) -> (r: PidsStep)
    ensures
        is_whole_list(capacity, reply, bytes_used) ==> (r matches PidsStep::Done(found)
            && found@ == nonzero(
            process_ids@.take(smaller(bytes_used as int / 4, process_ids@.len() as int)),
        )),
        is_full_list(capacity, reply, bytes_used) && larger_capacity(capacity) is Some ==> r
            == PidsStep::Enumerate(larger_capacity(capacity)->0),
        !is_whole_list(capacity, reply, bytes_used) && !(is_full_list(capacity, reply, bytes_used)
            && larger_capacity(capacity) is Some) ==> (r matches PidsStep::Done(found)
            && found@.len() == 0),
{
    let mut found: Vec<u32> = Vec::new();
    let buffer_bytes: u32 = match pids_buffer_bytes(capacity) {
        Some(bytes) => bytes,
        None => {
            return PidsStep::Done(found);
        },
    };
    if reply == 0 {
        return PidsStep::Done(found);
    }
    if bytes_used < buffer_bytes {
        let count: usize = (bytes_used / 4) as usize;
        let len: usize = if count < process_ids.len() {
            count
        } else {
            process_ids.len()
        };
        let ghost listed = process_ids@.take(len as int);
        let mut i: usize = 0;
        assert(found@ =~= nonzero(listed.take(0)));
        while i < len
            invariant
                i <= len <= process_ids.len(),
                listed == process_ids@.take(len as int),
                found@ == nonzero(listed.take(i as int)),
            decreases len - i,
        {
            assert(listed.take(i + 1).drop_last() =~= listed.take(i as int));
            if process_ids[i] != 0 {
                found.push(process_ids[i]);
            }
            i += 1;
        }
        assert(listed.take(len as int) =~= listed);
        return PidsStep::Done(found);
    }
    if capacity > LAST_PID_CAPACITY / 2 {
        return PidsStep::Done(found);
    }
    PidsStep::Enumerate(2 * capacity)
}

/// The room asked with in call `n`, counted from zero, where every call before
/// it came back full. None where there is no such call.
pub open spec fn capacity_of_call(n: nat) -> Option<usize>
    decreases n,
{
    if n == 0 {
        Some(FIRST_PID_CAPACITY)
    } else {
        match capacity_of_call((n - 1) as nat) {
            Some(capacity) => larger_capacity(capacity),
            None => None,
        }
    }
}

/// The list of processes is asked for eleven times at most.
pub proof fn law_pids_ends(n: nat)
    ensures
        capacity_of_call(n) is Some <==> n <= 10,
    decreases n,
{
    reveal_with_fuel(capacity_of_call, 12);
    if n > 11 {
        law_pids_ends((n - 1) as nat);
    }
}

/// However often the list of processes is asked for, the call can be told how
/// many bytes it has.
pub proof fn law_pids_room_can_be_told(n: nat)
    requires
        capacity_of_call(n) is Some,
    ensures
        list_bytes(capacity_of_call(n)->0) is Some,
        FIRST_PID_CAPACITY <= capacity_of_call(n)->0 <= LAST_PID_CAPACITY,
    decreases n,
{
    if n > 0 {
        law_pids_room_can_be_told((n - 1) as nat);
    }
}

/// The memory of a process, where the call for it succeeded.
pub fn process_memory(reply: i32, working_set_size: usize) -> (r: Option<u64>)
    ensures
        r == (if reply == 0 {
            None::<u64>
        } else {
            Some(working_set_size as u64)
        }),
{
    if reply == 0 {
        None
    } else {
        Some(working_set_size as u64)
    }
}

/// What names a process: the file name in its path.
pub open spec fn path_label(path: Seq<u16>, prettify: bool) -> Option<LabelView<Seq<char>>> {
    let name = last_component(utf16_text(path));
    if name.len() > 0 {
        Some(program_view(name, utf16_text(path), prettify))
    } else {
        None
    }
}

/// The path of a process, once the call for it has written `length` code units
/// into the buffer.
fn process_path(length: u32, buffer: &[u16]) -> (r: String)
    ensures
        r@ == utf16_text(buffer@.take(smaller(length as int, buffer@.len() as int))),
{
    let len: usize = if (length as usize) < buffer.len() {
        length as usize
    } else {
        buffer.len()
    };
    from_utf16_lossy(slice_subrange(buffer, 0, len))
}

/// Names a process by its path, once the call for it has written `length` code
/// units into the buffer.
pub fn process_name(reply: i32, length: u32, buffer: &[u16], prettify: bool) -> (r: Option<
    Label<String>,
>)
    ensures
        label_view(r) == (if reply == 0 {
            None
        } else {
            path_label(buffer@.take(smaller(length as int, buffer@.len() as int)), prettify)
        }),
        r matches Some(label) ==> label_text(label@).len() > 0,
{
    if reply == 0 {
        return None;
    }
    let path = process_path(length, buffer);
    let name = behind_last_slash(path.as_str()).to_owned();
    if name.as_str().is_empty() {
        None
    } else {
        Some(program_label(name, path, prettify))
    }
}

/// The name of the host, once the call for it has written `length` code units
/// into the buffer.
pub fn hostname(reply: i32, length: u32, buffer: &[u16]) -> (r: Label<String>)
    requires
        reply != 0 ==> length <= buffer@.len(),
    ensures
        r@ == (if reply != 0 && length > 0 {
            LabelView::<Seq<char>>::Sanitize(utf16_text(buffer@.take(length as int)))
        } else {
            LabelView::Fixed("windows"@)
        }),
        label_text(r@).len() > 0,
{
    proof {
        reveal_strlit("windows");
    }
    if reply != 0 && length > 0 {
        return Label::Sanitize(from_utf16_lossy(slice_subrange(buffer, 0, length as usize)));
    }
    Label::Fixed("windows".to_owned())
}

/// Whether a handle is that of a console.
pub open spec fn is_handle(console: isize) -> bool {
    console != 0 && console != -1
}

/// Whether there is a console to ask for its mode.
pub fn has_console(console: isize) -> (r: bool)
    ensures
        r == is_handle(console),
{
    console != 0 && console != -1
}

/// The mode to set on the console so that it obeys escape sequences, from the
/// console's handle and what the call for its mode returned and wrote. None
/// where there is no console or its mode is not known.
pub fn enable_virtual_terminal_processing(console: isize, reply: i32, mode: u32) -> (r: Option<u32>)
    ensures
        r == (if is_handle(console) && reply != 0 {
            Some(mode | ENABLE_VIRTUAL_TERMINAL_PROCESSING)
        } else {
            None
        }),
{
    if !has_console(console) || reply == 0 {
        None
    } else {
        Some(mode | ENABLE_VIRTUAL_TERMINAL_PROCESSING)
    }
}

/// The mode that is set keeps every flag that was on, and obeys escape sequences.
pub proof fn law_console_mode_keeps_flags(mode: u32)
    ensures
        (mode | ENABLE_VIRTUAL_TERMINAL_PROCESSING) & mode == mode,
        (mode | ENABLE_VIRTUAL_TERMINAL_PROCESSING) & ENABLE_VIRTUAL_TERMINAL_PROCESSING
            == ENABLE_VIRTUAL_TERMINAL_PROCESSING,
{
    assert((mode | 0x0004u32) & mode == mode) by (bit_vector);
    assert((mode | 0x0004u32) & 0x0004u32 == 0x0004u32) by (bit_vector);
}

/// The reading that a process gives: none where it could not be opened.
pub open spec fn opened_reading(sample: Option<ProcessSample>) -> Option<Reading> {
    match sample {
        Some(sample) => sample_reading(sample),
        None => None,
    }
}

/// The readings that the samples give.
pub open spec fn opened_readings(samples: Seq<Option<ProcessSample>>) -> Seq<Reading> {
    present(samples.map_values(|sample: Option<ProcessSample>| opened_reading(sample)))
}

/// Every reading tells of some memory, so no process without any is counted.
pub proof fn law_readings_keep_memory(samples: Seq<Option<ProcessSample>>, i: int)
    requires
        0 <= i < opened_readings(samples).len(),
    ensures
        opened_readings(samples)[i].rss > 0,
{
    let all = samples.map_values(|sample: Option<ProcessSample>| opened_reading(sample));
    law_present_are_given(all, i);
    let k = choose|k: int| 0 <= k < all.len() && all[k] == Some(present(all)[i]);
    assert(all[k] == opened_reading(samples[k]));
}

/// Gathers the processes that could be opened under their names, and keeps the
/// `process_count` largest groups, the largest first.
pub fn process_groups(samples: &[Option<ProcessSample>], process_count: usize) -> (r: Vec<
    ProcessGroup,
>)
    ensures
        group_views(r@) == top(tally(opened_readings(samples@)), process_count as nat),
{
    let ghost all = samples@.map_values(|sample: Option<ProcessSample>| opened_reading(sample));
    let mut readings: Vec<ProcessReading> = Vec::new();
    let mut i: usize = 0;
    assert(reading_views(readings@) =~= present(all.take(0)));
    while i < samples.len()
        invariant
            i <= samples.len(),
            all == samples@.map_values(|sample: Option<ProcessSample>| opened_reading(sample)),
            reading_views(readings@) == present(all.take(i as int)),
        decreases samples.len() - i,
    {
        let ghost before = reading_views(readings@);
        proof {
            assert(all.take(i + 1).drop_last() =~= all.take(i as int));
            assert(all.take(i + 1).last() == opened_reading(samples@[i as int]));
        }
        if let Some(sample) = &samples[i] {
            if let Some(reading) = read_sample(sample) {
                readings.push(reading);
                assert(reading_views(readings@) =~= before.push(reading@));
            }
        }
        i += 1;
    }
    assert(all.take(samples.len() as int) =~= all);
    rank_process_groups(tally_processes(readings.as_slice()), process_count)
}

/// The memory figures of a report.
pub open spec fn memory_figures(
    status: MemoryStatusEx,
    performance: PerformanceInformation,
) -> Memory {
    Memory {
        total: status.total_phys,
        available: smaller(status.avail_phys as int, status.total_phys as int) as u64,
        cached: saturated(performance.system_cache * performance.page_size),
        swap_total: 0,
        swap_free: 0,
        commit_limit: saturated(performance.commit_limit * performance.page_size),
        committed: saturated(performance.commit_total * performance.page_size),
    }
}

/// What is available and what is used are together all that is installed.
pub proof fn law_used_and_available_are_all(
    status: MemoryStatusEx,
    performance: PerformanceInformation,
)
    ensures
        memory_figures(status, performance).available <= status.total_phys,
        memory_figures(status, performance).spec_used() + memory_figures(
            status,
            performance,
        ).available == status.total_phys,
{
}

/// Puts a report together. Where the memory status or the performance
/// information could not be had there is none, but the first of their errors.
pub fn collect<E>(
    hostname: String,
    status: Result<MemoryStatusEx, E>,
    performance: Result<PerformanceInformation, E>,
    samples: &[Option<ProcessSample>],
    process_count: usize,
) -> (r: Result<Snapshot, E>)
    ensures
        match (status, performance) {
            (Err(error), _) => r == Err::<Snapshot, E>(error),
            (Ok(_), Err(error)) => r == Err::<Snapshot, E>(error),
            (Ok(status), Ok(performance)) => {
                &&& r matches Ok(snapshot)
                &&& snapshot.hostname == hostname
                &&& snapshot.memory == memory_figures(status, performance)
                &&& snapshot.details == PlatformDetails::Windows
                &&& group_views(snapshot.groups@) == top(
                    tally(opened_readings(samples@)),
                    process_count as nat,
                )
            },
        },
{
    let status = match status {
        Ok(status) => status,
        Err(error) => {
            return Err(error);
        },
    };
    let performance = match performance {
        Ok(performance) => performance,
        Err(error) => {
            return Err(error);
        },
    };
    let page_size: u64 = performance.page_size as u64;
    Ok(
        Snapshot {
            hostname,
            memory: Memory {
                total: status.total_phys,
                available: if status.avail_phys < status.total_phys {
                    status.avail_phys
                } else {
                    status.total_phys
                },
                cached: pages(performance.system_cache, page_size),
                swap_total: 0,
                swap_free: 0,
                commit_limit: pages(performance.commit_limit, page_size),
                committed: pages(performance.commit_total, page_size),
            },
            details: PlatformDetails::Windows,
            groups: process_groups(samples, process_count),
        },
    )
}

/// So many pages take as many bytes, or as many as can be told.
pub proof fn law_pages_have_their_size(count: usize, page_size: u64, r: u64)
    requires
        call_ensures(pages, (count, page_size), r),
    ensures
        count * page_size <= 0xffff_ffff_ffff_ffff ==> r == count * page_size,
        count * page_size > 0xffff_ffff_ffff_ffff ==> r == 0xffff_ffff_ffff_ffff,
{
    assert(0 <= count * page_size) by (nonlinear_arith);
}

/// A list is told in bytes, four for each process, as long as those can be told.
pub proof fn law_list_bytes(capacity: usize, r: Option<u32>)
    requires
        call_ensures(pids_buffer_bytes, (capacity,), r),
    ensures
        r is Some <==> 4 * capacity <= 0xffff_ffff,
        r matches Some(bytes) ==> bytes == 4 * capacity,
{
}

/// A list that was not filled names the processes: the numbers but zero among
/// those that were written, in their order, and nothing else.
pub proof fn law_pids_are_those_but_zero(
    capacity: usize,
    reply: i32,
    bytes_used: u32,
    process_ids: &[u32],
    r: PidsStep,
)
    requires
        call_ensures(pids, (capacity, reply, bytes_used, process_ids), r),
        reply != 0,
        bytes_used < 4 * capacity <= 0xffff_ffff,
    ensures
        bytes_used / 4 <= process_ids@.len() ==> (r matches PidsStep::Done(found) && found@
            == process_ids@.take(bytes_used as int / 4).filter(|pid: u32| pid != 0)),
        bytes_used / 4 > process_ids@.len() ==> (r matches PidsStep::Done(found) && found@
            == process_ids@.filter(|pid: u32| pid != 0)),
{
    lemma_nonzero_is_filter(process_ids@.take(bytes_used as int / 4));
    lemma_nonzero_is_filter(process_ids@);
    assert(process_ids@.take(process_ids@.len() as int) =~= process_ids@);
}

proof fn lemma_nonzero_is_filter(listed: Seq<u32>)
    ensures
        nonzero(listed) == listed.filter(|pid: u32| pid != 0),
    decreases listed.len(),
{
    reveal(Seq::filter);
    if listed.len() > 0 {
        lemma_nonzero_is_filter(listed.drop_last());
    }
}

/// A list that came back full is asked for again with twice the room, as long
/// as it had room for no more than half of the largest list. Beyond that, and
/// where the call failed, there are none.
pub proof fn law_full_list_is_asked_for_again(
    capacity: usize,
    reply: i32,
    bytes_used: u32,
    process_ids: &[u32],
    r: PidsStep,
)
    requires
        call_ensures(pids, (capacity, reply, bytes_used, process_ids), r),
    ensures
        reply != 0 && bytes_used >= 4 * capacity && capacity <= 524_288 ==> (
        r matches PidsStep::Enumerate(more) && more == 2 * capacity),
        reply != 0 && bytes_used >= 4 * capacity && capacity > 524_288 ==> (
        r matches PidsStep::Done(found) && found@.len() == 0),
        reply == 0 || 4 * capacity > 0xffff_ffff ==> (r matches PidsStep::Done(found)
            && found@.len() == 0),
        FIRST_PID_CAPACITY == 1024,
{
}

/// The memory of a process is its working set, where the call succeeded.
pub proof fn law_process_memory_is_the_working_set(
    reply: i32,
    working_set_size: usize,
    r: Option<u64>,
)
    requires
        call_ensures(process_memory, (reply, working_set_size), r),
    ensures
        reply == 0 ==> r is None,
        reply != 0 ==> r is Some && r->0 == working_set_size,
{
}

/// A process is named by what stands behind the last slash of its path, exactly
/// as it is there, whatever the directory. Where it is to be cleaned, the whole
/// path goes with it. A path that ends in a slash names nothing.
pub proof fn law_path_names_the_process(
    reply: i32,
    length: u32,
    buffer: &[u16],
    prettify: bool,
    r: Option<Label<String>>,
    units: Seq<u16>,
    dir: Seq<char>,
    slash: char,
    name: Seq<char>,
)
    requires
        call_ensures(process_name, (reply, length, buffer, prettify), r),
        reply != 0,
        length <= buffer@.len() && units == buffer@.take(length as int) || length > buffer@.len()
            && units == buffer@,
        utf16_text(units) == dir + seq![slash] + name || utf16_text(units) == name,
        slash == '/' || slash == '\\',
        forall|i: int| 0 <= i < name.len() ==> #[trigger] name[i] != '/' && name[i] != '\\',
    ensures
        name.len() > 0 && prettify ==> label_view(r) == Some(
            LabelView::Clean { name, path: utf16_text(units) },
        ),
        name.len() > 0 && !prettify ==> label_view(r) == Some(
            LabelView::<Seq<char>>::Sanitize(name),
        ),
        name.len() == 0 ==> r is None,
{
    assert(buffer@.take(buffer@.len() as int) =~= buffer@);
    law_last_component(dir, slash, name);
}

/// A process whose path could not be had has no name.
pub proof fn law_failed_call_names_nothing(
    length: u32,
    buffer: &[u16],
    prettify: bool,
    r: Option<Label<String>>,
)
    requires
        call_ensures(process_name, (0i32, length, buffer, prettify), r),
    ensures
        r is None,
{
}

/// The host bears the name that the call wrote, and a fixed one where it failed
/// or wrote none.
pub proof fn law_host_bears_the_name_that_was_written(
    reply: i32,
    length: u32,
    buffer: &[u16],
    r: Label<String>,
)
    requires
        call_ensures(hostname, (reply, length, buffer), r),
        length <= buffer@.len(),
    ensures
        reply != 0 && length > 0 ==> r@ == LabelView::<Seq<char>>::Sanitize(
            utf16_text(buffer@.take(length as int)),
        ),
        reply == 0 || length == 0 ==> r@ == LabelView::<Seq<char>>::Fixed("windows"@),
{
}

/// The console's mode is set just where there is a console and its mode is
/// known. It keeps every flag that was on, has the one for escape sequences,
/// and no other.
pub proof fn law_console_mode_is_set(
    console: isize,
    reply: i32,
    mode: u32,
    r: Option<u32>,
    there: bool,
)
    requires
        call_ensures(enable_virtual_terminal_processing, (console, reply, mode), r),
        call_ensures(has_console, (console,), there),
    ensures
        there <==> console != 0 && console != -1,
        r is Some <==> there && reply != 0,
        r matches Some(set) ==> set & 4 == 4 && set & !4u32 == mode & !4u32,
{
    let set = mode | 0x0004u32;
    assert(set & 4 == 4 && set & !4u32 == mode & !4u32) by (bit_vector)
        requires
            set == mode | 0x0004u32,
    ;
}

/// The memory figures of a report: what is available is as the system says but
/// no more than there is, what is cached and committed is told in pages, and
/// there is no swap.
pub proof fn law_report_tells_the_memory<E>(
    hostname: String,
    status: MemoryStatusEx,
    performance: PerformanceInformation,
    samples: &[Option<ProcessSample>],
    process_count: usize,
    r: Result<Snapshot, E>,
    cached: u64,
    commit_limit: u64,
    committed: u64,
)
    requires
        call_ensures(
            collect::<E>,
            (
                hostname,
                Ok::<MemoryStatusEx, E>(status),
                Ok::<PerformanceInformation, E>(performance),
                samples,
                process_count,
            ),
            r,
        ),
        call_ensures(pages, (performance.system_cache, performance.page_size as u64), cached),
        call_ensures(
            pages,
            (performance.commit_limit, performance.page_size as u64),
            commit_limit,
        ),
        call_ensures(pages, (performance.commit_total, performance.page_size as u64), committed),
    ensures
        r is Ok,
        r->Ok_0.memory.total == status.total_phys,
        status.avail_phys <= status.total_phys ==> r->Ok_0.memory.available == status.avail_phys,
        status.avail_phys > status.total_phys ==> r->Ok_0.memory.available == status.total_phys,
        r->Ok_0.memory.cached == cached,
        r->Ok_0.memory.commit_limit == commit_limit,
        r->Ok_0.memory.committed == committed,
        r->Ok_0.memory.swap_total == 0,
        r->Ok_0.memory.swap_free == 0,
{
}

/// A report bears the host's name and has the groups of the processes.
pub proof fn law_report_is_made_of_its_parts<E>(
    hostname: String,
    status: MemoryStatusEx,
    performance: PerformanceInformation,
    samples: &[Option<ProcessSample>],
    process_count: usize,
    r: Result<Snapshot, E>,
    groups: Vec<ProcessGroup>,
)
    requires
        call_ensures(
            collect::<E>,
            (
                hostname,
                Ok::<MemoryStatusEx, E>(status),
                Ok::<PerformanceInformation, E>(performance),
                samples,
                process_count,
            ),
            r,
        ),
        call_ensures(process_groups, (samples, process_count), groups),
    ensures
        r is Ok,
        r->Ok_0.hostname == hostname,
        r->Ok_0.details == PlatformDetails::Windows,
        r->Ok_0.groups@.len() == groups@.len(),
        forall|k: int|
            0 <= k < groups@.len() ==> {
                &&& (#[trigger] r->Ok_0.groups@[k]).name@ == groups@[k].name@
                &&& r->Ok_0.groups@[k].count == groups@[k].count
                &&& r->Ok_0.groups@[k].rss == groups@[k].rss
            },
{
    let shown = r->Ok_0.groups@;
    let (a, b) = (group_views(shown), group_views(groups@));
    assert(a == b);
    assert(a.len() == shown.len());
    assert(b.len() == groups@.len());
    assert forall|k: int| 0 <= k < groups@.len() implies {
        &&& (#[trigger] shown[k]).name@ == groups@[k].name@
        &&& shown[k].count == groups@[k].count
        &&& shown[k].rss == groups@[k].rss
    } by {
        assert(a[k] == shown[k]@);
        assert(b[k] == groups@[k]@);
    }
}

/// Where the memory status could not be had there is only that error, and else
/// where the performance information could not be had only its own.
pub proof fn law_first_error_is_given<E>(
    hostname: String,
    status: Result<MemoryStatusEx, E>,
    performance: Result<PerformanceInformation, E>,
    samples: &[Option<ProcessSample>],
    process_count: usize,
    r: Result<Snapshot, E>,
)
    requires
        call_ensures(
            collect::<E>,
            (hostname, status, performance, samples, process_count),
            r,
        ),
    ensures
        status matches Err(error) ==> r == Err::<Snapshot, E>(error),
        status is Ok ==> (performance matches Err(error) ==> r == Err::<Snapshot, E>(error)),
        status is Ok && performance is Ok ==> r is Ok,
{
}

/// A process counts: it could be opened, has a name, and keeps something in memory.
pub open spec fn counts() -> spec_fn(Option<ProcessSample>) -> bool {
    |sample: Option<ProcessSample>|
        {
            &&& sample matches Some(opened)
            &&& opened.name is Some
            &&& opened.rss matches Some(rss)
            &&& rss > 0
        }
}

/// The name and the bytes of a process that counts.
pub open spec fn counted(sample: Option<ProcessSample>) -> Reading {
    Reading { name: sample->0.name->0@, rss: sample->0.rss->0 }
}

/// Just the processes that count give a reading, with their name and bytes.
proof fn lemma_sample_counts(sample: Option<ProcessSample>)
    ensures
        counts()(sample) ==> opened_reading(sample) == Some(counted(sample)),
        !counts()(sample) ==> opened_reading(sample) is None,
{
}

/// No process is lost: each that counts is among the readings that are
/// gathered, with its name and its bytes, wherever in the list it stands.
pub proof fn law_no_process_is_lost(samples: Seq<Option<ProcessSample>>, i: int)
    requires
        0 <= i < samples.len(),
        counts()(samples[i]),
    ensures
        opened_readings(samples).contains(counted(samples[i])),
{
    let all = samples.map_values(|sample: Option<ProcessSample>| opened_reading(sample));
    lemma_sample_counts(samples[i]);
    assert(all[i] == opened_reading(samples[i]));
    law_given_are_present(all, i);
}

/// There are as many readings as processes that count, and they stand in the
/// order of the processes.
pub proof fn law_each_process_is_read_once(samples: Seq<Option<ProcessSample>>)
    ensures
        opened_readings(samples) == samples.filter(counts()).map_values(
            |sample: Option<ProcessSample>| counted(sample),
        ),
        opened_readings(samples).len() == samples.filter(counts()).len(),
    decreases samples.len(),
{
    reveal(Seq::filter);
    let all = samples.map_values(|sample: Option<ProcessSample>| opened_reading(sample));
    if samples.len() > 0 {
        let front = samples.drop_last();
        law_each_process_is_read_once(front);
        lemma_sample_counts(samples.last());
        assert(all.drop_last() =~= front.map_values(
            |sample: Option<ProcessSample>| opened_reading(sample),
        ));
        assert(all.last() == opened_reading(samples.last()));
        if counts()(samples.last()) {
            assert(samples.filter(counts()) == front.filter(counts()).push(samples.last()));
        } else {
            assert(samples.filter(counts()) == front.filter(counts()));
        }
    }
    assert(opened_readings(samples) =~= samples.filter(counts()).map_values(
        |sample: Option<ProcessSample>| counted(sample),
    ));
}

/// Every group that is shown has all the processes that count under its name
/// and all their bytes, no name is shown twice, and the largest group is first.
pub proof fn law_shown_groups_have_all_their_processes(
    samples: &[Option<ProcessSample>],
    process_count: usize,
    r: Vec<ProcessGroup>,
)
    requires
        call_ensures(process_groups, (samples, process_count), r),
    ensures
        r@.len() <= process_count,
        forall|k: int|
            0 <= k < r@.len() ==> {
                let group = #[trigger] r@[k];
                let readings = samples@.filter(counts()).map_values(
                    |sample: Option<ProcessSample>| counted(sample),
                );
                let bytes = bytes_under(readings, group.name@);
                &&& group.count > 0
                &&& group.count == readings.filter(bears(group.name@)).len()
                &&& group.rss == (if bytes <= 0xffff_ffff_ffff_ffff {
                    bytes
                } else {
                    0xffff_ffff_ffff_ffff
                })
            },
        forall|j: int, k: int|
            0 <= j < k < r@.len() ==> (#[trigger] r@[j]).rss >= (#[trigger] r@[k]).rss
                && r@[j].name@ != r@[k].name@,
{
    let readings = opened_readings(samples@);
    let shown = top(tally(readings), process_count as nat);
    law_each_process_is_read_once(samples@);
    law_shown_groups_are_whole(readings, process_count as nat);
    assert(forall|k: int| 0 <= k < r@.len() ==> shown[k] == (#[trigger] r@[k])@);
    assert(shown.len() == r@.len());
}

/// Every process that counts is shown in the group of its name, unless as many
/// groups as are asked for are shown and none of them is smaller.
pub proof fn law_no_large_process_is_missing(
    samples: &[Option<ProcessSample>],
    process_count: usize,
    r: Vec<ProcessGroup>,
    i: int,
)
    requires
        call_ensures(process_groups, (samples, process_count), r),
        0 <= i < samples@.len(),
        counts()(samples@[i]),
    ensures
        (exists|k: int|
            0 <= k < r@.len() && (#[trigger] r@[k]).name@ == counted(samples@[i]).name) || (
        r@.len() == process_count && forall|k: int|
            0 <= k < r@.len() ==> (#[trigger] r@[k]).rss >= counted(samples@[i]).rss),
{
    let readings = opened_readings(samples@);
    let shown = top(tally(readings), process_count as nat);
    assert(shown.len() == r@.len());
    assert(forall|k: int| 0 <= k < r@.len() ==> shown[k] == (#[trigger] r@[k])@);
    law_no_process_is_lost(samples@, i);
    let at = choose|at: int| 0 <= at < readings.len() && readings[at] == counted(samples@[i]);
    law_no_larger_process_is_left_out(readings, process_count as nat, at);
    if exists|k: int| 0 <= k < shown.len() && (#[trigger] shown[k]).name == readings[at].name {
        let k = choose|k: int|
            0 <= k < shown.len() && (#[trigger] shown[k]).name == readings[at].name;
        assert(r@[k]@ == shown[k]);
        assert(r@[k].name@ == counted(samples@[i]).name);
    } else {
        assert forall|k: int| 0 <= k < r@.len() implies (#[trigger] r@[k]).rss
            >= readings[at].rss by {
            assert(shown[k].rss >= readings[at].rss);
        }
    }
}

} // verus!
