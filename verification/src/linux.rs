//! What a Linux system reports in its files.

use crate::bytes::{
    after_last, all_blanks, all_digits, before_first, behind_last, file_name, file_name_of,
    is_blank, is_digit, is_name, lacks, law_after_last_mark, law_before_first_mark,
    law_blanks_are_trimmed, law_file_name_is_the_last_name, law_no_file_name, starts_with,
    trim_ascii_whitespace, trim_back, trim_front, up_to, SLASH,
};
use crate::groups::{
    bears, bytes_under, group_views, law_given_are_present, law_no_larger_process_is_left_out,
    law_present_are_given, law_shown_groups_are_whole, present, rank_process_groups,
    reading_views, tally, tally_processes, top, ProcessReading, Reading,
};
use crate::procfs::{
    auxv_page_size, meminfo_figures, mm_stat, parse_auxv_page_size, parse_meminfo,
    parse_single_u64, parse_statm_rss, parse_zram_mm_stat, single_number, statm_rss,
};
use crate::snapshot::{
    saturated, Memory, PlatformDetails, ProcessGroup, Snapshot, Zram, DEFAULT_PAGE_SIZE,
};
use crate::text::{
    from_utf8_lossy, label_text, label_view, law_end_is_taken_off_once, law_text_is_read_back,
    lossy_text, program_label, program_view, strip_end, without_end, Label, LabelView,
};
use vstd::array::array_as_slice;
use vstd::prelude::*;
use vstd::slice::slice_to_vec;
use vstd::utf8::{
    decode_utf8, decode_utf8_split, encode_utf8, encode_utf8_decode_utf8, encode_utf8_valid_utf8,
    is_ascii_chars, is_ascii_chars_encode_utf8, is_char_boundary_iff_not_is_continuation_byte,
    valid_utf8, valid_utf8_concat,
};

verus! {

/// A directory under `/sys/block`: its name, and its files as far as they
/// could be read.
#[derive(Debug)]
pub struct BlockDevice {
    pub name: Vec<u8>,
    pub disksize: Option<String>,
    pub mm_stat: Option<String>,
}

/// A directory under `/proc`: its name, its `statm` file as far as it could be
/// read, and the name to show for the process.
#[derive(Debug)]
pub struct ProcEntry {
    pub filename: Vec<u8>,
    pub statm: Option<String>,
    pub name: Option<String>,
}

/// Sums over compressed swap devices.
pub struct ZramSums {
    pub configured: nat,
    pub data: nat,
    pub compressed: nat,
    pub memory_used: nat,
}

/// The bytes `zram`, with which the name of a compressed swap device starts.
pub open spec fn zram_prefix() -> Seq<u8> {
    seq![0x7a, 0x72, 0x61, 0x6d]
}

/// The figures of one device: nothing for a device that is no compressed swap
/// device, and for each file that does not tell.
pub open spec fn device_figures(device: BlockDevice) -> Zram {
    let configured = match device.disksize {
        Some(text) => match single_number(encode_utf8(text@)) {
            Some(bytes) => bytes,
            None => 0,
        },
        None => 0,
    };
    let stats = match device.mm_stat {
        Some(text) => mm_stat(encode_utf8(text@)),
        None => None,
    };
    if !zram_prefix().is_prefix_of(device.name@) {
        Zram { configured: 0, data: 0, compressed: 0, memory_used: 0 }
    } else {
        match stats {
            Some(stats) => Zram { configured, ..stats },
            None => Zram { configured, data: 0, compressed: 0, memory_used: 0 },
        }
    }
}

/// The figures of all devices, added up.
pub open spec fn zram_sums(devices: Seq<BlockDevice>) -> ZramSums
    decreases devices.len(),
{
    if devices.len() == 0 {
        ZramSums { configured: 0, data: 0, compressed: 0, memory_used: 0 }
    } else {
        let sums = zram_sums(devices.drop_last());
        let figures = device_figures(devices.last());
        ZramSums {
            configured: sums.configured + figures.configured as nat,
            data: sums.data + figures.data as nat,
            compressed: sums.compressed + figures.compressed as nat,
            memory_used: sums.memory_used + figures.memory_used as nat,
        }
    }
}

/// The sums, each held within the range of `u64`.
pub open spec fn zram_totals(devices: Seq<BlockDevice>) -> Zram {
    let sums = zram_sums(devices);
    Zram {
        configured: saturated(sums.configured as int),
        data: saturated(sums.data as int),
        compressed: saturated(sums.compressed as int),
        memory_used: saturated(sums.memory_used as int),
    }
}

/// Taking one device out takes its figures out of the sums.
proof fn lemma_sums_remove(devices: Seq<BlockDevice>, i: int)
    requires
        0 <= i < devices.len(),
    ensures
        zram_sums(devices) == (ZramSums {
            configured: zram_sums(devices.remove(i)).configured + device_figures(
                devices[i],
            ).configured as nat,
            data: zram_sums(devices.remove(i)).data + device_figures(devices[i]).data as nat,
            compressed: zram_sums(devices.remove(i)).compressed + device_figures(
                devices[i],
            ).compressed as nat,
            memory_used: zram_sums(devices.remove(i)).memory_used + device_figures(
                devices[i],
            ).memory_used as nat,
        }),
    decreases devices.len(),
{
    if i == devices.len() - 1 {
        assert(devices.remove(i) =~= devices.drop_last());
    } else {
        lemma_sums_remove(devices.drop_last(), i);
        assert(devices.remove(i).drop_last() =~= devices.drop_last().remove(i));
    }
}

proof fn lemma_same_sums(a: Seq<BlockDevice>, b: Seq<BlockDevice>)
    requires
        a.to_multiset() == b.to_multiset(),
    ensures
        zram_sums(a) == zram_sums(b),
    decreases a.len(),
{
    broadcast use vstd::seq_lib::group_to_multiset_ensures;

    assert(a.len() == a.to_multiset().len());
    assert(b.len() == b.to_multiset().len());
    if a.len() > 0 {
        let last = a.last();
        let front = a.drop_last();
        assert(a.contains(last)) by {
            assert(a[a.len() - 1] == last);
        }
        assert(b.to_multiset().count(last) > 0);
        assert(b.contains(last));
        let i = choose|i: int| 0 <= i < b.len() && b[i] == last;
        let rest = b.remove(i);
        assert(a =~= front.push(last));
        assert(a.to_multiset() =~= front.to_multiset().insert(last));
        assert(rest.to_multiset() =~= b.to_multiset().remove(last));
        assert(front.to_multiset() =~= rest.to_multiset());
        lemma_same_sums(front, rest);
        lemma_sums_remove(a, a.len() - 1);
        assert(a.remove(a.len() - 1) =~= front);
        lemma_sums_remove(b, i);
    }
}

/// The totals depend on which devices there are, not on the order in which
/// they are listed.
pub proof fn law_device_order_does_not_matter(a: Seq<BlockDevice>, b: Seq<BlockDevice>)
    requires
        a.to_multiset() == b.to_multiset(),
    ensures
        zram_totals(a) == zram_totals(b),
{
    lemma_same_sums(a, b);
}

fn read_device(device: &BlockDevice) -> (r: Zram)
    ensures
        r == device_figures(*device),
{
    let mut figures = Zram::default();
    let prefix: [u8; 4] = [0x7a, 0x72, 0x61, 0x6d];
    assert(prefix@ =~= zram_prefix());
    if !starts_with(device.name.as_slice(), array_as_slice(&prefix)) {
        return figures;
    }
    if let Some(text) = &device.disksize {
        if let Some(bytes) = parse_single_u64(text.as_str()) {
            figures.configured = bytes;
        }
    }
    if let Some(text) = &device.mm_stat {
        if let Some(stats) = parse_zram_mm_stat(text.as_str()) {
            figures.data = stats.data;
            figures.compressed = stats.compressed;
            figures.memory_used = stats.memory_used;
        }
    }
    figures
}

/// Adds up what the compressed swap devices among `devices` tell.
pub fn zram_info(devices: &[BlockDevice]) -> (r: Zram)
    ensures
        r == zram_totals(devices@),
{
    let mut result = Zram::default();
    let mut i: usize = 0;
    assert(devices@.take(0) =~= Seq::<BlockDevice>::empty());
    while i < devices.len()
        invariant
            i <= devices.len(),
            result == zram_totals(devices@.take(i as int)),
        decreases devices.len() - i,
    {
        let figures = read_device(&devices[i]);
        assert(devices@.take(i + 1).drop_last() =~= devices@.take(i as int));
        assert(devices@.take(i + 1).last() == devices@[i as int]);
        result.configured = result.configured.saturating_add(figures.configured);
        result.data = result.data.saturating_add(figures.data);
        result.compressed = result.compressed.saturating_add(figures.compressed);
        result.memory_used = result.memory_used.saturating_add(figures.memory_used);
        i += 1;
    }
    assert(devices@.take(devices.len() as int) =~= devices@);
    result
}

/// The figures in `/proc/meminfo`, or the error that reading it gave.
pub fn meminfo<E>(text: Result<String, E>) -> (r: Result<Memory, E>)
    ensures
        r == (match text {
            Ok(text) => Ok::<Memory, E>(meminfo_figures(encode_utf8(text@))),
            Err(error) => Err(error),
        }),
{
    match text {
        Ok(text) => Ok(parse_meminfo(text.as_str())),
        Err(error) => Err(error),
    }
}

/// The page size that the auxiliary vector tells, where it was read and tells
/// one. `word` is the size of a machine word in bytes, and `little` says
/// whether it is little-endian.
pub fn page_size(auxv: Option<&[u8]>, word: usize, little: bool) -> (r: u64)
    requires
        word == 4 || word == 8,
    ensures
        r == (match auxv {
            Some(bytes) => match auxv_page_size(bytes@, word, little) {
                Some(size) => size,
                None => DEFAULT_PAGE_SIZE,
            },
            None => DEFAULT_PAGE_SIZE,
        }),
{
    match auxv {
        Some(bytes) => match parse_auxv_page_size(bytes, word, little) {
            Some(size) => size,
            None => DEFAULT_PAGE_SIZE,
        },
        None => DEFAULT_PAGE_SIZE,
    }
}

/// The name of the host, from the bytes of the file that holds it.
pub fn hostname(bytes: Option<&[u8]>) -> (r: Label<Vec<u8>>)
    ensures
        r@ == (match bytes {
            Some(bytes) => {
                let name = trim_back(trim_front(bytes@));
                if name.len() > 0 {
                    LabelView::<Seq<u8>>::Sanitize(lossy_text(name))
                } else {
                    LabelView::Fixed("linux"@)
                }
            },
            None => LabelView::Fixed("linux"@),
        }),
        label_text(r@).len() > 0,
{
    proof {
        reveal_strlit("linux");
    }
    if let Some(bytes) = bytes {
        let name = trim_ascii_whitespace(bytes);
        if name.len() > 0 {
            return Label::Sanitize(from_utf8_lossy(name));
        }
    }
    Label::Fixed("linux".to_owned())
}

/// What labels a program by the last component of its path: the mark of a
/// deleted file does not belong to the name. The path is kept whole.
pub open spec fn executable_view(
    component: Seq<char>,
    path: Seq<u8>,
    prettify: bool,
) -> Option<LabelView<Seq<u8>>> {
    let name = without_end(component, " (deleted)"@);
    if name.len() > 0 {
        Some(program_view(name, path, prettify))
    } else {
        None
    }
}

/// Labels a program by the last component of its path.
pub fn executable_label(component: &str, path: &[u8], prettify: bool) -> (r: Option<
    Label<Vec<u8>>,
>)
    ensures
        label_view(r) == executable_view(component@, path@, prettify),
{
    let name = strip_end(component, " (deleted)");
    if name.is_empty() {
        None
    } else {
        Some(program_label(name.to_owned(), slice_to_vec(path), prettify))
    }
}

/// What names a process: the program that it runs, else the name of its
/// command, else the first word of its command line.
pub open spec fn process_label(
    exe: Option<Seq<u8>>,
    comm: Option<Seq<u8>>,
    cmdline: Option<Seq<u8>>,
    prettify: bool,
) -> Option<LabelView<Seq<u8>>> {
    let program = match exe {
        Some(target) => {
            let component = match file_name_of(target) {
                Some(name) => name,
                None => target,
            };
            executable_view(lossy_text(component), target, prettify)
        },
        None => None,
    };
    let command = match comm {
        Some(comm) => trim_back(trim_front(comm)),
        None => Seq::empty(),
    };
    let first = match cmdline {
        Some(line) => after_last(before_first(line, 0), SLASH),
        None => Seq::empty(),
    };
    if program is Some {
        program
    } else if command.len() > 0 {
        Some(LabelView::Sanitize(lossy_text(command)))
    } else if first.len() > 0 {
        Some(LabelView::Sanitize(lossy_text(first)))
    } else {
        None
    }
}

/// The bytes that there may be, as a mathematical value.
pub open spec fn bytes_view(bytes: Option<&[u8]>) -> Option<Seq<u8>> {
    match bytes {
        Some(bytes) => Some(bytes@),
        None => None,
    }
}

/// Names a process by the target of its `exe` link and its files `comm` and
/// `cmdline`, each where it could be read.
pub fn process_name(
    exe: Option<&[u8]>,
    comm: Option<&[u8]>,
    cmdline: Option<&[u8]>,
    prettify: bool,
) -> (r: Option<Label<Vec<u8>>>)
    ensures
        label_view(r) == process_label(
            bytes_view(exe),
            bytes_view(comm),
            bytes_view(cmdline),
            prettify,
        ),
        r matches Some(label) ==> label_text(label@).len() > 0,
{
    if let Some(target) = exe {
        let component = match file_name(target) {
            Some(name) => name,
            None => target,
        };
        let text = from_utf8_lossy(component);
        if let Some(label) = executable_label(text.as_str(), target, prettify) {
            return Some(label);
        }
    }
    if let Some(comm) = comm {
        let command = trim_ascii_whitespace(comm);
        if command.len() > 0 {
            return Some(Label::Sanitize(from_utf8_lossy(command)));
        }
    }
    match cmdline {
        Some(line) => {
            let first = behind_last(up_to(line, 0), SLASH);
            if first.len() > 0 {
                Some(Label::Sanitize(from_utf8_lossy(first)))
            } else {
                None
            }
        },
        None => None,
    }
}

/// A source that names a process settles its name, whatever the later ones hold.
pub proof fn law_first_source_names(
    exe: Option<Seq<u8>>,
    comm: Option<Seq<u8>>,
    cmdline: Option<Seq<u8>>,
    prettify: bool,
)
    ensures
        process_label(exe, None, None, prettify) is Some ==> process_label(
            exe,
            comm,
            cmdline,
            prettify,
        ) == process_label(exe, None, None, prettify),
        process_label(exe, comm, None, prettify) is Some ==> process_label(
            exe,
            comm,
            cmdline,
            prettify,
        ) == process_label(exe, comm, None, prettify),
{
}

/// The bytes that a process keeps in memory, from its `statm` file where it
/// could be read. None where that does not tell, or it keeps none.
pub open spec fn resident(statm: Option<Seq<char>>, page_size: u64) -> Option<u64> {
    match statm {
        Some(text) => match statm_rss(encode_utf8(text), page_size) {
            Some(rss) => if rss > 0 {
                Some(rss)
            } else {
                None
            },
            None => None,
        },
        None => None,
    }
}

/// The text that there may be, as a mathematical value.
pub open spec fn text_view(text: Option<&str>) -> Option<Seq<char>> {
    match text {
        Some(text) => Some(text@),
        None => None,
    }
}

/// The bytes that a process keeps in memory, where its `statm` file tells some.
pub fn resident_bytes(statm: Option<&str>, page_size: u64) -> (r: Option<u64>)
    ensures
        r == resident(text_view(statm), page_size),
{
    let rss = match statm {
        Some(text) => parse_statm_rss(text, page_size),
        None => None,
    };
    match rss {
        Some(rss) => if rss > 0 {
            Some(rss)
        } else {
            None
        },
        None => None,
    }
}

/// The reading that an entry of `/proc` gives: none where it is no process, or
/// its bytes or its name are not known, or it keeps nothing in memory.
pub open spec fn entry_reading(entry: ProcEntry, page_size: u64) -> Option<Reading> {
    let statm = match entry.statm {
        Some(text) => Some(text@),
        None => None,
    };
    if !all_digits(entry.filename@) {
        None
    } else {
        match (resident(statm, page_size), entry.name) {
            (Some(rss), Some(name)) => Some(Reading { name: name@, rss }),
            _ => None,
        }
    }
}

/// The readings that the entries give.
pub open spec fn entry_readings(entries: Seq<ProcEntry>, page_size: u64) -> Seq<Reading> {
    present(entries.map_values(|entry: ProcEntry| entry_reading(entry, page_size)))
}

/// Every reading tells of some memory, so no process without any is counted.
pub proof fn law_readings_keep_memory(entries: Seq<ProcEntry>, page_size: u64, i: int)
    requires
        0 <= i < entry_readings(entries, page_size).len(),
    ensures
        entry_readings(entries, page_size)[i].rss > 0,
{
    let all = entries.map_values(|entry: ProcEntry| entry_reading(entry, page_size));
    law_present_are_given(all, i);
    let k = choose|k: int| 0 <= k < all.len() && all[k] == Some(present(all)[i]);
    assert(all[k] == entry_reading(entries[k], page_size));
}

/// Whether a directory under `/proc` is that of a process: its name is a number.
pub fn is_process(filename: &[u8]) -> (r: bool)
    ensures
        r == all_digits(filename@),
{
    let mut i: usize = 0;
    while i < filename.len()
        invariant
            i <= filename.len(),
            forall|j: int| 0 <= j < i ==> is_digit(#[trigger] filename@[j]),
        decreases filename.len() - i,
    {
        if filename[i] < 0x30 || filename[i] > 0x39 {
            assert(!is_digit(filename@[i as int]));
            return false;
        }
        i += 1;
    }
    true
}

fn read_entry(entry: &ProcEntry, page_size: u64) -> (r: Option<ProcessReading>)
    ensures
        match r {
            Some(reading) => entry_reading(*entry, page_size) == Some(reading@),
            None => entry_reading(*entry, page_size) is None,
        },
{
    if !is_process(entry.filename.as_slice()) {
        return None;
    }
    let statm = match &entry.statm {
        Some(text) => Some(text.as_str()),
        None => None,
    };
    match (resident_bytes(statm, page_size), &entry.name) {
        (Some(rss), Some(name)) => Some(ProcessReading { name: name.clone(), rss }),
        _ => None,
    }
}

/// Gathers the processes among the entries under their names, and keeps the
/// `process_count` largest groups, the largest first.
pub fn process_groups(entries: &[ProcEntry], page_size: u64, process_count: usize) -> (r: Vec<
    ProcessGroup,
>)
    ensures
        group_views(r@) == top(tally(entry_readings(entries@, page_size)), process_count as nat),
{
    let ghost all = entries@.map_values(|entry: ProcEntry| entry_reading(entry, page_size));
    let mut readings: Vec<ProcessReading> = Vec::new();
    let mut i: usize = 0;
    assert(reading_views(readings@) =~= present(all.take(0)));
    while i < entries.len()
        invariant
            i <= entries.len(),
            all == entries@.map_values(|entry: ProcEntry| entry_reading(entry, page_size)),
            reading_views(readings@) == present(all.take(i as int)),
        decreases entries.len() - i,
    {
        let ghost before = reading_views(readings@);
        proof {
            assert(all.take(i + 1).drop_last() =~= all.take(i as int));
            assert(all.take(i + 1).last() == entry_reading(entries@[i as int], page_size));
        }
        if let Some(reading) = read_entry(&entries[i], page_size) {
            readings.push(reading);
            assert(reading_views(readings@) =~= before.push(reading@));
        }
        i += 1;
    }
    assert(all.take(entries.len() as int) =~= all);
    rank_process_groups(tally_processes(readings.as_slice()), process_count)
}

/// Puts a report together. Where `/proc/meminfo` could not be read there is
/// none, but the error that reading it gave.
pub fn collect<E>(
    hostname: String,
    meminfo_text: Result<String, E>,
    devices: &[BlockDevice],
    entries: &[ProcEntry],
    page_size: u64,
    process_count: usize,
) -> (r: Result<Snapshot, E>)
    ensures
        match meminfo_text {
            Ok(text) => {
                &&& r matches Ok(snapshot)
                &&& snapshot.hostname == hostname
                &&& snapshot.memory == meminfo_figures(encode_utf8(text@))
                &&& snapshot.details == (PlatformDetails::Linux { zram: zram_totals(devices@) })
                &&& group_views(snapshot.groups@) == top(
                    tally(entry_readings(entries@, page_size)),
                    process_count as nat,
                )
            },
            Err(error) => r == Err::<Snapshot, E>(error),
        },
{
    match meminfo(meminfo_text) {
        Ok(memory) => Ok(
            Snapshot {
                hostname,
                memory,
                details: PlatformDetails::Linux { zram: zram_info(devices) },
                groups: process_groups(entries, page_size, process_count),
            },
        ),
        Err(error) => Err(error),
    }
}

/// Two sums that are held within the range of `u64` make one that is.
proof fn lemma_saturated_sum(a: nat, b: nat)
    ensures
        saturated((a + b) as int) == (if saturated(a as int) + saturated(b as int)
            <= 0xffff_ffff_ffff_ffff {
            saturated(a as int) + saturated(b as int)
        } else {
            0xffff_ffff_ffff_ffff
        }),
{
}

/// The sums over two lists of devices are together those over both.
proof fn lemma_sums_add(a: Seq<BlockDevice>, b: Seq<BlockDevice>)
    ensures
        zram_sums(a + b) == (ZramSums {
            configured: zram_sums(a).configured + zram_sums(b).configured,
            data: zram_sums(a).data + zram_sums(b).data,
            compressed: zram_sums(a).compressed + zram_sums(b).compressed,
            memory_used: zram_sums(a).memory_used + zram_sums(b).memory_used,
        }),
    decreases b.len(),
{
    if b.len() == 0 {
        assert(a + b =~= a);
    } else {
        lemma_sums_add(a, b.drop_last());
        assert((a + b).drop_last() =~= a + b.drop_last());
        assert((a + b).last() == b.last());
    }
}

/// The totals of two lists of devices add up to those of both, each as far as
/// it can be told. So no device is lost, however many there are.
pub proof fn law_devices_add_up(
    a: &[BlockDevice],
    of_a: Zram,
    b: &[BlockDevice],
    of_b: Zram,
    both: &[BlockDevice],
    of_both: Zram,
)
    requires
        call_ensures(zram_info, (a,), of_a),
        call_ensures(zram_info, (b,), of_b),
        call_ensures(zram_info, (both,), of_both),
        both@ == a@ + b@,
    ensures
        of_both.configured == (if of_a.configured + of_b.configured <= 0xffff_ffff_ffff_ffff {
            of_a.configured + of_b.configured
        } else {
            0xffff_ffff_ffff_ffff
        }),
        of_both.data == (if of_a.data + of_b.data <= 0xffff_ffff_ffff_ffff {
            of_a.data + of_b.data
        } else {
            0xffff_ffff_ffff_ffff
        }),
        of_both.compressed == (if of_a.compressed + of_b.compressed <= 0xffff_ffff_ffff_ffff {
            of_a.compressed + of_b.compressed
        } else {
            0xffff_ffff_ffff_ffff
        }),
        of_both.memory_used == (if of_a.memory_used + of_b.memory_used <= 0xffff_ffff_ffff_ffff {
            of_a.memory_used + of_b.memory_used
        } else {
            0xffff_ffff_ffff_ffff
        }),
{
    lemma_sums_add(a@, b@);
    let (x, y) = (zram_sums(a@), zram_sums(b@));
    lemma_saturated_sum(x.configured, y.configured);
    lemma_saturated_sum(x.data, y.data);
    lemma_saturated_sum(x.compressed, y.compressed);
    lemma_saturated_sum(x.memory_used, y.memory_used);
}

/// Where there is no device, or none whose name starts with `zram`, all totals
/// are zero.
pub proof fn law_other_devices_do_not_count(devices: &[BlockDevice], r: Zram)
    requires
        call_ensures(zram_info, (devices,), r),
        devices@.len() <= 1,
        devices@.len() == 1 ==> {
            let name = devices@[0].name@;
            name.len() < 4 || name[0] != 0x7a || name[1] != 0x72 || name[2] != 0x61 || name[3]
                != 0x6d
        },
    ensures
        r.configured == 0,
        r.data == 0,
        r.compressed == 0,
        r.memory_used == 0,
{
    assert(zram_sums(Seq::<BlockDevice>::empty()).configured == 0);
    if devices@.len() == 1 {
        let name = devices@[0].name@;
        assert(devices@.drop_last() =~= Seq::<BlockDevice>::empty());
        if zram_prefix().is_prefix_of(name) {
            assert(zram_prefix()[0] == name.subrange(0, 4)[0]);
            assert(zram_prefix()[1] == name.subrange(0, 4)[1]);
            assert(zram_prefix()[2] == name.subrange(0, 4)[2]);
            assert(zram_prefix()[3] == name.subrange(0, 4)[3]);
        }
    }
}

/// A device whose name starts with `zram` counts with the number in its
/// `disksize` and the figures in its `mm_stat`. A file that was not read, or
/// does not tell, leaves zeros and has no say in the other.
pub proof fn law_one_device_counts_with_its_files(
    devices: &[BlockDevice],
    r: Zram,
    disksize: &str,
    size: Option<u64>,
    mm_stat_text: &str,
    stats: Option<Zram>,
)
    requires
        call_ensures(zram_info, (devices,), r),
        call_ensures(parse_single_u64, (disksize,), size),
        call_ensures(parse_zram_mm_stat, (mm_stat_text,), stats),
        devices@.len() == 1,
        devices@[0].name@.len() >= 4,
        devices@[0].name@[0] == 0x7a,
        devices@[0].name@[1] == 0x72,
        devices@[0].name@[2] == 0x61,
        devices@[0].name@[3] == 0x6d,
    ensures
        devices@[0].disksize is None ==> r.configured == 0,
        devices@[0].disksize matches Some(text) ==> text@ == disksize@ ==> r.configured == (
        match size {
            Some(bytes) => bytes,
            None => 0,
        }),
        devices@[0].mm_stat is None ==> r.data == 0 && r.compressed == 0 && r.memory_used == 0,
        devices@[0].mm_stat matches Some(text) ==> text@ == mm_stat_text@ ==> (match stats {
            Some(stats) => r.data == stats.data && r.compressed == stats.compressed
                && r.memory_used == stats.memory_used,
            None => r.data == 0 && r.compressed == 0 && r.memory_used == 0,
        }),
{
    let name = devices@[0].name@;
    assert(zram_prefix() =~= name.subrange(0, 4));
    assert(devices@.drop_last() =~= Seq::<BlockDevice>::empty());
    assert(zram_sums(devices@.drop_last()).configured == 0);
}

/// The page size is that of the auxiliary vector, where it tells one, and else
/// that of four kibibytes.
pub proof fn law_page_size_is_the_told_one(
    auxv: Option<&[u8]>,
    word: usize,
    little: bool,
    r: u64,
    bytes: &[u8],
    told: Option<u64>,
)
    requires
        word == 4 || word == 8,
        call_ensures(page_size, (auxv, word, little), r),
        call_ensures(parse_auxv_page_size, (bytes, word, little), told),
        auxv matches Some(read) ==> read@ == bytes@,
    ensures
        auxv is None || told is None ==> r == 4096,
        auxv is Some ==> (told matches Some(size) ==> r == size),
{
}

/// The host bears the name in its file, without the blanks around it, or a
/// fixed one where there is none.
pub proof fn law_host_bears_the_name_in_its_file(
    bytes: Option<&[u8]>,
    r: Label<Vec<u8>>,
    front: Seq<u8>,
    name: Seq<u8>,
    back: Seq<u8>,
)
    requires
        call_ensures(hostname, (bytes,), r),
        bytes matches Some(read) ==> read@ == front + name + back,
        all_blanks(front),
        all_blanks(back),
        name.len() > 0 ==> !is_blank(name[0]) && !is_blank(name.last()),
    ensures
        bytes is None || name.len() == 0 ==> r@ == LabelView::<Seq<u8>>::Fixed("linux"@),
        bytes is Some && name.len() > 0 ==> r@ == LabelView::<Seq<u8>>::Sanitize(lossy_text(name)),
        bytes is Some && name.len() > 0 && valid_utf8(name) ==> r@ == LabelView::<
            Seq<u8>,
        >::Sanitize(decode_utf8(name)),
{
    law_blanks_are_trimmed(front, name, back);
}

/// The label of a program whose file name, or else whose whole path, is
/// `component`.
proof fn lemma_program_label(
    target: Seq<u8>,
    component: Seq<u8>,
    comm: Option<Seq<u8>>,
    cmdline: Option<Seq<u8>>,
    prettify: bool,
)
    requires
        match file_name_of(target) {
            Some(name) => name == component,
            None => target == component,
        },
        without_end(lossy_text(component), " (deleted)"@).len() > 0,
    ensures
        process_label(Some(target), comm, cmdline, prettify) == Some(
            program_view(
                without_end(lossy_text(component), " (deleted)"@),
                target,
                prettify,
            ),
        ),
{
}

/// Some text stands in bytes that are not empty.
proof fn lemma_text_is_not_empty(bytes: Seq<u8>)
    requires
        valid_utf8(bytes),
        bytes.len() > 0,
    ensures
        decode_utf8(bytes).len() > 0,
{
}

/// A process is named by the file name in the path of its program, exactly as
/// it is there, whatever the directory and whatever else is known. Where it is
/// to be cleaned, the whole path goes with it.
pub proof fn law_program_names_the_process(
    exe: &[u8],
    comm: Option<&[u8]>,
    cmdline: Option<&[u8]>,
    prettify: bool,
    r: Option<Label<Vec<u8>>>,
    dir: Seq<u8>,
    name: Seq<u8>,
)
    requires
        call_ensures(process_name, (Some(exe), comm, cmdline, prettify), r),
        exe@ == dir + seq![0x2fu8] + name || exe@ == name || file_name_of(exe@) == Some(name),
        is_name(name),
        valid_utf8(name) || lossy_text(name).len() > 0,
        !" (deleted)"@.is_suffix_of(lossy_text(name)),
    ensures
        prettify ==> label_view(r) == Some(
            LabelView::Clean { name: lossy_text(name), path: exe@ },
        ),
        !prettify ==> label_view(r) == Some(LabelView::<Seq<u8>>::Sanitize(lossy_text(name))),
        valid_utf8(name) ==> lossy_text(name) == decode_utf8(name),
{
    law_file_name_is_the_last_name(dir, name);
    if valid_utf8(name) {
        lemma_text_is_not_empty(name);
    }
    lemma_program_label(exe@, name, bytes_view(comm), bytes_view(cmdline), prettify);
}

/// The mark of a deleted file behind the path of its program makes no
/// difference to the name.
pub proof fn law_deleted_program_keeps_its_name(
    exe: &[u8],
    comm: Option<&[u8]>,
    cmdline: Option<&[u8]>,
    prettify: bool,
    r: Option<Label<Vec<u8>>>,
    dir: Seq<u8>,
    name: Seq<u8>,
)
    requires
        call_ensures(process_name, (Some(exe), comm, cmdline, prettify), r),
        exe@ == dir + seq![0x2fu8] + name + encode_utf8(" (deleted)"@),
        name.len() > 0,
        lacks(name, 0x2f),
        valid_utf8(name),
    ensures
        prettify ==> label_view(r) == Some(
            LabelView::Clean { name: decode_utf8(name), path: exe@ },
        ),
        !prettify ==> label_view(r) == Some(LabelView::<Seq<u8>>::Sanitize(decode_utf8(name))),
{
    let mark = encode_utf8(" (deleted)"@);
    let component = name + mark;
    lemma_deleted_mark();
    assert forall|i: int| 0 <= i < component.len() implies #[trigger] component[i] != 0x2f by {
        if i < name.len() {
            assert(component[i] == name[i]);
        } else {
            assert(component[i] == mark[i - name.len()]);
        }
    }
    assert(dir + seq![0x2fu8] + name + mark =~= dir + seq![0x2fu8] + component);
    law_file_name_is_the_last_name(dir, component);
    valid_utf8_concat(name, mark);
    assert(component[name.len() as int] == mark[0]);
    is_char_boundary_iff_not_is_continuation_byte(component, name.len() as int);
    decode_utf8_split(component, name.len() as int);
    assert(component.subrange(0, name.len() as int) =~= name);
    assert(component.subrange(name.len() as int, component.len() as int) =~= mark);
    encode_utf8_decode_utf8(" (deleted)"@);
    law_end_is_taken_off_once(decode_utf8(name), " (deleted)"@);
    lemma_text_is_not_empty(name);
    lemma_program_label(exe@, component, bytes_view(comm), bytes_view(cmdline), prettify);
}

/// Of the text of the last component, or of the whole path where it has no file
/// name, just one mark of a deleted file at the end is taken off. What is left
/// is the name; where nothing is left, the program counts as if it were not
/// known.
pub proof fn law_one_deleted_mark_is_taken_off(
    exe: &[u8],
    comm: Option<&[u8]>,
    cmdline: Option<&[u8]>,
    prettify: bool,
    r: Option<Label<Vec<u8>>>,
    without: Option<Label<Vec<u8>>>,
    component: Seq<u8>,
    text: Seq<char>,
)
    requires
        call_ensures(process_name, (Some(exe), comm, cmdline, prettify), r),
        call_ensures(process_name, (None::<&[u8]>, comm, cmdline, prettify), without),
        match file_name_of(exe@) {
            Some(name) => component == name,
            None => component == exe@,
        },
        lossy_text(component) == text + " (deleted)"@ || (lossy_text(component) == text
            && !" (deleted)"@.is_suffix_of(text)),
    ensures
        text.len() > 0 && prettify ==> label_view(r) == Some(
            LabelView::Clean { name: text, path: exe@ },
        ),
        text.len() > 0 && !prettify ==> label_view(r) == Some(
            LabelView::<Seq<u8>>::Sanitize(text),
        ),
        text.len() == 0 ==> label_view(r) == label_view(without),
{
    law_end_is_taken_off_once(text, " (deleted)"@);
    if text.len() > 0 {
        lemma_program_label(exe@, component, bytes_view(comm), bytes_view(cmdline), prettify);
    }
}

/// The mark of a deleted file is text of ten bytes, without a slash, that
/// starts with a space.
proof fn lemma_deleted_mark()
    ensures
        encode_utf8(" (deleted)"@).len() == 10,
        lacks(encode_utf8(" (deleted)"@), 0x2f),
        encode_utf8(" (deleted)"@)[0] == 0x20,
        valid_utf8(encode_utf8(" (deleted)"@)),
{
    reveal_strlit(" (deleted)");
    let mark = " (deleted)"@;
    assert(is_ascii_chars(mark));
    is_ascii_chars_encode_utf8(mark);
    encode_utf8_valid_utf8(mark);
    assert(mark[0] == ' ');
    assert forall|i: int| 0 <= i < 10 implies #[trigger] encode_utf8(mark)[i] != 0x2f by {
        assert(mark[i] as u8 == encode_utf8(mark)[i]);
    }
}

/// A program whose path has no file name is named by the whole path.
pub proof fn law_path_without_a_file_name_stands_for_itself(
    exe: &[u8],
    comm: Option<&[u8]>,
    cmdline: Option<&[u8]>,
    prettify: bool,
    r: Option<Label<Vec<u8>>>,
)
    requires
        call_ensures(process_name, (Some(exe), comm, cmdline, prettify), r),
        file_name_of(exe@) is None,
        exe@.len() > 0,
        valid_utf8(exe@),
        !" (deleted)"@.is_suffix_of(decode_utf8(exe@)),
    ensures
        prettify ==> label_view(r) == Some(
            LabelView::Clean { name: decode_utf8(exe@), path: exe@ },
        ),
        !prettify ==> label_view(r) == Some(LabelView::<Seq<u8>>::Sanitize(decode_utf8(exe@))),
{
    lemma_text_is_not_empty(exe@);
    lemma_program_label(exe@, exe@, bytes_view(comm), bytes_view(cmdline), prettify);
}

/// A program without a name, be its path empty or nothing but the mark of a
/// deleted file behind the last slash, counts as if it were not known.
pub proof fn law_nameless_program_is_passed_over(
    exe: &[u8],
    comm: Option<&[u8]>,
    cmdline: Option<&[u8]>,
    prettify: bool,
    r: Option<Label<Vec<u8>>>,
    without: Option<Label<Vec<u8>>>,
    dir: Seq<u8>,
)
    requires
        call_ensures(process_name, (Some(exe), comm, cmdline, prettify), r),
        call_ensures(process_name, (None::<&[u8]>, comm, cmdline, prettify), without),
        exe@.len() == 0 || exe@ == dir + seq![0x2fu8] + encode_utf8(" (deleted)"@),
    ensures
        label_view(r) == label_view(without),
{
    let mark = " (deleted)"@;
    let empty = Seq::<char>::empty();
    reveal_strlit(" (deleted)");
    if exe@.len() == 0 {
        law_no_file_name(dir);
        assert(exe@ =~= Seq::<u8>::empty());
        assert(decode_utf8(exe@) =~= empty);
        assert(!mark.is_suffix_of(empty));
        law_end_is_taken_off_once(empty, mark);
    } else {
        lemma_deleted_mark();
        law_file_name_is_the_last_name(dir, encode_utf8(mark));
        law_text_is_read_back(mark);
        law_end_is_taken_off_once(empty, mark);
        assert(empty + mark =~= mark);
    }
}

/// Where no program names it, a process is named by its command, without the
/// blanks around it, whatever its command line.
pub proof fn law_command_names_the_process(
    comm: &[u8],
    cmdline: Option<&[u8]>,
    prettify: bool,
    r: Option<Label<Vec<u8>>>,
    front: Seq<u8>,
    name: Seq<u8>,
    back: Seq<u8>,
)
    requires
        call_ensures(process_name, (None::<&[u8]>, Some(comm), cmdline, prettify), r),
        comm@ == front + name + back,
        all_blanks(front),
        all_blanks(back),
        name.len() > 0,
        !is_blank(name[0]),
        !is_blank(name.last()),
    ensures
        label_view(r) == Some(LabelView::<Seq<u8>>::Sanitize(lossy_text(name))),
        valid_utf8(name) ==> label_view(r) == Some(
            LabelView::<Seq<u8>>::Sanitize(decode_utf8(name)),
        ),
{
    law_blanks_are_trimmed(front, name, back);
}

/// Where neither names it, a process is named by the first word of its command
/// line, up to the first zero byte, from the last slash in it on.
pub proof fn law_command_line_names_the_process(
    comm: Option<&[u8]>,
    cmdline: &[u8],
    prettify: bool,
    r: Option<Label<Vec<u8>>>,
    dir: Seq<u8>,
    name: Seq<u8>,
    rest: Seq<u8>,
)
    requires
        call_ensures(process_name, (None::<&[u8]>, comm, Some(cmdline), prettify), r),
        comm matches Some(comm) ==> all_blanks(comm@),
        ({
            let first = dir + seq![0x2fu8] + name;
            ||| lacks(first, 0) && (cmdline@ == first || cmdline@ == first + seq![0u8] + rest)
            ||| lacks(name, 0) && (cmdline@ == name || cmdline@ == name + seq![0u8] + rest)
        }),
        lacks(name, 0x2f),
    ensures
        name.len() > 0 ==> label_view(r) == Some(LabelView::<Seq<u8>>::Sanitize(lossy_text(name))),
        name.len() > 0 && valid_utf8(name) ==> label_view(r) == Some(
            LabelView::<Seq<u8>>::Sanitize(decode_utf8(name)),
        ),
        name.len() == 0 ==> r is None,
{
    let none = Seq::<u8>::empty();
    if let Some(comm) = comm {
        law_blanks_are_trimmed(comm@, none, none);
        assert(comm@ + none + none =~= comm@);
    }
    let first = dir + seq![0x2fu8] + name;
    law_after_last_mark(dir, SLASH, name);
    if lacks(first, 0) && (cmdline@ == first || cmdline@ == first + seq![0u8] + rest) {
        law_before_first_mark(first, 0, rest);
    } else {
        law_before_first_mark(name, 0, rest);
    }
}

/// A process that nothing is known of has no name.
pub proof fn law_nothing_known_is_no_name(
    comm: Option<&[u8]>,
    prettify: bool,
    r: Option<Label<Vec<u8>>>,
)
    requires
        call_ensures(process_name, (None::<&[u8]>, comm, None::<&[u8]>, prettify), r),
        comm matches Some(comm) ==> all_blanks(comm@),
    ensures
        r is None,
{
    let none = Seq::<u8>::empty();
    if let Some(comm) = comm {
        law_blanks_are_trimmed(comm@, none, none);
        assert(comm@ + none + none =~= comm@);
    }
}

/// Just the names that are made of digits alone are those of processes.
pub proof fn law_processes_have_numbers(filename: &[u8], r: bool)
    requires
        call_ensures(is_process, (filename,), r),
    ensures
        r <==> forall|i: int| 0 <= i < filename@.len() ==> 0x30 <= #[trigger] filename@[i] <= 0x39,
{
    if r {
        assert forall|i: int| 0 <= i < filename@.len() implies 0x30 <= #[trigger] filename@[i]
            <= 0x39 by {
            assert(is_digit(filename@[i]));
        }
    } else {
        let i = choose|i: int| 0 <= i < filename@.len() && !is_digit(#[trigger] filename@[i]);
        assert(!(0x30 <= filename@[i] <= 0x39));
    }
}

/// What a process keeps in memory is what its `statm` file tells, where that
/// is more than nothing.
pub proof fn law_resident_bytes_are_told_by_statm(
    statm: &str,
    page_size: u64,
    r: Option<u64>,
    told: Option<u64>,
    without: Option<u64>,
)
    requires
        call_ensures(resident_bytes, (Some(statm), page_size), r),
        call_ensures(parse_statm_rss, (statm, page_size), told),
        call_ensures(resident_bytes, (None::<&str>, page_size), without),
    ensures
        without is None,
        r is Some <==> (told matches Some(rss) && rss > 0),
        r is Some ==> r == told,
{
}

/// An entry counts: its name is a number, it has a name to show, and its `statm`
/// file tells that it keeps something in memory.
pub open spec fn counts(page_size: u64) -> spec_fn(ProcEntry) -> bool {
    |entry: ProcEntry|
        {
            &&& forall|i: int|
                0 <= i < entry.filename@.len() ==> 0x30 <= #[trigger] entry.filename@[i] <= 0x39
            &&& entry.name is Some
            &&& entry.statm is Some
            &&& statm_rss(encode_utf8(entry.statm->0@), page_size) matches Some(rss)
            &&& rss > 0
        }
}

/// The name and the bytes of an entry that counts.
pub open spec fn counted(entry: ProcEntry, page_size: u64) -> Reading {
    Reading {
        name: entry.name->0@,
        rss: statm_rss(encode_utf8(entry.statm->0@), page_size)->0,
    }
}

/// Just the entries that count give a reading, with their name and bytes.
proof fn lemma_entry_counts(entry: ProcEntry, page_size: u64)
    ensures
        counts(page_size)(entry) ==> entry_reading(entry, page_size) == Some(
            counted(entry, page_size),
        ),
        !counts(page_size)(entry) ==> entry_reading(entry, page_size) is None,
{
    let digits = forall|i: int|
        0 <= i < entry.filename@.len() ==> 0x30 <= #[trigger] entry.filename@[i] <= 0x39;
    if digits {
        assert forall|i: int| 0 <= i < entry.filename@.len() implies is_digit(
            #[trigger] entry.filename@[i],
        ) by {
            assert(0x30 <= entry.filename@[i] <= 0x39);
        }
    } else if all_digits(entry.filename@) {
        assert forall|i: int| 0 <= i < entry.filename@.len() implies 0x30
            <= #[trigger] entry.filename@[i] <= 0x39 by {
            assert(is_digit(entry.filename@[i]));
        }
    }
}

/// No process is lost: each entry that counts is among the readings that are
/// gathered, with its name and its bytes, wherever in the list it stands.
pub proof fn law_no_process_is_lost(entries: Seq<ProcEntry>, page_size: u64, i: int)
    requires
        0 <= i < entries.len(),
        counts(page_size)(entries[i]),
    ensures
        entry_readings(entries, page_size).contains(counted(entries[i], page_size)),
{
    let all = entries.map_values(|entry: ProcEntry| entry_reading(entry, page_size));
    lemma_entry_counts(entries[i], page_size);
    assert(all[i] == entry_reading(entries[i], page_size));
    law_given_are_present(all, i);
}

/// There are as many readings as entries that count, and they stand in the
/// order of the entries.
pub proof fn law_each_process_is_read_once(entries: Seq<ProcEntry>, page_size: u64)
    ensures
        entry_readings(entries, page_size) == entries.filter(counts(page_size)).map_values(
            |entry: ProcEntry| counted(entry, page_size),
        ),
        entry_readings(entries, page_size).len() == entries.filter(counts(page_size)).len(),
    decreases entries.len(),
{
    reveal(Seq::filter);
    let all = entries.map_values(|entry: ProcEntry| entry_reading(entry, page_size));
    if entries.len() > 0 {
        let front = entries.drop_last();
        law_each_process_is_read_once(front, page_size);
        lemma_entry_counts(entries.last(), page_size);
        assert(all.drop_last() =~= front.map_values(
            |entry: ProcEntry| entry_reading(entry, page_size),
        ));
        assert(all.last() == entry_reading(entries.last(), page_size));
        if counts(page_size)(entries.last()) {
            assert(entries.filter(counts(page_size)) == front.filter(counts(page_size)).push(
                entries.last(),
            ));
        } else {
            assert(entries.filter(counts(page_size)) == front.filter(counts(page_size)));
        }
    }
    assert(entry_readings(entries, page_size) =~= entries.filter(counts(page_size)).map_values(
        |entry: ProcEntry| counted(entry, page_size),
    ));
}

/// Every group that is shown has all the entries that count under its name and
/// all their bytes, no name is shown twice, and the largest group is first.
pub proof fn law_shown_groups_have_all_their_processes(
    entries: &[ProcEntry],
    page_size: u64,
    process_count: usize,
    r: Vec<ProcessGroup>,
)
    requires
        call_ensures(process_groups, (entries, page_size, process_count), r),
    ensures
        r@.len() <= process_count,
        forall|k: int|
            0 <= k < r@.len() ==> {
                let group = #[trigger] r@[k];
                let readings = entries@.filter(counts(page_size)).map_values(
                    |entry: ProcEntry| counted(entry, page_size),
                );
                let bytes = bytes_under(readings, group.name@);
                &&& group.count > 0
                &&& group.count == readings.filter(bears(group.name@)).len()
                &&& group.rss == (if bytes <= 0xffff_ffff_ffff_ffff {
                    bytes
                } else {
                    0xffff_ffff_ffff_ffff
                })
            },
        forall|j: int, k: int|
            0 <= j < k < r@.len() ==> (#[trigger] r@[j]).rss >= (#[trigger] r@[k]).rss
                && r@[j].name@ != r@[k].name@,
{
    let readings = entry_readings(entries@, page_size);
    let shown = top(tally(readings), process_count as nat);
    law_each_process_is_read_once(entries@, page_size);
    law_shown_groups_are_whole(readings, process_count as nat);
    assert(forall|k: int| 0 <= k < r@.len() ==> shown[k] == (#[trigger] r@[k])@);
    assert(shown.len() == r@.len());
}

/// Every entry that counts is shown in the group of its name, unless as many
/// groups as are asked for are shown and none of them is smaller.
pub proof fn law_no_large_process_is_missing(
    entries: &[ProcEntry],
    page_size: u64,
    process_count: usize,
    r: Vec<ProcessGroup>,
    i: int,
)
    requires
        call_ensures(process_groups, (entries, page_size, process_count), r),
        0 <= i < entries@.len(),
        counts(page_size)(entries@[i]),
    ensures
        (exists|k: int|
            0 <= k < r@.len() && (#[trigger] r@[k]).name@ == entries@[i].name->0@) || (r@.len()
            == process_count && forall|k: int|
            0 <= k < r@.len() ==> (#[trigger] r@[k]).rss >= statm_rss(
                encode_utf8(entries@[i].statm->0@),
                page_size,
            )->0),
{
    let readings = entry_readings(entries@, page_size);
    let shown = top(tally(readings), process_count as nat);
    assert(shown.len() == r@.len());
    assert(forall|k: int| 0 <= k < r@.len() ==> shown[k] == (#[trigger] r@[k])@);
    law_no_process_is_lost(entries@, page_size, i);
    let at = choose|at: int|
        0 <= at < readings.len() && readings[at] == counted(entries@[i], page_size);
    law_no_larger_process_is_left_out(readings, process_count as nat, at);
    if exists|k: int| 0 <= k < shown.len() && (#[trigger] shown[k]).name == readings[at].name {
        let k = choose|k: int|
            0 <= k < shown.len() && (#[trigger] shown[k]).name == readings[at].name;
        assert(r@[k]@ == shown[k]);
        assert(r@[k].name@ == entries@[i].name->0@);
    } else {
        assert forall|k: int| 0 <= k < r@.len() implies (#[trigger] r@[k]).rss
            >= readings[at].rss by {
            assert(shown[k].rss >= readings[at].rss);
        }
    }
}

/// A report puts together what its parts give: the memory figures of `meminfo`,
/// the totals of the devices and the groups of the processes. Where `meminfo`
/// could not be read there is only that error.
pub proof fn law_report_is_made_of_its_parts<E>(
    hostname: String,
    meminfo_text: Result<String, E>,
    devices: &[BlockDevice],
    entries: &[ProcEntry],
    page_size: u64,
    process_count: usize,
    r: Result<Snapshot, E>,
    text: &str,
    memory: Memory,
    zram: Zram,
    groups: Vec<ProcessGroup>,
)
    requires
        call_ensures(
            collect::<E>,
            (hostname, meminfo_text, devices, entries, page_size, process_count),
            r,
        ),
        call_ensures(parse_meminfo, (text,), memory),
        call_ensures(zram_info, (devices,), zram),
        call_ensures(process_groups, (entries, page_size, process_count), groups),
        meminfo_text matches Ok(read) ==> read@ == text@,
    ensures
        meminfo_text matches Err(error) ==> r == Err::<Snapshot, E>(error),
        meminfo_text is Ok ==> {
            &&& r matches Ok(snapshot)
            &&& snapshot.hostname == hostname
            &&& snapshot.memory == memory
            &&& snapshot.details == (PlatformDetails::Linux { zram })
            &&& snapshot.groups@.len() == groups@.len()
            &&& forall|k: int|
                0 <= k < groups@.len() ==> {
                    &&& (#[trigger] snapshot.groups@[k]).name@ == groups@[k].name@
                    &&& snapshot.groups@[k].count == groups@[k].count
                    &&& snapshot.groups@[k].rss == groups@[k].rss
                }
        },
{
    if let Ok(snapshot) = r {
        let (a, b) = (group_views(snapshot.groups@), group_views(groups@));
        assert(meminfo_text is Ok ==> a == b);
        assert(a.len() == snapshot.groups@.len());
        assert(b.len() == groups@.len());
        assert forall|k: int| 0 <= k < groups@.len() && a == b implies {
            &&& (#[trigger] snapshot.groups@[k]).name@ == groups@[k].name@
            &&& snapshot.groups@[k].count == groups@[k].count
            &&& snapshot.groups@[k].rss == groups@[k].rss
        } by {
            assert(a[k] == snapshot.groups@[k]@);
            assert(b[k] == groups@[k]@);
        }
    }
}

/// The figures of `meminfo` are those that its text tells, and an error in
/// reading it stays that error.
pub proof fn law_meminfo_is_read_or_fails<E>(
    read: Result<String, E>,
    r: Result<Memory, E>,
    text: &str,
    memory: Memory,
)
    requires
        call_ensures(meminfo::<E>, (read,), r),
        call_ensures(parse_meminfo, (text,), memory),
        read matches Ok(read) ==> read@ == text@,
    ensures
        read is Ok ==> r == Ok::<Memory, E>(memory),
        read matches Err(error) ==> r == Err::<Memory, E>(error),
{
}

} // verus!
