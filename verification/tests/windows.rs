use ram::groups::ProcessSample;
use ram::snapshot::PlatformDetails;
use ram::text::Label;
use ram::windows::{
    collect, enable_virtual_terminal_processing, has_console, hostname, pages, pids,
    pids_buffer_bytes, process_groups, process_memory, process_name, MemoryStatusEx,
    PerformanceInformation, PidsStep, FIRST_PID_CAPACITY, LAST_PID_CAPACITY,
};

fn units(text: &str) -> Vec<u16> {
    text.encode_utf16().collect()
}

fn label(label: Option<Label<String>>) -> Option<(char, String)> {
    label.map(|label| match label {
        Label::Clean { name, .. } => ('c', name),
        Label::Sanitize(name) => ('s', name),
        Label::Fixed(name) => ('f', name),
    })
}

fn cleaned_path(label: Option<Label<String>>) -> Option<String> {
    match label {
        Some(Label::Clean { path, .. }) => Some(path),
        _ => None,
    }
}

fn step(step: PidsStep) -> Result<Vec<u32>, usize> {
    match step {
        PidsStep::Done(pids) => Ok(pids),
        PidsStep::Enumerate(capacity) => Err(capacity),
    }
}

fn performance() -> PerformanceInformation {
    PerformanceInformation {
        commit_total: 30,
        commit_limit: 40,
        system_cache: 20,
        page_size: 4096,
    }
}

#[test]
fn windows_pages_saturate() {
    assert_eq!(pages(3, 4096), 12288);
    assert_eq!(pages(usize::MAX, u64::MAX), u64::MAX);
    assert_eq!(pages(0, 4096), 0);
}

#[test]
fn windows_report_is_put_together() {
    let status = MemoryStatusEx { total_phys: 1000, avail_phys: 400 };
    let samples = vec![
        None,
        Some(ProcessSample { rss: Some(7), name: Some("a".to_string()) }),
        Some(ProcessSample { rss: Some(0), name: Some("b".to_string()) }),
        Some(ProcessSample { rss: None, name: Some("c".to_string()) }),
        Some(ProcessSample { rss: Some(9), name: None }),
    ];
    let snapshot =
        collect::<&str>("pc".to_string(), Ok(status), Ok(performance()), &samples, 10).unwrap();
    assert_eq!(snapshot.hostname, "pc");
    assert_eq!(snapshot.memory.total, 1000);
    assert_eq!(snapshot.memory.available, 400);
    assert_eq!(snapshot.memory.used(), 600);
    assert_eq!(snapshot.memory.cached, 20 * 4096);
    assert_eq!(snapshot.memory.commit_limit, 40 * 4096);
    assert_eq!(snapshot.memory.committed, 30 * 4096);
    assert_eq!(snapshot.memory.swap_total, 0);
    assert_eq!(snapshot.memory.swap_free, 0);
    assert_eq!(snapshot.details, PlatformDetails::Windows);
    assert_eq!(snapshot.groups.len(), 1);
    assert_eq!(snapshot.groups[0].name, "a");
    assert_eq!(snapshot.groups[0].rss, 7);
}

#[test]
fn available_stops_at_the_installed_memory() {
    let status = MemoryStatusEx { total_phys: 10, avail_phys: 11 };
    let snapshot = collect::<&str>(String::new(), Ok(status), Ok(performance()), &[], 1).unwrap();
    assert_eq!(snapshot.memory.available, 10);
    assert_eq!(snapshot.memory.used(), 0);
}

#[test]
fn windows_gives_the_first_error() {
    let status = MemoryStatusEx { total_phys: 10, avail_phys: 11 };
    let both = collect(String::new(), Err("status"), Err("performance"), &[], 1);
    assert_eq!(both.err(), Some("status"));
    let first = collect(String::new(), Err("status"), Ok(performance()), &[], 1);
    assert_eq!(first.err(), Some("status"));
    let second = collect(String::new(), Ok(status), Err("performance"), &[], 1);
    assert_eq!(second.err(), Some("performance"));
}

#[test]
fn windows_pids_are_not_zero() {
    assert_eq!(step(pids(1024, 1, 16, &[0, 4, 0, 8, 12])), Ok(vec![4, 8]));
    assert_eq!(step(pids(1024, 1, 7, &[3, 4])), Ok(vec![3]));
    assert_eq!(step(pids(1024, 1, 4095, &[3, 4])), Ok(vec![3, 4]));
    assert_eq!(step(pids(1024, 0, 8, &[3, 4])), Ok(vec![]));
}

#[test]
fn a_full_list_is_asked_for_again() {
    assert_eq!(step(pids(1024, 1, 4096, &[3])), Err(2048));
    assert_eq!(step(pids(1024, 0, 4096, &[3])), Ok(vec![]));
    assert_eq!(step(pids(524_288, 1, u32::MAX, &[3])), Err(LAST_PID_CAPACITY));
    assert_eq!(step(pids(524_289, 1, u32::MAX, &[3])), Ok(vec![]));
    assert_eq!(step(pids(usize::MAX, 1, 0, &[3])), Ok(vec![]));
}

#[test]
fn the_list_is_asked_for_eleven_times_at_most() {
    let mut capacity = FIRST_PID_CAPACITY;
    let mut calls = 1;
    loop {
        let bytes = pids_buffer_bytes(capacity).unwrap();
        match pids(capacity, 1, bytes, &[1]) {
            PidsStep::Enumerate(next) => {
                assert_eq!(next, 2 * capacity);
                capacity = next;
                calls += 1;
            }
            PidsStep::Done(found) => {
                assert!(found.is_empty());
                break;
            }
        }
    }
    assert_eq!(calls, 11);
    assert_eq!(capacity, LAST_PID_CAPACITY);
}

#[test]
fn list_sizes_are_told_in_bytes() {
    assert_eq!(pids_buffer_bytes(1024), Some(4096));
    assert_eq!(pids_buffer_bytes(0x3fff_ffff), Some(0xffff_fffc));
    assert_eq!(pids_buffer_bytes(0x4000_0000), None);
}

#[test]
fn windows_process_memory_needs_a_reply() {
    assert_eq!(process_memory(1, 77), Some(77));
    assert_eq!(process_memory(0, 77), None);
    assert_eq!(process_memory(1, 0), Some(0));
}

#[test]
fn windows_process_is_named_by_its_file() {
    let path = units("C:\\Program Files\\zen.exe\0\0");
    assert_eq!(
        label(process_name(1, 24, &path, true)),
        Some(('c', "zen.exe".to_string()))
    );
    assert_eq!(
        label(process_name(1, 24, &path, false)),
        Some(('s', "zen.exe".to_string()))
    );
    assert_eq!(
        label(process_name(1, 16, &path, false)),
        Some(('s', "Program Files".to_string()))
    );
    assert_eq!(
        label(process_name(1, 99, &units("a/b"), false)),
        Some(('s', "b".to_string()))
    );
    assert_eq!(label(process_name(0, 24, &path, true)), None);
    assert_eq!(label(process_name(1, 17, &path, true)), None);
    assert_eq!(label(process_name(1, 0, &path, true)), None);
}

#[test]
fn windows_path_is_cut_to_its_length() {
    let path = units("C:\\zen.exe\0\0");
    let cleaned = |length| cleaned_path(process_name(1, length, &path, true));
    assert_eq!(cleaned(10), Some("C:\\zen.exe".to_string()));
    assert_eq!(cleaned(6), Some("C:\\zen".to_string()));
    assert_eq!(cleaned(0), None);
    assert_eq!(cleaned(99), Some("C:\\zen.exe\0\0".to_string()));
    assert_eq!(cleaned_path(process_name(1, 10, &path, false)), None);
}

#[test]
fn surrogates_without_their_other_half_are_replaced() {
    let smile = [0xd83d, 0xde00];
    assert_eq!(
        label(process_name(1, 2, &smile, true)),
        Some(('c', "\u{1f600}".to_string()))
    );
    let broken = [0xde00, 0x41, 0xd83d, 0xd83d, 0xde00, 0xd83d];
    assert_eq!(
        label(process_name(1, 6, &broken, true)),
        Some(('c', "\u{fffd}A\u{fffd}\u{1f600}\u{fffd}".to_string()))
    );
}

#[test]
fn windows_hostname_is_cut_to_its_length() {
    let buffer = units("DESKTOP\0\0\0");
    assert_eq!(
        label(Some(hostname(1, 7, &buffer))),
        Some(('s', "DESKTOP".to_string()))
    );
    let fixed = Some(('f', "windows".to_string()));
    assert_eq!(label(Some(hostname(0, 7, &buffer))), fixed);
    assert_eq!(label(Some(hostname(1, 0, &buffer))), fixed);
}

#[test]
fn a_console_has_a_handle() {
    assert!(has_console(8));
    assert!(has_console(-2));
    assert!(!has_console(0));
    assert!(!has_console(-1));
}

#[test]
fn console_mode_keeps_its_flags() {
    assert_eq!(enable_virtual_terminal_processing(8, 1, 0b0011), Some(0b0111));
    assert_eq!(enable_virtual_terminal_processing(8, 1, 0b0100), Some(0b0100));
    assert_eq!(enable_virtual_terminal_processing(0, 1, 3), None);
    assert_eq!(enable_virtual_terminal_processing(-1, 1, 3), None);
    assert_eq!(enable_virtual_terminal_processing(8, 0, 3), None);
}

#[test]
fn windows_groups_are_ranked() {
    let sample = |name: &str, rss| Some(ProcessSample { rss: Some(rss), name: Some(name.to_string()) });
    let groups = process_groups(&[sample("a", 1), None, sample("b", 5), sample("a", 2)], 2);
    assert_eq!(groups[0].name, "b");
    assert_eq!(groups[1].name, "a");
    assert_eq!(groups[1].count, 2);
    assert_eq!(groups[1].rss, 3);
}
