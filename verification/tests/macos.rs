use ram::groups::ProcessSample;
use ram::layout::{
    ProcTaskInfo, RusageInfoV2, VmStatistics64, XswUsage, HOST_VM_INFO64_REV1_COUNT,
    PROC_TASK_INFO_SIZE, RI_PHYS_FOOTPRINT_OFFSET, RUSAGE_INFO_V2_SIZE, VM_STATISTICS64_SIZE,
    XSW_USAGE_SIZE,
};
use ram::macos::{
    collect, hostname, page_size, pages, pages_u64, pid_buffer, pids, process_groups,
    process_memory, process_name, statistics_message, vm_statistics, CallError, PidBuffer,
};
use ram::snapshot::{PlatformDetails, PressureLevel, Snapshot};
use ram::text::Label;

const GIB: u64 = 1024 * 1024 * 1024;

fn put_u32(buffer: &mut [u8], at: usize, value: u32) {
    buffer[at..at + 4].copy_from_slice(&value.to_le_bytes());
}

fn put_u64(buffer: &mut [u8], at: usize, value: u64) {
    buffer[at..at + 8].copy_from_slice(&value.to_le_bytes());
}

/// Statistics as the kernel writes them, in pages of 16 KiB.
fn vm_buffer() -> [u8; VM_STATISTICS64_SIZE] {
    let mut buffer = [0u8; VM_STATISTICS64_SIZE];
    put_u32(&mut buffer, 0, 10_000);
    put_u32(&mut buffer, 12, 65_536);
    put_u32(&mut buffer, 88, 36_864);
    put_u32(&mut buffer, 128, 16_384);
    put_u32(&mut buffer, 136, 100_000);
    put_u32(&mut buffer, 140, 167_936);
    put_u64(&mut buffer, 144, 50_000);
    buffer
}

fn sample(rss: Option<u64>, name: Option<&str>) -> ProcessSample {
    ProcessSample {
        rss,
        name: name.map(|name| name.to_string()),
    }
}

fn shown(snapshot: &Snapshot) -> Vec<(String, usize, u64)> {
    snapshot
        .groups
        .iter()
        .map(|group| (group.name.clone(), group.count, group.rss))
        .collect()
}

fn label(label: Option<Label<String>>) -> Option<(char, String)> {
    label.map(|label| match label {
        Label::Clean { name, .. } => ('c', name),
        Label::Sanitize(name) => ('s', name),
        Label::Fixed(name) => ('f', name),
    })
}

fn cleaned_path(label: Option<Label<String>>) -> Option<String> {
    match label {
        Some(Label::Clean { path, .. }) => Some(path),
        _ => None,
    }
}

#[test]
fn rev1_vm_statistics_matches_xnu_layout() {
    assert_eq!(VM_STATISTICS64_SIZE, 152);
    assert_eq!(
        VM_STATISTICS64_SIZE / std::mem::size_of::<i32>(),
        HOST_VM_INFO64_REV1_COUNT as usize
    );
    assert_eq!(XSW_USAGE_SIZE, 32);
    assert_eq!(PROC_TASK_INFO_SIZE, 96);
    assert_eq!(RUSAGE_INFO_V2_SIZE, 160);
    assert_eq!(RI_PHYS_FOOTPRINT_OFFSET, 72);

    assert_eq!(std::mem::size_of::<VmStatistics64>(), 152);
    assert_eq!(std::mem::size_of::<XswUsage>(), 32);
}

#[test]
fn live_snapshot_has_installed_ram() {
    let samples = vec![
        sample(Some(3 * GIB), Some("WindowServer")),
        sample(Some(GIB), Some("Finder")),
    ];
    let host = match hostname(0, b"studio\0\0") {
        Label::Clean { name, .. } | Label::Sanitize(name) | Label::Fixed(name) => name,
    };
    let vm = vm_statistics(0, &vm_buffer());
    let snapshot = collect(
        host,
        Ok(8 * GIB),
        vm,
        None,
        Some(1),
        16384,
        &samples,
        5,
    )
    .unwrap();
    assert!(snapshot.memory.total >= 512 * 1024 * 1024);
    assert!(snapshot.memory.used() <= snapshot.memory.total);
    assert!(matches!(snapshot.details, PlatformDetails::Macos { .. }));
    assert!(!snapshot.hostname.is_empty());
}

#[test]
fn statistics_are_read_from_their_places() {
    let mut buffer = [0u8; VM_STATISTICS64_SIZE];
    for i in 0..VM_STATISTICS64_SIZE {
        buffer[i] = i as u8;
    }
    let vm = VmStatistics64::decode(&buffer);
    assert_eq!(vm.free_count, 0x0302_0100);
    assert_eq!(vm.active_count, 0x0706_0504);
    assert_eq!(vm.inactive_count, 0x0b0a_0908);
    assert_eq!(vm.wire_count, 0x0f0e_0d0c);
    assert_eq!(vm.zero_fill_count, 0x1716_1514_1312_1110);
    assert_eq!(vm.reactivations, 0x1f1e_1d1c_1b1a_1918);
    assert_eq!(vm.pageins, 0x2726_2524_2322_2120);
    assert_eq!(vm.pageouts, 0x2f2e_2d2c_2b2a_2928);
    assert_eq!(vm.faults, 0x3736_3534_3332_3130);
    assert_eq!(vm.cow_faults, 0x3f3e_3d3c_3b3a_3938);
    assert_eq!(vm.lookups, 0x4746_4544_4342_4140);
    assert_eq!(vm.hits, 0x4f4e_4d4c_4b4a_4948);
    assert_eq!(vm.purges, 0x5756_5554_5352_5150);
    assert_eq!(vm.purgeable_count, 0x5b5a_5958);
    assert_eq!(vm.speculative_count, 0x5f5e_5d5c);
    assert_eq!(vm.decompressions, 0x6766_6564_6362_6160);
    assert_eq!(vm.compressions, 0x6f6e_6d6c_6b6a_6968);
    assert_eq!(vm.swapins, 0x7776_7574_7372_7170);
    assert_eq!(vm.swapouts, 0x7f7e_7d7c_7b7a_7978);
    assert_eq!(vm.compressor_page_count, 0x8382_8180);
    assert_eq!(vm.throttled_count, 0x8786_8584);
    assert_eq!(vm.external_page_count, 0x8b8a_8988);
    assert_eq!(vm.internal_page_count, 0x8f8e_8d8c);
    assert_eq!(
        vm.total_uncompressed_pages_in_compressor,
        0x9796_9594_9392_9190
    );
}

#[test]
fn every_byte_of_the_statistics_shows() {
    let zero = VmStatistics64::decode(&[0u8; VM_STATISTICS64_SIZE]);
    for i in 0..VM_STATISTICS64_SIZE {
        let mut buffer = [0u8; VM_STATISTICS64_SIZE];
        buffer[i] = 1;
        assert_ne!(VmStatistics64::decode(&buffer), zero);
    }
    let none = XswUsage::decode(&[0u8; XSW_USAGE_SIZE]);
    assert_eq!(none, XswUsage::default());
    for i in 0..XSW_USAGE_SIZE {
        let mut buffer = [0u8; XSW_USAGE_SIZE];
        buffer[i] = 0x80;
        assert_ne!(XswUsage::decode(&buffer), none);
    }
}

#[test]
fn small_structures_are_read_from_their_places() {
    let mut swap = [0u8; XSW_USAGE_SIZE];
    put_u64(&mut swap, 0, 11);
    put_u64(&mut swap, 8, 12);
    put_u64(&mut swap, 16, 13);
    put_u32(&mut swap, 24, 14);
    put_u32(&mut swap, 28, u32::MAX);
    let swap = XswUsage::decode(&swap);
    assert_eq!(
        swap,
        XswUsage {
            xsu_total: 11,
            xsu_avail: 12,
            xsu_used: 13,
            xsu_pagesize: 14,
            xsu_encrypted: -1,
        }
    );

    let mut task = [0u8; PROC_TASK_INFO_SIZE];
    put_u64(&mut task, 0, 21);
    put_u64(&mut task, 8, 22);
    let task = ProcTaskInfo::decode(&task);
    assert_eq!(task.pti_virtual_size, 21);
    assert_eq!(task.pti_resident_size, 22);

    let mut usage = [0u8; RUSAGE_INFO_V2_SIZE];
    put_u64(&mut usage, 72, 31);
    assert_eq!(RusageInfoV2::decode(&usage).ri_phys_footprint, 31);
}

#[test]
fn failed_statistics_give_what_the_call_returned() {
    assert_eq!(
        vm_statistics(5, &vm_buffer()),
        Err(CallError::Other("host_statistics64 failed with 5".to_string()))
    );
    assert_eq!(
        vm_statistics(-308, &vm_buffer()),
        Err(CallError::Other("host_statistics64 failed with -308".to_string()))
    );
    assert_eq!(statistics_message(0), "host_statistics64 failed with 0");
    assert_eq!(
        statistics_message(i32::MIN),
        "host_statistics64 failed with -2147483648"
    );
    assert!(vm_statistics(0, &vm_buffer()).is_ok());
}

#[test]
fn report_adds_up() {
    let swap = XswUsage {
        xsu_total: 3 * GIB,
        xsu_avail: 2 * GIB,
        xsu_used: GIB,
        xsu_pagesize: 16384,
        xsu_encrypted: 1,
    };
    let samples = vec![
        sample(Some(10), Some("a")),
        sample(None, Some("b")),
        sample(Some(0), Some("c")),
        sample(Some(30), None),
        sample(Some(25), Some("d")),
        sample(Some(20), Some("a")),
    ];
    let snapshot = collect(
        "studio".to_string(),
        Ok(8 * GIB),
        vm_statistics(0, &vm_buffer()),
        Some(swap),
        Some(4),
        16384,
        &samples,
        5,
    )
    .unwrap();
    assert_eq!(snapshot.hostname, "studio");
    // 2 GiB of programs, 1 GiB wired, 256 MiB of compressor.
    let used = 3 * GIB + GIB / 4;
    assert_eq!(snapshot.memory.total, 8 * GIB);
    assert_eq!(snapshot.memory.available, 8 * GIB - used);
    assert_eq!(snapshot.memory.used(), used);
    assert_eq!(snapshot.memory.cached, 100_000 * 16384);
    assert_eq!(snapshot.memory.swap_total, 3 * GIB);
    assert_eq!(snapshot.memory.swap_free, 2 * GIB);
    assert_eq!(snapshot.memory.commit_limit, 0);
    assert_eq!(snapshot.memory.committed, 0);
    assert_eq!(
        snapshot.details,
        PlatformDetails::Macos {
            pressure: PressureLevel::Critical,
            compressor_uncompressed: 50_000 * 16384,
            compressor_ram: GIB / 4,
        }
    );
    assert_eq!(
        shown(&snapshot),
        vec![("a".to_string(), 2, 30), ("d".to_string(), 1, 25)]
    );
}

#[test]
fn used_stops_at_the_installed_memory() {
    let snapshot = collect(
        String::new(),
        Ok(GIB),
        vm_statistics(0, &vm_buffer()),
        None,
        None,
        16384,
        &[],
        10,
    )
    .unwrap();
    assert_eq!(snapshot.memory.used(), GIB);
    assert_eq!(snapshot.memory.available, 0);
    assert_eq!(snapshot.memory.swap_total, 0);
    assert_eq!(snapshot.memory.swap_free, 0);
    assert!(matches!(
        snapshot.details,
        PlatformDetails::Macos {
            pressure: PressureLevel::Unknown(-1),
            ..
        }
    ));
    assert!(snapshot.groups.is_empty());
}

#[test]
fn purgeable_pages_beyond_the_internal_ones_leave_none() {
    let mut buffer = [0u8; VM_STATISTICS64_SIZE];
    put_u32(&mut buffer, 88, 7);
    put_u32(&mut buffer, 140, 5);
    put_u32(&mut buffer, 12, 3);
    let swap = XswUsage {
        xsu_total: 5,
        xsu_avail: 0,
        xsu_used: 9,
        xsu_pagesize: 0,
        xsu_encrypted: 0,
    };
    let snapshot = collect(
        String::new(),
        Ok(1000),
        vm_statistics(0, &buffer),
        Some(swap),
        Some(2),
        10,
        &[],
        0,
    )
    .unwrap();
    assert_eq!(snapshot.memory.used(), 30);
    assert_eq!(snapshot.memory.swap_free, 0);
}

#[test]
fn the_first_error_is_given() {
    let vm = VmStatistics64::decode(&vm_buffer());
    let both = collect(
        String::new(),
        Err("total"),
        Err("vm"),
        None,
        None,
        4096,
        &[],
        1,
    );
    assert_eq!(both.err(), Some("total"));
    let first = collect(
        String::new(),
        Err("total"),
        Ok(vm),
        None,
        None,
        4096,
        &[],
        1,
    );
    assert_eq!(first.err(), Some("total"));
    let second = collect(
        String::new(),
        Ok(1),
        Err("vm"),
        None,
        None,
        4096,
        &[],
        1,
    );
    assert_eq!(second.err(), Some("vm"));
}

#[test]
fn pressure_levels_have_names() {
    assert_eq!(PressureLevel::from_sysctl(1), PressureLevel::Normal);
    assert_eq!(PressureLevel::from_sysctl(2), PressureLevel::Warning);
    assert_eq!(PressureLevel::from_sysctl(4), PressureLevel::Critical);
    assert_eq!(PressureLevel::from_sysctl(3), PressureLevel::Unknown(3));
    assert_eq!(PressureLevel::from_sysctl(-1), PressureLevel::Unknown(-1));
}

#[test]
fn macos_pages_saturate() {
    assert_eq!(pages(3, 16384), 49152);
    assert_eq!(pages(0, u64::MAX), 0);
    assert_eq!(pages(u32::MAX, u64::MAX), u64::MAX);
    assert_eq!(pages_u64(5, 4096), 20480);
    assert_eq!(pages_u64(1 << 60, 4096), u64::MAX);
    assert_eq!(pages_u64(1, u64::MAX), u64::MAX);
}

#[test]
fn macos_page_size_has_three_sources() {
    assert_eq!(page_size(0, 16384, Some(4096)), 16384);
    assert_eq!(page_size(0, 0, Some(8192)), 8192);
    assert_eq!(page_size(1, 16384, Some(8192)), 8192);
    assert_eq!(page_size(1, 16384, Some(0)), 4096);
    assert_eq!(page_size(1, 16384, Some(-1)), 4096);
    assert_eq!(page_size(1, 16384, None), 4096);
}

#[test]
fn pid_buffer_has_room_to_spare() {
    assert_eq!(pid_buffer(0), None);
    assert_eq!(pid_buffer(-1), None);
    assert_eq!(pid_buffer(400), Some(PidBuffer { len: 216, bytes: 864 }));
    assert_eq!(pid_buffer(3), Some(PidBuffer { len: 16, bytes: 64 }));
    // So much room that the bytes can no longer be told.
    assert_eq!(
        pid_buffer(i32::MAX),
        Some(PidBuffer { len: 1_073_741_838, bytes: 56 })
    );
}

#[test]
fn macos_pids_are_positive() {
    assert_eq!(pids(0, &[1, 2]), Vec::<i32>::new());
    assert_eq!(pids(-1, &[1, 2]), Vec::<i32>::new());
    assert_eq!(pids(16, &[7, 0, -4, 9, 11]), vec![7, 9]);
    assert_eq!(pids(7, &[7, 8]), vec![7]);
    assert_eq!(pids(400, &[7, 8]), vec![7, 8]);
}

#[test]
fn process_memory_prefers_the_footprint() {
    let usage = |bytes| RusageInfoV2 { ri_phys_footprint: bytes };
    let info = |bytes| ProcTaskInfo { pti_virtual_size: 1, pti_resident_size: bytes };
    assert_eq!(process_memory(0, &usage(5), 96, &info(7)), Some(5));
    assert_eq!(process_memory(0, &usage(0), 96, &info(7)), Some(7));
    assert_eq!(process_memory(-1, &usage(5), 96, &info(7)), Some(7));
    assert_eq!(process_memory(-1, &usage(5), 95, &info(7)), None);
    assert_eq!(process_memory(-1, &usage(5), 96, &info(0)), None);
}

#[test]
fn process_name_comes_from_the_path() {
    let path = b"/Applications/Zen.app/zen\0\0\0";
    let name = b"kernel-name\0";
    assert_eq!(
        label(process_name(25, path, 11, name, true)),
        Some(('c', "zen".to_string()))
    );
    assert_eq!(
        label(process_name(25, path, 11, name, false)),
        Some(('s', "zen".to_string()))
    );
    assert_eq!(
        label(process_name(11, b"/opt/caf\xc3\xa9/\0", 0, b"", true)),
        Some(('c', "caf\u{e9}".to_string()))
    );
    assert_eq!(
        label(process_name(4, b"/bin/sh", 0, b"", true)),
        Some(('c', "bin".to_string()))
    );
}

#[test]
fn a_cleaned_program_keeps_what_was_written_of_its_path() {
    let path = |len, buffer: &[u8], prettify| cleaned_path(process_name(len, buffer, 0, b"", prettify));
    assert_eq!(path(9, b"/a/b\0cd", true), Some("/a/b".to_string()));
    assert_eq!(path(4, b"/bin/sh", true), Some("/bin".to_string()));
    assert_eq!(path(7, b"/bin/sh", true), Some("/bin/sh".to_string()));
    assert_eq!(path(6, b"/caf\xc3\xa9\0", true), Some("/caf\u{e9}".to_string()));
    assert_eq!(path(7, b"/bin/sh", false), None);
    assert_eq!(cleaned_path(process_name(0, b"", 2, b"sh\0", true)), None);
}

#[test]
fn a_bad_path_leaves_no_name() {
    let name = b"kernel-name\0";
    assert_eq!(label(process_name(3, b"/\xff\0", 11, name, true)), None);
    assert_eq!(label(process_name(3, b"/..\0", 11, name, true)), None);
    assert_eq!(label(process_name(1, b"/\0", 11, name, true)), None);
}

#[test]
fn process_name_falls_back_to_the_kernel() {
    assert_eq!(
        label(process_name(0, b"", 6, b"launchd\0\0", true)),
        Some(('s', "launchd".to_string()))
    );
    assert_eq!(label(process_name(0, b"", 0, b"launchd\0", true)), None);
    assert_eq!(label(process_name(-1, b"", 1, b"\0", true)), None);
    assert_eq!(label(process_name(0, b"", 2, b"\xc3\x28\0", true)), None);
    assert_eq!(
        label(process_name(0, b"", 3, b"ab\xc3\xa9", false)),
        None
    );
    assert_eq!(
        label(process_name(0, b"", 4, b"ab\xc3\xa9", false)),
        Some(('s', "ab\u{e9}".to_string()))
    );
}

#[test]
fn macos_hostname_is_trimmed() {
    assert_eq!(
        label(Some(hostname(0, b" \t\xe3\x80\x80mac studio\xc2\xa0\n\0rest"))),
        Some(('s', "mac studio".to_string()))
    );
    let fixed = Some(('f', "macos".to_string()));
    assert_eq!(label(Some(hostname(-1, b"mac\0"))), fixed);
    assert_eq!(label(Some(hostname(0, b"\xff\0"))), fixed);
    assert_eq!(label(Some(hostname(0, b"  \0"))), fixed);
    assert_eq!(label(Some(hostname(0, b""))), fixed);
}

#[test]
fn macos_groups_are_ranked() {
    let samples = vec![
        sample(Some(1), Some("x")),
        sample(Some(5), Some("y")),
        sample(Some(5), Some("x")),
    ];
    let groups = process_groups(&samples, 1);
    assert_eq!(groups.len(), 1);
    assert_eq!(groups[0].name, "x");
    assert_eq!(groups[0].count, 2);
    assert_eq!(groups[0].rss, 6);
}
