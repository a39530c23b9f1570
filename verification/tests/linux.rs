use ram::bytes::{
    behind_last, file_name, find_word, parse_number, starts_with, trim_ascii_whitespace, up_to,
};
use ram::linux::{
    collect, executable_label, hostname, is_process, meminfo, page_size, process_groups,
    process_name, resident_bytes, zram_info, BlockDevice, ProcEntry,
};
use ram::procfs::{
    auxv_entries, parse_auxv_page_size, parse_meminfo, parse_single_u64, parse_statm_rss,
    parse_zram_mm_stat,
};
use ram::snapshot::{Memory, PlatformDetails, Zram};
use ram::text::{append_number, behind_last_slash, strip_end, trim, Label};

const MEMINFO: &str = "MemTotal:       65300000 kB\nMemFree:         1000000 kB\nMemAvailable:   50100000 kB\nBuffers:           10000 kB\nCached:         27400000 kB\nSwapCached:            0 kB\nSwapTotal:       9200000 kB\nSwapFree:        9100000 kB\nCommitLimit:    41800000 kB\nCommitted_AS:   33400000 kB\n";

fn device(name: &str, disksize: Option<&str>, mm_stat: Option<&str>) -> BlockDevice {
    BlockDevice {
        name: name.as_bytes().to_vec(),
        disksize: disksize.map(|text| text.to_string()),
        mm_stat: mm_stat.map(|text| text.to_string()),
    }
}

fn entry(filename: &str, statm: Option<&str>, name: Option<&str>) -> ProcEntry {
    ProcEntry {
        filename: filename.as_bytes().to_vec(),
        statm: statm.map(|text| text.to_string()),
        name: name.map(|text| text.to_string()),
    }
}

fn label(label: Option<Label<Vec<u8>>>) -> Option<(char, String)> {
    label.map(|label| match label {
        Label::Clean { name, .. } => ('c', name),
        Label::Sanitize(name) => ('s', name),
        Label::Fixed(name) => ('f', name),
    })
}

fn cleaned_path(label: Option<Label<Vec<u8>>>) -> Option<Vec<u8>> {
    match label {
        Some(Label::Clean { path, .. }) => Some(path),
        _ => None,
    }
}

#[test]
fn blanks_are_trimmed() {
    assert_eq!(trim_ascii_whitespace(b" \t\n\x0c\rab c\r\n "), b"ab c");
    assert_eq!(trim_ascii_whitespace(b"  \n"), b"");
    assert_eq!(trim_ascii_whitespace(b""), b"");
    assert_eq!(trim_ascii_whitespace(b"\x0bx\x0b"), b"\x0bx\x0b");
}

#[test]
fn text_is_cut_at_marks() {
    assert_eq!(up_to(b"ab\0cd\0", 0), b"ab");
    assert_eq!(up_to(b"abcd", 0), b"abcd");
    assert_eq!(behind_last(b"/usr/bin/x", b'/'), b"x");
    assert_eq!(behind_last(b"/usr/bin/", b'/'), b"");
    assert_eq!(behind_last(b"x", b'/'), b"x");
}

#[test]
fn file_names_are_the_last_component() {
    assert_eq!(file_name(b"/usr/bin/zen"), Some(&b"zen"[..]));
    assert_eq!(file_name(b"/usr/bin/zen//"), Some(&b"zen"[..]));
    assert_eq!(file_name(b"/usr/bin/./."), Some(&b"bin"[..]));
    assert_eq!(file_name(b"zen"), Some(&b"zen"[..]));
    assert_eq!(file_name(b"..."), Some(&b"..."[..]));
    assert_eq!(file_name(b"/usr/.."), None);
    assert_eq!(file_name(b"a/../"), None);
    assert_eq!(file_name(b"/"), None);
    assert_eq!(file_name(b"."), None);
    assert_eq!(file_name(b""), None);
}

#[test]
fn file_names_agree_with_the_standard_library() {
    let paths = [
        "", "/", "//", ".", "..", "./", "../", "a", "a/", "a/.", "a/..", "a/./b", "/a", "/.", "/..",
        "./a", ".a", "a.", "..a", "/a//b///", "a/b/././", "a/../b", " ",
    ];
    for path in paths {
        let expected = std::path::Path::new(path)
            .file_name()
            .map(|name| name.as_encoded_bytes());
        assert_eq!(file_name(path.as_bytes()), expected);
    }
}

#[test]
fn words_are_found_by_their_place() {
    let text = b"  12 ab\tc\n";
    assert_eq!(find_word(text, 0), Some(&b"12"[..]));
    assert_eq!(find_word(text, 1), Some(&b"ab"[..]));
    assert_eq!(find_word(text, 2), Some(&b"c"[..]));
    assert_eq!(find_word(text, 3), None);
    assert_eq!(find_word(b" ", 0), None);
}

#[test]
fn numbers_are_decimal() {
    assert_eq!(parse_number(b"0"), Some(0));
    assert_eq!(parse_number(b"007"), Some(7));
    assert_eq!(parse_number(b"+15"), Some(15));
    assert_eq!(parse_number(b"18446744073709551615"), Some(u64::MAX));
    assert_eq!(parse_number(b"18446744073709551616"), None);
    assert_eq!(parse_number(b"99999999999999999999"), None);
    assert_eq!(parse_number(b"-1"), None);
    assert_eq!(parse_number(b"+"), None);
    assert_eq!(parse_number(b"1x"), None);
    assert_eq!(parse_number(b""), None);
}

#[test]
fn single_number_files() {
    assert_eq!(parse_single_u64("8589934592\n"), Some(8589934592));
    assert_eq!(parse_single_u64("1 2"), None);
    assert_eq!(parse_single_u64("\n"), None);
}

#[test]
fn statm_counts_pages() {
    assert_eq!(parse_statm_rss("5000 1234 300 10 0 700 0\n", 4096), Some(1234 * 4096));
    assert_eq!(parse_statm_rss("0 0 0 0 0 0 0\n", 4096), Some(0));
    assert_eq!(parse_statm_rss("1 18446744073709551615", 4096), Some(u64::MAX));
    assert_eq!(parse_statm_rss("5000", 4096), None);
    assert_eq!(parse_statm_rss("5000 x", 4096), None);
}

#[test]
fn mm_stat_starts_with_three_figures() {
    assert_eq!(
        parse_zram_mm_stat("  300 200 250 0 260 1 0 0 0\n"),
        Some(Zram { configured: 0, data: 300, compressed: 200, memory_used: 250 })
    );
    assert_eq!(parse_zram_mm_stat("300 200"), None);
    assert_eq!(parse_zram_mm_stat("300 - 250"), None);
}

fn auxv(words: &[u64], word: usize, little: bool) -> Vec<u8> {
    let mut bytes = Vec::new();
    for value in words {
        let all = value.to_le_bytes();
        let mut part = all[..word].to_vec();
        if !little {
            part.reverse();
        }
        bytes.extend(part);
    }
    bytes
}

#[test]
fn auxiliary_vector_is_cut_into_pairs() {
    for word in [4, 8] {
        for little in [true, false] {
            let mut bytes = auxv(&[3, 0x0102_0304, 6, 4096], word, little);
            assert_eq!(auxv_entries(&bytes, word, little), vec![(3, 0x0102_0304), (6, 4096)]);
            bytes.push(1);
            assert_eq!(auxv_entries(&bytes, word, little).len(), 2);
            bytes.pop();
            bytes.pop();
            assert_eq!(auxv_entries(&bytes, word, little), vec![(3, 0x0102_0304)]);
        }
    }
    let large = auxv(&[0x0102_0304_0506_0708, u64::MAX], 8, false);
    assert_eq!(auxv_entries(&large, 8, false), vec![(0x0102_0304_0506_0708, u64::MAX)]);
    assert_eq!(auxv_entries(&large, 8, true), vec![(0x0807_0605_0403_0201, u64::MAX)]);
    assert!(auxv_entries(&[], 8, true).is_empty());
}

#[test]
fn auxiliary_vector_tells_the_page_size() {
    let told = auxv(&[3, 1, 6, 4096, 6, 1, 0, 0], 8, true);
    assert_eq!(parse_auxv_page_size(&told, 8, true), Some(4096));
    let silent = auxv(&[3, 6, 0, 0], 8, true);
    assert_eq!(parse_auxv_page_size(&silent, 8, true), None);
    assert_eq!(page_size(Some(&auxv(&[6, 65536], 4, false)), 4, false), 65536);
    assert_eq!(page_size(Some(&auxv(&[5, 65536], 8, true)), 8, true), 4096);
    assert_eq!(page_size(None, 8, true), 4096);
}

#[test]
fn meminfo_tells_kibibytes() {
    assert_eq!(
        parse_meminfo(MEMINFO),
        Memory {
            total: 65300000 * 1024,
            available: 50100000 * 1024,
            cached: 27400000 * 1024,
            swap_total: 9200000 * 1024,
            swap_free: 9100000 * 1024,
            commit_limit: 41800000 * 1024,
            committed: 33400000 * 1024,
        }
    );
    assert_eq!(parse_meminfo(""), Memory::default());
    assert_eq!(
        parse_meminfo("MemTotal: x kB\nSwapTotal\nCached:18446744073709551615 kB"),
        Memory { cached: u64::MAX, ..Memory::default() }
    );
}

#[test]
fn meminfo_passes_errors_on() {
    assert_eq!(meminfo::<&str>(Err("denied")), Err("denied"));
    assert_eq!(
        meminfo::<&str>(Ok("MemTotal: 1 kB".to_string())),
        Ok(Memory { total: 1024, ..Memory::default() })
    );
}

#[test]
fn zram_devices_add_up() {
    let devices = [
        device("zram0", Some("1000\n"), Some("300 200 250 0 0 0 0 0 0\n")),
        device("sda", Some("9999\n"), Some("1 1 1")),
        device("zram1", Some("none"), Some("30 20 25")),
        device("zram2", None, Some("bad")),
        device("zram3", Some("5"), None),
        device("zra", Some("7"), None),
    ];
    assert_eq!(
        zram_info(&devices),
        Zram { configured: 1005, data: 330, compressed: 220, memory_used: 275 }
    );
    assert_eq!(zram_info(&[]), Zram::default());
}

#[test]
fn zram_totals_saturate() {
    let devices = [
        device("zram0", Some("18446744073709551615"), Some("18446744073709551615 1 2")),
        device("zram1", Some("18446744073709551615"), Some("1 1 2")),
    ];
    assert_eq!(
        zram_info(&devices),
        Zram { configured: u64::MAX, data: u64::MAX, compressed: 2, memory_used: 4 }
    );
}

#[test]
fn process_is_named_by_its_program() {
    assert_eq!(
        label(process_name(Some(b"/usr/bin/zen"), Some(b"comm\n"), None, true)),
        Some(('c', "zen".to_string()))
    );
    assert_eq!(
        label(process_name(Some(b"/usr/bin/zen (deleted)"), None, None, false)),
        Some(('s', "zen".to_string()))
    );
    // A target without a file name stands for itself.
    assert_eq!(
        label(process_name(Some(b"/"), None, None, true)),
        Some(('c', "/".to_string()))
    );
    assert_eq!(
        label(process_name(Some(b"/opt/\xffx"), None, None, true)),
        Some(('c', "\u{fffd}x".to_string()))
    );
}

#[test]
fn a_cleaned_program_keeps_its_whole_path() {
    assert_eq!(
        cleaned_path(process_name(Some(b"/opt/\xff/zen (deleted)"), Some(b"x"), None, true)),
        Some(b"/opt/\xff/zen (deleted)".to_vec())
    );
    assert_eq!(
        cleaned_path(executable_label("zen", b"/usr/bin/zen", true)),
        Some(b"/usr/bin/zen".to_vec())
    );
    assert_eq!(cleaned_path(process_name(Some(b"/usr/bin/zen"), None, None, false)), None);
    assert_eq!(cleaned_path(process_name(None, Some(b"comm\n"), None, true)), None);
}

#[test]
fn the_first_source_settles_the_name() {
    let exe = Some(&b"/usr/bin/zen"[..]);
    assert_eq!(
        label(process_name(exe, None, None, true)),
        label(process_name(exe, Some(b"comm\n"), Some(b"line\0"), true))
    );
    assert_eq!(
        label(process_name(None, Some(b"comm\n"), None, true)),
        label(process_name(None, Some(b"comm\n"), Some(b"line\0"), true))
    );
}

#[test]
fn devices_are_told_by_the_bytes_of_their_names() {
    let mut odd = device("zram", Some("7"), None);
    odd.name.push(0xff);
    let mut other = device("", Some("9"), None);
    other.name.push(0xff);
    assert_eq!(zram_info(&[odd, other]).configured, 7);
}

#[test]
fn processes_are_told_by_their_numbers() {
    assert!(is_process(b"1234567890"));
    assert!(!is_process(b"12a"));
    assert!(!is_process(b"self"));
    assert!(!is_process(b"1/"));
    assert!(!is_process(b"1:"));
}

#[test]
fn only_memory_that_is_kept_is_told() {
    assert_eq!(resident_bytes(Some("9 2 0"), 4096), Some(8192));
    assert_eq!(resident_bytes(Some("9 0 0"), 4096), None);
    assert_eq!(resident_bytes(Some("9"), 4096), None);
    assert_eq!(resident_bytes(None, 4096), None);
}

#[test]
fn numbers_are_written_in_decimal() {
    for n in [0, 7, 10, 909, -1, -10, i32::MAX, i32::MIN] {
        let mut text = "n ".to_string();
        append_number(&mut text, n);
        assert_eq!(text, format!("n {n}"));
    }
}

#[test]
fn process_is_named_by_its_command() {
    assert_eq!(
        label(process_name(None, Some(b" kthreadd\n"), Some(b"/bin/x\0"), true)),
        Some(('s', "kthreadd".to_string()))
    );
    assert_eq!(
        label(process_name(Some(b"/x/ (deleted)"), Some(b"comm\n"), None, true)),
        Some(('s', "comm".to_string()))
    );
    assert_eq!(
        label(process_name(Some(b""), Some(b"comm\n"), None, true)),
        Some(('s', "comm".to_string()))
    );
}

#[test]
fn process_is_named_by_its_command_line() {
    assert_eq!(
        label(process_name(None, Some(b"\n"), Some(b"/usr/bin/perl\0-e\0/a/b\0"), true)),
        Some(('s', "perl".to_string()))
    );
    assert_eq!(label(process_name(None, None, Some(b"/usr/bin/\0x"), true)), None);
    assert_eq!(label(process_name(None, None, Some(b""), true)), None);
    assert_eq!(label(process_name(None, None, None, true)), None);
}

#[test]
fn the_mark_of_a_deleted_file_is_dropped_once() {
    assert_eq!(
        label(executable_label("a (deleted) (deleted)", b"/a", true)),
        Some(('c', "a (deleted)".to_string()))
    );
    assert_eq!(label(executable_label(" (deleted)", b"/a", true)), None);
    assert_eq!(label(executable_label("", b"", false)), None);
    assert_eq!(
        label(executable_label("(deleted)", b"/a", false)),
        Some(('s', "(deleted)".to_string()))
    );
}

#[test]
fn linux_hostname_is_trimmed() {
    assert_eq!(
        label(Some(hostname(Some(b"p260182\n")))),
        Some(('s', "p260182".to_string()))
    );
    assert_eq!(
        label(Some(hostname(Some(b"\xc3\xa9t\xc3\n")))),
        Some(('s', "\u{e9}t\u{fffd}".to_string()))
    );
    let fixed = Some(('f', "linux".to_string()));
    assert_eq!(label(Some(hostname(Some(b" \n")))), fixed);
    assert_eq!(label(Some(hostname(None))), fixed);
}

#[test]
fn only_processes_with_memory_and_a_name_count() {
    let entries = [
        entry("1", Some("9 2 0"), Some("init")),
        entry("self", Some("9 9 0"), Some("init")),
        entry("2", Some("0 0 0"), Some("kthreadd")),
        entry("3", None, Some("gone")),
        entry("4", Some("9 5 0"), None),
        entry("5", Some("9 3 0"), Some("zen")),
        entry("6", Some("9 1 0"), Some("init")),
        entry("7a", Some("9 9 0"), Some("init")),
        entry("8", Some("bad"), Some("init")),
    ];
    let groups = process_groups(&entries, 4096, 10);
    let plain: Vec<(&str, usize, u64)> = groups
        .iter()
        .map(|group| (group.name.as_str(), group.count, group.rss))
        .collect();
    assert_eq!(plain, vec![("init", 2, 3 * 4096), ("zen", 1, 3 * 4096)]);
    assert_eq!(process_groups(&entries, 4096, 1).len(), 1);
    assert!(process_groups(&[], 4096, 10).is_empty());
}

#[test]
fn linux_report_is_put_together() {
    let snapshot = collect::<&str>(
        "p260182".to_string(),
        Ok(MEMINFO.to_string()),
        &[device("zram0", Some("64"), None)],
        &[entry("1", Some("9 2 0"), Some("init"))],
        4096,
        10,
    )
    .unwrap();
    assert_eq!(snapshot.hostname, "p260182");
    assert_eq!(snapshot.memory.used(), (65300000 - 50100000) * 1024);
    assert_eq!(
        snapshot.details,
        PlatformDetails::Linux {
            zram: Zram { configured: 64, ..Zram::default() }
        }
    );
    assert_eq!(snapshot.groups.len(), 1);
    assert_eq!(snapshot.groups[0].rss, 8192);

    let failed = collect("h".to_string(), Err("denied"), &[], &[], 4096, 10);
    assert_eq!(failed.err(), Some("denied"));
}

#[test]
fn text_helpers() {
    assert_eq!(trim("\u{2003} a b\u{85}\n"), "a b");
    assert_eq!(trim(" \t"), "");
    assert_eq!(trim("\u{200b}x"), "\u{200b}x");
    assert!(starts_with(b"zram0", b"zram"));
    assert!(starts_with(b"zram", b"zram"));
    assert!(starts_with(b"x", b""));
    assert!(!starts_with(b"zra", b"zram"));
    assert!(!starts_with(b"xzram", b"zram"));
    assert_eq!(strip_end("\u{e9}\u{e9} end", " end"), "\u{e9}\u{e9}");
    assert_eq!(strip_end("endx", "end"), "endx");
    assert_eq!(behind_last_slash("C:\\a/b\\c.exe"), "c.exe");
    assert_eq!(behind_last_slash("c\u{e9}"), "c\u{e9}");
    assert_eq!(behind_last_slash("a\\"), "");
}

#[test]
fn trim_agrees_with_the_standard_library() {
    for n in 0..0x3100u32 {
        if let Some(c) = char::from_u32(n) {
            let text = format!("{c}x{c}");
            assert_eq!(trim(&text), text.trim());
        }
    }
}
