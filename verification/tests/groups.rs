use ram::groups::{rank_process_groups, tally_processes, ProcessReading};
use ram::snapshot::{saturating_product, Memory, ProcessGroup, Zram};

fn reading(name: &str, rss: u64) -> ProcessReading {
    ProcessReading {
        name: name.to_string(),
        rss,
    }
}

fn group(name: &str, count: usize, rss: u64) -> ProcessGroup {
    ProcessGroup {
        name: name.to_string(),
        count,
        rss,
    }
}

fn plain(groups: &[ProcessGroup]) -> Vec<(&str, usize, u64)> {
    groups
        .iter()
        .map(|group| (group.name.as_str(), group.count, group.rss))
        .collect()
}

#[test]
fn processes_gather_under_their_names() {
    let readings = [
        reading("zen", 10),
        reading("slack", 7),
        reading("zen", 5),
        reading("zen", 1),
    ];
    let groups = tally_processes(&readings);
    assert_eq!(plain(&groups), vec![("zen", 3, 16), ("slack", 1, 7)]);
    assert!(tally_processes(&[]).is_empty());
}

#[test]
fn every_process_is_counted_once() {
    let readings = [
        reading("a", 1),
        reading("b", 1),
        reading("a", 1),
        reading("c", 1),
        reading("b", 1),
    ];
    let groups = tally_processes(&readings);
    let counted: usize = groups.iter().map(|group| group.count).sum();
    assert_eq!(counted, 5);
    assert_eq!(groups.len(), 3);
}

#[test]
fn group_bytes_saturate() {
    let readings = [reading("a", u64::MAX - 1), reading("a", 5), reading("a", 1)];
    let groups = tally_processes(&readings);
    assert_eq!(plain(&groups), vec![("a", 3, u64::MAX)]);
}

#[test]
fn order_of_reading_does_not_change_the_groups() {
    let one = tally_processes(&[reading("a", 3), reading("b", 4), reading("a", 5)]);
    let two = tally_processes(&[reading("b", 4), reading("a", 5), reading("a", 3)]);
    let mut one = plain(&one);
    let mut two = plain(&two);
    one.sort();
    two.sort();
    assert_eq!(one, two);
}

#[test]
fn the_largest_groups_come_first() {
    let groups = vec![
        group("small", 1, 1),
        group("large", 2, 9),
        group("middle", 1, 5),
        group("tie", 1, 5),
    ];
    let ranked = rank_process_groups(groups, 3);
    assert_eq!(
        plain(&ranked),
        vec![("large", 2, 9), ("middle", 1, 5), ("tie", 1, 5)]
    );
}

#[test]
fn no_more_groups_than_asked_for() {
    let groups = || vec![group("a", 1, 1), group("b", 1, 2)];
    assert!(rank_process_groups(groups(), 0).is_empty());
    assert_eq!(plain(&rank_process_groups(groups(), 1)), vec![("b", 1, 2)]);
    assert_eq!(
        plain(&rank_process_groups(groups(), 10)),
        vec![("b", 1, 2), ("a", 1, 1)]
    );
}

#[test]
fn used_is_what_is_not_available() {
    let mut memory = Memory::default();
    assert_eq!(memory.used(), 0);
    memory.total = 100;
    memory.available = 30;
    assert_eq!(memory.used(), 70);
    memory.available = 130;
    assert_eq!(memory.used(), 0);
}

#[test]
fn defaults_are_zero() {
    let zram = Zram::default();
    assert_eq!(zram.configured, 0);
    assert_eq!(zram.data, 0);
    assert_eq!(zram.compressed, 0);
    assert_eq!(zram.memory_used, 0);
}

#[test]
fn products_saturate() {
    assert_eq!(saturating_product(6, 7), 42);
    assert_eq!(saturating_product(u64::MAX, 2), u64::MAX);
    assert_eq!(saturating_product(u64::MAX, 0), 0);
}

#[test]
fn ten_entries_of_an_ordinary_system() {
    let mebibytes = [
        ("fastpotify", 1, 239),
        ("gitcomet", 1, 350),
        ("zen", 26, 7465),
        ("DesktopEditors", 1, 266),
        ("electron", 10, 1874),
        ("slack", 8, 1167),
        ("editors_helper", 7, 1116),
        ("left-out", 1, 238),
        (".Hyprland-wrapp", 1, 285),
        ("ferdium", 11, 2232),
        ("ghostty", 2, 364),
    ];
    let groups = mebibytes
        .iter()
        .map(|(name, count, size)| group(name, *count, size * 1024 * 1024))
        .collect();
    let ranked = rank_process_groups(groups, 10);
    let names: Vec<&str> = ranked.iter().map(|group| group.name.as_str()).collect();
    assert_eq!(
        names,
        vec![
            "zen",
            "ferdium",
            "electron",
            "slack",
            "editors_helper",
            "ghostty",
            "gitcomet",
            ".Hyprland-wrapp",
            "DesktopEditors",
            "fastpotify",
        ]
    );
}

#[test]
fn asking_for_more_groups_adds_at_the_end() {
    let groups = || vec![group("a", 1, 3), group("b", 1, 3), group("c", 1, 7), group("d", 1, 1)];
    for n in 0..5 {
        let fewer = rank_process_groups(groups(), n);
        let more = rank_process_groups(groups(), n + 1);
        assert_eq!(plain(&fewer), plain(&more)[..fewer.len()].to_vec());
    }
}
