use diskscan::scanner::{plan_entry, EntryPlan};
use diskscan::skip::ScanOptions;
use diskscan::estimate::{listing_count, add_count, count_plan, expands_child, extrapolate_size, is_large_count, CountPlan};
use diskscan::skip::{is_hidden, is_system_path, is_system_path_lower, starts_with};
use diskscan::tree::{dir_node, file_node, sort_by_size_desc, total_size};
use diskscan::volumes::{df_volume, drive_volume, parse_df, parse_number_or_zero, split_pieces};

#[test]
fn extrapolates_sampled_size() {
    assert_eq!(extrapolate_size(1000, 10, 50), 5000);
    assert_eq!(extrapolate_size(10, 3, 4), 13);
    assert_eq!(extrapolate_size(10, 4, 5), 13);
    assert_eq!(extrapolate_size(700, 10, 10), 700);
    assert_eq!(extrapolate_size(700, 0, 10), 700);
    assert_eq!(extrapolate_size(u64::MAX, 1, 3), u64::MAX);
    assert_eq!(extrapolate_size(9, 2, 3), extrapolate_size(9, 2, 3));
}

#[test]
fn large_directory_estimate_is_near() {
    // 5000 files of 1 KiB: 5 MiB less a little; a sample of 100 entries.
    let estimate = extrapolate_size(100 * 1048, 100, 5000);
    let real: u64 = 5 * 1024 * 1024;
    assert!(estimate >= real / 2 && estimate <= real + real / 2);
}

#[test]
fn count_planning() {
    assert!(matches!(count_plan(false, false, 3), CountPlan::One));
    assert!(matches!(count_plan(true, true, 3), CountPlan::Fixed(5000)));
    assert!(matches!(count_plan(true, false, 3), CountPlan::Expand { child_depth: 0 }));
    assert!(matches!(count_plan(true, false, 2), CountPlan::Expand { child_depth: 1 }));
    assert!(matches!(count_plan(true, false, 1), CountPlan::Expand { child_depth: 0 }));
    assert!(expands_child(true, 1));
    assert!(!expands_child(true, 0));
    assert!(!expands_child(false, 2));
    assert!(is_large_count(1000));
    assert!(!is_large_count(999));
    assert_eq!(add_count(usize::MAX, 1), usize::MAX);
    assert_eq!(add_count(2, 3), 5);
    assert_eq!(listing_count(&vec![1, 1, 7]), 10);
    assert_eq!(listing_count(&vec![]), 1);
    assert_eq!(listing_count(&vec![usize::MAX]), usize::MAX);
}

#[test]
fn skip_policy() {
    assert!(is_hidden(".git"));
    assert!(!is_hidden("git"));
    assert!(!is_hidden(""));
    assert!(starts_with("abc", "ab"));
    assert!(!starts_with("ab", "abc"));
    assert!(is_system_path("C:\\Windows\\System32"));
    assert!(is_system_path("c:\\$Recycle.Bin"));
    assert!(is_system_path("C:\\ProgramData\\Packages\\x"));
    assert!(!is_system_path("C:\\Users"));
    assert!(!is_system_path_lower("C:\\Windows"));
    assert!(is_system_path_lower("c:\\windows"));
}

#[test]
fn sorting_and_sums() {
    let v = vec![
        file_node("a".into(), "/a".into(), 1),
        file_node("b".into(), "/b".into(), 5),
        file_node("c".into(), "/c".into(), 1),
        file_node("d".into(), "/d".into(), 3),
    ];
    let s = sort_by_size_desc(v);
    let names: Vec<&str> = s.iter().map(|n| n.name.as_str()).collect();
    assert_eq!(names, vec!["b", "d", "a", "c"]);
    assert_eq!(total_size(&s), 10);
    let big = vec![file_node("x".into(), "/x".into(), u64::MAX), file_node("y".into(), "/y".into(), 2)];
    assert_eq!(total_size(&big), u64::MAX);
    let n = dir_node("r".into(), "/r".into(), s);
    assert_eq!(n.size, 10);
    assert!(n.is_dir);
}

#[test]
fn drive_volumes() {
    let d = drive_volume("Drive C".into(), "C:\\".into(), 1000, 300).unwrap();
    assert_eq!(d.used_space, 700);
    assert!(d.used_space + d.available_space <= d.total_space);
    let d = drive_volume("Drive D".into(), "D:\\".into(), 100, 300).unwrap();
    assert_eq!(d.used_space, 0);
    assert!(drive_volume("Drive E".into(), "E:\\".into(), 0, 0).is_none());
}

#[test]
fn df_listing() {
    let out = b"Filesystem 1K-blocks Used Available Use% Mounted on\n/dev/sda1 1048576 524288 524288 50% /\nshort line\n\ntmpfs   10  +2  x  1% /run\r\n".to_vec();
    let rows = parse_df(&out);
    assert_eq!(rows.len(), 2);
    assert_eq!(rows[0].device, b"/dev/sda1".to_vec());
    assert_eq!(rows[0].mount_point, b"/".to_vec());
    assert_eq!(rows[0].used_bytes, 524288 * 1024);
    assert_eq!(rows[0].available_bytes, 524288 * 1024);
    assert_eq!(rows[1].used_bytes, 2048);
    assert_eq!(rows[1].available_bytes, 0);
    assert_eq!(rows[1].mount_point, b"/run".to_vec());
    let v = df_volume(&rows[0]);
    assert_eq!(v.mount_point, "/");
    assert_eq!(v.name, "/dev/sda1");
    assert_eq!(v.used_space, 524288 * 1024);
    assert_eq!(v.available_space, 524288 * 1024);
    assert_eq!(v.total_space, 1048576 * 1024);
    assert!(v.used_space + v.available_space <= v.total_space);
    assert_eq!(rows[1].total_bytes, 10 * 1024);
    assert!(parse_df(&Vec::new()).is_empty());
}

#[test]
fn numbers_and_fields() {
    assert_eq!(parse_number_or_zero(&b"524288".to_vec()), 524288);
    assert_eq!(parse_number_or_zero(&b"+7".to_vec()), 7);
    assert_eq!(parse_number_or_zero(&b"+".to_vec()), 0);
    assert_eq!(parse_number_or_zero(&b"".to_vec()), 0);
    assert_eq!(parse_number_or_zero(&b"12a".to_vec()), 0);
    assert_eq!(parse_number_or_zero(&b"18446744073709551615".to_vec()), u64::MAX);
    assert_eq!(parse_number_or_zero(&b"18446744073709551616".to_vec()), 0);
    let f = split_pieces(&b"  a bb\tc  ".to_vec(), false);
    assert_eq!(f, vec![b"a".to_vec(), b"bb".to_vec(), b"c".to_vec()]);
    let l = split_pieces(&b"x y\n\nz\n".to_vec(), true);
    assert_eq!(l, vec![b"x y".to_vec(), b"z".to_vec()]);
}

#[test]
fn entry_plans() {
    let fast = ScanOptions { fast_mode: true, skip_hidden: true };
    let full = ScanOptions { fast_mode: false, skip_hidden: false };
    assert!(plan_entry(".x", "/r/.x", false, 2, fast, false) == EntryPlan::Skip);
    assert!(plan_entry(".x", "/r/.x", false, 2, full, false) == EntryPlan::File);
    assert!(plan_entry("Windows", "C:\\Windows", true, 2, fast, true) == EntryPlan::Omit);
    assert!(plan_entry("Windows", "C:\\Windows", true, 2, full, true) == EntryPlan::Denied);
    assert!(plan_entry("Windows", "C:\\Windows", true, 2, full, false) == EntryPlan::Descend);
    assert!(plan_entry("d", "/r/d", true, 1, fast, false) == EntryPlan::Size);
    assert!(plan_entry("d", "/r/d", true, 2, fast, false) == EntryPlan::Probe);
    assert!(plan_entry("f", "/r/f", false, 1, fast, false) == EntryPlan::File);
}
