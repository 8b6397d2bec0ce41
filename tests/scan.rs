use diskscan::progress::should_emit;
use diskscan::scanner::{RawEntry, Reply, Request, Scanner};
use diskscan::skip::ScanOptions;
use diskscan::tree::DiskItem;

struct Fake {
    name: String,
    path: String,
    is_dir: bool,
    len: u64,
    kids: Vec<Fake>,
}

fn file(parent: &str, name: &str, len: u64) -> Fake {
    Fake { name: name.to_string(), path: format!("{}/{}", parent, name), is_dir: false, len, kids: vec![] }
}

fn dir(parent: &str, name: &str, kids: Vec<Fake>) -> Fake {
    Fake { name: name.to_string(), path: format!("{}/{}", parent, name), is_dir: true, len: 4096, kids }
}

fn find<'a>(f: &'a Fake, path: &str) -> &'a Fake {
    if f.path == path {
        return f;
    }
    for k in &f.kids {
        if path.starts_with(&k.path) {
            return find(k, path);
        }
    }
    panic!("no such path {}", path)
}

fn exact(f: &Fake) -> u64 {
    if f.is_dir { f.kids.iter().map(exact).sum() } else { f.len }
}

fn entry(f: &Fake) -> RawEntry {
    RawEntry { name: f.name.clone(), path: f.path.clone(), is_dir: f.is_dir, len: if f.is_dir { 0 } else { f.len } }
}

/// Runs a scan over the fake tree; estimates answer with `estimate`.
fn run(root: &Fake, depth: usize, opts: ScanOptions, estimate: u64) -> (DiskItem, Vec<usize>) {
    let mut sc = Scanner::start(entry(root), depth, opts, false, 1000);
    let mut seen = vec![sc.initial_progress().processed_items];
    loop {
        let reply = match sc.next_request() {
            Request::Finished => break,
            Request::List(p) => Reply::Entries(find(root, &p).kids.iter().map(entry).collect()),
            Request::Estimate(_) => Reply::Size(estimate),
            Request::Measure(p) => Reply::Size(exact(find(root, &p))),
            Request::CheckLarge(p) => Reply::Large(find(root, &p).kids.len() >= 1000),
        };
        sc.receive(reply);
        for e in sc.advance() {
            seen.push(e.processed_items);
        }
    }
    seen.push(sc.final_progress().processed_items);
    (sc.result.take().unwrap(), seen)
}

fn kids(n: &DiskItem) -> &Vec<DiskItem> {
    n.children.as_ref().unwrap()
}

fn fast(skip_hidden: bool) -> ScanOptions {
    ScanOptions { fast_mode: true, skip_hidden }
}

fn full(skip_hidden: bool) -> ScanOptions {
    ScanOptions { fast_mode: false, skip_hidden }
}

#[test]
fn flat_directory() {
    let root = dir("/tmp", "flat", vec![file("/tmp/flat", "a", 100), file("/tmp/flat", "b", 300), file("/tmp/flat", "c", 50)]);
    let (n, _) = run(&root, 1, fast(true), 0);
    assert_eq!(n.name, "flat");
    assert_eq!(n.size, 450);
    let names: Vec<&str> = kids(&n).iter().map(|k| k.name.as_str()).collect();
    assert_eq!(names, vec!["b", "a", "c"]);
    let sizes: Vec<u64> = kids(&n).iter().map(|k| k.size).collect();
    assert_eq!(sizes, vec![300, 100, 50]);
}

fn nested() -> Fake {
    dir("", "r", vec![dir("/r", "sub", vec![file("/r/sub", "x", 1000)]), file("/r", ".hidden", 10)])
}

#[test]
fn nested_with_hidden_skipped() {
    for opts in [fast(true), full(true)] {
        let (n, _) = run(&nested(), 2, opts, 0);
        assert_eq!(n.size, 1000);
        assert_eq!(kids(&n).len(), 1);
        assert_eq!(kids(&n)[0].name, "sub");
        assert_eq!(kids(&kids(&n)[0]).len(), 1);
        assert_eq!(kids(&kids(&n)[0])[0].name, "x");
    }
}

#[test]
fn nested_with_hidden_kept() {
    let (n, _) = run(&nested(), 2, fast(false), 0);
    assert_eq!(n.size, 1010);
    let names: Vec<&str> = kids(&n).iter().map(|k| k.name.as_str()).collect();
    assert_eq!(names, vec!["sub", ".hidden"]);
    assert_eq!(kids(&n)[0].size, 1000);
    assert_eq!(kids(&n)[1].size, 10);
}

#[test]
fn depth_cap_comprehensive() {
    let root = dir("", "r", vec![dir("/r", "a", vec![dir("/r/a", "b", vec![file("/r/a/b", "c.txt", 42)])])]);
    let (n, _) = run(&root, 1, full(true), 0);
    assert_eq!(n.size, 42);
    assert_eq!(kids(&n).len(), 1);
    assert_eq!(kids(&n)[0].name, "a");
    assert_eq!(kids(&n)[0].size, 42);
    assert!(kids(&kids(&n)[0]).is_empty());
}

#[test]
fn empty_directory() {
    for opts in [fast(true), full(true)] {
        let (n, _) = run(&dir("", "e", vec![]), 2, opts, 7);
        assert!(n.is_dir);
        assert_eq!(n.size, 0);
        assert!(kids(&n).is_empty());
    }
}

#[test]
fn single_file_root() {
    let (n, _) = run(&file("/tmp", "f.bin", 1234), 2, fast(true), 0);
    assert!(!n.is_dir);
    assert!(n.children.is_none());
    assert_eq!(n.size, 1234);
    assert_eq!(n.name, "f.bin");
}

#[test]
fn depth_zero_on_directory() {
    let root = dir("", "r", vec![dir("/r", "a", vec![file("/r/a", "x", 5)]), file("/r", "y", 6)]);
    let (n, _) = run(&root, 0, full(true), 0);
    assert!(kids(&n).is_empty());
    assert_eq!(n.size, 11);
    let (n, _) = run(&root, 0, fast(true), 99);
    assert!(kids(&n).is_empty());
    assert_eq!(n.size, 99);
}

#[test]
fn large_directory_short_circuit() {
    let mut files = Vec::new();
    for i in 0..1200 {
        files.push(file("/r/bulk", &format!("f{}", i), 1));
    }
    let root = dir("", "r", vec![dir("/r", "bulk", files)]);
    let (n, _) = run(&root, 3, fast(true), 777);
    let bulk = &kids(&n)[0];
    assert_eq!(bulk.name, "bulk");
    assert!(kids(bulk).is_empty());
    assert_eq!(bulk.size, 777);
    // Comprehensive mode walks it in full.
    let (n, _) = run(&root, 3, full(true), 777);
    assert_eq!(kids(&kids(&n)[0]).len(), 1200);
    assert_eq!(n.size, 1200);
}

fn check(n: &DiskItem, depth: usize) {
    if let Some(cs) = &n.children {
        if !cs.is_empty() {
            assert!(depth > 0);
            assert_eq!(n.size, cs.iter().map(|c| c.size).sum::<u64>());
        }
        for w in cs.windows(2) {
            assert!(w[0].size >= w[1].size);
        }
        for c in cs {
            assert!(!c.name.starts_with('.'));
            check(c, depth.saturating_sub(1));
        }
    }
}

#[test]
fn tree_properties_hold() {
    let root = dir("", "r", vec![
        dir("/r", "a", vec![file("/r/a", "p", 3), dir("/r/a", "q", vec![file("/r/a/q", "z", 8)]), file("/r/a", ".h", 100)]),
        file("/r", "b", 9),
        dir("/r", ".git", vec![file("/r/.git", "o", 50)]),
        file("/r", "c", 9),
    ]);
    for d in 0..4 {
        for opts in [fast(true), full(true)] {
            let (n, seen) = run(&root, d, opts, 4);
            check(&n, d);
            for w in seen.windows(2) {
                assert!(w[0] <= w[1]);
            }
            assert_eq!(*seen.last().unwrap(), 1000);
        }
    }
    // Equal sizes keep the listing order.
    let (n, _) = run(&root, 1, full(true), 0);
    let names: Vec<&str> = kids(&n).iter().map(|k| k.name.as_str()).collect();
    assert_eq!(names, vec!["a", "b", "c"]);
}

#[test]
fn windows_system_paths_left_out() {
    let root = Fake {
        name: "C:\\".to_string(),
        path: "C:\\".to_string(),
        is_dir: true,
        len: 0,
        kids: vec![
            Fake { name: "Windows".into(), path: "C:\\Windows".into(), is_dir: true, len: 0, kids: vec![] },
            Fake { name: "Users".into(), path: "C:\\Users".into(), is_dir: true, len: 0, kids: vec![] },
            Fake { name: "Config.Msi".into(), path: "C:\\Config.Msi".into(), is_dir: true, len: 0, kids: vec![] },
        ],
    };
    let mut sc = Scanner::start(entry(&root), 1, fast(true), true, 10);
    loop {
        let reply = match sc.next_request() {
            Request::Finished => break,
            Request::List(_) => Reply::Entries(root.kids.iter().map(entry).collect()),
            Request::Estimate(_) | Request::Measure(_) => Reply::Size(1),
            Request::CheckLarge(_) => Reply::Large(false),
        };
        sc.receive(reply);
        sc.advance();
    }
    let n = sc.result.take().unwrap();
    let paths: Vec<&str> = kids(&n).iter().map(|k| k.path.as_str()).collect();
    assert_eq!(paths, vec!["C:\\Users"]);

    let mut sc = Scanner::start(entry(&root), 1, full(true), true, 10);
    sc.receive(Reply::Entries(root.kids.iter().map(entry).collect()));
    sc.advance();
    while let Request::Measure(_) = sc.next_request() {
        sc.receive(Reply::Size(5));
        sc.advance();
    }
    let n = sc.result.take().unwrap();
    let names: Vec<&str> = kids(&n).iter().map(|k| k.name.as_str()).collect();
    assert_eq!(names, vec!["Users", "Windows (access denied)", "Config.Msi (access denied)"]);
    assert!(kids(&n)[1].children.is_none());
    assert_eq!(kids(&n)[1].size, 0);
}

#[test]
fn throttle_rule() {
    assert!(should_emit(0, false));
    assert!(should_emit(99, false));
    assert!(!should_emit(120, false));
    assert!(should_emit(120, true));
    assert!(should_emit(200, false));
    assert!(!should_emit(101, true));
}
