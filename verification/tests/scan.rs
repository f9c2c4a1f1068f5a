use dedupe::entry::FileEntry;
use dedupe::log::LogRecord;
use dedupe::scan::{Reply, Request, Scan, ScanError, Turn};
use std::collections::BTreeMap;

/// A file system in memory, and a driver that answers a scan from it.
struct Disk {
    listings: BTreeMap<String, Vec<FileEntry>>,
    files: BTreeMap<String, (String, i128)>,
    toolless: Vec<String>,
    undeletable: Vec<String>,
    removed: Vec<String>,
    asked: Vec<Request>,
    log: Vec<String>,
}

fn join(dir: &str, name: &str) -> String {
    format!("{}/{}", dir, name)
}

fn digest_line(content: &str, path: &str) -> String {
    let mut digest = String::new();
    for byte in content.bytes() {
        digest.push_str(&format!("{:02x}", byte));
    }
    format!("{}  {}\n", digest, path)
}

impl Disk {
    fn new() -> Disk {
        Disk {
            listings: BTreeMap::new(),
            files: BTreeMap::new(),
            toolless: Vec::new(),
            undeletable: Vec::new(),
            removed: Vec::new(),
            asked: Vec::new(),
            log: Vec::new(),
        }
    }

    fn dir(&mut self, path: &str, entries: &[(&str, bool)]) {
        let listed = entries
            .iter()
            .map(|(name, is_dir)| FileEntry::new(join(path, name), name.to_string(), *is_dir))
            .collect();
        self.listings.insert(path.to_string(), listed);
    }

    fn file(&mut self, path: &str, content: &str, modified: i128) {
        self.files.insert(path.to_string(), (content.to_string(), modified));
    }

    fn answer(&mut self, request: &Request) -> Reply {
        match request {
            Request::ListDirectory(dir) => match self.listings.get(dir) {
                Some(entries) => Reply::Listing(entries.clone()),
                None => Reply::Failed,
            },
            Request::Fingerprint(file) => {
                if self.toolless.contains(file) {
                    return Reply::Failed;
                }
                match self.files.get(file) {
                    Some((content, _)) if !content.is_empty() => {
                        Reply::ToolOutput { success: true, output: digest_line(content, file) }
                    }
                    _ => Reply::ToolOutput { success: false, output: String::new() },
                }
            }
            Request::ReadModified { existing, candidate } => {
                match (self.files.get(existing), self.files.get(candidate)) {
                    (Some((_, e)), Some((_, c))) => Reply::Modified { existing: *e, candidate: *c },
                    _ => Reply::Failed,
                }
            }
            Request::Remove(file) => {
                if self.undeletable.contains(file) || self.files.remove(file).is_none() {
                    Reply::Failed
                } else {
                    self.removed.push(file.clone());
                    Reply::Removed
                }
            }
            Request::Finished => unreachable!(),
        }
    }

    fn run(&mut self, root: &str) -> Result<(), ScanError> {
        let (mut scan, mut request) = Scan::begin(root.to_string());
        loop {
            self.asked.push(request.clone());
            if request == Request::Finished {
                assert!(scan.is_finished());
                return Ok(());
            }
            let reply = self.answer(&request);
            match scan.step(reply) {
                Ok(turn) => {
                    for record in &turn.log {
                        self.log.push(record.line());
                    }
                    request = turn.request;
                }
                Err(error) => {
                    assert!(scan.is_halted());
                    return Err(error);
                }
            }
        }
    }
}

fn entry(path: &str, name: &str, is_dir: bool) -> FileEntry {
    FileEntry::new(path.to_string(), name.to_string(), is_dir)
}

fn two_copies() -> Disk {
    let mut disk = Disk::new();
    disk.dir("root", &[("a.txt", false), ("b", true)]);
    disk.dir("root/b", &[("b.txt", false)]);
    disk.file("root/a.txt", "same", 100);
    disk.file("root/b/b.txt", "same", 200);
    disk
}

#[test]
fn begin_asks_for_the_root() {
    let (scan, request) = Scan::begin("root".to_string());
    assert_eq!(request, Request::ListDirectory("root".to_string()));
    assert!(!scan.is_finished());
    assert!(!scan.is_halted());
    assert!(!scan.registry().contains("73616d65"));
}

#[test]
fn older_copy_is_removed_and_newer_in_subdirectory_stays() {
    let mut disk = two_copies();
    assert_eq!(disk.run("root"), Ok(()));
    assert_eq!(disk.removed, vec!["root/a.txt".to_string()]);
    assert!(disk.files.contains_key("root/b/b.txt"));
    assert!(!disk.files.contains_key("root/a.txt"));
    assert!(disk.log.contains(&"DUPLICATE DETECTED: root/a.txt and root/b/b.txt".to_string()));
    assert!(disk.log.contains(&"DELETING: root/a.txt".to_string()));
    assert_eq!(
        disk.log,
        vec![
            "Processing: root/a.txt".to_string(),
            "Processing: root/b/b.txt".to_string(),
            "DUPLICATE DETECTED: root/a.txt and root/b/b.txt".to_string(),
            "DELETING: root/a.txt".to_string(),
            "Processing completed.".to_string(),
        ]
    );
}

#[test]
fn older_copy_in_subdirectory_is_removed() {
    let mut disk = two_copies();
    disk.file("root/a.txt", "same", 300);
    assert_eq!(disk.run("root"), Ok(()));
    assert_eq!(disk.removed, vec!["root/b/b.txt".to_string()]);
    assert_eq!(
        disk.log,
        vec![
            "Processing: root/a.txt".to_string(),
            "Processing: root/b/b.txt".to_string(),
            "DUPLICATE DETECTED: root/a.txt and root/b/b.txt".to_string(),
            "DELETING: root/b/b.txt".to_string(),
            "Processing completed.".to_string(),
        ]
    );
}

#[test]
fn hidden_directory_is_never_entered() {
    let mut disk = Disk::new();
    disk.dir("root", &[(".git", true), ("visible.txt", false)]);
    disk.dir("root/.git", &[("config", false)]);
    disk.file("root/.git/config", "same", 100);
    disk.file("root/visible.txt", "same", 200);
    assert_eq!(disk.run("root"), Ok(()));
    assert_eq!(
        disk.asked,
        vec![
            Request::ListDirectory("root".to_string()),
            Request::Fingerprint("root/visible.txt".to_string()),
            Request::Finished,
        ]
    );
    assert!(disk.removed.is_empty());
    assert!(disk.files.contains_key("root/.git/config"));
    assert_eq!(
        disk.log,
        vec!["Processing: root/visible.txt".to_string(), "Processing completed.".to_string()]
    );
}

#[test]
fn hidden_file_is_never_fingerprinted() {
    let mut disk = Disk::new();
    disk.dir("root", &[("a.txt", false), (".a.txt", false), ("z.txt", false)]);
    disk.file("root/a.txt", "same", 100);
    disk.file("root/.a.txt", "same", 50);
    disk.file("root/z.txt", "other", 50);
    assert_eq!(disk.run("root"), Ok(()));
    assert_eq!(
        disk.asked,
        vec![
            Request::ListDirectory("root".to_string()),
            Request::Fingerprint("root/a.txt".to_string()),
            Request::Fingerprint("root/z.txt".to_string()),
            Request::Finished,
        ]
    );
    assert!(disk.removed.is_empty());
}

#[test]
fn walk_is_depth_first_in_listing_order() {
    let mut disk = Disk::new();
    disk.dir("r", &[("2", false), ("d", true), ("1", false), ("e", true)]);
    disk.dir("r/d", &[("y", false), ("dd", true), ("x", false)]);
    disk.dir("r/d/dd", &[("deep", false)]);
    disk.dir("r/e", &[]);
    for (path, content) in
        [("r/2", "a"), ("r/d/y", "b"), ("r/d/dd/deep", "c"), ("r/d/x", "d"), ("r/1", "e")]
    {
        disk.file(path, content, 1);
    }
    assert_eq!(disk.run("r"), Ok(()));
    assert_eq!(
        disk.asked,
        vec![
            Request::ListDirectory("r".to_string()),
            Request::Fingerprint("r/2".to_string()),
            Request::ListDirectory("r/d".to_string()),
            Request::Fingerprint("r/d/y".to_string()),
            Request::ListDirectory("r/d/dd".to_string()),
            Request::Fingerprint("r/d/dd/deep".to_string()),
            Request::Fingerprint("r/d/x".to_string()),
            Request::Fingerprint("r/1".to_string()),
            Request::ListDirectory("r/e".to_string()),
            Request::Finished,
        ]
    );
    assert!(disk.removed.is_empty());
}

#[test]
fn empty_root_completes_at_once() {
    let mut disk = Disk::new();
    disk.dir("root", &[]);
    assert_eq!(disk.run("root"), Ok(()));
    assert_eq!(disk.asked, vec![Request::ListDirectory("root".to_string()), Request::Finished]);
    assert_eq!(disk.log, vec!["Processing completed.".to_string()]);
}

#[test]
fn newest_of_three_survives() {
    let mut disk = Disk::new();
    disk.dir("root", &[("a", false), ("b", false), ("c", false), ("other", false)]);
    disk.file("root/a", "same", 5);
    disk.file("root/b", "same", 9);
    disk.file("root/c", "same", 7);
    disk.file("root/other", "else", 1);
    assert_eq!(disk.run("root"), Ok(()));
    assert_eq!(disk.removed, vec!["root/a".to_string(), "root/c".to_string()]);
    let left: Vec<&String> = disk.files.keys().collect();
    assert_eq!(left, vec!["root/b", "root/other"]);
}

#[test]
fn tie_keeps_the_file_met_first() {
    let mut disk = Disk::new();
    disk.dir("root", &[("a", false), ("b", false), ("c", false), ("d", false)]);
    disk.file("root/a", "same", 3);
    disk.file("root/b", "same", 9);
    disk.file("root/c", "same", 9);
    disk.file("root/d", "same", 9);
    assert_eq!(disk.run("root"), Ok(()));
    assert_eq!(
        disk.removed,
        vec!["root/a".to_string(), "root/c".to_string(), "root/d".to_string()]
    );
    let left: Vec<&String> = disk.files.keys().collect();
    assert_eq!(left, vec!["root/b"]);
}

#[test]
fn two_fingerprints_are_settled_apart() {
    let mut disk = Disk::new();
    disk.dir("root", &[("a1", false), ("b1", false), ("a2", false), ("b2", false)]);
    disk.file("root/a1", "aaa", 1);
    disk.file("root/b1", "bbb", 2);
    disk.file("root/a2", "aaa", 2);
    disk.file("root/b2", "bbb", 1);
    assert_eq!(disk.run("root"), Ok(()));
    assert_eq!(disk.removed, vec!["root/a1".to_string(), "root/b2".to_string()]);
}

#[test]
fn files_with_their_own_fingerprint_are_untouched() {
    let mut disk = Disk::new();
    disk.dir("root", &[("a", false), ("b", false), ("c", false)]);
    disk.file("root/a", "one", 3);
    disk.file("root/b", "two", 2);
    disk.file("root/c", "three", 1);
    assert_eq!(disk.run("root"), Ok(()));
    assert!(disk.removed.is_empty());
    assert_eq!(disk.files.len(), 3);
    assert!(!disk.log.iter().any(|line| line.starts_with("DUPLICATE") || line.starts_with("DELETING")));
}

#[test]
fn second_scan_removes_nothing() {
    let mut disk = Disk::new();
    disk.dir("root", &[("a", false), ("sub", true), ("b", false), ("c", false)]);
    disk.dir("root/sub", &[("a", false), ("c", false)]);
    disk.file("root/a", "aaa", 5);
    disk.file("root/sub/a", "aaa", 6);
    disk.file("root/sub/c", "ccc", 6);
    disk.file("root/b", "aaa", 6);
    disk.file("root/c", "ccc", 1);
    assert_eq!(disk.run("root"), Ok(()));
    assert_eq!(
        disk.removed,
        vec!["root/a".to_string(), "root/b".to_string(), "root/c".to_string()]
    );
    // The same tree without the removed files.
    let mut again = Disk::new();
    again.dir("root", &[("sub", true)]);
    again.dir("root/sub", &[("a", false), ("c", false)]);
    again.files = disk.files.clone();
    assert_eq!(again.run("root"), Ok(()));
    assert!(again.removed.is_empty());
    assert_eq!(again.files, disk.files);
}

#[test]
fn unreadable_root_ends_the_scan_with_nothing_removed() {
    let mut disk = Disk::new();
    disk.file("root/a", "same", 1);
    assert_eq!(disk.run("root"), Err(ScanError::Traversal));
    assert!(disk.removed.is_empty());
    assert_eq!(disk.asked, vec![Request::ListDirectory("root".to_string())]);
    assert!(disk.log.is_empty());
}

#[test]
fn unreadable_directory_ends_the_scan_where_it_is_met() {
    let mut disk = Disk::new();
    disk.dir("root", &[("a", false), ("locked", true), ("b", false)]);
    disk.file("root/a", "same", 1);
    disk.file("root/b", "same", 2);
    assert_eq!(disk.run("root"), Err(ScanError::Traversal));
    assert!(disk.removed.is_empty());
    assert_eq!(disk.files.len(), 2);
    assert_eq!(
        disk.asked,
        vec![
            Request::ListDirectory("root".to_string()),
            Request::Fingerprint("root/a".to_string()),
            Request::ListDirectory("root/locked".to_string()),
        ]
    );
    assert!(!disk.log.contains(&"Processing completed.".to_string()));
}

#[test]
fn removal_before_an_unreadable_directory_stands() {
    let mut disk = Disk::new();
    disk.dir("root", &[("a", false), ("b", false), ("locked", true), ("c", false)]);
    disk.file("root/a", "same", 1);
    disk.file("root/b", "same", 2);
    disk.file("root/c", "same", 3);
    assert_eq!(disk.run("root"), Err(ScanError::Traversal));
    assert_eq!(disk.removed, vec!["root/a".to_string()]);
    assert!(disk.files.contains_key("root/b"));
    assert!(disk.files.contains_key("root/c"));
}

#[test]
fn failed_scan_refuses_every_reply() {
    let (mut scan, _) = Scan::begin("root".to_string());
    assert_eq!(scan.step(Reply::Failed), Err(ScanError::Traversal));
    assert!(scan.is_halted());
    assert_eq!(scan.step(Reply::Listing(vec![])), Err(ScanError::Closed));
    assert_eq!(scan.step(Reply::Removed), Err(ScanError::Closed));
    assert_eq!(scan.step(Reply::Failed), Err(ScanError::Closed));
    assert!(scan.is_halted());
    assert!(!scan.is_finished());
}

#[test]
fn complete_scan_refuses_every_reply() {
    let (mut scan, _) = Scan::begin("root".to_string());
    assert_eq!(
        scan.step(Reply::Listing(vec![])),
        Ok(Turn { log: vec![LogRecord::Completed], request: Request::Finished })
    );
    assert!(scan.is_finished());
    assert_eq!(scan.step(Reply::Listing(vec![])), Err(ScanError::Closed));
    assert_eq!(scan.step(Reply::Failed), Err(ScanError::Closed));
    assert!(scan.is_finished());
    assert!(!scan.is_halted());
}

#[test]
fn hashing_failure_passes_the_file_over() {
    let mut disk = Disk::new();
    disk.dir("root", &[("a", false), ("broken", false), ("gone", false), ("b", false)]);
    disk.file("root/a", "same", 1);
    disk.file("root/broken", "same", 5);
    disk.file("root/b", "same", 2);
    disk.toolless.push("root/broken".to_string());
    assert_eq!(disk.run("root"), Ok(()));
    assert_eq!(disk.removed, vec!["root/a".to_string()]);
    assert!(disk.files.contains_key("root/broken"));
    assert_eq!(
        disk.log,
        vec![
            "Processing: root/a".to_string(),
            "Processing: root/broken".to_string(),
            "Processing: root/gone".to_string(),
            "Processing: root/b".to_string(),
            "DUPLICATE DETECTED: root/a and root/b".to_string(),
            "DELETING: root/a".to_string(),
            "Processing completed.".to_string(),
        ]
    );
}

#[test]
fn tool_that_prints_nothing_passes_the_file_over() {
    let (mut scan, _) = Scan::begin("root".to_string());
    let listing = vec![entry("root/a", "a", false), entry("root/b", "b", false)];
    assert_eq!(
        scan.step(Reply::Listing(listing)),
        Ok(Turn { log: vec![], request: Request::Fingerprint("root/a".to_string()) })
    );
    assert_eq!(
        scan.step(Reply::ToolOutput { success: true, output: " \n".to_string() }),
        Ok(Turn {
            log: vec![LogRecord::Processing("root/a".to_string())],
            request: Request::Fingerprint("root/b".to_string()),
        })
    );
    assert_eq!(
        scan.step(Reply::ToolOutput { success: false, output: "abc  root/b\n".to_string() }),
        Ok(Turn {
            log: vec![LogRecord::Processing("root/b".to_string()), LogRecord::Completed],
            request: Request::Finished,
        })
    );
    assert!(!scan.registry().contains("abc"));
}

#[test]
fn collision_goes_through_its_turns() {
    let (mut scan, _) = Scan::begin("root".to_string());
    let listing = vec![entry("root/a", "a", false), entry("root/b", "b", false)];
    scan.step(Reply::Listing(listing)).unwrap();
    assert_eq!(
        scan.step(Reply::ToolOutput { success: true, output: "abc  root/a\n".to_string() }),
        Ok(Turn {
            log: vec![LogRecord::Processing("root/a".to_string())],
            request: Request::Fingerprint("root/b".to_string()),
        })
    );
    assert_eq!(scan.registry().lookup("abc"), Some(&"root/a".to_string()));
    assert_eq!(
        scan.step(Reply::ToolOutput { success: true, output: "abc  root/b\n".to_string() }),
        Ok(Turn {
            log: vec![LogRecord::Processing("root/b".to_string())],
            request: Request::ReadModified {
                existing: "root/a".to_string(),
                candidate: "root/b".to_string(),
            },
        })
    );
    assert_eq!(
        scan.step(Reply::Modified { existing: 7, candidate: 8 }),
        Ok(Turn {
            log: vec![
                LogRecord::DuplicateDetected {
                    existing: "root/a".to_string(),
                    candidate: "root/b".to_string(),
                },
                LogRecord::Deleting("root/a".to_string()),
            ],
            request: Request::Remove("root/a".to_string()),
        })
    );
    // Until the file is gone the registry holds it.
    assert_eq!(scan.registry().lookup("abc"), Some(&"root/a".to_string()));
    assert_eq!(
        scan.step(Reply::Removed),
        Ok(Turn { log: vec![LogRecord::Completed], request: Request::Finished })
    );
    assert_eq!(scan.registry().lookup("abc"), Some(&"root/b".to_string()));
    assert!(scan.is_finished());
}

#[test]
fn removed_candidate_leaves_the_registry_as_it_was() {
    let (mut scan, _) = Scan::begin("root".to_string());
    let listing = vec![entry("root/a", "a", false), entry("root/b", "b", false)];
    scan.step(Reply::Listing(listing)).unwrap();
    scan.step(Reply::ToolOutput { success: true, output: "abc".to_string() }).unwrap();
    scan.step(Reply::ToolOutput { success: true, output: "abc".to_string() }).unwrap();
    assert_eq!(
        scan.step(Reply::Modified { existing: 8, candidate: 8 }),
        Ok(Turn {
            log: vec![
                LogRecord::DuplicateDetected {
                    existing: "root/a".to_string(),
                    candidate: "root/b".to_string(),
                },
                LogRecord::Deleting("root/b".to_string()),
            ],
            request: Request::Remove("root/b".to_string()),
        })
    );
    scan.step(Reply::Removed).unwrap();
    assert_eq!(scan.registry().lookup("abc"), Some(&"root/a".to_string()));
}

#[test]
fn unreadable_time_ends_the_scan() {
    let mut disk = two_copies();
    disk.files.remove("root/a.txt");
    let (mut scan, _) = Scan::begin("root".to_string());
    scan.step(Reply::Listing(vec![entry("root/a", "a", false), entry("root/b", "b", false)]))
        .unwrap();
    scan.step(Reply::ToolOutput { success: true, output: "abc".to_string() }).unwrap();
    scan.step(Reply::ToolOutput { success: true, output: "abc".to_string() }).unwrap();
    assert_eq!(scan.step(Reply::Failed), Err(ScanError::Metadata));
    assert!(scan.is_halted());
    assert_eq!(scan.step(Reply::Modified { existing: 1, candidate: 2 }), Err(ScanError::Closed));
}

#[test]
fn failed_removal_ends_the_scan() {
    let mut disk = two_copies();
    disk.undeletable.push("root/a.txt".to_string());
    assert_eq!(disk.run("root"), Err(ScanError::Removal));
    assert!(disk.removed.is_empty());
    assert!(disk.files.contains_key("root/a.txt"));
    assert!(disk.log.contains(&"DELETING: root/a.txt".to_string()));
    assert!(!disk.log.contains(&"Processing completed.".to_string()));
}

#[test]
fn reply_of_the_wrong_kind_ends_the_scan() {
    let (mut scan, _) = Scan::begin("root".to_string());
    assert_eq!(scan.step(Reply::Removed), Err(ScanError::Unexpected));
    assert!(scan.is_halted());

    let (mut scan, _) = Scan::begin("root".to_string());
    scan.step(Reply::Listing(vec![entry("root/a", "a", false)])).unwrap();
    assert_eq!(scan.step(Reply::Listing(vec![])), Err(ScanError::Unexpected));
    assert_eq!(scan.step(Reply::Failed), Err(ScanError::Closed));

    let (mut scan, _) = Scan::begin("root".to_string());
    scan.step(Reply::Listing(vec![entry("root/a", "a", false), entry("root/b", "b", false)]))
        .unwrap();
    scan.step(Reply::ToolOutput { success: true, output: "abc".to_string() }).unwrap();
    scan.step(Reply::ToolOutput { success: true, output: "abc".to_string() }).unwrap();
    assert_eq!(
        scan.step(Reply::ToolOutput { success: true, output: "abc".to_string() }),
        Err(ScanError::Unexpected)
    );

    let (mut scan, _) = Scan::begin("root".to_string());
    scan.step(Reply::Listing(vec![entry("root/a", "a", false), entry("root/b", "b", false)]))
        .unwrap();
    scan.step(Reply::ToolOutput { success: true, output: "abc".to_string() }).unwrap();
    scan.step(Reply::ToolOutput { success: true, output: "abc".to_string() }).unwrap();
    scan.step(Reply::Modified { existing: 1, candidate: 2 }).unwrap();
    assert_eq!(scan.step(Reply::Modified { existing: 1, candidate: 2 }), Err(ScanError::Unexpected));
}

#[test]
fn non_directories_are_fingerprinted_whatever_they_are() {
    // A link or a device is listed as something that is no directory.
    let mut disk = Disk::new();
    disk.dir("root", &[("link", false), ("plain", false)]);
    disk.file("root/plain", "same", 1);
    assert_eq!(disk.run("root"), Ok(()));
    assert_eq!(
        disk.asked,
        vec![
            Request::ListDirectory("root".to_string()),
            Request::Fingerprint("root/link".to_string()),
            Request::Fingerprint("root/plain".to_string()),
            Request::Finished,
        ]
    );
}

#[test]
fn what_stands_under_a_hidden_entry_changes_nothing() {
    let mut plain = Disk::new();
    plain.dir("root", &[("a", false), (".cache", true), ("sub", true)]);
    plain.dir("root/.cache", &[]);
    plain.dir("root/sub", &[(".state", true), ("b", false)]);
    plain.dir("root/sub/.state", &[]);
    plain.file("root/a", "same", 1);
    plain.file("root/sub/b", "same", 2);

    let mut busy = Disk::new();
    busy.dir("root", &[("a", false), (".cache", true), ("sub", true)]);
    busy.dir("root/.cache", &[("a", false), ("locked", true)]);
    busy.dir("root/sub", &[(".state", true), ("b", false)]);
    busy.file("root/a", "same", 1);
    busy.file("root/.cache/a", "same", 9);
    busy.file("root/sub/b", "same", 2);

    assert_eq!(plain.run("root"), Ok(()));
    assert_eq!(busy.run("root"), Ok(()));
    assert_eq!(plain.asked, busy.asked);
    assert_eq!(plain.log, busy.log);
    assert_eq!(plain.removed, busy.removed);
    assert_eq!(busy.removed, vec!["root/a".to_string()]);
    assert!(busy.files.contains_key("root/.cache/a"));
}

#[test]
fn every_duplicate_costs_one_file() {
    let mut disk = Disk::new();
    disk.dir(
        "root",
        &[("1", false), ("2", false), ("3", false), ("4", false), ("5", false), ("6", false)],
    );
    for (path, content, modified) in [
        ("root/1", "x", 4),
        ("root/2", "y", 4),
        ("root/3", "x", 5),
        ("root/4", "x", 5),
        ("root/5", "y", 1),
        ("root/6", "z", 1),
    ] {
        disk.file(path, content, modified);
    }
    assert_eq!(disk.run("root"), Ok(()));
    // Six files with three fingerprints: three files go, three stay.
    assert_eq!(
        disk.removed,
        vec!["root/1".to_string(), "root/4".to_string(), "root/5".to_string()]
    );
    let left: Vec<&String> = disk.files.keys().collect();
    assert_eq!(left, vec!["root/2", "root/3", "root/6"]);
}
