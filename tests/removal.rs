use std::collections::BTreeSet;

use torrent_prune::expand::{content_root, expand_path};
use torrent_prune::plan::{implied_dirs, plan_removal, EntryKind, Fault, Plan};
use torrent_prune::remove::{settle_descriptor, Outcome, Removal, RemovalError, Resolution, Step};
use torrent_prune::report::{report_header, tracker_host};
use torrent_prune::status::{is_unregistered, marker_matches};

fn b(s: &str) -> Vec<u8> {
    s.as_bytes().to_vec()
}

fn files(list: &[&str]) -> Vec<Vec<u8>> {
    list.iter().map(|s| b(s)).collect()
}

/// Lexical normalisation of an absolute path, standing in for canonicalize.
fn normalise(p: &[u8]) -> Vec<u8> {
    let mut parts: Vec<&[u8]> = Vec::new();
    for c in p.split(|x| *x == b'/') {
        match c {
            b"" | b"." => {}
            b".." => {
                parts.pop();
            }
            _ => parts.push(c),
        }
    }
    let mut out = Vec::new();
    for c in parts {
        out.push(b'/');
        out.extend_from_slice(c);
    }
    if out.is_empty() {
        out.push(b'/');
    }
    out
}

/// A filesystem of plain entries, and the operations performed on it.
struct FakeFs {
    entries: BTreeSet<Vec<u8>>,
    log: Vec<Step>,
}

impl FakeFs {
    fn new(paths: &[&str]) -> FakeFs {
        FakeFs { entries: paths.iter().map(|p| b(p)).collect(), log: Vec::new() }
    }

    fn has_children(&self, d: &[u8]) -> bool {
        let mut prefix = d.to_vec();
        prefix.push(b'/');
        self.entries.iter().any(|e| e.starts_with(&prefix))
    }

    fn run(&mut self, mut m: Removal) -> Result<(), RemovalError> {
        loop {
            let step = m.step();
            self.log.push(step.clone());
            match step {
                Step::Resolve(p) => {
                    let c = normalise(&p);
                    if self.entries.contains(&c) {
                        m.after_resolve(Resolution::Canonical(c));
                    } else {
                        m.after_resolve(Resolution::Missing);
                    }
                }
                Step::RemoveFile(p) => {
                    let o = if self.entries.remove(&p) { Outcome::Done } else { Outcome::Missing };
                    m.after_remove(o);
                }
                Step::RemoveDir(p) => {
                    let o = if !self.entries.contains(&p) {
                        Outcome::Missing
                    } else if self.has_children(&p) {
                        Outcome::Failed("directory not empty".to_string())
                    } else {
                        self.entries.remove(&p);
                        Outcome::Done
                    };
                    m.after_remove(o);
                }
                Step::Finished | Step::Abandoned(_) => return m.into_result(),
            }
        }
    }
}

fn removed(log: &[Step]) -> Vec<Vec<u8>> {
    log.iter()
        .filter_map(|s| match s {
            Step::RemoveFile(p) | Step::RemoveDir(p) => Some(p.clone()),
            _ => None,
        })
        .collect()
}

#[test]
fn single_file_root_is_removed() {
    let plan = plan_removal(&b("/data/movie.mkv"), EntryKind::File, &files(&["movie.mkv"])).unwrap();
    assert_eq!(plan, Plan::UnlinkFile(b("/data/movie.mkv")));
    let mut fs = FakeFs::new(&["/data", "/data/movie.mkv"]);
    assert_eq!(fs.run(Removal::new(plan)), Ok(()));
    assert_eq!(removed(&fs.log), vec![b("/data/movie.mkv")]);
    assert!(!fs.entries.contains(&b("/data/movie.mkv")));
    assert!(fs.entries.contains(&b("/data")));
}

#[test]
fn directory_removed_files_then_dirs_then_root() {
    let plan = plan_removal(&b("/data/show/"), EntryKind::Directory, &files(&["S01/e1.mkv", "S01/e2.mkv"])).unwrap();
    let mut fs = FakeFs::new(&["/data", "/data/show", "/data/show/S01", "/data/show/S01/e1.mkv", "/data/show/S01/e2.mkv"]);
    assert_eq!(fs.run(Removal::new(plan)), Ok(()));
    assert_eq!(
        removed(&fs.log),
        vec![b("/data/show/S01/e1.mkv"), b("/data/show/S01/e2.mkv"), b("/data/show/S01"), b("/data/show")]
    );
    assert_eq!(fs.entries.len(), 1);
}

#[test]
fn escaping_path_deletes_nothing() {
    let plan = plan_removal(&b("/data/show/"), EntryKind::Directory, &files(&["../escape.mkv"])).unwrap();
    let mut fs = FakeFs::new(&["/data", "/data/escape.mkv", "/data/show", "/data/show/a.mkv"]);
    let r = fs.run(Removal::new(plan));
    assert_eq!(r, Err(RemovalError::Integrity(Fault::Escape(b("/data/escape.mkv")))));
    assert!(removed(&fs.log).is_empty());
    assert_eq!(fs.entries.len(), 4);
}

#[test]
fn later_escape_still_deletes_nothing() {
    let plan = plan_removal(&b("/data/show"), EntryKind::Directory, &files(&["a.mkv", "x/../../../etc/passwd"])).unwrap();
    let mut fs = FakeFs::new(&["/data/show", "/data/show/a.mkv", "/data/show/x", "/etc/passwd"]);
    let r = fs.run(Removal::new(plan));
    assert_eq!(r, Err(RemovalError::Integrity(Fault::Escape(b("/etc/passwd")))));
    assert!(removed(&fs.log).is_empty());
}

#[test]
fn sibling_with_common_prefix_is_outside() {
    let plan = plan_removal(&b("/data/show"), EntryKind::Directory, &files(&["../showtime/a"])).unwrap();
    let mut fs = FakeFs::new(&["/data/show", "/data/showtime/a"]);
    let r = fs.run(Removal::new(plan));
    assert_eq!(r, Err(RemovalError::Integrity(Fault::Escape(b("/data/showtime/a")))));
}

#[test]
fn descriptors_already_absent_are_fine() {
    assert_eq!(settle_descriptor(b("/w/x.torrent"), Outcome::Missing), Ok(()));
    assert_eq!(settle_descriptor(b("/s/x.torrent"), Outcome::Done), Ok(()));
    assert_eq!(
        settle_descriptor(b("/s/x.torrent"), Outcome::Failed("permission denied".to_string())),
        Err(RemovalError::Filesystem { path: b("/s/x.torrent"), cause: "permission denied".to_string() })
    );
}

#[test]
fn second_run_converges() {
    let fl = files(&["S01/e1.mkv", "S01/e2.mkv"]);
    let mut fs = FakeFs::new(&["/data/show", "/data/show/S01", "/data/show/S01/e1.mkv", "/data/show/S01/e2.mkv"]);
    let plan = plan_removal(&b("/data/show"), EntryKind::Directory, &fl).unwrap();
    assert_eq!(fs.run(Removal::new(plan.clone())), Ok(()));
    assert_eq!(fs.run(Removal::new(plan)), Ok(()));
    assert!(fs.entries.is_empty());
}

#[test]
fn partial_tree_is_finished() {
    let fl = files(&["S01/e1.mkv", "S01/e2.mkv"]);
    let mut fs = FakeFs::new(&["/data/show", "/data/show/S01", "/data/show/S01/e2.mkv"]);
    let plan = plan_removal(&b("/data/show"), EntryKind::Directory, &fl).unwrap();
    assert_eq!(fs.run(Removal::new(plan)), Ok(()));
    assert!(fs.entries.is_empty());
}

#[test]
fn untracked_file_surfaces_as_error() {
    let mut fs = FakeFs::new(&["/data/show", "/data/show/S01", "/data/show/S01/e1.mkv", "/data/show/S01/notes.txt"]);
    let plan = plan_removal(&b("/data/show"), EntryKind::Directory, &files(&["S01/e1.mkv"])).unwrap();
    let r = fs.run(Removal::new(plan));
    assert_eq!(
        r,
        Err(RemovalError::Filesystem { path: b("/data/show/S01"), cause: "directory not empty".to_string() })
    );
    assert!(fs.entries.contains(&b("/data/show/S01/notes.txt")));
}

#[test]
fn failed_resolution_is_reported() {
    let plan = plan_removal(&b("/data/show"), EntryKind::Directory, &files(&["a"])).unwrap();
    let mut m = Removal::new(plan);
    assert_eq!(m.step(), Step::Resolve(b("/data/show/a")));
    m.after_resolve(Resolution::Failed("io".to_string()));
    assert_eq!(
        m.into_result(),
        Err(RemovalError::Filesystem { path: b("/data/show/a"), cause: "io".to_string() })
    );
}

#[test]
fn implied_directories_deepest_first() {
    let d = implied_dirs(&files(&["a/b/c/x", "a/y", "a/b/z", "q//r/s", "top"]));
    assert_eq!(d, files(&["a/b/c", "q//r", "a/b", "a", "q"]));
    let plan = plan_removal(&b("/r"), EntryKind::Directory, &files(&["a/b/c/x", "a/y"])).unwrap();
    match plan {
        Plan::Tree(t) => {
            assert_eq!(t.root, b("/r"));
            assert_eq!(t.files, files(&["/r/a/b/c/x", "/r/a/y"]));
            assert_eq!(t.dirs, files(&["/r/a/b/c", "/r/a/b", "/r/a"]));
        }
        _ => panic!("expected a tree"),
    }
}

#[test]
fn single_file_manifest_must_match() {
    let root = b("/data/movie.mkv");
    assert_eq!(plan_removal(&root, EntryKind::File, &files(&["movie.mkv", "x"])), Err(Fault::ManifestMismatch));
    assert_eq!(plan_removal(&root, EntryKind::File, &files(&[])), Err(Fault::ManifestMismatch));
    assert_eq!(plan_removal(&root, EntryKind::File, &files(&["other.mkv"])), Err(Fault::ManifestMismatch));
    assert_eq!(plan_removal(&root, EntryKind::File, &files(&["ie.mkv"])), Err(Fault::ManifestMismatch));
    assert_eq!(plan_removal(&root, EntryKind::File, &files(&["/data/movie.mkv"])), Err(Fault::ManifestMismatch));
    assert_eq!(plan_removal(&root, EntryKind::File, &files(&["data/movie.mkv"])), Ok(Plan::UnlinkFile(root.clone())));
}

#[test]
fn symlink_root_only_unlinks() {
    let plan = plan_removal(&b("/data/link/"), EntryKind::Symlink, &files(&["a/b", "c"])).unwrap();
    assert_eq!(plan, Plan::UnlinkSymlink(b("/data/link/")));
    let mut fs = FakeFs::new(&["/data/link", "/data/link/a", "/data/link/a/b"]);
    let r = fs.run(Removal::new(plan));
    assert_eq!(r, Ok(()));
    assert_eq!(removed(&fs.log), vec![b("/data/link")]);
    assert_eq!(fs.log.len(), 2);
}

#[test]
fn invalid_roots_are_faults() {
    let none = files(&[]);
    assert_eq!(plan_removal(&b("/"), EntryKind::Directory, &none), Err(Fault::FilesystemRoot));
    assert_eq!(plan_removal(&b("///"), EntryKind::Directory, &none), Err(Fault::FilesystemRoot));
    assert_eq!(plan_removal(&b(""), EntryKind::Directory, &none), Err(Fault::RootTooShort));
    assert_eq!(plan_removal(&b("a"), EntryKind::Directory, &none), Err(Fault::RootTooShort));
    assert_eq!(plan_removal(&b("data/x"), EntryKind::Directory, &none), Err(Fault::RootNotAbsolute));
    assert_eq!(
        plan_removal(&b("/data/show"), EntryKind::Directory, &files(&["a", "/etc/passwd", "/b"])),
        Err(Fault::AbsoluteFile(1))
    );
}

#[test]
fn empty_manifest_prunes_root_only() {
    let plan = plan_removal(&b("/data/empty"), EntryKind::Directory, &files(&[])).unwrap();
    let mut fs = FakeFs::new(&["/data/empty"]);
    assert_eq!(fs.run(Removal::new(plan)), Ok(()));
    assert_eq!(removed(&fs.log), vec![b("/data/empty")]);
}

#[test]
fn content_root_checks_after_expansion() {
    assert_eq!(content_root("/data/show"), Ok(b("/data/show")));
    assert_eq!(content_root("/"), Err(Fault::FilesystemRoot));
    assert_eq!(content_root("x"), Err(Fault::RootTooShort));
    assert_eq!(expand_path("~bob/x"), b("~bob/x"));
    assert_eq!(expand_path("/a/~"), b("/a/~"));
}

#[test]
fn home_is_expanded() {
    let e = expand_path("~/downloads/x");
    assert!(e.ends_with(b"/downloads/x"));
    assert_ne!(e, b("~/downloads/x"));
}

#[test]
fn unregistered_status_matches_without_case() {
    assert!(is_unregistered("Tracker: [Failure reason \"Unregistered torrent\"]"));
    assert!(is_unregistered("TRACKER: [FAILURE REASON \"UNREGISTERED TORRENT\"]"));
    assert!(is_unregistered("tracker: [failure reason \"unregistered torrent"));
    assert!(!is_unregistered("Tracker: [Failure reason \"Torrent not found\"]"));
    assert!(!is_unregistered("Tracker: [Failure reason \"Unregistered"));
    assert!(!is_unregistered(""));
    assert!(marker_matches("abc", "ab"));
    assert!(!marker_matches("ab", "abc"));
    assert!(!marker_matches("aBc", "ab"));
}

#[test]
fn tracker_host_is_short_name() {
    assert_eq!(tracker_host("https://tracker.example.org:8443/a/announce?x=1"), Ok(Some("tracker.example.org".to_string())));
    assert_eq!(tracker_host("udp://10.0.0.1:6969"), Ok(Some("10.0.0.1".to_string())));
    assert_eq!(tracker_host("unix:/run/foo.socket"), Ok(None));
    assert!(tracker_host("not a url").is_err());
}

#[test]
fn report_line_names_host_and_torrent() {
    assert_eq!(report_header("tracker.example.org", "Some.Show.S01"), "Unregistered[tracker.example.org]:\tSome.Show.S01");
    assert_eq!(report_header("", ""), "Unregistered[]:\t");
}

#[test]
fn absent_root_is_already_removed() {
    let fl = files(&["S01/e1.mkv"]);
    assert_eq!(plan_removal(&b("/data/show"), EntryKind::Absent, &fl), Ok(Plan::AlreadyGone));
    let m = Removal::new(Plan::AlreadyGone);
    assert_eq!(m.step(), Step::Finished);
    assert_eq!(m.into_result(), Ok(()));
    assert_eq!(plan_removal(&b("/"), EntryKind::Absent, &fl), Err(Fault::FilesystemRoot));
}
