use git_plumbing::checkout::{
    checkout, Blobs, Capabilities, Disk, Entry, Error, Mode, Node, Options, Stat, State,
};
use git_plumbing::IoErrorKind;

fn entry(id: &[u8], mode: Mode, path: &[u8]) -> Entry {
    Entry {
        id: id.to_vec(),
        mode,
        path: path.to_vec(),
        skip_worktree: false,
        stat: Stat::default(),
    }
}

#[test]
fn two_entries_file_and_symlink() {
    let mut blobs = Blobs::new();
    blobs.insert(b"id-hello".to_vec(), b"hello".to_vec());
    blobs.insert(b"id-link".to_vec(), b"a/b.txt".to_vec());
    let mut index = State {
        entries: vec![
            entry(b"id-hello", Mode::File, b"a/b.txt"),
            entry(b"id-link", Mode::Symlink, b"link"),
        ],
    };
    let mut disk = Disk::new(false, false, 1000, 5, true);
    let opts = Options::default();
    let out = checkout(&mut index, &b"root".to_vec(), &blobs, opts, &mut disk).unwrap();
    assert_eq!(out.collisions.len(), 0);
    assert_eq!(out.errors.len(), 0);
    match disk.lookup(&b"root/a/b.txt".to_vec()) {
        Some(Node::File { data, is_exec, secs, nsecs }) => {
            assert_eq!(data, &b"hello".to_vec());
            assert!(!*is_exec);
            assert_eq!((*secs, *nsecs), (1000, 5));
        },
        other => panic!("expected a file, found {:?}", other.is_some()),
    }
    match disk.lookup(&b"root/link".to_vec()) {
        Some(Node::Symlink { target, .. }) => assert_eq!(target, &b"a/b.txt".to_vec()),
        other => panic!("expected a symlink, found {:?}", other.is_some()),
    }
    // The parent directories were created on the way.
    assert!(matches!(disk.lookup(&b"root".to_vec()), Some(Node::Dir)));
    assert!(matches!(disk.lookup(&b"root/a".to_vec()), Some(Node::Dir)));
    // Both entries carry the write's timestamps, truncated to 32-bit seconds.
    assert_eq!(index.entries[0].stat.mtime.secs, 1000);
    assert_eq!(index.entries[0].stat.mtime.nsecs, 5);
    assert_eq!(index.entries[0].stat.ctime.secs, 1000);
    assert_eq!(index.entries[1].stat.mtime.nsecs, 5);
}

#[test]
fn case_insensitive_collision_is_reported_once() {
    let mut blobs = Blobs::new();
    blobs.insert(b"id-a".to_vec(), b"upper".to_vec());
    blobs.insert(b"id-b".to_vec(), b"lower".to_vec());
    let mut index = State {
        entries: vec![
            entry(b"id-a", Mode::File, b"README"),
            entry(b"id-b", Mode::File, b"readme"),
        ],
    };
    let mut disk = Disk::new(true, false, 7, 0, true);
    let mut opts = Options::default();
    opts.fs = Capabilities { symlink: true, executable_bit: true, ignore_case: true };
    opts.destination_is_initially_empty = true;
    let out = checkout(&mut index, &b"wt".to_vec(), &blobs, opts, &mut disk).unwrap();
    assert_eq!(out.collisions.len(), 1);
    assert_eq!(out.collisions[0].path, b"readme".to_vec());
    assert_eq!(out.collisions[0].error_kind, IoErrorKind::AlreadyExists);
    // The first entry won; the second did not overwrite it.
    match disk.lookup(&b"wt/README".to_vec()) {
        Some(Node::File { data, .. }) => assert_eq!(data, &b"upper".to_vec()),
        _ => panic!("expected the first file"),
    }
}

#[test]
fn executable_bit_is_applied_when_honored() {
    let mut blobs = Blobs::new();
    blobs.insert(b"id-x".to_vec(), b"#!/bin/sh\n".to_vec());
    let mut index = State { entries: vec![entry(b"id-x", Mode::FileExecutable, b"run.sh")] };
    let mut disk = Disk::new(false, false, 1, 0, true);
    let opts = Options::default();
    checkout(&mut index, &b"wt".to_vec(), &blobs, opts, &mut disk).unwrap();
    match disk.lookup(&b"wt/run.sh".to_vec()) {
        Some(Node::File { is_exec, .. }) => assert!(*is_exec),
        _ => panic!("expected a file"),
    }
}

#[test]
fn executable_bit_is_dropped_when_not_honored() {
    let mut blobs = Blobs::new();
    blobs.insert(b"id-x".to_vec(), b"#!/bin/sh\n".to_vec());
    let mut index = State { entries: vec![entry(b"id-x", Mode::FileExecutable, b"run.sh")] };
    let mut disk = Disk::new(false, false, 1, 0, true);
    let mut opts = Options::default();
    opts.fs.executable_bit = false;
    checkout(&mut index, &b"wt".to_vec(), &blobs, opts, &mut disk).unwrap();
    match disk.lookup(&b"wt/run.sh".to_vec()) {
        Some(Node::File { is_exec, .. }) => assert!(!*is_exec),
        _ => panic!("expected a file"),
    }
}

#[test]
fn skip_worktree_entries_are_left_untouched() {
    let mut blobs = Blobs::new();
    blobs.insert(b"id-s".to_vec(), b"content".to_vec());
    let mut skipped = entry(b"id-s", Mode::File, b"kept/out.txt");
    skipped.skip_worktree = true;
    skipped.stat.mtime.secs = 42;
    let mut index = State { entries: vec![skipped] };
    let mut disk = Disk::new(false, false, 9, 9, true);
    let out = checkout(&mut index, &b"wt".to_vec(), &blobs, Options::default(), &mut disk)
        .unwrap();
    assert_eq!(out.collisions.len(), 0);
    assert!(disk.lookup(&b"wt/kept/out.txt".to_vec()).is_none());
    assert!(disk.lookup(&b"wt/kept".to_vec()).is_none());
    assert_eq!(index.entries[0].stat.mtime.secs, 42);
}

#[test]
fn missing_blob_aborts_with_object_not_found() {
    let blobs = Blobs::new();
    let mut index = State { entries: vec![entry(b"id-gone", Mode::File, b"f")] };
    let mut disk = Disk::new(false, false, 0, 0, true);
    match checkout(&mut index, &b"wt".to_vec(), &blobs, Options::default(), &mut disk) {
        Err(Error::ObjectNotFound { oid, path }) => {
            assert_eq!(oid, b"id-gone".to_vec());
            assert_eq!(path, b"wt".to_vec());
        },
        _ => panic!("expected the missing object to abort the walk"),
    }
}

#[test]
fn non_utf8_path_aborts_with_illformed_utf8() {
    let mut blobs = Blobs::new();
    blobs.insert(b"id".to_vec(), b"data".to_vec());
    let bad = vec![0xffu8, 0xfe, b'a'];
    let mut index = State {
        entries: vec![Entry {
            id: b"id".to_vec(),
            mode: Mode::File,
            path: bad.clone(),
            skip_worktree: false,
            stat: Stat::default(),
        }],
    };
    let mut disk = Disk::new(false, false, 0, 0, true);
    match checkout(&mut index, &b"wt".to_vec(), &blobs, Options::default(), &mut disk) {
        Err(Error::IllformedUtf8 { path }) => assert_eq!(path, bad),
        _ => panic!("expected the ill-formed path to abort the walk"),
    }
}

#[test]
fn unreported_creation_time_leaves_ctime_zero() {
    let mut blobs = Blobs::new();
    blobs.insert(b"id".to_vec(), b"data".to_vec());
    let mut index = State { entries: vec![entry(b"id", Mode::File, b"f")] };
    let mut disk = Disk::new(false, false, 77, 9, false);
    checkout(&mut index, &b"wt".to_vec(), &blobs, Options::default(), &mut disk).unwrap();
    assert_eq!(index.entries[0].stat.ctime.secs, 0);
    assert_eq!(index.entries[0].stat.ctime.nsecs, 0);
    assert_eq!(index.entries[0].stat.mtime.secs, 77);
    assert_eq!(index.entries[0].stat.mtime.nsecs, 9);
}

#[test]
fn clock_before_epoch_reports_time_error() {
    let mut blobs = Blobs::new();
    blobs.insert(b"id".to_vec(), b"data".to_vec());
    let mut index = State { entries: vec![entry(b"id", Mode::File, b"f")] };
    let mut disk = Disk::new(false, false, -5, 0, true);
    match checkout(&mut index, &b"wt".to_vec(), &blobs, Options::default(), &mut disk) {
        Err(Error::Time) => {},
        _ => panic!("expected the clock error"),
    }
}

#[test]
fn unsupported_modes_abort() {
    let mut blobs = Blobs::new();
    blobs.insert(b"id".to_vec(), b"data".to_vec());
    let mut index = State { entries: vec![entry(b"id", Mode::Dir, b"sub")] };
    let mut disk = Disk::new(false, false, 0, 0, true);
    match checkout(&mut index, &b"wt".to_vec(), &blobs, Options::default(), &mut disk) {
        Err(Error::Unsupported { mode }) => assert_eq!(mode, Mode::Dir),
        _ => panic!("expected the unsupported mode to abort the walk"),
    }
}

#[test]
fn keep_going_records_errors_and_continues() {
    let mut blobs = Blobs::new();
    blobs.insert(b"id-ok".to_vec(), b"fine".to_vec());
    let mut index = State {
        entries: vec![
            entry(b"id-gone", Mode::File, b"missing"),
            entry(b"id-ok", Mode::File, b"present"),
        ],
    };
    let mut disk = Disk::new(false, false, 3, 0, true);
    let mut opts = Options::default();
    opts.keep_going = true;
    let out = checkout(&mut index, &b"wt".to_vec(), &blobs, opts, &mut disk).unwrap();
    assert_eq!(out.errors.len(), 1);
    assert_eq!(out.errors[0].path, b"missing".to_vec());
    assert!(matches!(out.errors[0].error, Error::ObjectNotFound { .. }));
    match disk.lookup(&b"wt/present".to_vec()) {
        Some(Node::File { data, .. }) => assert_eq!(data, &b"fine".to_vec()),
        _ => panic!("the walk should have gone on to the second entry"),
    }
}

#[test]
fn directory_at_destination_collides_with_raw_code_21() {
    let mut blobs = Blobs::new();
    blobs.insert(b"id".to_vec(), b"data".to_vec());
    let mut index = State { entries: vec![entry(b"id", Mode::File, b"taken")] };
    let mut disk = Disk::new(false, false, 0, 0, true);
    disk.put(&b"wt/taken".to_vec(), Node::Dir);
    let out = checkout(&mut index, &b"wt".to_vec(), &blobs, Options::default(), &mut disk)
        .unwrap();
    assert_eq!(out.collisions.len(), 1);
    assert_eq!(out.collisions[0].path, b"taken".to_vec());
    assert_eq!(out.collisions[0].error_kind, IoErrorKind::Other);
}

#[test]
fn file_blocking_a_parent_directory_collides() {
    let mut blobs = Blobs::new();
    blobs.insert(b"id".to_vec(), b"data".to_vec());
    let mut index = State { entries: vec![entry(b"id", Mode::File, b"a/b")] };
    let mut disk = Disk::new(false, false, 0, 0, true);
    disk.put(
        &b"wt/a".to_vec(),
        Node::File { data: Vec::new(), is_exec: false, secs: 0, nsecs: 0 },
    );
    let out = checkout(&mut index, &b"wt".to_vec(), &blobs, Options::default(), &mut disk)
        .unwrap();
    assert_eq!(out.collisions.len(), 1);
    assert_eq!(out.collisions[0].error_kind, IoErrorKind::AlreadyExists);
}

#[test]
fn symlink_falls_back_to_a_plain_file_without_the_capability() {
    let mut blobs = Blobs::new();
    blobs.insert(b"id-l".to_vec(), b"target/file".to_vec());
    let mut index = State { entries: vec![entry(b"id-l", Mode::Symlink, b"ln")] };
    let mut disk = Disk::new(false, false, 0, 0, true);
    let mut opts = Options::default();
    opts.fs.symlink = false;
    checkout(&mut index, &b"wt".to_vec(), &blobs, opts, &mut disk).unwrap();
    match disk.lookup(&b"wt/ln".to_vec()) {
        Some(Node::File { data, is_exec, .. }) => {
            assert_eq!(data, &b"target/file".to_vec());
            assert!(!*is_exec);
        },
        _ => panic!("expected the link bytes as a plain file"),
    }
}

#[test]
fn symlink_fallback_collides_when_destination_is_initially_empty() {
    let mut blobs = Blobs::new();
    blobs.insert(b"id-l".to_vec(), b"target".to_vec());
    let mut index = State { entries: vec![entry(b"id-l", Mode::Symlink, b"ln")] };
    let mut disk = Disk::new(false, false, 0, 0, true);
    disk.put(
        &b"wt/ln".to_vec(),
        Node::File { data: b"old".to_vec(), is_exec: false, secs: 0, nsecs: 0 },
    );
    let mut opts = Options::default();
    opts.fs.symlink = false;
    opts.destination_is_initially_empty = true;
    let out = checkout(&mut index, &b"wt".to_vec(), &blobs, opts, &mut disk).unwrap();
    assert_eq!(out.collisions.len(), 1);
    assert_eq!(out.collisions[0].path, b"ln".to_vec());
    assert_eq!(out.collisions[0].error_kind, IoErrorKind::AlreadyExists);
    // The occupant was not overwritten.
    match disk.lookup(&b"wt/ln".to_vec()) {
        Some(Node::File { data, .. }) => assert_eq!(data, &b"old".to_vec()),
        _ => panic!("expected the prior file to survive"),
    }
}

#[test]
fn options_default_matches_the_documented_values() {
    let opts = Options::default();
    assert!(!opts.destination_is_initially_empty);
    assert!(!opts.keep_going);
    assert!(opts.trust_ctime);
    assert!(opts.check_stat);
    assert!(opts.fs.symlink);
    assert!(opts.fs.executable_bit);
    assert!(!opts.fs.ignore_case);
}
