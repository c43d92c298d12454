use cc_sync_session::FileSystem;
use cc_sync_session::FileSystemError;
use cc_sync_session::MockFileSystem;
use cc_sync_session::SessionSyncer;
use cc_sync_session::SyncOptions;

#[test]
fn test_incremental_sync() {
    let mut fs = MockFileSystem::new();
    let now = fs.current_time();

    let source_dir = "/source";
    let target_dir = "/target";

    fs.add_directory(source_dir);
    fs.add_directory(target_dir);

    let session_dir = "/source/-Users-test-incremental";
    fs.add_directory(session_dir);
    fs.add_file("/source/-Users-test-incremental/file1.txt", b"content1".to_vec(), now);
    fs.add_file("/source/-Users-test-incremental/file2.txt", b"content2".to_vec(), now);

    let mut syncer = SessionSyncer::new(fs);
    let options = SyncOptions::default();

    // First sync copies everything.
    let result1 =
        syncer.sync(source_dir, "-Users-test-incremental", target_dir, &options).unwrap();
    assert_eq!(result1.files_copied, 2);

    // A second run without source changes copies nothing.
    let result2 =
        syncer.sync(source_dir, "-Users-test-incremental", target_dir, &options).unwrap();
    assert_eq!(result2.files_copied, 0);
    assert_eq!(result2.files_skipped, 2);

    // Backdate one target copy by an hour: exactly it is re-copied.
    let old_time = now - 3600;
    syncer
        .filesystem
        .set_modified_time("/target/Users/test/incremental/file1.txt", old_time)
        .unwrap();

    let result3 =
        syncer.sync(source_dir, "-Users-test-incremental", target_dir, &options).unwrap();
    assert_eq!(result3.files_copied, 1);
    assert_eq!(result3.files_skipped, 1);
    assert_eq!(
        syncer.filesystem.get_file_content("/target/Users/test/incremental/file1.txt").unwrap(),
        b"content1".to_vec()
    );
}

#[test]
fn test_dry_run_mode() {
    let mut fs = MockFileSystem::new();
    let now = fs.current_time();

    let source_dir = "/source";
    let target_dir = "/target";

    fs.add_directory(source_dir);
    fs.add_directory(target_dir);

    fs.add_directory("/source/-Users-test-dryrun");
    fs.add_file("/source/-Users-test-dryrun/test.txt", b"test content".to_vec(), now);

    let mut syncer = SessionSyncer::new(fs);
    let options = SyncOptions { dry_run: true, verbose: false };
    let result = syncer.sync(source_dir, "-Users-test-dryrun", target_dir, &options).unwrap();

    assert_eq!(result.files_copied, 1);
    assert_eq!(result.directories_created, 1);

    let expected_file = "/target/Users/test/dryrun/test.txt";
    assert!(!syncer.filesystem.path_exists(expected_file).unwrap());
}

#[test]
fn test_github_com_path_conversion() {
    let mut fs = MockFileSystem::new();
    let now = fs.current_time();

    let source_dir = "/source";
    let target_dir = "/target";

    fs.add_directory(source_dir);
    fs.add_directory(target_dir);

    fs.add_directory("/source/-Users-dev-github.com-myrepo");
    fs.add_file("/source/-Users-dev-github.com-myrepo/README.md", b"# My Repo".to_vec(), now);

    let mut syncer = SessionSyncer::new(fs);
    let options = SyncOptions::default();
    let result =
        syncer.sync(source_dir, "-Users-dev-github.com-myrepo", target_dir, &options).unwrap();

    let expected_file = "/target/Users/dev/github.com/myrepo/README.md";
    assert!(syncer.filesystem.path_exists(expected_file).unwrap());
    assert_eq!(result.files_copied, 1);
}

#[test]
fn test_session_tree_sync() {
    let mut fs = MockFileSystem::new();
    let now = fs.current_time();

    let source_dir = "/source";
    let target_dir = "/target";

    fs.add_directory(source_dir);
    fs.add_directory(target_dir);

    fs.add_directory("/source/-Users-test-project");
    fs.add_directory("/source/-Users-test-project/conversations");
    fs.add_file(
        "/source/-Users-test-project/session.json",
        b"{'session': 'data'}".to_vec(),
        now,
    );
    fs.add_file(
        "/source/-Users-test-project/conversations/conv1.json",
        b"{'conversation': 'data'}".to_vec(),
        now,
    );

    let mut syncer = SessionSyncer::new(fs);
    let options = SyncOptions::default();
    let result = syncer.sync(source_dir, "-Users-test-project", target_dir, &options).unwrap();

    assert_eq!(result.files_copied, 2);
    assert_eq!(result.files_skipped, 0);
    assert_eq!(result.errors.len(), 0);

    let expected_file1 = "/target/Users/test/project/session.json";
    let expected_file2 = "/target/Users/test/project/conversations/conv1.json";

    assert!(syncer.filesystem.path_exists(expected_file1).unwrap());
    assert!(syncer.filesystem.path_exists(expected_file2).unwrap());

    assert_eq!(
        syncer.filesystem.get_file_content(expected_file1).unwrap(),
        b"{'session': 'data'}".to_vec()
    );
    assert_eq!(
        syncer.filesystem.get_file_content(expected_file2).unwrap(),
        b"{'conversation': 'data'}".to_vec()
    );
}

/// Over one and the same input store, a dry run reports the same counters as
/// a real run, and leaves the store's contents untouched.
#[test]
fn test_dry_run_counts_match_real_run() {
    let now = MockFileSystem::new().current_time();

    let build = |dry_run: bool| {
        let mut fs = MockFileSystem::new();
        fs.add_directory("/source");
        fs.add_directory("/source/-Users-demo-app");
        fs.add_directory("/source/-Users-demo-app/logs");
        fs.add_file("/source/-Users-demo-app/state.json", b"state".to_vec(), now);
        fs.add_file("/source/-Users-demo-app/logs/run.log", b"log".to_vec(), now);
        let mut syncer = SessionSyncer::new(fs);
        let options = SyncOptions { dry_run, verbose: false };
        let result = syncer.sync("/source", "-Users-demo-app", "/target", &options).unwrap();
        (result, syncer)
    };

    let (dry_result, dry_syncer) = build(true);
    let (real_result, _real_syncer) = build(false);

    assert_eq!(dry_result.files_copied, real_result.files_copied);
    assert_eq!(dry_result.files_skipped, real_result.files_skipped);
    assert_eq!(dry_result.directories_created, real_result.directories_created);

    // The dry run changed nothing: the store still holds only the sources.
    let files = dry_syncer.filesystem.list_all_files();
    assert_eq!(files.len(), 2);
    assert!(!dry_syncer.filesystem.path_exists("/target").unwrap());
    assert!(!dry_syncer.filesystem.path_exists("/target/Users/demo/app/state.json").unwrap());
}

#[test]
fn test_mock_reports_missing_entries() {
    let mut fs = MockFileSystem::new();
    let meta = fs.get_metadata("/nowhere");
    assert!(matches!(meta, Err(FileSystemError::NotFound(_))));

    let listed = fs.list_directory("/nowhere");
    assert!(matches!(listed, Err(FileSystemError::NotFound(_))));

    let copied = fs.copy_file("/nowhere/a", "/elsewhere/a");
    assert!(matches!(copied, Err(FileSystemError::NotFound(_))));

    let stamped = fs.set_modified_time("/nowhere/a", 0);
    assert!(matches!(stamped, Err(FileSystemError::NotFound(_))));

    assert_eq!(
        FileSystemError::NotFound("/nowhere".to_string()).message(),
        "Not found: /nowhere"
    );
    assert_eq!(FileSystemError::Io("broken pipe".to_string()).message(), "IO error: broken pipe");
    assert_eq!(
        FileSystemError::PathError("bad segment".to_string()).message(),
        "Path error: bad segment"
    );
}

#[test]
fn test_mock_copy_keeps_modified_time() {
    let mut fs = MockFileSystem::new();
    let now = fs.current_time();
    fs.add_file("/a/original.txt", b"payload".to_vec(), now - 120);

    fs.copy_file("/a/original.txt", "/b/copy.txt").unwrap();

    let meta = fs.get_metadata("/b/copy.txt").unwrap();
    assert!(!meta.is_directory);
    assert_eq!(meta.modified, now - 120);
    assert_eq!(fs.get_file_content("/b/copy.txt").unwrap(), b"payload".to_vec());
}

#[test]
fn test_sync_recovers_from_unlistable_root() {
    // The source root does not exist: the listing fails, which is recovered
    // locally — the run succeeds and reports nothing done.
    let mut fs = MockFileSystem::new();
    fs.add_directory("/target");
    let mut syncer = SessionSyncer::new(fs);
    let options = SyncOptions::default();
    let result = syncer.sync("/missing", "-x", "/target", &options).unwrap();
    assert_eq!(result.files_copied, 0);
    assert_eq!(result.files_skipped, 0);
    assert_eq!(result.directories_created, 0);
    assert_eq!(result.errors.len(), 0);
}
