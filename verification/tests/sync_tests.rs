use cc_sync_session::FileSystem;
use cc_sync_session::MockFileSystem;
use cc_sync_session::SessionSyncer;
use cc_sync_session::SyncOptions;

#[test]
fn test_convert_hyphenated_path() {
    let syncer = SessionSyncer::new(MockFileSystem::new());

    assert_eq!(syncer.convert_hyphenated_path("-Users-yuta-project"), "Users/yuta/project");

    assert_eq!(
        syncer.convert_hyphenated_path("-Users-yuta-github.com-project"),
        "Users/yuta/github.com/project"
    );

    assert_eq!(
        syncer.convert_hyphenated_path("-Users-example.org-test.io-project"),
        "Users/example.org/test.io/project"
    );
}

#[test]
fn test_convert_directory_name_leading_segment() {
    let syncer = SessionSyncer::new(MockFileSystem::new());

    // Only the leading segment is rewritten; deeper segments keep their
    // hyphens as they are.
    assert_eq!(
        syncer.convert_directory_name("-Users-a-b/file.txt"),
        "Users/a/b/file.txt"
    );
    assert_eq!(syncer.convert_directory_name("plain/sub-dir/file"), "plain/sub-dir/file");
    assert_eq!(syncer.convert_directory_name("-Users-x"), "Users/x");
}

#[test]
fn test_sync_prefix_selects_matching_subtrees() {
    let mut fs = MockFileSystem::new();
    let now = fs.current_time();

    fs.add_directory("/source");
    fs.add_directory("/target");

    fs.add_directory("/source/-Users-a-app");
    fs.add_file("/source/-Users-a-app/wanted.txt", vec![1], now);
    fs.add_directory("/source/-Other-b-app");
    fs.add_file("/source/-Other-b-app/ignored.txt", vec![2], now);
    // A file directly under the source root never seeds the traversal.
    fs.add_file("/source/loose.txt", vec![3], now);

    let mut syncer = SessionSyncer::new(fs);
    let options = SyncOptions::default();
    let result = syncer.sync("/source", "-Users-a-app", "/target", &options).unwrap();

    assert_eq!(result.files_copied, 1);
    assert!(syncer.filesystem.path_exists("/target/Users/a/app/wanted.txt").unwrap());
    assert!(!syncer.filesystem.path_exists("/target/Other/b/app/ignored.txt").unwrap());
    assert!(!syncer.filesystem.path_exists("/target/loose.txt").unwrap());
}

#[test]
fn test_should_copy_file() {
    let mut syncer = SessionSyncer::new(MockFileSystem::new());
    let now = syncer.filesystem.current_time();

    let source_path = "/source/file.txt";
    let target_path = "/target/file.txt";

    // Target does not exist yet.
    syncer.filesystem.add_file(source_path, vec![1, 2, 3], now);
    assert!(syncer.should_copy_file(source_path, target_path).unwrap());

    // Source is newer than the target.
    let old_time = now - 3600;
    syncer.filesystem.add_file(target_path, vec![1, 2, 3], old_time);
    assert!(syncer.should_copy_file(source_path, target_path).unwrap());

    // Target is newer than the source.
    let new_time = now + 3600;
    syncer.filesystem.set_modified_time(target_path, new_time).unwrap();
    assert!(!syncer.should_copy_file(source_path, target_path).unwrap());
}

#[test]
fn test_sync_new_files() {
    let mut fs = MockFileSystem::new();
    let now = fs.current_time();

    let source_dir = "/source";
    let target_dir = "/target";

    fs.add_directory(source_dir);
    fs.add_directory(target_dir);

    fs.add_directory("/source/-Users-yuta-project");
    fs.add_directory("/source/-Users-yuta-project/subdir");
    fs.add_file("/source/-Users-yuta-project/file1.txt", vec![1, 2, 3], now);
    fs.add_file("/source/-Users-yuta-project/subdir/file2.txt", vec![4, 5, 6], now);

    let mut syncer = SessionSyncer::new(fs);
    let options = SyncOptions::default();
    let result = syncer.sync(source_dir, "-Users-yuta-project", target_dir, &options).unwrap();

    assert_eq!(result.files_copied, 2);
    assert_eq!(result.files_skipped, 0);
    assert_eq!(result.directories_created, 2);
    assert_eq!(result.errors.len(), 0);

    let expected_file1 = "/target/Users/yuta/project/file1.txt";
    let expected_file2 = "/target/Users/yuta/project/subdir/file2.txt";

    assert!(syncer.filesystem.path_exists(expected_file1).unwrap());
    assert!(syncer.filesystem.path_exists(expected_file2).unwrap());

    assert_eq!(syncer.filesystem.get_file_content(expected_file1).unwrap(), vec![1, 2, 3]);
    assert_eq!(syncer.filesystem.get_file_content(expected_file2).unwrap(), vec![4, 5, 6]);
}

#[test]
fn test_sync_skip_up_to_date_files() {
    let mut fs = MockFileSystem::new();
    let now = fs.current_time();

    let source_dir = "/source";
    let target_dir = "/target";

    fs.add_directory(source_dir);
    fs.add_directory(target_dir);

    fs.add_directory("/source/-Users-yuta-project");
    let old_time = now - 3600;
    fs.add_file("/source/-Users-yuta-project/file.txt", vec![1, 2, 3], old_time);

    fs.add_directory("/target/Users");
    fs.add_directory("/target/Users/yuta");
    fs.add_directory("/target/Users/yuta/project");
    fs.add_file("/target/Users/yuta/project/file.txt", vec![1, 2, 3], now);

    let mut syncer = SessionSyncer::new(fs);
    let options = SyncOptions::default();
    let result = syncer.sync(source_dir, "-Users-yuta-project", target_dir, &options).unwrap();

    assert_eq!(result.files_copied, 0);
    assert_eq!(result.files_skipped, 1);
}

#[test]
fn test_sync_update_newer_files() {
    let mut fs = MockFileSystem::new();
    let now = fs.current_time();

    let source_dir = "/source";
    let target_dir = "/target";

    fs.add_directory(source_dir);
    fs.add_directory(target_dir);

    fs.add_directory("/source/-Users-yuta-project");
    fs.add_file("/source/-Users-yuta-project/file.txt", vec![7, 8, 9], now);

    fs.add_directory("/target/Users");
    fs.add_directory("/target/Users/yuta");
    fs.add_directory("/target/Users/yuta/project");
    let old_time = now - 3600;
    fs.add_file("/target/Users/yuta/project/file.txt", vec![1, 2, 3], old_time);

    let mut syncer = SessionSyncer::new(fs);
    let options = SyncOptions::default();
    let result = syncer.sync(source_dir, "-Users-yuta-project", target_dir, &options).unwrap();

    assert_eq!(result.files_copied, 1);
    assert_eq!(result.files_skipped, 0);
    assert_eq!(
        syncer.filesystem.get_file_content("/target/Users/yuta/project/file.txt").unwrap(),
        vec![7, 8, 9]
    );
}

#[test]
fn test_sync_dry_run() {
    let mut fs = MockFileSystem::new();
    let now = fs.current_time();

    let source_dir = "/source";
    let target_dir = "/target";

    fs.add_directory(source_dir);
    fs.add_directory(target_dir);

    fs.add_directory("/source/-Users-yuta-project");
    fs.add_file("/source/-Users-yuta-project/file.txt", vec![1, 2, 3], now);

    let mut syncer = SessionSyncer::new(fs);
    let options = SyncOptions { dry_run: true, verbose: false };
    let result = syncer.sync(source_dir, "-Users-yuta-project", target_dir, &options).unwrap();

    assert_eq!(result.files_copied, 1);
    assert_eq!(result.directories_created, 1);

    let expected_file = "/target/Users/yuta/project/file.txt";
    assert!(!syncer.filesystem.path_exists(expected_file).unwrap());
}

#[test]
fn test_sync_with_github_domain() {
    let mut fs = MockFileSystem::new();
    let now = fs.current_time();

    let source_dir = "/source";
    let target_dir = "/target";

    fs.add_directory(source_dir);
    fs.add_directory(target_dir);

    fs.add_directory("/source/-Users-yuta-github.com-project");
    fs.add_file("/source/-Users-yuta-github.com-project/file.txt", vec![1, 2, 3], now);

    let mut syncer = SessionSyncer::new(fs);
    let options = SyncOptions::default();
    let result =
        syncer.sync(source_dir, "-Users-yuta-github.com-project", target_dir, &options).unwrap();

    let expected_file = "/target/Users/yuta/github.com/project/file.txt";
    assert!(syncer.filesystem.path_exists(expected_file).unwrap());
    assert_eq!(result.files_copied, 1);
}

#[test]
fn test_sync_nested_directories() {
    let mut fs = MockFileSystem::new();
    let now = fs.current_time();

    let source_dir = "/source";
    let target_dir = "/target";

    fs.add_directory(source_dir);
    fs.add_directory(target_dir);

    let base = "/source/-Users-yuta-project";
    fs.add_directory(base);
    fs.add_directory("/source/-Users-yuta-project/src");
    fs.add_directory("/source/-Users-yuta-project/src/lib");
    fs.add_directory("/source/-Users-yuta-project/tests");

    fs.add_file("/source/-Users-yuta-project/README.md", vec![1], now);
    fs.add_file("/source/-Users-yuta-project/src/main.rs", vec![2], now);
    fs.add_file("/source/-Users-yuta-project/src/lib/mod.rs", vec![3], now);
    fs.add_file("/source/-Users-yuta-project/tests/test.rs", vec![4], now);

    let mut syncer = SessionSyncer::new(fs);
    let options = SyncOptions::default();
    let result = syncer.sync(source_dir, "-Users-yuta-project", target_dir, &options).unwrap();

    assert_eq!(result.files_copied, 4);
    assert_eq!(result.directories_created, 4);

    let target_base = "/target/Users/yuta/project";
    assert!(syncer.filesystem.path_exists(&format!("{}/README.md", target_base)).unwrap());
    assert!(syncer.filesystem.path_exists(&format!("{}/src/main.rs", target_base)).unwrap());
    assert!(syncer.filesystem.path_exists(&format!("{}/src/lib/mod.rs", target_base)).unwrap());
    assert!(syncer.filesystem.path_exists(&format!("{}/tests/test.rs", target_base)).unwrap());
}
