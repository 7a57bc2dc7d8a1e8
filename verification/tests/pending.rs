use decaf::create_archive_from_directory;
use decaf::relpath::path_is_contained;
use decaf::ArchivableListing;
use decaf::DecafError;
use decaf::EntryKind;
use decaf::FoundEntry;
use decaf::Listing;
use decaf::PathComponent;

fn components(path: &str) -> Vec<PathComponent> {
    path.split('/').map(|name| PathComponent::Normal(name.as_bytes().to_vec())).collect()
}

fn found(path: &str, kind: EntryKind, permissions: u32, file_size: u64) -> FoundEntry {
    FoundEntry {
        path: components(path),
        kind,
        permissions,
        file_size,
        literal_path: format!("/abs/{}", path),
    }
}

#[test]
fn directory_is_listed_without_reading_files() {
    let entries = vec![
        found("root/subdir", EntryKind::Directory, 0o040755, 0),
        found("root/subdir/file2.txt", EntryKind::File, 0o100644, 28),
        found("root/link", EntryKind::Symlink, 0o120777, 0),
        found("root/file1.txt", EntryKind::File, 0o100644, 13),
        found("root/empty", EntryKind::EmptyDirectory, 0o040755, 4096),
    ];
    let archive = create_archive_from_directory(&components("root"), entries).unwrap();
    let paths: Vec<&str> =
        archive.listings.iter().map(|listing| listing.relative_path.as_str()).collect();
    assert_eq!(paths, vec!["empty", "file1.txt", "subdir/file2.txt"]);
    assert_eq!(archive.listings[0].file_size, 0);
    assert_eq!(archive.listings[0].literal_path, "");
    assert_eq!(archive.listings[0].permissions, 0o040755);
    assert_eq!(archive.listings[1].file_size, 13);
    assert_eq!(archive.listings[1].literal_path, "/abs/root/file1.txt");
    assert_eq!(archive.listings[2].file_size, 28);
}

#[test]
fn listings_without_content_are_sorted_by_size_path_length_and_mode() {
    let entries = vec![
        found("r/cc", EntryKind::File, 0o100755, 5),
        found("r/bb", EntryKind::File, 0o100644, 5),
        found("r/dd", EntryKind::File, 0o100644, 5),
        found("r/a", EntryKind::File, 0o100777, 5),
        found("r/zzzz", EntryKind::File, 0o100777, 4),
    ];
    let archive = create_archive_from_directory(&components("r"), entries).unwrap();
    let paths: Vec<&str> =
        archive.listings.iter().map(|listing| listing.relative_path.as_str()).collect();
    assert_eq!(paths, vec!["zzzz", "a", "bb", "dd", "cc"]);
}

#[test]
fn found_path_that_is_not_utf8_is_invalid() {
    let mut entry = found("r/x", EntryKind::File, 0o100644, 1);
    entry.path = vec![PathComponent::Normal(b"r".to_vec()), PathComponent::Normal(vec![0xc0, 0x80])];
    assert_eq!(
        create_archive_from_directory(&components("r"), vec![entry]).unwrap_err(),
        DecafError::InvalidPath
    );
}

#[test]
fn loading_gives_a_file_its_content_and_digest() {
    let pending = ArchivableListing {
        relative_path: "file1.txt".to_string(),
        permissions: 0o100644,
        file_size: 999,
        literal_path: "/abs/file1.txt".to_string(),
    };
    assert!(pending.has_content());
    let listing = pending.load(b"Hello, world!".to_vec());
    assert_eq!(listing.path, "file1.txt");
    assert_eq!(listing.permissions, 0o100644);
    assert_eq!(listing.content, b"Hello, world!".to_vec());
    assert_eq!(listing.content_checksum, xxhash_rust::xxh3::xxh3_64(b"Hello, world!"));
}

#[test]
fn loading_gives_a_bare_directory_nothing() {
    let pending = ArchivableListing {
        relative_path: "empty".to_string(),
        permissions: 0o040755,
        file_size: 0,
        literal_path: String::new(),
    };
    assert!(!pending.has_content());
    let listing = pending.load(b"ignored".to_vec());
    assert_eq!(listing.path, "empty");
    assert!(listing.content.is_empty());
    assert_eq!(listing.content_checksum, 0);
}

#[test]
fn contained_paths_stay_below_their_start() {
    assert!(path_is_contained(b"file1.txt"));
    assert!(path_is_contained(b"subdir/file2.txt"));
    assert!(path_is_contained(b"a/../b"));
    assert!(path_is_contained(b"a/b/../../c"));
    assert!(path_is_contained(b"./a"));
    assert!(path_is_contained(b"a//b"));
    assert!(path_is_contained(b"a/"));
    assert!(path_is_contained(b"..."));
    assert!(path_is_contained(b"."));
}

#[test]
fn paths_that_leave_are_not_contained() {
    assert!(!path_is_contained(b""));
    assert!(!path_is_contained(b"/etc/passwd"));
    assert!(!path_is_contained(b"/"));
    assert!(!path_is_contained(b".."));
    assert!(!path_is_contained(b"../a"));
    assert!(!path_is_contained(b"a/../../b"));
    assert!(!path_is_contained(b"a/../.."));
    assert!(!path_is_contained(b"./../a"));
    assert!(!path_is_contained(b"a\0b"));
    assert!(!path_is_contained(b"a/b\0"));
}

#[test]
fn well_formed_listing_has_contained_path_and_fitting_checksum() {
    assert!(Listing::file("a/b".to_string(), 0o100644, b"x".to_vec()).is_well_formed());
    assert!(Listing::directory("d".to_string(), 0o040755).is_well_formed());
    assert!(!Listing::file("../b".to_string(), 0o100644, b"x".to_vec()).is_well_formed());
    assert!(!Listing::file("".to_string(), 0o100644, b"x".to_vec()).is_well_formed());
    assert!(!Listing::file("d".to_string(), 0o040755, b"x".to_vec()).is_well_formed());
    assert!(Listing::file("d".to_string(), 0o040755, Vec::new()).content_checksum != 0);
    assert!(!Listing::file("d".to_string(), 0o040755, Vec::new()).is_well_formed());
    let mut wrong = Listing::file("a".to_string(), 0o100644, b"x".to_vec());
    wrong.content_checksum ^= 1;
    assert!(!wrong.is_well_formed());
    let mut full = Listing::directory("d".to_string(), 0o040755);
    full.content.push(1);
    assert!(!full.is_well_formed());
}

#[test]
fn loading_sorts_again_by_content() {
    let entries = vec![
        found("r/aa", EntryKind::File, 0o100644, 3),
        found("r/bb", EntryKind::File, 0o100644, 3),
        found("r/empty", EntryKind::EmptyDirectory, 0o040755, 0),
    ];
    let archive = create_archive_from_directory(&components("r"), entries).unwrap();
    let paths: Vec<&str> =
        archive.listings.iter().map(|listing| listing.relative_path.as_str()).collect();
    assert_eq!(paths, vec!["empty", "aa", "bb"]);
    let contents = vec![b"unused".to_vec(), b"zzz".to_vec(), b"aaa".to_vec()];
    let listings = archive.load(contents).unwrap();
    let paths: Vec<&str> = listings.iter().map(|listing| listing.path.as_str()).collect();
    assert_eq!(paths, vec!["empty", "bb", "aa"]);
    assert!(listings[0].content.is_empty());
    assert_eq!(listings[1].content, b"aaa".to_vec());
    assert_eq!(listings[1].content_checksum, xxhash_rust::xxh3::xxh3_64(b"aaa"));
    assert_eq!(listings[2].content, b"zzz".to_vec());
    for pair in listings.windows(2) {
        assert!(pair[0].precedes(&pair[1]));
    }
}

#[test]
fn loading_needs_one_content_for_each_listing() {
    let entries = vec![found("r/aa", EntryKind::File, 0o100644, 3)];
    let archive = create_archive_from_directory(&components("r"), entries).unwrap();
    assert!(archive.load(Vec::new()).is_none());
    assert!(archive.load(vec![Vec::new(), Vec::new()]).is_none());
    assert_eq!(archive.load(vec![b"abc".to_vec()]).unwrap().len(), 1);
}
