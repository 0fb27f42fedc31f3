use just_bash::{normalize_absolute, parent_dir, BashError, InMemoryFs, StringMap};

fn fs_error(message: &str) -> BashError {
    BashError::FileSystem(message.to_string())
}

#[test]
fn new_filesystem_holds_standard_directories() {
    let fs = InMemoryFs::new();
    assert!(fs.is_dir("/"));
    assert!(fs.is_dir("/tmp"));
    assert!(fs.is_dir("/home"));
    assert!(fs.is_dir("/home/user"));
    assert!(!fs.is_file("/tmp"));
    assert_eq!(fs.list_dir("/").unwrap(), vec!["home".to_string(), "tmp".to_string()]);
    let default_fs = InMemoryFs::default();
    assert_eq!(default_fs.list_dir("/home").unwrap(), vec!["user".to_string()]);
}

#[test]
fn write_then_read_gives_contents_back_at_normalized_path() {
    let mut fs = InMemoryFs::new();
    fs.write_file("/tmp/./a/../f.txt", "data").unwrap();
    assert_eq!(fs.read_file("/tmp/f.txt").unwrap(), "data");
    assert!(fs.is_file("/tmp/f.txt"));
    assert!(fs.path_exists("/tmp/f.txt"));
    fs.write_file("/tmp/f.txt", "new").unwrap();
    assert_eq!(fs.read_file("/tmp/f.txt").unwrap(), "new");
}

#[test]
fn write_leaves_other_files_alone() {
    let mut fs = InMemoryFs::new();
    fs.write_file("/tmp/a", "one").unwrap();
    fs.write_file("/tmp/b", "two").unwrap();
    assert_eq!(fs.read_file("/tmp/a").unwrap(), "one");
    assert_eq!(fs.read_file("/tmp/b").unwrap(), "two");
}

#[test]
fn write_errors_name_the_offending_path() {
    let mut fs = InMemoryFs::new();
    assert_eq!(
        fs.write_file("/nope/f", "x"),
        Err(fs_error("/nope: No such file or directory"))
    );
    fs.write_file("/tmp/f", "x").unwrap();
    assert_eq!(
        fs.write_file("/tmp/f/g", "x"),
        Err(fs_error("/tmp/f: Not a directory"))
    );
    assert_eq!(fs.write_file("/tmp", "x"), Err(fs_error("/tmp: Is a directory")));
    assert!(fs.is_dir("/tmp"));
    assert_eq!(fs.read_file("/tmp/f").unwrap(), "x");
}

#[test]
fn read_errors_for_missing_paths_and_directories() {
    let fs = InMemoryFs::new();
    assert_eq!(
        fs.read_file("/missing"),
        Err(fs_error("/missing: No such file or directory"))
    );
    assert_eq!(fs.read_file("/tmp"), Err(fs_error("/tmp: Is a directory")));
}

#[test]
fn append_creates_then_extends() {
    let mut fs = InMemoryFs::new();
    fs.append_file("/tmp/log", "a").unwrap();
    fs.append_file("/tmp//log", "b").unwrap();
    assert_eq!(fs.read_file("/tmp/log").unwrap(), "ab");
    assert_eq!(fs.append_file("/tmp", "x"), Err(fs_error("/tmp: Is a directory")));
    assert_eq!(
        fs.append_file("/none/log", "x"),
        Err(fs_error("/none: No such file or directory"))
    );
}

#[test]
fn create_dir_all_makes_every_level() {
    let mut fs = InMemoryFs::new();
    fs.create_dir_all("/a/b/c").unwrap();
    assert!(fs.is_dir("/a"));
    assert!(fs.is_dir("/a/b"));
    assert!(fs.is_dir("/a/b/c"));
    fs.create_dir_all("/a/b/c").unwrap();
    assert!(fs.is_dir("/a/b/c"));
    fs.write_file("/a/file", "x").unwrap();
    assert_eq!(
        fs.create_dir_all("/a/file/sub"),
        Err(fs_error("/a/file: Not a directory"))
    );
}

#[test]
fn create_dir_needs_parent_and_a_free_name() {
    let mut fs = InMemoryFs::new();
    fs.create_dir("/tmp/d").unwrap();
    assert!(fs.is_dir("/tmp/d"));
    assert_eq!(fs.create_dir("/tmp/d"), Err(fs_error("/tmp/d: File exists")));
    assert_eq!(
        fs.create_dir("/x/y"),
        Err(fs_error("/x: No such file or directory"))
    );
    fs.write_file("/tmp/f", "").unwrap();
    assert_eq!(fs.create_dir("/tmp/f/g"), Err(fs_error("/tmp/f: Not a directory")));
}

#[test]
fn remove_clears_the_path_and_everything_below() {
    let mut fs = InMemoryFs::new();
    fs.create_dir_all("/d/e").unwrap();
    fs.write_file("/d/e/f", "x").unwrap();
    fs.write_file("/dx", "keep").unwrap();
    assert_eq!(fs.remove("/d", false), Err(fs_error("/d: Directory not empty")));
    fs.remove("/d", true).unwrap();
    assert!(!fs.path_exists("/d"));
    assert!(!fs.path_exists("/d/e"));
    assert!(!fs.path_exists("/d/e/f"));
    assert_eq!(fs.read_file("/dx").unwrap(), "keep");
    fs.remove("/dx", false).unwrap();
    assert!(!fs.path_exists("/dx"));
    assert_eq!(fs.remove("/", true), Err(fs_error("cannot remove '/'")));
    assert_eq!(
        fs.remove("/gone", false),
        Err(fs_error("/gone: No such file or directory"))
    );
    assert!(fs.is_dir("/"));
}

#[test]
fn list_dir_gives_sorted_unique_names() {
    let mut fs = InMemoryFs::new();
    fs.write_file("/tmp/b", "").unwrap();
    fs.create_dir_all("/tmp/a").unwrap();
    fs.write_file("/tmp/a/x", "").unwrap();
    fs.write_file("/tmp/a/y", "").unwrap();
    fs.write_file("/tmp/c", "").unwrap();
    assert_eq!(
        fs.list_dir("/tmp").unwrap(),
        vec!["a".to_string(), "b".to_string(), "c".to_string()]
    );
    assert_eq!(fs.list_dir("/tmp/b"), Err(fs_error("/tmp/b: Not a directory")));
    assert_eq!(fs.list_dir("/tmp/a").unwrap(), vec!["x".to_string(), "y".to_string()]);
}

#[test]
fn with_files_creates_parent_directories() {
    let mut files = StringMap::new();
    files.insert("/srv/app/config".to_string(), "k=v".to_string());
    files.insert("/srv/readme".to_string(), "hi".to_string());
    let fs = InMemoryFs::with_files(files).unwrap();
    assert!(fs.is_dir("/srv"));
    assert!(fs.is_dir("/srv/app"));
    assert_eq!(fs.read_file("/srv/app/config").unwrap(), "k=v");
    assert_eq!(fs.read_file("/srv/readme").unwrap(), "hi");
}

#[test]
fn with_files_fails_when_a_parent_is_a_file() {
    let mut files = StringMap::new();
    files.insert("/tmp/f".to_string(), "x".to_string());
    files.insert("/tmp/f/g".to_string(), "y".to_string());
    assert_eq!(
        InMemoryFs::with_files(files).unwrap_err(),
        fs_error("/tmp/f: Not a directory")
    );
}

#[test]
fn normalize_absolute_resolves_dots_and_slashes() {
    assert_eq!(normalize_absolute("a/b/../c"), "/a/c");
    assert_eq!(normalize_absolute("/../x"), "/x");
    assert_eq!(normalize_absolute(""), "/");
    assert_eq!(normalize_absolute("/a//b/./"), "/a/b");
    assert_eq!(normalize_absolute("/"), "/");
    let once = normalize_absolute("x/./y/../z//");
    assert_eq!(once, "/x/z");
    assert_eq!(normalize_absolute(&once), once);
}

#[test]
fn parent_dir_of_paths() {
    assert_eq!(parent_dir("/a/b"), "/a");
    assert_eq!(parent_dir("/a"), "/");
    assert_eq!(parent_dir("/"), "/");
    assert_eq!(parent_dir("a/b/.."), "/");
    assert_eq!(parent_dir("/a/b/c/"), "/a/b");
}

#[test]
fn bash_error_to_string_gives_the_message() {
    assert_eq!(BashError::Parse("bad".to_string()).to_string(), "bad");
    assert_eq!(BashError::FileSystem("worse".to_string()).to_string(), "worse");
}

#[test]
fn create_dir_all_twice_changes_nothing_and_leaves_others_alone() {
    let mut fs = InMemoryFs::new();
    fs.write_file("/tmp/keep", "k").unwrap();
    fs.create_dir_all("/tmp/a/./b//c").unwrap();
    assert!(fs.is_dir("/tmp/a"));
    assert!(fs.is_dir("/tmp/a/b"));
    assert!(fs.is_dir("/tmp/a/b/c"));
    let before = fs.clone();
    fs.create_dir_all("/tmp/a/b/c").unwrap();
    assert_eq!(fs.list_dir("/tmp").unwrap(), before.list_dir("/tmp").unwrap());
    assert_eq!(fs.list_dir("/tmp/a/b").unwrap(), vec!["c".to_string()]);
    assert_eq!(fs.read_file("/tmp/keep").unwrap(), "k");
    assert_eq!(fs.list_dir("/home").unwrap(), vec!["user".to_string()]);
}

#[test]
fn seeded_files_read_back_at_their_normalized_paths() {
    let mut files = StringMap::new();
    files.insert("/tmp/./one.txt".to_string(), "1".to_string());
    files.insert("/home/user/two.txt".to_string(), "2".to_string());
    files.insert("/three.txt".to_string(), "3".to_string());
    let fs = InMemoryFs::with_files(files).unwrap();
    assert_eq!(fs.read_file("/tmp/one.txt").unwrap(), "1");
    assert_eq!(fs.read_file("/home/user/two.txt").unwrap(), "2");
    assert_eq!(fs.read_file("/three.txt").unwrap(), "3");
    assert!(fs.is_dir("/tmp"));
    assert!(fs.is_dir("/home/user"));
}

#[test]
fn listing_names_each_child_once_through_deeper_paths_too() {
    let mut fs = InMemoryFs::new();
    fs.create_dir_all("/tmp/d/e/f").unwrap();
    fs.write_file("/tmp/d/e/g.txt", "g").unwrap();
    fs.write_file("/tmp/z.txt", "z").unwrap();
    assert_eq!(fs.list_dir("/tmp").unwrap(), vec!["d".to_string(), "z.txt".to_string()]);
    assert_eq!(fs.list_dir("/tmp/d/e").unwrap(), vec!["f".to_string(), "g.txt".to_string()]);
    assert_eq!(fs.list_dir("/tmp/d/e/f").unwrap(), Vec::<String>::new());
}

#[test]
fn normalized_paths_have_clean_segments() {
    assert_eq!(normalize_absolute("a//b/./c/"), "/a/b/c");
    assert_eq!(normalize_absolute("/../.."), "/");
    assert_eq!(normalize_absolute(&normalize_absolute("x/../y//z")), "/y/z");
}

#[test]
fn create_dir_all_through_a_file_fails_and_changes_nothing() {
    let mut fs = InMemoryFs::new();
    fs.write_file("/tmp/f", "x").unwrap();
    let before = fs.list_dir("/tmp").unwrap();
    assert_eq!(
        fs.create_dir_all("/tmp/f/g/h").unwrap_err(),
        fs_error("/tmp/f: Not a directory")
    );
    assert_eq!(fs.list_dir("/tmp").unwrap(), before);
    assert_eq!(fs.read_file("/tmp/f").unwrap(), "x");
    assert!(!fs.path_exists("/tmp/f/g"));
    fs.create_dir_all("/tmp/new/deep").unwrap();
    assert!(fs.is_dir("/tmp/new/deep"));
}

#[test]
fn remove_without_recursion_takes_only_files_and_empty_directories() {
    let mut fs = InMemoryFs::new();
    fs.create_dir_all("/tmp/d/e").unwrap();
    fs.write_file("/tmp/f", "x").unwrap();
    assert_eq!(
        fs.remove("/tmp/d", false).unwrap_err(),
        fs_error("/tmp/d: Directory not empty")
    );
    assert!(fs.is_dir("/tmp/d/e"));
    fs.remove("/tmp/d/e", false).unwrap();
    fs.remove("/tmp/d", false).unwrap();
    fs.remove("/tmp/f", false).unwrap();
    assert_eq!(fs.list_dir("/tmp").unwrap(), Vec::<String>::new());
}

#[test]
fn parent_then_last_segment_gives_the_path_back() {
    assert_eq!(parent_dir("/a/b/../c"), "/a");
    assert_eq!(parent_dir("/tmp"), "/");
    assert_eq!(normalize_absolute(&format!("{}/{}", parent_dir("/a/b/../c"), "c")), "/a/c");
    assert_eq!(normalize_absolute("a/./b/../../..//c/"), "/c");
}
