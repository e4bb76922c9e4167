use memfs::{clean_path, Borrowed, Directory, Entry, Error, File, Filesystem, Session, Walk};

fn names(session: &Session, path: &str) -> Vec<Vec<u8>> {
    session.list_directory(path).unwrap().into_iter().map(|e| e.name().to_vec()).collect()
}

#[test]
fn clean_path_idempotent_on_plain_paths() {
    let once = clean_path("/x//y/").unwrap();
    assert_eq!(once, b"/x/y".to_vec());
    let twice = clean_path(std::str::from_utf8(&once).unwrap()).unwrap();
    assert_eq!(twice, once);
    assert_eq!(clean_path("/").unwrap(), b"/".to_vec());
}

#[test]
fn clean_path_dot_and_dot_dot() {
    assert_eq!(clean_path("/a/../b").unwrap(), clean_path("/b").unwrap());
    assert_eq!(clean_path("/a/../b").unwrap(), b"/b".to_vec());
    assert_eq!(clean_path("/a/./b").unwrap(), clean_path("/a/b").unwrap());
    assert_eq!(clean_path("/a/./b").unwrap(), b"/a/b".to_vec());
    assert!(matches!(clean_path("/.."), Err(Error::NoParent(p)) if p == b"/..".to_vec()));
}

#[test]
fn clean_path_relative_is_not_absolute() {
    assert!(matches!(clean_path("a/b"), Err(Error::NotAbsolute(p)) if p == b"a/b".to_vec()));
    assert!(matches!(clean_path(""), Err(Error::NotAbsolute(_))));
}

#[test]
fn create_directory_twice_names_the_taken_name() {
    let mut session = Session::new(Filesystem::new());
    session.create_directory("/a").unwrap();
    assert!(session.resolve("/a").unwrap().1.is_directory());
    assert!(matches!(session.create_directory("/a"), Err(Error::Exists(n)) if n == b"a".to_vec()));
}

#[test]
fn create_file_names_missing_parent() {
    let mut session = Session::new(Filesystem::new());
    assert!(matches!(session.create_file("/a/b"), Err(Error::NotExist(n)) if n == b"a".to_vec()));
}

#[test]
fn write_appends() {
    let mut session = Session::new(Filesystem::new());
    session.create_file("/a").unwrap();
    session.create_file("/b").unwrap();
    session.write_file("/a", b"x".to_vec()).unwrap();
    session.write_file("/a", b"y".to_vec()).unwrap();
    assert_eq!(session.read_file("/a").unwrap(), "xy");
    assert_eq!(session.read_file("/b").unwrap(), "");
}

#[test]
fn read_replaces_invalid_utf8() {
    let mut session = Session::new(Filesystem::new());
    session.create_file("/a").unwrap();
    session.write_file("/a", vec![0x66, 0xff, 0x67]).unwrap();
    assert_eq!(session.read_file("/a").unwrap(), "f\u{FFFD}g");
}

#[test]
fn move_rollback_keeps_source() {
    let mut session = Session::new(Filesystem::new());
    session.create_file("/a").unwrap();
    session.write_file("/a", b"kept".to_vec()).unwrap();
    let res = session.move_entry("/a", "/z/w");
    assert!(matches!(res, Err(Error::NotExist(n)) if n == b"z".to_vec()));
    assert!(session.resolve("/a").is_ok());
    assert_eq!(session.read_file("/a").unwrap(), "kept");
    assert_eq!(names(&session, "/"), vec![b"a".to_vec()]);
}

#[test]
fn move_into_own_descendant_is_rolled_back() {
    let mut session = Session::new(Filesystem::new());
    session.create_directory("/a").unwrap();
    session.create_file("/a/1").unwrap();
    let res = session.move_entry("/a", "/a/b");
    assert!(matches!(res, Err(Error::NotExist(n)) if n == b"a".to_vec()));
    assert_eq!(names(&session, "/a"), vec![b"1".to_vec()]);
}

#[test]
fn move_directory_renames_and_keeps_children() {
    let mut session = Session::new(Filesystem::new());
    session.create_directory("/a").unwrap();
    session.create_file("/a/1").unwrap();
    session.move_entry("/a", "/b").unwrap();
    assert!(matches!(session.resolve("/a"), Err(Error::NotExist(n)) if n == b"a".to_vec()));
    assert_eq!(names(&session, "/b"), vec![b"1".to_vec()]);
    assert_eq!(session.resolve("/b").unwrap().1.name(), b"b");
}

#[test]
fn move_overwrites_destination() {
    let mut session = Session::new(Filesystem::new());
    session.create_file("/a").unwrap();
    session.create_file("/b").unwrap();
    session.write_file("/a", b"1".to_vec()).unwrap();
    session.write_file("/b", b"2".to_vec()).unwrap();
    session.move_entry("/a", "/b").unwrap();
    assert_eq!(session.read_file("/b").unwrap(), "1");
    assert_eq!(names(&session, "/"), vec![b"b".to_vec()]);
}

#[test]
fn move_missing_source_names_source() {
    let mut session = Session::new(Filesystem::new());
    assert!(matches!(session.move_entry("/q", "/r"), Err(Error::NotExist(n)) if n == b"/q".to_vec()));
}

#[test]
fn list_is_in_name_order() {
    let mut session = Session::new(Filesystem::new());
    session.create_file("/c").unwrap();
    session.create_directory("/a").unwrap();
    session.create_file("/b").unwrap();
    session.create_file("/ab").unwrap();
    assert_eq!(names(&session, "/"), vec![b"a".to_vec(), b"ab".to_vec(), b"b".to_vec(), b"c".to_vec()]);
}

#[test]
fn walk_skip_leaves_out_descendants_only() {
    let mut session = Session::new(Filesystem::new());
    session.create_directory("/a").unwrap();
    session.create_file("/a/1").unwrap();
    session.create_file("/a/2").unwrap();
    session.create_file("/b").unwrap();
    session.create_directory("/c").unwrap();
    session.create_file("/c/3").unwrap();
    let visited = session
        .walk("/", |path: &[u8], _entry: &Borrowed| if path == b"/a" { Walk::Skip } else { Walk::Continue })
        .unwrap();
    let expected: Vec<Vec<u8>> = vec![b"/".to_vec(), b"/a".to_vec(), b"/b".to_vec(), b"/c".to_vec(), b"/c/3".to_vec()];
    assert_eq!(visited, expected);
}

#[test]
fn walk_visits_everything_in_preorder() {
    let mut session = Session::new(Filesystem::new());
    session.create_directory("/b").unwrap();
    session.create_file("/b/2").unwrap();
    session.create_file("/b/1").unwrap();
    session.create_file("/a").unwrap();
    let visited = session.walk("/b", |_: &[u8], _: &Borrowed| Walk::from(())).unwrap();
    let expected: Vec<Vec<u8>> = vec![b"/b".to_vec(), b"/b/1".to_vec(), b"/b/2".to_vec()];
    assert_eq!(visited, expected);
    assert!(matches!(session.walk("/x", |_: &[u8], _: &Borrowed| Walk::Continue), Err(Error::NotExist(_))));
}

#[test]
fn remove_root_has_no_parent() {
    let mut session = Session::new(Filesystem::new());
    assert!(matches!(session.remove("/"), Err(Error::NoParent(p)) if p == b"/".to_vec()));
}

#[test]
fn remove_takes_subtree() {
    let mut session = Session::new(Filesystem::new());
    session.create_directory("/a").unwrap();
    session.create_file("/a/1").unwrap();
    session.remove("/a").unwrap();
    assert!(matches!(session.resolve("/a/1"), Err(Error::NotExist(n)) if n == b"a".to_vec()));
}

#[test]
fn relative_paths_follow_current_directory() {
    let mut session = Session::new(Filesystem::new());
    assert_eq!(session.current_directory(), b"/");
    session.create_directory("/a").unwrap();
    session.change_directory("a").unwrap();
    assert_eq!(session.current_directory(), b"/a");
    session.create_file("b").unwrap();
    assert!(session.resolve("/a/b").unwrap().1.is_file());
    let (path, _) = session.resolve("./b").unwrap();
    assert_eq!(path, b"/a/b".to_vec());
    session.change_directory("..").unwrap();
    assert_eq!(session.current_directory(), b"/");
    assert!(matches!(session.change_directory("../.."), Err(Error::NoParent(_))));
}

#[test]
fn error_variants() {
    let mut session = Session::new(Filesystem::new());
    session.create_directory("/d").unwrap();
    session.create_file("/f").unwrap();
    assert!(matches!(session.read_file("/d"), Err(Error::NotFile(p)) if p == b"/d".to_vec()));
    assert!(matches!(session.write_file("/d", vec![1]), Err(Error::NotFile(p)) if p == b"/d".to_vec()));
    assert!(matches!(session.resolve("/f/x"), Err(Error::NotDirectory(n)) if n == b"f".to_vec()));
    assert!(matches!(session.create_file("/f/x"), Err(Error::NotDirectory(p)) if p == b"/f".to_vec()));
    assert!(matches!(session.list_directory("/f"), Err(Error::NotDirectory(p)) if p == b"/f".to_vec()));
    assert!(matches!(session.change_directory("/f"), Err(Error::NotDirectory(p)) if p == b"/f".to_vec()));
    assert!(matches!(session.create_directory("/"), Err(Error::NoParent(_))));
    assert!(matches!(session.remove("/d/x"), Err(Error::NotExist(n)) if n == b"x".to_vec()));
}

#[test]
fn data_model() {
    let fs = Filesystem::default();
    assert_eq!(fs.root.metadata.name, b"/".to_vec());
    assert!(fs.root.entries.is_empty());
    assert!(fs.root.metadata.created_at >= 0);
    let dir = Directory::new(b"d".to_vec());
    assert_eq!(dir.metadata.name, b"d".to_vec());
    let mut entry = Entry::File(File::new(b"f".to_vec()));
    assert!(entry.is_file() && !entry.is_directory());
    entry.rename(b"g".to_vec());
    assert_eq!(entry.name(), b"g");
    assert_eq!(entry.metadata().name, b"g".to_vec());
    let d = Entry::Directory(dir);
    assert!(d.is_directory());
    assert!(Borrowed::from_entry(&d).is_directory());
    assert_eq!(Walk::from(()), Walk::Continue);
}
