use memfs::{Entry, Error, Filesystem, Session};

#[test]
fn list_directory_root() {
    let mut session = Session::new(Filesystem::new());
    session.create_directory("/a").unwrap();
    session.create_file("/a/1.txt").unwrap();
    session.create_file("/b").unwrap();

    let entries: Vec<_> = session.list_directory("/").unwrap().into_iter().map(Entry::name).collect();

    assert_eq!(entries, &["a".as_bytes(), "b".as_bytes()]);
}

#[test]
fn list_directory_subdirectory() {
    let mut session = Session::new(Filesystem::new());
    session.create_directory("/a").unwrap();
    session.create_file("/a/1.txt").unwrap();
    session.create_file("/b").unwrap();

    let entries: Vec<_> = session.list_directory("/a").unwrap().into_iter().map(Entry::name).collect();

    assert_eq!(entries, &["1.txt".as_bytes()]);
}

#[test]
fn list_directory_not_directory() {
    let mut session = Session::new(Filesystem::new());
    session.create_file("/a").unwrap();

    let res = session.list_directory("/a");

    assert!(matches!(res, Err(Error::NotDirectory(_))));
}
