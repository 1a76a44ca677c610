use objstore::commands::cat_file::{locate, render, show};
use objstore::commands::hash_object::hash_object;
use objstore::error::Error;
use objstore::hash::to_hex;
use objstore::objects::{Kind, Object};
use objstore::store::{Placement, OBJECTS_DIR, TEMPORARY_NAME};
use std::collections::HashMap;

#[test]
fn placement_splits_the_hex_name() {
    let written = Object::blob(b"hello\n".to_vec()).write().unwrap();
    let place = Placement::of(&written.hash);
    assert_eq!(place.dir, "ce");
    assert_eq!(place.file, "013625030ba8dba906f756967f9e9ca394464a");
    assert_eq!(place.relative(), "ce/013625030ba8dba906f756967f9e9ca394464a");
    assert_eq!(OBJECTS_DIR, ".git/objects");
    assert_eq!(TEMPORARY_NAME, "temporary");
}

#[test]
fn lookup_takes_the_full_form_only() {
    let place = Placement::lookup("ce013625030ba8dba906f756967f9e9ca394464a").unwrap();
    assert_eq!(place.dir, "ce");
    assert_eq!(place.file, "013625030ba8dba906f756967f9e9ca394464a");
    assert!(matches!(Placement::lookup(""), Err(Error::NotFound)));
    assert!(matches!(Placement::lookup("ce01362"), Err(Error::NotFound)));
    assert!(matches!(
        Placement::lookup("ce013625030ba8dba906f756967f9e9ca394464"),
        Err(Error::NotFound)
    ));
    assert!(matches!(
        Placement::lookup("ce013625030ba8dba906f756967f9e9ca394464a0"),
        Err(Error::NotFound)
    ));
    assert!(matches!(
        Placement::lookup("CE013625030BA8DBA906F756967F9E9CA394464A"),
        Err(Error::NotFound)
    ));
    assert!(matches!(
        Placement::lookup("ge013625030ba8dba906f756967f9e9ca394464a"),
        Err(Error::NotFound)
    ));
    assert!(matches!(
        Placement::lookup("ce013625030ba8dba906f756967f9e9ca39446é"),
        Err(Error::NotFound)
    ));
    assert!(matches!(
        Placement::lookup("ce/13625030ba8dba906f756967f9e9ca394464a"),
        Err(Error::NotFound)
    ));
}

#[test]
fn lookup_agrees_with_placement() {
    for content in [&b""[..], &b"a"[..], &b"hello\n"[..]] {
        let written = hash_object(content.to_vec()).unwrap();
        let place = Placement::of(&written.hash);
        let found = Placement::lookup(&to_hex(&written.hash)).unwrap();
        assert_eq!(place.dir, found.dir);
        assert_eq!(place.file, found.file);
    }
}

#[test]
fn storing_twice_keeps_one_object() {
    let mut store: HashMap<String, Vec<u8>> = HashMap::new();
    let first = hash_object(b"same content".to_vec()).unwrap();
    store.insert(Placement::of(&first.hash).relative(), first.data);
    let second = hash_object(b"same content".to_vec()).unwrap();
    assert_eq!(first.hash, second.hash);
    store.insert(Placement::of(&second.hash).relative(), second.data);
    assert_eq!(store.len(), 1);
    let stored = &store[&Placement::of(&first.hash).relative()];
    assert_eq!(render(stored), Ok(b"same content".to_vec()));
    let other = hash_object(b"other content".to_vec()).unwrap();
    store.insert(Placement::of(&other.hash).relative(), other.data);
    assert_eq!(store.len(), 2);
}

#[test]
fn hash_object_names_the_blob() {
    let written = hash_object(b"hello\n".to_vec()).unwrap();
    assert_eq!(to_hex(&written.hash), "ce013625030ba8dba906f756967f9e9ca394464a");
    let object = Object::read(&written.data).unwrap();
    assert_eq!(object.kind, Kind::Blob);
    assert_eq!(object.payload(), Ok(b"hello\n".to_vec()));
}

#[test]
fn cat_file_wants_the_pretty_form() {
    assert!(matches!(
        locate(false, "ce013625030ba8dba906f756967f9e9ca394464a"),
        Err(Error::ModeRequired)
    ));
    assert!(matches!(locate(false, "x"), Err(Error::ModeRequired)));
    assert!(matches!(locate(true, "x"), Err(Error::NotFound)));
    let place = locate(true, "ce013625030ba8dba906f756967f9e9ca394464a").unwrap();
    assert_eq!(place.relative(), "ce/013625030ba8dba906f756967f9e9ca394464a");
}

#[test]
fn cat_file_prints_blobs_only() {
    let blob = hash_object(b"hello\n".to_vec()).unwrap();
    assert_eq!(render(&blob.data), Ok(b"hello\n".to_vec()));
    let tree = Object::new(Kind::Tree, Vec::new()).write().unwrap();
    assert_eq!(render(&tree.data), Err(Error::UnexpectedKind { found: Kind::Tree }));
    assert_eq!(
        show(Object::new(Kind::Commit, b"x".to_vec())),
        Err(Error::UnexpectedKind { found: Kind::Commit })
    );
    assert_eq!(show(Object::blob(b"x".to_vec())), Ok(b"x".to_vec()));
    assert_eq!(render(b"not an object"), Err(Error::Io));
}

#[test]
fn cat_file_checks_the_size() {
    let short = Object { kind: Kind::Blob, expected_size: 7, reader: b"hello\n".to_vec() };
    let written = short.write().unwrap();
    assert_eq!(
        render(&written.data),
        Err(Error::SizeMismatch { expected: 7, actual: 6 })
    );
    let long = Object { kind: Kind::Blob, expected_size: 5, reader: b"hello\n".to_vec() };
    let written = long.write().unwrap();
    assert_eq!(render(&written.data), Ok(b"hello".to_vec()));
}
