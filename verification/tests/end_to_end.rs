use objstore::commands::commit_tree::{write_commit, Signature};
use objstore::commands::hash_object::hash_object;
use objstore::commands::ls_tree::{format_entry, read_entries};
use objstore::commands::write_tree::{write_tree_for, Child};
use objstore::hash::to_hex;
use objstore::objects::{Header, Kind, Object, Written};
use objstore::store::Placement;
use std::collections::HashMap;

fn put(store: &mut HashMap<String, Vec<u8>>, written: Written) -> [u8; 20] {
    store.insert(Placement::of(&written.hash).relative(), written.data);
    written.hash
}

fn get<'a>(store: &'a HashMap<String, Vec<u8>>, hex: &str) -> &'a Vec<u8> {
    let place = Placement::lookup(hex).unwrap();
    &store[&place.relative()]
}

#[test]
fn blob_tree_commit() {
    let mut store: HashMap<String, Vec<u8>> = HashMap::new();

    let d1 = put(&mut store, hash_object(b"hello\n".to_vec()).unwrap());
    assert_eq!(to_hex(&d1), "ce013625030ba8dba906f756967f9e9ca394464a");

    let children = vec![Child {
        name: b"hello.txt".to_vec(),
        is_dir: false,
        is_symlink: false,
        permissions: 0o644,
        target: Some(d1),
    }];
    let d2 = put(&mut store, write_tree_for(&children).unwrap().unwrap());

    let who = Signature::utc("A U Thor", "author@example.com", 1700000000);
    let d3 = put(
        &mut store,
        write_commit("initial", &to_hex(&d2), None, &who, &who).unwrap(),
    );
    assert_eq!(store.len(), 3);

    let commit = Object::read(get(&store, &to_hex(&d3))).unwrap();
    assert_eq!(commit.kind, Kind::Commit);
    let payload = commit.payload().unwrap();
    let text = String::from_utf8(payload).unwrap();
    assert!(text.contains(&format!("tree {}", to_hex(&d2))));
    assert!(text.starts_with(&format!("tree {}\n", to_hex(&d2))));
    assert!(text.ends_with("initial\n"));
    assert!(!text.contains("parent"));

    let entries = read_entries(get(&store, &to_hex(&d2))).unwrap();
    assert_eq!(entries.len(), 1);
    assert_eq!(entries[0].hash, d1);
    let kind = Header::read(get(&store, &to_hex(&entries[0].hash))).unwrap().kind;
    assert_eq!(
        format_entry(&entries[0], kind),
        Ok(b"100644 blob ce013625030ba8dba906f756967f9e9ca394464a hello.txt\n".to_vec())
    );
}

#[test]
fn nested_directories() {
    let mut store: HashMap<String, Vec<u8>> = HashMap::new();
    let file = put(&mut store, hash_object(b"fn main() {}\n".to_vec()).unwrap());
    let src = vec![Child {
        name: b"main.rs".to_vec(),
        is_dir: false,
        is_symlink: false,
        permissions: 0o644,
        target: Some(file),
    }];
    let src_tree = put(&mut store, write_tree_for(&src).unwrap().unwrap());
    let empty = write_tree_for(&Vec::new()).unwrap().map(|w| w.hash);
    assert_eq!(empty, None);
    let root = vec![
        Child {
            name: b"src".to_vec(),
            is_dir: true,
            is_symlink: false,
            permissions: 0o755,
            target: Some(src_tree),
        },
        Child {
            name: b"target".to_vec(),
            is_dir: true,
            is_symlink: false,
            permissions: 0o755,
            target: empty,
        },
        Child {
            name: b"src.txt".to_vec(),
            is_dir: false,
            is_symlink: false,
            permissions: 0o644,
            target: Some(file),
        },
    ];
    let root_tree = put(&mut store, write_tree_for(&root).unwrap().unwrap());
    let entries = read_entries(get(&store, &to_hex(&root_tree))).unwrap();
    let names: Vec<&[u8]> = entries.iter().map(|e| &e.name[..]).collect();
    assert_eq!(names, vec![&b"src.txt"[..], &b"src"[..]]);
    assert_eq!(entries[1].hash, src_tree);
    assert!(entries[1].is_dir());
}
