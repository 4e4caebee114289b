use gitrs::errors::GitError;
use gitrs::index_util::parse_index;
use gitrs::ls_tree::{format_tree, ls_tree};
use gitrs::object_util::{to_hex_string, Object};
use gitrs::store::ObjectStore;
use gitrs::update_index::{add_to_index, FileStat};
use gitrs::write_tree::{build_tree, write_index_to_tree, write_tree};
use sha1::{Digest, Sha1};

fn stat(name: &str, content: &[u8]) -> FileStat {
    FileStat {
        filename: name.to_string(),
        content: content.to_vec(),
        ctime: 1_700_000_000,
        mtime: 1_700_000_100,
        size: content.len() as u32,
    }
}

#[test]
fn test_format_tree_handles_empty_tree() {
    let decoded = [116u8, 114, 101, 101, 32, 48, 0];
    let store = ObjectStore::new();
    assert_eq!("", format_tree(&store, &decoded).unwrap());
}

#[test]
fn test_format_tree_rejects_blob() {
    let decoded = b"blob 2\0hi";
    let store = ObjectStore::new();
    assert!(matches!(format_tree(&store, decoded), Err(GitError::NotATree)));
}

#[test]
fn test_format_tree_rejects_missing_header() {
    let store = ObjectStore::new();
    assert!(matches!(
        format_tree(&store, b"no nul byte here"),
        Err(GitError::InvalidHeader)
    ));
}

#[test]
fn test_dangling_reference_gate() {
    let mut store = ObjectStore::new();
    let items = vec![gitrs::index_util::IndexFile {
        ctime: 0,
        ctime_fractions: 0,
        mtime: 0,
        mtime_fractions: 0,
        dev: None,
        ino: None,
        permissions: "644".to_string(),
        uid: None,
        gid: None,
        size: 3,
        object_hash: "4b825dc642cb6eb9a060e54bf8d69288fbee4904".to_string(),
        filename: "a.txt".to_string(),
    }];
    // The referenced object is absent: the strict build fails and names it.
    match build_tree(&mut store, &items, false) {
        Err(GitError::DanglingReference { permissions, object_hash, filename }) => {
            assert_eq!("644", permissions);
            assert_eq!("4b825dc642cb6eb9a060e54bf8d69288fbee4904", object_hash);
            assert_eq!("a.txt", filename);
        },
        other => panic!("expected DanglingReference, got {:?}", other),
    }
    assert_eq!(0, store.object_count());
    // Tolerating missing objects always succeeds.
    let hash = build_tree(&mut store, &items, true).unwrap();
    assert_eq!(40, hash.len());
    // Once the blob exists, the strict build succeeds too.
    let mut store2 = ObjectStore::new();
    let blob = store2.put(Object::Blob, &b"abc".to_vec());
    let items2 = vec![gitrs::index_util::IndexFile {
        object_hash: blob.clone(),
        ..clone_entry(&items[0])
    }];
    assert!(build_tree(&mut store2, &items2, false).is_ok());
}

fn clone_entry(e: &gitrs::index_util::IndexFile) -> gitrs::index_util::IndexFile {
    e.clone()
}

#[test]
fn test_write_tree_renders_dangling_error() {
    let mut store = ObjectStore::new();
    let new_file = stat("a.txt", b"abc");
    let index_bytes = add_to_index(&mut store, &Vec::new(), &Vec::new(), &new_file).unwrap();
    // Forget the store: the tree build must now report the blob missing.
    let mut empty_store = ObjectStore::new();
    let blob_hash = store.object_at(0).0;
    let message = write_tree(&mut empty_store, &index_bytes, false);
    let expected = format!(
        "error: invalid object 644 {} for a.txt\nfatal: write-tree: error building trees",
        blob_hash
    );
    assert_eq!(expected, message);
}

#[test]
fn test_end_to_end_add_and_write_tree() {
    let mut store = ObjectStore::new();
    let new_file = stat("a.txt", b"Hello, World");
    let index_bytes = add_to_index(&mut store, &Vec::new(), &Vec::new(), &new_file).unwrap();

    let expected_blob = to_hex_string(Sha1::digest(b"blob 12\0Hello, World").as_slice());
    let (header, items) = parse_index(&index_bytes).unwrap();
    assert_eq!(1, header.num_files);
    assert_eq!(expected_blob, items[0].object_hash);
    assert_eq!("a.txt", items[0].filename);
    assert_eq!("644", items[0].permissions);

    let tree_hash = write_index_to_tree(&mut store, &index_bytes, false).unwrap();
    let listing = ls_tree(&store, &tree_hash).unwrap();
    assert_eq!(format!("100644 blob {}\ta.txt\n", expected_blob), listing);
}

#[test]
fn test_ls_tree_missing_object() {
    let store = ObjectStore::new();
    assert!(matches!(
        ls_tree(&store, "4b825dc642cb6eb9a060e54bf8d69288fbee4904"),
        Err(GitError::ObjectNotFound)
    ));
}

#[test]
fn test_tree_listing_orders_entries_as_staged() {
    let mut store = ObjectStore::new();
    let bytes1 = add_to_index(&mut store, &Vec::new(), &Vec::new(), &stat("b.txt", b"bee")).unwrap();
    let (_, items1) = parse_index(&bytes1).unwrap();
    let stats1 = vec![stat("b.txt", b"bee")];
    let bytes2 = add_to_index(&mut store, &items1, &stats1, &stat("a.txt", b"ay")).unwrap();
    let tree_hash = write_index_to_tree(&mut store, &bytes2, false).unwrap();
    let listing = ls_tree(&store, &tree_hash).unwrap();
    let lines: Vec<&str> = listing.lines().collect();
    assert_eq!(2, lines.len());
    assert!(lines[0].ends_with("b.txt"));
    assert!(lines[1].ends_with("a.txt"));
}
