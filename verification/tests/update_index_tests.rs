use gitrs::errors::GitError;
use gitrs::index_util::parse_index;
use gitrs::store::ObjectStore;
use gitrs::update_index::{add_to_index, update_index, FileStat};

fn stat(name: &str, content: &[u8], mtime: u32) -> FileStat {
    FileStat {
        filename: name.to_string(),
        content: content.to_vec(),
        ctime: 1_600_000_000,
        mtime,
        size: content.len() as u32,
    }
}

#[test]
fn test_add_to_index_rejects_duplicate() {
    let mut store = ObjectStore::new();
    let bytes = add_to_index(&mut store, &Vec::new(), &Vec::new(), &stat("a.txt", b"one", 10))
        .unwrap();
    let (_, items) = parse_index(&bytes).unwrap();
    let stats = vec![stat("a.txt", b"one", 10)];
    let r = add_to_index(&mut store, &items, &stats, &stat("a.txt", b"two", 20));
    assert!(matches!(r, Err(GitError::DuplicateEntry)));
}

#[test]
fn test_add_to_index_appends_new_entry() {
    let mut store = ObjectStore::new();
    let bytes = add_to_index(&mut store, &Vec::new(), &Vec::new(), &stat("a.txt", b"one", 10))
        .unwrap();
    let (_, items) = parse_index(&bytes).unwrap();
    let stats = vec![stat("a.txt", b"one", 10)];
    let bytes2 = add_to_index(&mut store, &items, &stats, &stat("b.txt", b"two", 20)).unwrap();
    let (header, items2) = parse_index(&bytes2).unwrap();
    assert_eq!(2, header.num_files);
    assert_eq!("a.txt", items2[0].filename);
    assert_eq!("b.txt", items2[1].filename);
    assert_eq!(20, items2[1].mtime);
    assert_eq!(0, items2[1].ctime_fractions);
    assert_eq!(None, items2[1].dev);
    assert_eq!("644", items2[1].permissions);
}

#[test]
fn test_update_index_refreshes_entries() {
    let mut store = ObjectStore::new();
    let bytes = add_to_index(&mut store, &Vec::new(), &Vec::new(), &stat("a.txt", b"one", 10))
        .unwrap();
    let (_, items) = parse_index(&bytes).unwrap();
    let old_hash = items[0].object_hash.clone();
    // The working file changed: refreshing updates hash, mtime and size.
    let stats = vec![stat("a.txt", b"changed contents", 99)];
    let bytes2 = update_index(&mut store, &items, &stats);
    let (_, items2) = parse_index(&bytes2).unwrap();
    assert_eq!(1, items2.len());
    assert_ne!(old_hash, items2[0].object_hash);
    assert_eq!(99, items2[0].mtime);
    assert_eq!(16, items2[0].size);
    // The original timestamps that refresh does not touch are kept.
    assert_eq!(items[0].ctime, items2[0].ctime);
}

#[test]
fn test_update_index_unchanged_file_keeps_hash() {
    let mut store = ObjectStore::new();
    let bytes = add_to_index(&mut store, &Vec::new(), &Vec::new(), &stat("a.txt", b"one", 10))
        .unwrap();
    let (_, items) = parse_index(&bytes).unwrap();
    let stats = vec![stat("a.txt", b"one", 10)];
    let bytes2 = update_index(&mut store, &items, &stats);
    let (_, items2) = parse_index(&bytes2).unwrap();
    assert_eq!(items[0].object_hash, items2[0].object_hash);
    assert_eq!(bytes, bytes2);
}
