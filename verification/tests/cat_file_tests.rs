use gitrs::cat_file::{cat_file, parse_args, CatFlags};
use gitrs::errors::GitError;
use gitrs::object_util::Object;
use gitrs::store::ObjectStore;

#[test]
fn test_parse_args_recognizes_flags() {
    let (flag, hash) = parse_args("-p", "abc123").unwrap();
    assert!(matches!(flag, CatFlags::Print));
    assert_eq!("abc123", hash);
    assert!(matches!(parse_args("-t", "x").unwrap().0, CatFlags::Type));
    assert!(matches!(parse_args("-s", "x").unwrap().0, CatFlags::Size));
}

#[test]
fn test_parse_args_rejects_unknown_flag() {
    let err = parse_args("-z", "abc").unwrap_err();
    assert_eq!("-z is not recognized as a valid option", err);
}

#[test]
fn test_cat_file_print_blob() {
    let mut store = ObjectStore::new();
    let hash = store.put(Object::Blob, &b"Hello, World".to_vec());
    let out = cat_file(&store, CatFlags::Print, &hash).unwrap();
    assert_eq!("Hello, World", out);
}

#[test]
fn test_cat_file_type_and_size() {
    let mut store = ObjectStore::new();
    let hash = store.put(Object::Blob, &b"Hello, World".to_vec());
    assert_eq!("blob\n", cat_file(&store, CatFlags::Type, &hash).unwrap());
    assert_eq!("12\n", cat_file(&store, CatFlags::Size, &hash).unwrap());
}

#[test]
fn test_cat_file_missing_object() {
    let store = ObjectStore::new();
    let r = cat_file(&store, CatFlags::Print, "4b825dc642cb6eb9a060e54bf8d69288fbee4904");
    assert!(matches!(r, Err(GitError::ObjectNotFound)));
}

#[test]
fn test_cat_file_print_rejects_non_utf8_blob() {
    let mut store = ObjectStore::new();
    let hash = store.put(Object::Blob, &vec![0xFFu8, 0xFE, 0xFD]);
    let r = cat_file(&store, CatFlags::Print, &hash);
    assert!(matches!(r, Err(GitError::CorruptObject)));
}

#[test]
fn test_cat_file_print_tree_lists_entries() {
    let mut store = ObjectStore::new();
    let blob = store.put(Object::Blob, &b"abc".to_vec());
    // Tree content: "100644 a.txt\0" + 20 binary hash bytes.
    let mut content = b"100644 a.txt\0".to_vec();
    content.extend_from_slice(&gitrs::index_util::hash_to_vec(&blob));
    let tree = store.put(Object::Tree, &content);
    let out = cat_file(&store, CatFlags::Print, &tree).unwrap();
    assert_eq!(format!("100644 blob {}\ta.txt\n", blob), out);
}

#[test]
fn test_error_messages() {
    assert_eq!("Invalid header", GitError::InvalidHeader.message());
    assert_eq!(
        "This file already exists in the index",
        GitError::DuplicateEntry.message()
    );
}
