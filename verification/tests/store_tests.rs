use gitrs::errors::GitError;
use gitrs::hash_object::{create_store, generate_hash, write_hash_object};
use gitrs::object_util::{decode_object, to_hex_string, Object};
use gitrs::store::ObjectStore;
use sha1::{Digest, Sha1};
use std::io::Read;

#[test]
fn test_create_store_blob() {
    let content = "Hello, World";
    let store = "blob 12\0Hello, World";
    assert_eq!(store, create_store(content));
}

#[test]
fn test_generate_hash_matches_reference_digest() {
    let content = b"Hello, World".to_vec();
    let expected = to_hex_string(Sha1::digest(b"blob 12\0Hello, World").as_slice());
    assert_eq!(expected, generate_hash(&content));
}

#[test]
fn test_hash_determinism() {
    let mut store = ObjectStore::new();
    let content = b"some file contents\n".to_vec();
    let h1 = write_hash_object(&mut store, &content);
    let h2 = write_hash_object(&mut store, &content);
    assert_eq!(h1, h2);
    assert_eq!(40, h1.len());
}

#[test]
fn test_idempotent_store_writes() {
    let mut store = ObjectStore::new();
    let content = b"idempotent".to_vec();
    let h1 = store.put(Object::Blob, &content);
    assert_eq!(1, store.object_count());
    let first = store.read_object_file(&h1).unwrap();
    let h2 = store.put(Object::Blob, &content);
    assert_eq!(h1, h2);
    assert_eq!(1, store.object_count());
    let second = store.read_object_file(&h1).unwrap();
    assert_eq!(first, second);
}

#[test]
fn test_distinct_contents_get_distinct_objects() {
    let mut store = ObjectStore::new();
    let h1 = store.put(Object::Blob, &b"one".to_vec());
    let h2 = store.put(Object::Blob, &b"two".to_vec());
    assert_ne!(h1, h2);
    assert_eq!(2, store.object_count());
}

#[test]
fn test_read_missing_object_fails() {
    let store = ObjectStore::new();
    let r = store.read_object_file("4b825dc642cb6eb9a060e54bf8d69288fbee4904");
    assert!(matches!(r, Err(GitError::ObjectNotFound)));
}

#[test]
fn test_stored_bytes_are_zlib_compressed_frame() {
    let mut store = ObjectStore::new();
    let content = b"Hello, World".to_vec();
    let hash = store.put(Object::Blob, &content);
    let compressed = store.read_object_file(&hash).unwrap();
    // The stored payload is a real zlib stream of the framed buffer.
    let mut decoder = flate2::read::ZlibDecoder::new(&compressed[..]);
    let mut raw = Vec::new();
    decoder.read_to_end(&mut raw).unwrap();
    assert_eq!(b"blob 12\0Hello, World".to_vec(), raw);
    assert_ne!(raw, compressed);
    // The library's own decoder agrees.
    assert_eq!(raw, decode_object(&compressed).unwrap());
}

#[test]
fn test_exists_object() {
    let mut store = ObjectStore::new();
    let hash = store.put(Object::Blob, &b"x".to_vec());
    assert!(store.exists_object(&hash));
    assert!(!store.exists_object("0000000000000000000000000000000000000000"));
}
