use gitrs::errors::GitError;
use gitrs::object_util::{
    decode_object, get_header_size, get_header_type, get_object_path, to_hex_string, Object,
};

#[test]
fn test_get_header_type_with_blob() {
    let header = [0x62, 0x6C, 0x6F, 0x62, 32u8, 0x31, 0x35, 0x0];
    assert_eq!(Object::Blob, get_header_type(&header).unwrap());
}

#[test]
fn test_get_header_type_with_tree() {
    let header = [0x74, 0x72, 0x65, 0x65, 32u8, 0x31, 0x35, 0x0];
    assert_eq!(Object::Tree, get_header_type(&header).unwrap());
}

#[test]
fn test_get_header_type_with_commit() {
    let header = [0x63, 0x6F, 0x6D, 0x6D, 0x69, 0x74, 32u8, 0x31, 0x35, 0x0];
    assert_eq!(Object::Commit, get_header_type(&header).unwrap());
}

#[test]
fn test_get_header_type_with_unknown_kind() {
    let header = [0x65, 32u8, 0x31, 0x35, 0x0];
    assert!(matches!(get_header_type(&header), Err(GitError::InvalidHeader)));
}

#[test]
fn test_get_header_type_with_missing_space() {
    let header = [0x62, 0x6C, 0x6F, 0x62, 0x0];
    assert!(matches!(get_header_type(&header), Err(GitError::InvalidHeader)));
}

#[test]
fn test_get_header_size_when_valid() {
    let header = [0x62, 0x6C, 0x6F, 0x62, 32u8, 0x31, 0x35, 0x0];
    assert_eq!("15", get_header_size(&header).unwrap());
}

#[test]
fn test_get_header_size_without_space() {
    let header = [0x62, 0x6C, 0x6F, 0x62];
    assert!(matches!(get_header_size(&header), Err(GitError::InvalidHeader)));
}

#[test]
fn test_get_header_size_with_extra_spaces() {
    let header = [0x62, 0x6C, 0x6F, 0x62, 32u8, 32u8, 0x31, 0x35, 0x0];
    assert_eq!("", get_header_size(&header).unwrap());
}

#[test]
fn test_to_hex_string() {
    let array = [1u8, 2u8, 3u8, 45u8];
    assert_eq!("0102032d", to_hex_string(&array));
}

#[test]
fn test_get_object_path_shards_by_first_two_chars() {
    let path = get_object_path("4b825dc642cb6eb9a060e54bf8d69288fbee4904");
    assert_eq!("gitrs/objects/4b/825dc642cb6eb9a060e54bf8d69288fbee4904", path);
}

#[test]
fn test_decode_object_rejects_garbage() {
    let garbage = vec![0x01u8, 0x02, 0x03, 0x04];
    assert!(matches!(decode_object(&garbage), Err(GitError::CorruptObject)));
}
