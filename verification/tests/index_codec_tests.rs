use gitrs::errors::GitError;
use gitrs::index_util::{
    array_to_int, entry_well_formed, flags_to_length, hash_to_vec, mode_to_permissions,
    parse_index, write_index, IndexFile,
};

fn sample_entry(name: &str, perm: &str, hash: &str) -> IndexFile {
    IndexFile {
        ctime: 1_700_000_000,
        ctime_fractions: 12345,
        mtime: 1_700_000_100,
        mtime_fractions: 67890,
        dev: Some(2049),
        ino: None,
        permissions: perm.to_string(),
        uid: Some(1000),
        gid: None,
        size: 42,
        object_hash: hash.to_string(),
        filename: name.to_string(),
    }
}

const HASH_A: &str = "4b825dc642cb6eb9a060e54bf8d69288fbee4904";
const HASH_B: &str = "0102032d0102032d0102032d0102032d0102032d";

#[test]
fn test_mode_to_permissons_rw() {
    let permissions = [0b1000_0001, 0b1010_0100];
    assert_eq!("644", mode_to_permissions(&permissions))
}

#[test]
fn test_mode_to_permissons_rwx() {
    let permissions = [0b1000_0001, 0b1110_1101];
    assert_eq!("755", mode_to_permissions(&permissions))
}

#[test]
fn test_array_to_int_size_4() {
    let array = [0x0u8, 0xB, 0xB, 0x8];
    assert_eq!(723720, array_to_int(&array));
}

#[test]
fn test_array_to_int_oversized() {
    let array = [0x0u8, 0xB, 0xB, 0x8, 0xF, 0xF];
    assert_eq!(723720, array_to_int(&array))
}

#[test]
fn test_flags_to_length_max() {
    let array = [0b1000_0000, 0xFF];
    assert_eq!(255, flags_to_length(&array))
}

#[test]
fn test_flags_to_length_average() {
    let array = [0b1000_0000, 0x0F];
    assert_eq!(15, flags_to_length(&array))
}

#[test]
fn test_flags_to_length_uses_low_twelve_bits() {
    let array = [0b1000_1111, 0xFF];
    assert_eq!(0xFFF, flags_to_length(&array))
}

#[test]
fn test_hash_to_vec() {
    let hash = "4b825dc642cb6eb9a060e54bf8d69288fbee4904";
    let bytes = vec![
        0x4b, 0x82, 0x5d, 0xc6, 0x42, 0xcb, 0x6e, 0xb9, 0xa0, 0x60, 0xe5, 0x4b, 0xf8, 0xd6, 0x92,
        0x88, 0xfb, 0xee, 0x49, 0x04,
    ];
    assert_eq!(bytes, hash_to_vec(hash));
}

#[test]
fn test_hash_to_vec_accepts_uppercase() {
    let bytes = vec![0xABu8, 0xCD, 0xEF];
    assert_eq!(bytes, hash_to_vec("ABCDEF"));
}

#[test]
fn test_write_index_empty_table() {
    let items: Vec<IndexFile> = Vec::new();
    let bytes = write_index(&items);
    assert_eq!(
        vec![0x44u8, 0x49, 0x52, 0x43, 0, 0, 0, 2, 0, 0, 0, 0],
        bytes
    );
}

#[test]
fn test_round_trip_identity() {
    let items = vec![
        sample_entry("a.txt", "644", HASH_A),
        sample_entry("src/long-ish name with spaces.rs", "755", HASH_B),
        sample_entry("z", "644", HASH_B),
    ];
    for item in items.iter() {
        assert!(entry_well_formed(item));
    }
    let bytes = write_index(&items);
    let (header, decoded) = parse_index(&bytes).unwrap();
    assert_eq!("DIRC", header.magic);
    assert_eq!(2, header.version);
    assert_eq!(3, header.num_files);
    assert_eq!(items.len(), decoded.len());
    for (a, b) in items.iter().zip(decoded.iter()) {
        assert_eq!(a.ctime, b.ctime);
        assert_eq!(a.ctime_fractions, b.ctime_fractions);
        assert_eq!(a.mtime, b.mtime);
        assert_eq!(a.mtime_fractions, b.mtime_fractions);
        assert_eq!(a.dev, b.dev);
        assert_eq!(a.ino, b.ino);
        assert_eq!(a.permissions, b.permissions);
        assert_eq!(a.uid, b.uid);
        assert_eq!(a.gid, b.gid);
        assert_eq!(a.size, b.size);
        assert_eq!(a.object_hash, b.object_hash);
        assert_eq!(a.filename, b.filename);
    }
}

#[test]
fn test_round_trip_zero_entries() {
    let items: Vec<IndexFile> = Vec::new();
    let bytes = write_index(&items);
    let (header, decoded) = parse_index(&bytes).unwrap();
    assert_eq!(0, header.num_files);
    assert!(decoded.is_empty());
}

#[test]
fn test_padding_boundary() {
    // For filename lengths 1..8 the padded record must land on the next
    // multiple of eight strictly greater than the unpadded length.
    for len in 1usize..=8 {
        let name: String = "abcdefgh".chars().take(len).collect();
        let items = vec![sample_entry(&name, "644", HASH_A)];
        let bytes = write_index(&items);
        let record_len = bytes.len() - 12;
        let unpadded = 60 + len;
        assert_eq!(0, record_len % 8, "record not eight-aligned for len {}", len);
        assert!(record_len > unpadded, "padding was zero for len {}", len);
        assert!(record_len - unpadded <= 8, "padding over eight for len {}", len);
    }
}

#[test]
fn test_padding_formula_exhaustive() {
    // The same boundary, across every representable-but-short name length.
    for len in 0usize..=0xFFE {
        let name = "a".repeat(len);
        let items = vec![sample_entry(&name, "644", HASH_A)];
        let bytes = write_index(&items);
        let record_len = bytes.len() - 12;
        let unpadded = 60 + len;
        assert_eq!(0, record_len % 8);
        assert!(record_len > unpadded && record_len - unpadded <= 8);
    }
}

#[test]
fn test_round_trip_long_names() {
    // Lengths that need the high nibble of the 12-bit length field.
    for len in [255usize, 256, 0xFFE] {
        let name = "n".repeat(len);
        let items = vec![sample_entry(&name, "755", HASH_B)];
        let bytes = write_index(&items);
        let (_, decoded) = parse_index(&bytes).unwrap();
        assert_eq!(name, decoded[0].filename);
        assert_eq!("755", decoded[0].permissions);
    }
}

#[test]
fn test_permission_round_trip() {
    for perm in ["644", "755"] {
        let items = vec![sample_entry("f", perm, HASH_A)];
        let bytes = write_index(&items);
        let (_, decoded) = parse_index(&bytes).unwrap();
        assert_eq!(perm, decoded[0].permissions);
    }
}

#[test]
fn test_parse_index_rejects_bad_magic() {
    let bytes = vec![0x44u8, 0x49, 0x52, 0x58, 0, 0, 0, 2, 0, 0, 0, 0];
    assert!(matches!(parse_index(&bytes), Err(GitError::UnsupportedVersion)));
}

#[test]
fn test_parse_index_rejects_bad_version() {
    let bytes = vec![0x44u8, 0x49, 0x52, 0x43, 0, 0, 0, 3, 0, 0, 0, 0];
    assert!(matches!(parse_index(&bytes), Err(GitError::UnsupportedVersion)));
}

#[test]
fn test_parse_index_rejects_truncated_header() {
    let bytes = vec![0x44u8, 0x49, 0x52, 0x43, 0, 0];
    assert!(matches!(parse_index(&bytes), Err(GitError::TruncatedIndex)));
}

#[test]
fn test_parse_index_rejects_truncated_entry() {
    // Count says one entry, but no entry bytes follow.
    let bytes = vec![0x44u8, 0x49, 0x52, 0x43, 0, 0, 0, 2, 0, 0, 0, 1];
    assert!(matches!(parse_index(&bytes), Err(GitError::TruncatedIndex)));
}

#[test]
fn test_entry_well_formed_rejects_other_permissions() {
    let entry = sample_entry("a.txt", "600", HASH_A);
    assert!(!entry_well_formed(&entry));
}
