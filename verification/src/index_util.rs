//! The binary staging-table codec.
//!
//! On-disk layout (big-endian throughout): a 12-byte header — the 4-byte
//! magic tag `DIRC`, a 4-byte format version that must be `2`, and a
//! 4-byte entry count — followed by one record per entry. A record holds
//! four 4-byte timestamp words, 4-byte device and inode words (`0` encodes
//! "absent"), a 2-byte mode, 4-byte uid, gid and size words, the 20-byte
//! binary object hash, a 2-byte flags word whose low 12 bits give the
//! filename byte length, the filename bytes themselves, and 1–8 NUL
//! padding bytes bringing the record to a multiple of eight bytes.

use crate::byteops::{
    all_ascii, ascii_bytes, ascii_chars, lemma_ascii_roundtrip, push_be32, push_bytes, push_zeros,
    spec_be32, spec_be32_val, str_equal, zeros,
};
use crate::errors::GitError;
use crate::object_util::{
    is_hex_char, is_lower_hex_byte, is_lower_hex_char, lemma_hex_char_byte, spec_hex_byte_val,
    spec_hex_pairs, spec_to_hex, to_hex_string,
};
use vstd::prelude::*;
use vstd::string::{StringExecFns, StringSliceAdditionalSpecFns};
use vstd::utf8::is_ascii_chars;

verus! {

broadcast use vstd::string::group_string_axioms;

/// The fixed-size header of the staging table.
#[derive(Debug)]
pub struct IndexHeader {
    pub magic: String,
    pub version: u32,
    pub num_files: u32,
}

/// One row of the staging table: metadata for a tracked path together
/// with a reference into the object store.
#[derive(Debug)]
pub struct IndexFile {
    pub ctime: u32,
    pub ctime_fractions: u32,
    pub mtime: u32,
    pub mtime_fractions: u32,
    pub dev: Option<u32>,
    pub ino: Option<u32>,
    pub permissions: String,
    pub uid: Option<u32>,
    pub gid: Option<u32>,
    pub size: u32,
    pub object_hash: String,
    pub filename: String,
}

/// The mathematical value of one staging entry.
#[verifier::ext_equal]
pub struct IndexEntryModel {
    pub ctime: u32,
    pub ctime_fractions: u32,
    pub mtime: u32,
    pub mtime_fractions: u32,
    pub dev: Option<u32>,
    pub ino: Option<u32>,
    pub permissions: Seq<char>,
    pub uid: Option<u32>,
    pub gid: Option<u32>,
    pub size: u32,
    pub object_hash: Seq<char>,
    pub filename: Seq<char>,
}

impl View for IndexFile {
    type V = IndexEntryModel;

    open spec fn view(&self) -> IndexEntryModel {
        IndexEntryModel {
            ctime: self.ctime,
            ctime_fractions: self.ctime_fractions,
            mtime: self.mtime,
            mtime_fractions: self.mtime_fractions,
            dev: self.dev,
            ino: self.ino,
            permissions: self.permissions@,
            uid: self.uid,
            gid: self.gid,
            size: self.size,
            object_hash: self.object_hash@,
            filename: self.filename@,
        }
    }
}

impl Clone for IndexFile {
    fn clone(&self) -> (r: Self)
        ensures
            r@ == self@,
    {
        IndexFile {
            ctime: self.ctime,
            ctime_fractions: self.ctime_fractions,
            mtime: self.mtime,
            mtime_fractions: self.mtime_fractions,
            dev: self.dev,
            ino: self.ino,
            permissions: self.permissions.clone(),
            uid: self.uid,
            gid: self.gid,
            size: self.size,
            object_hash: self.object_hash.clone(),
            filename: self.filename.clone(),
        }
    }
}

/// The models of a sequence of entries.
pub open spec fn models(files: Seq<IndexFile>) -> Seq<IndexEntryModel> {
    files.map(|i: int, f: IndexFile| f@)
}

/// The permission class granting read and write.
pub open spec fn perm_rw() -> Seq<char> {
    seq!['6', '4', '4']
}

/// The permission class granting read, write and execute.
pub open spec fn perm_rwx() -> Seq<char> {
    seq!['7', '5', '5']
}

/// A staging entry that the codec can write and read back unchanged:
/// its permission class is one of the two representable ones, its hash is
/// 40 lowercase hex characters, its filename is ASCII and fits the 12-bit
/// length field, and its optional fields never hold the reserved zero.
pub open spec fn wf_entry(e: IndexEntryModel) -> bool {
    &&& (e.permissions == perm_rw() || e.permissions == perm_rwx())
    &&& e.object_hash.len() == 40
    &&& (forall|i: int| 0 <= i < 40 ==> is_lower_hex_char(#[trigger] e.object_hash[i]))
    &&& is_ascii_chars(e.filename)
    &&& e.filename.len() <= 0xFFF
    &&& e.dev != Some(0u32)
    &&& e.ino != Some(0u32)
    &&& e.uid != Some(0u32)
    &&& e.gid != Some(0u32)
}

/// Checks whether an entry is well formed, so that callers outside the
/// library can test the codec's precondition before encoding.
pub fn entry_well_formed(f: &IndexFile) -> (r: bool)
    ensures
        r == wf_entry(f@),
{
    let perm_ok = {
        let is_rw = str_equal(f.permissions.as_str(), "644");
        let is_rwx = str_equal(f.permissions.as_str(), "755");
        proof {
            reveal_strlit("644");
            reveal_strlit("755");
            assert("644"@ =~= perm_rw());
            assert("755"@ =~= perm_rwx());
        }
        is_rw || is_rwx
    };
    let hash_ok = hash_chars_ok(f.object_hash.as_str());
    let name_str = f.filename.as_str();
    let name_ascii = name_str.is_ascii();
    let name_ok = name_ascii && name_str.as_bytes().len() <= 0xFFF;
    proof {
        if name_ascii {
            assert(vstd::string::is_ascii(name_str));
            assert(name_str.spec_bytes().len() == f.filename@.len());
        }
    }
    let opt_ok = f.dev != Some(0u32) && f.ino != Some(0u32) && f.uid != Some(0u32) && f.gid
        != Some(0u32);
    perm_ok && hash_ok && name_ok && opt_ok
}

/// Whether a string is exactly forty lowercase hex characters.
fn hash_chars_ok(s: &str) -> (r: bool)
    ensures
        r == (s@.len() == 40 && (forall|i: int|
            0 <= i < 40 ==> is_lower_hex_char(#[trigger] s@[i]))),
{
    let bytes = s.as_bytes();
    let n: usize = bytes.len();
    proof {
        if s.is_ascii() {
            vstd::string::is_ascii_spec_bytes(s);
        }
    }
    if !s.is_ascii() {
        // A non-ASCII string cannot be all hex digits; it may still be 40
        // characters, so report a mismatch through a found witness.
        proof {
            let i = choose|i: int| 0 <= i < s@.len() && !('\0' <= #[trigger] s@[i] <= '\u{7f}');
            if s@.len() == 40 {
                assert(!is_lower_hex_char(s@[i]));
            }
        }
        return false;
    }
    if n != 40 {
        return false;
    }
    let mut i: usize = 0;
    while i < 40
        invariant
            s.is_ascii(),
            n == 40,
            bytes@.len() == 40,
            s@.len() == 40,
            forall|j: int| 0 <= j < 40 ==> bytes@[j] == s@[j] as u8,
            0 <= i <= 40,
            forall|j: int| 0 <= j < i ==> is_lower_hex_char(#[trigger] s@[j]),
        decreases 40 - i,
    {
        let b = bytes[i];
        let ok = (48 <= b && b <= 57) || (97 <= b && b <= 102);
        proof {
            assert('\0' <= s@[i as int] <= '\u{7f}');
            assert(b == s@[i as int] as u8);
        }
        if !ok {
            proof {
                assert(!is_lower_hex_char(s@[i as int]));
            }
            return false;
        }
        i += 1;
    }
    true
}

/// The value of "absent" optional words: zero.
pub open spec fn opt32(o: Option<u32>) -> u32 {
    match o {
        Some(x) => x,
        None => 0,
    }
}

/// The two mode bytes of an entry: the regular-file type tag packed with
/// the permission class.
pub open spec fn spec_mode_bytes(perm: Seq<char>) -> Seq<u8> {
    seq![
        0x81u8,
        if perm == perm_rw() {
            0xA4u8
        } else {
            0xEDu8
        },
    ]
}

/// The permission class a mode's low byte encodes.
pub open spec fn spec_perm_of_mode(b: u8) -> Seq<char> {
    if b == 0xA4 {
        perm_rw()
    } else {
        perm_rwx()
    }
}

/// Encoding a representable permission class and reading the mode byte
/// back yields the same class; no other classes are representable.
pub proof fn lemma_permission_roundtrip(perm: Seq<char>)
    requires
        perm == perm_rw() || perm == perm_rwx(),
    ensures
        spec_perm_of_mode(spec_mode_bytes(perm)[1]) == perm,
{
}

/// The NUL padding after a record's filename: it brings the 60 fixed
/// bytes plus the filename to the next multiple of eight, and is never
/// zero bytes long.
pub open spec fn spec_entry_pad(name_len: nat) -> nat {
    (8 - ((60 + name_len) % 8)) as nat
}

/// Padding boundary: for any filename length, the padded record length is
/// the next multiple of eight strictly greater than the unpadded length.
pub proof fn lemma_padding_boundary(name_len: nat)
    ensures
        1 <= spec_entry_pad(name_len) <= 8,
        (60 + name_len + spec_entry_pad(name_len)) % 8 == 0,
        60 + name_len < 60 + name_len + spec_entry_pad(name_len),
{
    let total = 60 + name_len;
    let m = total % 8;
    vstd::arithmetic::div_mod::lemma_fundamental_div_mod(total as int, 8);
    assert(total + (8 - m) == (total / 8 + 1) * 8);
    vstd::arithmetic::div_mod::lemma_mod_multiples_basic((total / 8 + 1) as int, 8);
}

/// The two flags bytes of an entry: the assume-valid bit set, the
/// extended and stage bits clear, and the filename byte length in the low
/// twelve bits.
pub open spec fn spec_flags_bytes(name_len: nat) -> Seq<u8> {
    seq![(0x80 + name_len / 256) as u8, (name_len % 256) as u8]
}

/// The filename length the two flags bytes encode, from the low twelve
/// bits.
pub open spec fn spec_name_len(b0: u8, b1: u8) -> nat {
    ((b0 % 16) as nat) * 256 + (b1 as nat)
}

/// The flags bytes give back the length they encode.
pub proof fn lemma_flags_roundtrip(name_len: nat)
    requires
        name_len <= 0xFFF,
    ensures
        spec_name_len(spec_flags_bytes(name_len)[0], spec_flags_bytes(name_len)[1]) == name_len,
{
    let hi = (0x80 + name_len / 256) as u8;
    assert(name_len / 256 <= 15);
    assert(hi % 16 == name_len / 256) by {
        vstd::arithmetic::div_mod::lemma_fundamental_div_mod_converse(
            hi as int,
            16,
            8,
            (name_len / 256) as int,
        );
    }
    vstd::arithmetic::div_mod::lemma_fundamental_div_mod(name_len as int, 256);
}

/// The timestamp, device and inode words of one record: its first 24
/// bytes.
pub open spec fn spec_entry_stat(e: IndexEntryModel) -> Seq<u8> {
    spec_be32(e.ctime) + spec_be32(e.ctime_fractions) + spec_be32(e.mtime) + spec_be32(
        e.mtime_fractions,
    ) + spec_be32(opt32(e.dev)) + spec_be32(opt32(e.ino))
}

/// The mode, uid, gid and size fields of one record: 14 bytes.
pub open spec fn spec_entry_meta(e: IndexEntryModel) -> Seq<u8> {
    spec_mode_bytes(e.permissions) + spec_be32(opt32(e.uid)) + spec_be32(opt32(e.gid)) + spec_be32(
        e.size,
    )
}

/// The hash, flags, filename and padding of one record.
pub open spec fn spec_entry_tail(e: IndexEntryModel) -> Seq<u8> {
    spec_hex_pairs(ascii_bytes(e.object_hash)) + spec_flags_bytes(e.filename.len()) + ascii_bytes(
        e.filename,
    ) + zeros(spec_entry_pad(e.filename.len()))
}

/// The byte encoding of one staging entry.
pub open spec fn spec_encode_entry(e: IndexEntryModel) -> Seq<u8> {
    spec_entry_stat(e) + spec_entry_meta(e) + spec_entry_tail(e)
}

/// A well-formed entry encodes to its fixed fields plus filename plus
/// padding.
pub proof fn lemma_encode_entry_len(e: IndexEntryModel)
    requires
        wf_entry(e),
    ensures
        spec_entry_stat(e).len() == 24,
        spec_entry_meta(e).len() == 14,
        spec_entry_tail(e).len() == 22 + e.filename.len() + spec_entry_pad(e.filename.len()),
        spec_encode_entry(e).len() == 60 + e.filename.len() + spec_entry_pad(e.filename.len()),
{
    crate::object_util::lemma_hex_pairs_len(ascii_bytes(e.object_hash));
}

/// The byte encoding of a run of staging entries, in table order.
pub open spec fn spec_encode_entries(es: Seq<IndexEntryModel>) -> Seq<u8>
    decreases es.len(),
{
    if es.len() == 0 {
        seq![]
    } else {
        spec_encode_entry(es[0]) + spec_encode_entries(es.drop_first())
    }
}

/// Appending one entry appends its encoding.
pub proof fn lemma_encode_entries_snoc(es: Seq<IndexEntryModel>, e: IndexEntryModel)
    ensures
        spec_encode_entries(es.push(e)) == spec_encode_entries(es) + spec_encode_entry(e),
    decreases es.len(),
{
    if es.len() == 0 {
        let single = es.push(e);
        assert(single[0] == e);
        assert(single.drop_first() =~= Seq::<IndexEntryModel>::empty());
        assert(spec_encode_entries(single.drop_first()) == Seq::<u8>::empty());
        assert(spec_encode_entries(single) == spec_encode_entry(e) + spec_encode_entries(
            single.drop_first(),
        ));
        assert(spec_encode_entries(es) == Seq::<u8>::empty());
        assert(spec_encode_entries(es.push(e)) =~= spec_encode_entries(es) + spec_encode_entry(e));
    } else {
        assert(es.push(e).drop_first() =~= es.drop_first().push(e));
        lemma_encode_entries_snoc(es.drop_first(), e);
        assert(es.push(e)[0] == es[0]);
        assert(spec_encode_entries(es.push(e)) == spec_encode_entry(es[0]) + spec_encode_entries(
            es.drop_first().push(e),
        ));
        assert(spec_encode_entry(es[0]) + (spec_encode_entries(es.drop_first())
            + spec_encode_entry(e)) =~= (spec_encode_entry(es[0]) + spec_encode_entries(
            es.drop_first(),
        )) + spec_encode_entry(e));
    }
}

/// The magic tag that opens every staging table: the bytes `D I R C`.
pub open spec fn spec_index_magic() -> Seq<u8> {
    seq![0x44u8, 0x49u8, 0x52u8, 0x43u8]
}

/// The byte encoding of a whole staging table: magic, version 2, entry
/// count, then the entries in order.
pub open spec fn spec_encode_index(es: Seq<IndexEntryModel>) -> Seq<u8>
    recommends
        es.len() <= 0xFFFF_FFFF,
{
    spec_index_magic() + spec_be32(2) + spec_be32(es.len() as u32) + spec_encode_entries(es)
}

/// Serializes a staging table: the 12-byte header with the entry count,
/// then each entry's record. The encoding is byte-for-byte canonical, so
/// a table that was read and rewritten unchanged reproduces its bytes.
pub fn write_index(items: &Vec<IndexFile>) -> (r: Vec<u8>)
    requires
        items@.len() <= 0xFFFF_FFFF,
        forall|i: int| 0 <= i < items@.len() ==> wf_entry(#[trigger] items@[i]@),
    ensures
        r@ == spec_encode_index(models(items@)),
{
    let count: usize = items.len();
    let mut out: Vec<u8> = Vec::new();
    out.push(0x44u8);
    out.push(0x49u8);
    out.push(0x52u8);
    out.push(0x43u8);
    push_be32(&mut out, 2);
    push_be32(&mut out, count as u32);
    let ghost header = spec_index_magic() + spec_be32(2) + spec_be32(count as u32);
    proof {
        assert(out@ =~= header);
        assert(models(items@).subrange(0, 0) =~= Seq::<IndexEntryModel>::empty());
    }
    let mut i: usize = 0;
    while i < count
        invariant
            count == items@.len() <= 0xFFFF_FFFF,
            forall|k: int| 0 <= k < items@.len() ==> wf_entry(#[trigger] items@[k]@),
            0 <= i <= count,
            out@ == header + spec_encode_entries(models(items@).subrange(0, i as int)),
            header == spec_index_magic() + spec_be32(2) + spec_be32(count as u32),
        decreases count - i,
    {
        encode_entry_into(&mut out, &items[i]);
        proof {
            let pre = models(items@).subrange(0, i as int);
            lemma_encode_entries_snoc(pre, items@[i as int]@);
            assert(pre.push(items@[i as int]@) =~= models(items@).subrange(0, i + 1));
            assert(out@ =~= header + spec_encode_entries(models(items@).subrange(0, i + 1)));
        }
        i += 1;
    }
    proof {
        assert(models(items@).subrange(0, count as int) =~= models(items@));
        assert(out@ =~= spec_encode_index(models(items@)));
    }
    out
}

/// Appends one entry's record to the output buffer.
#[verifier::rlimit(100)]
#[verifier::spinoff_prover]
fn encode_entry_into(out: &mut Vec<u8>, f: &IndexFile)
    requires
        wf_entry(f@),
    ensures
        final(out)@ == old(out)@ + spec_encode_entry(f@),
{
    let ghost base = out@;
    push_be32(out, f.ctime);
    push_be32(out, f.ctime_fractions);
    push_be32(out, f.mtime);
    push_be32(out, f.mtime_fractions);
    push_be32(out, match f.dev {
        Some(x) => x,
        None => 0,
    });
    push_be32(out, match f.ino {
        Some(x) => x,
        None => 0,
    });
    proof {
        assert(out@ =~= base + spec_entry_stat(f@));
    }
    let ghost after_stat = out@;
    out.push(0x81u8);
    let is_rw = str_equal(f.permissions.as_str(), "644");
    proof {
        reveal_strlit("644");
        assert("644"@ =~= perm_rw());
    }
    if is_rw {
        out.push(0xA4u8);
    } else {
        out.push(0xEDu8);
    }
    push_be32(out, match f.uid {
        Some(x) => x,
        None => 0,
    });
    push_be32(out, match f.gid {
        Some(x) => x,
        None => 0,
    });
    push_be32(out, f.size);
    proof {
        assert(out@ =~= after_stat + spec_entry_meta(f@));
    }
    let ghost after_meta = out@;
    let hash_bytes = hash_to_vec(f.object_hash.as_str());
    push_bytes(out, hash_bytes.as_slice());
    let name_str = f.filename.as_str();
    let name_bytes = name_str.as_bytes();
    proof {
        vstd::string::is_ascii_spec_bytes(name_str);
        assert(name_bytes@ =~= ascii_bytes(f@.filename));
    }
    let name_len: usize = name_bytes.len();
    out.push((128 + name_len / 256) as u8);
    out.push((name_len % 256) as u8);
    push_bytes(out, name_bytes);
    let pad: usize = 8 - ((60 + name_len) % 8);
    push_zeros(out, pad);
    proof {
        crate::object_util::lemma_hex_pairs_len(ascii_bytes(f@.object_hash));
        assert(spec_hex_pairs(ascii_bytes(f@.object_hash)).len() == 20);
        assert(name_bytes@.len() == f@.filename.len());
        assert(out@ =~= after_meta + spec_entry_tail(f@));
        assert(((base + spec_entry_stat(f@)) + spec_entry_meta(f@)) + spec_entry_tail(f@) =~= base
            + spec_encode_entry(f@));
    }
}

/// Converts an object hash's hex text to the bytes it names, two hex
/// digits (of either case) per byte.
pub fn hash_to_vec(hash: &str) -> (r: Vec<u8>)
    requires
        hash@.len() % 2 == 0,
        forall|i: int| 0 <= i < hash@.len() ==> is_hex_char(#[trigger] hash@[i]),
    ensures
        r@ == spec_hex_pairs(ascii_bytes(hash@)),
{
    proof {
        assert forall|i: int| 0 <= i < hash@.len() implies '\0' <= #[trigger] hash@[i]
            <= '\u{7f}' by {
            lemma_hex_char_byte(hash@[i]);
        }
        vstd::string::is_ascii_spec_bytes(hash);
    }
    let bytes = hash.as_bytes();
    proof {
        assert(bytes@ =~= ascii_bytes(hash@));
        assert forall|i: int| 0 <= i < bytes@.len() implies crate::object_util::is_hex_byte(
            #[trigger] bytes@[i],
        ) by {
            lemma_hex_char_byte(hash@[i]);
            assert(bytes@[i] == hash@[i] as u8);
        }
    }
    let n: usize = bytes.len();
    let mut out: Vec<u8> = Vec::new();
    let mut j: usize = 0;
    proof {
        assert(bytes@.skip(0) =~= bytes@);
        assert(spec_hex_pairs(bytes@) =~= Seq::<u8>::empty() + spec_hex_pairs(bytes@));
    }
    while j < n
        invariant
            n == bytes@.len(),
            n % 2 == 0,
            j % 2 == 0,
            0 <= j <= n,
            forall|i: int|
                0 <= i < bytes@.len() ==> crate::object_util::is_hex_byte(#[trigger] bytes@[i]),
            spec_hex_pairs(bytes@) == out@ + spec_hex_pairs(bytes@.skip(j as int)),
        decreases n - j,
    {
        let b0 = bytes[j];
        let b1 = bytes[j + 1];
        let v0 = hex_byte_val(b0);
        let v1 = hex_byte_val(b1);
        out.push(v0 * 16 + v1);
        proof {
            let rest = bytes@.skip(j as int);
            assert(rest.len() >= 2);
            assert(rest[0] == b0 && rest[1] == b1);
            assert(rest.skip(2) =~= bytes@.skip(j + 2));
            assert(spec_hex_pairs(rest) == seq![(spec_hex_byte_val(b0) * 16 + spec_hex_byte_val(
                b1,
            )) as u8] + spec_hex_pairs(bytes@.skip(j + 2)));
            assert(spec_hex_pairs(bytes@) =~= out@ + spec_hex_pairs(bytes@.skip(j + 2)));
        }
        j += 2;
    }
    proof {
        assert(bytes@.skip(n as int) =~= Seq::<u8>::empty());
        assert(spec_hex_pairs(bytes@) =~= out@);
    }
    out
}

/// The value of one hex digit byte of either case.
fn hex_byte_val(b: u8) -> (r: u8)
    requires
        crate::object_util::is_hex_byte(b),
    ensures
        r == spec_hex_byte_val(b),
        r < 16,
{
    if 48 <= b && b <= 57 {
        b - 48
    } else if 97 <= b && b <= 102 {
        b - 87
    } else {
        b - 55
    }
}

/// Takes the first four bytes of `array` and reads them as a big-endian
/// unsigned integer.
pub fn array_to_int(array: &[u8]) -> (r: u32)
    requires
        array@.len() >= 4,
    ensures
        r == spec_be32_val(array@[0], array@[1], array@[2], array@[3]),
{
    let x0 = array[0];
    let x1 = array[1];
    let x2 = array[2];
    let x3 = array[3];
    proof {
        assert(((x0 as u32) << 24) <= 0xFF000000) by (bit_vector);
        assert(((x1 as u32) << 16) <= 0xFF0000) by (bit_vector);
        assert(((x2 as u32) << 8) <= 0xFF00) by (bit_vector);
    }
    ((x0 as u32) << 24) + ((x1 as u32) << 16) + ((x2 as u32) << 8) + (x3 as u32)
}

/// Takes the two mode bytes and returns the file permission class.
///
/// Only the low byte distinguishes the two representable classes: the
/// read-write pattern maps to `"644"`, anything else to `"755"`.
pub fn mode_to_permissions(array: &[u8]) -> (r: &'static str)
    requires
        array@.len() >= 2,
    ensures
        r@ == spec_perm_of_mode(array@[1]),
{
    if array[1] == 0xA4 {
        proof {
            reveal_strlit("644");
            assert("644"@ =~= perm_rw());
        }
        "644"
    } else {
        proof {
            reveal_strlit("755");
            assert("755"@ =~= perm_rwx());
        }
        "755"
    }
}

/// Takes the two flags bytes and returns the filename byte length held in
/// their low twelve bits.
pub fn flags_to_length(array: &[u8]) -> (r: u16)
    requires
        array@.len() >= 2,
    ensures
        r as nat == spec_name_len(array@[0], array@[1]),
        r <= 0xFFF,
{
    ((array[0] % 16) as u16) * 256 + (array[1] as u16)
}

/// The big-endian word at a position of a byte sequence.
pub open spec fn spec_be32_at(b: Seq<u8>, pos: int) -> u32
    recommends
        0 <= pos,
        pos + 4 <= b.len(),
{
    spec_be32_val(b[pos], b[pos + 1], b[pos + 2], b[pos + 3])
}

/// The optional word at a position: zero encodes "absent".
pub open spec fn spec_opt_at(b: Seq<u8>, pos: int) -> Option<u32> {
    if spec_be32_at(b, pos) == 0 {
        None
    } else {
        Some(spec_be32_at(b, pos))
    }
}

/// Decoding one record at a position: the entry it denotes and the
/// position just past its padding, or nothing when the bytes end before
/// the record does or its filename bytes are not ASCII.
pub open spec fn spec_decode_entry(b: Seq<u8>, pos: int) -> Option<(IndexEntryModel, int)>
    recommends
        0 <= pos,
{
    if pos + 60 > b.len() {
        None
    } else {
        let name_len = spec_name_len(b[pos + 58], b[pos + 59]);
        let total = pos + 60 + name_len + spec_entry_pad(name_len);
        if total > b.len() {
            None
        } else if !all_ascii(b.subrange(pos + 60, pos + 60 + name_len as int)) {
            None
        } else {
            Some(
                (
                    IndexEntryModel {
                        ctime: spec_be32_at(b, pos),
                        ctime_fractions: spec_be32_at(b, pos + 4),
                        mtime: spec_be32_at(b, pos + 8),
                        mtime_fractions: spec_be32_at(b, pos + 12),
                        dev: spec_opt_at(b, pos + 16),
                        ino: spec_opt_at(b, pos + 20),
                        permissions: spec_perm_of_mode(b[pos + 25]),
                        uid: spec_opt_at(b, pos + 26),
                        gid: spec_opt_at(b, pos + 30),
                        size: spec_be32_at(b, pos + 34),
                        object_hash: spec_to_hex(b.subrange(pos + 38, pos + 58)),
                        filename: ascii_chars(b.subrange(pos + 60, pos + 60 + name_len as int)),
                    },
                    total,
                ),
            )
        }
    }
}

/// Decoding `n` consecutive records from a position.
pub open spec fn spec_decode_entries(b: Seq<u8>, pos: int, n: nat) -> Option<Seq<IndexEntryModel>>
    decreases n,
{
    if n == 0 {
        Some(Seq::empty())
    } else {
        match spec_decode_entry(b, pos) {
            None => None,
            Some((e, pos2)) => match spec_decode_entries(b, pos2, (n - 1) as nat) {
                None => None,
                Some(rest) => Some(seq![e] + rest),
            },
        }
    }
}

/// What decoding a whole staging table yields: its entries, or the typed
/// failure. A magic tag other than `DIRC`, like a version other than 2,
/// is an unsupported format; bytes that end before a field or record do
/// make a truncated table. Trailing bytes after the counted records are
/// ignored.
pub open spec fn spec_parse_index(b: Seq<u8>) -> Result<Seq<IndexEntryModel>, GitError> {
    if b.len() < 12 {
        Err(GitError::TruncatedIndex)
    } else if b.subrange(0, 4) != spec_index_magic() {
        Err(GitError::UnsupportedVersion)
    } else if spec_be32_at(b, 4) != 2 {
        Err(GitError::UnsupportedVersion)
    } else {
        match spec_decode_entries(b, 12, spec_be32_at(b, 8) as nat) {
            None => Err(GitError::TruncatedIndex),
            Some(es) => Ok(es),
        }
    }
}

/// Reads the big-endian word at a position.
fn read_be32(b: &[u8], pos: usize) -> (r: u32)
    requires
        pos + 4 <= b@.len(),
    ensures
        r == spec_be32_at(b@, pos as int),
{
    let x0 = b[pos];
    let x1 = b[pos + 1];
    let x2 = b[pos + 2];
    let x3 = b[pos + 3];
    proof {
        assert(((x0 as u32) << 24) <= 0xFF000000) by (bit_vector);
        assert(((x1 as u32) << 16) <= 0xFF0000) by (bit_vector);
        assert(((x2 as u32) << 8) <= 0xFF00) by (bit_vector);
    }
    ((x0 as u32) << 24) + ((x1 as u32) << 16) + ((x2 as u32) << 8) + (x3 as u32)
}

/// Reads the optional word at a position, zero meaning "absent".
fn read_opt32(b: &[u8], pos: usize) -> (r: Option<u32>)
    requires
        pos + 4 <= b@.len(),
    ensures
        r == spec_opt_at(b@, pos as int),
        r != Some(0u32),
{
    let v = read_be32(b, pos);
    if v == 0 {
        None
    } else {
        Some(v)
    }
}

/// Decodes one record at a position.
#[verifier::loop_isolation(false)]
fn decode_index_entry(b: &[u8], pos: usize) -> (r: Result<(IndexFile, usize), GitError>)
    ensures
        match r {
            Ok(fp) => spec_decode_entry(b@, pos as int) == Some((fp.0@, fp.1 as int)) && wf_entry(
                fp.0@,
            ) && pos < fp.1 <= b@.len(),
            Err(e) => spec_decode_entry(b@, pos as int) is None && e == GitError::TruncatedIndex,
        },
{
    let n: usize = b.len();
    if n < 60 || pos > n - 60 {
        return Err(GitError::TruncatedIndex);
    }
    let flags0 = b[pos + 58];
    let flags1 = b[pos + 59];
    let name_len: usize = ((flags0 % 16) as usize) * 256 + (flags1 as usize);
    proof {
        assert(name_len as nat == spec_name_len(flags0, flags1));
    }
    let pad: usize = 8 - ((60 + name_len) % 8);
    proof {
        assert(pad as nat == spec_entry_pad(name_len as nat));
    }
    if n - pos - 60 < name_len + pad {
        return Err(GitError::TruncatedIndex);
    }
    let total: usize = pos + 60 + name_len + pad;
    let ghost name_range = b@.subrange(pos + 60, pos + 60 + name_len as int);
    let mut name_vec: Vec<u8> = Vec::new();
    let mut k: usize = 0;
    proof {
        assert(name_vec@ =~= name_range.subrange(0, 0));
    }
    while k < name_len
        invariant
            pos + 60 + name_len <= b@.len(),
            name_range == b@.subrange(pos + 60, pos + 60 + name_len as int),
            0 <= k <= name_len,
            name_vec@ == name_range.subrange(0, k as int),
            all_ascii(name_vec@),
        decreases name_len - k,
    {
        let byte = b[pos + 60 + k];
        proof {
            assert(name_range[k as int] == byte);
        }
        if byte >= 128 {
            proof {
                assert(!all_ascii(name_range));
            }
            return Err(GitError::TruncatedIndex);
        }
        name_vec.push(byte);
        k += 1;
        proof {
            assert(name_vec@ =~= name_range.subrange(0, k as int));
        }
    }
    proof {
        assert(name_vec@ =~= name_range);
    }
    let mut hash_vec: Vec<u8> = Vec::new();
    let mut j: usize = 0;
    while j < 20
        invariant
            pos + 60 <= b@.len(),
            0 <= j <= 20,
            hash_vec@ == b@.subrange(pos + 38, pos + 38 + j as int),
        decreases 20 - j,
    {
        hash_vec.push(b[pos + 38 + j]);
        j += 1;
        proof {
            assert(hash_vec@ =~= b@.subrange(pos + 38, pos + 38 + j as int));
        }
    }
    proof {
        assert(hash_vec@ =~= b@.subrange(pos + 38, pos + 58));
    }
    let hash_str = to_hex_string(hash_vec.as_slice());
    let filename = crate::byteops::ascii_string(name_vec);
    let mode = vec![b[pos + 24], b[pos + 25]];
    let permissions = String::from_str(mode_to_permissions(mode.as_slice()));
    let f = IndexFile {
        ctime: read_be32(b, pos),
        ctime_fractions: read_be32(b, pos + 4),
        mtime: read_be32(b, pos + 8),
        mtime_fractions: read_be32(b, pos + 12),
        dev: read_opt32(b, pos + 16),
        ino: read_opt32(b, pos + 20),
        permissions,
        uid: read_opt32(b, pos + 26),
        gid: read_opt32(b, pos + 30),
        size: read_be32(b, pos + 34),
        object_hash: hash_str,
        filename,
    };
    proof {
        lemma_decoded_entry_wf(b@, pos as int, f@, name_len as nat);
        assert(spec_decode_entry(b@, pos as int) == Some((f@, total as int)));
    }
    Ok((f, total))
}

/// Parses a staging table from its serialized bytes.
///
/// On success the returned header always carries the magic tag `DIRC`,
/// version 2, and an entry count equal to the number of returned entries,
/// and every returned entry is well formed. Failures are exactly those of
/// [`spec_parse_index`].
#[verifier::loop_isolation(false)]
pub fn parse_index(bytes: &[u8]) -> (r: Result<(IndexHeader, Vec<IndexFile>), GitError>)
    ensures
        match r {
            Ok(hf) => {
                &&& spec_parse_index(bytes@) == Ok::<Seq<IndexEntryModel>, GitError>(
                    models(hf.1@),
                )
                &&& hf.0.magic@ == seq!['D', 'I', 'R', 'C']
                &&& hf.0.version == 2
                &&& hf.0.num_files as nat == hf.1@.len()
                &&& forall|i: int| 0 <= i < hf.1@.len() ==> wf_entry(#[trigger] hf.1@[i]@)
            },
            Err(e) => spec_parse_index(bytes@) == Err::<Seq<IndexEntryModel>, GitError>(e),
        },
{
    let n: usize = bytes.len();
    if n < 12 {
        return Err(GitError::TruncatedIndex);
    }
    let magic = vec![0x44u8, 0x49u8, 0x52u8, 0x43u8];
    proof {
        assert(magic@ =~= spec_index_magic());
    }
    if !crate::byteops::prefix_eq(bytes, 4, magic.as_slice()) {
        return Err(GitError::UnsupportedVersion);
    }
    let version = read_be32(bytes, 4);
    if version != 2 {
        return Err(GitError::UnsupportedVersion);
    }
    let count = read_be32(bytes, 8);
    let mut files: Vec<IndexFile> = Vec::new();
    let mut pos: usize = 12;
    let mut idx: u32 = 0;
    proof {
        assert(models(files@) =~= Seq::<IndexEntryModel>::empty());
    }
    while idx < count
        invariant
            12 <= pos <= n,
            0 <= idx <= count,
            models(files@).len() == idx,
            forall|i: int| 0 <= i < files@.len() ==> wf_entry(#[trigger] files@[i]@),
            match spec_decode_entries(bytes@, pos as int, (count - idx) as nat) {
                Some(rest) => spec_decode_entries(bytes@, 12, count as nat) == Some(
                    models(files@) + rest,
                ),
                None => spec_decode_entries(bytes@, 12, count as nat) is None,
            },
        decreases count - idx,
    {
        let ghost remaining = (count - idx) as nat;
        match decode_index_entry(bytes, pos) {
            Err(e) => {
                proof {
                    assert(spec_decode_entries(bytes@, pos as int, remaining) is None);
                    assert(spec_decode_entries(bytes@, 12, count as nat) is None);
                }
                return Err(GitError::TruncatedIndex);
            },
            Ok(fp) => {
                let ghost pos0 = pos as int;
                let ghost old_models = models(files@);
                let (f, p2) = fp;
                files.push(f);
                pos = p2;
                idx = idx + 1;
                proof {
                    assert(models(files@) =~= old_models.push(f@));
                    assert(spec_decode_entry(bytes@, pos0) == Some((f@, p2 as int)));
                    let step = spec_decode_entries(bytes@, p2 as int, (remaining - 1) as nat);
                    match step {
                        Some(rest) => {
                            assert(spec_decode_entries(bytes@, pos0, remaining) == Some(
                                seq![f@] + rest,
                            ));
                            assert(old_models + (seq![f@] + rest) =~= models(files@) + rest);
                        },
                        None => {
                            assert(spec_decode_entries(bytes@, pos0, remaining) is None);
                        },
                    }
                }
            },
        }
    }
    proof {
        assert(spec_decode_entries(bytes@, pos as int, 0) == Some(Seq::<IndexEntryModel>::empty()));
        assert(models(files@) + Seq::<IndexEntryModel>::empty() =~= models(files@));
    }
    let header = IndexHeader { magic: String::from_str("DIRC"), version: 2, num_files: count };
    proof {
        reveal_strlit("DIRC");
        assert("DIRC"@ =~= seq!['D', 'I', 'R', 'C']);
    }
    Ok((header, files))
}

/// Decoding an encoded record, wherever it sits in a larger buffer,
/// returns exactly the entry that was encoded and consumes exactly its
/// record bytes.
#[verifier::rlimit(100)]
#[verifier::spinoff_prover]
pub proof fn lemma_entry_roundtrip(prefix: Seq<u8>, e: IndexEntryModel, suffix: Seq<u8>)
    requires
        wf_entry(e),
    ensures
        spec_decode_entry(prefix + spec_encode_entry(e) + suffix, prefix.len() as int) == Some(
            (e, (prefix.len() + spec_encode_entry(e).len()) as int),
        ),
{
    let enc = spec_encode_entry(e);
    let b = prefix + enc + suffix;
    let pos = prefix.len() as int;
    let stat = spec_entry_stat(e);
    let meta = spec_entry_meta(e);
    let tail = spec_entry_tail(e);
    let h = e.object_hash;
    let nl = e.filename.len();
    let pad = spec_entry_pad(nl);
    lemma_encode_entry_len(e);
    lemma_padding_boundary(nl);
    crate::object_util::lemma_hex_pairs_len(ascii_bytes(h));
    lemma_ascii_roundtrip(e.filename);
    assert forall|k: int| 0 <= k < enc.len() implies b[pos + k] == enc[k] by {
        assert((prefix + enc)[pos + k] == enc[k]);
        assert(b[pos + k] == (prefix + enc)[pos + k]);
    }
    assert forall|k: int| 0 <= k < 24 implies enc[k] == stat[k] by {
        assert((stat + meta)[k] == stat[k]);
        assert(enc[k] == (stat + meta)[k]);
    }
    assert forall|k: int| 0 <= k < 14 implies enc[24 + k] == meta[k] by {
        assert((stat + meta)[24 + k] == meta[k]);
        assert(enc[24 + k] == (stat + meta)[24 + k]);
    }
    assert forall|k: int| 0 <= k < tail.len() implies enc[38 + k] == tail[k] by {
        assert(enc[38 + k] == ((stat + meta) + tail)[38 + k]);
    }
    // The six words of the stat group.
    assert(b.subrange(pos, pos + 4) =~= spec_be32(e.ctime));
    crate::byteops::lemma_be32_recover(b, pos, e.ctime);
    assert(b.subrange(pos + 4, pos + 8) =~= spec_be32(e.ctime_fractions));
    crate::byteops::lemma_be32_recover(b, pos + 4, e.ctime_fractions);
    assert(b.subrange(pos + 8, pos + 12) =~= spec_be32(e.mtime));
    crate::byteops::lemma_be32_recover(b, pos + 8, e.mtime);
    assert(b.subrange(pos + 12, pos + 16) =~= spec_be32(e.mtime_fractions));
    crate::byteops::lemma_be32_recover(b, pos + 12, e.mtime_fractions);
    assert(b.subrange(pos + 16, pos + 20) =~= spec_be32(opt32(e.dev)));
    crate::byteops::lemma_be32_recover(b, pos + 16, opt32(e.dev));
    assert(b.subrange(pos + 20, pos + 24) =~= spec_be32(opt32(e.ino)));
    crate::byteops::lemma_be32_recover(b, pos + 20, opt32(e.ino));
    // The mode, uid, gid and size fields.
    assert(b[pos + 25] == meta[1]);
    assert(meta[1] == spec_mode_bytes(e.permissions)[1]);
    lemma_permission_roundtrip(e.permissions);
    assert(b.subrange(pos + 26, pos + 30) =~= spec_be32(opt32(e.uid)));
    crate::byteops::lemma_be32_recover(b, pos + 26, opt32(e.uid));
    assert(b.subrange(pos + 30, pos + 34) =~= spec_be32(opt32(e.gid)));
    crate::byteops::lemma_be32_recover(b, pos + 30, opt32(e.gid));
    assert(b.subrange(pos + 34, pos + 38) =~= spec_be32(e.size));
    crate::byteops::lemma_be32_recover(b, pos + 34, e.size);
    // The hash, flags, filename and padding.
    assert(b.subrange(pos + 38, pos + 58) =~= spec_hex_pairs(ascii_bytes(h)));
    assert(b[pos + 58] == tail[20]);
    assert(tail[20] == spec_flags_bytes(nl)[0]);
    assert(b[pos + 59] == tail[21]);
    assert(tail[21] == spec_flags_bytes(nl)[1]);
    lemma_flags_roundtrip(nl);
    assert(spec_name_len(b[pos + 58], b[pos + 59]) == nl);
    assert forall|k: int| 0 <= k < nl implies b[pos + 60 + k] == ascii_bytes(e.filename)[k] by {
        assert(tail[22 + k] == ascii_bytes(e.filename)[k]);
        assert(enc[60 + k] == tail[22 + k]);
    }
    assert(b.subrange(pos + 60, pos + 60 + nl as int) =~= ascii_bytes(e.filename));
    // Recovering the hash text.
    assert forall|i: int| 0 <= i < 40 implies is_lower_hex_byte(
        #[trigger] ascii_bytes(h)[i],
    ) by {
        lemma_hex_char_byte(h[i]);
    }
    assert forall|i: int| 0 <= i < 40 implies '\0' <= #[trigger] h[i] <= '\u{7f}' by {
        lemma_hex_char_byte(h[i]);
    }
    crate::object_util::lemma_to_hex_of_hex_pairs(ascii_bytes(h));
    lemma_ascii_roundtrip(h);
    assert(spec_to_hex(spec_hex_pairs(ascii_bytes(h))) == h);
    // Assembling the decoded entry.
    assert(pos + 60 + nl + pad == pos + enc.len());
    let decoded = spec_decode_entry(b, pos);
    match decoded {
        Some(dt) => {
            assert(dt.0 =~= e);
            assert(dt.1 == pos + enc.len());
        },
        None => {
            assert(false);
        },
    }
}

/// Decoding as many records as were encoded, wherever the run sits in a
/// larger buffer, returns exactly the entries that were encoded.
#[verifier::rlimit(100)]
#[verifier::spinoff_prover]
pub proof fn lemma_entries_roundtrip(prefix: Seq<u8>, es: Seq<IndexEntryModel>, suffix: Seq<u8>)
    requires
        forall|i: int| 0 <= i < es.len() ==> wf_entry(#[trigger] es[i]),
    ensures
        spec_decode_entries(
            prefix + spec_encode_entries(es) + suffix,
            prefix.len() as int,
            es.len(),
        ) == Some(es),
    decreases es.len(),
{
    let b = prefix + spec_encode_entries(es) + suffix;
    if es.len() == 0 {
        assert(spec_decode_entries(b, prefix.len() as int, 0) == Some(
            Seq::<IndexEntryModel>::empty(),
        ));
        assert(es =~= Seq::<IndexEntryModel>::empty());
    } else {
        let e0 = es[0];
        let rest = es.drop_first();
        let enc0 = spec_encode_entry(e0);
        assert(spec_encode_entries(es) == enc0 + spec_encode_entries(rest));
        assert(b =~= (prefix + enc0) + spec_encode_entries(rest) + suffix);
        lemma_entry_roundtrip(prefix, e0, spec_encode_entries(rest) + suffix);
        assert(prefix + enc0 + (spec_encode_entries(rest) + suffix) =~= b);
        assert(spec_decode_entry(b, prefix.len() as int) == Some(
            (e0, (prefix.len() + enc0.len()) as int),
        ));
        lemma_entries_roundtrip(prefix + enc0, rest, suffix);
        assert((prefix + enc0).len() as int == prefix.len() + enc0.len());
        assert(spec_decode_entries(b, (prefix.len() + enc0.len()) as int, rest.len()) == Some(
            rest,
        ));
        assert(seq![e0] + rest =~= es);
    }
}

/// Round-trip identity: decoding an encoded staging table returns exactly
/// the entries that were encoded, for any well-formed table.
#[verifier::rlimit(100)]
#[verifier::spinoff_prover]
pub proof fn lemma_index_roundtrip(es: Seq<IndexEntryModel>)
    requires
        es.len() <= 0xFFFF_FFFF,
        forall|i: int| 0 <= i < es.len() ==> wf_entry(#[trigger] es[i]),
    ensures
        spec_parse_index(spec_encode_index(es)) == Ok::<Seq<IndexEntryModel>, GitError>(es),
{
    let b = spec_encode_index(es);
    let header = spec_index_magic() + spec_be32(2) + spec_be32(es.len() as u32);
    assert(b =~= header + spec_encode_entries(es) + Seq::<u8>::empty());
    assert(b.len() >= 12);
    assert(b.subrange(0, 4) =~= spec_index_magic());
    assert(b.subrange(4, 8) =~= spec_be32(2));
    crate::byteops::lemma_be32_recover(b, 4, 2);
    assert(b.subrange(8, 12) =~= spec_be32(es.len() as u32));
    crate::byteops::lemma_be32_recover(b, 8, es.len() as u32);
    lemma_entries_roundtrip(header, es, Seq::<u8>::empty());
    assert(header.len() == 12);
    assert(spec_decode_entries(b, 12, es.len()) == Some(es));
}

/// A decoded record is well formed: its permission class, hash spelling,
/// filename and optional fields all satisfy the entry invariant.
proof fn lemma_decoded_entry_wf(b: Seq<u8>, pos: int, e: IndexEntryModel, name_len: nat)
    requires
        0 <= pos,
        pos + 60 + name_len <= b.len(),
        name_len <= 0xFFF,
        e.permissions == spec_perm_of_mode(b[pos + 25]),
        e.object_hash == spec_to_hex(b.subrange(pos + 38, pos + 58)),
        e.filename == ascii_chars(b.subrange(pos + 60, pos + 60 + name_len as int)),
        all_ascii(b.subrange(pos + 60, pos + 60 + name_len as int)),
        e.dev != Some(0u32),
        e.ino != Some(0u32),
        e.uid != Some(0u32),
        e.gid != Some(0u32),
    ensures
        wf_entry(e),
{
    let hash20 = b.subrange(pos + 38, pos + 58);
    crate::object_util::lemma_to_hex_bytes_shape(hash20);
    assert(e.object_hash.len() == 40);
    assert forall|i: int| 0 <= i < 40 implies is_lower_hex_char(#[trigger] e.object_hash[i]) by {
        let digit = crate::object_util::spec_to_hex_bytes(hash20)[i];
        assert(e.object_hash[i] == digit as char);
        lemma_hex_char_byte(digit as char);
        assert((digit as char) as u8 == digit);
    }
    let name_bytes = b.subrange(pos + 60, pos + 60 + name_len as int);
    assert forall|i: int| 0 <= i < e.filename.len() implies '\0' <= #[trigger] e.filename[i]
        <= '\u{7f}' by {
        assert(e.filename[i] == name_bytes[i] as char);
        assert(name_bytes[i] < 128);
    }
}

} // verus!
