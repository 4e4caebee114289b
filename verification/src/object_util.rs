//! Object kinds, framed-header parsing, hex conversion, shard paths, and
//! the compressed-payload codec used by the object store.
//!
//! A stored object is framed as `"<kind> <decimal-length>\0<content>"` and
//! kept zlib-compressed; the helpers here take such framed buffers (or
//! their headers) apart.

use crate::byteops::{
    all_ascii, ascii_chars, ascii_string, find_byte, prefix_eq, spec_find_byte,
};
use crate::errors::GitError;
use vstd::prelude::*;

verus! {

broadcast use vstd::string::group_string_axioms;

/// The possible kinds for a stored object.
///
/// * `Blob`: raw file content
/// * `Tree`: an ordered list of (permission, name, hash) entries
/// * `Commit`: an opaque text payload, classified but never built here
#[derive(Debug, PartialEq, Eq, Structural, Clone, Copy)]
pub enum Object {
    Blob,
    Tree,
    Commit,
}

/// The ASCII name of each object kind, as bytes.
pub open spec fn spec_kind_bytes(k: Object) -> Seq<u8> {
    match k {
        Object::Blob => seq![98u8, 108u8, 111u8, 98u8],
        Object::Tree => seq![116u8, 114u8, 101u8, 101u8],
        Object::Commit => seq![99u8, 111u8, 109u8, 109u8, 105u8, 116u8],
    }
}

/// The ASCII name of each object kind, as characters.
pub open spec fn spec_kind_chars(k: Object) -> Seq<char> {
    match k {
        Object::Blob => seq!['b', 'l', 'o', 'b'],
        Object::Tree => seq!['t', 'r', 'e', 'e'],
        Object::Commit => seq!['c', 'o', 'm', 'm', 'i', 't'],
    }
}

impl Object {
    /// The kind's name as text.
    pub fn name_str(&self) -> (r: &'static str)
        ensures
            r@ == spec_kind_chars(*self),
    {
        match self {
            Object::Blob => {
                proof {
                    reveal_strlit("blob");
                    assert("blob"@ =~= spec_kind_chars(Object::Blob));
                }
                "blob"
            },
            Object::Tree => {
                proof {
                    reveal_strlit("tree");
                    assert("tree"@ =~= spec_kind_chars(Object::Tree));
                }
                "tree"
            },
            Object::Commit => {
                proof {
                    reveal_strlit("commit");
                    assert("commit"@ =~= spec_kind_chars(Object::Commit));
                }
                "commit"
            },
        }
    }

    /// The kind's name as bytes.
    pub fn name_bytes(&self) -> (r: Vec<u8>)
        ensures
            r@ == spec_kind_bytes(*self),
    {
        match self {
            Object::Blob => {
                let v = vec![98u8, 108u8, 111u8, 98u8];
                proof {
                    assert(v@ =~= spec_kind_bytes(Object::Blob));
                }
                v
            },
            Object::Tree => {
                let v = vec![116u8, 114u8, 101u8, 101u8];
                proof {
                    assert(v@ =~= spec_kind_bytes(Object::Tree));
                }
                v
            },
            Object::Commit => {
                let v = vec![99u8, 111u8, 109u8, 109u8, 105u8, 116u8];
                proof {
                    assert(v@ =~= spec_kind_bytes(Object::Commit));
                }
                v
            },
        }
    }
}

/// The leading token of a framed header: the bytes before the first space,
/// or the whole header when it has no space.
pub open spec fn spec_header_token(h: Seq<u8>) -> Seq<u8> {
    match spec_find_byte(h, 0, 32) {
        Some(i) => h.subrange(0, i),
        None => h,
    }
}

/// The kind a framed header declares: its leading token must be exactly
/// one of the three kind names.
pub open spec fn spec_header_type(h: Seq<u8>) -> Result<Object, GitError> {
    if spec_header_token(h) == spec_kind_bytes(Object::Blob) {
        Ok(Object::Blob)
    } else if spec_header_token(h) == spec_kind_bytes(Object::Tree) {
        Ok(Object::Tree)
    } else if spec_header_token(h) == spec_kind_bytes(Object::Commit) {
        Ok(Object::Commit)
    } else {
        Err(GitError::InvalidHeader)
    }
}

/// Given a framed object header, returns the kind of the object.
///
/// The header is split on the first space; the leading token must be
/// exactly one of the three recognized kind names, else `InvalidHeader`.
pub fn get_header_type(header: &[u8]) -> (r: Result<Object, GitError>)
    ensures
        r == spec_header_type(header@),
{
    let end: usize = match find_byte(header, 0, 32) {
        Some(i) => i,
        None => header.len(),
    };
    let blob = Object::Blob.name_bytes();
    let tree = Object::Tree.name_bytes();
    let commit = Object::Commit.name_bytes();
    proof {
        if spec_find_byte(header@, 0, 32) is None {
            assert(header@.subrange(0, header@.len() as int) =~= header@);
        }
    }
    if prefix_eq(header, end, blob.as_slice()) {
        Ok(Object::Blob)
    } else if prefix_eq(header, end, tree.as_slice()) {
        Ok(Object::Tree)
    } else if prefix_eq(header, end, commit.as_slice()) {
        Ok(Object::Commit)
    } else {
        Err(GitError::InvalidHeader)
    }
}

/// The header part of a decompressed framed buffer: the bytes before the
/// first NUL, or the whole buffer when it has none.
pub open spec fn spec_header_of(d: Seq<u8>) -> Seq<u8> {
    match spec_find_byte(d, 0, 0) {
        Some(i) => d.subrange(0, i),
        None => d,
    }
}

/// The end of the size token that starts at `from`: the position of the
/// next space or NUL byte, or the end of the header.
pub open spec fn spec_token_end(h: Seq<u8>, from: int) -> int {
    let next_space = spec_find_byte(h, from, 32);
    let next_nul = spec_find_byte(h, from, 0);
    match (next_space, next_nul) {
        (Some(a), Some(b)) => if a < b {
            a
        } else {
            b
        },
        (Some(a), None) => a,
        (None, Some(b)) => b,
        (None, None) => h.len() as int,
    }
}

/// The size text a framed header declares: the bytes after the first
/// space, up to (but not past) the next space or NUL byte.
pub open spec fn spec_header_size(h: Seq<u8>) -> Result<Seq<char>, GitError> {
    match spec_find_byte(h, 0, 32) {
        None => Err(GitError::InvalidHeader),
        Some(i) => {
            let token = h.subrange(i + 1, spec_token_end(h, i + 1));
            if all_ascii(token) {
                Ok(ascii_chars(token))
            } else {
                Err(GitError::InvalidHeader)
            }
        },
    }
}

/// Given a framed object header, returns the declared size of the
/// object's contents as raw text, not parsed to an integer.
///
/// The header is split on the first space; the size token runs up to (but
/// not past) the next space or terminating NUL. Consecutive spaces after
/// the kind name therefore yield an empty size token, not an error. A
/// header with no space at all, or a size token that is not ASCII text,
/// fails with `InvalidHeader`.
pub fn get_header_size(header: &[u8]) -> (r: Result<String, GitError>)
    ensures
        match r {
            Ok(s) => spec_header_size(header@) == Ok::<Seq<char>, GitError>(s@),
            Err(e) => spec_header_size(header@) == Err::<Seq<char>, GitError>(e),
        },
{
    let n: usize = header.len();
    let i: usize = match find_byte(header, 0, 32) {
        Some(i) => i,
        None => {
            return Err(GitError::InvalidHeader);
        },
    };
    let from: usize = i + 1;
    let next_space = find_byte(header, from, 32);
    let next_nul = find_byte(header, from, 0);
    let end: usize = match (next_space, next_nul) {
        (Some(a), Some(b)) => if a < b {
            a
        } else {
            b
        },
        (Some(a), None) => a,
        (None, Some(b)) => b,
        (None, None) => header.len(),
    };
    proof {
        assert(end == spec_token_end(header@, from as int));
        assert(from <= end <= header@.len());
    }
    let ghost spec_token = header@.subrange(from as int, end as int);
    let mut token: Vec<u8> = Vec::new();
    let mut j: usize = from;
    while j < end
        invariant
            from <= j <= end <= header@.len(),
            spec_token == header@.subrange(from as int, end as int),
            spec_find_byte(header@, 0, 32) == Some(i as int),
            from == i + 1,
            end == spec_token_end(header@, from as int),
            token@ == header@.subrange(from as int, j as int),
            all_ascii(token@),
        decreases end - j,
    {
        if header[j] >= 128 {
            proof {
                assert(spec_token[j - from] == header@[j as int]);
                assert(!all_ascii(spec_token));
            }
            return Err(GitError::InvalidHeader);
        }
        token.push(header[j]);
        j += 1;
        proof {
            assert(token@ =~= header@.subrange(from as int, j as int));
        }
    }
    proof {
        assert(token@ =~= spec_token);
    }
    Ok(ascii_string(token))
}

/// Given an object hash, returns its relative path in the repository: the
/// first two hex characters pick the shard directory and the remaining 38
/// pick the file name within it. A pure function with no side effects.
pub fn get_object_path(object_hash: &str) -> (r: String)
    requires
        object_hash@.len() == 40,
        object_hash.is_ascii(),
    ensures
        r@ == "gitrs/objects/"@ + object_hash@.subrange(0, 2) + "/"@ + object_hash@.subrange(
            2,
            40,
        ),
{
    let shard = object_hash.substring_ascii(0, 2);
    let rest = object_hash.substring_ascii(2, 40);
    let mut s = String::from_str("gitrs/objects/");
    s.append(shard);
    s.append("/");
    s.append(rest);
    s
}

/// True for an ASCII byte that is a decimal digit or lowercase hex letter.
pub open spec fn is_lower_hex_byte(b: u8) -> bool {
    (48 <= b <= 57) || (97 <= b <= 102)
}

/// True for an ASCII byte that is a hex digit of either case.
pub open spec fn is_hex_byte(b: u8) -> bool {
    (48 <= b <= 57) || (97 <= b <= 102) || (65 <= b <= 70)
}

/// The ASCII byte (lowercase) for a single hex digit value.
pub open spec fn spec_hex_digit(v: u8) -> u8
    recommends
        v < 16,
{
    if v < 10 {
        (48 + v) as u8
    } else {
        (87 + v) as u8
    }
}

/// The value of a hex digit byte of either case.
pub open spec fn spec_hex_byte_val(b: u8) -> u8 {
    if 48 <= b <= 57 {
        (b - 48) as u8
    } else if 97 <= b <= 102 {
        (b - 87) as u8
    } else if 65 <= b <= 70 {
        (b - 55) as u8
    } else {
        0
    }
}

/// The lowercase-hex spelling of a byte sequence, two digit bytes per
/// input byte.
pub open spec fn spec_to_hex_bytes(b: Seq<u8>) -> Seq<u8>
    decreases b.len(),
{
    if b.len() == 0 {
        seq![]
    } else {
        seq![spec_hex_digit(b[0] / 16), spec_hex_digit(b[0] % 16)] + spec_to_hex_bytes(
            b.drop_first(),
        )
    }
}

/// The lowercase-hex spelling of a byte sequence, as characters.
pub open spec fn spec_to_hex(b: Seq<u8>) -> Seq<char> {
    ascii_chars(spec_to_hex_bytes(b))
}

/// Basic shape of the hex spelling: twice as long as the input, and all
/// lowercase hex digit bytes.
pub proof fn lemma_to_hex_bytes_shape(b: Seq<u8>)
    ensures
        spec_to_hex_bytes(b).len() == 2 * b.len(),
        forall|i: int|
            0 <= i < spec_to_hex_bytes(b).len() ==> is_lower_hex_byte(
                #[trigger] spec_to_hex_bytes(b)[i],
            ),
        all_ascii(spec_to_hex_bytes(b)),
    decreases b.len(),
{
    if b.len() > 0 {
        lemma_to_hex_bytes_shape(b.drop_first());
    }
}

/// Appending one byte appends its two hex digit bytes.
pub proof fn lemma_to_hex_bytes_snoc(b: Seq<u8>, x: u8)
    ensures
        spec_to_hex_bytes(b.push(x)) == spec_to_hex_bytes(b) + seq![
            spec_hex_digit(x / 16),
            spec_hex_digit(x % 16),
        ],
    decreases b.len(),
{
    if b.len() == 0 {
        let single = b.push(x);
        assert(single[0] == x);
        assert(single.drop_first() =~= Seq::<u8>::empty());
        assert(spec_to_hex_bytes(single.drop_first()) == Seq::<u8>::empty());
        assert(spec_to_hex_bytes(single) == seq![
            spec_hex_digit(x / 16),
            spec_hex_digit(x % 16),
        ] + spec_to_hex_bytes(single.drop_first()));
        assert(spec_to_hex_bytes(b) == Seq::<u8>::empty());
        assert(spec_to_hex_bytes(b.push(x)) =~= spec_to_hex_bytes(b) + seq![
            spec_hex_digit(x / 16),
            spec_hex_digit(x % 16),
        ]);
    } else {
        assert(b.push(x).drop_first() =~= b.drop_first().push(x));
        lemma_to_hex_bytes_snoc(b.drop_first(), x);
        let pair = seq![spec_hex_digit(x / 16), spec_hex_digit(x % 16)];
        let head = seq![spec_hex_digit(b[0] / 16), spec_hex_digit(b[0] % 16)];
        assert(b.push(x)[0] == b[0]);
        assert(spec_to_hex_bytes(b.push(x)) == head + spec_to_hex_bytes(b.drop_first().push(x)));
        assert(spec_to_hex_bytes(b.push(x)) == head + (spec_to_hex_bytes(b.drop_first()) + pair));
        assert(head + (spec_to_hex_bytes(b.drop_first()) + pair) =~= (head + spec_to_hex_bytes(
            b.drop_first(),
        )) + pair);
    }
}

/// Converts a byte sequence to its hex spelling as a string.
///
/// Single-digit values are zero padded; output is lowercase.
pub fn to_hex_string(bytes: &[u8]) -> (r: String)
    ensures
        r@ == spec_to_hex(bytes@),
        r@.len() == 2 * bytes@.len(),
        forall|i: int| 0 <= i < r@.len() ==> is_lower_hex_char(#[trigger] r@[i]),
{
    let n: usize = bytes.len();
    let mut hex: Vec<u8> = Vec::new();
    proof {
        assert(bytes@.subrange(0, 0) =~= Seq::<u8>::empty());
    }
    let mut i: usize = 0;
    while i < n
        invariant
            n == bytes@.len(),
            0 <= i <= n,
            hex@ == spec_to_hex_bytes(bytes@.subrange(0, i as int)),
        decreases n - i,
    {
        let b = bytes[i];
        let hi = b / 16;
        let lo = b % 16;
        let hi_digit: u8 = if hi < 10 {
            48 + hi
        } else {
            87 + hi
        };
        let lo_digit: u8 = if lo < 10 {
            48 + lo
        } else {
            87 + lo
        };
        hex.push(hi_digit);
        hex.push(lo_digit);
        proof {
            lemma_to_hex_bytes_snoc(bytes@.subrange(0, i as int), bytes@[i as int]);
            assert(bytes@.subrange(0, i + 1) =~= bytes@.subrange(0, i as int).push(
                bytes@[i as int],
            ));
            assert(hex@ =~= spec_to_hex_bytes(bytes@.subrange(0, i + 1)));
        }
        i += 1;
    }
    proof {
        assert(bytes@.subrange(0, n as int) =~= bytes@);
        lemma_to_hex_bytes_shape(bytes@);
        assert forall|k: int| 0 <= k < spec_to_hex(bytes@).len() implies is_lower_hex_char(
            #[trigger] spec_to_hex(bytes@)[k],
        ) by {
            let digit = spec_to_hex_bytes(bytes@)[k];
            assert(spec_to_hex(bytes@)[k] == digit as char);
            lemma_hex_char_byte(digit as char);
            assert((digit as char) as u8 == digit);
        }
    }
    ascii_string(hex)
}

/// True for a character that is a decimal digit or lowercase hex letter.
pub open spec fn is_lower_hex_char(c: char) -> bool {
    ('0' <= c && c <= '9') || ('a' <= c && c <= 'f')
}

/// True for a character that is a hex digit of either case.
pub open spec fn is_hex_char(c: char) -> bool {
    ('0' <= c && c <= '9') || ('a' <= c && c <= 'f') || ('A' <= c && c <= 'F')
}

/// Hex digit characters are ASCII, and their byte forms are hex digit
/// bytes; lowercase stays lowercase either way.
pub proof fn lemma_hex_char_byte(c: char)
    ensures
        is_hex_char(c) ==> c <= '\u{7f}' && is_hex_byte(c as u8),
        is_lower_hex_char(c) ==> c <= '\u{7f}' && is_lower_hex_byte(c as u8),
        is_lower_hex_byte(c as u8) && c <= '\u{7f}' ==> is_lower_hex_char(c),
{
}

/// The bytes named by a sequence of hex digit bytes, one output byte per
/// input pair; a trailing odd digit is dropped.
pub open spec fn spec_hex_pairs(s: Seq<u8>) -> Seq<u8>
    decreases s.len(),
{
    if s.len() < 2 {
        seq![]
    } else {
        seq![(spec_hex_byte_val(s[0]) * 16 + spec_hex_byte_val(s[1])) as u8] + spec_hex_pairs(
            s.skip(2),
        )
    }
}

/// Pairing hex digit bytes halves the length.
pub proof fn lemma_hex_pairs_len(s: Seq<u8>)
    ensures
        spec_hex_pairs(s).len() == s.len() / 2,
    decreases s.len(),
{
    if s.len() >= 2 {
        lemma_hex_pairs_len(s.skip(2));
    }
}

/// A hex digit byte names a value below sixteen, and spelling that value
/// returns the byte when it is lowercase.
pub proof fn lemma_hex_digit_roundtrip(b: u8)
    requires
        is_lower_hex_byte(b),
    ensures
        spec_hex_byte_val(b) < 16,
        spec_hex_digit(spec_hex_byte_val(b)) == b,
{
}

/// A hex digit value below sixteen spells to a lowercase digit byte that
/// names it back.
pub proof fn lemma_hex_digit_value(v: u8)
    requires
        v < 16,
    ensures
        is_lower_hex_byte(spec_hex_digit(v)),
        spec_hex_byte_val(spec_hex_digit(v)) == v,
{
}

/// Hex conversion is lossless from bytes to digits and back: pairing up
/// the hex spelling of any byte sequence returns that sequence.
pub proof fn lemma_hex_roundtrip(b: Seq<u8>)
    ensures
        spec_hex_pairs(spec_to_hex_bytes(b)) == b,
    decreases b.len(),
{
    if b.len() == 0 {
        assert(spec_hex_pairs(spec_to_hex_bytes(b)) =~= b);
    } else {
        let rest = spec_to_hex_bytes(b.drop_first());
        let spelled = spec_to_hex_bytes(b);
        assert(spelled == seq![spec_hex_digit(b[0] / 16), spec_hex_digit(b[0] % 16)] + rest);
        lemma_hex_digit_value(b[0] / 16);
        lemma_hex_digit_value(b[0] % 16);
        assert(spelled[0] == spec_hex_digit(b[0] / 16));
        assert(spelled[1] == spec_hex_digit(b[0] % 16));
        assert(spec_hex_byte_val(spelled[0]) * 16 + spec_hex_byte_val(spelled[1]) == b[0]);
        assert(spelled.skip(2) =~= rest);
        lemma_hex_roundtrip(b.drop_first());
        assert(spec_hex_pairs(spelled) =~= b);
    }
}

/// Spelling the value named by an even run of lowercase hex digit bytes
/// returns that run.
pub proof fn lemma_to_hex_of_hex_pairs(s: Seq<u8>)
    requires
        s.len() % 2 == 0,
        forall|i: int| 0 <= i < s.len() ==> is_lower_hex_byte(#[trigger] s[i]),
    ensures
        spec_to_hex_bytes(spec_hex_pairs(s)) == s,
    decreases s.len(),
{
    if s.len() == 0 {
        assert(spec_to_hex_bytes(spec_hex_pairs(s)) =~= s);
    } else {
        let rest = s.skip(2);
        assert(rest.len() % 2 == 0);
        lemma_to_hex_of_hex_pairs(rest);
        lemma_hex_digit_roundtrip(s[0]);
        lemma_hex_digit_roundtrip(s[1]);
        let a = spec_hex_byte_val(s[0]);
        let b = spec_hex_byte_val(s[1]);
        let v = (a * 16 + b) as u8;
        assert(v / 16 == a && v % 16 == b) by {
            vstd::arithmetic::div_mod::lemma_fundamental_div_mod_converse(
                v as int,
                16,
                a as int,
                b as int,
            );
        }
        let packed = spec_hex_pairs(s);
        assert(packed == seq![v] + spec_hex_pairs(rest));
        assert(packed[0] == v);
        assert(packed.drop_first() =~= spec_hex_pairs(rest));
        assert(spec_to_hex_bytes(packed) == seq![spec_hex_digit(v / 16), spec_hex_digit(v % 16)]
            + spec_to_hex_bytes(spec_hex_pairs(rest)));
        assert(spec_to_hex_bytes(spec_hex_pairs(s)) =~= s);
    }
}

/// What zlib decompression returns on a given compressed byte sequence:
/// the decompressed bytes, or nothing when the stream is not decodable.
/// The result is a function of the input bytes alone.
pub uninterp spec fn inflate_of(b: Seq<u8>) -> Option<Seq<u8>>;

/// Relies on flate2's `ZlibEncoder` over an in-memory buffer, at the
/// default compression level: writing to a `Vec` never fails, and
/// decompressing the produced stream returns exactly the input bytes.
#[verifier::external_body]
pub(crate) fn zlib_compress(bytes: &[u8]) -> (r: Vec<u8>)
    ensures
        inflate_of(r@) == Some(bytes@),
{
    let mut enc = flate2::write::ZlibEncoder::new(Vec::new(), flate2::Compression::default());
    std::io::Write::write_all(&mut enc, bytes).expect("writing to a Vec cannot fail");
    enc.finish().expect("writing to a Vec cannot fail")
}

/// Relies on flate2's `ZlibDecoder` over an in-memory buffer: reading to
/// the end either yields the whole decompressed stream or fails, and the
/// outcome is a function of the input bytes alone.
#[verifier::external_body]
pub(crate) fn zlib_decompress(bytes: &[u8]) -> (r: Option<Vec<u8>>)
    ensures
        r is Some <==> inflate_of(bytes@) is Some,
        r matches Some(v) ==> Some(v@) == inflate_of(bytes@),
{
    let mut dec = flate2::read::ZlibDecoder::new(bytes);
    let mut out: Vec<u8> = Vec::new();
    match std::io::Read::read_to_end(&mut dec, &mut out) {
        Ok(_) => Some(out),
        Err(_) => None,
    }
}

/// Decodes a zlib-compressed byte sequence, failing with `CorruptObject`
/// when the stream cannot be decompressed.
pub fn decode_object(object: &Vec<u8>) -> (r: Result<Vec<u8>, GitError>)
    ensures
        r is Ok <==> inflate_of(object@) is Some,
        r matches Ok(v) ==> Some(v@) == inflate_of(object@),
        r matches Err(e) ==> e == GitError::CorruptObject,
{
    match zlib_decompress(object.as_slice()) {
        Some(v) => Ok(v),
        None => Err(GitError::CorruptObject),
    }
}

} // verus!
