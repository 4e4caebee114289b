//! The tree reader and formatter: decoding a stored tree object's
//! entries and rendering them as a human-readable listing.
//!
//! A tree's content is a repeating sequence of
//! `<permission-text><space><filename>\0<20-byte-hash>` records; the
//! permission text is variable-width, delimited by the space. Each
//! record's referenced object is resolved through the store to classify
//! its kind, and one line is produced per record: the permission
//! zero-padded to six characters, a space, the kind name, a space, the
//! 40-hex hash, a tab, and the filename. An empty tree formats to the
//! empty string.

use crate::byteops::{
    all_ascii, ascii_chars, ascii_string, copy_range, find_byte, spec_find_byte,
};
use crate::errors::GitError;
use crate::object_util::{
    decode_object, get_header_type, inflate_of, spec_header_of, spec_header_type, spec_kind_chars,
    spec_to_hex, to_hex_string, Object,
};
use crate::store::{ObjectStore, StoreMap};
use vstd::prelude::*;
use vstd::string::StringExecFns;

verus! {

broadcast use vstd::string::group_string_axioms;

/// One parsed tree record: permission bytes, filename bytes, and the
/// 20-byte binary hash.
pub type TreeRecord = (Seq<u8>, Seq<u8>, Seq<u8>);

/// Parsing the records of a tree's content from a position: each record
/// runs to a NUL byte and is followed by twenty hash bytes. The walk
/// stops quietly at the end, at a stretch with no NUL, or at an empty
/// section; a record without a space separator, or one whose hash bytes
/// are cut short, is a corrupt object.
pub open spec fn spec_tree_records(b: Seq<u8>, pos: int) -> Result<Seq<TreeRecord>, GitError>
    recommends
        0 <= pos,
    decreases b.len() - pos,
    when 0 <= pos
    via spec_tree_records_decreases
{
    if pos >= b.len() {
        Ok(Seq::empty())
    } else {
        match spec_find_byte(b, pos, 0) {
            None => Ok(Seq::empty()),
            Some(z) => {
                if z == pos {
                    Ok(Seq::empty())
                } else if z + 21 > b.len() {
                    Err(GitError::CorruptObject)
                } else {
                    let sp = spec_find_byte(b, pos, 32);
                    if sp is None || sp.unwrap() >= z {
                        Err(GitError::CorruptObject)
                    } else {
                        let perm = b.subrange(pos, sp.unwrap());
                        let name = b.subrange(sp.unwrap() + 1, z);
                        let hash20 = b.subrange(z + 1, z + 21);
                        match spec_tree_records(b, z + 21) {
                            Err(e) => Err(e),
                            Ok(rest) => Ok(seq![(perm, name, hash20)] + rest),
                        }
                    }
                }
            },
        }
    }
}

#[via_fn]
proof fn spec_tree_records_decreases(b: Seq<u8>, pos: int) {
    crate::byteops::lemma_find_byte_range(b, pos, 0);
}

/// The text a run of bytes spells in a listing: its ASCII characters, or
/// nothing at all when any byte is not ASCII.
pub open spec fn spec_bytes_text(b: Seq<u8>) -> Seq<char> {
    if all_ascii(b) {
        ascii_chars(b)
    } else {
        Seq::empty()
    }
}

/// Text zero-padded on the left to at least six characters.
pub open spec fn spec_pad6(s: Seq<char>) -> Seq<char> {
    if s.len() >= 6 {
        s
    } else {
        Seq::new((6 - s.len()) as nat, |i: int| '0') + s
    }
}

/// The listing line of one record: the referenced object is read from
/// the store and its header classified to name its kind.
pub open spec fn spec_format_record(m: StoreMap, rec: TreeRecord) -> Result<Seq<char>, GitError> {
    let hex = spec_to_hex(rec.2);
    if !m.contains_key(hex) {
        Err(GitError::ObjectNotFound)
    } else {
        match inflate_of(m[hex]) {
            None => Err(GitError::CorruptObject),
            Some(d) => {
                match spec_header_type(spec_header_of(d)) {
                    Err(e) => Err(e),
                    Ok(kind) => Ok(
                        spec_pad6(spec_bytes_text(rec.0)) + seq![' '] + spec_kind_chars(kind)
                            + seq![' '] + hex + seq!['\t'] + spec_bytes_text(rec.1) + seq!['\n'],
                    ),
                }
            },
        }
    }
}

/// The listing of a run of records, one line each, in order.
pub open spec fn spec_format_records(m: StoreMap, recs: Seq<TreeRecord>) -> Result<
    Seq<char>,
    GitError,
>
    decreases recs.len(),
{
    if recs.len() == 0 {
        Ok(Seq::empty())
    } else {
        match spec_format_record(m, recs[0]) {
            Err(e) => Err(e),
            Ok(line) => match spec_format_records(m, recs.drop_first()) {
                Err(e) => Err(e),
                Ok(rest) => Ok(line + rest),
            },
        }
    }
}

/// The listing of a whole decompressed tree buffer: its header must
/// declare a tree, and its records are then parsed and formatted.
pub open spec fn spec_format_tree(m: StoreMap, decoded: Seq<u8>) -> Result<Seq<char>, GitError> {
    match spec_find_byte(decoded, 0, 0) {
        None => Err(GitError::InvalidHeader),
        Some(h_end) => {
            match spec_header_type(decoded.subrange(0, h_end)) {
                Err(e) => Err(e),
                Ok(kind) => {
                    if kind != Object::Tree {
                        Err(GitError::NotATree)
                    } else {
                        match spec_tree_records(decoded, h_end + 1) {
                            Err(e) => Err(e),
                            Ok(recs) => spec_format_records(m, recs),
                        }
                    }
                },
            }
        },
    }
}

/// The models of a run of parsed record buffers.
pub open spec fn rec_models(rs: Seq<(Vec<u8>, Vec<u8>, Vec<u8>)>) -> Seq<TreeRecord> {
    rs.map(|i: int, r: (Vec<u8>, Vec<u8>, Vec<u8>)| (r.0@, r.1@, r.2@))
}

/// Builds the text a run of bytes spells, dropping it when not ASCII.
fn bytes_text(b: &[u8]) -> (r: String)
    ensures
        r@ == spec_bytes_text(b@),
{
    let n: usize = b.len();
    let mut v: Vec<u8> = Vec::new();
    let mut i: usize = 0;
    proof {
        assert(v@ =~= b@.subrange(0, 0));
    }
    while i < n
        invariant
            n == b@.len(),
            0 <= i <= n,
            v@ == b@.subrange(0, i as int),
            all_ascii(v@),
        decreases n - i,
    {
        if b[i] >= 128 {
            proof {
                assert(!all_ascii(b@));
            }
            return String::new();
        }
        v.push(b[i]);
        i += 1;
        proof {
            assert(v@ =~= b@.subrange(0, i as int));
        }
    }
    proof {
        assert(v@ =~= b@);
    }
    ascii_string(v)
}

/// Pads text on the left with zeros to at least six characters.
fn pad6(s: &str) -> (r: String)
    ensures
        r@ == spec_pad6(s@),
{
    let n: usize = s.unicode_len();
    let mut r = String::new();
    let mut k: usize = n;
    proof {
        reveal_strlit("0");
        assert(r@ =~= Seq::new(0, |i: int| '0'));
    }
    while k < 6
        invariant
            n <= k <= 6 || (n > 6 && k == n),
            n <= k,
            r@ == Seq::new((k - n) as nat, |i: int| '0'),
        decreases 6 - k,
    {
        r.append("0");
        k += 1;
        proof {
            reveal_strlit("0");
            assert("0"@ =~= seq!['0']);
            assert(r@ =~= Seq::new((k - n) as nat, |i: int| '0'));
        }
    }
    r.append(s);
    proof {
        if n >= 6 {
            assert(r@ =~= s@);
        } else {
            assert(r@ =~= Seq::new((6 - n) as nat, |i: int| '0') + s@);
        }
    }
    r
}

/// Formats a decompressed tree buffer as its listing text.
///
/// Each referenced object is resolved through the store; a reference to
/// an absent object fails with `ObjectNotFound`, one whose payload does
/// not decompress with `CorruptObject`, and one whose header declares no
/// recognized kind with `InvalidHeader`. A buffer whose own header is
/// not a tree's fails with `NotATree`. A tree with zero records formats
/// to the empty string.
#[verifier::loop_isolation(false)]
#[verifier::rlimit(100)]
pub fn format_tree(store: &ObjectStore, decoded: &[u8]) -> (r: Result<String, GitError>)
    requires
        store.wf(),
    ensures
        match r {
            Ok(s) => spec_format_tree(store@, decoded@) == Ok::<Seq<char>, GitError>(s@),
            Err(e) => spec_format_tree(store@, decoded@) == Err::<Seq<char>, GitError>(e),
        },
{
    let n: usize = decoded.len();
    let h_end: usize = match find_byte(decoded, 0, 0) {
        Some(i) => i,
        None => {
            return Err(GitError::InvalidHeader);
        },
    };
    let header = copy_range(decoded, 0, h_end);
    let kind = match get_header_type(header.as_slice()) {
        Ok(k) => k,
        Err(e) => {
            return Err(e);
        },
    };
    if !matches!(kind, Object::Tree) {
        proof {
            assert(spec_header_type(decoded@.subrange(0, h_end as int)) == Ok::<Object, GitError>(
                kind,
            ));
        }
        return Err(GitError::NotATree);
    }
    let ghost pos0 = h_end + 1;
    let mut recs: Vec<(Vec<u8>, Vec<u8>, Vec<u8>)> = Vec::new();
    let mut pos: usize = h_end + 1;
    let mut stop: bool = false;
    proof {
        assert(rec_models(recs@) =~= Seq::<TreeRecord>::empty());
    }
    while !stop && pos < n
        invariant
            pos0 <= pos,
            pos <= n || pos == pos0,
            match spec_tree_records(decoded@, pos as int) {
                Ok(rest) => spec_tree_records(decoded@, pos0 as int) == Ok::<
                    Seq<TreeRecord>,
                    GitError,
                >(rec_models(recs@) + rest),
                Err(e) => spec_tree_records(decoded@, pos0 as int) == Err::<
                    Seq<TreeRecord>,
                    GitError,
                >(e),
            },
            stop ==> spec_tree_records(decoded@, pos as int) == Ok::<Seq<TreeRecord>, GitError>(
                Seq::empty(),
            ),
        decreases n - pos + (if stop {
            0int
        } else {
            1int
        }),
    {
        match find_byte(decoded, pos, 0) {
            None => {
                stop = true;
            },
            Some(z) => {
                if z == pos {
                    stop = true;
                } else if n - z < 21 {
                    proof {
                        assert(spec_tree_records(decoded@, pos as int) is Err);
                    }
                    return Err(GitError::CorruptObject);
                } else {
                    let sp_opt = find_byte(decoded, pos, 32);
                    let sp: usize = match sp_opt {
                        None => {
                            proof {
                                assert(spec_tree_records(decoded@, pos as int) is Err);
                            }
                            return Err(GitError::CorruptObject);
                        },
                        Some(sp) => sp,
                    };
                    if sp >= z {
                        proof {
                            assert(spec_tree_records(decoded@, pos as int) is Err);
                        }
                        return Err(GitError::CorruptObject);
                    }
                    let perm = copy_range(decoded, pos, sp);
                    let name = copy_range(decoded, sp + 1, z);
                    let hash20 = copy_range(decoded, z + 1, z + 21);
                    let ghost old_models = rec_models(recs@);
                    let ghost rec_model = (perm@, name@, hash20@);
                    recs.push((perm, name, hash20));
                    proof {
                        assert(rec_models(recs@) =~= old_models.push(rec_model));
                        let step = spec_tree_records(decoded@, z + 21);
                        assert(spec_tree_records(decoded@, pos as int) == (match step {
                            Err(e) => Err::<Seq<TreeRecord>, GitError>(e),
                            Ok(rest) => Ok::<Seq<TreeRecord>, GitError>(seq![rec_model] + rest),
                        }));
                        match step {
                            Ok(rest) => {
                                assert(old_models + (seq![rec_model] + rest) =~= rec_models(recs@)
                                    + rest);
                            },
                            Err(e) => {},
                        }
                    }
                    pos = z + 21;
                }
            },
        }
    }
    proof {
        if !stop {
            assert(pos >= n);
            assert(spec_tree_records(decoded@, pos as int) == Ok::<Seq<TreeRecord>, GitError>(
                Seq::empty(),
            ));
        }
        assert(rec_models(recs@) + Seq::<TreeRecord>::empty() =~= rec_models(recs@));
        assert(spec_tree_records(decoded@, pos0 as int) == Ok::<Seq<TreeRecord>, GitError>(
            rec_models(recs@),
        ));
    }
    let ghost ms = rec_models(recs@);
    let count: usize = recs.len();
    let mut out = String::new();
    let mut i: usize = 0;
    proof {
        assert(ms.skip(0) =~= ms);
        assert(Seq::<char>::empty() + spec_format_records(store@, ms)->Ok_0 =~= spec_format_records(
            store@,
            ms,
        )->Ok_0);
    }
    while i < count
        invariant
            0 <= i <= count,
            count == recs@.len(),
            ms == rec_models(recs@),
            match spec_format_records(store@, ms.skip(i as int)) {
                Ok(rest) => spec_format_records(store@, ms) == Ok::<Seq<char>, GitError>(
                    out@ + rest,
                ),
                Err(e) => spec_format_records(store@, ms) == Err::<Seq<char>, GitError>(e),
            },
        decreases count - i,
    {
        let ghost rec_model = ms[i as int];
        proof {
            assert(ms.skip(i as int)[0] == rec_model);
            assert(ms.skip(i as int).drop_first() =~= ms.skip(i + 1));
        }
        let hex = to_hex_string(recs[i].2.as_slice());
        let compressed = match store.read_object_file(hex.as_str()) {
            Ok(c) => c,
            Err(e) => {
                proof {
                    assert(spec_format_record(store@, rec_model) == Err::<Seq<char>, GitError>(
                        GitError::ObjectNotFound,
                    ));
                }
                return Err(GitError::ObjectNotFound);
            },
        };
        let d = match decode_object(&compressed) {
            Ok(d) => d,
            Err(e) => {
                proof {
                    assert(spec_format_record(store@, rec_model) == Err::<Seq<char>, GitError>(
                        GitError::CorruptObject,
                    ));
                }
                return Err(GitError::CorruptObject);
            },
        };
        let d_end: usize = match find_byte(d.as_slice(), 0, 0) {
            Some(z2) => z2,
            None => d.len(),
        };
        proof {
            if spec_find_byte(d@, 0, 0) is None {
                assert(d@.subrange(0, d@.len() as int) =~= d@);
            }
        }
        let header2 = copy_range(d.as_slice(), 0, d_end);
        let kind2 = match get_header_type(header2.as_slice()) {
            Ok(k) => k,
            Err(e) => {
                proof {
                    assert(spec_format_record(store@, rec_model) == Err::<Seq<char>, GitError>(
                        GitError::InvalidHeader,
                    ));
                }
                return Err(e);
            },
        };
        let perm_text = bytes_text(recs[i].0.as_slice());
        let name_text = bytes_text(recs[i].1.as_slice());
        let padded = pad6(perm_text.as_str());
        let ghost before = out@;
        out.append(padded.as_str());
        out.append(" ");
        out.append(kind2.name_str());
        out.append(" ");
        out.append(hex.as_str());
        out.append("\t");
        out.append(name_text.as_str());
        out.append("\n");
        proof {
            reveal_strlit(" ");
            reveal_strlit("\t");
            reveal_strlit("\n");
            assert(" "@ =~= seq![' ']);
            assert("\t"@ =~= seq!['\t']);
            assert("\n"@ =~= seq!['\n']);
            let line = spec_pad6(spec_bytes_text(rec_model.0)) + seq![' '] + spec_kind_chars(kind2)
                + seq![' '] + spec_to_hex(rec_model.2) + seq!['\t'] + spec_bytes_text(rec_model.1)
                + seq!['\n'];
            assert(out@ =~= before + line);
            assert(spec_format_record(store@, rec_model) == Ok::<Seq<char>, GitError>(line));
            let step = spec_format_records(store@, ms.skip(i + 1));
            match step {
                Ok(rest) => {
                    assert(spec_format_records(store@, ms.skip(i as int)) == Ok::<
                        Seq<char>,
                        GitError,
                    >(line + rest));
                    assert(before + (line + rest) =~= out@ + rest);
                },
                Err(e) => {},
            }
        }
        i += 1;
    }
    proof {
        assert(ms.skip(count as int) =~= Seq::<TreeRecord>::empty());
        assert(out@ + Seq::<char>::empty() =~= out@);
    }
    Ok(out)
}

/// The listing of a stored tree object, looked up by hash.
pub open spec fn spec_ls_tree(m: StoreMap, h: Seq<char>) -> Result<Seq<char>, GitError> {
    if !m.contains_key(h) {
        Err(GitError::ObjectNotFound)
    } else {
        match inflate_of(m[h]) {
            None => Err(GitError::CorruptObject),
            Some(d) => spec_format_tree(m, d),
        }
    }
}

/// Returns the listing of the tree object stored under the given hash.
pub fn ls_tree(store: &ObjectStore, object_hash: &str) -> (r: Result<String, GitError>)
    requires
        store.wf(),
    ensures
        match r {
            Ok(s) => spec_ls_tree(store@, object_hash@) == Ok::<Seq<char>, GitError>(s@),
            Err(e) => spec_ls_tree(store@, object_hash@) == Err::<Seq<char>, GitError>(e),
        },
{
    let compressed = match store.read_object_file(object_hash) {
        Ok(c) => c,
        Err(e) => {
            return Err(GitError::ObjectNotFound);
        },
    };
    let decoded = match decode_object(&compressed) {
        Ok(d) => d,
        Err(e) => {
            return Err(GitError::CorruptObject);
        },
    };
    format_tree(store, decoded.as_slice())
}

/// A tree object with zero records formats to the empty string, whatever
/// the store holds.
pub proof fn lemma_empty_tree_formats_empty(m: StoreMap)
    ensures
        spec_format_tree(m, crate::store::spec_frame(Object::Tree, Seq::empty()))
            == Ok::<Seq<char>, GitError>(Seq::<char>::empty()),
{
    let b = crate::store::spec_frame(Object::Tree, Seq::empty());
    assert(b =~= seq![116u8, 114u8, 101u8, 101u8, 32u8, 48u8, 0u8]);
    crate::byteops::lemma_find_byte_some(b, 0, 0, 6);
    crate::byteops::lemma_find_byte_some(b, 0, 32, 4);
    assert(spec_find_byte(b, 0, 0) == Some(6int));
    let header = b.subrange(0, 6);
    assert(spec_find_byte(header, 0, 32) == Some(4int)) by {
        crate::byteops::lemma_find_byte_some(header, 0, 32, 4);
    }
    assert(crate::object_util::spec_header_token(header) =~= crate::object_util::spec_kind_bytes(
        Object::Tree,
    ));
    assert(spec_header_type(header) == Ok::<Object, GitError>(Object::Tree));
    assert(spec_tree_records(b, 7) == Ok::<Seq<TreeRecord>, GitError>(Seq::empty()));
}

} // verus!
