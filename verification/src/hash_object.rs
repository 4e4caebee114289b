//! Hashing of file content as blob objects: framing, hash computation,
//! and the store-backed variant that also persists the object.

use crate::byteops::{ascii_chars, ascii_string, dec_bytes, spec_dec_bytes};
use crate::object_util::Object;
use crate::store::{frame_object, sha1_digest, spec_frame, spec_put_hash, store_after_write,
    ObjectStore};
use crate::object_util::to_hex_string;
use vstd::prelude::*;
use vstd::string::{StringExecFns, StringSliceAdditionalSpecFns};

verus! {

broadcast use vstd::string::group_string_axioms;

/// The store text for a blob payload: the kind name, a space, the decimal
/// byte length of the content, a NUL, then the content itself.
pub open spec fn spec_create_store(content: &str) -> Seq<char> {
    seq!['b', 'l', 'o', 'b', ' '] + ascii_chars(spec_dec_bytes(content.spec_bytes().len()))
        + seq!['\0'] + content@
}

/// Creates the store text that is hashed to give a blob's object hash.
///
/// The declared length counts the content's bytes, not its characters.
pub fn create_store(content: &str) -> (r: String)
    ensures
        r@ == spec_create_store(content),
{
    let mut s = String::from_str("blob ");
    let byte_len: usize = content.as_bytes().len();
    proof {
        assert(byte_len as nat == content.spec_bytes().len());
    }
    let digits = dec_bytes(byte_len as u64);
    proof {
        crate::byteops::lemma_dec_bytes_ascii(content.spec_bytes().len());
    }
    let digit_str = ascii_string(digits);
    s.append(digit_str.as_str());
    s.append("\0");
    s.append(content);
    proof {
        reveal_strlit("blob ");
        reveal_strlit("\0");
        assert("blob "@ =~= seq!['b', 'l', 'o', 'b', ' ']);
        assert("\0"@ =~= seq!['\0']);
    }
    s
}

/// Returns the object hash of the given content, framed as a blob.
///
/// The hash is the SHA-1 of the framed store buffer, rendered as
/// lowercase hex; it is a function of the content alone.
pub fn generate_hash(content: &Vec<u8>) -> (r: String)
    ensures
        r@ == spec_put_hash(Object::Blob, content@),
        r@.len() == 40,
{
    let framed = frame_object(Object::Blob, content);
    let digest = sha1_digest(framed.as_slice());
    to_hex_string(digest.as_slice())
}

/// Like [`generate_hash`], but also writes the framed blob into the
/// object store; the returned hash is the same either way.
pub fn write_hash_object(store: &mut ObjectStore, content: &Vec<u8>) -> (r: String)
    requires
        old(store).wf(),
    ensures
        final(store).wf(),
        r@ == spec_put_hash(Object::Blob, content@),
        r@.len() == 40,
        store_after_write(old(store)@, final(store)@, r@, spec_frame(Object::Blob, content@)),
        final(store)@.contains_key(r@),
{
    store.put(Object::Blob, content)
}

} // verus!
