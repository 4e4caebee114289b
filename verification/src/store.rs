//! The content-addressed object store.
//!
//! An [`ObjectStore`] models the repository's `objects/` area as a map from
//! a 40-character hex hash to the zlib-compressed framed payload stored
//! under that hash. Writes are conditional on absence: an existing entry
//! for a hash is never overwritten, which makes repeated stores of the
//! same content idempotent.

use crate::byteops::{push_bytes, dec_bytes, spec_dec_bytes};
use crate::errors::GitError;
use crate::object_util::{
    inflate_of, spec_kind_bytes, spec_to_hex, to_hex_string, zlib_compress, Object,
};
use crate::byteops::str_equal;
use vstd::prelude::*;

verus! {

broadcast use vstd::string::group_string_axioms;

/// The contents of an object store: a map from hex hash to the
/// compressed framed payload stored under it.
pub type StoreMap = Map<Seq<char>, Seq<u8>>;

/// The SHA-1 digest of a byte sequence: twenty bytes, a function of the
/// input alone.
pub uninterp spec fn sha1_of(b: Seq<u8>) -> Seq<u8>;

/// Relies on the sha1 crate's `Sha1` through `Digest::digest`: the
/// one-shot digest of the input, twenty bytes, a function of the input
/// bytes alone.
#[verifier::external_body]
pub(crate) fn sha1_digest(bytes: &[u8]) -> (r: Vec<u8>)
    ensures
        r@ == sha1_of(bytes@),
        r@.len() == 20,
{
    <sha1::Sha1 as sha1::Digest>::digest(bytes).to_vec()
}

/// The framed store buffer for a payload:
/// `"<kind> <decimal-length>\0" + content`. The hash of an object is
/// computed over this whole buffer, not the raw content alone.
pub open spec fn spec_frame(kind: Object, content: Seq<u8>) -> Seq<u8> {
    spec_kind_bytes(kind) + seq![32u8] + spec_dec_bytes(content.len()) + seq![0u8] + content
}

/// The hex hash under which a payload of the given kind is stored.
pub open spec fn spec_put_hash(kind: Object, content: Seq<u8>) -> Seq<char> {
    spec_to_hex(sha1_of(spec_frame(kind, content)))
}

/// Builds the framed store buffer for a payload.
pub fn frame_object(kind: Object, content: &Vec<u8>) -> (r: Vec<u8>)
    ensures
        r@ == spec_frame(kind, content@),
{
    let mut buf = kind.name_bytes();
    buf.push(32u8);
    let digits = dec_bytes(content.len() as u64);
    push_bytes(&mut buf, digits.as_slice());
    buf.push(0u8);
    push_bytes(&mut buf, content.as_slice());
    proof {
        assert(buf@ =~= spec_frame(kind, content@));
    }
    buf
}

/// The map a sequence of (hash, payload) entries denotes, later entries
/// taking precedence.
pub open spec fn entries_map(s: Seq<(String, Vec<u8>)>) -> Map<Seq<char>, Seq<u8>>
    decreases s.len(),
{
    if s.len() == 0 {
        Map::empty()
    } else {
        entries_map(s.drop_last()).insert(s.last().0@, s.last().1@)
    }
}

/// A key is in the entry map exactly when some entry carries it.
proof fn lemma_entries_map_contains(s: Seq<(String, Vec<u8>)>, k: Seq<char>)
    ensures
        entries_map(s).contains_key(k) <==> exists|i: int| 0 <= i < s.len() && s[i].0@ == k,
    decreases s.len(),
{
    if s.len() > 0 {
        lemma_entries_map_contains(s.drop_last(), k);
        if entries_map(s).contains_key(k) {
            if s.last().0@ == k {
                assert(s[s.len() - 1].0@ == k);
            } else {
                let i = choose|i: int| 0 <= i < s.drop_last().len() && s.drop_last()[i].0@ == k;
                assert(s[i].0@ == k);
            }
        }
        if exists|i: int| 0 <= i < s.len() && s[i].0@ == k {
            let i = choose|i: int| 0 <= i < s.len() && s[i].0@ == k;
            if i < s.len() - 1 {
                assert(s.drop_last()[i].0@ == k);
            }
        }
    }
}

/// With unique keys, the entry map sends each entry's key to its payload.
proof fn lemma_entries_map_value(s: Seq<(String, Vec<u8>)>, i: int)
    requires
        forall|a: int, b: int| 0 <= a < b < s.len() ==> s[a].0@ != s[b].0@,
        0 <= i < s.len(),
    ensures
        entries_map(s).contains_key(s[i].0@),
        entries_map(s)[s[i].0@] == s[i].1@,
    decreases s.len(),
{
    if i == s.len() - 1 {
    } else {
        lemma_entries_map_value(s.drop_last(), i);
        assert(s.drop_last()[i] == s[i]);
        assert(s[i].0@ != s.last().0@);
    }
}

/// How the store's contents change when a framed buffer is written under
/// a hash: an already-present hash leaves the store unchanged; a fresh
/// hash gains a compressed payload that decompresses back to the buffer.
pub open spec fn store_after_write(
    m0: Map<Seq<char>, Seq<u8>>,
    m1: Map<Seq<char>, Seq<u8>>,
    h: Seq<char>,
    framed: Seq<u8>,
) -> bool {
    if m0.contains_key(h) {
        m1 == m0
    } else {
        exists|c: Seq<u8>| inflate_of(c) == Some(framed) && m1 == m0.insert(h, c)
    }
}

/// Writing the same hash/content pair twice leaves exactly the state that
/// one write leaves: the second write changes nothing, and the store's
/// keys after either are the prior keys plus the written hash.
pub proof fn lemma_store_write_idempotent(
    m0: Map<Seq<char>, Seq<u8>>,
    m1: Map<Seq<char>, Seq<u8>>,
    m2: Map<Seq<char>, Seq<u8>>,
    h: Seq<char>,
    framed: Seq<u8>,
)
    requires
        store_after_write(m0, m1, h, framed),
        store_after_write(m1, m2, h, framed),
    ensures
        m2 == m1,
        m1.contains_key(h),
        m1.dom() =~= m0.dom().insert(h),
{
    if m0.contains_key(h) {
        assert(m0.dom().insert(h) =~= m0.dom());
    }
}

/// A content-addressed store of compressed framed payloads, keyed by
/// 40-character hex hash.
pub struct ObjectStore {
    entries: Vec<(String, Vec<u8>)>,
}

impl View for ObjectStore {
    type V = Map<Seq<char>, Seq<u8>>;

    closed spec fn view(&self) -> Map<Seq<char>, Seq<u8>> {
        entries_map(self.entries@)
    }
}

impl ObjectStore {
    /// No two entries share a hash.
    pub closed spec fn wf(&self) -> bool {
        forall|a: int, b: int|
            0 <= a < b < self.entries@.len() ==> self.entries@[a].0@ != self.entries@[b].0@
    }

    /// An empty store.
    pub fn new() -> (r: ObjectStore)
        ensures
            r@ == Map::<Seq<char>, Seq<u8>>::empty(),
            r.wf(),
    {
        ObjectStore { entries: Vec::new() }
    }

    /// The position of the entry carrying a hash, if any.
    fn find_entry(&self, object_hash: &str) -> (r: Option<usize>)
        ensures
            match r {
                Some(i) => i < self.entries@.len() && self.entries@[i as int].0@ == object_hash@,
                None => !self@.contains_key(object_hash@),
            },
    {
        let n: usize = self.entries.len();
        let mut i: usize = 0;
        while i < n
            invariant
                n == self.entries@.len(),
                0 <= i <= n,
                forall|j: int| 0 <= j < i ==> self.entries@[j].0@ != object_hash@,
            decreases n - i,
        {
            if str_equal(self.entries[i].0.as_str(), object_hash) {
                return Some(i);
            }
            i += 1;
        }
        proof {
            lemma_entries_map_contains(self.entries@, object_hash@);
        }
        None
    }

    /// Whether an object with the given hash is stored.
    pub fn exists_object(&self, object_hash: &str) -> (r: bool)
        ensures
            r == self@.contains_key(object_hash@),
    {
        let found = self.find_entry(object_hash);
        proof {
            if found is Some {
                lemma_entries_map_contains(self.entries@, object_hash@);
            }
        }
        found.is_some()
    }

    /// Given an object hash, returns the stored (still compressed) file
    /// contents, or `ObjectNotFound` when no object carries that hash.
    pub fn read_object_file(&self, object_hash: &str) -> (r: Result<Vec<u8>, GitError>)
        requires
            self.wf(),
        ensures
            r is Ok <==> self@.contains_key(object_hash@),
            r matches Ok(v) ==> v@ == self@[object_hash@],
            r matches Err(e) ==> e == GitError::ObjectNotFound,
    {
        match self.find_entry(object_hash) {
            Some(i) => {
                proof {
                    lemma_entries_map_value(self.entries@, i as int);
                }
                Ok(self.entries[i].1.clone())
            },
            None => Err(GitError::ObjectNotFound),
        }
    }

    /// Writes the given framed store buffer out under the given hash.
    ///
    /// The payload is compressed before storing. A hash that is already
    /// present is left untouched: content equality is assumed from hash
    /// equality, so the write is skipped.
    pub fn write_object_file(&mut self, object_hash: &str, store_buf: &[u8])
        requires
            old(self).wf(),
        ensures
            final(self).wf(),
            store_after_write(old(self)@, final(self)@, object_hash@, store_buf@),
    {
        match self.find_entry(object_hash) {
            Some(i) => {
                proof {
                    lemma_entries_map_contains(self.entries@, object_hash@);
                }
            },
            None => {
                proof {
                    lemma_entries_map_contains(self.entries@, object_hash@);
                }
                let compressed = zlib_compress(store_buf);
                let ghost c = compressed@;
                let key = String::from_str(object_hash);
                self.entries.push((key, compressed));
                proof {
                    assert(self.entries@.drop_last() =~= old(self).entries@);
                    assert(self@ == old(self)@.insert(object_hash@, c));
                    assert(inflate_of(c) == Some(store_buf@));
                    assert forall|a: int, b: int|
                        0 <= a < b < self.entries@.len() implies self.entries@[a].0@
                        != self.entries@[b].0@ by {
                        if b == self.entries@.len() - 1 {
                            assert(old(self).entries@[a].0@ != object_hash@);
                        }
                    }
                }
            },
        }
    }

    /// Stores a payload of the given kind and returns its hex hash.
    ///
    /// The hash is computed over the framed buffer and is a function of
    /// the kind and content alone; the write itself is skipped when an
    /// object with that hash already exists.
    pub fn put(&mut self, kind: Object, content: &Vec<u8>) -> (r: String)
        requires
            old(self).wf(),
        ensures
            final(self).wf(),
            r@ == spec_put_hash(kind, content@),
            r@.len() == 40,
            forall|i: int|
                0 <= i < r@.len() ==> crate::object_util::is_lower_hex_char(#[trigger] r@[i]),
            store_after_write(old(self)@, final(self)@, r@, spec_frame(kind, content@)),
            final(self)@.contains_key(r@),
    {
        let framed = frame_object(kind, content);
        let digest = sha1_digest(framed.as_slice());
        let hash = to_hex_string(digest.as_slice());
        self.write_object_file(hash.as_str(), framed.as_slice());
        hash
    }

    /// Adopts an already-compressed payload under the given hash, for a
    /// caller re-opening a store from persisted contents. An existing
    /// entry for the hash is kept.
    pub fn load_object(&mut self, object_hash: String, compressed: Vec<u8>)
        requires
            old(self).wf(),
        ensures
            final(self).wf(),
            old(self)@.contains_key(object_hash@) ==> final(self)@ == old(self)@,
            !old(self)@.contains_key(object_hash@) ==> final(self)@ == old(self)@.insert(
                object_hash@,
                compressed@,
            ),
    {
        let ghost k = object_hash@;
        let ghost c = compressed@;
        match self.find_entry(object_hash.as_str()) {
            Some(i) => {
                proof {
                    lemma_entries_map_contains(self.entries@, k);
                }
            },
            None => {
                proof {
                    lemma_entries_map_contains(self.entries@, k);
                }
                self.entries.push((object_hash, compressed));
                proof {
                    assert(self.entries@.drop_last() =~= old(self).entries@);
                    assert(self@ == old(self)@.insert(k, c));
                    assert forall|a: int, b: int|
                        0 <= a < b < self.entries@.len() implies self.entries@[a].0@
                        != self.entries@[b].0@ by {
                        if b == self.entries@.len() - 1 {
                            assert(old(self).entries@[a].0@ != k);
                        }
                    }
                }
            },
        }
    }

    /// The number of stored objects.
    pub fn object_count(&self) -> (r: usize)
        requires
            self.wf(),
        ensures
            r == self@.dom().len(),
    {
        proof {
            lemma_entries_map_dom_len(self.entries@);
        }
        self.entries.len()
    }

    /// Every stored object as a (hash, compressed payload) pair: one
    /// pair per key of the store, each mapped to its payload, for a
    /// caller persisting the store's contents.
    pub fn objects(&self) -> (r: Vec<(String, Vec<u8>)>)
        requires
            self.wf(),
        ensures
            r@.len() == self@.dom().len(),
            forall|i: int|
                0 <= i < r@.len() ==> self@.contains_key(#[trigger] r@[i].0@) && self@[r@[i].0@]
                    == r@[i].1@,
            forall|k: Seq<char>|
                #[trigger] self@.contains_key(k) ==> exists|i: int|
                    0 <= i < r@.len() && #[trigger] r@[i].0@ == k,
    {
        let n: usize = self.entries.len();
        let mut out: Vec<(String, Vec<u8>)> = Vec::new();
        let mut i: usize = 0;
        while i < n
            invariant
                n == self.entries@.len(),
                0 <= i <= n,
                out@.len() == i,
                forall|j: int|
                    0 <= j < i ==> (#[trigger] out@[j]).0@ == self.entries@[j].0@ && out@[j].1@
                        == self.entries@[j].1@,
            decreases n - i,
        {
            let p = &self.entries[i];
            out.push((p.0.clone(), p.1.clone()));
            i += 1;
        }
        proof {
            lemma_entries_map_dom_len(self.entries@);
            assert forall|j: int| 0 <= j < out@.len() implies self@.contains_key(
                #[trigger] out@[j].0@,
            ) && self@[out@[j].0@] == out@[j].1@ by {
                lemma_entries_map_value(self.entries@, j);
            }
            assert forall|k: Seq<char>| #[trigger] self@.contains_key(k) implies exists|j: int|
                0 <= j < out@.len() && #[trigger] out@[j].0@ == k by {
                lemma_entries_map_contains(self.entries@, k);
                let j = choose|j: int| 0 <= j < self.entries@.len() && self.entries@[j].0@ == k;
                assert(out@[j].0@ == k);
            }
        }
        out
    }

    /// The hash and compressed payload of the stored object at a
    /// position, for a caller persisting the store's contents.
    pub fn object_at(&self, i: usize) -> (r: (String, Vec<u8>))
        requires
            self.wf(),
            i < self@.dom().len(),
        ensures
            self@.contains_key(r.0@),
            self@[r.0@] == r.1@,
    {
        proof {
            lemma_entries_map_dom_len(self.entries@);
            lemma_entries_map_value(self.entries@, i as int);
        }
        let p = &self.entries[i];
        (p.0.clone(), p.1.clone())
    }
}

/// With unique keys, the entry map has as many keys as there are entries.
proof fn lemma_entries_map_dom_len(s: Seq<(String, Vec<u8>)>)
    requires
        forall|a: int, b: int| 0 <= a < b < s.len() ==> s[a].0@ != s[b].0@,
    ensures
        entries_map(s).dom().len() == s.len(),
        entries_map(s).dom().finite(),
    decreases s.len(),
{
    if s.len() > 0 {
        lemma_entries_map_dom_len(s.drop_last());
        lemma_entries_map_contains(s.drop_last(), s.last().0@);
        assert(forall|i: int|
            0 <= i < s.drop_last().len() ==> s.drop_last()[i].0@ != s.last().0@);
        assert(!entries_map(s.drop_last()).contains_key(s.last().0@));
        assert(entries_map(s).dom() =~= entries_map(s.drop_last()).dom().insert(s.last().0@));
    }
}

} // verus!
