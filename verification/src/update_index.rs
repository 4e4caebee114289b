//! Staging mutators: registering working-tree file contents in the
//! staging table.
//!
//! Both operations store each file's content as a blob object, refresh
//! the per-entry metadata, and re-encode the whole table; there is no
//! incremental update of the serialized form. The caller supplies each
//! file's content and metadata as plain values.

use crate::byteops::str_equal;
use crate::errors::GitError;
use crate::index_util::{
    models, perm_rw, wf_entry, write_index, IndexEntryModel, IndexFile, spec_encode_index,
};
use crate::object_util::Object;
use crate::store::{spec_frame, spec_put_hash, store_after_write, ObjectStore, StoreMap};
use vstd::prelude::*;
use vstd::string::StringExecFns;
use vstd::utf8::is_ascii_chars;

verus! {

broadcast use vstd::string::group_string_axioms;

/// A working-tree file's content and metadata, as read by the caller.
pub struct FileStat {
    pub filename: String,
    pub content: Vec<u8>,
    pub ctime: u32,
    pub mtime: u32,
    pub size: u32,
}

/// The contents of a run of file stats.
pub open spec fn stat_contents(stats: Seq<FileStat>) -> Seq<Seq<u8>> {
    stats.map(|i: int, s: FileStat| s.content@)
}

/// One conditional blob write within a chain of stores.
pub open spec fn blob_put_at(maps: Seq<StoreMap>, contents: Seq<Seq<u8>>, i: int) -> bool {
    store_after_write(
        maps[i],
        maps[i + 1],
        spec_put_hash(Object::Blob, contents[i]),
        spec_frame(Object::Blob, contents[i]),
    )
}

/// A witness chain of store states threading a run of blob writes.
pub open spec fn blob_puts_chain(
    m0: StoreMap,
    m1: StoreMap,
    contents: Seq<Seq<u8>>,
    maps: Seq<StoreMap>,
) -> bool {
    &&& maps.len() == contents.len() + 1
    &&& maps[0] == m0
    &&& maps[contents.len() as int] == m1
    &&& forall|i: int| 0 <= i < contents.len() ==> #[trigger] blob_put_at(maps, contents, i)
}

/// How the store's contents change when a run of blob payloads is stored
/// in order, each write conditional on its hash being absent.
pub open spec fn store_after_blob_puts(m0: StoreMap, m1: StoreMap, contents: Seq<Seq<u8>>) -> bool {
    exists|maps: Seq<StoreMap>| #[trigger] blob_puts_chain(m0, m1, contents, maps)
}

/// Storing no blobs leaves the store as it is.
proof fn lemma_blob_puts_empty(m: StoreMap)
    ensures
        store_after_blob_puts(m, m, Seq::empty()),
{
    let maps = seq![m];
    assert(blob_puts_chain(m, m, Seq::empty(), maps));
}

/// One more stored blob extends a run of stored blobs.
proof fn lemma_blob_puts_snoc(
    m0: StoreMap,
    mid: StoreMap,
    m1: StoreMap,
    contents: Seq<Seq<u8>>,
    c: Seq<u8>,
)
    requires
        store_after_blob_puts(m0, mid, contents),
        store_after_write(mid, m1, spec_put_hash(Object::Blob, c), spec_frame(Object::Blob, c)),
    ensures
        store_after_blob_puts(m0, m1, contents.push(c)),
{
    let maps = choose|maps: Seq<StoreMap>| #[trigger] blob_puts_chain(m0, mid, contents, maps);
    let maps2 = maps.push(m1);
    let extended = contents.push(c);
    assert forall|i: int| 0 <= i < extended.len() implies #[trigger] blob_put_at(
        maps2,
        extended,
        i,
    ) by {
        if i < contents.len() {
            assert(blob_put_at(maps, contents, i));
            assert(maps2[i] == maps[i] && maps2[i + 1] == maps[i + 1]);
            assert(extended[i] == contents[i]);
        } else {
            assert(maps2[i] == mid && maps2[i + 1] == m1);
            assert(extended[i] == c);
        }
    }
    assert(blob_puts_chain(m0, m1, extended, maps2));
}

/// One entry refreshed against its file's current state: new
/// modification time, size, and blob hash; all other fields kept.
pub open spec fn spec_update_item(e: IndexEntryModel, s: FileStat) -> IndexEntryModel {
    IndexEntryModel {
        mtime: s.mtime,
        size: s.size,
        object_hash: spec_put_hash(Object::Blob, s.content@),
        ..e
    }
}

/// A whole table refreshed entry by entry.
pub open spec fn spec_update_items(es: Seq<IndexEntryModel>, stats: Seq<FileStat>) -> (r: Seq<IndexEntryModel>)
    recommends
        stats.len() == es.len(),
{
    Seq::new(es.len(), |i: int| spec_update_item(es[i], stats[i]))
}

/// The entry a newly added path gets: the file's times and size, the
/// read-write permission class, absent optional fields, and the hash of
/// its content stored as a blob.
pub open spec fn spec_new_entry(f: FileStat) -> IndexEntryModel {
    IndexEntryModel {
        ctime: f.ctime,
        ctime_fractions: 0,
        mtime: f.mtime,
        mtime_fractions: 0,
        dev: None,
        ino: None,
        permissions: perm_rw(),
        uid: None,
        gid: None,
        size: f.size,
        object_hash: spec_put_hash(Object::Blob, f.content@),
        filename: f.filename@,
    }
}

/// Refreshes every entry of the table in place: stores each file's
/// content as a blob and updates the entry's hash, modification time and
/// size. The caller hands one stat per entry, in table order.
#[verifier::loop_isolation(false)]
pub fn update_index_items(store: &mut ObjectStore, items: &Vec<IndexFile>, stats: &Vec<FileStat>)
    -> (r: Vec<IndexFile>)
    requires
        old(store).wf(),
        stats@.len() == items@.len(),
        forall|i: int| 0 <= i < items@.len() ==> wf_entry(#[trigger] items@[i]@),
    ensures
        final(store).wf(),
        r@.len() == items@.len(),
        models(r@) == spec_update_items(models(items@), stats@),
        forall|i: int| 0 <= i < r@.len() ==> wf_entry(#[trigger] r@[i]@),
        store_after_blob_puts(old(store)@, final(store)@, stat_contents(stats@)),
{
    let count: usize = items.len();
    let mut updated: Vec<IndexFile> = Vec::new();
    proof {
        assert(models(updated@) =~= spec_update_items(models(items@), stats@).subrange(0, 0));
        assert(stat_contents(stats@).subrange(0, 0) =~= Seq::<Seq<u8>>::empty());
        lemma_blob_puts_empty(old(store)@);
    }
    let mut i: usize = 0;
    while i < count
        invariant
            store.wf(),
            0 <= i <= count,
            updated@.len() == i,
            models(updated@) == spec_update_items(models(items@), stats@).subrange(0, i as int),
            forall|k: int| 0 <= k < updated@.len() ==> wf_entry(#[trigger] updated@[k]@),
            store_after_blob_puts(old(store)@, store@, stat_contents(stats@).subrange(0, i as int)),
        decreases count - i,
    {
        let ghost pre = store@;
        let hash = store.put(Object::Blob, &stats[i].content);
        let orig = &items[i];
        let item = IndexFile {
            ctime: orig.ctime,
            ctime_fractions: orig.ctime_fractions,
            mtime: stats[i].mtime,
            mtime_fractions: orig.mtime_fractions,
            dev: orig.dev,
            ino: orig.ino,
            permissions: orig.permissions.clone(),
            uid: orig.uid,
            gid: orig.gid,
            size: stats[i].size,
            object_hash: hash,
            filename: orig.filename.clone(),
        };
        proof {
            assert(item@ =~= spec_update_item(items@[i as int]@, stats@[i as int]));
            lemma_blob_puts_snoc(
                old(store)@,
                pre,
                store@,
                stat_contents(stats@).subrange(0, i as int),
                stats@[i as int].content@,
            );
            assert(stat_contents(stats@).subrange(0, i as int).push(stats@[i as int].content@)
                =~= stat_contents(stats@).subrange(0, i + 1));
        }
        updated.push(item);
        proof {
            assert(models(updated@) =~= spec_update_items(models(items@), stats@).subrange(
                0,
                i + 1,
            ));
        }
        i += 1;
    }
    proof {
        assert(spec_update_items(models(items@), stats@).subrange(0, count as int)
            =~= spec_update_items(models(items@), stats@));
        assert(stat_contents(stats@).subrange(0, count as int) =~= stat_contents(stats@));
    }
    updated
}

/// Refreshes file contents already registered in the staging table and
/// returns the re-encoded table bytes; new paths are not added here.
pub fn update_index(store: &mut ObjectStore, items: &Vec<IndexFile>, stats: &Vec<FileStat>) -> (r: Vec<u8>)
    requires
        old(store).wf(),
        stats@.len() == items@.len(),
        items@.len() <= 0xFFFF_FFFF,
        forall|i: int| 0 <= i < items@.len() ==> wf_entry(#[trigger] items@[i]@),
    ensures
        final(store).wf(),
        r@ == spec_encode_index(spec_update_items(models(items@), stats@)),
        store_after_blob_puts(old(store)@, final(store)@, stat_contents(stats@)),
{
    let updated = update_index_items(store, items, stats);
    write_index(&updated)
}

/// Adds a file to the staging table: fails with `DuplicateEntry` if the
/// path is already tracked (leaving the store untouched); otherwise
/// refreshes the existing entries, stores the new file's content as a
/// blob, appends its entry with permission class `"644"` and absent
/// optional fields, and returns the re-encoded table bytes.
#[verifier::loop_isolation(false)]
pub fn add_to_index(
    store: &mut ObjectStore,
    items: &Vec<IndexFile>,
    stats: &Vec<FileStat>,
    new_file: &FileStat,
) -> (r: Result<Vec<u8>, GitError>)
    requires
        old(store).wf(),
        stats@.len() == items@.len(),
        items@.len() + 1 <= 0xFFFF_FFFF,
        forall|i: int| 0 <= i < items@.len() ==> wf_entry(#[trigger] items@[i]@),
        is_ascii_chars(new_file.filename@),
        new_file.filename@.len() <= 0xFFF,
    ensures
        final(store).wf(),
        (exists|j: int| 0 <= j < items@.len() && (#[trigger] items@[j]@.filename)
            == new_file.filename@) ==> {
            &&& r matches Err(e) && e == GitError::DuplicateEntry
            &&& final(store)@ == old(store)@
        },
        !(exists|j: int| 0 <= j < items@.len() && (#[trigger] items@[j]@.filename)
            == new_file.filename@) ==> {
            &&& r matches Ok(bytes) && bytes@ == spec_encode_index(
                spec_update_items(models(items@), stats@).push(spec_new_entry(*new_file)),
            )
            &&& store_after_blob_puts(
                old(store)@,
                final(store)@,
                stat_contents(stats@).push(new_file.content@),
            )
        },
{
    let count: usize = items.len();
    let mut i: usize = 0;
    while i < count
        invariant
            0 <= i <= count,
            forall|j: int| 0 <= j < i ==> (#[trigger] items@[j]@.filename) != new_file.filename@,
        decreases count - i,
    {
        if str_equal(items[i].filename.as_str(), new_file.filename.as_str()) {
            proof {
                assert(items@[i as int]@.filename == new_file.filename@);
            }
            return Err(GitError::DuplicateEntry);
        }
        i += 1;
    }
    let mut updated = update_index_items(store, items, stats);
    let ghost mid = store@;
    let hash = store.put(Object::Blob, &new_file.content);
    let new_item = IndexFile {
        ctime: new_file.ctime,
        ctime_fractions: 0,
        mtime: new_file.mtime,
        mtime_fractions: 0,
        dev: None,
        ino: None,
        permissions: String::from_str("644"),
        uid: None,
        gid: None,
        size: new_file.size,
        object_hash: hash,
        filename: new_file.filename.clone(),
    };
    proof {
        reveal_strlit("644");
        assert("644"@ =~= perm_rw());
        assert(new_item@ =~= spec_new_entry(*new_file));
        assert(wf_entry(new_item@));
        lemma_blob_puts_snoc(old(store)@, mid, store@, stat_contents(stats@), new_file.content@);
    }
    updated.push(new_item);
    proof {
        assert(models(updated@) =~= spec_update_items(models(items@), stats@).push(
            spec_new_entry(*new_file),
        ));
    }
    let bytes = write_index(&updated);
    Ok(bytes)
}

} // verus!
