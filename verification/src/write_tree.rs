//! The tree builder: turning a staging table into a canonical tree object
//! committed to the object store.
//!
//! Each staging entry contributes one record to the tree content: the
//! three-character object-type-class prefix `"100"`, the permission
//! string, a space, the filename, a NUL byte, and the 20-byte binary
//! hash. Entries are serialized in staging-table order; no sorting is
//! imposed by this layer.

use crate::byteops::{ascii_bytes, push_bytes};
use crate::errors::GitError;
use crate::index_util::{
    hash_to_vec, models, parse_index, spec_parse_index, wf_entry, IndexEntryModel, IndexFile,
};
use crate::object_util::{spec_hex_pairs, Object};
use crate::store::{spec_frame, spec_put_hash, store_after_write, ObjectStore};
use vstd::prelude::*;
use vstd::string::StringExecFns;

verus! {

broadcast use vstd::string::group_string_axioms;

/// The tree-content record of one staging entry.
pub open spec fn spec_tree_record(e: IndexEntryModel) -> Seq<u8> {
    seq![49u8, 48u8, 48u8] + ascii_bytes(e.permissions) + seq![32u8] + ascii_bytes(e.filename)
        + seq![0u8] + spec_hex_pairs(ascii_bytes(e.object_hash))
}

/// The full tree content of a staging table: the records of its entries,
/// in table order.
pub open spec fn spec_tree_content(es: Seq<IndexEntryModel>) -> Seq<u8>
    decreases es.len(),
{
    if es.len() == 0 {
        seq![]
    } else {
        spec_tree_record(es[0]) + spec_tree_content(es.drop_first())
    }
}

/// Appending one entry appends its record.
proof fn lemma_tree_content_snoc(es: Seq<IndexEntryModel>, e: IndexEntryModel)
    ensures
        spec_tree_content(es.push(e)) == spec_tree_content(es) + spec_tree_record(e),
    decreases es.len(),
{
    if es.len() == 0 {
        let single = es.push(e);
        assert(single[0] == e);
        assert(single.drop_first() =~= Seq::<IndexEntryModel>::empty());
        assert(spec_tree_content(single.drop_first()) == Seq::<u8>::empty());
        assert(spec_tree_content(single) == spec_tree_record(e) + spec_tree_content(
            single.drop_first(),
        ));
        assert(spec_tree_content(es) == Seq::<u8>::empty());
        assert(spec_tree_content(es.push(e)) =~= spec_tree_content(es) + spec_tree_record(e));
    } else {
        assert(es.push(e).drop_first() =~= es.drop_first().push(e));
        lemma_tree_content_snoc(es.drop_first(), e);
        assert(es.push(e)[0] == es[0]);
        assert(spec_tree_content(es.push(e)) == spec_tree_record(es[0]) + spec_tree_content(
            es.drop_first().push(e),
        ));
        assert(spec_tree_record(es[0]) + (spec_tree_content(es.drop_first()) + spec_tree_record(e))
            =~= (spec_tree_record(es[0]) + spec_tree_content(es.drop_first())) + spec_tree_record(
            e,
        ));
    }
}

/// Whether every entry's referenced object is present in the store.
pub open spec fn all_objects_present(m: Map<Seq<char>, Seq<u8>>, es: Seq<IndexEntryModel>) -> bool {
    forall|i: int| 0 <= i < es.len() ==> m.contains_key(#[trigger] es[i].object_hash)
}

/// Whether a dangling-reference report names exactly the first entry of
/// the table whose referenced object is absent from the store.
pub open spec fn dangling_report(
    m: Map<Seq<char>, Seq<u8>>,
    es: Seq<IndexEntryModel>,
    permissions: Seq<char>,
    object_hash: Seq<char>,
    filename: Seq<char>,
) -> bool {
    exists|i: int|
        {
            &&& 0 <= i < es.len()
            &&& !m.contains_key(#[trigger] es[i].object_hash)
            &&& (forall|j: int| 0 <= j < i ==> m.contains_key(#[trigger] es[j].object_hash))
            &&& permissions == es[i].permissions
            &&& object_hash == es[i].object_hash
            &&& filename == es[i].filename
        }
}

/// Builds the tree object for a staging table and commits it through the
/// object store, returning the tree's hash.
///
/// Unless `missing_ok` is set, every entry's referenced object must
/// already exist in the store; the first entry whose object is absent
/// aborts the build with `DanglingReference`, reporting that entry's
/// permission, hash and filename, and leaves the store untouched.
#[verifier::loop_isolation(false)]
pub fn build_tree(store: &mut ObjectStore, items: &Vec<IndexFile>, missing_ok: bool) -> (r: Result<
    String,
    GitError,
>)
    requires
        old(store).wf(),
        forall|i: int| 0 <= i < items@.len() ==> wf_entry(#[trigger] items@[i]@),
    ensures
        final(store).wf(),
        r is Ok <==> (missing_ok || all_objects_present(old(store)@, models(items@))),
        r matches Ok(h) ==> {
            &&& h@ == spec_put_hash(Object::Tree, spec_tree_content(models(items@)))
            &&& store_after_write(
                old(store)@,
                final(store)@,
                h@,
                spec_frame(Object::Tree, spec_tree_content(models(items@))),
            )
            &&& final(store)@.contains_key(h@)
        },
        r matches Err(e) ==> {
            &&& final(store)@ == old(store)@
            &&& e matches GitError::DanglingReference { permissions, object_hash, filename }
                && dangling_report(
                old(store)@,
                models(items@),
                permissions@,
                object_hash@,
                filename@,
            )
        },
{
    let count: usize = items.len();
    let mut content: Vec<u8> = Vec::new();
    proof {
        assert(models(items@).subrange(0, 0) =~= Seq::<IndexEntryModel>::empty());
    }
    let mut i: usize = 0;
    while i < count
        invariant
            0 <= i <= count,
            store == old(store),
            content@ == spec_tree_content(models(items@).subrange(0, i as int)),
            missing_ok || forall|j: int|
                0 <= j < i ==> old(store)@.contains_key(#[trigger] items@[j]@.object_hash),
        decreases count - i,
    {
        let f = &items[i];
        if !missing_ok {
            if !store.exists_object(f.object_hash.as_str()) {
                proof {
                    assert(models(items@)[i as int] == items@[i as int]@);
                    assert(!all_objects_present(old(store)@, models(items@)));
                    assert(!old(store)@.contains_key(models(items@)[i as int].object_hash));
                    assert(forall|j: int|
                        0 <= j < i ==> old(store)@.contains_key(
                            #[trigger] models(items@)[j].object_hash,
                        ));
                }
                return Err(
                    GitError::DanglingReference {
                        permissions: f.permissions.clone(),
                        object_hash: f.object_hash.clone(),
                        filename: f.filename.clone(),
                    },
                );
            }
        }
        let ghost base = content@;
        content.push(49u8);
        content.push(48u8);
        content.push(48u8);
        let perm_str = f.permissions.as_str();
        let perm_bytes = perm_str.as_bytes();
        proof {
            assert(vstd::utf8::is_ascii_chars(perm_str@));
            vstd::string::is_ascii_spec_bytes(perm_str);
            assert(perm_bytes@ =~= ascii_bytes(f@.permissions));
        }
        push_bytes(&mut content, perm_bytes);
        content.push(32u8);
        let name_str = f.filename.as_str();
        let name_bytes = name_str.as_bytes();
        proof {
            vstd::string::is_ascii_spec_bytes(name_str);
            assert(name_bytes@ =~= ascii_bytes(f@.filename));
        }
        push_bytes(&mut content, name_bytes);
        content.push(0u8);
        let hash_bytes = hash_to_vec(f.object_hash.as_str());
        push_bytes(&mut content, hash_bytes.as_slice());
        proof {
            assert(content@ =~= base + spec_tree_record(f@));
            let pre = models(items@).subrange(0, i as int);
            lemma_tree_content_snoc(pre, items@[i as int]@);
            assert(pre.push(items@[i as int]@) =~= models(items@).subrange(0, i + 1));
        }
        i += 1;
    }
    proof {
        assert(models(items@).subrange(0, count as int) =~= models(items@));
    }
    let hash = store.put(Object::Tree, &content);
    Ok(hash)
}

/// Parses a serialized staging table and commits its tree object through
/// the object store, returning the hash of the resulting tree.
#[verifier::rlimit(100)]
#[verifier::spinoff_prover]
pub fn write_index_to_tree(store: &mut ObjectStore, index_bytes: &[u8], missing_ok: bool) -> (r:
    Result<String, GitError>)
    requires
        old(store).wf(),
    ensures
        final(store).wf(),
        match spec_parse_index(index_bytes@) {
            Err(pe) => final(store)@ == old(store)@ && (r matches Err(e) && e == pe),
            Ok(es) => {
                &&& (r is Ok <==> (missing_ok || all_objects_present(old(store)@, es)))
                &&& (r matches Ok(h) ==> {
                    &&& h@ == spec_put_hash(Object::Tree, spec_tree_content(es))
                    &&& store_after_write(
                        old(store)@,
                        final(store)@,
                        h@,
                        spec_frame(Object::Tree, spec_tree_content(es)),
                    )
                    &&& final(store)@.contains_key(h@)
                })
                &&& (r matches Err(e) ==> {
                    &&& final(store)@ == old(store)@
                    &&& e matches GitError::DanglingReference {
                        permissions,
                        object_hash,
                        filename,
                    } && dangling_report(old(store)@, es, permissions@, object_hash@, filename@)
                })
            },
        },
{
    let parsed = parse_index(index_bytes);
    match parsed {
        Err(e) => {
            proof {
                assert(spec_parse_index(index_bytes@) == Err::<Seq<IndexEntryModel>, GitError>(e));
            }
            Err(e)
        },
        Ok(hf) => {
            let (_header, items) = hf;
            let r = build_tree(store, &items, missing_ok);
            proof {
                assert(spec_parse_index(index_bytes@) == Ok::<Seq<IndexEntryModel>, GitError>(
                    models(items@),
                ));
            }
            r
        },
    }
}

/// Creates a tree object from a serialized staging table, rendering the
/// outcome as a line of text: the new tree's hash on success, or the
/// failure's message prefixed with `"error: "`.
pub fn write_tree(store: &mut ObjectStore, index_bytes: &[u8], missing_ok: bool) -> (r: String)
    requires
        old(store).wf(),
    ensures
        final(store).wf(),
        match spec_parse_index(index_bytes@) {
            Err(pe) => final(store)@ == old(store)@ && r@ == "error: "@
                + crate::errors::spec_message(pe),
            Ok(es) => {
                &&& ((missing_ok || all_objects_present(old(store)@, es)) ==> {
                    &&& r@ == spec_put_hash(Object::Tree, spec_tree_content(es))
                    &&& store_after_write(
                        old(store)@,
                        final(store)@,
                        r@,
                        spec_frame(Object::Tree, spec_tree_content(es)),
                    )
                })
                &&& (!(missing_ok || all_objects_present(old(store)@, es)) ==> {
                    &&& final(store)@ == old(store)@
                    &&& exists|p: Seq<char>, h: Seq<char>, name: Seq<char>|
                        #[trigger] dangling_report(old(store)@, es, p, h, name) && r@ == "error: "@
                            + ("invalid object "@ + p + " "@ + h + " for "@ + name
                        + "\nfatal: write-tree: error building trees"@)
                })
            },
        },
{
    match write_index_to_tree(store, index_bytes, missing_ok) {
        Ok(h) => h,
        Err(e) => {
            let msg = e.message();
            let mut s = String::from_str("error: ");
            s.append(msg.as_str());
            s
        },
    }
}

} // verus!
