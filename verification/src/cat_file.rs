//! Reading back a stored object's properties: its contents, its kind, or
//! its declared size, selected by a flag.

use crate::byteops::{copy_range, find_byte, spec_find_byte, str_equal, string_from_utf8};
use crate::errors::GitError;
use crate::ls_tree::{format_tree, spec_format_tree};
use crate::object_util::{
    decode_object, get_header_size, get_header_type, inflate_of, spec_header_of, spec_header_size,
    spec_header_type, spec_kind_chars, Object,
};
use crate::store::{ObjectStore, StoreMap};
use vstd::prelude::*;
use vstd::string::StringExecFns;
use vstd::utf8::{decode_utf8, valid_utf8};

verus! {

broadcast use vstd::string::group_string_axioms;

/// Which property of an object to return.
#[derive(Debug, Clone, Copy, PartialEq, Eq, Structural)]
pub enum CatFlags {
    /// The object's contents, pretty-printed for a tree.
    Print,
    /// The object's kind name.
    Type,
    /// The object's declared content size.
    Size,
}

/// The text of a blob's contents: the bytes between the header's NUL and
/// the next NUL (or the end), read as UTF-8. A buffer with no NUL at all
/// has no contents to show; bytes that are not valid UTF-8 cannot be
/// shown as text.
pub open spec fn spec_blob_text(d: Seq<u8>) -> Result<Seq<char>, GitError> {
    match spec_find_byte(d, 0, 0) {
        None => Err(GitError::InvalidHeader),
        Some(z) => {
            let text_end = match spec_find_byte(d, z + 1, 0) {
                Some(z2) => z2,
                None => d.len() as int,
            };
            let content = d.subrange(z + 1, text_end);
            if valid_utf8(content) {
                Ok(decode_utf8(content))
            } else {
                Err(GitError::CorruptObject)
            }
        },
    }
}

/// What `cat_file` returns for each flag: the object is read from the
/// store, decompressed, and classified by its header; then `Print` shows
/// a tree's listing or a blob's text, `Type` the kind name, and `Size`
/// the header's size text, the latter two each with a trailing newline.
pub open spec fn spec_cat_file(m: StoreMap, flag: CatFlags, h: Seq<char>) -> Result<
    Seq<char>,
    GitError,
> {
    if !m.contains_key(h) {
        Err(GitError::ObjectNotFound)
    } else {
        match inflate_of(m[h]) {
            None => Err(GitError::CorruptObject),
            Some(d) => {
                match spec_header_type(spec_header_of(d)) {
                    Err(e) => Err(e),
                    Ok(kind) => match flag {
                        CatFlags::Print => {
                            if kind == Object::Tree {
                                spec_format_tree(m, d)
                            } else {
                                spec_blob_text(d)
                            }
                        },
                        CatFlags::Type => Ok(spec_kind_chars(kind) + seq!['\n']),
                        CatFlags::Size => match spec_header_size(spec_header_of(d)) {
                            Err(e) => Err(e),
                            Ok(sz) => Ok(sz + seq!['\n']),
                        },
                    },
                }
            },
        }
    }
}

/// Returns a property of the object stored under the given hash.
///
/// * `Print` returns a tree's formatted listing, or a blob's (or
///   commit's) text contents.
/// * `Type` returns the object's kind name and a newline.
/// * `Size` returns the header's declared size text and a newline.
pub fn cat_file(store: &ObjectStore, flag: CatFlags, object_hash: &str) -> (r: Result<
    String,
    GitError,
>)
    requires
        store.wf(),
    ensures
        match r {
            Ok(s) => spec_cat_file(store@, flag, object_hash@) == Ok::<Seq<char>, GitError>(s@),
            Err(e) => spec_cat_file(store@, flag, object_hash@) == Err::<Seq<char>, GitError>(e),
        },
{
    let compressed = match store.read_object_file(object_hash) {
        Ok(c) => c,
        Err(e) => {
            return Err(GitError::ObjectNotFound);
        },
    };
    let d = match decode_object(&compressed) {
        Ok(d) => d,
        Err(e) => {
            return Err(GitError::CorruptObject);
        },
    };
    let z_opt = find_byte(d.as_slice(), 0, 0);
    let h_end: usize = match z_opt {
        Some(z) => z,
        None => d.len(),
    };
    proof {
        if spec_find_byte(d@, 0, 0) is None {
            assert(d@.subrange(0, d@.len() as int) =~= d@);
        }
    }
    let header = copy_range(d.as_slice(), 0, h_end);
    let kind = match get_header_type(header.as_slice()) {
        Ok(k) => k,
        Err(e) => {
            return Err(e);
        },
    };
    match flag {
        CatFlags::Print => {
            if matches!(kind, Object::Tree) {
                format_tree(store, d.as_slice())
            } else {
                let z: usize = match z_opt {
                    Some(z) => z,
                    None => {
                        return Err(GitError::InvalidHeader);
                    },
                };
                let text_end: usize = match find_byte(d.as_slice(), z + 1, 0) {
                    Some(z2) => z2,
                    None => d.len(),
                };
                let content = copy_range(d.as_slice(), z + 1, text_end);
                match string_from_utf8(content) {
                    Some(s) => {
                        proof {
                            vstd::utf8::encode_utf8_decode_utf8(s@);
                        }
                        Ok(s)
                    },
                    None => Err(GitError::CorruptObject),
                }
            }
        },
        CatFlags::Type => {
            let mut s = String::from_str(kind.name_str());
            s.append("\n");
            proof {
                reveal_strlit("\n");
                assert("\n"@ =~= seq!['\n']);
            }
            Ok(s)
        },
        CatFlags::Size => {
            match get_header_size(header.as_slice()) {
                Ok(sz) => {
                    let mut s = sz;
                    s.append("\n");
                    proof {
                        reveal_strlit("\n");
                        assert("\n"@ =~= seq!['\n']);
                    }
                    Ok(s)
                },
                Err(e) => Err(e),
            }
        },
    }
}

/// Which flag a command-line option names.
pub open spec fn spec_parse_flag(f: Seq<char>) -> Option<CatFlags> {
    if f == seq!['-', 'p'] {
        Some(CatFlags::Print)
    } else if f == seq!['-', 't'] {
        Some(CatFlags::Type)
    } else if f == seq!['-', 's'] {
        Some(CatFlags::Size)
    } else {
        None
    }
}

/// Parses the option and object-hash arguments for [`cat_file`]: `-p`,
/// `-t` and `-s` select the property; any other option is reported back
/// as unrecognized.
pub fn parse_args(flag: &str, object_hash: &str) -> (r: Result<(CatFlags, String), String>)
    ensures
        match r {
            Ok(p) => spec_parse_flag(flag@) == Some(p.0) && p.1@ == object_hash@,
            Err(m) => spec_parse_flag(flag@) is None && m@ == flag@
                + " is not recognized as a valid option"@,
        },
{
    proof {
        reveal_strlit("-p");
        reveal_strlit("-t");
        reveal_strlit("-s");
        assert("-p"@ =~= seq!['-', 'p']);
        assert("-t"@ =~= seq!['-', 't']);
        assert("-s"@ =~= seq!['-', 's']);
    }
    if str_equal(flag, "-p") {
        Ok((CatFlags::Print, String::from_str(object_hash)))
    } else if str_equal(flag, "-t") {
        Ok((CatFlags::Type, String::from_str(object_hash)))
    } else if str_equal(flag, "-s") {
        Ok((CatFlags::Size, String::from_str(object_hash)))
    } else {
        let mut m = String::from_str(flag);
        m.append(" is not recognized as a valid option");
        Err(m)
    }
}

} // verus!
