//! The object store: compressed objects, each under the hash of its bytes.

use crate::codec::compress_object;
use crate::codec::decompress_object;
use crate::codec::encode_object;
use crate::codec::hash_bytes;
use crate::codec::lemma_hex_injective;
use crate::codec::lemma_payload_of_object;
use crate::codec::object_bytes;
use crate::codec::object_id;
use crate::codec::object_payload;
use crate::codec::payload_of;
use crate::codec::sha1_digest;
use crate::codec::zlib_compressed;
use crate::codec::zlib_decompressed;
use crate::error::result_view;
use crate::error::Error;
use crate::table::ByteMap;
use crate::text::ascii;
use crate::text::copy_range;
use crate::text::is_word;
use crate::text::literal;
use crate::text::NUL;
use vstd::prelude::*;
use vstd::slice::slice_to_vec;
use vstd::utf8::encode_utf8;

verus! {

/// Where a repository lies: under the working directory, or at a path given.
#[derive(Debug)]
pub enum RepoPath {
    Local,
    Remote(String),
}

impl RepoPath {
    /// The directory that holds the repository's files.
    pub open spec fn root(self) -> Seq<u8> {
        match self {
            RepoPath::Local => ascii(".rgit"@),
            RepoPath::Remote(path) => encode_utf8(path@),
        }
    }
}

/// The file of the object `hash` in the repository under `root`: the first
/// two bytes of the hash name a directory under `objects`, the rest names the
/// file in it.
pub open spec fn object_path(root: Seq<u8>, hash: Seq<u8>) -> Seq<u8> {
    root + ascii("/objects/"@) + hash.take(2) + ascii("/"@) + hash.skip(2)
}

/// The directory that holds the files of the repository at `repo_path`.
pub fn repo_root(repo_path: &RepoPath) -> (path: Vec<u8>)
    ensures
        path@ == repo_path.root(),
{
    proof {
        reveal_strlit(".rgit");
    }
    match repo_path {
        RepoPath::Local => slice_to_vec(literal(".rgit")),
        RepoPath::Remote(remote) => slice_to_vec(remote.as_str().as_bytes()),
    }
}

/// The file `name` of the repository under `root`: `index`, `HEAD`, or a
/// reference by its name.
pub open spec fn file_path(root: Seq<u8>, name: Seq<u8>) -> Seq<u8> {
    root + ascii("/"@) + name
}

/// The path of the file `name` of the repository at `repo_path`.
pub fn repo_file(repo_path: &RepoPath, name: &[u8]) -> (path: Vec<u8>)
    ensures
        path@ == file_path(repo_path.root(), name@),
{
    proof {
        reveal_strlit("/");
    }
    let mut path = repo_root(repo_path);
    path.extend_from_slice(literal("/"));
    path.extend_from_slice(name);
    path
}

/// The path of the file that holds the object `hash` in the repository at
/// `repo_path`. The hash has the two bytes at least that name the directory.
pub fn create_object_path(repo_path: &RepoPath, hash: &[u8]) -> (path: Vec<u8>)
    requires
        hash@.len() >= 2,
    ensures
        path@ == object_path(repo_path.root(), hash@),
{
    proof {
        reveal_strlit("/objects/");
        reveal_strlit("/");
    }
    let mut path = repo_root(repo_path);
    path.extend_from_slice(literal("/objects/"));
    path.extend_from_slice(copy_range(hash, 0, 2).as_slice());
    path.extend_from_slice(literal("/"));
    path.extend_from_slice(copy_range(hash, 2, hash.len()).as_slice());
    assert(path@ =~= object_path(repo_path.root(), hash@));
    path
}

/// What storing an object does: the outcome, and the store afterwards. The
/// object goes under its hash, in place of whatever was stored there; where
/// the compressor fails nothing is stored.
pub open spec fn store_object(store: Map<Seq<u8>, Seq<u8>>, kind: Seq<u8>, payload: Seq<u8>) -> (
    Result<Seq<u8>, Error>,
    Map<Seq<u8>, Seq<u8>>,
) {
    match zlib_compressed(object_bytes(kind, payload)) {
        Some(stream) => (
            Ok(object_id(kind, payload)),
            store.insert(object_id(kind, payload), stream),
        ),
        None => (Err(Error::CompressionFailed), store),
    }
}

/// Stores an object of the given kind and payload, and returns its hash.
///
/// The hash depends on the kind and the payload alone. What is stored
/// decompresses to the header and the payload again, so that an object of a
/// kind without a NUL byte is read back as it was written.
pub fn hash_and_store(store: &mut ByteMap, object_type: &[u8], content: &[u8]) -> (r: Result<
    Vec<u8>,
    Error,
>)
    ensures
        (result_view(r), final(store)@) == store_object(old(store)@, object_type@, content@),
        r matches Ok(hash) ==> zlib_decompressed(final(store)@[hash@]) == Some(
            object_bytes(object_type@, content@),
        ),
        r matches Ok(hash) ==> !object_type@.contains(NUL) ==> read_object(final(store)@, hash@)
            == Ok::<Seq<u8>, Error>(content@),
        r matches Ok(hash) ==> hash@.len() == 40 && is_word(hash@),
{
    let raw = encode_object(object_type, content);
    let hash = hash_bytes(raw.as_slice());
    let stream = compress_object(raw.as_slice())?;
    proof {
        if !object_type@.contains(NUL) {
            lemma_payload_of_object(object_type@, content@);
        }
    }
    store.insert(hash.clone(), stream);
    Ok(hash)
}

/// Storing an object a second time changes nothing: the hash is the same,
/// and so is the store.
pub proof fn lemma_store_again(store: Map<Seq<u8>, Seq<u8>>, kind: Seq<u8>, payload: Seq<u8>)
    ensures
        store_object(store_object(store, kind, payload).1, kind, payload) == store_object(
            store,
            kind,
            payload,
        ),
{
    let once = store_object(store, kind, payload);
    let twice = store_object(once.1, kind, payload);
    assert(twice.1 =~= once.1);
}

/// Two objects of one kind under one hash have payloads whose bytes have
/// the same digest: the payloads are the same, or SHA-1 does not tell their
/// bytes apart.
pub proof fn lemma_same_hash(kind: Seq<u8>, first: Seq<u8>, second: Seq<u8>)
    requires
        !kind.contains(NUL),
        object_id(kind, first) == object_id(kind, second),
    ensures
        sha1_digest(object_bytes(kind, first)) == sha1_digest(object_bytes(kind, second)),
        first != second ==> object_bytes(kind, first) != object_bytes(kind, second),
{
    lemma_hex_injective(
        sha1_digest(object_bytes(kind, first)),
        sha1_digest(object_bytes(kind, second)),
    );
    lemma_payload_of_object(kind, first);
    lemma_payload_of_object(kind, second);
}

/// Stores the contents of a file as a blob, and returns its hash.
pub fn hash_object(store: &mut ByteMap, contents: &[u8]) -> (r: Result<Vec<u8>, Error>)
    ensures
        (result_view(r), final(store)@) == store_object(old(store)@, ascii("blob"@), contents@),
        r matches Ok(hash) ==> read_object(final(store)@, hash@) == Ok::<Seq<u8>, Error>(
            contents@,
        ),
        r matches Ok(hash) ==> hash@.len() == 40 && is_word(hash@),
{
    proof {
        reveal_strlit("blob");
    }
    let kind = literal("blob");
    assert(!kind@.contains(NUL));
    hash_and_store(store, kind, contents)
}

/// What reading the object `hash` gives: the payload behind the header of the
/// decompressed bytes.
pub open spec fn read_object(store: Map<Seq<u8>, Seq<u8>>, hash: Seq<u8>) -> Result<
    Seq<u8>,
    Error,
> {
    if !store.contains_key(hash) {
        Err(Error::ObjectNotFound)
    } else {
        match zlib_decompressed(store[hash]) {
            None => Err(Error::MalformedObject),
            Some(raw) => match payload_of(raw) {
                None => Err(Error::MalformedObject),
                Some(payload) => Ok(payload),
            },
        }
    }
}

/// The payload of the object stored under `hash`.
pub fn cat_file(store: &ByteMap, hash: &[u8]) -> (r: Result<Vec<u8>, Error>)
    ensures
        result_view(r) == read_object(store@, hash@),
{
    match store.get(hash) {
        None => Err(Error::ObjectNotFound),
        Some(stream) => {
            let raw = decompress_object(stream.as_slice())?;
            match object_payload(raw.as_slice()) {
                None => Err(Error::MalformedObject),
                Some(payload) => Ok(payload),
            }
        },
    }
}

} // verus!
