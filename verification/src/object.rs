//! Objects and the store that keeps them under their hash.
//!
//! An object is a kind and a payload. Its raw form is the header
//! `<kind> <length>\0` followed by the payload; its identity is the SHA-1
//! digest of the raw form in lowercase hexadecimal; it is stored as the zlib
//! stream of the raw form.

use vstd::prelude::*;
use crate::bytemap::{lemma_insert_lookup, lookup, spec_insert, ByteMap, Pairs};
use crate::bytes::{
    append, copy_range, find_byte, find_from, is_token, lemma_find_from, lemma_find_from_is,
};
use crate::codec::{sha1_digest, sha1_of, zlib_compress, zlib_decompress, zlib_deflated, zlib_inflated};
use crate::error::FitError;
use crate::render::{decimal, hex, lemma_decimal_digits, spec_decimal, spec_hex};

verus! {

/// The kinds of object that the engine writes.
#[derive(Clone, Copy, Debug, PartialEq, Eq, Structural)]
pub enum ObjectKind {
    Blob,
    Tree,
    Commit,
}

/// `blob`.
pub open spec fn blob_word() -> Seq<u8> {
    seq!['b' as u8, 'l' as u8, 'o' as u8, 'b' as u8]
}

/// `tree`.
pub open spec fn tree_word() -> Seq<u8> {
    seq!['t' as u8, 'r' as u8, 'e' as u8, 'e' as u8]
}

/// `commit`.
pub open spec fn commit_word() -> Seq<u8> {
    seq!['c' as u8, 'o' as u8, 'm' as u8, 'm' as u8, 'i' as u8, 't' as u8]
}

/// The word that stands for `kind` in an object's header.
pub open spec fn kind_name(kind: ObjectKind) -> Seq<u8> {
    match kind {
        ObjectKind::Blob => blob_word(),
        ObjectKind::Tree => tree_word(),
        ObjectKind::Commit => commit_word(),
    }
}

/// The word that stands for `kind` in an object's header.
pub fn name_of(kind: ObjectKind) -> (r: Vec<u8>)
    ensures
        r@ == kind_name(kind),
{
    let r: Vec<u8> = match kind {
        ObjectKind::Blob => vec!['b' as u8, 'l' as u8, 'o' as u8, 'b' as u8],
        ObjectKind::Tree => vec!['t' as u8, 'r' as u8, 'e' as u8, 'e' as u8],
        ObjectKind::Commit => vec!['c' as u8, 'o' as u8, 'm' as u8, 'm' as u8, 'i' as u8, 't' as u8],
    };
    proof {
        assert(r@ =~= kind_name(kind));
    }
    r
}

/// The header of an object of `kind` whose payload has `len` bytes.
pub open spec fn spec_header(kind: ObjectKind, len: nat) -> Seq<u8> {
    kind_name(kind) + seq![32u8] + spec_decimal(len) + seq![0u8]
}

/// The raw form of an object: header, then payload.
pub open spec fn spec_encode(kind: ObjectKind, payload: Seq<u8>) -> Seq<u8> {
    spec_header(kind, payload.len()) + payload
}

/// The identity of the object whose raw form is `raw`.
pub open spec fn spec_object_id(raw: Seq<u8>) -> Seq<u8> {
    spec_hex(sha1_of(raw))
}

/// The identity of the object of `kind` with `payload`.
pub open spec fn spec_hash(kind: ObjectKind, payload: Seq<u8>) -> Seq<u8> {
    spec_object_id(spec_encode(kind, payload))
}

/// Kind word and payload of a raw form: the header ends at the first NUL, the
/// kind word at the header's first space. The length in the header is not
/// read. `None` where `raw` holds no NUL.
pub open spec fn spec_decode(raw: Seq<u8>) -> Option<(Seq<u8>, Seq<u8>)> {
    let z = find_from(raw, 0u8, 0);
    if z >= raw.len() {
        None
    } else {
        let header = raw.subrange(0, z);
        Some((header.subrange(0, find_from(header, 32u8, 0)), raw.subrange(z + 1, raw.len() as int)))
    }
}

/// Decoding a raw form gives back the kind and the payload it was made of.
pub proof fn lemma_decode_encode(kind: ObjectKind, payload: Seq<u8>)
    ensures
        spec_decode(spec_encode(kind, payload)) == Some((kind_name(kind), payload)),
{
    let name = kind_name(kind);
    let digits = spec_decimal(payload.len());
    let raw = spec_encode(kind, payload);
    lemma_decimal_digits(payload.len());
    let z: int = (name.len() + 1 + digits.len()) as int;
    assert(raw[z] == 0u8);
    assert forall|k: int| 0 <= k < z implies raw[k] != 0u8 by {
        if k < name.len() {
            assert(raw[k] == name[k]);
        } else if k == name.len() {
            assert(raw[k] == 32u8);
        } else {
            assert(raw[k] == digits[k - name.len() - 1]);
        }
    }
    lemma_find_from_is(raw, 0u8, 0, z);
    let header = raw.subrange(0, z);
    assert(header[name.len() as int] == 32u8);
    assert forall|k: int| 0 <= k < name.len() implies header[k] != 32u8 by {
        assert(header[k] == name[k]);
    }
    lemma_find_from_is(header, 32u8, 0, name.len() as int);
    assert(header.subrange(0, name.len() as int) =~= name);
    assert(raw.subrange(z + 1, raw.len() as int) =~= payload);
}

/// The raw form of the object of `kind` with payload `content`.
pub fn encode_object(content: &[u8], kind: ObjectKind) -> (r: Vec<u8>)
    ensures
        r@ == spec_encode(kind, content@),
{
    let mut r = name_of(kind);
    r.push(32u8);
    let digits = decimal(content.len());
    append(&mut r, digits.as_slice());
    r.push(0u8);
    append(&mut r, content);
    proof {
        assert(r@ =~= spec_encode(kind, content@));
    }
    r
}

/// The identity of the object whose raw form is `raw`: 40 hexadecimal digits.
pub fn object_id(raw: &[u8]) -> (r: Vec<u8>)
    ensures
        r@ == spec_object_id(raw@),
        r@.len() == 40,
        is_token(r@),
{
    let digest = sha1_digest(raw);
    proof {
        crate::render::lemma_hex_clean(digest@);
    }
    hex(digest.as_slice())
}

/// Where the file of the object under `hash` lies below the directory of
/// the objects: in the directory named by the first two bytes of the hash,
/// under the rest of the hash. `None` for a hash of fewer than two bytes,
/// which names no file.
pub open spec fn spec_object_path(hash: Seq<u8>) -> Option<(Seq<u8>, Seq<u8>)> {
    if hash.len() < 2 {
        None
    } else {
        Some((hash.subrange(0, 2), hash.subrange(2, hash.len() as int)))
    }
}

/// The directory and the file name of the object under `hash`.
pub fn object_path(hash: &[u8]) -> (r: Option<(Vec<u8>, Vec<u8>)>)
    ensures
        object_view(r) == spec_object_path(hash@),
{
    if hash.len() < 2 {
        None
    } else {
        Some((copy_range(hash, 0, 2), copy_range(hash, 2, hash.len())))
    }
}

/// Splits a raw form into kind word and payload.
pub fn decode_object(raw: &[u8]) -> (r: Option<(Vec<u8>, Vec<u8>)>)
    ensures
        object_view(r) == spec_decode(raw@),
{
    let z = find_byte(raw, 0u8, 0);
    if z >= raw.len() {
        return None;
    }
    let header = copy_range(raw, 0, z);
    let e = find_byte(header.as_slice(), 32u8, 0);
    let name = copy_range(header.as_slice(), 0, e);
    let payload = copy_range(raw, z + 1, raw.len());
    Some((name, payload))
}

/// What an object read from the store holds: kind word and payload.
pub open spec fn object_view(o: Option<(Vec<u8>, Vec<u8>)>) -> Option<(Seq<u8>, Seq<u8>)> {
    match o {
        Some((name, payload)) => Some((name@, payload@)),
        None => None,
    }
}

/// The compression of the object of `kind` with `payload` succeeds.
pub open spec fn deflates(kind: ObjectKind, payload: Seq<u8>) -> bool {
    zlib_deflated(spec_encode(kind, payload)) is Some
}

/// The stored form of the object of `kind` with `payload`.
pub open spec fn stored_form(kind: ObjectKind, payload: Seq<u8>) -> Seq<u8> {
    zlib_deflated(spec_encode(kind, payload))->Some_0
}

/// The store once the object of `kind` with `payload` is written to it.
pub open spec fn spec_put(objects: Pairs, kind: ObjectKind, payload: Seq<u8>) -> Pairs {
    spec_insert(objects, spec_hash(kind, payload), stored_form(kind, payload))
}

/// What reading `hash` from the store gives: nothing where the store holds no
/// such object, `Io` where what it holds is no zlib stream, `InvalidData`
/// where the stream holds no header.
pub open spec fn spec_get(objects: Pairs, hash: Seq<u8>) -> Result<
    Option<(Seq<u8>, Seq<u8>)>,
    FitError,
> {
    match lookup(objects, hash) {
        None => Ok(None),
        Some(stored) => match zlib_inflated(stored) {
            None => Err(FitError::Io),
            Some(raw) => match spec_decode(raw) {
                None => Err(FitError::InvalidData),
                Some(o) => Ok(Some(o)),
            },
        },
    }
}

/// Writing the same object twice leaves the store as the first write left it.
pub proof fn lemma_put_idempotent(objects: Pairs, kind: ObjectKind, payload: Seq<u8>)
    ensures
        spec_put(spec_put(objects, kind, payload), kind, payload) == spec_put(
            objects,
            kind,
            payload,
        ),
{
    let h = spec_hash(kind, payload);
    let z = stored_form(kind, payload);
    let once = spec_put(objects, kind, payload);
    lemma_insert_lookup(objects, h, z, h);
    crate::bytemap::lemma_position(once, h);
    assert(spec_put(once, kind, payload) =~= once);
}

/// Stored objects stay as they are: a write removes no object, changes
/// nothing under any other hash, and changes nothing at all where the store
/// already holds the object in its stored form.
pub proof fn lemma_put_keeps_others(
    objects: Pairs,
    kind: ObjectKind,
    payload: Seq<u8>,
    other: Seq<u8>,
)
    ensures
        lookup(objects, other) is Some ==> lookup(spec_put(objects, kind, payload), other)
            is Some,
        other != spec_hash(kind, payload) ==> lookup(spec_put(objects, kind, payload), other)
            == lookup(objects, other),
        lookup(objects, spec_hash(kind, payload)) == Some(stored_form(kind, payload))
            ==> spec_put(objects, kind, payload) == objects,
{
    let h = spec_hash(kind, payload);
    let z = stored_form(kind, payload);
    lemma_insert_lookup(objects, h, z, other);
    crate::bytemap::lemma_position(objects, h);
    if lookup(objects, h) == Some(z) {
        assert(spec_put(objects, kind, payload) =~= objects);
    }
}

/// Files the outcome of a compression under `id`: the stored form on
/// success, nothing and `Io` on failure.
pub fn store_object(
    objects: &mut ByteMap,
    id: Vec<u8>,
    compressed: Result<Vec<u8>, std::io::Error>,
) -> (r: Result<Vec<u8>, FitError>)
    ensures
        match compressed {
            Ok(z) => final(objects)@ == spec_insert(old(objects)@, id@, z@) && (r matches Ok(h)
                && h@ == id@),
            Err(_) => final(objects)@ == old(objects)@ && r == Err::<Vec<u8>, FitError>(
                FitError::Io,
            ),
        },
        old(objects).wf() ==> final(objects).wf(),
{
    match compressed {
        Ok(z) => {
            let key = copy_range(id.as_slice(), 0, id.len());
            proof {
                assert(key@ =~= id@);
            }
            objects.insert(key, z);
            Ok(id)
        },
        Err(_) => Err(FitError::Io),
    }
}

/// Writes the object of `kind` with payload `content` and returns its hash.
///
/// Where the compression succeeds the store holds the object under the hash,
/// in place of whatever was there, and reading the hash gives the object
/// back. Where it fails the result is `Io`, and the store is unchanged.
pub fn write_object(objects: &mut ByteMap, content: &[u8], kind: ObjectKind) -> (r: Result<
    Vec<u8>,
    FitError,
>)
    ensures
        match r {
            Ok(h) => {
                &&& deflates(kind, content@)
                &&& h@ == spec_hash(kind, content@)
                &&& h@.len() == 40
                &&& is_token(h@)
                &&& final(objects)@ == spec_put(old(objects)@, kind, content@)
                &&& spec_get(final(objects)@, h@) == Ok::<Option<(Seq<u8>, Seq<u8>)>, FitError>(
                    Some((kind_name(kind), content@)),
                )
            },
            Err(e) => e == FitError::Io && !deflates(kind, content@) && final(objects)@ == old(objects)@,
        },
        old(objects).wf() ==> final(objects).wf(),
{
    let raw = encode_object(content, kind);
    let id = object_id(raw.as_slice());
    let compressed = zlib_compress(raw.as_slice());
    proof {
        lemma_decode_encode(kind, content@);
        if compressed is Ok {
            lemma_insert_lookup(objects@, id@, compressed->Ok_0@, id@);
        }
    }
    store_object(objects, id, compressed)
}

/// Says what the outcome of a decompression holds: the object on success,
/// `InvalidData` where the stream holds no header, `Io` on failure.
pub fn open_object(inflated: Result<Vec<u8>, std::io::Error>) -> (r: Result<
    (Vec<u8>, Vec<u8>),
    FitError,
>)
    ensures
        match inflated {
            Ok(raw) => match spec_decode(raw@) {
                Some(o) => r matches Ok(p) && (p.0@, p.1@) == o,
                None => r == Err::<(Vec<u8>, Vec<u8>), FitError>(FitError::InvalidData),
            },
            Err(_) => r == Err::<(Vec<u8>, Vec<u8>), FitError>(FitError::Io),
        },
{
    match inflated {
        Ok(raw) => match decode_object(raw.as_slice()) {
            Some(o) => Ok(o),
            None => Err(FitError::InvalidData),
        },
        Err(_) => Err(FitError::Io),
    }
}

/// The view of a result of [`read_object`].
pub open spec fn read_view(r: Result<Option<(Vec<u8>, Vec<u8>)>, FitError>) -> Result<
    Option<(Seq<u8>, Seq<u8>)>,
    FitError,
> {
    match r {
        Ok(o) => Ok(object_view(o)),
        Err(e) => Err(e),
    }
}

/// Reads the object stored under `hash`: its kind word and its payload.
pub fn read_object(objects: &ByteMap, hash: &[u8]) -> (r: Result<
    Option<(Vec<u8>, Vec<u8>)>,
    FitError,
>)
    ensures
        read_view(r) == spec_get(objects@, hash@),
{
    match objects.get(hash) {
        None => Ok(None),
        Some(stored) => {
            let inflated = zlib_decompress(stored.as_slice());
            match open_object(inflated) {
                Ok(o) => Ok(Some(o)),
                Err(e) => Err(e),
            }
        },
    }
}

} // verus!
