//! Tree objects: a snapshot of the index as one row for each tracked path.

use vstd::prelude::*;
use crate::bytemap::{ByteMap, Pairs};
use crate::bytes::append;
use crate::error::FitError;
use crate::index::{parse_rows, rows_of};
use crate::object::{
    deflates, kind_name, read_object, read_view, spec_get, spec_hash, spec_put, write_object,
    ObjectKind,
};
use crate::text::spec_lines;

verus! {

/// What every row of a tree begins with: the file mode, the kind and a space.
pub open spec fn row_prefix() -> Seq<u8> {
    seq![
        '1' as u8,
        '0' as u8,
        '0' as u8,
        '6' as u8,
        '4' as u8,
        '4' as u8,
        32u8,
        'b' as u8,
        'l' as u8,
        'o' as u8,
        'b' as u8,
        32u8,
    ]
}

/// The row of `path` at blob `hash`: `100644 blob <hash> <path>` and a line
/// feed.
pub open spec fn tree_row(path: Seq<u8>, hash: Seq<u8>) -> Seq<u8> {
    row_prefix() + hash + seq![32u8] + path + seq![10u8]
}

/// The payload of the tree for `m`: one row for each entry, in order.
pub open spec fn tree_text(m: Pairs) -> Seq<u8>
    decreases m.len(),
{
    if m.len() == 0 {
        Seq::empty()
    } else {
        tree_text(m.drop_last()) + tree_row(m.last().0, m.last().1)
    }
}

fn push_row_prefix(out: &mut Vec<u8>)
    ensures
        final(out)@ == old(out)@ + row_prefix(),
{
    out.push('1' as u8);
    out.push('0' as u8);
    out.push('0' as u8);
    out.push('6' as u8);
    out.push('4' as u8);
    out.push('4' as u8);
    out.push(32u8);
    out.push('b' as u8);
    out.push('l' as u8);
    out.push('o' as u8);
    out.push('b' as u8);
    out.push(32u8);
    proof {
        assert(out@ =~= old(out)@ + row_prefix());
    }
}

/// The payload of the tree for `index`.
pub fn render_tree(index: &ByteMap) -> (r: Vec<u8>)
    ensures
        r@ == tree_text(index@),
{
    let mut out: Vec<u8> = Vec::new();
    let mut i: usize = 0;
    proof {
        assert(index@.subrange(0, 0) =~= Pairs::empty());
    }
    while i < index.len()
        invariant
            i <= index@.len(),
            out@ == tree_text(index@.subrange(0, i as int)),
        decreases index@.len() - i,
    {
        let ghost before = out@;
        push_row_prefix(&mut out);
        append(&mut out, index.value_at(i).as_slice());
        out.push(32u8);
        append(&mut out, index.key_at(i).as_slice());
        out.push(10u8);
        proof {
            let p = index@.subrange(0, i + 1);
            assert(p.drop_last() =~= index@.subrange(0, i as int));
            assert(p.last() == index@[i as int]);
            assert(out@ =~= before + tree_row(index@[i as int].0, index@[i as int].1));
        }
        i += 1;
    }
    proof {
        assert(index@.subrange(0, i as int) =~= index@);
    }
    out
}

/// Writes the tree for the empty index and returns its hash.
pub fn create_empty_tree(objects: &mut ByteMap) -> (r: Result<Vec<u8>, FitError>)
    ensures
        match r {
            Ok(h) => deflates(ObjectKind::Tree, Seq::empty()) && h@ == spec_hash(
                ObjectKind::Tree,
                Seq::empty(),
            ) && final(objects)@ == spec_put(old(objects)@, ObjectKind::Tree, Seq::empty()),
            Err(e) => e == FitError::Io && !deflates(ObjectKind::Tree, Seq::empty()) && final(objects)@ == old(objects)@,
        },
        old(objects).wf() ==> final(objects).wf(),
{
    let none: Vec<u8> = Vec::new();
    proof {
        assert(none@ =~= Seq::<u8>::empty());
    }
    write_object(objects, none.as_slice(), ObjectKind::Tree)
}

/// Writes the tree for `index` and returns its hash.
pub fn create_tree_object(objects: &mut ByteMap, index: &ByteMap) -> (r: Result<
    Vec<u8>,
    FitError,
>)
    ensures
        match r {
            Ok(h) => {
                &&& deflates(ObjectKind::Tree, tree_text(index@))
                &&& h@ == spec_hash(ObjectKind::Tree, tree_text(index@))
                &&& final(objects)@ == spec_put(
                    old(objects)@,
                    ObjectKind::Tree,
                    tree_text(index@),
                )
                &&& spec_get(final(objects)@, h@) == Ok::<Option<(Seq<u8>, Seq<u8>)>, FitError>(
                    Some((kind_name(ObjectKind::Tree), tree_text(index@))),
                )
            },
            Err(e) => e == FitError::Io && !deflates(ObjectKind::Tree, tree_text(index@))
                && final(objects)@ == old(objects)@,
        },
        old(objects).wf() ==> final(objects).wf(),
{
    let text = render_tree(index);
    write_object(objects, text.as_slice(), ObjectKind::Tree)
}

/// The payload of the object under `hash`; `NotFound` where there is none.
pub open spec fn spec_payload(objects: Pairs, hash: Seq<u8>) -> Result<Seq<u8>, FitError> {
    match spec_get(objects, hash) {
        Err(e) => Err(e),
        Ok(None) => Err(FitError::NotFound),
        Ok(Some(o)) => Ok(o.1),
    }
}

/// The view of a byte string or an error.
pub open spec fn bytes_view(r: Result<Vec<u8>, FitError>) -> Result<Seq<u8>, FitError> {
    match r {
        Ok(b) => Ok(b@),
        Err(e) => Err(e),
    }
}

/// Reads the payload of the object under `hash`.
pub fn read_payload(objects: &ByteMap, hash: &[u8]) -> (r: Result<Vec<u8>, FitError>)
    ensures
        bytes_view(r) == spec_payload(objects@, hash@),
{
    match read_object(objects, hash) {
        Err(e) => Err(e),
        Ok(None) => Err(FitError::NotFound),
        Ok(Some(o)) => Ok(o.1),
    }
}

/// The rows of a tree payload as a map from path to blob hash; `None` where
/// a row has fewer than four fields.
pub open spec fn tree_rows(payload: Seq<u8>) -> Option<Pairs> {
    rows_of(spec_lines(payload), 2, 3)
}

/// The files of the tree under `tree_hash`: `NotFound` where the store holds
/// no such object, `InvalidData` where a row has fewer than four fields.
pub open spec fn spec_tree_files(objects: Pairs, tree_hash: Seq<u8>) -> Result<Pairs, FitError> {
    match spec_payload(objects, tree_hash) {
        Err(e) => Err(e),
        Ok(payload) => match tree_rows(payload) {
            None => Err(FitError::InvalidData),
            Some(m) => Ok(m),
        },
    }
}

/// Reads the tree under `tree_hash` as a map from path to blob hash.
pub fn get_tree_files(objects: &ByteMap, tree_hash: &[u8]) -> (r: Result<ByteMap, FitError>)
    ensures
        crate::index::result_view(r) == spec_tree_files(objects@, tree_hash@),
        r matches Ok(m) ==> m.wf(),
{
    match read_payload(objects, tree_hash) {
        Err(e) => Err(e),
        Ok(payload) => match parse_rows(payload.as_slice(), 2, 3) {
            None => Err(FitError::InvalidData),
            Some(m) => Ok(m),
        },
    }
}

} // verus!
