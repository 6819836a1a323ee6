//! Commit objects: a tree, at most one parent, and a message.
//!
//! The payload is the line `tree <hash>`, then for a commit with a parent the
//! line `parent <hash>`, then an empty line, then the message as given.

use vstd::prelude::*;
use crate::bytemap::{ByteMap, Pairs};
use crate::bytes::{append, copy_range, starts_with};
use crate::error::FitError;
use crate::object::{
    deflates, kind_name, spec_get, spec_hash, spec_put, write_object, ObjectKind,
};
use crate::text::{spec_lines, spec_tokens, split_lines, split_tokens, views};
use crate::tree::{bytes_view, read_payload, spec_payload};

verus! {

/// `tree `, which the first line of a commit begins with.
pub open spec fn tree_word_sp() -> Seq<u8> {
    seq!['t' as u8, 'r' as u8, 'e' as u8, 'e' as u8, 32u8]
}

/// `parent `, which the line that names the parent begins with.
pub open spec fn parent_word_sp() -> Seq<u8> {
    seq!['p' as u8, 'a' as u8, 'r' as u8, 'e' as u8, 'n' as u8, 't' as u8, 32u8]
}

/// The message of the commit that `init` writes.
pub open spec fn initial_message() -> Seq<u8> {
    seq![
        'I' as u8,
        'n' as u8,
        'i' as u8,
        't' as u8,
        'i' as u8,
        'a' as u8,
        'l' as u8,
        32u8,
        'c' as u8,
        'o' as u8,
        'm' as u8,
        'm' as u8,
        'i' as u8,
        't' as u8,
    ]
}

/// The message of a stash.
pub open spec fn stash_message() -> Seq<u8> {
    seq!['s' as u8, 't' as u8, 'a' as u8, 's' as u8, 'h' as u8]
}

/// The header lines of a commit.
pub open spec fn commit_info(tree: Seq<u8>, parent: Option<Seq<u8>>) -> Seq<u8> {
    match parent {
        Some(p) => tree_word_sp() + tree + seq![10u8] + parent_word_sp() + p,
        None => tree_word_sp() + tree,
    }
}

/// The payload of a commit.
pub open spec fn commit_text(tree: Seq<u8>, parent: Option<Seq<u8>>, message: Seq<u8>) -> Seq<
    u8,
> {
    commit_info(tree, parent) + seq![10u8, 10u8] + message
}

/// The message of the commit that `init` writes.
pub fn initial_message_bytes() -> (r: Vec<u8>)
    ensures
        r@ == initial_message(),
{
    let r: Vec<u8> = vec![
        'I' as u8,
        'n' as u8,
        'i' as u8,
        't' as u8,
        'i' as u8,
        'a' as u8,
        'l' as u8,
        32u8,
        'c' as u8,
        'o' as u8,
        'm' as u8,
        'm' as u8,
        'i' as u8,
        't' as u8,
    ];
    proof {
        assert(r@ =~= initial_message());
    }
    r
}

/// The message of a stash.
pub fn stash_message_bytes() -> (r: Vec<u8>)
    ensures
        r@ == stash_message(),
{
    let r: Vec<u8> = vec!['s' as u8, 't' as u8, 'a' as u8, 's' as u8, 'h' as u8];
    proof {
        assert(r@ =~= stash_message());
    }
    r
}

fn parent_word_bytes() -> (r: Vec<u8>)
    ensures
        r@ == parent_word_sp(),
{
    let r: Vec<u8> = vec!['p' as u8, 'a' as u8, 'r' as u8, 'e' as u8, 'n' as u8, 't' as u8, 32u8];
    proof {
        assert(r@ =~= parent_word_sp());
    }
    r
}

/// The view of an optional byte string.
pub open spec fn opt_view(o: Option<&[u8]>) -> Option<Seq<u8>> {
    match o {
        Some(b) => Some(b@),
        None => None,
    }
}

/// The payload of a commit of `tree` with `parent` and `message`.
pub fn render_commit(tree: &[u8], parent: Option<&[u8]>, message: &[u8]) -> (r: Vec<u8>)
    ensures
        r@ == commit_text(tree@, opt_view(parent), message@),
{
    let mut out: Vec<u8> = vec!['t' as u8, 'r' as u8, 'e' as u8, 'e' as u8, 32u8];
    proof {
        assert(out@ =~= tree_word_sp());
    }
    append(&mut out, tree);
    match parent {
        Some(p) => {
            out.push(10u8);
            let w = parent_word_bytes();
            append(&mut out, w.as_slice());
            append(&mut out, p);
        },
        None => {},
    }
    out.push(10u8);
    out.push(10u8);
    append(&mut out, message);
    proof {
        assert(out@ =~= commit_text(tree@, opt_view(parent), message@));
    }
    out
}

/// Writes the commit of `tree` with `parent` and `message` and returns its
/// hash.
pub fn create_commit(
    objects: &mut ByteMap,
    tree: &[u8],
    parent: Option<&[u8]>,
    message: &[u8],
) -> (r: Result<Vec<u8>, FitError>)
    ensures
        match r {
            Ok(h) => {
                &&& deflates(ObjectKind::Commit, commit_text(tree@, opt_view(parent), message@))
                &&& h@ == spec_hash(
                    ObjectKind::Commit,
                    commit_text(tree@, opt_view(parent), message@),
                )
                &&& crate::bytes::is_token(h@)
                &&& final(objects)@ == spec_put(
                    old(objects)@,
                    ObjectKind::Commit,
                    commit_text(tree@, opt_view(parent), message@),
                )
                &&& spec_get(final(objects)@, h@) == Ok::<Option<(Seq<u8>, Seq<u8>)>, FitError>(
                    Some(
                        (
                            kind_name(ObjectKind::Commit),
                            commit_text(tree@, opt_view(parent), message@),
                        ),
                    ),
                )
            },
            Err(e) => e == FitError::Io && !deflates(
                ObjectKind::Commit,
                commit_text(tree@, opt_view(parent), message@),
            ) && final(objects)@ == old(objects)@,
        },
        old(objects).wf() ==> final(objects).wf(),
{
    let text = render_commit(tree, parent, message);
    write_object(objects, text.as_slice(), ObjectKind::Commit)
}

/// Writes the first commit of a repository: `tree_hash`, no parent, the
/// message `Initial commit`.
pub fn create_initial_commit(objects: &mut ByteMap, tree_hash: &[u8]) -> (r: Result<
    Vec<u8>,
    FitError,
>)
    ensures
        match r {
            Ok(h) => {
                &&& deflates(ObjectKind::Commit, commit_text(tree_hash@, None, initial_message()))
                &&& h@ == spec_hash(
                    ObjectKind::Commit,
                    commit_text(tree_hash@, None, initial_message()),
                )
                &&& final(objects)@ == spec_put(
                    old(objects)@,
                    ObjectKind::Commit,
                    commit_text(tree_hash@, None, initial_message()),
                )
                &&& crate::bytes::is_token(h@)
                &&& spec_get(final(objects)@, h@) == Ok::<Option<(Seq<u8>, Seq<u8>)>, FitError>(
                    Some(
                        (
                            kind_name(ObjectKind::Commit),
                            commit_text(tree_hash@, None, initial_message()),
                        ),
                    ),
                )
            },
            Err(e) => e == FitError::Io && !deflates(
                ObjectKind::Commit,
                commit_text(tree_hash@, None, initial_message()),
            ) && final(objects)@ == old(objects)@,
        },
        old(objects).wf() ==> final(objects).wf(),
{
    let message = initial_message_bytes();
    create_commit(objects, tree_hash, None, message.as_slice())
}

/// The first position at or after `i` where an empty line begins: a line feed
/// followed by a line feed. The length of `s` where there is none.
pub open spec fn blank_from(s: Seq<u8>, i: int) -> int
    decreases s.len() - i,
{
    if i < 0 || i + 1 >= s.len() {
        s.len() as int
    } else if s[i] == 10u8 && s[i + 1] == 10u8 {
        i
    } else {
        blank_from(s, i + 1)
    }
}

/// What `blank_from` promises: a position inside `s`, or the length of `s`.
pub proof fn lemma_blank_from(s: Seq<u8>, i: int)
    requires
        0 <= i,
    ensures
        blank_from(s, i) <= s.len(),
        blank_from(s, i) < s.len() ==> i <= blank_from(s, i) && blank_from(s, i) + 1 < s.len(),
    decreases s.len() - i,
{
    if i + 1 >= s.len() {
    } else if s[i] == 10u8 && s[i + 1] == 10u8 {
    } else {
        lemma_blank_from(s, i + 1);
    }
}

/// Header lines and message of a commit payload: what stands before and
/// after the first empty line. `None` where there is no empty line.
pub open spec fn spec_split_commit(payload: Seq<u8>) -> Option<(Seq<u8>, Seq<u8>)> {
    let b = blank_from(payload, 0);
    if b >= payload.len() {
        None
    } else {
        Some((payload.subrange(0, b), payload.subrange(b + 2, payload.len() as int)))
    }
}

/// Splits a commit payload into header lines and message.
pub fn split_commit(payload: &[u8]) -> (r: Option<(Vec<u8>, Vec<u8>)>)
    ensures
        crate::object::object_view(r) == spec_split_commit(payload@),
{
    let mut i: usize = 0;
    while payload.len() - i >= 2 && !(payload[i] == 10u8 && payload[i + 1] == 10u8)
        invariant
            i <= payload.len(),
            blank_from(payload@, 0) == blank_from(payload@, i as int),
        decreases payload.len() - i,
    {
        i += 1;
    }
    if payload.len() - i < 2 {
        None
    } else {
        Some((copy_range(payload, 0, i), copy_range(payload, i + 2, payload.len())))
    }
}

/// The parent named in `lines` from line `i` on: what follows `parent ` on
/// the first line that begins so, or nothing.
pub open spec fn parent_in(lines: Seq<Seq<u8>>, i: int) -> Seq<u8>
    decreases lines.len() - i,
{
    if i < 0 || i >= lines.len() {
        Seq::empty()
    } else if parent_word_sp().is_prefix_of(lines[i]) {
        lines[i].subrange(7, lines[i].len() as int)
    } else {
        parent_in(lines, i + 1)
    }
}

/// The parent that the header lines `info` name; empty where they name none.
pub open spec fn spec_parent(info: Seq<u8>) -> Seq<u8> {
    parent_in(spec_lines(info), 0)
}

/// The hash of the parent commit named in the header lines `info`, or an
/// empty byte string where they name none.
pub fn get_parent_commit(info: &[u8]) -> (r: Vec<u8>)
    ensures
        r@ == spec_parent(info@),
{
    let lines = split_lines(info);
    let word = parent_word_bytes();
    let mut i: usize = 0;
    while i < lines.len()
        invariant
            i <= lines@.len(),
            word@ == parent_word_sp(),
            views(lines@) == spec_lines(info@),
            spec_parent(info@) == parent_in(views(lines@), i as int),
        decreases lines@.len() - i,
    {
        proof {
            assert(views(lines@)[i as int] == lines@[i as int]@);
        }
        if starts_with(lines[i].as_slice(), word.as_slice()) {
            return copy_range(lines[i].as_slice(), 7, lines[i].len());
        }
        i += 1;
    }
    Vec::new()
}

/// The tree that a commit payload names: the second field of its first line.
pub open spec fn tree_of(payload: Seq<u8>) -> Option<Seq<u8>> {
    let lines = spec_lines(payload);
    if lines.len() == 0 {
        None
    } else {
        let t = spec_tokens(lines[0]);
        if t.len() < 2 {
            None
        } else {
            Some(t[1])
        }
    }
}

/// The tree of the commit under `commit_hash`: `NotFound` where the store
/// holds no such object, `InvalidData` where its first line names no tree.
pub open spec fn spec_commit_tree(objects: Pairs, commit_hash: Seq<u8>) -> Result<
    Seq<u8>,
    FitError,
> {
    match spec_payload(objects, commit_hash) {
        Err(e) => Err(e),
        Ok(payload) => match tree_of(payload) {
            None => Err(FitError::InvalidData),
            Some(t) => Ok(t),
        },
    }
}

/// The tree named by a commit payload.
pub fn tree_of_payload(payload: &[u8]) -> (r: Option<Vec<u8>>)
    ensures
        crate::repo::file_view(r) == tree_of(payload@),
{
    let lines = split_lines(payload);
    if lines.len() == 0 {
        return None;
    }
    let t = split_tokens(lines[0].as_slice());
    proof {
        assert(views(lines@)[0] == lines@[0]@);
    }
    if t.len() < 2 {
        None
    } else {
        let r = copy_range(t[1].as_slice(), 0, t[1].len());
        proof {
            assert(r@ =~= views(t@)[1]);
        }
        Some(r)
    }
}

/// Reads the hash of the tree of the commit under `commit_hash`.
pub fn get_commit_tree(objects: &ByteMap, commit_hash: &[u8]) -> (r: Result<Vec<u8>, FitError>)
    ensures
        bytes_view(r) == spec_commit_tree(objects@, commit_hash@),
{
    match read_payload(objects, commit_hash) {
        Err(e) => Err(e),
        Ok(payload) => match tree_of_payload(payload.as_slice()) {
            None => Err(FitError::InvalidData),
            Some(t) => Ok(t),
        },
    }
}

} // verus!
