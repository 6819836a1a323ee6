//! What is written can be read back: trees, the index, the staging file and
//! commits; and with them, what a reset restores.

use vstd::prelude::*;
use crate::add::{spec_add_file, spec_add_workflow, AddState};
use crate::bytemap::{
    distinct_keys, has_key, lemma_insert_lookup, lemma_lookup_entry, lemma_position,
    lemma_remove_lookup, lookup, position, spec_insert, spec_remove, Pairs,
};
use crate::commit::{commit_text, parent_word_sp, tree_of, tree_word_sp};
use crate::error::FitError;
use crate::index::{lemma_rows_clean, spec_read_index};
use crate::materialize::{lemma_reset_result, reset_rows, spec_commit_payload, spec_reset};
use crate::object::{spec_hash, ObjectKind};
use crate::refs::spec_current_commit;
use crate::repo::RepoView;
use crate::snapshot::{applied, drop_all, put_all, spec_commit, staged_tree};
use crate::staging::StagingView;
use crate::staging_file::staging_of;
use crate::staging_laws::{
    lemma_parsed_storable, lemma_staging_round_trip, lemma_steps_keep_storable, storable,
};
use crate::tree::spec_payload;
use crate::bytes::{is_token, spec_is_space};
use crate::index::{
    clean, index_line, index_lines, index_of, index_text, row_entry, rows_of,
};
use crate::text::{spec_join, spec_lines, spec_tokens, strip_cr};
use crate::text_laws::{
    lemma_lines_append, lemma_lines_cons, lemma_lines_snoc, lemma_lines_terminate,
    lemma_token_one_line, lemma_tokens_cons, lemma_tokens_one, one_line,
};
use crate::tree::{row_prefix, tree_row, tree_rows, tree_text};

verus! {

/// A line that a text can hold and give back: it has a byte, no line feed,
/// and no carriage return at its end.
pub open spec fn plain_line(line: Seq<u8>) -> bool {
    &&& line.len() > 0
    &&& one_line(line)
    &&& line[line.len() - 1] != 13u8
}

/// Every line of `lines` is plain.
pub open spec fn plain_lines(lines: Seq<Seq<u8>>) -> bool {
    forall|i: int| 0 <= i < lines.len() ==> plain_line(#[trigger] lines[i])
}

/// The text that holds each line of `lines` followed by a line feed.
pub open spec fn rows_text(lines: Seq<Seq<u8>>) -> Seq<u8>
    decreases lines.len(),
{
    if lines.len() == 0 {
        Seq::empty()
    } else {
        rows_text(lines.drop_last()) + lines.last() + seq![10u8]
    }
}

proof fn lemma_plain_prefix(lines: Seq<Seq<u8>>)
    requires
        plain_lines(lines),
        lines.len() > 0,
    ensures
        plain_lines(lines.drop_last()),
        plain_line(lines.last()),
{
    assert forall|i: int| 0 <= i < lines.drop_last().len() implies plain_line(
        #[trigger] lines.drop_last()[i],
    ) by {
        assert(lines.drop_last()[i] == lines[i]);
    }
    assert(plain_line(lines[lines.len() - 1]));
}

/// The lines of a text of plain lines, each followed by a line feed, are
/// those lines.
pub proof fn lemma_lines_of_rows(lines: Seq<Seq<u8>>)
    requires
        plain_lines(lines),
    ensures
        spec_lines(rows_text(lines)) == lines,
        rows_text(lines).len() > 0 ==> rows_text(lines)[rows_text(lines).len() - 1] == 10u8,
    decreases lines.len(),
{
    if lines.len() == 0 {
        assert(spec_lines(rows_text(lines)) =~= lines);
    } else {
        lemma_plain_prefix(lines);
        lemma_lines_of_rows(lines.drop_last());
        lemma_lines_snoc(rows_text(lines.drop_last()), lines.last());
        assert(lines.drop_last().push(lines.last()) =~= lines);
    }
}

/// The lines of plain lines joined by line feeds are those lines.
pub proof fn lemma_lines_of_joined(lines: Seq<Seq<u8>>)
    requires
        plain_lines(lines),
    ensures
        spec_lines(spec_join(lines, seq![10u8])) == lines,
        lines.len() > 0 ==> spec_join(lines, seq![10u8]).len() > 0 && spec_join(
            lines,
            seq![10u8],
        )[spec_join(lines, seq![10u8]).len() - 1] != 10u8,
    decreases lines.len(),
{
    let j = spec_join(lines, seq![10u8]);
    if lines.len() == 0 {
        assert(spec_lines(j) =~= lines);
    } else {
        lemma_plain_prefix(lines);
        let last = lines.last();
        assert(last[last.len() - 1] != 10u8);
        if lines.len() == 1 {
            lemma_lines_append(Seq::empty(), last);
            assert(Seq::<u8>::empty() + last =~= last);
            assert(spec_lines(Seq::empty()) =~= Seq::<Seq<u8>>::empty());
            assert(Seq::<Seq<u8>>::empty().push(last) =~= lines);
        } else {
            let prev = spec_join(lines.drop_last(), seq![10u8]);
            lemma_lines_of_joined(lines.drop_last());
            lemma_lines_terminate(prev);
            let ended = prev + seq![10u8];
            assert(ended[ended.len() - 1] == 10u8);
            lemma_lines_append(ended, last);
            assert(j =~= ended + last);
            assert(j[j.len() - 1] == last[last.len() - 1]);
            assert(lines.drop_last().push(last) =~= lines);
        }
    }
}

/// Lines of which each stands for one entry of a map without a repeated key
/// are read as that map.
pub proof fn lemma_rows_of_lines(m: Pairs, lines: Seq<Seq<u8>>, hash_col: int, path_col: int)
    requires
        distinct_keys(m),
        lines.len() == m.len(),
        forall|i: int|
            0 <= i < m.len() ==> row_entry(#[trigger] lines[i], hash_col, path_col) == Some(m[i]),
    ensures
        rows_of(lines, hash_col, path_col) == Some(m),
    decreases m.len(),
{
    if m.len() == 0 {
        assert(m =~= Pairs::empty());
    } else {
        let before = m.drop_last();
        assert(distinct_keys(before)) by {
            assert forall|i: int, j: int| 0 <= i < j < before.len() implies (
            #[trigger] before[i]).0 != (#[trigger] before[j]).0 by {
                assert(m[i].0 != m[j].0);
            }
        }
        assert forall|i: int| 0 <= i < before.len() implies row_entry(
            #[trigger] lines.drop_last()[i],
            hash_col,
            path_col,
        ) == Some(before[i]) by {
            assert(lines.drop_last()[i] == lines[i]);
        }
        lemma_rows_of_lines(before, lines.drop_last(), hash_col, path_col);
        let e = m.last();
        assert(row_entry(lines[lines.len() - 1], hash_col, path_col) == Some(e));
        assert forall|j: int| 0 <= j < before.len() implies (#[trigger] before[j]).0 != e.0 by {
            assert(m[j].0 != m[m.len() - 1].0);
        }
        crate::bytemap::lemma_position_is(before, e.0, before.len() as int);
        assert(spec_insert(before, e.0, e.1) =~= m);
    }
}

/// The line of a tree row, without its line feed.
pub open spec fn tree_line(path: Seq<u8>, hash: Seq<u8>) -> Seq<u8> {
    row_prefix() + hash + seq![32u8] + path
}

/// The lines of the tree for `m`.
pub open spec fn tree_lines(m: Pairs) -> Seq<Seq<u8>> {
    Seq::new(m.len(), |i: int| tree_line(m[i].0, m[i].1))
}

proof fn lemma_tree_text_rows(m: Pairs)
    ensures
        tree_text(m) == rows_text(tree_lines(m)),
    decreases m.len(),
{
    if m.len() > 0 {
        lemma_tree_text_rows(m.drop_last());
        assert(tree_lines(m).drop_last() =~= tree_lines(m.drop_last()));
        assert(tree_row(m.last().0, m.last().1) =~= tree_lines(m).last() + seq![10u8]);
        assert(tree_text(m) =~= rows_text(tree_lines(m).drop_last()) + tree_lines(m).last()
            + seq![10u8]);
    }
}

/// Fields joined by single spaces make a plain line.
proof fn lemma_plain_fields(a: Seq<u8>, b: Seq<u8>)
    requires
        a.len() > 0,
        one_line(a),
        is_token(b),
    ensures
        plain_line(a + seq![32u8] + b),
{
    let s = a + seq![32u8] + b;
    lemma_token_one_line(b);
    assert forall|i: int| 0 <= i < s.len() implies #[trigger] s[i] != 10u8 by {
        if i < a.len() {
            assert(s[i] == a[i]);
        } else if i > a.len() {
            assert(s[i] == b[i - a.len() - 1]);
        }
    }
    assert(s[s.len() - 1] == b[b.len() - 1]);
    assert(!spec_is_space(b[b.len() - 1]));
}

proof fn lemma_tree_line(path: Seq<u8>, hash: Seq<u8>)
    requires
        is_token(path),
        is_token(hash),
    ensures
        plain_line(tree_line(path, hash)),
        row_entry(tree_line(path, hash), 2, 3) == Some((path, hash)),
{
    let mode = seq!['1' as u8, '0' as u8, '0' as u8, '6' as u8, '4' as u8, '4' as u8];
    let kind = seq!['b' as u8, 'l' as u8, 'o' as u8, 'b' as u8];
    let line = tree_line(path, hash);
    let tail2 = hash + seq![32u8] + path;
    let tail1 = kind + seq![32u8] + tail2;
    assert(line =~= mode + seq![32u8] + tail1);
    assert(is_token(mode));
    assert(is_token(kind));
    lemma_tokens_cons(mode, tail1);
    lemma_tokens_cons(kind, tail2);
    lemma_tokens_cons(hash, path);
    lemma_tokens_one(path);
    let t = spec_tokens(line);
    assert(t =~= seq![mode, kind, hash, path]);
    lemma_token_one_line(hash);
    lemma_token_one_line(kind);
    lemma_token_one_line(mode);
    let front = mode + seq![32u8] + kind + seq![32u8] + hash;
    assert(one_line(front)) by {
        assert forall|i: int| 0 <= i < front.len() implies #[trigger] front[i] != 10u8 by {
            if i < 6 {
                assert(front[i] == mode[i]);
            } else if i == 6 {
            } else if i < 11 {
                assert(front[i] == kind[i - 7]);
            } else if i == 11 {
            } else {
                assert(front[i] == hash[i - 12]);
            }
        }
    }
    lemma_plain_fields(front, path);
    assert(line =~= front + seq![32u8] + path);
}

/// A tree written from a map of fields without a repeated path is read
/// back as that map.
pub proof fn lemma_tree_round_trip(m: Pairs)
    requires
        clean(m),
        distinct_keys(m),
    ensures
        tree_rows(tree_text(m)) == Some(m),
{
    lemma_tree_text_rows(m);
    let lines = tree_lines(m);
    assert forall|i: int| 0 <= i < lines.len() implies plain_line(#[trigger] lines[i]) by {
        assert(is_token(m[i].0) && is_token(m[i].1));
        lemma_tree_line(m[i].0, m[i].1);
    }
    lemma_lines_of_rows(lines);
    assert forall|i: int| 0 <= i < m.len() implies row_entry(#[trigger] lines[i], 2, 3) == Some(
        m[i],
    ) by {
        assert(is_token(m[i].0) && is_token(m[i].1));
        lemma_tree_line(m[i].0, m[i].1);
    }
    lemma_rows_of_lines(m, lines, 2, 3);
}

proof fn lemma_index_line(path: Seq<u8>, hash: Seq<u8>)
    requires
        is_token(path),
        is_token(hash),
    ensures
        plain_line(index_line(path, hash)),
        row_entry(index_line(path, hash), 0, 1) == Some((path, hash)),
{
    lemma_tokens_cons(hash, path);
    lemma_tokens_one(path);
    assert(spec_tokens(index_line(path, hash)) =~= seq![hash, path]);
    lemma_token_one_line(hash);
    lemma_plain_fields(hash, path);
}

/// An index file written from a map of fields without a repeated path is
/// read back as that map.
pub proof fn lemma_index_round_trip(m: Pairs)
    requires
        clean(m),
        distinct_keys(m),
    ensures
        index_of(index_text(m)) == Some(m),
{
    let lines = index_lines(m);
    assert forall|i: int| 0 <= i < lines.len() implies plain_line(#[trigger] lines[i]) by {
        assert(is_token(m[i].0) && is_token(m[i].1));
        lemma_index_line(m[i].0, m[i].1);
    }
    lemma_lines_of_joined(lines);
    assert forall|i: int| 0 <= i < m.len() implies row_entry(#[trigger] lines[i], 0, 1) == Some(
        m[i],
    ) by {
        assert(is_token(m[i].0) && is_token(m[i].1));
        lemma_index_line(m[i].0, m[i].1);
    }
    lemma_rows_of_lines(m, lines, 0, 1);
}

/// A commit names the tree it was made of.
pub proof fn lemma_tree_of_commit(tree: Seq<u8>, parent: Option<Seq<u8>>, message: Seq<u8>)
    requires
        is_token(tree),
    ensures
        tree_of(commit_text(tree, parent, message)) == Some(tree),
{
    let word = seq!['t' as u8, 'r' as u8, 'e' as u8, 'e' as u8];
    let line = tree_word_sp() + tree;
    let rest = match parent {
        Some(p) => parent_word_sp() + p + seq![10u8, 10u8] + message,
        None => seq![10u8] + message,
    };
    let text = commit_text(tree, parent, message);
    assert(text =~= line + seq![10u8] + rest);
    assert(line =~= word + seq![32u8] + tree);
    assert(is_token(word));
    lemma_token_one_line(tree);
    lemma_token_one_line(word);
    lemma_plain_fields(word, tree);
    lemma_lines_cons(line, rest);
    assert(spec_lines(text)[0] == strip_cr(line));
    lemma_tokens_cons(word, tree);
    lemma_tokens_one(tree);
    assert(spec_tokens(line) =~= seq![word, tree]);
}

/// A reset restores what the commit recorded: where the commit under `hash`
/// names the tree that was written from the index `idx`, and `idx` holds
/// `path` at a blob with `content`, the working directory holds `content`
/// under `path` after a reset to `hash`.
pub proof fn lemma_reset_restores(
    v: RepoView,
    hash: Seq<u8>,
    tree: Seq<u8>,
    parent: Option<Seq<u8>>,
    message: Seq<u8>,
    idx: Pairs,
    path: Seq<u8>,
    blob: Seq<u8>,
    content: Seq<u8>,
)
    requires
        spec_commit_payload(v.objects, hash) == Ok::<Seq<u8>, FitError>(
            commit_text(tree, parent, message),
        ),
        is_token(tree),
        spec_payload(v.objects, tree) == Ok::<Seq<u8>, FitError>(tree_text(idx)),
        clean(idx),
        distinct_keys(idx),
        lookup(idx, path) == Some(blob),
        spec_payload(v.objects, blob) == Ok::<Seq<u8>, FitError>(content),
        spec_reset(v, hash) is Ok,
        distinct_keys(v.worktree),
    ensures
        lookup(spec_reset(v, hash)->Ok_0.worktree, path) == Some(content),
{
    lemma_tree_of_commit(tree, parent, message);
    lemma_tree_round_trip(idx);
    lemma_reset_result(v, hash, path);
    assert(reset_rows(v, hash) == idx);
}

proof fn lemma_put_all(index: Pairs, entries: Pairs, n: int, p: Seq<u8>)
    requires
        distinct_keys(entries),
        clean(entries),
        0 <= n <= entries.len(),
    ensures
        lookup(put_all(index, entries, n), p) == (if position(entries, p) < n {
            Some(entries[position(entries, p)].1)
        } else {
            lookup(index, p)
        }),
        distinct_keys(index) ==> distinct_keys(put_all(index, entries, n)),
        clean(index) ==> clean(put_all(index, entries, n)),
    decreases n,
{
    lemma_position(entries, p);
    if n > 0 {
        lemma_put_all(index, entries, n - 1, p);
        lemma_lookup_entry(entries, n - 1);
        let prev = put_all(index, entries, n - 1);
        let e = entries[n - 1];
        lemma_insert_lookup(prev, e.0, e.1, p);
        if position(entries, p) == n - 1 {
            assert(e.0 == p);
        }
        if clean(index) {
            lemma_position(prev, e.0);
            let next = spec_insert(prev, e.0, e.1);
            assert(is_token(e.0) && is_token(e.1));
            assert forall|i: int| 0 <= i < next.len() implies is_token((#[trigger] next[i]).0)
                && is_token(next[i].1) by {
                if i < prev.len() && i != position(prev, e.0) {
                    assert(next[i] == prev[i]);
                }
            }
        }
    }
}

proof fn lemma_drop_all(index: Pairs, entries: Pairs, n: int, p: Seq<u8>)
    requires
        distinct_keys(index),
        0 <= n <= entries.len(),
    ensures
        lookup(drop_all(index, entries, n), p) == (if position(entries, p) < n {
            None
        } else {
            lookup(index, p)
        }),
        distinct_keys(drop_all(index, entries, n)),
        clean(index) ==> clean(drop_all(index, entries, n)),
    decreases n,
{
    lemma_position(entries, p);
    if n > 0 {
        lemma_drop_all(index, entries, n - 1, p);
        let prev = drop_all(index, entries, n - 1);
        let k = entries[n - 1].0;
        lemma_remove_lookup(prev, k, p);
        if position(entries, p) == n - 1 {
            assert(k == p);
        }
        if clean(index) {
            lemma_position(prev, k);
            let next = spec_remove(prev, k);
            let q = position(prev, k);
            assert forall|i: int| 0 <= i < next.len() implies is_token((#[trigger] next[i]).0)
                && is_token(next[i].1) by {
                let a = if has_key(prev, k) && i >= q {
                    i + 1
                } else {
                    i
                };
                assert(next[i] == prev[a]);
            }
        }
    }
}

/// What the index holds once a staging delta is applied: nothing under a
/// removed path, the staged hash under a changed or new path, and what it
/// held before under any other path.
pub proof fn lemma_applied(index: Pairs, s: StagingView, p: Seq<u8>)
    requires
        distinct_keys(index),
        clean(index),
        storable(s),
    ensures
        distinct_keys(applied(index, s)),
        clean(applied(index, s)),
        lookup(applied(index, s), p) == (if has_key(s.deleted, p) {
            None
        } else if has_key(s.modified, p) {
            lookup(s.modified, p)
        } else if has_key(s.added, p) {
            lookup(s.added, p)
        } else {
            lookup(index, p)
        }),
{
    let one = put_all(index, s.added, s.added.len() as int);
    let two = put_all(one, s.modified, s.modified.len() as int);
    lemma_put_all(index, s.added, s.added.len() as int, p);
    lemma_put_all(one, s.modified, s.modified.len() as int, p);
    lemma_drop_all(two, s.deleted, s.deleted.len() as int, p);
    lemma_position(s.added, p);
    lemma_position(s.modified, p);
    lemma_position(s.deleted, p);
}

/// The staging delta records nothing for `path` but `hash`.
pub open spec fn agrees(s: StagingView, path: Seq<u8>, hash: Seq<u8>) -> bool {
    &&& !has_key(s.deleted, path)
    &&& has_key(s.modified, path) ==> lookup(s.modified, path) == Some(hash)
    &&& has_key(s.added, path) ==> lookup(s.added, path) == Some(hash)
}

/// The index that the commit of a repository records.
pub open spec fn committed_index(v: RepoView) -> Pairs {
    applied(spec_read_index(v.index)->Ok_0, staging_of(v.staging))
}

/// After `add` of a file, the index that the next commit records holds the
/// file at the hash of its blob.
pub proof fn lemma_add_stages(v: RepoView, path: Seq<u8>)
    requires
        is_token(path),
        has_key(v.worktree, path),
        is_token(spec_hash(ObjectKind::Blob, lookup(v.worktree, path)->Some_0)),
        spec_add_workflow(v, path) is Ok,
        lookup(spec_read_index(v.index)->Ok_0, path) == Some(
            spec_hash(ObjectKind::Blob, lookup(v.worktree, path)->Some_0),
        ) ==> agrees(
            staging_of(v.staging),
            path,
            spec_hash(ObjectKind::Blob, lookup(v.worktree, path)->Some_0),
        ),
    ensures
        ({
            let staged = spec_add_workflow(v, path)->Ok_0;
            &&& spec_read_index(staged.index) is Ok
            &&& clean(committed_index(staged))
            &&& distinct_keys(committed_index(staged))
            &&& lookup(committed_index(staged), path) == Some(
                spec_hash(ObjectKind::Blob, lookup(v.worktree, path)->Some_0),
            )
        }),
{
    let content = lookup(v.worktree, path)->Some_0;
    let h = spec_hash(ObjectKind::Blob, content);
    let index0 = spec_read_index(v.index)->Ok_0;
    let st0 = staging_of(v.staging);
    let staged = spec_add_workflow(v, path)->Ok_0;
    crate::index::lemma_rows_clean(spec_lines(v.index->Some_0), 0, 1);
    lemma_parsed_storable(v.staging);
    let added = spec_add_file(AddState { objects: v.objects, staging: st0, index: index0 }, path, content);
    lemma_insert_lookup(index0, path, h, path);
    lemma_position(index0, path);
    assert(clean(added.index)) by {
        assert forall|i: int| 0 <= i < added.index.len() implies is_token((#[trigger] added.index[i]).0)
            && is_token(added.index[i].1) by {
            if i < index0.len() && i != position(index0, path) {
                assert(added.index[i] == index0[i]);
            }
        }
    }
    lemma_index_round_trip(added.index);
    lemma_steps_keep_storable(st0, path, h);
    lemma_staging_round_trip(added.staging);
    assert(staging_of(staged.staging) == added.staging);
    assert(spec_read_index(staged.index) == Ok::<Pairs, FitError>(added.index));
    lemma_applied(added.index, added.staging, path);
    lemma_insert_lookup(st0.added, path, h, path);
    lemma_insert_lookup(st0.modified, path, h, path);
    lemma_remove_lookup(st0.added, path, path);
    lemma_remove_lookup(st0.modified, path, path);
    lemma_remove_lookup(st0.deleted, path, path);
    lemma_position(added.staging.added, path);
    lemma_position(added.staging.modified, path);
    lemma_position(added.staging.deleted, path);
}

/// Round trip: a file that is added and committed comes back byte for byte
/// when a repository is reset to the commit.
///
/// `later` is any state of the repository from which the blob, the tree and
/// the commit still read back as they were written, which they do unless an
/// object with the same hash has been written since. The path is a field;
/// and where the index already held the file as it is, the staging delta
/// did not say otherwise.
pub proof fn lemma_add_commit_reset(
    v: RepoView,
    path: Seq<u8>,
    message: Seq<u8>,
    later: RepoView,
)
    requires
        is_token(path),
        has_key(v.worktree, path),
        is_token(spec_hash(ObjectKind::Blob, lookup(v.worktree, path)->Some_0)),
        spec_add_workflow(v, path) is Ok,
        lookup(spec_read_index(v.index)->Ok_0, path) == Some(
            spec_hash(ObjectKind::Blob, lookup(v.worktree, path)->Some_0),
        ) ==> agrees(
            staging_of(v.staging),
            path,
            spec_hash(ObjectKind::Blob, lookup(v.worktree, path)->Some_0),
        ),
        spec_commit(spec_add_workflow(v, path)->Ok_0, message) is Ok,
        spec_commit(spec_add_workflow(v, path)->Ok_0, message)->Ok_0 is Some,
        ({
            let content = lookup(v.worktree, path)->Some_0;
            let staged = spec_add_workflow(v, path)->Ok_0;
            let commit = spec_commit(staged, message)->Ok_0->Some_0.1;
            let tree = spec_hash(ObjectKind::Tree, staged_tree(staged));
            &&& is_token(tree)
            &&& spec_commit_payload(later.objects, commit) == Ok::<Seq<u8>, FitError>(
                commit_text(tree, Some(spec_current_commit(staged)->Ok_0), message),
            )
            &&& spec_payload(later.objects, tree) == Ok::<Seq<u8>, FitError>(staged_tree(staged))
            &&& spec_payload(later.objects, spec_hash(ObjectKind::Blob, content)) == Ok::<
                Seq<u8>,
                FitError,
            >(content)
            &&& spec_reset(later, commit) is Ok
        }),
        distinct_keys(later.worktree),
    ensures
        ({
            let staged = spec_add_workflow(v, path)->Ok_0;
            let commit = spec_commit(staged, message)->Ok_0->Some_0.1;
            lookup(spec_reset(later, commit)->Ok_0.worktree, path) == lookup(v.worktree, path)
        }),
{
    let content = lookup(v.worktree, path)->Some_0;
    let staged = spec_add_workflow(v, path)->Ok_0;
    let commit = spec_commit(staged, message)->Ok_0->Some_0.1;
    let tree = spec_hash(ObjectKind::Tree, staged_tree(staged));
    lemma_add_stages(v, path);
    lemma_reset_restores(
        later,
        commit,
        tree,
        Some(spec_current_commit(staged)->Ok_0),
        message,
        committed_index(staged),
        path,
        spec_hash(ObjectKind::Blob, content),
        content,
    );
}

} // verus!
