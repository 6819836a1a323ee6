//! The staging file gives back the staging delta that was written to it.

use vstd::prelude::*;
use crate::bytemap::{
    distinct_keys, has_key, lemma_insert_lookup, lemma_position, lemma_position_is,
    lemma_remove_lookup, position, spec_insert, spec_remove, Pairs,
};
use crate::bytes::is_token;
use crate::index::clean;
use crate::round_trip::{lemma_lines_of_rows, plain_line, plain_lines, rows_text};
use crate::staging::{
    apart, empty_staging, lemma_steps_keep_partition, partitioned, spec_add, spec_delete,
    spec_modify, StagingView,
};
use crate::staging_file::{
    apply_line, deleted_line, deleted_rows, staged_line, staged_rows, staging_file, staging_of,
    staging_of_lines, staging_text,
};
use crate::text::{spec_lines, spec_tokens};
use crate::text_laws::{
    lemma_token_one_line, lemma_tokens_are_tokens, lemma_tokens_cons, lemma_tokens_one, one_line,
};

verus! {

/// Every key is a field and every value is empty.
pub open spec fn bare_keys(m: Pairs) -> bool {
    forall|i: int| 0 <= i < m.len() ==> is_token((#[trigger] m[i]).0) && m[i].1.len() == 0
}

/// A staging delta that its file can hold: paths and hashes are fields, and
/// no path is in more than one partition.
pub open spec fn storable(s: StagingView) -> bool {
    &&& partitioned(s)
    &&& clean(s.added)
    &&& clean(s.modified)
    &&& bare_keys(s.deleted)
}

/// The staging delta after the changes that `lines` record, on top of `v`.
pub open spec fn apply_lines(v: StagingView, lines: Seq<Seq<u8>>) -> StagingView
    decreases lines.len(),
{
    if lines.len() == 0 {
        v
    } else {
        apply_line(apply_lines(v, lines.drop_last()), lines.last())
    }
}

proof fn lemma_staging_of_lines(lines: Seq<Seq<u8>>)
    ensures
        staging_of_lines(lines) == apply_lines(empty_staging(), lines),
    decreases lines.len(),
{
    if lines.len() > 0 {
        lemma_staging_of_lines(lines.drop_last());
    }
}

proof fn lemma_apply_concat(v: StagingView, a: Seq<Seq<u8>>, b: Seq<Seq<u8>>)
    ensures
        apply_lines(v, a + b) == apply_lines(apply_lines(v, a), b),
    decreases b.len(),
{
    if b.len() == 0 {
        assert(a + b =~= a);
    } else {
        lemma_apply_concat(v, a, b.drop_last());
        assert((a + b).drop_last() =~= a + b.drop_last());
        assert((a + b).last() == b.last());
    }
}

proof fn lemma_rows_concat(a: Seq<Seq<u8>>, b: Seq<Seq<u8>>)
    ensures
        rows_text(a + b) == rows_text(a) + rows_text(b),
    decreases b.len(),
{
    if b.len() == 0 {
        assert(a + b =~= a);
        assert(rows_text(a) + rows_text(b) =~= rows_text(a));
    } else {
        lemma_rows_concat(a, b.drop_last());
        assert((a + b).drop_last() =~= a + b.drop_last());
        assert((a + b).last() == b.last());
        assert(rows_text(a + b) =~= rows_text(a) + rows_text(b));
    }
}

/// The line that records `path` under `tag` with `hash`, without its line
/// feed.
pub open spec fn tagged_line(tag: u8, path: Seq<u8>, hash: Seq<u8>) -> Seq<u8> {
    seq![tag, 32u8] + hash + seq![32u8] + path
}

/// The lines that record the entries of `m` under `tag`.
pub open spec fn tagged_lines(m: Pairs, tag: u8) -> Seq<Seq<u8>> {
    Seq::new(m.len(), |i: int| tagged_line(tag, m[i].0, m[i].1))
}

/// The line that records `path` as removed, without its line feed.
pub open spec fn removal_line(path: Seq<u8>) -> Seq<u8> {
    seq!['D' as u8, 32u8] + path
}

/// The lines that record the keys of `m` as removed.
pub open spec fn removal_lines(m: Pairs) -> Seq<Seq<u8>> {
    Seq::new(m.len(), |i: int| removal_line(m[i].0))
}

proof fn lemma_staged_rows(m: Pairs, tag: u8)
    ensures
        staged_rows(m, tag) == rows_text(tagged_lines(m, tag)),
    decreases m.len(),
{
    if m.len() > 0 {
        lemma_staged_rows(m.drop_last(), tag);
        assert(tagged_lines(m, tag).drop_last() =~= tagged_lines(m.drop_last(), tag));
        assert(staged_line(tag, m.last().0, m.last().1) =~= tagged_lines(m, tag).last()
            + seq![10u8]);
        assert(staged_rows(m, tag) =~= rows_text(tagged_lines(m, tag).drop_last())
            + tagged_lines(m, tag).last() + seq![10u8]);
    }
}

proof fn lemma_deleted_rows(m: Pairs)
    ensures
        deleted_rows(m) == rows_text(removal_lines(m)),
    decreases m.len(),
{
    if m.len() > 0 {
        lemma_deleted_rows(m.drop_last());
        assert(removal_lines(m).drop_last() =~= removal_lines(m.drop_last()));
        assert(deleted_line(m.last().0) =~= removal_lines(m).last() + seq![10u8]);
        assert(deleted_rows(m) =~= rows_text(removal_lines(m).drop_last()) + removal_lines(
            m,
        ).last() + seq![10u8]);
    }
}

proof fn lemma_tagged_line(tag: u8, path: Seq<u8>, hash: Seq<u8>)
    requires
        is_token(path),
        is_token(hash),
        tag == 'A' as u8 || tag == 'M' as u8,
    ensures
        plain_line(tagged_line(tag, path, hash)),
        spec_tokens(tagged_line(tag, path, hash)) == seq![seq![tag], hash, path],
{
    let line = tagged_line(tag, path, hash);
    let word = seq![tag];
    assert(is_token(word));
    let tail = hash + seq![32u8] + path;
    assert(line =~= word + seq![32u8] + tail);
    lemma_tokens_cons(word, tail);
    lemma_tokens_cons(hash, path);
    lemma_tokens_one(path);
    assert(spec_tokens(line) =~= seq![word, hash, path]);
    lemma_token_one_line(hash);
    lemma_token_one_line(path);
    assert forall|i: int| 0 <= i < line.len() implies #[trigger] line[i] != 10u8 by {
        if i >= 2 && i < 2 + hash.len() {
            assert(line[i] == hash[i - 2]);
        } else if i > 2 + hash.len() {
            assert(line[i] == path[i - 3 - hash.len()]);
        }
    }
    assert(line[line.len() - 1] == path[path.len() - 1]);
    assert(!crate::bytes::spec_is_space(path[path.len() - 1]));
}

proof fn lemma_removal_line(path: Seq<u8>)
    requires
        is_token(path),
    ensures
        plain_line(removal_line(path)),
        spec_tokens(removal_line(path)) == seq![seq!['D' as u8], path],
{
    let line = removal_line(path);
    let word = seq!['D' as u8];
    assert(is_token(word));
    assert(line =~= word + seq![32u8] + path);
    lemma_tokens_cons(word, path);
    lemma_tokens_one(path);
    assert(spec_tokens(line) =~= seq![word, path]);
    lemma_token_one_line(path);
    assert forall|i: int| 0 <= i < line.len() implies #[trigger] line[i] != 10u8 by {
        if i >= 2 {
            assert(line[i] == path[i - 2]);
        }
    }
    assert(line[line.len() - 1] == path[path.len() - 1]);
    assert(!crate::bytes::spec_is_space(path[path.len() - 1]));
}

proof fn lemma_distinct_prefix(m: Pairs)
    requires
        distinct_keys(m),
        m.len() > 0,
    ensures
        distinct_keys(m.drop_last()),
        !has_key(m.drop_last(), m.last().0),
        has_key(m, m.last().0),
{
    let before = m.drop_last();
    assert forall|i: int, j: int| 0 <= i < j < before.len() implies (#[trigger] before[i]).0 != (
    #[trigger] before[j]).0 by {
        assert(m[i].0 != m[j].0);
    }
    assert forall|j: int| 0 <= j < before.len() implies (#[trigger] before[j]).0 != m.last().0 by {
        assert(m[j].0 != m[m.len() - 1].0);
    }
    lemma_position_is(before, m.last().0, before.len() as int);
    crate::bytemap::lemma_lookup_entry(m, m.len() - 1);
}

proof fn lemma_apart_prefix(x: Pairs, y: Pairs)
    requires
        apart(x, y),
        distinct_keys(y),
        y.len() > 0,
    ensures
        apart(x, y.drop_last()),
        !has_key(x, y.last().0),
{
    lemma_distinct_prefix(y);
    assert forall|p: Seq<u8>| !(has_key(x, p) && #[trigger] has_key(y.drop_last(), p)) by {
        lemma_position(y.drop_last(), p);
        lemma_position(y, p);
        if has_key(y.drop_last(), p) {
            let i = position(y.drop_last(), p);
            assert(y[i].0 == p);
            assert(has_key(y, p));
        }
    }
    assert forall|p: Seq<u8>| !(#[trigger] has_key(x, p) && has_key(y.drop_last(), p)) by {
        lemma_position(y.drop_last(), p);
        lemma_position(y, p);
        if has_key(y.drop_last(), p) {
            let i = position(y.drop_last(), p);
            assert(y[i].0 == p);
            assert(has_key(y, p));
        }
    }
}

proof fn lemma_apply_added(a: Pairs)
    requires
        clean(a),
        distinct_keys(a),
    ensures
        apply_lines(empty_staging(), tagged_lines(a, 'A' as u8)) == (StagingView {
            added: a,
            modified: Pairs::empty(),
            deleted: Pairs::empty(),
        }),
    decreases a.len(),
{
    let lines = tagged_lines(a, 'A' as u8);
    if a.len() == 0 {
        assert(a =~= Pairs::empty());
    } else {
        let before = a.drop_last();
        lemma_distinct_prefix(a);
        assert(clean(before)) by {
            assert forall|i: int| 0 <= i < before.len() implies is_token((#[trigger] before[i]).0)
                && is_token(before[i].1) by {
                assert(before[i] == a[i]);
            }
        }
        lemma_apply_added(before);
        assert(lines.drop_last() =~= tagged_lines(before, 'A' as u8));
        let e = a.last();
        assert(is_token(a[a.len() - 1].0) && is_token(a[a.len() - 1].1));
        lemma_tagged_line('A' as u8, e.0, e.1);
        lemma_position(Pairs::empty(), e.0);
        assert(spec_insert(before, e.0, e.1) =~= a);
    }
}

proof fn lemma_apply_modified(a: Pairs, m: Pairs)
    requires
        clean(m),
        distinct_keys(m),
        apart(a, m),
    ensures
        apply_lines(
            StagingView { added: a, modified: Pairs::empty(), deleted: Pairs::empty() },
            tagged_lines(m, 'M' as u8),
        ) == (StagingView { added: a, modified: m, deleted: Pairs::empty() }),
    decreases m.len(),
{
    let lines = tagged_lines(m, 'M' as u8);
    if m.len() == 0 {
        assert(m =~= Pairs::empty());
    } else {
        let before = m.drop_last();
        lemma_distinct_prefix(m);
        lemma_apart_prefix(a, m);
        assert(clean(before)) by {
            assert forall|i: int| 0 <= i < before.len() implies is_token((#[trigger] before[i]).0)
                && is_token(before[i].1) by {
                assert(before[i] == m[i]);
            }
        }
        lemma_apply_modified(a, before);
        assert(lines.drop_last() =~= tagged_lines(before, 'M' as u8));
        let e = m.last();
        assert(is_token(m[m.len() - 1].0) && is_token(m[m.len() - 1].1));
        lemma_tagged_line('M' as u8, e.0, e.1);
        assert(seq!['M' as u8][0] != seq!['A' as u8][0]);
        lemma_position(Pairs::empty(), e.0);
        assert(spec_insert(before, e.0, e.1) =~= m);
    }
}

proof fn lemma_apply_deleted(a: Pairs, m: Pairs, d: Pairs)
    requires
        bare_keys(d),
        distinct_keys(d),
        apart(a, d),
        apart(m, d),
    ensures
        apply_lines(
            StagingView { added: a, modified: m, deleted: Pairs::empty() },
            removal_lines(d),
        ) == (StagingView { added: a, modified: m, deleted: d }),
    decreases d.len(),
{
    let lines = removal_lines(d);
    if d.len() == 0 {
        assert(d =~= Pairs::empty());
    } else {
        let before = d.drop_last();
        lemma_distinct_prefix(d);
        lemma_apart_prefix(a, d);
        lemma_apart_prefix(m, d);
        assert(bare_keys(before)) by {
            assert forall|i: int| 0 <= i < before.len() implies is_token((#[trigger] before[i]).0)
                && before[i].1.len() == 0 by {
                assert(before[i] == d[i]);
            }
        }
        lemma_apply_deleted(a, m, before);
        assert(lines.drop_last() =~= removal_lines(before));
        let e = d.last();
        assert(is_token(d[d.len() - 1].0) && d[d.len() - 1].1.len() == 0);
        lemma_removal_line(e.0);
        assert(e.1 =~= Seq::<u8>::empty());
        assert(spec_insert(before, e.0, Seq::empty()) =~= d);
    }
}

/// The staging file gives back the staging delta that it was written from.
pub proof fn lemma_staging_round_trip(s: StagingView)
    requires
        storable(s),
    ensures
        staging_of(staging_file(s)) == s,
{
    if s.added.len() == 0 && s.modified.len() == 0 && s.deleted.len() == 0 {
        assert(s.added =~= Pairs::empty());
        assert(s.modified =~= Pairs::empty());
        assert(s.deleted =~= Pairs::empty());
    } else {
        let la = tagged_lines(s.added, 'A' as u8);
        let lm = tagged_lines(s.modified, 'M' as u8);
        let ld = removal_lines(s.deleted);
        lemma_staged_rows(s.added, 'A' as u8);
        lemma_staged_rows(s.modified, 'M' as u8);
        lemma_deleted_rows(s.deleted);
        lemma_rows_concat(la, lm);
        lemma_rows_concat(la + lm, ld);
        let all = la + lm + ld;
        assert(staging_text(s) == rows_text(all));
        assert forall|i: int| 0 <= i < all.len() implies plain_line(#[trigger] all[i]) by {
            if i < la.len() {
                assert(is_token(s.added[i].0) && is_token(s.added[i].1));
                lemma_tagged_line('A' as u8, s.added[i].0, s.added[i].1);
            } else if i < la.len() + lm.len() {
                let k = i - la.len();
                assert(is_token(s.modified[k].0) && is_token(s.modified[k].1));
                lemma_tagged_line('M' as u8, s.modified[k].0, s.modified[k].1);
                assert(all[i] == lm[k]);
            } else {
                let k = i - la.len() - lm.len();
                assert(is_token(s.deleted[k].0));
                lemma_removal_line(s.deleted[k].0);
                assert(all[i] == ld[k]);
            }
        }
        lemma_lines_of_rows(all);
        lemma_staging_of_lines(all);
        lemma_apply_concat(empty_staging(), la + lm, ld);
        lemma_apply_concat(empty_staging(), la, lm);
        lemma_apply_added(s.added);
        lemma_apply_modified(s.added, s.modified);
        lemma_apply_deleted(s.added, s.modified, s.deleted);
    }
}

proof fn lemma_insert_clean(m: Pairs, k: Seq<u8>, v: Seq<u8>)
    requires
        is_token(k),
    ensures
        clean(m) && is_token(v) ==> clean(spec_insert(m, k, v)),
        bare_keys(m) && v.len() == 0 ==> bare_keys(spec_insert(m, k, v)),
{
    lemma_position(m, k);
    let n = spec_insert(m, k, v);
    if clean(m) && is_token(v) {
        assert forall|i: int| 0 <= i < n.len() implies is_token((#[trigger] n[i]).0) && is_token(
            n[i].1,
        ) by {
            if i < m.len() && i != position(m, k) {
                assert(n[i] == m[i]);
            }
        }
    }
    if bare_keys(m) && v.len() == 0 {
        assert forall|i: int| 0 <= i < n.len() implies is_token((#[trigger] n[i]).0)
            && n[i].1.len() == 0 by {
            if i < m.len() && i != position(m, k) {
                assert(n[i] == m[i]);
            }
        }
    }
}

proof fn lemma_remove_clean(m: Pairs, k: Seq<u8>)
    ensures
        clean(m) ==> clean(spec_remove(m, k)),
        bare_keys(m) ==> bare_keys(spec_remove(m, k)),
{
    lemma_position(m, k);
    let n = spec_remove(m, k);
    let p = position(m, k);
    if clean(m) {
        assert forall|i: int| 0 <= i < n.len() implies is_token((#[trigger] n[i]).0) && is_token(
            n[i].1,
        ) by {
            let a = if has_key(m, k) && i >= p {
                i + 1
            } else {
                i
            };
            assert(n[i] == m[a]);
        }
    }
    if bare_keys(m) {
        assert forall|i: int| 0 <= i < n.len() implies is_token((#[trigger] n[i]).0)
            && n[i].1.len() == 0 by {
            let a = if has_key(m, k) && i >= p {
                i + 1
            } else {
                i
            };
            assert(n[i] == m[a]);
        }
    }
}

/// Recording a change of a path that is a field, with a hash that is a
/// field, keeps a staging delta storable.
pub proof fn lemma_steps_keep_storable(s: StagingView, path: Seq<u8>, hash: Seq<u8>)
    requires
        storable(s),
        is_token(path),
        is_token(hash),
    ensures
        storable(spec_add(s, path, hash)),
        storable(spec_modify(s, path, hash)),
        storable(spec_delete(s, path)),
{
    lemma_steps_keep_partition(s, path, hash);
    lemma_insert_clean(s.added, path, hash);
    lemma_insert_clean(s.modified, path, hash);
    lemma_insert_clean(s.deleted, path, Seq::empty());
    lemma_remove_clean(s.added, path);
    lemma_remove_clean(s.modified, path);
    lemma_remove_clean(s.deleted, path);
}

proof fn lemma_lines_storable(lines: Seq<Seq<u8>>)
    ensures
        storable(staging_of_lines(lines)),
    decreases lines.len(),
{
    if lines.len() == 0 {
        assert forall|p: Seq<u8>| !has_key(Pairs::empty(), p) by {
            lemma_position(Pairs::empty(), p);
        }
    } else {
        lemma_lines_storable(lines.drop_last());
        let before = staging_of_lines(lines.drop_last());
        let t = spec_tokens(lines.last());
        lemma_tokens_are_tokens(lines.last(), 0);
        if t.len() == 3 {
            assert(is_token(t[1]) && is_token(t[2]));
            lemma_steps_keep_storable(before, t[2], t[1]);
        }
        if t.len() == 2 {
            assert(is_token(t[1]));
            lemma_steps_keep_storable(before, t[1], t[1]);
        }
    }
}

/// What is read from a staging file is storable.
pub proof fn lemma_parsed_storable(file: Option<Seq<u8>>)
    ensures
        storable(staging_of(file)),
{
    match file {
        None => {
            lemma_lines_storable(Seq::empty());
        },
        Some(text) => {
            lemma_lines_storable(spec_lines(text));
        },
    }
}

} // verus!
