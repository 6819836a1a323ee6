//! The differ: which paths differ between two snapshots, and how their
//! contents differ line by line.

use vstd::prelude::*;
use crate::bytemap::{
    distinct_keys, lemma_lookup_entry, lemma_position, lemma_push_contains, lookup, position,
    ByteMap, Pairs,
};
use crate::bytes::{bytes_eq, copy_range};
use crate::commit::{get_commit_tree, spec_commit_tree};
use crate::error::FitError;
use crate::index::{read_index, spec_read_index};
use crate::refs::{get_current_commit, spec_current_commit};
use crate::repo::{RepoView, Repository};
use crate::tree::{get_tree_files, read_payload, spec_payload, spec_tree_files};

verus! {

/// On which side a line of a diff stands.
#[derive(Clone, Copy, Debug, PartialEq, Eq, Structural)]
pub enum DiffTag {
    /// Only in the old content.
    Left,
    /// In both.
    Both,
    /// Only in the new content.
    Right,
}

/// One line of a diff.
pub struct DiffLine {
    pub tag: DiffTag,
    pub text: Vec<u8>,
}

impl DiffLine {
    /// Tag and text.
    pub open spec fn view(&self) -> (DiffTag, Seq<u8>) {
        (self.tag, self.text@)
    }
}

/// The views of the lines of a diff.
pub open spec fn script_view(lines: Seq<DiffLine>) -> Seq<(DiffTag, Seq<u8>)> {
    Seq::new(lines.len(), |i: int| lines[i]@)
}

/// The line diff that the `diff` crate computes between two contents, each
/// read as text with invalid UTF-8 replaced.
pub uninterp spec fn diff_script(old: Seq<u8>, new: Seq<u8>) -> Seq<(DiffTag, Seq<u8>)>;

/// The contents that the differ takes. It counts lines in 32 bits, and it
/// builds a table with a 32-bit entry for each pair of a line of the one and
/// a line of the other, and one more row and column; the table must be one
/// that a vector can hold.
pub open spec fn diffable(old: Seq<u8>, new: Seq<u8>) -> bool {
    &&& old.len() <= 0x7fff_ffff
    &&& new.len() <= 0x7fff_ffff
    &&& (old.len() + 1) * (new.len() + 1) <= usize::MAX / 8
}

/// True when the differ takes `old` and `new`.
pub fn can_diff(old: &[u8], new: &[u8]) -> (r: bool)
    ensures
        r == diffable(old@, new@),
{
    if old.len() > 0x7fff_ffff || new.len() > 0x7fff_ffff {
        return false;
    }
    let a: usize = old.len() + 1;
    let b: usize = new.len() + 1;
    match a.checked_mul(b) {
        Some(cells) => cells <= usize::MAX / 8,
        None => false,
    }
}

/// Calls `diff::lines` on the two contents, each converted to text with
/// `String::from_utf8_lossy`. Trusted: on contents within the limits above
/// the call returns, and its result depends on the two contents alone. Each
/// item of the result becomes one line: its tag, and the bytes of its text
/// (of the left text where it stands on both sides).
#[verifier::external_body]
fn line_diff(old: &[u8], new: &[u8]) -> (r: Vec<DiffLine>)
    requires
        diffable(old@, new@),
    ensures
        script_view(r@) == diff_script(old@, new@),
{
    let left = String::from_utf8_lossy(old);
    let right = String::from_utf8_lossy(new);
    diff::lines(&left, &right).into_iter().map(|d| match d {
        diff::Result::Left(l) => DiffLine { tag: DiffTag::Left, text: l.as_bytes().to_vec() },
        diff::Result::Both(l, _) => DiffLine { tag: DiffTag::Both, text: l.as_bytes().to_vec() },
        diff::Result::Right(r) => DiffLine { tag: DiffTag::Right, text: r.as_bytes().to_vec() },
    }).collect()
}

/// The mark that a line of a diff is shown with: `-` for a line of the old
/// content alone, `+` for a line of the new content alone, a space for a line
/// of both.
pub open spec fn mark_of(tag: DiffTag) -> u8 {
    match tag {
        DiffTag::Left => '-' as u8,
        DiffTag::Both => ' ' as u8,
        DiffTag::Right => '+' as u8,
    }
}

/// A line of a diff as it is shown: its mark, then its text.
pub fn render_diff_line(line: &DiffLine) -> (r: Vec<u8>)
    ensures
        r@ == seq![mark_of(line.tag)] + line.text@,
{
    let mark: u8 = match line.tag {
        DiffTag::Left => '-' as u8,
        DiffTag::Both => ' ' as u8,
        DiffTag::Right => '+' as u8,
    };
    let mut out: Vec<u8> = vec![mark];
    proof {
        assert(out@ =~= seq![mark_of(line.tag)]);
    }
    crate::bytes::append(&mut out, line.text.as_slice());
    out
}

/// The diff of one file.
pub struct FileDiff {
    pub path: Vec<u8>,
    pub lines: Vec<DiffLine>,
}

impl FileDiff {
    /// Path and lines.
    pub open spec fn view(&self) -> (Seq<u8>, Seq<(DiffTag, Seq<u8>)>) {
        (self.path@, script_view(self.lines@))
    }
}

/// The views of a list of file diffs.
pub open spec fn diffs_view(diffs: Seq<FileDiff>) -> Seq<(Seq<u8>, Seq<(DiffTag, Seq<u8>)>)> {
    Seq::new(diffs.len(), |i: int| diffs[i]@)
}

/// The line diff of the file `file_path` between `old_content` and
/// `new_content`.
pub fn print_diff(file_path: &[u8], old_content: &[u8], new_content: &[u8]) -> (r: FileDiff)
    requires
        diffable(old_content@, new_content@),
    ensures
        r@ == (file_path@, diff_script(old_content@, new_content@)),
{
    let path = copy_range(file_path, 0, file_path.len());
    proof {
        assert(path@ =~= file_path@);
    }
    FileDiff { path, lines: line_diff(old_content, new_content) }
}

/// The line diff of a file, or nothing where the differ does not take the
/// contents.
pub fn try_print_diff(file_path: &[u8], old_content: &[u8], new_content: &[u8]) -> (r: Option<
    FileDiff,
>)
    ensures
        match r {
            Some(d) => diffable(old_content@, new_content@) && d@ == (
                file_path@,
                diff_script(old_content@, new_content@),
            ),
            None => !diffable(old_content@, new_content@),
        },
{
    if can_diff(old_content, new_content) {
        Some(print_diff(file_path, old_content, new_content))
    } else {
        None
    }
}

/// A path that differs between two maps `a` and `b` from path to hash, with
/// its hash in `a` and its hash in `b`.
pub type ChangeView = (Seq<u8>, Option<Seq<u8>>, Option<Seq<u8>>);

/// The changes among the first `n` entries of `a`: the paths that `b` lacks
/// or holds at another hash.
pub open spec fn changed_first(a: Pairs, b: Pairs, n: int) -> Seq<ChangeView>
    decreases n,
{
    if n <= 0 {
        Seq::empty()
    } else {
        let rest = changed_first(a, b, n - 1);
        match lookup(b, a[n - 1].0) {
            Some(h) => if h != a[n - 1].1 {
                rest.push((a[n - 1].0, Some(a[n - 1].1), Some(h)))
            } else {
                rest
            },
            None => rest.push((a[n - 1].0, Some(a[n - 1].1), None)),
        }
    }
}

/// The changes among the first `n` entries of `b`: the paths that `a` lacks.
pub open spec fn only_second(a: Pairs, b: Pairs, n: int) -> Seq<ChangeView>
    decreases n,
{
    if n <= 0 {
        Seq::empty()
    } else {
        let rest = only_second(a, b, n - 1);
        match lookup(a, b[n - 1].0) {
            Some(_) => rest,
            None => rest.push((b[n - 1].0, None, Some(b[n - 1].1))),
        }
    }
}

/// The paths that differ between `a` and `b`: those of `a` in the order of
/// `a`, then those that only `b` holds in the order of `b`.
pub open spec fn changes(a: Pairs, b: Pairs) -> Seq<ChangeView> {
    changed_first(a, b, a.len() as int) + only_second(a, b, b.len() as int)
}

/// The change at `path` between `a` and `b`: its two hashes where one of the
/// maps lacks the path or they hold it at different hashes.
pub open spec fn change_at(a: Pairs, b: Pairs, path: Seq<u8>) -> Option<ChangeView> {
    if lookup(a, path) == lookup(b, path) {
        None
    } else {
        Some((path, lookup(a, path), lookup(b, path)))
    }
}

proof fn lemma_changed_first(a: Pairs, b: Pairs, n: int)
    requires
        distinct_keys(a),
        0 <= n <= a.len(),
    ensures
        forall|c: ChangeView| #[trigger]
            changed_first(a, b, n).contains(c) <==> (change_at(a, b, c.0) == Some(c)
                && position(a, c.0) < n),
    decreases n,
{
    if n > 0 {
        lemma_changed_first(a, b, n - 1);
        lemma_lookup_entry(a, n - 1);
        let rest = changed_first(a, b, n - 1);
        let p = a[n - 1].0;
        let x = (p, Some(a[n - 1].1), lookup(b, p));
        assert forall|c: ChangeView| #[trigger]
            changed_first(a, b, n).contains(c) <==> (change_at(a, b, c.0) == Some(c)
                && position(a, c.0) < n) by {
            lemma_push_contains(rest, x, c);
            lemma_position(a, c.0);
            if position(a, c.0) == n - 1 {
                assert(c.0 == p);
            }
        }
    } else {
        assert forall|c: ChangeView| !(#[trigger] changed_first(a, b, n).contains(c)) by {}
        assert forall|c: ChangeView| position(a, c.0) >= 0 by {
            lemma_position(a, c.0);
        }
    }
}

proof fn lemma_only_second(a: Pairs, b: Pairs, n: int)
    requires
        distinct_keys(b),
        0 <= n <= b.len(),
    ensures
        forall|c: ChangeView| #[trigger]
            only_second(a, b, n).contains(c) <==> (change_at(a, b, c.0) == Some(c) && lookup(
                a,
                c.0,
            ) is None && position(b, c.0) < n),
    decreases n,
{
    if n > 0 {
        lemma_only_second(a, b, n - 1);
        lemma_lookup_entry(b, n - 1);
        let rest = only_second(a, b, n - 1);
        let p = b[n - 1].0;
        let x = (p, None::<Seq<u8>>, Some(b[n - 1].1));
        assert forall|c: ChangeView| #[trigger]
            only_second(a, b, n).contains(c) <==> (change_at(a, b, c.0) == Some(c) && lookup(
                a,
                c.0,
            ) is None && position(b, c.0) < n) by {
            lemma_push_contains(rest, x, c);
            lemma_position(b, c.0);
            if position(b, c.0) == n - 1 {
                assert(c.0 == p);
            }
        }
    } else {
        assert forall|c: ChangeView| !(#[trigger] only_second(a, b, n).contains(c)) by {}
        assert forall|c: ChangeView| position(b, c.0) >= 0 by {
            lemma_position(b, c.0);
        }
    }
}

/// The list of changes holds exactly the paths at which the two maps
/// differ, each with its two hashes.
pub proof fn lemma_changes_complete(a: Pairs, b: Pairs)
    requires
        distinct_keys(a),
        distinct_keys(b),
    ensures
        forall|c: ChangeView| #[trigger]
            changes(a, b).contains(c) <==> change_at(a, b, c.0) == Some(c),
{
    lemma_changed_first(a, b, a.len() as int);
    lemma_only_second(a, b, b.len() as int);
    let first = changed_first(a, b, a.len() as int);
    let second = only_second(a, b, b.len() as int);
    assert forall|c: ChangeView| #[trigger]
        changes(a, b).contains(c) <==> change_at(a, b, c.0) == Some(c) by {
        lemma_position(a, c.0);
        lemma_position(b, c.0);
        if first.contains(c) {
            let i = choose|i: int| 0 <= i < first.len() && first[i] == c;
            assert((first + second)[i] == c);
        }
        if second.contains(c) {
            let i = choose|i: int| 0 <= i < second.len() && second[i] == c;
            assert((first + second)[first.len() + i] == c);
        }
        if changes(a, b).contains(c) {
            let i = choose|i: int| 0 <= i < (first + second).len() && (first + second)[i] == c;
            if i < first.len() {
                assert(first[i] == c);
            } else {
                assert(second[i - first.len()] == c);
            }
        }
    }
}

/// Diffing in the other direction changes nothing but the direction: the
/// same paths differ, each with its two hashes exchanged, so that the differ
/// is handed the same two contents with old and new exchanged.
pub proof fn lemma_diff_symmetry(a: Pairs, b: Pairs)
    requires
        distinct_keys(a),
        distinct_keys(b),
    ensures
        forall|path: Seq<u8>, x: Option<Seq<u8>>, y: Option<Seq<u8>>|
            changes(a, b).contains((path, x, y)) <==> changes(b, a).contains((path, y, x)),
{
    lemma_changes_complete(a, b);
    lemma_changes_complete(b, a);
    assert forall|path: Seq<u8>, x: Option<Seq<u8>>, y: Option<Seq<u8>>|
        changes(a, b).contains((path, x, y)) <==> changes(b, a).contains((path, y, x)) by {
        let c = (path, x, y);
        let d = (path, y, x);
        assert(changes(a, b).contains(c) <==> change_at(a, b, c.0) == Some(c));
        assert(changes(b, a).contains(d) <==> change_at(b, a, d.0) == Some(d));
    }
}

/// A changed path with its two hashes.
pub struct Change {
    pub path: Vec<u8>,
    pub first: Option<Vec<u8>>,
    pub second: Option<Vec<u8>>,
}

impl Change {
    /// Path, hash on the first side, hash on the second side.
    pub open spec fn view(&self) -> ChangeView {
        (self.path@, crate::repo::file_view(self.first), crate::repo::file_view(self.second))
    }
}

/// The views of a list of changes.
pub open spec fn changes_view(l: Seq<Change>) -> Seq<ChangeView> {
    Seq::new(l.len(), |i: int| l[i]@)
}

fn copy_bytes(s: &Vec<u8>) -> (r: Vec<u8>)
    ensures
        r@ == s@,
{
    let r = copy_range(s.as_slice(), 0, s.len());
    proof {
        assert(r@ =~= s@);
    }
    r
}

/// Lists the paths that differ between `a` and `b`.
pub fn list_changes(a: &ByteMap, b: &ByteMap) -> (r: Vec<Change>)
    ensures
        changes_view(r@) == changes(a@, b@),
{
    let mut out: Vec<Change> = Vec::new();
    let mut i: usize = 0;
    proof {
        assert(changes_view(out@) =~= changed_first(a@, b@, 0));
    }
    while i < a.len()
        invariant
            i <= a@.len(),
            changes_view(out@) == changed_first(a@, b@, i as int),
        decreases a@.len() - i,
    {
        let ghost before = changes_view(out@);
        match b.get(a.key_at(i).as_slice()) {
            Some(h) => {
                if !bytes_eq(h.as_slice(), a.value_at(i).as_slice()) {
                    let c = Change {
                        path: copy_bytes(a.key_at(i)),
                        first: Some(copy_bytes(a.value_at(i))),
                        second: Some(copy_bytes(h)),
                    };
                    proof {
                        assert(changes_view(out@.push(c)) =~= before.push(c@));
                    }
                    out.push(c);
                }
            },
            None => {
                let c = Change {
                    path: copy_bytes(a.key_at(i)),
                    first: Some(copy_bytes(a.value_at(i))),
                    second: None,
                };
                proof {
                    assert(changes_view(out@.push(c)) =~= before.push(c@));
                }
                out.push(c);
            },
        }
        i += 1;
    }
    let ghost head = changes_view(out@);
    let mut j: usize = 0;
    proof {
        assert(head + only_second(a@, b@, 0) =~= head);
    }
    while j < b.len()
        invariant
            j <= b@.len(),
            head == changed_first(a@, b@, a@.len() as int),
            changes_view(out@) == head + only_second(a@, b@, j as int),
        decreases b@.len() - j,
    {
        let ghost before = changes_view(out@);
        if !a.contains_key(b.key_at(j).as_slice()) {
            let c = Change {
                path: copy_bytes(b.key_at(j)),
                first: None,
                second: Some(copy_bytes(b.value_at(j))),
            };
            proof {
                assert(changes_view(out@.push(c)) =~= before.push(c@));
                assert(before.push(c@) =~= head + only_second(a@, b@, j as int).push(c@));
            }
            out.push(c);
        }
        j += 1;
    }
    out
}

/// The content that stands on one side of a change: the payload of the blob,
/// or nothing where the side holds no such path.
pub open spec fn side_content(objects: Pairs, hash: Option<Seq<u8>>) -> Result<
    Seq<u8>,
    FitError,
> {
    match hash {
        Some(h) => spec_payload(objects, h),
        None => Ok(Seq::empty()),
    }
}

/// The diff of one change. The first side is the old one where `first_is_old`
/// holds, the new one otherwise. Fails as reading the first side, then the
/// second, fails; with `InvalidData` where the differ does not take the
/// contents.
pub open spec fn change_diff(objects: Pairs, c: ChangeView, first_is_old: bool) -> Result<
    (Seq<u8>, Seq<(DiffTag, Seq<u8>)>),
    FitError,
> {
    match side_content(objects, c.1) {
        Err(e) => Err(e),
        Ok(first) => match side_content(objects, c.2) {
            Err(e) => Err(e),
            Ok(second) => {
                let old = if first_is_old {
                    first
                } else {
                    second
                };
                let new = if first_is_old {
                    second
                } else {
                    first
                };
                if diffable(old, new) {
                    Ok((c.0, diff_script(old, new)))
                } else {
                    Err(FitError::InvalidData)
                }
            },
        },
    }
}

/// The diffs of the first `n` changes, in order; the failure of the first
/// change whose diff fails.
pub open spec fn change_diffs(objects: Pairs, l: Seq<ChangeView>, first_is_old: bool, n: int)
    -> Result<Seq<(Seq<u8>, Seq<(DiffTag, Seq<u8>)>)>, FitError>
    decreases n,
{
    if n <= 0 {
        Ok(Seq::empty())
    } else {
        match change_diffs(objects, l, first_is_old, n - 1) {
            Err(e) => Err(e),
            Ok(done) => match change_diff(objects, l[n - 1], first_is_old) {
                Err(e) => Err(e),
                Ok(d) => Ok(done.push(d)),
            },
        }
    }
}

proof fn lemma_diffs_error_extends(
    objects: Pairs,
    l: Seq<ChangeView>,
    first_is_old: bool,
    n: int,
    m: int,
)
    requires
        0 <= n <= m,
        change_diffs(objects, l, first_is_old, n) is Err,
    ensures
        change_diffs(objects, l, first_is_old, m) == change_diffs(objects, l, first_is_old, n),
    decreases m - n,
{
    if n < m {
        lemma_diffs_error_extends(objects, l, first_is_old, n, m - 1);
    }
}

/// The diffs between two maps from path to hash.
pub open spec fn spec_diff_maps(objects: Pairs, a: Pairs, b: Pairs, first_is_old: bool)
    -> Result<Seq<(Seq<u8>, Seq<(DiffTag, Seq<u8>)>)>, FitError> {
    change_diffs(objects, changes(a, b), first_is_old, changes(a, b).len() as int)
}

/// The view of a list of file diffs or an error.
pub open spec fn diff_result_view(r: Result<Vec<FileDiff>, FitError>) -> Result<
    Seq<(Seq<u8>, Seq<(DiffTag, Seq<u8>)>)>,
    FitError,
> {
    match r {
        Ok(l) => Ok(diffs_view(l@)),
        Err(e) => Err(e),
    }
}

fn read_side(objects: &ByteMap, hash: &Option<Vec<u8>>) -> (r: Result<Vec<u8>, FitError>)
    ensures
        crate::tree::bytes_view(r) == side_content(objects@, crate::repo::file_view(*hash)),
{
    match hash {
        Some(h) => read_payload(objects, h.as_slice()),
        None => Ok(Vec::new()),
    }
}

/// Diffs every path that differs between `a` and `b`.
pub fn diff_maps(objects: &ByteMap, a: &ByteMap, b: &ByteMap, first_is_old: bool) -> (r: Result<
    Vec<FileDiff>,
    FitError,
>)
    ensures
        diff_result_view(r) == spec_diff_maps(objects@, a@, b@, first_is_old),
{
    let list = list_changes(a, b);
    let mut out: Vec<FileDiff> = Vec::new();
    let mut i: usize = 0;
    proof {
        assert(diffs_view(out@) =~= Seq::<(Seq<u8>, Seq<(DiffTag, Seq<u8>)>)>::empty());
    }
    while i < list.len()
        invariant
            i <= list@.len(),
            changes_view(list@) == changes(a@, b@),
            change_diffs(objects@, changes(a@, b@), first_is_old, i as int) == Ok::<
                Seq<(Seq<u8>, Seq<(DiffTag, Seq<u8>)>)>,
                FitError,
            >(diffs_view(out@)),
        decreases list@.len() - i,
    {
        proof {
            assert(changes_view(list@)[i as int] == list@[i as int]@);
            assert(changes_view(list@).len() == list@.len());
        }
        let first = match read_side(objects, &list[i].first) {
            Err(e) => {
                proof {
                    lemma_diffs_error_extends(
                        objects@,
                        changes(a@, b@),
                        first_is_old,
                        i + 1,
                        list@.len() as int,
                    );
                }
                return Err(e);
            },
            Ok(c) => c,
        };
        let second = match read_side(objects, &list[i].second) {
            Err(e) => {
                proof {
                    lemma_diffs_error_extends(
                        objects@,
                        changes(a@, b@),
                        first_is_old,
                        i + 1,
                        list@.len() as int,
                    );
                }
                return Err(e);
            },
            Ok(c) => c,
        };
        let d = if first_is_old {
            try_print_diff(list[i].path.as_slice(), first.as_slice(), second.as_slice())
        } else {
            try_print_diff(list[i].path.as_slice(), second.as_slice(), first.as_slice())
        };
        match d {
            None => {
                proof {
                    lemma_diffs_error_extends(
                        objects@,
                        changes(a@, b@),
                        first_is_old,
                        i + 1,
                        list@.len() as int,
                    );
                }
                return Err(FitError::InvalidData);
            },
            Some(d) => {
                proof {
                    assert(diffs_view(out@.push(d)) =~= diffs_view(out@).push(d@));
                }
                out.push(d);
            },
        }
        i += 1;
    }
    Ok(out)
}

/// The files of the tree of the commit under `commit`.
pub open spec fn spec_commit_files(objects: Pairs, commit: Seq<u8>) -> Result<Pairs, FitError> {
    match spec_commit_tree(objects, commit) {
        Err(e) => Err(e),
        Ok(tree) => spec_tree_files(objects, tree),
    }
}

/// Reads the files of the tree of the commit under `commit`.
pub fn get_commit_files(objects: &ByteMap, commit: &[u8]) -> (r: Result<ByteMap, FitError>)
    ensures
        crate::index::result_view(r) == spec_commit_files(objects@, commit@),
        r matches Ok(m) ==> m.wf(),
{
    match get_commit_tree(objects, commit) {
        Err(e) => Err(e),
        Ok(tree) => get_tree_files(objects, tree.as_slice()),
    }
}

/// The diffs from commit `commit1` to commit `commit2`: one for each path
/// that one of the two trees lacks or that they hold at different hashes.
/// Fails as reading the two trees fails, the tree of `commit1` first, then
/// that of `commit2`, then as a diff fails.
pub open spec fn spec_diff_commits(objects: Pairs, commit1: Seq<u8>, commit2: Seq<u8>) -> Result<
    Seq<(Seq<u8>, Seq<(DiffTag, Seq<u8>)>)>,
    FitError,
> {
    match spec_commit_tree(objects, commit1) {
        Err(e) => Err(e),
        Ok(tree1) => match spec_commit_tree(objects, commit2) {
            Err(e) => Err(e),
            Ok(tree2) => match spec_tree_files(objects, tree1) {
                Err(e) => Err(e),
                Ok(files1) => match spec_tree_files(objects, tree2) {
                    Err(e) => Err(e),
                    Ok(files2) => spec_diff_maps(objects, files1, files2, true),
                },
            },
        },
    }
}

/// Diffs commit `commit1` against commit `commit2`.
pub fn diff_commits(objects: &ByteMap, commit1: &[u8], commit2: &[u8]) -> (r: Result<
    Vec<FileDiff>,
    FitError,
>)
    ensures
        diff_result_view(r) == spec_diff_commits(objects@, commit1@, commit2@),
{
    let tree1 = match get_commit_tree(objects, commit1) {
        Err(e) => { return Err(e); },
        Ok(t) => t,
    };
    let tree2 = match get_commit_tree(objects, commit2) {
        Err(e) => { return Err(e); },
        Ok(t) => t,
    };
    let files1 = match get_tree_files(objects, tree1.as_slice()) {
        Err(e) => { return Err(e); },
        Ok(m) => m,
    };
    let files2 = match get_tree_files(objects, tree2.as_slice()) {
        Err(e) => { return Err(e); },
        Ok(m) => m,
    };
    diff_maps(objects, &files1, &files2, true)
}

/// The diffs from the current commit to the index: one for each path of the
/// index that the commit lacks or holds at another hash, then one for each
/// path that only the commit holds.
pub open spec fn spec_diff_staged(v: RepoView) -> Result<
    Seq<(Seq<u8>, Seq<(DiffTag, Seq<u8>)>)>,
    FitError,
> {
    match spec_read_index(v.index) {
        Err(e) => Err(e),
        Ok(index) => match spec_current_commit(v) {
            Err(e) => Err(e),
            Ok(current) => match spec_commit_files(v.objects, current) {
                Err(e) => Err(e),
                Ok(files) => spec_diff_maps(v.objects, index, files, false),
            },
        },
    }
}

/// Diffs the current commit against the index.
pub fn diff_staged_vs_latest(repo: &Repository) -> (r: Result<Vec<FileDiff>, FitError>)
    ensures
        diff_result_view(r) == spec_diff_staged(repo@),
{
    let index = match read_index(repo) {
        Err(e) => { return Err(e); },
        Ok(m) => m,
    };
    let current = match get_current_commit(repo) {
        Err(e) => { return Err(e); },
        Ok(c) => c,
    };
    let files = match get_commit_files(&repo.objects, current.as_slice()) {
        Err(e) => { return Err(e); },
        Ok(m) => m,
    };
    diff_maps(&repo.objects, &index, &files, false)
}

/// The view of the two commits that `diff` may be given.
pub open spec fn pair_view(commits: Option<(&[u8], &[u8])>) -> Option<(Seq<u8>, Seq<u8>)> {
    match commits {
        Some((a, b)) => Some((a@, b@)),
        None => None,
    }
}

/// What `diff` shows: the diffs between the two commits where two are given,
/// those between the current commit and the index otherwise.
pub open spec fn spec_diff(v: RepoView, commits: Option<(Seq<u8>, Seq<u8>)>) -> Result<
    Seq<(Seq<u8>, Seq<(DiffTag, Seq<u8>)>)>,
    FitError,
> {
    match commits {
        Some((a, b)) => spec_diff_commits(v.objects, a, b),
        None => spec_diff_staged(v),
    }
}

/// Runs the `diff` command.
pub fn diff_workflow(repo: &Repository, commits: Option<(&[u8], &[u8])>) -> (r: Result<
    Vec<FileDiff>,
    FitError,
>)
    ensures
        diff_result_view(r) == spec_diff(repo@, pair_view(commits)),
{
    match commits {
        Some((a, b)) => diff_commits(&repo.objects, a, b),
        None => diff_staged_vs_latest(repo),
    }
}

} // verus!
