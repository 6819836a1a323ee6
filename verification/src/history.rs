//! Walking the chain of parents: the log, the ancestry of a commit and the
//! merge base of two.

use vstd::prelude::*;
use crate::bytemap::{ByteMap, Pairs};
use crate::bytes::{bytes_eq, copy_range, is_token, spec_is_space};
use crate::commit::{
    blank_from, commit_info, commit_text, get_parent_commit, parent_in, parent_word_sp,
    spec_parent, spec_split_commit, split_commit, tree_word_sp,
};
use crate::error::FitError;
use crate::materialize::list_view;
use crate::object::{read_object, spec_get};
use crate::refs::{get_current_commit, spec_current_commit};
use crate::repo::{RepoView, Repository};
use crate::text::{spec_lines, spec_trim, trim, views};
use crate::text_laws::{lemma_lines_append, lemma_lines_cons, lemma_token_one_line, one_line};
use crate::tree::{bytes_view, read_payload, spec_payload};

verus! {

/// The header lines of a commit payload: what stands before its first empty
/// line, or all of it where it has none.
pub open spec fn header_of(payload: Seq<u8>) -> Seq<u8> {
    match spec_split_commit(payload) {
        Some(parts) => parts.0,
        None => payload,
    }
}

/// The header lines of a commit payload.
pub fn header_of_payload(payload: &[u8]) -> (r: Vec<u8>)
    ensures
        r@ == header_of(payload@),
{
    match split_commit(payload) {
        Some(parts) => parts.0,
        None => {
            let r = copy_range(payload, 0, payload.len());
            proof {
                assert(r@ =~= payload@);
            }
            r
        },
    }
}

/// The chain of commits from `hash` along the parent headers, `hash` first.
///
/// The chain ends at a commit that names no parent. A commit that the store
/// does not hold gives `NotFound`. `fuel` bounds the length of the chain: a
/// chain that is longer gives `InvalidData`.
pub open spec fn ancestry(objects: Pairs, hash: Seq<u8>, fuel: nat) -> Result<
    Seq<Seq<u8>>,
    FitError,
>
    decreases fuel,
{
    if hash.len() == 0 {
        Ok(Seq::empty())
    } else {
        match spec_payload(objects, hash) {
            Err(e) => Err(e),
            Ok(p) => if fuel == 0 {
                Err(FitError::InvalidData)
            } else {
                match ancestry(objects, spec_parent(header_of(p)), (fuel - 1) as nat) {
                    Err(e) => Err(e),
                    Ok(rest) => Ok(seq![hash] + rest),
                }
            },
        }
    }
}

/// The ancestry of `hash` in a store: a chain of more commits than the store
/// holds objects repeats a commit and so never ends; it is `InvalidData`.
pub open spec fn spec_history(objects: Pairs, hash: Seq<u8>) -> Result<Seq<Seq<u8>>, FitError> {
    ancestry(objects, hash, objects.len())
}

/// `rest` with `done` before it.
pub open spec fn after(done: Seq<Seq<u8>>, rest: Result<Seq<Seq<u8>>, FitError>) -> Result<
    Seq<Seq<u8>>,
    FitError,
> {
    match rest {
        Ok(r) => Ok(done + r),
        Err(e) => Err(e),
    }
}

/// What a finished ancestry holds: it starts at `hash`, each commit is
/// followed by the parent that its header names, the last one names no
/// parent, and it is no longer than `fuel`.
pub proof fn lemma_ancestry_chain(objects: Pairs, hash: Seq<u8>, fuel: nat)
    requires
        ancestry(objects, hash, fuel) is Ok,
    ensures
        ({
            let h = ancestry(objects, hash, fuel)->Ok_0;
            &&& h.len() <= fuel
            &&& (hash.len() == 0 <==> h.len() == 0)
            &&& h.len() > 0 ==> h[0] == hash
            &&& forall|i: int|
                0 <= i < h.len() ==> (#[trigger] h[i]).len() > 0 && spec_payload(objects, h[i])
                    is Ok
            &&& forall|i: int|
                0 <= i < h.len() - 1 ==> h[i + 1] == spec_parent(
                    header_of(spec_payload(objects, #[trigger] h[i])->Ok_0),
                )
            &&& h.len() > 0 ==> spec_parent(
                header_of(spec_payload(objects, h.last())->Ok_0),
            ).len() == 0
        }),
    decreases fuel,
{
    if hash.len() != 0 {
        let p = spec_payload(objects, hash)->Ok_0;
        let next = spec_parent(header_of(p));
        lemma_ancestry_chain(objects, next, (fuel - 1) as nat);
        let rest = ancestry(objects, next, (fuel - 1) as nat)->Ok_0;
        let h = ancestry(objects, hash, fuel)->Ok_0;
        assert(h =~= seq![hash] + rest);
        assert forall|i: int| 0 <= i < h.len() implies (#[trigger] h[i]).len() > 0
            && spec_payload(objects, h[i]) is Ok by {
            if i > 0 {
                assert(h[i] == rest[i - 1]);
            }
        }
        assert forall|i: int| 0 <= i < h.len() - 1 implies h[i + 1] == spec_parent(
            header_of(spec_payload(objects, #[trigger] h[i])->Ok_0),
        ) by {
            if i > 0 {
                assert(h[i] == rest[i - 1]);
                assert(h[i + 1] == rest[i]);
            } else {
                if rest.len() > 0 {
                    assert(h[1] == rest[0]);
                }
            }
        }
        if rest.len() > 0 {
            assert(h.last() == rest.last());
        }
    }
}

/// Reads the ancestry of `commit`: the commit, its parent, and so on to the
/// commit that names no parent.
pub fn get_commit_history(objects: &ByteMap, commit: &[u8]) -> (r: Result<
    Vec<Vec<u8>>,
    FitError,
>)
    ensures
        list_view(r) == spec_history(objects@, commit@),
{
    let mut history: Vec<Vec<u8>> = Vec::new();
    let mut current = copy_range(commit, 0, commit.len());
    let mut fuel: usize = objects.len();
    proof {
        assert(current@ =~= commit@);
        assert(views(history@) =~= Seq::<Seq<u8>>::empty());
        let rest = ancestry(objects@, current@, fuel as nat);
        if rest is Ok {
            assert(views(history@) + rest->Ok_0 =~= rest->Ok_0);
        }
    }
    while current.len() != 0
        invariant
            spec_history(objects@, commit@) == after(
                views(history@),
                ancestry(objects@, current@, fuel as nat),
            ),
        decreases fuel,
    {
        let payload = match read_payload(objects, current.as_slice()) {
            Err(e) => { return Err(e); },
            Ok(p) => p,
        };
        if fuel == 0 {
            return Err(FitError::InvalidData);
        }
        let header = header_of_payload(payload.as_slice());
        let next = get_parent_commit(header.as_slice());
        proof {
            let done = views(history@);
            let rest = ancestry(objects@, next@, (fuel - 1) as nat);
            assert(views(history@.push(current)) =~= done.push(current@));
            if rest is Ok {
                assert(done.push(current@) + rest->Ok_0 =~= done + (seq![current@] + rest->Ok_0));
            }
        }
        history.push(current);
        current = next;
        fuel = fuel - 1;
    }
    proof {
        assert(views(history@) + Seq::<Seq<u8>>::empty() =~= views(history@));
    }
    Ok(history)
}

/// The first commit of `theirs` from position `i` on that `ours` holds.
pub open spec fn first_common(ours: Seq<Seq<u8>>, theirs: Seq<Seq<u8>>, i: int) -> Option<
    Seq<u8>,
>
    decreases theirs.len() - i,
{
    if i < 0 || i >= theirs.len() {
        None
    } else if ours.contains(theirs[i]) {
        Some(theirs[i])
    } else {
        first_common(ours, theirs, i + 1)
    }
}

/// The merge base of two commits: the first commit of the ancestry of
/// `branch_commit` that the ancestry of `current_commit` holds. `NotFound`
/// where there is none; the failure of an ancestry otherwise, that of
/// `current_commit` first.
pub open spec fn spec_merge_base(
    objects: Pairs,
    current_commit: Seq<u8>,
    branch_commit: Seq<u8>,
) -> Result<Seq<u8>, FitError> {
    match spec_history(objects, current_commit) {
        Err(e) => Err(e),
        Ok(ours) => match spec_history(objects, branch_commit) {
            Err(e) => Err(e),
            Ok(theirs) => match first_common(ours, theirs, 0) {
                None => Err(FitError::NotFound),
                Some(c) => Ok(c),
            },
        },
    }
}

/// A finished ancestry does not depend on the bound, as long as the bound
/// is no smaller than its length.
pub proof fn lemma_ancestry_fuel(objects: Pairs, hash: Seq<u8>, fuel: nat, other: nat)
    requires
        ancestry(objects, hash, fuel) is Ok,
        other >= ancestry(objects, hash, fuel)->Ok_0.len(),
    ensures
        ancestry(objects, hash, other) == ancestry(objects, hash, fuel),
    decreases fuel,
{
    if hash.len() != 0 {
        let p = spec_payload(objects, hash)->Ok_0;
        let next = spec_parent(header_of(p));
        let rest = ancestry(objects, next, (fuel - 1) as nat)->Ok_0;
        assert(ancestry(objects, hash, fuel)->Ok_0 =~= seq![hash] + rest);
        lemma_ancestry_fuel(objects, next, (fuel - 1) as nat, (other - 1) as nat);
    }
}

/// The ancestry of a commit that stands in an ancestry is the rest of that
/// ancestry.
pub proof fn lemma_ancestry_suffix(objects: Pairs, hash: Seq<u8>, fuel: nat, i: int)
    requires
        ancestry(objects, hash, fuel) is Ok,
        0 <= i < ancestry(objects, hash, fuel)->Ok_0.len(),
    ensures
        ({
            let h = ancestry(objects, hash, fuel)->Ok_0;
            ancestry(objects, h[i], fuel) == Ok::<Seq<Seq<u8>>, FitError>(
                h.subrange(i, h.len() as int),
            )
        }),
    decreases fuel,
{
    let h = ancestry(objects, hash, fuel)->Ok_0;
    lemma_ancestry_chain(objects, hash, fuel);
    if i == 0 {
        assert(h.subrange(0, h.len() as int) =~= h);
    } else {
        let p = spec_payload(objects, hash)->Ok_0;
        let next = spec_parent(header_of(p));
        let rest = ancestry(objects, next, (fuel - 1) as nat)->Ok_0;
        assert(h =~= seq![hash] + rest);
        lemma_ancestry_suffix(objects, next, (fuel - 1) as nat, i - 1);
        assert(rest[i - 1] == h[i]);
        assert(rest.subrange(i - 1, rest.len() as int) =~= h.subrange(i, h.len() as int));
        lemma_ancestry_chain(objects, next, (fuel - 1) as nat);
        lemma_ancestry_fuel(objects, h[i], (fuel - 1) as nat, fuel);
    }
}

/// No commit stands twice in a finished ancestry.
pub proof fn lemma_ancestry_distinct(objects: Pairs, hash: Seq<u8>, fuel: nat, i: int, j: int)
    requires
        ancestry(objects, hash, fuel) is Ok,
        0 <= i < j < ancestry(objects, hash, fuel)->Ok_0.len(),
    ensures
        ancestry(objects, hash, fuel)->Ok_0[i] != ancestry(objects, hash, fuel)->Ok_0[j],
{
    let h = ancestry(objects, hash, fuel)->Ok_0;
    lemma_ancestry_suffix(objects, hash, fuel, i);
    lemma_ancestry_suffix(objects, hash, fuel, j);
    if h[i] == h[j] {
        assert(h.subrange(i, h.len() as int).len() == h.subrange(j, h.len() as int).len());
    }
}

proof fn lemma_first_common_at(ours: Seq<Seq<u8>>, theirs: Seq<Seq<u8>>, i: int, k: int)
    requires
        0 <= i <= k < theirs.len(),
        forall|j: int| i <= j < k ==> !ours.contains(#[trigger] theirs[j]),
        ours.contains(theirs[k]),
    ensures
        first_common(ours, theirs, i) == Some(theirs[k]),
    decreases k - i,
{
    if i < k {
        assert(!ours.contains(theirs[i]));
        lemma_first_common_at(ours, theirs, i + 1, k);
    }
}

/// Where the ancestry of `theirs` holds `ours`, the merge base of the two
/// is `ours`.
pub proof fn lemma_merge_base_of_descendant(objects: Pairs, ours: Seq<u8>, theirs: Seq<u8>)
    requires
        spec_history(objects, theirs) is Ok,
        spec_history(objects, theirs)->Ok_0.contains(ours),
    ensures
        spec_history(objects, ours) is Ok,
        spec_merge_base(objects, ours, theirs) == Ok::<Seq<u8>, FitError>(ours),
{
    let fuel = objects.len();
    let h = spec_history(objects, theirs)->Ok_0;
    let k = choose|k: int| 0 <= k < h.len() && h[k] == ours;
    lemma_ancestry_suffix(objects, theirs, fuel, k);
    let mine = h.subrange(k, h.len() as int);
    assert(spec_history(objects, ours) == Ok::<Seq<Seq<u8>>, FitError>(mine));
    assert(mine[0] == ours);
    assert forall|j: int| 0 <= j < k implies !mine.contains(#[trigger] h[j]) by {
        if mine.contains(h[j]) {
            let m = choose|m: int| 0 <= m < mine.len() && mine[m] == h[j];
            assert(mine[m] == h[k + m]);
            lemma_ancestry_distinct(objects, theirs, fuel, j, k + m);
        }
    }
    lemma_first_common_at(mine, h, 0, k);
}

proof fn lemma_blank_from_is(s: Seq<u8>, i: int, e: int)
    requires
        0 <= i <= e,
        e + 1 < s.len(),
        s[e] == 10u8,
        s[e + 1] == 10u8,
        forall|k: int| i <= k < e ==> !(s[k] == 10u8 && #[trigger] s[k + 1] == 10u8),
    ensures
        blank_from(s, i) == e,
    decreases e - i,
{
    if i < e {
        assert(!(s[i] == 10u8 && s[i + 1] == 10u8));
        lemma_blank_from_is(s, i + 1, e);
    }
}

/// The parent that a commit names is the parent it was made with; a commit
/// made without a parent names none.
pub proof fn lemma_parent_of_commit(tree: Seq<u8>, parent: Option<Seq<u8>>, message: Seq<u8>)
    requires
        is_token(tree),
        parent matches Some(p) ==> is_token(p),
    ensures
        spec_parent(header_of(commit_text(tree, parent, message))) == (match parent {
            Some(p) => p,
            None => Seq::empty(),
        }),
{
    let first = tree_word_sp() + tree;
    let info = commit_info(tree, parent);
    let text = commit_text(tree, parent, message);
    let e = info.len() as int;
    lemma_token_one_line(tree);
    assert(one_line(first)) by {
        assert forall|k: int| 0 <= k < first.len() implies #[trigger] first[k] != 10u8 by {
            if k >= 5 {
                assert(first[k] == tree[k - 5]);
            }
        }
    }
    assert(first[first.len() - 1] == tree[tree.len() - 1]);
    assert(!spec_is_space(tree[tree.len() - 1]));
    assert(text[e] == 10u8 && text[e + 1] == 10u8);
    match parent {
        None => {
            assert forall|k: int| 0 <= k < e implies !(text[k] == 10u8 && #[trigger] text[k + 1]
                == 10u8) by {
                assert(text[k] == first[k]);
            }
            lemma_blank_from_is(text, 0, e);
            assert(text.subrange(0, e) =~= first);
            lemma_lines_append(Seq::empty(), first);
            assert(Seq::<u8>::empty() + first =~= first);
            assert(spec_lines(Seq::empty()) =~= Seq::<Seq<u8>>::empty());
            let lines = spec_lines(first);
            assert(lines =~= seq![first]);
            assert(!parent_word_sp().is_prefix_of(first)) by {
                if parent_word_sp().is_prefix_of(first) {
                    assert(first.subrange(0, 7)[0] == parent_word_sp()[0]);
                }
            }
            assert(parent_in(lines, 1) =~= Seq::<u8>::empty());
        },
        Some(p) => {
            let second = parent_word_sp() + p;
            lemma_token_one_line(p);
            assert(info =~= first + seq![10u8] + second);
            assert forall|k: int| 0 <= k < e implies !(text[k] == 10u8 && #[trigger] text[k + 1]
                == 10u8) by {
                if k < first.len() {
                    assert(text[k] == first[k]);
                } else if k == first.len() {
                    assert(text[k + 1] == second[0]);
                } else {
                    assert(text[k] == second[k - first.len() - 1]);
                    if k - first.len() - 1 >= 7 {
                        assert(second[k - first.len() - 1] == p[k - first.len() - 8]);
                    }
                }
            }
            lemma_blank_from_is(text, 0, e);
            assert(text.subrange(0, e) =~= info);
            assert(one_line(second)) by {
                assert forall|k: int| 0 <= k < second.len() implies #[trigger] second[k]
                    != 10u8 by {
                    if k >= 7 {
                        assert(second[k] == p[k - 7]);
                    }
                }
            }
            assert(second[second.len() - 1] == p[p.len() - 1]);
            assert(!spec_is_space(p[p.len() - 1]));
            lemma_lines_cons(first, second);
            lemma_lines_append(Seq::empty(), second);
            assert(Seq::<u8>::empty() + second =~= second);
            assert(spec_lines(Seq::empty()) =~= Seq::<Seq<u8>>::empty());
            let lines = spec_lines(info);
            assert(lines =~= seq![first, second]);
            assert(!parent_word_sp().is_prefix_of(first)) by {
                if parent_word_sp().is_prefix_of(first) {
                    assert(first.subrange(0, 7)[0] == parent_word_sp()[0]);
                }
            }
            assert(parent_word_sp().is_prefix_of(second)) by {
                assert(second.subrange(0, 7) =~= parent_word_sp());
            }
            assert(second.subrange(7, second.len() as int) =~= p);
            assert(parent_in(lines, 1) == p);
        },
    }
}

/// The commit chain grows by one commit at a time: the ancestry of a commit
/// that was made without a parent is the commit alone, and the ancestry of a
/// commit that was made on a parent is the commit followed by the ancestry
/// of the parent. A chain built in this way ends at a commit without a
/// parent after as many steps as commits were made.
pub proof fn lemma_history_of_commit(
    objects: Pairs,
    hash: Seq<u8>,
    tree: Seq<u8>,
    parent: Option<Seq<u8>>,
    message: Seq<u8>,
)
    requires
        hash.len() > 0,
        is_token(tree),
        parent matches Some(p) ==> is_token(p),
        spec_payload(objects, hash) == Ok::<Seq<u8>, FitError>(commit_text(tree, parent, message)),
        parent matches Some(p) ==> spec_history(objects, p) is Ok && spec_history(
            objects,
            p,
        )->Ok_0.len() < objects.len(),
        objects.len() > 0,
    ensures
        spec_history(objects, hash) == Ok::<Seq<Seq<u8>>, FitError>(
            match parent {
                Some(p) => seq![hash] + spec_history(objects, p)->Ok_0,
                None => seq![hash],
            },
        ),
{
    lemma_parent_of_commit(tree, parent, message);
    let fuel = objects.len();
    match parent {
        Some(p) => {
            lemma_ancestry_fuel(objects, p, fuel, (fuel - 1) as nat);
            let payload = spec_payload(objects, hash)->Ok_0;
            assert(spec_parent(header_of(payload)) == p);
            assert(ancestry(objects, p, (fuel - 1) as nat) == spec_history(objects, p));
        },
        None => {
            let payload = spec_payload(objects, hash)->Ok_0;
            assert(spec_parent(header_of(payload)).len() == 0);
            assert(ancestry(objects, spec_parent(header_of(payload)), (fuel - 1) as nat)
                == Ok::<Seq<Seq<u8>>, FitError>(Seq::empty()));
            assert(seq![hash] + Seq::<Seq<u8>>::empty() =~= seq![hash]);
        },
    }
}

/// True when `list` holds `x`.
pub fn list_contains(list: &Vec<Vec<u8>>, x: &[u8]) -> (r: bool)
    ensures
        r == views(list@).contains(x@),
{
    let mut i: usize = 0;
    while i < list.len()
        invariant
            i <= list@.len(),
            forall|j: int| 0 <= j < i ==> views(list@)[j] != x@,
        decreases list@.len() - i,
    {
        if bytes_eq(list[i].as_slice(), x) {
            proof {
                assert(views(list@)[i as int] == x@);
            }
            return true;
        }
        i += 1;
    }
    false
}

/// Finds the merge base of `current_commit` and `branch_commit`.
pub fn find_merge_base(objects: &ByteMap, current_commit: &[u8], branch_commit: &[u8]) -> (r:
    Result<Vec<u8>, FitError>)
    ensures
        bytes_view(r) == spec_merge_base(objects@, current_commit@, branch_commit@),
{
    let ours = match get_commit_history(objects, current_commit) {
        Err(e) => { return Err(e); },
        Ok(h) => h,
    };
    let theirs = match get_commit_history(objects, branch_commit) {
        Err(e) => { return Err(e); },
        Ok(h) => h,
    };
    let mut i: usize = 0;
    while i < theirs.len()
        invariant
            i <= theirs@.len(),
            spec_history(objects@, current_commit@) == Ok::<Seq<Seq<u8>>, FitError>(views(ours@)),
            spec_history(objects@, branch_commit@) == Ok::<Seq<Seq<u8>>, FitError>(
                views(theirs@),
            ),
            first_common(views(ours@), views(theirs@), 0) == first_common(
                views(ours@),
                views(theirs@),
                i as int,
            ),
        decreases theirs@.len() - i,
    {
        proof {
            assert(views(theirs@)[i as int] == theirs@[i as int]@);
        }
        if list_contains(&ours, theirs[i].as_slice()) {
            let c = copy_range(theirs[i].as_slice(), 0, theirs[i].len());
            proof {
                assert(c@ =~= views(theirs@)[i as int]);
            }
            return Ok(c);
        }
        i += 1;
    }
    Err(FitError::NotFound)
}

/// One commit of the log.
pub struct LogEntry {
    /// The hash of the commit.
    pub hash: Vec<u8>,
    /// Its header lines.
    pub info: Vec<u8>,
    /// Its message, without white space around it.
    pub message: Vec<u8>,
}

impl LogEntry {
    /// Hash, header lines and message.
    pub open spec fn view(&self) -> (Seq<u8>, Seq<u8>, Seq<u8>) {
        (self.hash@, self.info@, self.message@)
    }
}

/// The views of a list of log entries.
pub open spec fn entry_views(l: Seq<LogEntry>) -> Seq<(Seq<u8>, Seq<u8>, Seq<u8>)> {
    Seq::new(l.len(), |i: int| l[i]@)
}

/// The log from `hash` on: one entry for each commit along the parent
/// headers, until a commit names no parent or the store does not hold the
/// commit named. A commit without an empty line after its header, and a
/// chain longer than `fuel`, give `InvalidData`.
pub open spec fn log_from(objects: Pairs, hash: Seq<u8>, fuel: nat) -> Result<
    Seq<(Seq<u8>, Seq<u8>, Seq<u8>)>,
    FitError,
>
    decreases fuel,
{
    if hash.len() == 0 {
        Ok(Seq::empty())
    } else {
        match spec_get(objects, hash) {
            Err(e) => Err(e),
            Ok(None) => Ok(Seq::empty()),
            Ok(Some(o)) => match spec_split_commit(o.1) {
                None => Err(FitError::InvalidData),
                Some(parts) => if fuel == 0 {
                    Err(FitError::InvalidData)
                } else {
                    match log_from(objects, spec_parent(parts.0), (fuel - 1) as nat) {
                        Err(e) => Err(e),
                        Ok(rest) => Ok(seq![(hash, parts.0, spec_trim(parts.1))] + rest),
                    }
                },
            },
        }
    }
}

/// The log of the repository: from the current commit on, newest first.
pub open spec fn spec_log(v: RepoView) -> Result<Seq<(Seq<u8>, Seq<u8>, Seq<u8>)>, FitError> {
    match spec_current_commit(v) {
        Err(e) => Err(e),
        Ok(c) => log_from(v.objects, c, v.objects.len()),
    }
}

/// `rest` with `done` before it.
pub open spec fn log_after(
    done: Seq<(Seq<u8>, Seq<u8>, Seq<u8>)>,
    rest: Result<Seq<(Seq<u8>, Seq<u8>, Seq<u8>)>, FitError>,
) -> Result<Seq<(Seq<u8>, Seq<u8>, Seq<u8>)>, FitError> {
    match rest {
        Ok(r) => Ok(done + r),
        Err(e) => Err(e),
    }
}

/// The view of a log or an error.
pub open spec fn log_view(r: Result<Vec<LogEntry>, FitError>) -> Result<
    Seq<(Seq<u8>, Seq<u8>, Seq<u8>)>,
    FitError,
> {
    match r {
        Ok(l) => Ok(entry_views(l@)),
        Err(e) => Err(e),
    }
}

/// Lists the commits from the current one back to the first.
pub fn log_workflow(repo: &Repository) -> (r: Result<Vec<LogEntry>, FitError>)
    ensures
        log_view(r) == spec_log(repo@),
{
    let mut current = match get_current_commit(repo) {
        Err(e) => { return Err(e); },
        Ok(c) => c,
    };
    let mut log: Vec<LogEntry> = Vec::new();
    let mut fuel: usize = repo.objects.len();
    proof {
        let rest = log_from(repo@.objects, current@, fuel as nat);
        assert(entry_views(log@) =~= Seq::<(Seq<u8>, Seq<u8>, Seq<u8>)>::empty());
        if rest is Ok {
            assert(entry_views(log@) + rest->Ok_0 =~= rest->Ok_0);
        }
    }
    while current.len() != 0
        invariant
            spec_log(repo@) == log_after(
                entry_views(log@),
                log_from(repo@.objects, current@, fuel as nat),
            ),
        decreases fuel,
    {
        let object = match read_object(&repo.objects, current.as_slice()) {
            Err(e) => { return Err(e); },
            Ok(None) => {
                proof {
                    assert(entry_views(log@) + Seq::<(Seq<u8>, Seq<u8>, Seq<u8>)>::empty()
                        =~= entry_views(log@));
                }
                return Ok(log);
            },
            Ok(Some(o)) => o,
        };
        let parts = match split_commit(object.1.as_slice()) {
            None => { return Err(FitError::InvalidData); },
            Some(p) => p,
        };
        if fuel == 0 {
            return Err(FitError::InvalidData);
        }
        let next = get_parent_commit(parts.0.as_slice());
        let entry = LogEntry { hash: current, info: parts.0, message: trim(parts.1.as_slice()) };
        proof {
            let done = entry_views(log@);
            let rest = log_from(repo@.objects, next@, (fuel - 1) as nat);
            assert(entry_views(log@.push(entry)) =~= done.push(entry@));
            if rest is Ok {
                assert(done.push(entry@) + rest->Ok_0 =~= done + (seq![entry@] + rest->Ok_0));
            }
        }
        log.push(entry);
        current = next;
        fuel = fuel - 1;
    }
    proof {
        assert(entry_views(log@) + Seq::<(Seq<u8>, Seq<u8>, Seq<u8>)>::empty() =~= entry_views(
            log@,
        ));
    }
    Ok(log)
}

/// Reads the object under `hash`, for display: its kind word and payload.
pub fn cat_file_workflow(repo: &Repository, hash: &[u8]) -> (r: Result<
    Option<(Vec<u8>, Vec<u8>)>,
    FitError,
>)
    ensures
        crate::object::read_view(r) == spec_get(repo@.objects, hash@),
{
    read_object(&repo.objects, hash)
}

} // verus!
