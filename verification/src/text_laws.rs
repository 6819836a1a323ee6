//! What holds of lines, fields and trimming when texts are put together.

use vstd::prelude::*;
use crate::bytes::{
    find_from, is_token, lemma_find_from, lemma_find_from_is, lemma_skip_run, lemma_skip_run_is, nl,
    skip_run, spec_is_space,
};
use crate::text::{lines_from, spec_lines, spec_tokens, spec_trim, strip_cr, tokens_from, trim_end};

verus! {

/// `s` holds no line feed.
pub open spec fn one_line(s: Seq<u8>) -> bool {
    forall|i: int| 0 <= i < s.len() ==> #[trigger] s[i] != 10u8
}

/// A field is one line and does not end with a carriage return.
pub proof fn lemma_token_one_line(t: Seq<u8>)
    requires
        is_token(t),
    ensures
        one_line(t),
        strip_cr(t) == t,
{
    assert forall|i: int| 0 <= i < t.len() implies #[trigger] t[i] != 10u8 by {
        assert(!spec_is_space(t[i]));
    }
    assert(!spec_is_space(t[t.len() - 1]));
}

/// What `trim_end` promises: the end of `s` before its trailing white space.
pub proof fn lemma_trim_end(s: Seq<u8>, n: int)
    requires
        0 <= n <= s.len(),
    ensures
        0 <= trim_end(s, n) <= n,
        trim_end(s, n) > 0 ==> !spec_is_space(s[trim_end(s, n) - 1]),
        forall|k: int| trim_end(s, n) <= k < n ==> spec_is_space(#[trigger] s[k]),
    decreases n,
{
    if n <= 0 || !spec_is_space(s[n - 1]) {
    } else {
        lemma_trim_end(s, n - 1);
    }
}

/// A text that neither begins nor ends with white space is its own trimmed
/// form.
pub proof fn lemma_trim_clean(s: Seq<u8>)
    requires
        s.len() > 0 ==> !spec_is_space(s[0]) && !spec_is_space(s[s.len() - 1]),
    ensures
        spec_trim(s) == s,
{
    if s.len() > 0 {
        assert(skip_run(s, true, 0) == 0);
        assert(trim_end(s, s.len() as int) == s.len());
        assert(s.subrange(0, s.len() as int) =~= s);
    } else {
        assert(spec_trim(s) =~= s);
    }
}

/// A trimmed text neither begins nor ends with white space.
pub proof fn lemma_trim_ends(s: Seq<u8>)
    ensures
        spec_trim(s).len() > 0 ==> !spec_is_space(spec_trim(s)[0]) && !spec_is_space(
            spec_trim(s)[spec_trim(s).len() - 1],
        ),
{
    lemma_skip_run(s, true, 0);
    lemma_trim_end(s, s.len() as int);
}

/// Trimming twice is trimming once.
pub proof fn lemma_trim_idempotent(s: Seq<u8>)
    ensures
        spec_trim(spec_trim(s)) == spec_trim(s),
{
    lemma_trim_ends(s);
    lemma_trim_clean(spec_trim(s));
}

/// A field is its own trimmed form.
pub proof fn lemma_trim_token(t: Seq<u8>)
    requires
        is_token(t),
    ensures
        spec_trim(t) == t,
{
    lemma_trim_clean(t);
}

proof fn lemma_find_shift(a: Seq<u8>, b: Seq<u8>, x: u8, i: int)
    requires
        0 <= i <= b.len(),
    ensures
        find_from(a + b, x, a.len() + i) == a.len() + find_from(b, x, i),
    decreases b.len() - i,
{
    if i < b.len() {
        assert((a + b)[a.len() + i] == b[i]);
        if b[i] != x {
            lemma_find_shift(a, b, x, i + 1);
        }
    }
}

proof fn lemma_lines_shift(a: Seq<u8>, b: Seq<u8>, i: int)
    requires
        0 <= i <= b.len(),
    ensures
        lines_from(a + b, a.len() + i) == lines_from(b, i),
    decreases b.len() - i,
{
    if i < b.len() {
        lemma_find_shift(a, b, nl(), i);
        lemma_find_from(b, nl(), i);
        let e = find_from(b, nl(), i);
        assert((a + b).subrange(a.len() + i, a.len() + e) =~= b.subrange(i, e));
        if e < b.len() {
            lemma_lines_shift(a, b, e + 1);
        }
    }
}

/// The lines of a line, a line feed and a text: the line, then the lines of
/// the text.
pub proof fn lemma_lines_cons(line: Seq<u8>, rest: Seq<u8>)
    requires
        one_line(line),
    ensures
        spec_lines(line + seq![10u8] + rest) == seq![strip_cr(line)] + spec_lines(rest),
{
    let head = line + seq![10u8];
    let s = head + rest;
    assert(s[line.len() as int] == 10u8);
    assert forall|k: int| 0 <= k < line.len() implies s[k] != nl() by {
        assert(s[k] == line[k]);
    }
    lemma_find_from_is(s, nl(), 0, line.len() as int);
    assert(s.subrange(0, line.len() as int) =~= line);
    lemma_lines_shift(head, rest, 0);
}

proof fn lemma_find_prefix(a: Seq<u8>, b: Seq<u8>, x: u8, i: int)
    requires
        0 <= i <= a.len(),
        find_from(a, x, i) < a.len(),
    ensures
        find_from(a + b, x, i) == find_from(a, x, i),
    decreases a.len() - i,
{
    if i < a.len() {
        assert((a + b)[i] == a[i]);
        if a[i] != x {
            lemma_find_prefix(a, b, x, i + 1);
        }
    }
}

proof fn lemma_lines_append_from(text: Seq<u8>, line: Seq<u8>, i: int)
    requires
        0 <= i <= text.len(),
        text.len() > 0 ==> text[text.len() - 1] == 10u8,
        one_line(line),
        line.len() > 0,
    ensures
        lines_from(text + line, i) == lines_from(text, i).push(strip_cr(line)),
    decreases text.len() - i,
{
    let s = text + line;
    if i < text.len() {
        lemma_find_from(text, nl(), i);
        let e = find_from(text, nl(), i);
        if e >= text.len() {
            assert(text[text.len() - 1] == nl());
            assert(false);
        }
        lemma_find_prefix(text, line, nl(), i);
        assert(s.subrange(i, e) =~= text.subrange(i, e));
        lemma_lines_append_from(text, line, e + 1);
        let first = seq![strip_cr(text.subrange(i, e))];
        assert(first + lines_from(text, e + 1).push(strip_cr(line)) =~= (first + lines_from(
            text,
            e + 1,
        )).push(strip_cr(line)));
    } else {
        assert forall|k: int| i <= k < s.len() implies s[k] != nl() by {
            assert(s[k] == line[k - text.len()]);
        }
        lemma_find_from_is(s, nl(), i, s.len() as int);
        assert(s.subrange(i, s.len() as int) =~= line);
        assert(lines_from(text, i) =~= Seq::<Seq<u8>>::empty());
        assert(lines_from(s, i) =~= Seq::<Seq<u8>>::empty().push(strip_cr(line)));
    }
}

/// A new last line: after a text that is empty or ends with a line feed, a
/// line with at least one byte adds itself to the lines.
pub proof fn lemma_lines_append(text: Seq<u8>, line: Seq<u8>)
    requires
        text.len() > 0 ==> text[text.len() - 1] == 10u8,
        one_line(line),
        line.len() > 0,
    ensures
        spec_lines(text + line) == spec_lines(text).push(strip_cr(line)),
{
    lemma_lines_append_from(text, line, 0);
}

proof fn lemma_lines_terminate_from(text: Seq<u8>, i: int)
    requires
        0 <= i < text.len(),
        text[text.len() - 1] != 10u8,
    ensures
        lines_from(text + seq![10u8], i) == lines_from(text, i),
    decreases text.len() - i,
{
    let s = text + seq![10u8];
    lemma_find_from(text, nl(), i);
    let e = find_from(text, nl(), i);
    if e < text.len() {
        lemma_find_prefix(text, seq![10u8], nl(), i);
        assert(s.subrange(i, e) =~= text.subrange(i, e));
        assert(e + 1 < text.len());
        lemma_lines_terminate_from(text, e + 1);
    } else {
        assert forall|k: int| i <= k < text.len() implies s[k] != nl() by {
            assert(s[k] == text[k]);
        }
        assert(s[text.len() as int] == nl());
        lemma_find_from_is(s, nl(), i, text.len() as int);
        assert(s.subrange(i, text.len() as int) =~= text.subrange(i, text.len() as int));
        assert(lines_from(s, (text.len() + 1) as int) =~= Seq::<Seq<u8>>::empty());
        assert(lines_from(s, i) =~= seq![strip_cr(text.subrange(i, text.len() as int))]);
    }
}

/// A line feed after the last line adds no line.
pub proof fn lemma_lines_terminate(text: Seq<u8>)
    requires
        text.len() > 0,
        text[text.len() - 1] != 10u8,
    ensures
        spec_lines(text + seq![10u8]) == spec_lines(text),
{
    lemma_lines_terminate_from(text, 0);
}

/// A complete line after complete lines: the line joins the lines.
pub proof fn lemma_lines_snoc(text: Seq<u8>, line: Seq<u8>)
    requires
        text.len() > 0 ==> text[text.len() - 1] == 10u8,
        one_line(line),
        line.len() > 0,
    ensures
        spec_lines(text + line + seq![10u8]) == spec_lines(text).push(strip_cr(line)),
{
    lemma_lines_append(text, line);
    assert((text + line)[(text + line).len() - 1] == line[line.len() - 1]);
    lemma_lines_terminate(text + line);
}

proof fn lemma_skip_shift(a: Seq<u8>, b: Seq<u8>, space: bool, i: int)
    requires
        0 <= i <= b.len(),
    ensures
        skip_run(a + b, space, a.len() + i) == a.len() + skip_run(b, space, i),
    decreases b.len() - i,
{
    if i < b.len() {
        assert((a + b)[a.len() + i] == b[i]);
        if spec_is_space(b[i]) == space {
            lemma_skip_shift(a, b, space, i + 1);
        }
    }
}

proof fn lemma_tokens_shift(a: Seq<u8>, b: Seq<u8>, i: int)
    requires
        0 <= i <= b.len(),
    ensures
        tokens_from(a + b, a.len() + i) == tokens_from(b, i),
    decreases b.len() - i,
{
    if i < b.len() {
        lemma_skip_shift(a, b, true, i);
        lemma_skip_run(b, true, i);
        let s = skip_run(b, true, i);
        if s < b.len() {
            lemma_skip_shift(a, b, false, s);
            lemma_skip_run(b, false, s);
            let e = skip_run(b, false, s);
            assert((a + b).subrange(a.len() + s, a.len() + e) =~= b.subrange(s, e));
            lemma_tokens_shift(a, b, e);
        }
    }
}

/// The fields of a field followed by a space and a text: the field, then
/// the fields of the text.
pub proof fn lemma_tokens_cons(tok: Seq<u8>, rest: Seq<u8>)
    requires
        is_token(tok),
    ensures
        spec_tokens(tok + seq![32u8] + rest) == seq![tok] + spec_tokens(rest),
{
    let head = tok + seq![32u8];
    let s = head + rest;
    assert(s[0] == tok[0]);
    assert(skip_run(s, true, 0) == 0);
    assert(s[tok.len() as int] == 32u8);
    assert forall|k: int| 0 <= k < tok.len() implies spec_is_space(s[k]) == false by {
        assert(s[k] == tok[k]);
    }
    lemma_skip_run_is(s, false, 0, tok.len() as int);
    assert(s.subrange(0, tok.len() as int) =~= tok);
    lemma_skip_shift(tok, seq![32u8] + rest, true, 0);
    assert(tok + (seq![32u8] + rest) =~= s);
    lemma_tokens_from_space(s, tok.len() as int);
    lemma_tokens_shift(head, rest, 0);
}

proof fn lemma_tokens_from_space(s: Seq<u8>, i: int)
    requires
        0 <= i < s.len(),
        spec_is_space(s[i]),
    ensures
        tokens_from(s, i) == tokens_from(s, i + 1),
{
    lemma_skip_run(s, true, i + 1);
    if i + 1 < s.len() {
        assert(skip_run(s, true, i) == skip_run(s, true, i + 1));
    } else {
        assert(skip_run(s, true, i) == s.len());
        assert(tokens_from(s, i) =~= Seq::<Seq<u8>>::empty());
    }
}

/// A field alone is its only field.
pub proof fn lemma_tokens_one(tok: Seq<u8>)
    requires
        is_token(tok),
    ensures
        spec_tokens(tok) == seq![tok],
{
    assert(skip_run(tok, true, 0) == 0);
    assert forall|k: int| 0 <= k < tok.len() implies spec_is_space(tok[k]) == false by {}
    lemma_skip_run_is(tok, false, 0, tok.len() as int);
    assert(tok.subrange(0, tok.len() as int) =~= tok);
    assert(tokens_from(tok, tok.len() as int) =~= Seq::<Seq<u8>>::empty());
    assert(spec_tokens(tok) =~= seq![tok]);
}

/// Every field of a text is a field: it has a byte and no white space.
pub proof fn lemma_tokens_are_tokens(s: Seq<u8>, i: int)
    requires
        0 <= i,
    ensures
        forall|k: int|
            0 <= k < tokens_from(s, i).len() ==> is_token(#[trigger] tokens_from(s, i)[k]),
    decreases s.len() - i,
{
    if i < s.len() {
        lemma_skip_run(s, true, i);
        let a = skip_run(s, true, i);
        if a < s.len() {
            lemma_skip_run(s, false, a);
            let b = skip_run(s, false, a);
            lemma_tokens_are_tokens(s, b);
            let t = s.subrange(a, b);
            assert(is_token(t)) by {
                assert forall|j: int| 0 <= j < t.len() implies !spec_is_space(#[trigger] t[j]) by {
                    assert(t[j] == s[a + j]);
                }
            }
            let all = tokens_from(s, i);
            assert(all =~= seq![t] + tokens_from(s, b));
            assert forall|k: int| 0 <= k < all.len() implies is_token(#[trigger] all[k]) by {
                if k > 0 {
                    assert(all[k] == tokens_from(s, b)[k - 1]);
                }
            }
        }
    }
}

} // verus!
