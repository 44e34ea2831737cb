//! Line diffs: unified diffs of two texts, and the patch application that
//! rebuilds a version from its predecessor.

use vstd::prelude::*;
use crate::text::{
    has_prefix, has_suffix, lines, lines_of, join, join_lines, parse_usize, parse_usize_spec, starts_with, views,
    words, words_of, clone_chars, chars_of, push_char, lemma_views_push, lemma_has_prefix_one, lemma_has_suffix_one,
    hex_digits, push_hex, lemma_hex_digits_len,
};
use vstd::std_specs::hash::DefaultHasherAdditionalSpecFns;
use std::hash::{Hash, Hasher};
use crate::records::VersionRecord;

verus! {

broadcast use vstd::string::group_string_axioms;

/// Why a diff operation failed.
#[derive(Debug, Clone, PartialEq, Eq)]
pub enum DiffError {
    /// `reconstruct_content` was given no versions.
    EmptyVersionList,
}

// ---------------------------------------------------------------------------
// Computing a diff
// ---------------------------------------------------------------------------

/// What `similar` renders as the unified diff of two texts compared line by
/// line with the given context radius and no file header.
pub uninterp spec fn unified_diff_text(old: Seq<char>, new: Seq<char>, radius: nat) -> Seq<char>;

/// Renders the unified line diff of `old` and `new`.
/// Calls `similar::TextDiff::from_lines`, then
/// `similar::udiff::UnifiedDiff::from_text_diff`, `context_radius` and
/// `to_string`. The result is named by `unified_diff_text`; the one fact
/// claimed of it is that equal texts give no hunk, hence the empty string.
/// The radius is bounded so that `similar`'s doubling of it cannot overflow.
#[verifier::external_body]
fn unified_line_diff(old: &str, new: &str, radius: usize) -> (r: String)
    requires
        radius <= usize::MAX / 2,
    ensures
        r@ == unified_diff_text(old@, new@, radius as nat),
        old@ == new@ ==> r@.len() == 0,
{
    let diff = similar::TextDiff::from_lines(old, new);
    similar::udiff::UnifiedDiff::from_text_diff(&diff).context_radius(radius).to_string()
}

/// The unified diff of `old` and `new` with three lines of context; empty
/// when nothing changed.
pub fn compute_diff(old: &str, new: &str) -> (d: String)
    ensures
        d@ == unified_diff_text(old@, new@, 3),
        old@ == new@ ==> d@.len() == 0,
{
    let udiff = unified_line_diff(old, new, 3);
    if udiff.as_str().is_empty() {
        String::new()
    } else {
        udiff
    }
}

// ---------------------------------------------------------------------------
// Hunk headers
// ---------------------------------------------------------------------------

/// The index of the first `c` in `s`, or the length of `s` if there is none.
pub open spec fn first_index(s: Seq<char>, c: char) -> int
    decreases s.len(),
{
    if s.len() == 0 {
        0
    } else if s[0] == c {
        0
    } else {
        1 + first_index(s.drop_first(), c)
    }
}

proof fn lemma_first_index(s: Seq<char>, c: char, i: int)
    requires
        0 <= i <= s.len(),
        forall|j: int| 0 <= j < i ==> s[j] != c,
        i == s.len() || s[i] == c,
    ensures
        first_index(s, c) == i,
    decreases i,
{
    if i > 0 {
        lemma_first_index(s.drop_first(), c, i - 1);
    }
}

/// `n - 1`, or 0 when `n` is 0.
pub open spec fn pred_sat(n: usize) -> usize {
    if n == 0 {
        0
    } else {
        (n - 1) as usize
    }
}

/// A range of a hunk header, `-start,count` or `+start`, as
/// (zero-based start, count); the count is 1 when it is left out.
pub open spec fn hunk_range_spec(p: Seq<char>) -> Option<(usize, usize)> {
    if p.len() > 0 && (p[0] == '-' || p[0] == '+') {
        let q = p.skip(1);
        let k = first_index(q, ',');
        if k < q.len() {
            match (parse_usize_spec(q.take(k)), parse_usize_spec(q.skip(k + 1))) {
                (Some(start), Some(count)) => Some((pred_sat(start), count)),
                _ => None,
            }
        } else {
            match parse_usize_spec(q) {
                Some(start) => Some((pred_sat(start), 1)),
                None => None,
            }
        }
    } else {
        None
    }
}

/// What a line of the form `@@ -a,b +c,d @@` holds: the zero-based old start,
/// the old count, the zero-based new start and the new count. The line must
/// begin and end with `@@` and hold exactly two words between them.
pub open spec fn hunk_header_spec(line: Seq<char>) -> Option<(usize, usize, usize, usize)> {
    if !has_prefix(line, seq!['@', '@']) {
        None
    } else {
        let rest = line.skip(2);
        if !has_suffix(rest, seq!['@', '@']) {
            None
        } else {
            let ws = words_of(rest.take(rest.len() - 2));
            if ws.len() != 2 {
                None
            } else {
                match (hunk_range_spec(ws[0]), hunk_range_spec(ws[1])) {
                    (Some(a), Some(b)) => Some((a.0, a.1, b.0, b.1)),
                    _ => None,
                }
            }
        }
    }
}

fn subvec(v: &Vec<char>, from: usize, to: usize) -> (r: Vec<char>)
    requires
        from <= to <= v.len(),
    ensures
        r@ == v@.subrange(from as int, to as int),
{
    let mut r: Vec<char> = Vec::new();
    let mut i = from;
    while i < to
        invariant
            from <= i <= to <= v.len(),
            r@ == v@.subrange(from as int, i as int),
        decreases to - i,
    {
        r.push(v[i]);
        i += 1;
        assert(r@ =~= v@.subrange(from as int, i as int));
    }
    r
}

fn hunk_range(p: &Vec<char>) -> (r: Option<(usize, usize)>)
    ensures
        r == hunk_range_spec(p@),
{
    if p.len() == 0 || !(p[0] == '-' || p[0] == '+') {
        return None;
    }
    let q = subvec(p, 1, p.len());
    assert(q@ == p@.skip(1));
    let mut k: usize = 0;
    while k < q.len() && q[k] != ','
        invariant
            k <= q.len(),
            forall|j: int| 0 <= j < k ==> q@[j] != ',',
        decreases q.len() - k,
    {
        k += 1;
    }
    proof {
        lemma_first_index(q@, ',', k as int);
    }
    if k < q.len() {
        let a = subvec(&q, 0, k);
        let b = subvec(&q, k + 1, q.len());
        assert(a@ == q@.take(k as int));
        assert(b@ == q@.skip(k + 1));
        match (parse_usize(&a), parse_usize(&b)) {
            (Some(start), Some(count)) => Some((if start == 0 { 0 } else { start - 1 }, count)),
            _ => None,
        }
    } else {
        match parse_usize(&q) {
            Some(start) => Some((if start == 0 { 0 } else { start - 1 }, 1)),
            None => None,
        }
    }
}

/// Reads a hunk header line `@@ -a,b +c,d @@`: the zero-based start and
/// the length of the old range, then of the new range.
pub fn parse_hunk_header(line: &str) -> (r: Option<(usize, usize, usize, usize)>)
    ensures
        r == hunk_header_spec(line@),
{
    let cs = chars_of(line);
    hunk_header_chars(&cs)
}

fn hunk_header_chars(line: &Vec<char>) -> (r: Option<(usize, usize, usize, usize)>)
    ensures
        r == hunk_header_spec(line@),
{
    let at2 = vec!['@', '@'];
    if !starts_with(line, &at2) {
        return None;
    }
    let n = line.len();
    if n < 4 || line[n - 1] != '@' || line[n - 2] != '@' {
        proof {
            let rest = line@.skip(2);
            if has_suffix(rest, seq!['@', '@']) {
                assert(rest.skip(rest.len() - 2)[0] == line@[n - 2]);
                assert(rest.skip(rest.len() - 2)[1] == line@[n - 1]);
            }
        }
        return None;
    }
    let ghost rest = line@.skip(2);
    assert(rest.skip(rest.len() - 2) =~= seq!['@', '@']);
    let inner = subvec(line, 2, n - 2);
    assert(inner@ == rest.take(rest.len() - 2));
    let ws = words(&inner);
    if ws.len() != 2 {
        return None;
    }
    assert(ws@[0]@ == words_of(inner@)[0]);
    assert(ws@[1]@ == words_of(inner@)[1]);
    match (hunk_range(&ws[0]), hunk_range(&ws[1])) {
        (Some(a), Some(b)) => Some((a.0, a.1, b.0, b.1)),
        _ => None,
    }
}

// ---------------------------------------------------------------------------
// Applying a diff
// ---------------------------------------------------------------------------

/// The state of patch application: the lines written so far, the index of
/// the next original line, and whether a hunk has begun.
pub type PatchState = (Seq<Seq<char>>, int, bool);

/// The original lines from `idx` up to (not including) `to`, where `to` is
/// capped at the number of lines; nothing when `idx` is already there.
pub open spec fn copy_up_to(orig: Seq<Seq<char>>, out: Seq<Seq<char>>, idx: int, to: int) -> (
    Seq<Seq<char>>,
    int,
) {
    let end = if to < orig.len() {
        to
    } else {
        orig.len() as int
    };
    if idx < end {
        (out + orig.subrange(idx, end), end)
    } else {
        (out, idx)
    }
}

/// The effect of one patch line:
/// `--- ` and `+++ ` lines are skipped; a `@@` line begins a hunk and copies
/// the original from where the last hunk ended up to the old start of its
/// header (when the header reads); within a hunk a ` ` line writes its text
/// and passes one original line, a `-` line passes one original line, a `+`
/// line writes its text; every other line (such as a `\ No newline at end
/// of file` marker) is ignored.
pub open spec fn patch_step(orig: Seq<Seq<char>>, st: PatchState, line: Seq<char>) -> PatchState {
    let out = st.0;
    let idx = st.1;
    let in_hunk = st.2;
    let next = if idx < orig.len() {
        idx + 1
    } else {
        idx
    };
    if has_prefix(line, seq!['-', '-', '-', ' ']) || has_prefix(line, seq!['+', '+', '+', ' ']) {
        st
    } else if has_prefix(line, seq!['@', '@']) {
        match hunk_header_spec(line) {
            Some(h) => {
                let c = copy_up_to(orig, out, idx, h.0 as int);
                (c.0, c.1, true)
            },
            None => (out, idx, true),
        }
    } else if !in_hunk {
        st
    } else if has_prefix(line, seq![' ']) {
        (out.push(line.skip(1)), next, true)
    } else if has_prefix(line, seq!['-']) {
        (out, next, true)
    } else if has_prefix(line, seq!['+']) {
        (out.push(line.skip(1)), idx, true)
    } else {
        st
    }
}

/// The state after the given patch lines, from nothing written, the first
/// original line next, and no hunk begun.
pub open spec fn patch_lines(orig: Seq<Seq<char>>, ps: Seq<Seq<char>>) -> PatchState
    decreases ps.len(),
{
    if ps.len() == 0 {
        (Seq::empty(), 0, false)
    } else {
        patch_step(orig, patch_lines(orig, ps.drop_last()), ps.last())
    }
}

/// Whether a patch says that the new text has no final newline: a
/// `\ No newline at end of file` marker (a line beginning with `\`) right
/// after a line of the new side (` ` or `+`).
pub open spec fn new_side_unterminated(ps: Seq<Seq<char>>) -> bool {
    exists|i: int|
        1 <= i < ps.len() && #[trigger] has_prefix(ps[i], seq!['\\']) && (has_prefix(ps[i - 1], seq!['+'])
            || has_prefix(ps[i - 1], seq![' ']))
}

/// What applying `patch` to `original` gives: the original itself for an
/// empty patch; otherwise the written lines followed by the original lines
/// not yet passed, each ended by `\n` except the last, which is ended by
/// `\n` when the new text has one: when it is an original line, as the
/// original ends; when it comes from the patch, unless the patch marks the
/// new side as having no final newline.
pub open spec fn apply_diff_spec(original: Seq<char>, patch: Seq<char>) -> Seq<char> {
    if patch.len() == 0 {
        original
    } else {
        let orig = lines_of(original);
        let ps = lines_of(patch);
        let st = patch_lines(orig, ps);
        let rs = st.0 + orig.subrange(st.1, orig.len() as int);
        let ends_nl = if st.1 < orig.len() {
            has_suffix(original, seq!['\n'])
        } else {
            !new_side_unterminated(ps)
        };
        if rs.len() == 0 {
            Seq::empty()
        } else if ends_nl {
            join_lines(rs).push('\n')
        } else {
            join_lines(rs)
        }
    }
}

/// Whether the patch lines mark the new side as having no final newline
/// (see `new_side_unterminated`).
fn unterminated(pl: &Vec<Vec<char>>) -> (b: bool)
    ensures
        b == new_side_unterminated(views(pl@)),
{
    let ghost ps = views(pl@);
    let bs = vec!['\\'];
    let plus = vec!['+'];
    let sp = vec![' '];
    let mut i: usize = 1;
    let mut found = false;
    while i < pl.len() && !found
        invariant
            1 <= i,
            i <= pl.len() || pl.len() == 0,
            ps == views(pl@),
            bs@ == seq!['\\'],
            plus@ == seq!['+'],
            sp@ == seq![' '],
            found ==> new_side_unterminated(ps),
            !found ==> forall|k: int|
                1 <= k < i && k < ps.len() ==> !(#[trigger] has_prefix(ps[k], seq!['\\']) && (has_prefix(ps[k - 1], seq!['+'])
                    || has_prefix(ps[k - 1], seq![' ']))),
        decreases pl.len() - i,
    {
        assert(ps[i as int] == pl@[i as int]@);
        assert(ps[i - 1] == pl@[i - 1]@);
        if starts_with(&pl[i], &bs) && (starts_with(&pl[i - 1], &plus) || starts_with(&pl[i - 1], &sp)) {
            found = true;
        }
        i += 1;
    }
    found
}

/// Appends the original lines from `idx` up to `to` (capped at their number).
fn copy_lines(orig: &Vec<Vec<char>>, out: &mut Vec<Vec<char>>, idx: usize, to: usize) -> (r: usize)
    requires
        idx <= orig.len(),
    ensures
        (views(final(out)@), r as int) == copy_up_to(views(orig@), views(old(out)@), idx as int, to as int),
        r <= orig.len(),
{
    let ghost o = views(orig@);
    let ghost start = views(out@);
    let mut i = idx;
    while i < to && i < orig.len()
        invariant
            idx <= i <= orig.len(),
            o == views(orig@),
            i == idx || i <= to,
            views(out@) == start + o.subrange(idx as int, i as int),
        decreases orig.len() - i,
    {
        let ghost prev = out@;
        let l = clone_chars(&orig[i]);
        out.push(l);
        proof {
            lemma_views_push(prev, l);
            assert(o[i as int] == orig@[i as int]@);
        }
        i += 1;
        assert(views(out@) =~= start + o.subrange(idx as int, i as int));
    }
    assert(o.subrange(idx as int, idx as int) =~= Seq::<Seq<char>>::empty());
    assert(start + Seq::<Seq<char>>::empty() =~= start);
    i
}

fn rest_of(line: &Vec<char>) -> (r: Vec<char>)
    requires
        line.len() >= 1,
    ensures
        r@ == line@.skip(1),
{
    subvec(line, 1, line.len())
}

/// Applies a unified diff to `original`, as the patch format above reads it.
/// Lines outside hunks and lines of no known kind are ignored, so every
/// patch applies.
pub fn apply_diff(original: &str, patch: &str) -> (r: Result<String, DiffError>)
    ensures
        r matches Ok(s) && s@ == apply_diff_spec(original@, patch@),
{
    if patch.is_empty() {
        return Ok(original.to_owned());
    }
    let orig = lines(original);
    let pl = lines(patch);
    let ghost o = views(orig@);
    let ghost ps = views(pl@);
    let dash3 = vec!['-', '-', '-', ' '];
    let plus3 = vec!['+', '+', '+', ' '];
    let at2 = vec!['@', '@'];
    let mut out: Vec<Vec<char>> = Vec::new();
    let mut idx: usize = 0;
    let mut in_hunk = false;
    let mut i: usize = 0;
    while i < pl.len()
        invariant
            i <= pl.len(),
            o == views(orig@),
            ps == views(pl@),
            dash3@ == seq!['-', '-', '-', ' '],
            plus3@ == seq!['+', '+', '+', ' '],
            at2@ == seq!['@', '@'],
            idx <= orig.len(),
            (views(out@), idx as int, in_hunk) == patch_lines(o, ps.take(i as int)),
        decreases pl.len() - i,
    {
        let line = &pl[i];
        assert(ps.take(i + 1 as int).drop_last() == ps.take(i as int));
        assert(ps.take(i + 1 as int).last() == line@);
        let ghost st = (views(out@), idx as int, in_hunk);
        if starts_with(line, &dash3) || starts_with(line, &plus3) {
        } else if starts_with(line, &at2) {
            in_hunk = true;
            match hunk_header_chars(line) {
                Some((old_start, _old_count, _new_start, _new_count)) => {
                    idx = copy_lines(&orig, &mut out, idx, old_start);
                },
                None => {},
            }
        } else if in_hunk {
            let ghost prev = out@;
            if line.len() >= 1 && line[0] == ' ' {
                let t = rest_of(line);
                out.push(t);
                proof { lemma_views_push(prev, t); }
                if idx < orig.len() {
                    idx += 1;
                }
            } else if line.len() >= 1 && line[0] == '-' {
                if idx < orig.len() {
                    idx += 1;
                }
            } else if line.len() >= 1 && line[0] == '+' {
                let t = rest_of(line);
                out.push(t);
                proof { lemma_views_push(prev, t); }
            }
            proof {
                lemma_has_prefix_one(line@, ' ');
                lemma_has_prefix_one(line@, '-');
                lemma_has_prefix_one(line@, '+');
                assert(!has_prefix(line@, seq!['@', '@']));
                assert(!has_prefix(line@, seq!['-', '-', '-', ' ']));
                assert(!has_prefix(line@, seq!['+', '+', '+', ' ']));
                assert(st.2);
                assert(has_prefix(line@, seq![' ']) <==> (line@.len() >= 1 && line@[0] == ' '));
                assert(has_prefix(line@, seq!['-']) <==> (line@.len() >= 1 && line@[0] == '-'));
                assert(has_prefix(line@, seq!['+']) <==> (line@.len() >= 1 && line@[0] == '+'));
                assert(views(out@) == patch_step(o, st, line@).0);
                assert(idx as int == patch_step(o, st, line@).1);
                assert((views(out@), idx as int, in_hunk) == patch_step(o, st, line@));
            }
        }
        i += 1;
    }
    assert(ps.take(pl.len() as int) == ps);
    let from_original = idx < orig.len();
    let tail = copy_lines(&orig, &mut out, idx, orig.len());
    assert(views(out@) =~= patch_lines(o, ps).0 + o.subrange(idx as int, o.len() as int));
    let ends_nl = if from_original {
        let oc = chars_of(original);
        proof {
            lemma_has_suffix_one(oc@, '\n');
        }
        oc.len() > 0 && oc[oc.len() - 1] == '\n'
    } else {
        !unterminated(&pl)
    };
    if out.len() == 0 {
        return Ok(String::new());
    }
    let mut result = join(&out);
    if ends_nl {
        push_char(&mut result, '\n');
    }
    Ok(result)
}

// ---------------------------------------------------------------------------
// Rebuilding content from a version chain
// ---------------------------------------------------------------------------

/// The content of the first `n` versions of the chain: the first version's
/// snapshot when it has one, else its patch applied to the empty text; each
/// later version's patch applied to the content before it.
pub open spec fn chain_content(vs: Seq<VersionRecord>, n: nat) -> Seq<char>
    decreases n,
{
    if n == 0 {
        Seq::empty()
    } else if n == 1 {
        match vs[0].content_snapshot {
            Some(snap) => snap@,
            None => apply_diff_spec(Seq::empty(), vs[0].diff_patch@),
        }
    } else {
        apply_diff_spec(chain_content(vs, (n - 1) as nat), vs[n - 1].diff_patch@)
    }
}

/// Rebuilds the content of the last version of a chain sorted by version
/// number; fails only on an empty chain.
pub fn reconstruct_content(versions_sorted: &[VersionRecord]) -> (r: Result<String, DiffError>)
    ensures
        versions_sorted@.len() == 0 ==> r == Err::<String, DiffError>(DiffError::EmptyVersionList),
        versions_sorted@.len() > 0 ==> (r matches Ok(s) && s@ == chain_content(
            versions_sorted@,
            versions_sorted@.len(),
        )),
{
    if versions_sorted.len() == 0 {
        return Err(DiffError::EmptyVersionList);
    }
    let mut content = String::new();
    let mut idx: usize = 0;
    while idx < versions_sorted.len()
        invariant
            idx <= versions_sorted@.len(),
            content@ == chain_content(versions_sorted@, idx as nat),
        decreases versions_sorted@.len() - idx,
    {
        let version = &versions_sorted[idx];
        if idx == 0 {
            match &version.content_snapshot {
                Some(snapshot) => {
                    content = snapshot.clone();
                },
                None => {
                    let empty = String::new();
                    match apply_diff(empty.as_str(), version.diff_patch.as_str()) {
                        Ok(c) => {
                            content = c;
                        },
                        Err(e) => {
                            return Err(e);
                        },
                    }
                },
            }
        } else {
            match apply_diff(content.as_str(), version.diff_patch.as_str()) {
                Ok(c) => {
                    content = c;
                },
                Err(e) => {
                    return Err(e);
                },
            }
        }
        idx += 1;
    }
    Ok(content)
}


/// An empty patch changes nothing.
pub proof fn lemma_apply_empty_patch(original: Seq<char>, patch: Seq<char>)
    requires
        patch.len() == 0,
    ensures
        apply_diff_spec(original, patch) == original,
{
}

/// A chain whose first version is a snapshot and whose later versions carry
/// empty patches (as `compute_diff` gives for unchanged content) rebuilds to
/// the snapshot.
pub proof fn lemma_unchanged_chain(vs: Seq<VersionRecord>, snapshot: Seq<char>, n: nat)
    requires
        1 <= n <= vs.len(),
        vs[0].content_snapshot matches Some(s) && s@ == snapshot,
        forall|i: int| 1 <= i < n ==> (#[trigger] vs[i]).diff_patch@.len() == 0,
    ensures
        chain_content(vs, n) == snapshot,
    decreases n,
{
    if n > 1 {
        lemma_unchanged_chain(vs, snapshot, (n - 1) as nat);
        assert(vs[n - 1].diff_patch@.len() == 0);
    }
}

// ---------------------------------------------------------------------------
// Applying a diff undoes it
// ---------------------------------------------------------------------------

/// The text made of `ls`, each line followed by `\n`.
pub open spec fn text_of_lines(ls: Seq<Seq<char>>) -> Seq<char> {
    if ls.len() == 0 {
        Seq::empty()
    } else {
        join_lines(ls).push('\n')
    }
}

/// A text made of whole lines: reading it as lines and writing each line
/// back followed by `\n` gives it again (so it is empty or ends with `\n`).
pub open spec fn whole_lines(t: Seq<char>) -> bool {
    text_of_lines(lines_of(t)) == t
}

/// One hunk of a unified diff: its header line, the zero-based line of the
/// old text where it starts, and its body lines.
pub struct HunkView {
    pub header: Seq<char>,
    pub start: nat,
    pub body: Seq<Seq<char>>,
}

/// A body line: a ` `, `-` or `+` followed by the line's text, or a
/// `\ No newline at end of file` marker (a line beginning with `\`), and
/// not one that reads as a file header.
pub open spec fn body_line_ok(l: Seq<char>) -> bool {
    &&& l.len() > 0
    &&& (l[0] == ' ' || l[0] == '-' || l[0] == '+' || l[0] == '\\')
    &&& !has_prefix(l, seq!['-', '-', '-', ' '])
    &&& !has_prefix(l, seq!['+', '+', '+', ' '])
}

/// A file header line of a unified diff: `--- ` or `+++ ` and a name.
pub open spec fn file_header_line(l: Seq<char>) -> bool {
    has_prefix(l, seq!['-', '-', '-', ' ']) || has_prefix(l, seq!['+', '+', '+', ' '])
}

/// The old text's lines that a hunk body holds: its ` ` and `-` lines.
pub open spec fn old_side(b: Seq<Seq<char>>) -> Seq<Seq<char>>
    decreases b.len(),
{
    if b.len() == 0 {
        Seq::empty()
    } else if b.last().len() > 0 && (b.last()[0] == ' ' || b.last()[0] == '-') {
        old_side(b.drop_last()).push(b.last().skip(1))
    } else {
        old_side(b.drop_last())
    }
}

/// The new text's lines that a hunk body holds: its ` ` and `+` lines.
pub open spec fn new_side(b: Seq<Seq<char>>) -> Seq<Seq<char>>
    decreases b.len(),
{
    if b.len() == 0 {
        Seq::empty()
    } else if b.last().len() > 0 && (b.last()[0] == ' ' || b.last()[0] == '+') {
        new_side(b.drop_last()).push(b.last().skip(1))
    } else {
        new_side(b.drop_last())
    }
}

/// The old line just after a hunk.
pub open spec fn hunk_end(h: HunkView) -> int {
    (h.start + old_side(h.body).len()) as int
}

/// The old line just after the last of the hunks (0 when there is none).
pub open spec fn hunks_end(hs: Seq<HunkView>) -> int {
    if hs.len() == 0 {
        0
    } else {
        hunk_end(hs.last())
    }
}

/// The patch lines of the hunks: each header followed by its body.
pub open spec fn hunk_lines(hs: Seq<HunkView>) -> Seq<Seq<char>>
    decreases hs.len(),
{
    if hs.len() == 0 {
        Seq::empty()
    } else {
        hunk_lines(hs.drop_last()) + seq![hs.last().header] + hs.last().body
    }
}

/// The new lines up to the end of the last hunk: before each hunk the old
/// lines since the previous one, then the hunk's new side.
pub open spec fn written_lines(old: Seq<Seq<char>>, hs: Seq<HunkView>) -> Seq<Seq<char>>
    decreases hs.len(),
{
    if hs.len() == 0 {
        Seq::empty()
    } else {
        let p = hs.drop_last();
        written_lines(old, p) + old.subrange(hunks_end(p), hs.last().start as int) + new_side(hs.last().body)
    }
}

/// The new lines the hunks make of `old`: what they write, then the old
/// lines after the last hunk.
pub open spec fn patched_lines(old: Seq<Seq<char>>, hs: Seq<HunkView>) -> Seq<Seq<char>> {
    written_lines(old, hs) + old.subrange(hunks_end(hs), old.len() as int)
}

/// The hunks fit `old`: each header reads and gives the hunk's start, each
/// body line is well formed, the hunks come in order without overlapping,
/// and each hunk's old side is the old text at its place.
pub open spec fn hunks_fit(old: Seq<Seq<char>>, hs: Seq<HunkView>) -> bool {
    forall|k: int|
        0 <= k < hs.len() ==> {
            &&& hunk_header_spec((#[trigger] hs[k]).header) matches Some(t) && t.0 == hs[k].start
            &&& forall|j: int| 0 <= j < hs[k].body.len() ==> body_line_ok(#[trigger] hs[k].body[j])
            &&& k > 0 ==> hunk_end(hs[k - 1]) <= hs[k].start
            &&& hunk_end(hs[k]) <= old.len()
            &&& old.subrange(hs[k].start as int, hunk_end(hs[k])) == old_side(hs[k].body)
        }
}

/// `ps` are the lines of a unified diff of the lines `old` into the lines
/// `new`: file header lines, then hunks that fit `old` and make `new` of it.
pub open spec fn is_unified_diff(old: Seq<Seq<char>>, new: Seq<Seq<char>>, ps: Seq<Seq<char>>) -> bool {
    exists|pre: Seq<Seq<char>>, hs: Seq<HunkView>|
        {
            &&& forall|i: int| 0 <= i < pre.len() ==> file_header_line(#[trigger] pre[i])
            &&& hunks_fit(old, hs)
            &&& ps == pre + hunk_lines(hs)
            &&& new == patched_lines(old, hs)
        }
}

/// The state after the patch lines `ps`, from state `st`.
pub open spec fn patch_from(orig: Seq<Seq<char>>, st: PatchState, ps: Seq<Seq<char>>) -> PatchState
    decreases ps.len(),
{
    if ps.len() == 0 {
        st
    } else {
        patch_step(orig, patch_from(orig, st, ps.drop_last()), ps.last())
    }
}

proof fn lemma_patch_lines_from(orig: Seq<Seq<char>>, ps: Seq<Seq<char>>)
    ensures
        patch_lines(orig, ps) == patch_from(orig, (Seq::empty(), 0, false), ps),
    decreases ps.len(),
{
    if ps.len() > 0 {
        lemma_patch_lines_from(orig, ps.drop_last());
    }
}

proof fn lemma_patch_from_concat(orig: Seq<Seq<char>>, st: PatchState, a: Seq<Seq<char>>, b: Seq<Seq<char>>)
    ensures
        patch_from(orig, st, a + b) == patch_from(orig, patch_from(orig, st, a), b),
    decreases b.len(),
{
    if b.len() == 0 {
        assert(a + b =~= a);
    } else {
        lemma_patch_from_concat(orig, st, a, b.drop_last());
        assert((a + b).drop_last() =~= a + b.drop_last());
        assert((a + b).last() == b.last());
    }
}

proof fn lemma_patch_file_headers(orig: Seq<Seq<char>>, st: PatchState, pre: Seq<Seq<char>>)
    requires
        forall|i: int| 0 <= i < pre.len() ==> file_header_line(#[trigger] pre[i]),
    ensures
        patch_from(orig, st, pre) == st,
    decreases pre.len(),
{
    if pre.len() > 0 {
        assert(file_header_line(pre[pre.len() - 1]));
        lemma_patch_file_headers(orig, st, pre.drop_last());
    }
}

proof fn lemma_patch_body(orig: Seq<Seq<char>>, out: Seq<Seq<char>>, idx: int, b: Seq<Seq<char>>)
    requires
        0 <= idx,
        idx + old_side(b).len() <= orig.len(),
        forall|j: int| 0 <= j < b.len() ==> body_line_ok(#[trigger] b[j]),
    ensures
        patch_from(orig, (out, idx, true), b) == (out + new_side(b), idx + old_side(b).len(), true),
    decreases b.len(),
{
    if b.len() == 0 {
        assert(out + Seq::<Seq<char>>::empty() =~= out);
    } else {
        let p = b.drop_last();
        let l = b.last();
        assert forall|j: int| 0 <= j < p.len() implies body_line_ok(#[trigger] p[j]) by {
            assert(p[j] == b[j]);
        }
        assert(body_line_ok(b[b.len() - 1]));
        assert(old_side(p).len() <= old_side(b).len());
        lemma_patch_body(orig, out, idx, p);
        lemma_has_prefix_one(l, ' ');
        lemma_has_prefix_one(l, '-');
        lemma_has_prefix_one(l, '+');
        lemma_has_prefix_one(l, '@');
        assert(!has_prefix(l, seq!['@', '@'])) by {
            if has_prefix(l, seq!['@', '@']) {
                assert(l.take(2)[0] == '@');
            }
        }
        if l[0] == ' ' {
            assert(out + new_side(b) =~= (out + new_side(p)).push(l.skip(1)));
        } else if l[0] == '+' {
            assert(out + new_side(b) =~= (out + new_side(p)).push(l.skip(1)));
        }
    }
}

proof fn lemma_hunks_fit_prefix(orig: Seq<Seq<char>>, hs: Seq<HunkView>)
    requires
        hunks_fit(orig, hs),
        hs.len() > 0,
    ensures
        hunks_fit(orig, hs.drop_last()),
        hunk_header_spec(hs.last().header) matches Some(t) && t.0 == hs.last().start,
        forall|j: int| 0 <= j < hs.last().body.len() ==> body_line_ok(#[trigger] hs.last().body[j]),
        hunks_end(hs.drop_last()) <= hs.last().start,
        hunk_end(hs.last()) <= orig.len(),
{
    let p = hs.drop_last();
    let k = hs.len() - 1;
    assert(hs[k] == hs.last());
    assert forall|m: int| 0 <= m < p.len() implies {
        &&& hunk_header_spec((#[trigger] p[m]).header) matches Some(t) && t.0 == p[m].start
        &&& forall|j: int| 0 <= j < p[m].body.len() ==> body_line_ok(#[trigger] p[m].body[j])
        &&& m > 0 ==> hunk_end(p[m - 1]) <= p[m].start
        &&& hunk_end(p[m]) <= orig.len()
        &&& orig.subrange(p[m].start as int, hunk_end(p[m])) == old_side(p[m].body)
    } by {
        assert(p[m] == hs[m]);
        if m > 0 {
            assert(p[m - 1] == hs[m - 1]);
        }
    }
    if k > 0 {
        assert(hs[k - 1] == p.last());
    }
    assert(forall|j: int| 0 <= j < hs[k].body.len() ==> body_line_ok(#[trigger] hs[k].body[j]));
}

proof fn lemma_patch_header(orig: Seq<Seq<char>>, w: Seq<Seq<char>>, e: int, in_hunk: bool, h: HunkView)
    requires
        hunk_header_spec(h.header) matches Some(t) && t.0 == h.start,
        0 <= e <= h.start,
        h.start <= orig.len(),
    ensures
        patch_from(orig, (w, e, in_hunk), seq![h.header]) == (w + orig.subrange(e, h.start as int), h.start as int, true),
{
    assert(has_prefix(h.header, seq!['@', '@']));
    assert(h.header.take(2)[0] == '@');
    assert(!has_prefix(h.header, seq!['-', '-', '-', ' '])) by {
        if has_prefix(h.header, seq!['-', '-', '-', ' ']) {
            assert(h.header.take(4)[0] == '-');
        }
    }
    assert(!has_prefix(h.header, seq!['+', '+', '+', ' '])) by {
        if has_prefix(h.header, seq!['+', '+', '+', ' ']) {
            assert(h.header.take(4)[0] == '+');
        }
    }
    assert(seq![h.header].drop_last() =~= Seq::<Seq<char>>::empty());
    assert(seq![h.header].last() == h.header);
    let st = (w, e, in_hunk);
    assert(patch_from(orig, st, Seq::<Seq<char>>::empty()) == st);
    assert(patch_from(orig, st, seq![h.header]) == patch_step(orig, st, h.header));
    let t = hunk_header_spec(h.header).unwrap();
    assert(t.0 as int == h.start as int);
    if e == h.start {
        assert(w + orig.subrange(e, h.start as int) =~= w);
    }
    assert(copy_up_to(orig, w, e, t.0 as int) == (w + orig.subrange(e, h.start as int), h.start as int));
}

proof fn lemma_patch_hunks(orig: Seq<Seq<char>>, hs: Seq<HunkView>)
    requires
        hunks_fit(orig, hs),
    ensures
        patch_from(orig, (Seq::empty(), 0, false), hunk_lines(hs)) == (written_lines(orig, hs), hunks_end(hs), hs.len() > 0),
        0 <= hunks_end(hs) <= orig.len(),
    decreases hs.len(),
{
    if hs.len() > 0 {
        let p = hs.drop_last();
        let h = hs.last();
        lemma_hunks_fit_prefix(orig, hs);
        lemma_patch_hunks(orig, p);
        let init = (Seq::<Seq<char>>::empty(), 0int, false);
        lemma_patch_from_concat(orig, init, hunk_lines(p) + seq![h.header], h.body);
        lemma_patch_from_concat(orig, init, hunk_lines(p), seq![h.header]);
        let w = written_lines(orig, p);
        let e = hunks_end(p);
        lemma_patch_header(orig, w, e, p.len() > 0, h);
        let w2 = w + orig.subrange(e, h.start as int);
        lemma_patch_body(orig, w2, h.start as int, h.body);
    }
}

proof fn lemma_lines_of_empty()
    ensures
        lines_of(Seq::<char>::empty()).len() == 0,
{
    let p = crate::text::split_on(Seq::<char>::empty(), '\n');
    assert(p == seq![Seq::<char>::empty()]);
    assert(p.take(0) =~= Seq::<Seq<char>>::empty());
}

/// Applying a unified diff undoes it: for texts made of whole lines, a patch
/// whose lines are a unified diff of the old lines into the new lines, and
/// which marks no missing final newline, turns the old text into the new.
pub proof fn lemma_patch_round_trip(old: Seq<char>, new: Seq<char>, patch: Seq<char>)
    requires
        whole_lines(old),
        whole_lines(new),
        is_unified_diff(lines_of(old), lines_of(new), lines_of(patch)),
        forall|i: int| 0 <= i < lines_of(patch).len() ==> !has_prefix(#[trigger] lines_of(patch)[i], seq!['\\']),
    ensures
        apply_diff_spec(old, patch) == new,
{
    let ol = lines_of(old);
    let nl = lines_of(new);
    let pl = lines_of(patch);
    let (pre, hs) = choose|pre: Seq<Seq<char>>, hs: Seq<HunkView>|
        {
            &&& forall|i: int| 0 <= i < pre.len() ==> file_header_line(#[trigger] pre[i])
            &&& hunks_fit(ol, hs)
            &&& pl == pre + hunk_lines(hs)
            &&& nl == patched_lines(ol, hs)
        };
    lemma_patch_hunks(ol, hs);
    let init = (Seq::<Seq<char>>::empty(), 0int, false);
    if patch.len() == 0 {
        lemma_lines_of_empty();
        if hs.len() > 0 {
            assert(hunk_lines(hs).len() >= 1);
            assert(pl.len() >= 1);
        }
        assert(hs.len() == 0);
        assert(written_lines(ol, hs) =~= Seq::<Seq<char>>::empty());
        assert(nl =~= ol);
        assert(new == text_of_lines(nl));
        assert(old == text_of_lines(ol));
        assert(apply_diff_spec(old, patch) == old);
    } else {
        lemma_patch_lines_from(ol, pl);
        lemma_patch_from_concat(ol, init, pre, hunk_lines(hs));
        lemma_patch_file_headers(ol, init, pre);
        let st = patch_lines(ol, pl);
        assert(st == (written_lines(ol, hs), hunks_end(hs), hs.len() > 0));
        let rs = st.0 + ol.subrange(st.1, ol.len() as int);
        assert(rs == nl);
        assert(new == text_of_lines(nl));
        let ends_nl = if st.1 < ol.len() {
            has_suffix(old, seq!['\n'])
        } else {
            !new_side_unterminated(pl)
        };
        if st.1 < ol.len() {
            assert(ol.len() > 0);
            assert(old == join_lines(ol).push('\n'));
            assert(old.skip(old.len() - 1) =~= seq!['\n']);
            assert(ends_nl);
        } else {
            assert(!new_side_unterminated(pl)) by {
                if new_side_unterminated(pl) {
                    let i = choose|i: int|
                        1 <= i < pl.len() && #[trigger] has_prefix(pl[i], seq!['\\']) && (has_prefix(pl[i - 1], seq!['+'])
                            || has_prefix(pl[i - 1], seq![' ']));
                    assert(!has_prefix(pl[i], seq!['\\']));
                }
            }
            assert(ends_nl);
        }
        assert(apply_diff_spec(old, patch) == (if rs.len() == 0 {
            Seq::<char>::empty()
        } else if ends_nl {
            join_lines(rs).push('\n')
        } else {
            join_lines(rs)
        }));
        assert(apply_diff_spec(old, patch) == new);
    }
}

/// A text read as lines: with a final newline, its lines each followed by
/// `\n`; without one (the empty text included), its lines joined by `\n`.
pub open spec fn line_text(t: Seq<char>) -> bool {
    if has_suffix(t, seq!['\n']) {
        whole_lines(t)
    } else {
        join_lines(lines_of(t)) == t
    }
}

/// Applying a unified diff undoes it, final newline included. Take texts
/// read as lines and a patch made of file header lines and hunks that fit
/// the old lines and make the new lines of them, in which a
/// `\ No newline at end of file` marker follows a line of the new side (a
/// ` ` or `+` line) exactly when the new text has lines and no final
/// newline, and where the old and new texts end alike when the hunks stop
/// before the end of the old text. Applying the patch to the old text gives
/// the new text.
pub proof fn lemma_patch_round_trip_newline(
    old: Seq<char>,
    new: Seq<char>,
    patch: Seq<char>,
    pre: Seq<Seq<char>>,
    hs: Seq<HunkView>,
)
    requires
        line_text(old),
        line_text(new),
        forall|i: int| 0 <= i < pre.len() ==> file_header_line(#[trigger] pre[i]),
        hunks_fit(lines_of(old), hs),
        lines_of(patch) == pre + hunk_lines(hs),
        lines_of(new) == patched_lines(lines_of(old), hs),
        hunks_end(hs) < lines_of(old).len() ==> (has_suffix(new, seq!['\n']) <==> has_suffix(old, seq!['\n'])),
        lines_of(new).len() > 0 ==> (!has_suffix(new, seq!['\n']) <==> exists|i: int|
            1 <= i < lines_of(patch).len() && #[trigger] has_prefix(lines_of(patch)[i], seq!['\\']) && (has_prefix(
                lines_of(patch)[i - 1],
                seq![' '],
            ) || has_prefix(lines_of(patch)[i - 1], seq!['+']))),
    ensures
        apply_diff_spec(old, patch) == new,
{
    let ol = lines_of(old);
    let nl = lines_of(new);
    let pl = lines_of(patch);
    let nlc = seq!['\n'];
    lemma_patch_hunks(ol, hs);
    let init = (Seq::<Seq<char>>::empty(), 0int, false);
    assert(has_suffix(new, nlc) ==> nl.len() > 0 && new == join_lines(nl).push('\n'));
    assert(!has_suffix(new, nlc) ==> new == join_lines(nl));
    assert(has_suffix(old, nlc) ==> ol.len() > 0 && old == join_lines(ol).push('\n'));
    assert(!has_suffix(old, nlc) ==> old == join_lines(ol));
    if patch.len() == 0 {
        lemma_lines_of_empty();
        if hs.len() > 0 {
            assert(hunk_lines(hs).len() >= 1);
            assert(pl.len() >= 1);
        }
        assert(hs.len() == 0);
        assert(written_lines(ol, hs) =~= Seq::<Seq<char>>::empty());
        assert(nl =~= ol);
        if ol.len() == 0 {
            assert(join_lines(ol) =~= Seq::<char>::empty());
        }
        assert(apply_diff_spec(old, patch) == old);
    } else {
        lemma_patch_lines_from(ol, pl);
        lemma_patch_from_concat(ol, init, pre, hunk_lines(hs));
        lemma_patch_file_headers(ol, init, pre);
        let st = patch_lines(ol, pl);
        assert(st == (written_lines(ol, hs), hunks_end(hs), hs.len() > 0));
        let rs = st.0 + ol.subrange(st.1, ol.len() as int);
        assert(rs == nl);
        let ends_nl = if st.1 < ol.len() {
            has_suffix(old, nlc)
        } else {
            !new_side_unterminated(pl)
        };
        if nl.len() > 0 {
            if st.1 >= ol.len() {
                assert(new_side_unterminated(pl) == (exists|i: int|
                    1 <= i < pl.len() && #[trigger] has_prefix(pl[i], seq!['\\']) && (has_prefix(pl[i - 1], seq![' '])
                        || has_prefix(pl[i - 1], seq!['+']))));
            }
            assert(ends_nl == has_suffix(new, nlc));
        } else {
            assert(join_lines(nl) =~= Seq::<char>::empty());
        }
        assert(apply_diff_spec(old, patch) == (if rs.len() == 0 {
            Seq::<char>::empty()
        } else if ends_nl {
            join_lines(rs).push('\n')
        } else {
            join_lines(rs)
        }));
    }
}

// ---------------------------------------------------------------------------
// Content hashes
// ---------------------------------------------------------------------------

/// The writes that hashing a `str` makes into a hasher: `<str as Hash>::hash`
/// feeds the hasher a fixed function of the string's characters.
pub uninterp spec fn str_hash_writes(s: Seq<char>) -> Seq<Seq<u8>>;

/// Feeds `s` to `hasher`. Calls `<str as Hash>::hash`; the contract claims
/// that what is written is a function of the characters of `s` alone.
#[verifier::external_body]
pub(crate) fn hash_str_into(s: &str, hasher: &mut std::collections::hash_map::DefaultHasher)
    ensures
        final(hasher)@ == old(hasher)@ + str_hash_writes(s@),
{
    s.hash(hasher);
}

/// The 64-bit `DefaultHasher` hash of a string.
pub open spec fn str_hash(s: Seq<char>) -> u64 {
    std::collections::hash_map::DefaultHasher::spec_finish(str_hash_writes(s))
}

/// The `DefaultHasher` hash of `s`.
pub fn hash_str(s: &str) -> (h: u64)
    ensures
        h == str_hash(s@),
{
    let mut hasher = std::collections::hash_map::DefaultHasher::new();
    hash_str_into(s, &mut hasher);
    assert(hasher@ == Seq::<Seq<u8>>::empty() + str_hash_writes(s@));
    assert(Seq::<Seq<u8>>::empty() + str_hash_writes(s@) =~= str_hash_writes(s@));
    hasher.finish()
}

/// The hash of `content` as sixteen lower-case hexadecimal digits.
pub fn hash_content(content: &str) -> (h: String)
    ensures
        h@ == hex_digits(str_hash(content@) as nat, 16),
        h@.len() == 16,
{
    let n = hash_str(content);
    let mut s = String::new();
    push_hex(&mut s, n, 16);
    proof {
        lemma_hex_digits_len(n as nat, 16);
    }
    assert(s@ =~= hex_digits(n as nat, 16));
    s
}

} // verus!
