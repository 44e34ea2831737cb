//! The parts of a semantic search that are not arithmetic on vectors: how
//! many results are asked for, the filter clause of the query and its
//! keyword pattern, and the snippet shown for a hit.

use vstd::prelude::*;
use crate::text::{chars_of, push_char, push_chars, push_decimal, decimal, is_white_space, white_space};

verus! {

broadcast use vstd::string::group_string_axioms;

/// The filters of a search as the user interface sends them; dates are
/// RFC 3339 text.
#[derive(Debug, Clone)]
pub struct SearchFiltersDto {
    pub file_types: Option<Vec<String>>,
    pub date_from: Option<String>,
    pub date_to: Option<String>,
    pub path_keyword: Option<String>,
}

/// The number of results returned: `top_k`, or 20 when not given, kept
/// between 1 and 100.
pub open spec fn top_k_spec(top_k: Option<usize>) -> int {
    let k = match top_k {
        Some(k) => k as int,
        None => 20,
    };
    if k < 1 {
        1
    } else if k > 100 {
        100
    } else {
        k
    }
}

/// The number of results a query returns (see `top_k_spec`).
pub fn effective_top_k(top_k: Option<usize>) -> (k: usize)
    ensures
        k == top_k_spec(top_k),
        1 <= k <= 100,
{
    let k = match top_k {
        Some(k) => k,
        None => 20,
    };
    if k < 1 {
        1
    } else if k > 100 {
        100
    } else {
        k
    }
}

/// A query returns 20 results when no number is asked for, the number
/// asked for when it is between 1 and 100, and otherwise the nearer of 1
/// and 100.
pub proof fn lemma_top_k(k: usize)
    ensures
        top_k_spec(None) == 20,
        1 <= k <= 100 ==> top_k_spec(Some(k)) == k,
        k < 1 ==> top_k_spec(Some(k)) == 1,
        k > 100 ==> top_k_spec(Some(k)) == 100,
{
}

/// The filters of a search with their dates read, as nanoseconds since the
/// Unix epoch.
#[derive(Debug, Clone)]
pub struct SearchFilters {
    pub file_types: Option<Vec<String>>,
    pub date_from: Option<i64>,
    pub date_to: Option<i64>,
    pub path_keyword: Option<String>,
}

/// Why the filters of a search cannot be read.
#[derive(Debug, Clone, PartialEq, Eq)]
pub enum FilterError {
    /// A date is not RFC 3339 text; the text is given.
    BadDate(String),
}

/// The instant that `chrono` reads from an RFC 3339 date text, as seconds
/// since the Unix epoch and nanoseconds past that second; nothing when the
/// text does not read.
pub uninterp spec fn rfc3339_instant(text: Seq<char>) -> Option<(i64, u32)>;

/// Reads an RFC 3339 date text.
/// Calls `chrono::DateTime::parse_from_rfc3339`, then `timestamp` and
/// `timestamp_subsec_nanos` of the result. The result is named by
/// `rfc3339_instant`: which texts read and what instant each names is
/// left to `chrono` and not stated here.
#[verifier::external_body]
fn parse_rfc3339(text: &str) -> (r: Option<(i64, u32)>)
    ensures
        r == rfc3339_instant(text@),
{
    match chrono::DateTime::parse_from_rfc3339(text) {
        Ok(d) => Some((d.timestamp(), d.timestamp_subsec_nanos())),
        Err(_) => None,
    }
}

/// An instant given as seconds since the Unix epoch and nanoseconds past
/// that second, as nanoseconds since the epoch, kept within the range of
/// `i64` (an instant before or after it gives its lower or upper end).
pub open spec fn instant_nanos(secs: i64, sub: u32) -> i64 {
    let n = secs * 1_000_000_000 + sub;
    if n < i64::MIN {
        i64::MIN
    } else if n > i64::MAX {
        i64::MAX
    } else {
        n as i64
    }
}

/// The nanoseconds since the Unix epoch of an instant (see `instant_nanos`).
pub fn nanos_of_instant(secs: i64, sub: u32) -> (n: i64)
    ensures
        n == instant_nanos(secs, sub),
{
    assert(-9_300_000_000_000_000_000_000_000_000int <= secs * 1_000_000_000int
        <= 9_300_000_000_000_000_000_000_000_000int) by (nonlinear_arith)
        requires
            i64::MIN <= secs <= i64::MAX,
    ;
    let wide: i128 = (secs as i128) * 1_000_000_000i128 + (sub as i128);
    if wide < (i64::MIN as i128) {
        i64::MIN
    } else if wide > (i64::MAX as i128) {
        i64::MAX
    } else {
        wide as i64
    }
}

/// The date a filter text gives: the nanoseconds of the instant it names,
/// or nothing when it does not read.
pub open spec fn date_spec(text: Seq<char>) -> Option<i64> {
    match rfc3339_instant(text) {
        Some(i) => Some(instant_nanos(i.0, i.1)),
        None => None,
    }
}

/// The date of a filter's parsed instant (see `date_spec`).
pub fn date_of_instant(parsed: Option<(i64, u32)>) -> (r: Option<i64>)
    ensures
        r == (match parsed {
            Some(i) => Some(instant_nanos(i.0, i.1)),
            None => None::<i64>,
        }),
{
    match parsed {
        Some((secs, sub)) => Some(nanos_of_instant(secs, sub)),
        None => None,
    }
}

/// Reads a filter's date text (see `date_spec`).
pub fn parse_date(text: &str) -> (r: Option<i64>)
    ensures
        r == date_spec(text@),
{
    date_of_instant(parse_rfc3339(text))
}

/// A date field of the filters read: `Some(None)` when no date is given,
/// `Some(Some(n))` when its text reads as `n`, and `None` when it does not
/// read.
pub open spec fn date_field(d: Option<String>) -> Option<Option<i64>> {
    match d {
        None => Some(None),
        Some(t) => match date_spec(t@) {
            Some(n) => Some(Some(n)),
            None => None,
        },
    }
}

/// Reads the dates of the filters. Fails on the first date given, `from`
/// before `to`, whose text does not read, and gives that text; otherwise
/// the filters with their dates read, file types and keyword unchanged.
pub fn filters_from_dto(f: SearchFiltersDto) -> (r: Result<SearchFilters, FilterError>)
    ensures
        (match (date_field(f.date_from), date_field(f.date_to)) {
            (Some(a), Some(b)) => r == Ok::<SearchFilters, FilterError>(
                (SearchFilters { file_types: f.file_types, date_from: a, date_to: b, path_keyword: f.path_keyword }),
            ),
            (None, _) => r == Err::<SearchFilters, FilterError>(FilterError::BadDate(f.date_from.unwrap())),
            (Some(_), None) => r == Err::<SearchFilters, FilterError>(FilterError::BadDate(f.date_to.unwrap())),
        }),
{
    let SearchFiltersDto { file_types, date_from, date_to, path_keyword } = f;
    let from = match date_from {
        Some(t) => match parse_date(t.as_str()) {
            Some(n) => Some(n),
            None => {
                return Err(FilterError::BadDate(t));
            },
        },
        None => None,
    };
    let to = match date_to {
        Some(t) => match parse_date(t.as_str()) {
            Some(n) => Some(n),
            None => {
                return Err(FilterError::BadDate(t));
            },
        },
        None => None,
    };
    Ok(SearchFilters { file_types, date_from: from, date_to: to, path_keyword })
}

/// The SQL placeholder `?k`.
pub open spec fn placeholder(k: nat) -> Seq<char> {
    seq!['?'] + decimal(k)
}

/// The placeholders `?start, ?start+1, …` for `count` parameters.
pub open spec fn placeholder_list(start: nat, count: nat) -> Seq<char>
    decreases count,
{
    if count == 0 {
        Seq::empty()
    } else if count == 1 {
        placeholder(start)
    } else {
        placeholder_list(start, (count - 1) as nat) + seq![',', ' '] + placeholder((start + count - 1) as nat)
    }
}

/// The clause on the file types, with its next parameter number.
pub open spec fn type_clause(type_count: nat) -> (Seq<char>, nat) {
    if type_count > 0 {
        (" AND f.file_type IN ("@ + placeholder_list(1, type_count) + seq![')'], 1 + type_count)
    } else {
        (Seq::empty(), 1)
    }
}

/// The filter clause appended to the search query: for each filter that is
/// set, ` AND ` and its condition, numbering the parameters from 1 in the
/// order types, start date, end date, keyword.
pub open spec fn filter_clause(type_count: nat, has_from: bool, has_to: bool, has_keyword: bool) -> Seq<char> {
    let (s1, i1) = type_clause(type_count);
    let (s2, i2) = if has_from {
        (s1 + " AND v.timestamp >= "@ + placeholder(i1), i1 + 1)
    } else {
        (s1, i1)
    };
    let (s3, i3) = if has_to {
        (s2 + " AND v.timestamp <= "@ + placeholder(i2), i2 + 1)
    } else {
        (s2, i2)
    };
    if has_keyword {
        s3 + " AND f.path LIKE "@ + placeholder(i3)
    } else {
        s3
    }
}

fn push_str(s: &mut String, t: &str)
    ensures
        final(s)@ == old(s)@ + t@,
{
    let cs = chars_of(t);
    push_chars(s, &cs);
}

fn push_placeholder(s: &mut String, k: usize)
    ensures
        final(s)@ == old(s)@ + placeholder(k as nat),
{
    push_char(s, '?');
    push_decimal(s, k as u64);
    assert(final(s)@ =~= old(s)@ + placeholder(k as nat));
}

/// The filter clause of a search (see `filter_clause`); `type_count` is the
/// number of file types filtered on, zero when that filter is not set.
pub fn search_filter_clause(type_count: usize, has_from: bool, has_to: bool, has_keyword: bool) -> (s: String)
    requires
        type_count < usize::MAX - 3,
    ensures
        s@ == filter_clause(type_count as nat, has_from, has_to, has_keyword),
{
    let mut s = String::new();
    let mut idx: usize = 1;
    if type_count > 0 {
        push_str(&mut s, " AND f.file_type IN (");
        let list = in_placeholders(type_count);
        let lc = chars_of(list.as_str());
        push_chars(&mut s, &lc);
        push_char(&mut s, ')');
        idx = 1 + type_count;
    }
    let ghost (s1, i1) = type_clause(type_count as nat);
    assert(s@ =~= s1 && idx == i1);
    if has_from {
        push_str(&mut s, " AND v.timestamp >= ");
        push_placeholder(&mut s, idx);
        idx += 1;
    }
    if has_to {
        push_str(&mut s, " AND v.timestamp <= ");
        push_placeholder(&mut s, idx);
        idx += 1;
    }
    if has_keyword {
        push_str(&mut s, " AND f.path LIKE ");
        push_placeholder(&mut s, idx);
    }
    assert(s@ =~= filter_clause(type_count as nat, has_from, has_to, has_keyword));
    s
}


/// The placeholders `?1, ?2, …, ?count` of an `IN` list.
pub fn in_placeholders(count: usize) -> (s: String)
    requires
        count < usize::MAX,
    ensures
        s@ == placeholder_list(1, count as nat),
{
    let mut s = String::new();
    let mut k: usize = 0;
    while k < count
        invariant
            k <= count < usize::MAX,
            s@ == placeholder_list(1, k as nat),
        decreases count - k,
    {
        if k > 0 {
            push_char(&mut s, ',');
            push_char(&mut s, ' ');
        }
        push_placeholder(&mut s, k + 1);
        proof {
            if k == 0 {
                assert(s@ =~= placeholder_list(1, 1));
            } else {
                assert(s@ =~= placeholder_list(1, (k + 1) as nat));
            }
        }
        k += 1;
    }
    s
}

/// The `LIKE` pattern that matches paths containing `keyword`: `%keyword%`.
pub fn keyword_pattern(keyword: &str) -> (p: String)
    ensures
        p@ == seq!['%'] + keyword@ + seq!['%'],
{
    let mut p = String::new();
    push_char(&mut p, '%');
    push_str(&mut p, keyword);
    push_char(&mut p, '%');
    assert(p@ =~= seq!['%'] + keyword@ + seq!['%']);
    p
}

// ---------------------------------------------------------------------------
// Snippets
// ---------------------------------------------------------------------------

/// The number of bytes that UTF-8 takes for `c`.
pub open spec fn utf8_width(c: char) -> nat {
    let u = c as u32;
    if u < 0x80 {
        1
    } else if u < 0x800 {
        2
    } else if u < 0x10000 {
        3
    } else {
        4
    }
}

/// The number of bytes of the UTF-8 encoding of `s`.
pub open spec fn utf8_len(s: Seq<char>) -> nat
    decreases s.len(),
{
    if s.len() == 0 {
        0
    } else {
        utf8_len(s.drop_last()) + utf8_width(s.last())
    }
}

/// The index of the first character of `s` that is not white space (the
/// length when there is none).
pub open spec fn trim_start_index(s: Seq<char>) -> int
    decreases s.len(),
{
    if s.len() == 0 || !is_white_space(s[0]) {
        0
    } else {
        1 + trim_start_index(s.drop_first())
    }
}

/// The index just after the last character of `s` that is not white space
/// (zero when there is none).
pub open spec fn trim_end_index(s: Seq<char>) -> int
    decreases s.len(),
{
    if s.len() == 0 || !is_white_space(s.last()) {
        s.len() as int
    } else {
        trim_end_index(s.drop_last())
    }
}

/// `s` without its leading and trailing white space, as `str::trim` gives it.
pub open spec fn trim_spec(s: Seq<char>) -> Seq<char> {
    let a = trim_start_index(s);
    if a == s.len() {
        Seq::empty()
    } else {
        s.subrange(a, trim_end_index(s))
    }
}

/// The longest snippet, in bytes, shown without cutting.
pub const SNIPPET_BYTES: usize = 200;

/// The snippet shown for a hit: the trimmed text when it takes at most 200
/// bytes; else its first 200 characters followed by `...`, or, when it has
/// at most 200 characters, its first 200 bytes followed by `...`.
pub open spec fn snippet_spec(text: Seq<char>) -> Seq<char> {
    let t = trim_spec(text);
    if utf8_len(t) <= 200 {
        t
    } else if t.len() > 200 {
        t.take(200) + "..."@
    } else {
        t.take(prefix_with_bytes(t, 200)) + "..."@
    }
}

/// The number of leading characters of `s` that take exactly `b` bytes.
pub open spec fn prefix_with_bytes(s: Seq<char>, b: nat) -> int {
    choose|k: int| 0 <= k <= s.len() && utf8_len(s.take(k)) == b
}

/// Whether the text can be cut at 200 bytes when it has to be: a cut at a
/// byte that is not a character boundary is refused.
pub open spec fn snippet_cut_ok(text: Seq<char>) -> bool {
    let t = trim_spec(text);
    utf8_len(t) <= 200 || t.len() > 200
        || exists|k: int| 0 <= k <= t.len() && #[trigger] utf8_len(t.take(k)) == 200
}

fn width(c: char) -> (w: usize)
    ensures
        w == utf8_width(c),
{
    let u = c as u32;
    if u < 0x80 {
        1
    } else if u < 0x800 {
        2
    } else if u < 0x10000 {
        3
    } else {
        4
    }
}

proof fn lemma_utf8_len_take(s: Seq<char>, k: int)
    requires
        0 <= k < s.len(),
    ensures
        utf8_len(s.take(k + 1)) == utf8_len(s.take(k)) + utf8_width(s[k]),
{
    assert(s.take(k + 1).drop_last() =~= s.take(k));
}

proof fn lemma_utf8_len_mono(s: Seq<char>, j: int, k: int)
    requires
        0 <= j <= k <= s.len(),
    ensures
        utf8_len(s.take(j)) <= utf8_len(s.take(k)),
        j < k ==> utf8_len(s.take(j)) < utf8_len(s.take(k)),
    decreases k - j,
{
    if j < k {
        lemma_utf8_len_mono(s, j, k - 1);
        lemma_utf8_len_take(s, k - 1);
    }
}

proof fn lemma_trim_start(s: Seq<char>)
    ensures
        0 <= trim_start_index(s) <= s.len(),
        forall|i: int| 0 <= i < trim_start_index(s) ==> is_white_space(#[trigger] s[i]),
        trim_start_index(s) < s.len() ==> !is_white_space(s[trim_start_index(s)]),
    decreases s.len(),
{
    if s.len() > 0 && is_white_space(s[0]) {
        lemma_trim_start(s.drop_first());
        assert forall|i: int| 0 <= i < trim_start_index(s) implies is_white_space(#[trigger] s[i]) by {
            if i > 0 {
                assert(s[i] == s.drop_first()[i - 1]);
            }
        }
    }
}

proof fn lemma_trim_end(s: Seq<char>)
    ensures
        0 <= trim_end_index(s) <= s.len(),
        forall|i: int| trim_end_index(s) <= i < s.len() ==> is_white_space(#[trigger] s[i]),
        trim_end_index(s) > 0 ==> !is_white_space(s[trim_end_index(s) - 1]),
    decreases s.len(),
{
    if s.len() > 0 && is_white_space(s.last()) {
        lemma_trim_end(s.drop_last());
        assert forall|i: int| trim_end_index(s) <= i < s.len() implies is_white_space(#[trigger] s[i]) by {
            if i < s.len() - 1 {
                assert(s[i] == s.drop_last()[i]);
            }
        }
    }
}

proof fn lemma_trim_start_at(s: Seq<char>, a: int)
    requires
        0 <= a <= s.len(),
        forall|i: int| 0 <= i < a ==> is_white_space(#[trigger] s[i]),
        a < s.len() ==> !is_white_space(s[a]),
    ensures
        trim_start_index(s) == a,
    decreases a,
{
    if a > 0 {
        assert forall|i: int| 0 <= i < a - 1 implies is_white_space(#[trigger] s.drop_first()[i]) by {
            assert(s.drop_first()[i] == s[i + 1]);
        }
        lemma_trim_start_at(s.drop_first(), a - 1);
    }
}

proof fn lemma_trim_end_at(s: Seq<char>, b: int)
    requires
        0 <= b <= s.len(),
        forall|i: int| b <= i < s.len() ==> is_white_space(#[trigger] s[i]),
        b > 0 ==> !is_white_space(s[b - 1]),
    ensures
        trim_end_index(s) == b,
    decreases s.len() - b,
{
    if b < s.len() {
        assert forall|i: int| b <= i < s.len() - 1 implies is_white_space(#[trigger] s.drop_last()[i]) by {
            assert(s.drop_last()[i] == s[i]);
        }
        lemma_trim_end_at(s.drop_last(), b);
    }
}

/// `text` without leading and trailing white space (see `trim_spec`).
pub fn trim_chars(text: &Vec<char>) -> (t: Vec<char>)
    ensures
        t@ == trim_spec(text@),
{
    let n = text.len();
    let mut a: usize = 0;
    while a < n && white_space(text[a])
        invariant
            n == text@.len(),
            a <= n,
            forall|i: int| 0 <= i < a ==> is_white_space(#[trigger] text@[i]),
        decreases n - a,
    {
        a += 1;
    }
    proof {
        lemma_trim_start_at(text@, a as int);
    }
    if a == n {
        return Vec::new();
    }
    let mut b: usize = n;
    while b > a && white_space(text[b - 1])
        invariant
            n == text@.len(),
            a < b <= n,
            a < n,
            !is_white_space(text@[a as int]),
            forall|i: int| b <= i < n ==> is_white_space(#[trigger] text@[i]),
        decreases b,
    {
        b -= 1;
    }
    proof {
        lemma_trim_end_at(text@, b as int);
    }
    let mut t: Vec<char> = Vec::new();
    let mut i: usize = a;
    while i < b
        invariant
            a <= i <= b <= n,
            n == text@.len(),
            t@ == text@.subrange(a as int, i as int),
        decreases b - i,
    {
        t.push(text[i]);
        i += 1;
        assert(t@ =~= text@.subrange(a as int, i as int));
    }
    t
}

/// Counts the UTF-8 bytes of `t` until they pass 200: the result is the
/// byte count when it is at most 200, and some count above 200 otherwise.
fn bytes_up_to_limit(t: &Vec<char>) -> (n: usize)
    ensures
        n <= 204,
        utf8_len(t@) <= 200 ==> n == utf8_len(t@),
        utf8_len(t@) > 200 <==> n > 200,
{
    let mut bytes: usize = 0;
    let mut i: usize = 0;
    while i < t.len() && bytes <= 200
        invariant
            i <= t@.len(),
            bytes == utf8_len(t@.take(i as int)),
            bytes <= 204,
        decreases t.len() - i,
    {
        proof {
            lemma_utf8_len_take(t@, i as int);
        }
        bytes = bytes + width(t[i]);
        i += 1;
    }
    proof {
        lemma_utf8_len_mono(t@, i as int, t@.len() as int);
        assert(t@.take(t@.len() as int) =~= t@);
    }
    bytes
}

/// The number of leading characters of `t` that take exactly 200 bytes, when
/// there is such a number.
fn cut_at_200(t: &Vec<char>) -> (k: usize)
    requires
        exists|k: int| 0 <= k <= t@.len() && #[trigger] utf8_len(t@.take(k)) == 200,
    ensures
        k <= t@.len(),
        utf8_len(t@.take(k as int)) == 200,
        k == prefix_with_bytes(t@, 200),
{
    let mut bytes: usize = 0;
    let mut i: usize = 0;
    while i < t.len() && bytes < 200
        invariant
            i <= t@.len(),
            bytes == utf8_len(t@.take(i as int)),
            bytes <= 203,
            i == 0 || utf8_len(t@.take(i - 1)) < 200,
            exists|k: int| 0 <= k <= t@.len() && #[trigger] utf8_len(t@.take(k)) == 200,
        decreases t.len() - i,
    {
        proof {
            lemma_utf8_len_take(t@, i as int);
        }
        bytes = bytes + width(t[i]);
        i += 1;
    }
    proof {
        let k = choose|k: int| 0 <= k <= t@.len() && #[trigger] utf8_len(t@.take(k)) == 200;
        if k < i {
            lemma_utf8_len_mono(t@, k, i - 1);
        } else if k > i {
            lemma_utf8_len_mono(t@, i as int, k);
        }
        assert(k == i);
        let c = prefix_with_bytes(t@, 200);
        if c < i {
            lemma_utf8_len_mono(t@, c, i - 1);
        } else if c > i {
            lemma_utf8_len_mono(t@, i as int, c);
        }
    }
    i
}

/// The snippet shown for a hit whose text is `text` (see `snippet_spec`).
pub fn make_snippet(text: &str) -> (s: String)
    requires
        snippet_cut_ok(text@),
    ensures
        s@ == snippet_spec(text@),
{
    let cs = chars_of(text);
    let t = trim_chars(&cs);
    let n = bytes_up_to_limit(&t);
    let mut out = String::new();
    if n <= 200 {
        push_chars(&mut out, &t);
        assert(out@ =~= snippet_spec(text@));
        return out;
    }
    let k = if t.len() > 200 { 200 } else { cut_at_200(&t) };
    let mut i: usize = 0;
    while i < k
        invariant
            i <= k <= t@.len(),
            out@ == t@.take(i as int),
        decreases k - i,
    {
        push_char(&mut out, t[i]);
        i += 1;
        assert(out@ =~= t@.take(i as int));
    }
    push_str(&mut out, "...");
    out
}


proof fn lemma_utf8_len_at_least(s: Seq<char>)
    ensures
        utf8_len(s) >= s.len(),
        utf8_len(s) <= 4 * s.len(),
    decreases s.len(),
{
    if s.len() > 0 {
        lemma_utf8_len_at_least(s.drop_last());
    }
}

/// A snippet is never longer than 203 characters: at most 200 of the text
/// and the three dots.
pub proof fn lemma_snippet_bound(text: Seq<char>)
    requires
        snippet_cut_ok(text),
    ensures
        snippet_spec(text).len() <= 203,
{
    let t = trim_spec(text);
    reveal_strlit("...");
    lemma_utf8_len_at_least(t);
    if utf8_len(t) > 200 && t.len() <= 200 {
        let k = prefix_with_bytes(t, 200);
        assert(0 <= k <= t.len());
    }
}

} // verus!
