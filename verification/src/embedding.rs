//! The integer side of the embedding providers: the ONNX provider's
//! configuration, and for the hashing provider the tokens it extracts from a
//! text and the vector slot and sign that each feature is hashed to. The
//! weights, sums and normalisation are floating point and are applied by the
//! caller.

use vstd::prelude::*;
use vstd::std_specs::hash::DefaultHasherAdditionalSpecFns;
use std::hash::Hasher;
use crate::text::{
    chars_of, push_char, push_chars, push_decimal, decimal, split_where, non_empty,
    pieces_where, views, to_lowercase, unicode_lowercase, string_of,
};
use crate::diff::{hash_str, hash_str_into, str_hash, str_hash_writes};
use crate::seqs::{str_views, lemma_str_views_push};

verus! {

broadcast use vstd::string::group_string_axioms;

/// The length of the vectors that both providers produce.
pub const VECTOR_DIM: usize = 384;

/// Why a provider gives no vector.
#[derive(Debug, Clone, Copy, PartialEq, Eq, Structural)]
pub enum EmbeddingError {
    /// The ONNX runtime is not built in; the hashing provider is used instead.
    OnnxDisabled,
}

/// The provider backed by an ONNX sentence model. The runtime is not built
/// in, so it records where the model is and produces no vectors.
#[derive(Debug)]
pub struct OnnxEmbeddingProvider {
    model_path: String,
    session: Option<()>,
}

impl OnnxEmbeddingProvider {
    /// The configured model path.
    pub closed spec fn spec_model_path(&self) -> Seq<char> {
        self.model_path@
    }

    /// Whether a model session is open.
    pub closed spec fn has_session(&self) -> bool {
        self.session is Some
    }

    /// A provider for the model at `model_path`; no session is opened, so
    /// this always succeeds.
    pub fn new(model_path: &str) -> (r: Result<Self, EmbeddingError>)
        ensures
            r matches Ok(p) && p.spec_model_path() == model_path@ && !p.has_session(),
    {
        let cs = chars_of(model_path);
        Ok(OnnxEmbeddingProvider { model_path: string_of(&cs), session: None })
    }

    /// The model path the provider was made with.
    pub fn model_path(&self) -> (s: &str)
        ensures
            s@ == self.spec_model_path(),
    {
        self.model_path.as_str()
    }

    /// The result of asking this provider for a vector: it always declines.
    pub fn generate_status(&self) -> (r: Result<(), EmbeddingError>)
        ensures
            r == Err::<(), EmbeddingError>(EmbeddingError::OnnxDisabled),
    {
        Err(EmbeddingError::OnnxDisabled)
    }

    /// The length of the vectors of the model.
    pub fn dimension(&self) -> (d: usize)
        ensures
            d == VECTOR_DIM,
    {
        VECTOR_DIM
    }
}

/// The provider that hashes words and character n-grams into a fixed-length
/// vector.
#[derive(Debug, Clone, Copy)]
pub struct TfIdfFallbackProvider;

/// The character n-grams of `cs`: every window of `n` consecutive
/// characters, in order; a text shorter than `n` gives itself, unless it is
/// empty.
pub open spec fn char_ngrams_spec(cs: Seq<char>, n: nat) -> Seq<Seq<char>> {
    if cs.len() < n {
        if cs.len() == 0 {
            Seq::empty()
        } else {
            seq![cs]
        }
    } else {
        Seq::new((cs.len() - n + 1) as nat, |i: int| cs.subrange(i, i + n))
    }
}

/// What `char::is_alphanumeric` says of a character: whether it is
/// alphabetic or numeric under the Unicode tables.
pub uninterp spec fn char_alphanumeric(c: char) -> bool;

/// Whether `c` is alphanumeric. Calls `char::is_alphanumeric`; the result is
/// named by `char_alphanumeric`.
#[verifier::external_body]
fn is_alphanumeric(c: char) -> (b: bool)
    ensures
        b == char_alphanumeric(c),
{
    c.is_alphanumeric()
}

/// The separators between word tokens: every character that is not
/// alphanumeric.
pub open spec fn token_separator() -> spec_fn(char) -> bool {
    |c: char| !char_alphanumeric(c)
}

/// The word tokens of `t`: the non-empty runs of alphanumeric characters,
/// each lower-cased, in order.
pub open spec fn word_tokens_spec(t: Seq<char>) -> Seq<Seq<char>> {
    non_empty(split_where(t, token_separator())).map_values(|w: Seq<char>| unicode_lowercase(w))
}

/// The hash of `s` reduced to a slot of a vector of length `dim`.
pub open spec fn slot_of(s: Seq<char>, dim: usize) -> usize {
    ((str_hash(s) as usize) % dim) as usize
}

/// The hash that decides the sign of a feature: the `DefaultHasher` hash of
/// the pair `("sign", s)`, which hashes the two strings one after the other.
pub open spec fn sign_hash(s: Seq<char>) -> u64 {
    std::collections::hash_map::DefaultHasher::spec_finish(
        str_hash_writes("sign"@) + str_hash_writes(s),
    )
}

/// The sign of a feature: `1` when its sign hash is even, else `-1`.
pub open spec fn sign_of(s: Seq<char>) -> i8 {
    if sign_hash(s) % 2 == 0 {
        1i8
    } else {
        -1i8
    }
}

/// The key under which the `n`-grams are hashed: `ng{n}:{gram}`.
pub open spec fn ngram_key(n: nat, gram: Seq<char>) -> Seq<char> {
    seq!['n', 'g'] + decimal(n) + seq![':'] + gram
}

/// The key under which a special token is hashed: `tk:{token}`.
pub open spec fn token_key(token: Seq<char>) -> Seq<char> {
    seq!['t', 'k', ':'] + token
}

/// Whether `pat` occurs in `t` as a run of consecutive characters.
pub open spec fn occurs_in(t: Seq<char>, pat: Seq<char>) -> bool {
    exists|i: int| 0 <= i && i + pat.len() <= t.len() && #[trigger] t.subrange(i, i + pat.len()) == pat
}

/// A feature: the vector slot of a key and the sign added there.
pub open spec fn feature(key: Seq<char>, sign_source: Seq<char>) -> (usize, i8) {
    (slot_of(key, VECTOR_DIM), sign_of(sign_source))
}

/// The string made of `v[i..j]`.
fn string_of_range(v: &Vec<char>, i: usize, j: usize) -> (s: String)
    requires
        i <= j <= v@.len(),
    ensures
        s@ == v@.subrange(i as int, j as int),
{
    let mut s = String::new();
    let mut k: usize = i;
    while k < j
        invariant
            i <= k <= j <= v@.len(),
            s@ == v@.subrange(i as int, k as int),
        decreases j - k,
    {
        push_char(&mut s, v[k]);
        k += 1;
        assert(s@ =~= v@.subrange(i as int, k as int));
    }
    s
}

impl TfIdfFallbackProvider {
    pub fn new() -> (p: Self) {
        TfIdfFallbackProvider
    }

    /// The length of the vectors it produces.
    pub fn dimension(&self) -> (d: usize)
        ensures
            d == VECTOR_DIM,
    {
        VECTOR_DIM
    }

    /// The character n-grams of `text` (see `char_ngrams_spec`).
    pub fn char_ngrams(text: &str, n: usize) -> (v: Vec<String>)
        ensures
            str_views(v@) == char_ngrams_spec(text@, n as nat),
    {
        let cs = chars_of(text);
        let mut v: Vec<String> = Vec::new();
        if cs.len() < n {
            if cs.len() > 0 {
                v.push(string_of(&cs));
                assert(str_views(v@) =~= seq![text@]);
            } else {
                assert(str_views(v@) =~= Seq::<Seq<char>>::empty());
            }
            return v;
        }
        let last = cs.len() - n;
        let ghost all = char_ngrams_spec(text@, n as nat);
        let mut i: usize = 0;
        let mut more = true;
        while more
            invariant
                cs@ == text@,
                n <= cs@.len(),
                last == cs@.len() - n,
                all == char_ngrams_spec(text@, n as nat),
                all.len() == last + 1,
                i <= last,
                i + n <= cs.len(),
                more ==> str_views(v@) == all.take(i as int),
                !more ==> str_views(v@) == all,
            decreases last - i + (if more { 1int } else { 0int }),
        {
            let g = string_of_range(&cs, i, i + n);
            let ghost before = v@;
            v.push(g);
            proof {
                assert(all[i as int] == cs@.subrange(i as int, i + n));
                lemma_str_views_push(before, g);
                assert(all.take(i + 1) =~= all.take(i as int).push(all[i as int]));
            }
            if i == last {
                more = false;
                assert(all.take(i + 1) =~= all);
            } else {
                i += 1;
            }
        }
        v
    }

    /// The word tokens of `text` (see `word_tokens_spec`).
    pub fn word_tokens(text: &str) -> (v: Vec<String>)
        ensures
            str_views(v@) == word_tokens_spec(text@),
    {
        let cs = chars_of(text);
        let ghost sep = token_separator();
        let mut marks: Vec<bool> = Vec::new();
        let mut i: usize = 0;
        while i < cs.len()
            invariant
                i <= cs.len(),
                marks@.len() == i,
                sep == token_separator(),
                forall|k: int| 0 <= k < i ==> #[trigger] marks@[k] == sep(cs@[k]),
            decreases cs.len() - i,
        {
            marks.push(!is_alphanumeric(cs[i]));
            i += 1;
        }
        let pieces = pieces_where(&cs, &marks, Ghost(sep));
        let ghost ps = non_empty(split_where(text@, sep));
        let mut out: Vec<String> = Vec::new();
        let mut j: usize = 0;
        while j < pieces.len()
            invariant
                j <= pieces.len(),
                views(pieces@) == ps,
                str_views(out@) == ps.take(j as int).map_values(|w: Seq<char>| unicode_lowercase(w)),
            decreases pieces.len() - j,
        {
            let w = string_of(&pieces[j]);
            assert(w@ == ps[j as int]);
            let lw = to_lowercase(w.as_str());
            let ghost before = out@;
            out.push(lw);
            proof {
                lemma_str_views_push(before, lw);
                assert(ps.take(j + 1) =~= ps.take(j as int).push(ps[j as int]));
                assert(str_views(out@) =~= ps.take(j + 1).map_values(|w: Seq<char>| unicode_lowercase(w)));
            }
            j += 1;
        }
        assert(ps.take(pieces.len() as int) =~= ps);
        out
    }

    /// The slot of `s` in a vector of length `dim`: its `DefaultHasher` hash
    /// modulo `dim`.
    pub fn hash_to_index(s: &str, dim: usize) -> (i: usize)
        requires
            dim > 0,
        ensures
            i == slot_of(s@, dim),
            i < dim,
    {
        let h = hash_str(s);
        (h as usize) % dim
    }

    /// The sign that a feature adds (see `sign_of`).
    pub fn hash_sign(s: &str) -> (r: i8)
        ensures
            r == sign_of(s@),
    {
        let mut hasher = std::collections::hash_map::DefaultHasher::new();
        hash_str_into("sign", &mut hasher);
        hash_str_into(s, &mut hasher);
        assert(hasher@ =~= str_hash_writes("sign"@) + str_hash_writes(s@));
        if hasher.finish() % 2 == 0 {
            1
        } else {
            -1
        }
    }
}


/// The features of the word tokens of `t`, in order: each word is hashed
/// under itself.
pub open spec fn word_features_spec(t: Seq<char>) -> Seq<(usize, i8)> {
    word_tokens_spec(t).map_values(|w: Seq<char>| feature(w, w))
}

/// The features of the `n`-grams of `t`, in order: each gram is hashed under
/// its key `ng{n}:{gram}`, for the slot and for the sign.
pub open spec fn ngram_features_spec(t: Seq<char>, n: nat) -> Seq<(usize, i8)> {
    char_ngrams_spec(t, n).map_values(|g: Seq<char>| feature(ngram_key(n, g), ngram_key(n, g)))
}

/// The feature of a special token, when it occurs in `t`: the slot of its key
/// `tk:{token}` and the sign of the token itself.
pub open spec fn token_feature_spec(t: Seq<char>, token: Seq<char>) -> Option<(usize, i8)> {
    if occurs_in(t, token) {
        Some(feature(token_key(token), token))
    } else {
        None
    }
}

/// Whether `pat` occurs in `t` (what `str::contains` answers for a string
/// pattern).
pub fn contains_text(t: &str, pat: &str) -> (b: bool)
    ensures
        b == occurs_in(t@, pat@),
{
    let tc = chars_of(t);
    let pc = chars_of(pat);
    if pc.len() > tc.len() {
        return false;
    }
    let last = tc.len() - pc.len();
    let mut i: usize = 0;
    while i <= last
        invariant
            tc@ == t@,
            pc@ == pat@,
            last == tc@.len() - pc@.len(),
            i <= last + 1,
            forall|k: int| 0 <= k < i ==> #[trigger] t@.subrange(k, k + pat@.len()) != pat@,
        decreases last + 1 - i,
    {
        let mut j: usize = 0;
        let mut same = true;
        while j < pc.len() && same
            invariant
                tc@ == t@,
                pc@ == pat@,
                i <= last,
                last == tc@.len() - pc@.len(),
                i + pc.len() <= tc.len(),
                j <= pc@.len(),
                same == (forall|m: int| 0 <= m < j ==> tc@[i + m] == pc@[m]),
            decreases pc.len() - j,
        {
            if tc[i + j] != pc[j] {
                same = false;
            }
            j += 1;
        }
        if same {
            assert(t@.subrange(i as int, i + pat@.len()) =~= pat@);
            return true;
        }
        proof {
            let m = choose|m: int| 0 <= m < j && tc@[i + m] != pc@[m];
            assert(t@.subrange(i as int, i + pat@.len())[m] != pat@[m]);
        }
        if i == last {
            proof {
                assert forall|k: int| 0 <= k && k + pat@.len() <= t@.len() implies #[trigger] t@.subrange(k, k + pat@.len()) != pat@ by {
                    assert(k <= i);
                }
            }
            return false;
        }
        i += 1;
    }
    false
}

impl TfIdfFallbackProvider {
    /// The key `ng{n}:{gram}` of an n-gram.
    pub fn ngram_key(n: usize, gram: &str) -> (k: String)
        ensures
            k@ == ngram_key(n as nat, gram@),
    {
        let mut k = String::new();
        push_char(&mut k, 'n');
        push_char(&mut k, 'g');
        push_decimal(&mut k, n as u64);
        push_char(&mut k, ':');
        let gc = chars_of(gram);
        push_chars(&mut k, &gc);
        assert(k@ =~= ngram_key(n as nat, gram@));
        k
    }

    /// The key `tk:{token}` of a special token.
    pub fn token_key(token: &str) -> (k: String)
        ensures
            k@ == token_key(token@),
    {
        let mut k = String::new();
        push_char(&mut k, 't');
        push_char(&mut k, 'k');
        push_char(&mut k, ':');
        let tc = chars_of(token);
        push_chars(&mut k, &tc);
        assert(k@ =~= token_key(token@));
        k
    }

    /// The slot and sign of each word token of `text`.
    pub fn word_features(text: &str) -> (v: Vec<(usize, i8)>)
        ensures
            v@ == word_features_spec(text@),
    {
        let words = Self::word_tokens(text);
        let ghost ws = word_tokens_spec(text@);
        let mut v: Vec<(usize, i8)> = Vec::new();
        let mut i: usize = 0;
        while i < words.len()
            invariant
                i <= words.len(),
                str_views(words@) == ws,
                ws == word_tokens_spec(text@),
                v@ == ws.take(i as int).map_values(|w: Seq<char>| feature(w, w)),
            decreases words.len() - i,
        {
            let w = words[i].as_str();
            assert(w@ == ws[i as int]);
            let slot = Self::hash_to_index(w, VECTOR_DIM);
            let sign = Self::hash_sign(w);
            v.push((slot, sign));
            assert(ws.take(i + 1) =~= ws.take(i as int).push(ws[i as int]));
            assert(v@ =~= ws.take(i + 1).map_values(|w: Seq<char>| feature(w, w)));
            i += 1;
        }
        assert(ws.take(i as int) =~= ws);
        v
    }

    /// The slot and sign of each `n`-gram of `text`.
    pub fn ngram_features(text: &str, n: usize) -> (v: Vec<(usize, i8)>)
        ensures
            v@ == ngram_features_spec(text@, n as nat),
    {
        let grams = Self::char_ngrams(text, n);
        let ghost gs = char_ngrams_spec(text@, n as nat);
        let mut v: Vec<(usize, i8)> = Vec::new();
        let mut i: usize = 0;
        while i < grams.len()
            invariant
                i <= grams.len(),
                str_views(grams@) == gs,
                gs == char_ngrams_spec(text@, n as nat),
                v@ == gs.take(i as int).map_values(|g: Seq<char>| feature(ngram_key(n as nat, g), ngram_key(n as nat, g))),
            decreases grams.len() - i,
        {
            assert(grams@[i as int]@ == gs[i as int]);
            let key = Self::ngram_key(n, grams[i].as_str());
            let slot = Self::hash_to_index(key.as_str(), VECTOR_DIM);
            let sign = Self::hash_sign(key.as_str());
            v.push((slot, sign));
            assert(gs.take(i + 1) =~= gs.take(i as int).push(gs[i as int]));
            assert(v@ =~= gs.take(i + 1).map_values(|g: Seq<char>| feature(ngram_key(n as nat, g), ngram_key(n as nat, g))));
            i += 1;
        }
        assert(gs.take(i as int) =~= gs);
        v
    }

    /// The slot and sign of a special token, when it occurs in `text`.
    pub fn token_feature(text: &str, token: &str) -> (r: Option<(usize, i8)>)
        ensures
            r == token_feature_spec(text@, token@),
    {
        if contains_text(text, token) {
            let key = Self::token_key(token);
            let slot = Self::hash_to_index(key.as_str(), VECTOR_DIM);
            Some((slot, Self::hash_sign(token)))
        } else {
            None
        }
    }
}

} // verus!
