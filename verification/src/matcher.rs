//! Field-level match grading via [`MatchKind`].
//!
//! Fuzzy similarities come from `strsim` as IEEE-754 doubles in `[0, 1]`. They
//! are carried here as their bit patterns: on non-negative doubles the order of
//! the bit patterns (as unsigned integers) is the numeric order, so thresholds
//! and maxima are decided exactly without arithmetic on floats.
use vstd::prelude::*;

use crate::normalize::{fold_case, words, words_of};
use crate::text::{
    chars_of, contains_chars, contains_seq, copy_string, find_seq, lowercase, matches_at,
    starts_with_chars, starts_with_seq, views,
};
use crate::types::MatchSpan;

verus! {

/// Bit pattern of the double `0.72`, the fuzzy-match floor.
pub const FUZZY_THRESHOLD_BITS: u64 = 0x3FE7_0A3D_70A3_D70A;

/// Bit pattern of the double `0.88`, the Jaro–Winkler floor.
pub const JARO_THRESHOLD_BITS: u64 = 0x3FEC_28F5_C28F_5C29;

/// Bit pattern of `strsim::jaro_winkler(a, b)`.
pub uninterp spec fn jaro_winkler_bits(a: Seq<char>, b: Seq<char>) -> u64;

/// Bit pattern of `strsim::normalized_levenshtein(a, b)`.
pub uninterp spec fn levenshtein_bits(a: Seq<char>, b: Seq<char>) -> u64;

/// `strsim::jaro_winkler`, returned as the bit pattern of the double. The
/// contract names the result, a function of the two strings, and states one
/// fact of the source: when exactly one string is empty the result is `0.0`.
#[verifier::external_body]
fn jaro_winkler_sim(a: &str, b: &str) -> (r: u64)
    ensures
        r == jaro_winkler_bits(a@, b@),
        (a@.len() == 0) != (b@.len() == 0) ==> r == 0,
{
    strsim::jaro_winkler(a, b).to_bits()
}

/// `strsim::normalized_levenshtein`, returned as the bit pattern of the
/// double. The contract names the result, a function of the two strings, and
/// states one fact of the source: when exactly one string is empty the
/// distance is the other's length, so the result is `0.0`.
#[verifier::external_body]
fn levenshtein_sim(a: &str, b: &str) -> (r: u64)
    ensures
        r == levenshtein_bits(a@, b@),
        (a@.len() == 0) != (b@.len() == 0) ==> r == 0,
{
    strsim::normalized_levenshtein(a, b).to_bits()
}

pub open spec fn max_u64(a: u64, b: u64) -> u64 {
    if a >= b {
        a
    } else {
        b
    }
}

/// Similarity of one candidate and a token: the larger of the two measures
/// (both are `0.0` when exactly one of the strings is empty).
pub open spec fn pair_similarity(cand: Seq<char>, token: Seq<char>) -> u64 {
    if (cand.len() == 0) != (token.len() == 0) {
        0
    } else {
        max_u64(jaro_winkler_bits(cand, token), levenshtein_bits(cand, token))
    }
}

/// Executable `pair_similarity`.
pub fn similarity(cand: &str, token: &str) -> (r: u64)
    ensures
        r == pair_similarity(cand@, token@),
{
    let a = jaro_winkler_sim(cand, token);
    let b = levenshtein_sim(cand, token);
    if a >= b {
        a
    } else {
        b
    }
}

/// Similarity of a candidate and a token is the larger of the two measures
/// (Jaro-Winkler and normalized Levenshtein), and none when exactly one of
/// them is empty.
pub proof fn lemma_pair_similarity(cand: Seq<char>, token: Seq<char>)
    ensures
        (cand.len() == 0) != (token.len() == 0) ==> pair_similarity(cand, token) == 0,
        (cand.len() == 0) == (token.len() == 0) ==> {
            &&& pair_similarity(cand, token) >= jaro_winkler_bits(cand, token)
            &&& pair_similarity(cand, token) >= levenshtein_bits(cand, token)
            &&& (pair_similarity(cand, token) == jaro_winkler_bits(cand, token) || pair_similarity(cand, token)
                == levenshtein_bits(cand, token))
        },
{
}

/// Similarity at or above the fuzzy floor.
pub open spec fn close_enough(sim: u64) -> bool {
    sim >= JARO_THRESHOLD_BITS || sim >= FUZZY_THRESHOLD_BITS
}

/// Best similarity of the token against several candidates (0 when none).
pub open spec fn best_similarity(cands: Seq<Seq<char>>, token: Seq<char>) -> u64
    decreases cands.len(),
{
    if cands.len() == 0 {
        0
    } else {
        max_u64(best_similarity(cands.drop_last(), token), pair_similarity(cands.last(), token))
    }
}

/// How strongly a token matches a field.
#[derive(Debug, Clone, Copy, PartialEq, Eq, Structural)]
pub enum MatchKind {
    Exact,
    Word,
    Prefix,
    Substr,
    Fuzzy,
    NoMatch,
}

impl MatchKind {
    /// Short label used in reasons, e.g. `name:exact`.
    pub fn as_label(self) -> (r: &'static str)
        ensures
            r@ == kind_label(self),
    {
        match self {
            MatchKind::Exact => "exact",
            MatchKind::Word => "word",
            MatchKind::Prefix => "prefix",
            MatchKind::Substr => "substr",
            MatchKind::Fuzzy => "fuzzy",
            MatchKind::NoMatch => "none",
        }
    }
}

pub open spec fn kind_label(k: MatchKind) -> Seq<char> {
    match k {
        MatchKind::Exact => "exact"@,
        MatchKind::Word => "word"@,
        MatchKind::Prefix => "prefix"@,
        MatchKind::Substr => "substr"@,
        MatchKind::Fuzzy => "fuzzy"@,
        MatchKind::NoMatch => "none"@,
    }
}

/// Base points of a strict grade (fuzzy grades score in a lower band, below
/// every strict grade, and are never counted here).
pub open spec fn strict_points(k: MatchKind) -> int {
    match k {
        MatchKind::Exact => 100,
        MatchKind::Word => 95,
        MatchKind::Prefix => 80,
        MatchKind::Substr => 50,
        _ => 0,
    }
}

pub open spec fn some_word_is(ws: Seq<Seq<char>>, tok: Seq<char>) -> bool {
    exists|i: int| 0 <= i < ws.len() && ws[i] == tok
}

pub open spec fn some_word_starts(ws: Seq<Seq<char>>, tok: Seq<char>) -> bool {
    exists|i: int| 0 <= i < ws.len() && starts_with_seq(ws[i], tok)
}

pub open spec fn some_word_contains(ws: Seq<Seq<char>>, tok: Seq<char>) -> bool {
    exists|i: int| 0 <= i < ws.len() && contains_seq(ws[i], tok)
}

/// The grade of `token` against `field`: exact field, whole word (CamelCase
/// aware), prefix, substring, then fuzzy.
pub open spec fn grade_kind(field: Seq<char>, token: Seq<char>) -> MatchKind {
    let folded = lowercase(field);
    let ws = words(field);
    if folded == token {
        MatchKind::Exact
    } else if some_word_is(ws, token) {
        MatchKind::Word
    } else if starts_with_seq(folded, token) || some_word_starts(ws, token) {
        MatchKind::Prefix
    } else if contains_seq(folded, token) || some_word_contains(ws, token) {
        MatchKind::Substr
    } else if close_enough(best_similarity(seq![folded].add(ws), token)) {
        MatchKind::Fuzzy
    } else {
        MatchKind::NoMatch
    }
}

/// The grading ladder: a token grades `Exact` exactly when it is the folded
/// field; `Word` when it is not, but is one of the field's words (CamelCase
/// aware); `Prefix` when neither, but the folded field or one of its words
/// starts with it; `Substr` when none of those, but the folded field or one of
/// its words contains it; otherwise `Fuzzy` or `NoMatch`.
pub proof fn lemma_grade_ladder(field: Seq<char>, token: Seq<char>)
    ensures
        (grade_kind(field, token) == MatchKind::Exact) <==> lowercase(field) == token,
        (grade_kind(field, token) == MatchKind::Word) <==> (lowercase(field) != token && exists|i: int|
            0 <= i < words(field).len() && words(field)[i] == token),
        (grade_kind(field, token) == MatchKind::Prefix) <==> (lowercase(field) != token && !(exists|i: int|
            0 <= i < words(field).len() && words(field)[i] == token) && (starts_with_seq(lowercase(field), token)
            || exists|i: int| 0 <= i < words(field).len() && starts_with_seq(words(field)[i], token))),
        (grade_kind(field, token) == MatchKind::Substr) <==> (lowercase(field) != token && !(exists|i: int|
            0 <= i < words(field).len() && words(field)[i] == token) && !starts_with_seq(lowercase(field), token)
            && !(exists|i: int| 0 <= i < words(field).len() && starts_with_seq(words(field)[i], token))
            && (contains_seq(lowercase(field), token) || exists|i: int|
            0 <= i < words(field).len() && contains_seq(words(field)[i], token))),
        grade_kind(field, token) == MatchKind::Fuzzy ==> close_enough(
            best_similarity(seq![lowercase(field)].add(words(field)), token),
        ),
        grade_kind(field, token) == MatchKind::NoMatch ==> !close_enough(
            best_similarity(seq![lowercase(field)].add(words(field)), token),
        ),
        (grade_kind(field, token) == MatchKind::Fuzzy || grade_kind(field, token) == MatchKind::NoMatch) <==> (
        lowercase(field) != token && !(exists|i: int| 0 <= i < words(field).len() && words(field)[i] == token)
            && !starts_with_seq(lowercase(field), token) && !(exists|i: int|
            0 <= i < words(field).len() && starts_with_seq(words(field)[i], token)) && !contains_seq(
            lowercase(field),
            token,
        ) && !(exists|i: int| 0 <= i < words(field).len() && contains_seq(words(field)[i], token))),
{
}

/// Points fall along the ladder: exact above word above prefix above
/// substring, and those above fuzzy and no match, which earn none.
pub proof fn lemma_points_ladder()
    ensures
        strict_points(MatchKind::Exact) > strict_points(MatchKind::Word),
        strict_points(MatchKind::Word) > strict_points(MatchKind::Prefix),
        strict_points(MatchKind::Prefix) > strict_points(MatchKind::Substr),
        strict_points(MatchKind::Substr) > 0,
        strict_points(MatchKind::Fuzzy) == 0,
        strict_points(MatchKind::NoMatch) == 0,
{
}

/// The best similarity is the largest over the candidates: at least that of
/// each, and that of one of them (or 0 when there are none).
pub proof fn lemma_best_similarity_max(cands: Seq<Seq<char>>, token: Seq<char>)
    ensures
        forall|k: int| 0 <= k < cands.len() ==> pair_similarity(#[trigger] cands[k], token) <= best_similarity(cands, token),
        cands.len() == 0 ==> best_similarity(cands, token) == 0,
        best_similarity(cands, token) == 0 || exists|k: int|
            0 <= k < cands.len() && pair_similarity(cands[k], token) == best_similarity(cands, token),
    decreases cands.len(),
{
    lemma_best_similarity_witness(cands, token);
    if cands.len() > 0 {
        let d = cands.drop_last();
        lemma_best_similarity_max(d, token);
        assert forall|k: int| 0 <= k < cands.len() implies pair_similarity(#[trigger] cands[k], token)
            <= best_similarity(cands, token) by {
            if k < d.len() {
                assert(d[k] == cands[k]);
            }
        }
    }
}

/// Substring, prefix, word, or exact: a match that is not fuzzy.
pub open spec fn strict_match(field: Seq<char>, token: Seq<char>) -> bool {
    contains_seq(lowercase(field), token) || some_word_contains(words(field), token)
}

/// First occurrence of `token` in the lower-cased field, as a char range.
pub open spec fn token_span(field: Seq<char>, token: Seq<char>) -> Option<(int, int)> {
    let hay = lowercase(field);
    if token.len() == 0 || !contains_seq(hay, token) {
        None
    } else {
        let at = choose|at: int|
            matches_at(hay, token, at) && forall|k: int| 0 <= k < at ==> !matches_at(hay, token, k);
        Some((at, at + token.len()))
    }
}

/// The span reported with a grade.
pub open spec fn grade_span(field: Seq<char>, token: Seq<char>) -> Option<(int, int)> {
    match grade_kind(field, token) {
        MatchKind::Exact => Some((0, field.len() as int)),
        MatchKind::NoMatch => None,
        _ => token_span(field, token),
    }
}

proof fn lemma_first_match_from(hay: Seq<char>, needle: Seq<char>, at: int)
    requires
        matches_at(hay, needle, at),
    ensures
        exists|c: int| matches_at(hay, needle, c) && forall|k: int| 0 <= k < c ==> !matches_at(hay, needle, k),
    decreases at,
{
    if exists|k: int| 0 <= k < at && matches_at(hay, needle, k) {
        let k = choose|k: int| 0 <= k < at && matches_at(hay, needle, k);
        lemma_first_match_from(hay, needle, k);
    } else {
        assert(forall|k: int| 0 <= k < at ==> !matches_at(hay, needle, k));
    }
}

proof fn lemma_first_match_exists(hay: Seq<char>, needle: Seq<char>)
    requires
        contains_seq(hay, needle),
    ensures
        exists|c: int| matches_at(hay, needle, c) && forall|k: int| 0 <= k < c ==> !matches_at(hay, needle, k),
{
    let at = choose|at: int| matches_at(hay, needle, at);
    lemma_first_match_from(hay, needle, at);
}

/// Where a grade points: an exact grade spans the whole field, no match
/// spans nothing, and every other grade spans the first place where the
/// lower-cased field holds the token (none when the token is empty or absent).
pub proof fn lemma_grade_span(field: Seq<char>, token: Seq<char>)
    ensures
        grade_kind(field, token) == MatchKind::Exact ==> grade_span(field, token) == Some(
            (0int, field.len() as int),
        ),
        grade_kind(field, token) == MatchKind::NoMatch ==> grade_span(field, token) is None,
        grade_kind(field, token) != MatchKind::Exact && grade_kind(field, token) != MatchKind::NoMatch
            ==> grade_span(field, token) == token_span(field, token),
        (token_span(field, token) is None) <==> (token.len() == 0 || !contains_seq(lowercase(field), token)),
        token_span(field, token) matches Some((a, b)) ==> b == a + token.len() && matches_at(
            lowercase(field),
            token,
            a,
        ) && forall|k: int| 0 <= k < a ==> !matches_at(lowercase(field), token, k),
{
    if token.len() > 0 && contains_seq(lowercase(field), token) {
        lemma_first_match_exists(lowercase(field), token);
    }
}

pub open spec fn span_view(s: Option<(usize, usize)>) -> Option<(int, int)> {
    match s {
        Some((a, b)) => Some((a as int, b as int)),
        None => None,
    }
}

/// Grade of one field: its kind, the similarity that decided a fuzzy grade
/// (as a bit pattern; 0 for strict grades), and the character span.
pub struct FieldGrade {
    pub kind: MatchKind,
    pub similarity: u64,
    pub span: Option<(usize, usize)>,
}

/// Case-insensitive locate of `token` in `field` as char indices.
pub fn find_token_span(field: &str, token: &str) -> (r: Option<(usize, usize)>)
    ensures
        span_view(r) == token_span(field@, token@),
{
    let tok = chars_of(token);
    if tok.len() == 0 {
        return None;
    }
    let hay = chars_of(fold_case(field).as_str());
    match find_seq(&hay, &tok) {
        Some(at) => {
            proof {
                let c = choose|c: int|
                    matches_at(hay@, tok@, c) && forall|k: int|
                        0 <= k < c ==> !matches_at(hay@, tok@, k);
                assert(matches_at(hay@, tok@, at as int) && forall|k: int|
                    0 <= k < at ==> !matches_at(hay@, tok@, k));
                if c < at {
                } else if c > at {
                }
                assert(at + tok.len() <= hay.len());
            }
            Some((at, at + tok.len()))
        },
        None => None,
    }
}

/// Label the span of a field for the UI.
pub fn span_to_match(field_label: &str, span: (usize, usize)) -> (r: MatchSpan)
    ensures
        r.field@ == field_label@,
        r.start == span.0,
        r.end == span.1,
{
    MatchSpan { field: copy_string(&crate::text::string_of(&chars_of(field_label))), start: span.0, end: span.1 }
}

/// Best similarity of the token against the folded field and its words.
fn max_similarity(folded: &String, ws: &Vec<String>, token: &str) -> (r: u64)
    ensures
        r == best_similarity(seq![folded@].add(views(ws@)), token@),
{
    let ghost cands = seq![folded@].add(views(ws@));
    let mut best = similarity(folded.as_str(), token);
    proof {
        assert(cands.take(1).drop_last() =~= Seq::<Seq<char>>::empty());
        assert(cands.take(1).last() == folded@);
        assert(best_similarity(cands.take(1).drop_last(), token@) == 0);
    }
    let mut i: usize = 0;
    while i < ws.len()
        invariant
            i <= ws.len(),
            cands == seq![folded@].add(views(ws@)),
            best == best_similarity(cands.take(i + 1), token@),
        decreases ws.len() - i,
    {
        let s = similarity(ws[i].as_str(), token);
        proof {
            assert(cands.take(i + 2).drop_last() =~= cands.take(i + 1));
            assert(cands.take(i + 2).last() == ws@[i as int]@);
        }
        if s > best {
            best = s;
        }
        i = i + 1;
    }
    assert(cands.take(ws.len() + 1) =~= cands);
    best
}

fn any_word_is(ws: &Vec<String>, tok: &Vec<char>) -> (r: bool)
    ensures
        r == some_word_is(views(ws@), tok@),
{
    let mut i: usize = 0;
    while i < ws.len()
        invariant
            i <= ws.len(),
            forall|j: int| 0 <= j < i ==> views(ws@)[j] != tok@,
        decreases ws.len() - i,
    {
        let w = chars_of(ws[i].as_str());
        if crate::text::eq_chars(&w, tok) {
            assert(views(ws@)[i as int] == tok@);
            return true;
        }
        i = i + 1;
    }
    false
}

fn any_word_starts(ws: &Vec<String>, tok: &Vec<char>) -> (r: bool)
    ensures
        r == some_word_starts(views(ws@), tok@),
{
    let mut i: usize = 0;
    while i < ws.len()
        invariant
            i <= ws.len(),
            forall|j: int| 0 <= j < i ==> !starts_with_seq(#[trigger] views(ws@)[j], tok@),
        decreases ws.len() - i,
    {
        let w = chars_of(ws[i].as_str());
        if starts_with_chars(&w, tok) {
            assert(starts_with_seq(views(ws@)[i as int], tok@));
            return true;
        }
        i = i + 1;
    }
    false
}

fn any_word_contains(ws: &Vec<String>, tok: &Vec<char>) -> (r: bool)
    ensures
        r == some_word_contains(views(ws@), tok@),
{
    let mut i: usize = 0;
    while i < ws.len()
        invariant
            i <= ws.len(),
            forall|j: int| 0 <= j < i ==> !contains_seq(#[trigger] views(ws@)[j], tok@),
        decreases ws.len() - i,
    {
        let w = chars_of(ws[i].as_str());
        if contains_chars(&w, tok) {
            assert(contains_seq(views(ws@)[i as int], tok@));
            return true;
        }
        i = i + 1;
    }
    false
}

/// Grade `token` against one field.
pub fn grade_field(field: &str, token: &str) -> (r: FieldGrade)
    ensures
        r.kind == grade_kind(field@, token@),
        span_view(r.span) == grade_span(field@, token@),
        r.kind == MatchKind::Fuzzy ==> r.similarity == best_similarity(
            seq![lowercase(field@)].add(words(field@)),
            token@,
        ),
        r.kind != MatchKind::Fuzzy ==> r.similarity == 0,
{
    let folded = fold_case(field);
    let fchars = chars_of(folded.as_str());
    let tok = chars_of(token);
    if crate::text::eq_chars(&fchars, &tok) {
        let n = chars_of(field).len();
        return FieldGrade { kind: MatchKind::Exact, similarity: 0, span: Some((0, n)) };
    }
    let parts = words_of(field);
    let span = find_token_span(field, token);
    if any_word_is(&parts, &tok) {
        return FieldGrade { kind: MatchKind::Word, similarity: 0, span };
    }
    if starts_with_chars(&fchars, &tok) || any_word_starts(&parts, &tok) {
        return FieldGrade { kind: MatchKind::Prefix, similarity: 0, span };
    }
    if contains_chars(&fchars, &tok) || any_word_contains(&parts, &tok) {
        return FieldGrade { kind: MatchKind::Substr, similarity: 0, span };
    }
    let sim = max_similarity(&folded, &parts, token);
    if sim >= JARO_THRESHOLD_BITS || sim >= FUZZY_THRESHOLD_BITS {
        return FieldGrade { kind: MatchKind::Fuzzy, similarity: sim, span };
    }
    FieldGrade { kind: MatchKind::NoMatch, similarity: 0, span: None }
}


/// A non-zero best similarity is that of one of the candidates.
pub proof fn lemma_best_similarity_witness(cands: Seq<Seq<char>>, token: Seq<char>)
    ensures
        best_similarity(cands, token) == 0 || exists|k: int|
            0 <= k < cands.len() && pair_similarity(cands[k], token) == best_similarity(cands, token),
    decreases cands.len(),
{
    if cands.len() > 0 {
        let d = cands.drop_last();
        lemma_best_similarity_witness(d, token);
        if best_similarity(cands, token) != pair_similarity(cands.last(), token) && best_similarity(cands, token) != 0 {
            let k = choose|k: int| 0 <= k < d.len() && pair_similarity(d[k], token) == best_similarity(d, token);
            assert(cands[k] == d[k]);
        } else if best_similarity(cands, token) != 0 {
            assert(cands[cands.len() - 1] == cands.last());
        }
    }
}

} // verus!
