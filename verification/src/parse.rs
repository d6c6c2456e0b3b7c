//! Lex + classify a raw query string into [`ParsedQuery`].
use vstd::prelude::*;

use crate::text::{
    chars_of, eq_chars, is_white_space, lowercase, slice_chars, starts_with_chars, starts_with_seq,
    str_to_lowercase, string_of, trim_chars, trimmed, white_space,
};
use crate::types::{empty_query, strip_dots, with_text, ParsedQuery, QueryView};

verus! {

// ---------------------------------------------------------------------------
// Lexing
// ---------------------------------------------------------------------------

/// The tokens so far, plus a non-empty buffer if there is one.
pub open spec fn flush(out: Seq<Seq<char>>, buf: Seq<char>) -> Seq<Seq<char>> {
    if buf.len() > 0 {
        out.push(buf)
    } else {
        out
    }
}

/// One character of the lexer: tokens, current buffer, inside-quotes flag.
pub open spec fn lex_step(
    st: (Seq<Seq<char>>, Seq<char>, bool),
    c: char,
) -> (Seq<Seq<char>>, Seq<char>, bool) {
    let (out, buf, in_quote) = st;
    if c == '"' {
        (out, buf, !in_quote)
    } else if c == '|' && !in_quote {
        (flush(out, buf).push(seq!['|']), Seq::empty(), in_quote)
    } else if white_space(c) && !in_quote {
        (flush(out, buf), Seq::empty(), in_quote)
    } else {
        (out, buf.push(c), in_quote)
    }
}

pub open spec fn lex_state(s: Seq<char>) -> (Seq<Seq<char>>, Seq<char>, bool)
    decreases s.len(),
{
    if s.len() == 0 {
        (Seq::empty(), Seq::empty(), false)
    } else {
        lex_step(lex_state(s.drop_last()), s.last())
    }
}

/// Tokens of a query: runs split on unquoted white space, `|` as its own
/// token, double quotes toggling a phrase and never kept.
pub open spec fn lexed(s: Seq<char>) -> Seq<Seq<char>> {
    let (out, buf, _) = lex_state(s);
    flush(out, buf)
}

/// A plain word: not empty, with no white space, double quote or bar.
pub open spec fn plain_word(w: Seq<char>) -> bool {
    w.len() > 0 && forall|i: int| 0 <= i < w.len() ==> !white_space(#[trigger] w[i]) && w[i] != '"' && w[i] != '|'
}

/// A run of characters without double quotes extends the buffer; outside
/// quotes it must also hold no white space and no bar.
proof fn lemma_lex_run(s: Seq<char>, w: Seq<char>)
    requires
        forall|i: int| 0 <= i < w.len() ==> #[trigger] w[i] != '"',
        !lex_state(s).2 ==> forall|i: int| 0 <= i < w.len() ==> !white_space(#[trigger] w[i]) && w[i] != '|',
    ensures
        lex_state(s + w) == (lex_state(s).0, lex_state(s).1 + w, lex_state(s).2),
    decreases w.len(),
{
    if w.len() == 0 {
        assert(s + w =~= s);
        assert(lex_state(s).1 + w =~= lex_state(s).1);
    } else {
        let d = w.drop_last();
        lemma_lex_run(s, d);
        assert((s + w).drop_last() =~= s + d);
        assert((s + w).last() == w.last());
        assert(w[w.len() - 1] == w.last());
        assert(lex_state(s).1 + d + seq![w.last()] =~= lex_state(s).1 + w);
        assert((lex_state(s).1 + d).push(w.last()) =~= lex_state(s).1 + w);
    }
}

/// Lexing: a quoted phrase is one token, with its spaces and bars and
/// without the quotes; two plain words separated by a space are two tokens;
/// a bar between them is a token of its own.
pub proof fn lemma_lex_laws(p: Seq<char>, a: Seq<char>, b: Seq<char>)
    ensures
        p.len() > 0 && (forall|i: int| 0 <= i < p.len() ==> #[trigger] p[i] != '"') ==> lexed(
            seq!['"'] + p + seq!['"'],
        ) == seq![p],
        plain_word(a) && plain_word(b) ==> lexed(a + seq![' '] + b) == seq![a, b],
        plain_word(a) && plain_word(b) ==> lexed(a + seq!['|'] + b) == seq![a, seq!['|'], b],
{
    let e = Seq::<char>::empty();
    assert(lex_state(e) == (Seq::<Seq<char>>::empty(), e, false));
    if p.len() > 0 && (forall|i: int| 0 <= i < p.len() ==> #[trigger] p[i] != '"') {
        let q0 = seq!['"'];
        assert(q0.drop_last() =~= e);
        assert(lex_state(q0) == (Seq::<Seq<char>>::empty(), e, true));
        lemma_lex_run(q0, p);
        assert(e + p =~= p);
        let s2 = q0 + p + seq!['"'];
        assert(s2.drop_last() =~= q0 + p);
        assert(lex_state(s2) == (Seq::<Seq<char>>::empty(), p, false));
        assert(flush(Seq::<Seq<char>>::empty(), p) =~= seq![p]);
    }
    if plain_word(a) && plain_word(b) {
        lemma_lex_run(e, a);
        assert(e + a =~= a);
        assert(e + a == a);
        assert(lex_state(a) == (Seq::<Seq<char>>::empty(), a, false));
        assert(white_space(' '));
        let sa = a + seq![' '];
        assert(sa.drop_last() =~= a);
        assert(lex_state(sa) == (seq![a], e, false));
        lemma_lex_run(sa, b);
        assert(e + b =~= b);
        assert(lex_state(sa + b) == (seq![a], b, false));
        assert(flush(seq![a], b) =~= seq![a, b]);
        let sb = a + seq!['|'];
        assert(sb.drop_last() =~= a);
        assert(lex_state(sb) == (seq![a, seq!['|']], e, false));
        lemma_lex_run(sb, b);
        assert(lex_state(sb + b) == (seq![a, seq!['|']], b, false));
        assert(flush(seq![a, seq!['|']], b) =~= seq![a, seq!['|'], b]);
    }
}

/// Split a query into raw tokens, keeping quoted phrases together.
pub fn lex_quoted(query: &str) -> (r: Vec<String>)
    ensures
        crate::text::views(r@) == lexed(query@),
{
    let chars = chars_of(query);
    let mut out: Vec<String> = Vec::new();
    let mut buf: Vec<char> = Vec::new();
    let mut in_quote = false;
    let mut i: usize = 0;
    while i < chars.len()
        invariant
            chars@ == query@,
            i <= chars.len(),
            (crate::text::views(out@), buf@, in_quote) == lex_state(query@.take(i as int)),
        decreases chars.len() - i,
    {
        let c = chars[i];
        proof {
            assert(query@.take(i + 1).drop_last() =~= query@.take(i as int));
            assert(query@.take(i + 1).last() == c);
        }
        let ghost before = crate::text::views(out@);
        if c == '"' {
            in_quote = !in_quote;
        } else if c == '|' && !in_quote {
            if buf.len() > 0 {
                out.push(string_of(&buf));
            }
            let ghost mid = crate::text::views(out@);
            assert(mid =~= flush(before, buf@));
            let bar = vec!['|'];
            assert(bar@ =~= seq!['|']);
            out.push(string_of(&bar));
            assert(crate::text::views(out@) =~= mid.push(seq!['|']));
            buf = Vec::new();
            assert(buf@ =~= Seq::<char>::empty());
        } else if is_white_space(c) && !in_quote {
            if buf.len() > 0 {
                out.push(string_of(&buf));
            }
            assert(crate::text::views(out@) =~= flush(before, buf@));
            buf = Vec::new();
            assert(buf@ =~= Seq::<char>::empty());
        } else {
            buf.push(c);
        }
        i = i + 1;
    }
    assert(query@.take(chars.len() as int) =~= query@);
    let ghost before = crate::text::views(out@);
    if buf.len() > 0 {
        out.push(string_of(&buf));
    }
    assert(crate::text::views(out@) =~= flush(before, buf@));
    out
}

// ---------------------------------------------------------------------------
// Classification of one token
// ---------------------------------------------------------------------------

pub open spec fn paren(c: char) -> bool {
    c == '(' || c == ')'
}

pub open spec fn lead_parens(s: Seq<char>) -> nat
    decreases s.len(),
{
    if s.len() > 0 && paren(s[0]) {
        1 + lead_parens(s.drop_first())
    } else {
        0
    }
}

pub open spec fn trail_parens(s: Seq<char>) -> nat
    decreases s.len(),
{
    if s.len() > 0 && paren(s.last()) {
        1 + trail_parens(s.drop_last())
    } else {
        0
    }
}

/// `s` without leading and trailing parentheses (`trim_matches`).
pub open spec fn strip_parens(s: Seq<char>) -> Seq<char> {
    let a = lead_parens(s) as int;
    if a == s.len() {
        Seq::empty()
    } else {
        s.subrange(a, s.len() - trail_parens(s) as int)
    }
}

proof fn lemma_lead_parens(s: Seq<char>)
    ensures
        lead_parens(s) <= s.len(),
        forall|i: int| 0 <= i < lead_parens(s) ==> paren(#[trigger] s[i]),
        lead_parens(s) < s.len() ==> !paren(s[lead_parens(s) as int]),
    decreases s.len(),
{
    if s.len() > 0 && paren(s[0]) {
        lemma_lead_parens(s.drop_first());
        assert forall|i: int| 0 <= i < lead_parens(s) implies paren(#[trigger] s[i]) by {
            if i > 0 {
                assert(s[i] == s.drop_first()[i - 1]);
            }
        }
        if lead_parens(s) < s.len() {
            assert(s[lead_parens(s) as int] == s.drop_first()[lead_parens(s.drop_first()) as int]);
        }
    }
}

proof fn lemma_trail_parens(s: Seq<char>)
    ensures
        trail_parens(s) <= s.len(),
        forall|i: int| s.len() - trail_parens(s) <= i < s.len() ==> paren(#[trigger] s[i]),
        trail_parens(s) < s.len() ==> !paren(s[s.len() - trail_parens(s) - 1]),
    decreases s.len(),
{
    if s.len() > 0 && paren(s.last()) {
        lemma_trail_parens(s.drop_last());
        assert forall|i: int| s.len() - trail_parens(s) <= i < s.len() implies paren(
            #[trigger] s[i],
        ) by {
            if i < s.len() - 1 {
                assert(s[i] == s.drop_last()[i]);
            }
        }
        if trail_parens(s) < s.len() {
            assert(s[s.len() - trail_parens(s) - 1] == s.drop_last()[s.drop_last().len()
                - trail_parens(s.drop_last()) - 1]);
        }
    }
}

fn strip_parens_exec(s: &Vec<char>) -> (r: Vec<char>)
    ensures
        r@ == strip_parens(s@),
{
    proof {
        lemma_lead_parens(s@);
        lemma_trail_parens(s@);
    }
    let mut a: usize = 0;
    while a < s.len() && (s[a] == '(' || s[a] == ')')
        invariant
            a <= s.len(),
            a <= lead_parens(s@),
            lead_parens(s@) <= s@.len(),
            forall|i: int| 0 <= i < lead_parens(s@) ==> paren(#[trigger] s@[i]),
            lead_parens(s@) < s@.len() ==> !paren(s@[lead_parens(s@) as int]),
        decreases s.len() - a,
    {
        a = a + 1;
    }
    if a == s.len() {
        return Vec::new();
    }
    let mut k: usize = 0;
    while k < s.len() && (s[s.len() - 1 - k] == '(' || s[s.len() - 1 - k] == ')')
        invariant
            k <= s.len(),
            k <= trail_parens(s@),
            trail_parens(s@) <= s@.len(),
            forall|i: int| s@.len() - trail_parens(s@) <= i < s@.len() ==> paren(#[trigger] s@[i]),
            trail_parens(s@) < s@.len() ==> !paren(s@[s@.len() - trail_parens(s@) - 1]),
        decreases s.len() - k,
    {
        k = k + 1;
    }
    if a + k >= s.len() {
        assert(paren(s@[a as int]));
    }
    slice_chars(s, a, s.len() - k)
}

/// `s` starts with `p` and what follows, trimmed, is not empty.
pub open spec fn after_prefix(s: Seq<char>, p: Seq<char>) -> Option<Seq<char>> {
    if starts_with_seq(s, p) && trimmed(s.skip(p.len() as int)).len() > 0 {
        Some(trimmed(s.skip(p.len() as int)))
    } else {
        None
    }
}

/// Strip `prefix`, trim, and keep the rest only when it is not empty.
pub fn take_prefix(s: &Vec<char>, prefix: &Vec<char>) -> (r: Option<Vec<char>>)
    ensures
        match r {
            Some(v) => after_prefix(s@, prefix@) == Some(v@),
            None => after_prefix(s@, prefix@).is_none(),
        },
{
    if !starts_with_chars(s, prefix) {
        return None;
    }
    let rest = slice_chars(s, prefix.len(), s.len());
    assert(rest@ =~= s@.skip(prefix@.len() as int));
    let t = trim_chars(&rest);
    if t.len() == 0 {
        None
    } else {
        Some(t)
    }
}

pub open spec fn tag_prefix() -> Seq<char> {
    seq!['t', 'a', 'g', ':']
}

pub open spec fn hash_prefix() -> Seq<char> {
    seq!['#']
}

pub open spec fn ext_prefix() -> Seq<char> {
    seq!['e', 'x', 't', ':']
}

pub open spec fn fav_prefix() -> Seq<char> {
    seq!['f', 'a', 'v', ':']
}

/// `fav:` values that turn the favorites filter on.
pub open spec fn fav_value(v: Seq<char>) -> bool {
    v == seq!['1'] || v == seq!['t', 'r', 'u', 'e'] || v == seq!['y', 'e', 's']
}

/// `is:` forms that turn the favorites filter on.
pub open spec fn is_fav_word(v: Seq<char>) -> bool {
    ||| v == seq!['i', 's', ':', 'f', 'a', 'v']
    ||| v == seq!['i', 's', ':', 'f', 'a', 'v', 'o', 'r', 'i', 't', 'e']
    ||| v == seq!['i', 's', ':', 'f', 'a', 'v', 'o', 'u', 'r', 'i', 't', 'e']
}

/// A leading `-` negates the token, unless the token is just `-`.
pub open spec fn negated(raw: Seq<char>) -> bool {
    raw.len() > 1 && raw[0] == '-'
}

/// A tag filter, included or excluded.
pub open spec fn with_tag(q: QueryView, rest: Seq<char>, neg: bool) -> QueryView {
    if neg {
        QueryView { excluded_tags: q.excluded_tags.push(rest), ..q }
    } else {
        QueryView { tag_filters: q.tag_filters.push(rest), ..q }
    }
}

/// What one trimmed, non-empty token adds to the query.
pub open spec fn absorbed(q: QueryView, raw: Seq<char>, pending_or: bool) -> QueryView {
    let neg = negated(raw);
    let body = strip_parens(if neg { raw.skip(1) } else { raw });
    let lower = lowercase(body);
    if body.len() == 0 {
        q
    } else if after_prefix(lower, tag_prefix()) is Some {
        with_tag(q, after_prefix(lower, tag_prefix())->0, neg)
    } else if after_prefix(lower, hash_prefix()) is Some {
        with_tag(q, after_prefix(lower, hash_prefix())->0, neg)
    } else if after_prefix(lower, ext_prefix()) is Some {
        if neg {
            q
        } else {
            QueryView {
                extensions: q.extensions.push(strip_dots(after_prefix(lower, ext_prefix())->0)),
                ..q
            }
        }
    } else if after_prefix(lower, fav_prefix()) is Some {
        if !neg && fav_value(after_prefix(lower, fav_prefix())->0) {
            QueryView { favorites_only: true, ..q }
        } else {
            q
        }
    } else if is_fav_word(lower) {
        if !neg {
            QueryView { favorites_only: true, ..q }
        } else {
            q
        }
    } else if neg {
        QueryView { excluded_tokens: q.excluded_tokens.push(lower), ..q }
    } else {
        with_text(q, lower, pending_or)
    }
}

/// What one token means. With `neg` for a leading `-` (on more than a bare
/// `-`) and `low` for the rest without surrounding parentheses, lower-cased:
/// `tag:x` and `#x` require the tag `x` (negated: exclude it); `ext:x`
/// filters by the extension `x` without leading dots (negated: ignored);
/// `fav:1|true|yes` and `is:fav|favorite|favourite` turn the favorites
/// filter on (negated or other values: ignored); any other token must not
/// match when negated, and otherwise is a text token (the rest `x` is
/// trimmed and must not be empty for the prefixed forms).
pub proof fn lemma_token_meaning(q: QueryView, raw: Seq<char>, pending_or: bool)
    ensures
        ({
            let neg = raw.len() > 1 && raw[0] == '-';
            let low = lowercase(strip_parens(if neg { raw.skip(1) } else { raw }));
            let r = absorbed(q, raw, pending_or);
            let r4 = trimmed(low.skip(4));
            let r1 = trimmed(low.skip(1));
            let is_tag = starts_with_seq(low, seq!['t', 'a', 'g', ':']) && r4.len() > 0;
            let is_hash = starts_with_seq(low, seq!['#']) && r1.len() > 0;
            let is_ext = starts_with_seq(low, seq!['e', 'x', 't', ':']) && r4.len() > 0;
            let is_favp = starts_with_seq(low, seq!['f', 'a', 'v', ':']) && r4.len() > 0;
            let is_word = low == seq!['i', 's', ':', 'f', 'a', 'v'] || low == seq![
                'i',
                's',
                ':',
                'f',
                'a',
                'v',
                'o',
                'r',
                'i',
                't',
                'e',
            ] || low == seq!['i', 's', ':', 'f', 'a', 'v', 'o', 'u', 'r', 'i', 't', 'e'];
            let body_empty = strip_parens(if neg { raw.skip(1) } else { raw }).len() == 0;
            &&& body_empty ==> r == q
            &&& !body_empty && is_tag ==> r == (if neg {
                QueryView { excluded_tags: q.excluded_tags.push(r4), ..q }
            } else {
                QueryView { tag_filters: q.tag_filters.push(r4), ..q }
            })
            &&& !body_empty && is_hash ==> r == (if neg {
                QueryView { excluded_tags: q.excluded_tags.push(r1), ..q }
            } else {
                QueryView { tag_filters: q.tag_filters.push(r1), ..q }
            })
            &&& !body_empty && is_ext ==> r == (if neg {
                q
            } else {
                QueryView { extensions: q.extensions.push(strip_dots(r4)), ..q }
            })
            &&& !body_empty && is_favp ==> r == (if !neg && (r4 == seq!['1'] || r4 == seq!['t', 'r', 'u', 'e']
                || r4 == seq!['y', 'e', 's']) {
                QueryView { favorites_only: true, ..q }
            } else {
                q
            })
            &&& !body_empty && is_word ==> r == (if neg {
                q
            } else {
                QueryView { favorites_only: true, ..q }
            })
            &&& !body_empty && !is_tag && !is_hash && !is_ext && !is_favp && !is_word ==> r == (if neg {
                QueryView { excluded_tokens: q.excluded_tokens.push(low), ..q }
            } else {
                with_text(q, low, pending_or)
            })
        }),
{
    let neg = raw.len() > 1 && raw[0] == '-';
    let low = lowercase(strip_parens(if neg { raw.skip(1) } else { raw }));
    assert(tag_prefix().len() == 4 && ext_prefix().len() == 4 && fav_prefix().len() == 4);
    assert(hash_prefix().len() == 1);
    if starts_with_seq(low, seq!['t', 'a', 'g', ':']) {
        assert(low.subrange(0, 4) =~= tag_prefix());
    }
    if starts_with_seq(low, tag_prefix()) {
        assert(low.subrange(0, 4) =~= seq!['t', 'a', 'g', ':']);
        assert(low[0] == 't');
    }
    if starts_with_seq(low, seq!['#']) {
        assert(low.subrange(0, 1) =~= hash_prefix());
        assert(low.subrange(0, 1)[0] == low[0]);
        assert(low[0] == '#');
    }
    if starts_with_seq(low, hash_prefix()) {
        assert(low.subrange(0, 1) =~= seq!['#']);
        assert(low.subrange(0, 1)[0] == low[0]);
        assert(low[0] == '#');
    }
    if starts_with_seq(low, seq!['e', 'x', 't', ':']) {
        assert(low.subrange(0, 4) =~= ext_prefix());
        assert(low[0] == 'e');
    }
    if starts_with_seq(low, ext_prefix()) {
        assert(low.subrange(0, 4) =~= seq!['e', 'x', 't', ':']);
        assert(low[0] == 'e');
    }
    if starts_with_seq(low, seq!['f', 'a', 'v', ':']) {
        assert(low.subrange(0, 4) =~= fav_prefix());
        assert(low[0] == 'f');
    }
    if starts_with_seq(low, fav_prefix()) {
        assert(low.subrange(0, 4) =~= seq!['f', 'a', 'v', ':']);
        assert(low[0] == 'f');
    }
}

/// `r` is `q` changed by at most one step: unchanged, one value pushed onto
/// one of the lists, the favorites flag set, or a lower-cased non-empty text
/// token added (to the last group when `pending_or` and there is one, else
/// as a new group).
pub open spec fn one_step(q: QueryView, r: QueryView, pending_or: bool) -> bool {
    ||| r == q
    ||| exists|v: Seq<char>| r == (QueryView { tag_filters: q.tag_filters.push(v), ..q })
    ||| exists|v: Seq<char>| r == (QueryView { excluded_tags: q.excluded_tags.push(v), ..q })
    ||| exists|v: Seq<char>| r == (QueryView { extensions: q.extensions.push(v), ..q })
    ||| exists|b: Seq<char>|
        b.len() > 0 && r == (QueryView { excluded_tokens: q.excluded_tokens.push(lowercase(b)), ..q })
    ||| r == (QueryView { favorites_only: true, ..q })
    ||| exists|b: Seq<char>| b.len() > 0 && r == with_text(q, lowercase(b), pending_or)
}

/// One token changes the query by at most one step.
pub proof fn lemma_absorb_one_step(q: QueryView, raw: Seq<char>, pending_or: bool)
    ensures
        one_step(q, absorbed(q, raw, pending_or), pending_or),
{
    let neg = negated(raw);
    let body = strip_parens(if neg { raw.skip(1) } else { raw });
    let lower = lowercase(body);
    let r = absorbed(q, raw, pending_or);
    if body.len() == 0 {
    } else if after_prefix(lower, tag_prefix()) is Some {
        let v = after_prefix(lower, tag_prefix())->0;
        if neg {
            assert(r == (QueryView { excluded_tags: q.excluded_tags.push(v), ..q }));
        } else {
            assert(r == (QueryView { tag_filters: q.tag_filters.push(v), ..q }));
        }
    } else if after_prefix(lower, hash_prefix()) is Some {
        let v = after_prefix(lower, hash_prefix())->0;
        if neg {
            assert(r == (QueryView { excluded_tags: q.excluded_tags.push(v), ..q }));
        } else {
            assert(r == (QueryView { tag_filters: q.tag_filters.push(v), ..q }));
        }
    } else if after_prefix(lower, ext_prefix()) is Some {
        if !neg {
            let v = strip_dots(after_prefix(lower, ext_prefix())->0);
            assert(r == (QueryView { extensions: q.extensions.push(v), ..q }));
        }
    } else if after_prefix(lower, fav_prefix()) is Some {
    } else if is_fav_word(lower) {
    } else if neg {
        assert(r == (QueryView { excluded_tokens: q.excluded_tokens.push(lowercase(body)), ..q }));
    } else {
        assert(r == with_text(q, lowercase(body), pending_or));
    }
}

fn vec_eq_lit(v: &Vec<char>, lit: Vec<char>) -> (r: bool)
    ensures
        r == (v@ == lit@),
{
    eq_chars(v, &lit)
}

/// Classify one token into the query; `pending_or` is consumed.
fn absorb(into: &mut ParsedQuery, raw: &Vec<char>, pending_or: &mut bool)
    ensures
        final(into)@ == absorbed(old(into)@, raw@, *old(pending_or)),
        *final(pending_or) == false,
{
    let neg = raw.len() > 1 && raw[0] == '-';
    let body0 = if neg {
        slice_chars(raw, 1, raw.len())
    } else {
        slice_chars(raw, 0, raw.len())
    };
    assert(neg ==> body0@ =~= raw@.skip(1));
    assert(!neg ==> body0@ =~= raw@);
    let body = strip_parens_exec(&body0);
    if body.len() == 0 {
        *pending_or = false;
        return;
    }
    let lower = chars_of(str_to_lowercase(string_of(&body).as_str()).as_str());
    let tag_p = vec!['t', 'a', 'g', ':'];
    assert(tag_p@ =~= tag_prefix());
    if let Some(rest) = take_prefix(&lower, &tag_p) {
        if neg {
            into.push_excluded_tag(string_of(&rest));
        } else {
            into.push_tag(string_of(&rest));
        }
        *pending_or = false;
        return;
    }
    let hash_p = vec!['#'];
    assert(hash_p@ =~= hash_prefix());
    if let Some(rest) = take_prefix(&lower, &hash_p) {
        if neg {
            into.push_excluded_tag(string_of(&rest));
        } else {
            into.push_tag(string_of(&rest));
        }
        *pending_or = false;
        return;
    }
    let ext_p = vec!['e', 'x', 't', ':'];
    assert(ext_p@ =~= ext_prefix());
    if let Some(rest) = take_prefix(&lower, &ext_p) {
        if !neg {
            into.push_ext(string_of(&rest));
        }
        *pending_or = false;
        return;
    }
    let fav_p = vec!['f', 'a', 'v', ':'];
    assert(fav_p@ =~= fav_prefix());
    if let Some(rest) = take_prefix(&lower, &fav_p) {
        let one = vec!['1'];
        let yes_t = vec!['t', 'r', 'u', 'e'];
        let yes_y = vec!['y', 'e', 's'];
        assert(one@ =~= seq!['1']);
        assert(yes_t@ =~= seq!['t', 'r', 'u', 'e']);
        assert(yes_y@ =~= seq!['y', 'e', 's']);
        let on = vec_eq_lit(&rest, one) || vec_eq_lit(&rest, yes_t) || vec_eq_lit(&rest, yes_y);
        if !neg && on {
            into.set_favorites_only();
        }
        *pending_or = false;
        return;
    }
    let w1 = vec!['i', 's', ':', 'f', 'a', 'v'];
    let w2 = vec!['i', 's', ':', 'f', 'a', 'v', 'o', 'r', 'i', 't', 'e'];
    let w3 = vec!['i', 's', ':', 'f', 'a', 'v', 'o', 'u', 'r', 'i', 't', 'e'];
    assert(w1@ =~= seq!['i', 's', ':', 'f', 'a', 'v']);
    assert(w2@ =~= seq!['i', 's', ':', 'f', 'a', 'v', 'o', 'r', 'i', 't', 'e']);
    assert(w3@ =~= seq!['i', 's', ':', 'f', 'a', 'v', 'o', 'u', 'r', 'i', 't', 'e']);
    let is_fav = vec_eq_lit(&lower, w1) || vec_eq_lit(&lower, w2) || vec_eq_lit(&lower, w3);
    if is_fav {
        if !neg {
            into.set_favorites_only();
        }
        *pending_or = false;
        return;
    }
    if neg {
        into.push_excluded_token(string_of(&lower));
        *pending_or = false;
        return;
    }
    let use_or = *pending_or;
    into.push_text(string_of(&lower), use_or);
    *pending_or = false;
}

// ---------------------------------------------------------------------------
// Whole query
// ---------------------------------------------------------------------------

/// `or` (any case) and `|` join the next token to the previous group.
pub open spec fn or_word(t: Seq<char>) -> bool {
    lowercase(t) == seq!['o', 'r'] || lowercase(t) == seq!['|']
}

/// One raw token of the query.
pub open spec fn parse_step(st: (QueryView, bool), raw: Seq<char>) -> (QueryView, bool) {
    let t = trimmed(raw);
    if t.len() == 0 {
        st
    } else if or_word(t) {
        (st.0, true)
    } else {
        (absorbed(st.0, t, st.1), false)
    }
}

/// One raw token of a query: blank tokens are skipped; `or` (any case) and
/// `|` change nothing but make the next token join the previous group; any
/// other token is taken in (trimmed), joining the previous group exactly
/// when an `or` came just before it.
pub proof fn lemma_parse_step(st: (QueryView, bool), raw: Seq<char>)
    ensures
        trimmed(raw).len() == 0 ==> parse_step(st, raw) == st,
        trimmed(raw).len() > 0 && (lowercase(trimmed(raw)) == seq!['o', 'r'] || lowercase(trimmed(raw))
            == seq!['|']) ==> parse_step(st, raw) == (st.0, true),
        trimmed(raw).len() > 0 && lowercase(trimmed(raw)) != seq!['o', 'r'] && lowercase(trimmed(raw))
            != seq!['|'] ==> parse_step(st, raw) == (absorbed(st.0, trimmed(raw), st.1), false),
{
}

pub open spec fn parse_tokens(tokens: Seq<Seq<char>>) -> (QueryView, bool)
    decreases tokens.len(),
{
    if tokens.len() == 0 {
        (empty_query(), false)
    } else {
        parse_step(parse_tokens(tokens.drop_last()), tokens.last())
    }
}

/// A query is read token by token, left to right, from the empty query with
/// no `or` pending.
pub proof fn lemma_parse_tokens(tokens: Seq<Seq<char>>, t: Seq<char>)
    ensures
        parse_tokens(Seq::empty()) == (empty_query(), false),
        parse_tokens(tokens.push(t)) == parse_step(parse_tokens(tokens), t),
{
    assert(tokens.push(t).drop_last() =~= tokens);
}

/// The query that a string means.
pub open spec fn parsed(input: Seq<char>) -> QueryView {
    parse_tokens(lexed(input)).0
}

/// Parse a query string.
///
/// - Whitespace tokens → AND
/// - `cat OR dog` / `cat | dog` → OR within a group (also `(cat | dog)`)
/// - `"funny cat"` → phrase token
/// - `-dog` → must not match
/// - `tag:foo` / `#foo` → require tag
/// - `-tag:bar` / `-#bar` → exclude tag
/// - `ext:gif` → extension filter
/// - `fav:1|true|yes` / `is:fav` → favorites only
pub fn parse_query(input: &str) -> (r: ParsedQuery)
    ensures
        r@ == parsed(input@),
{
    let tokens = lex_quoted(input);
    let ghost toks = crate::text::views(tokens@);
    let mut parsed_q = ParsedQuery::new();
    let mut pending_or = false;
    let mut i: usize = 0;
    while i < tokens.len()
        invariant
            toks == lexed(input@),
            toks == crate::text::views(tokens@),
            i <= tokens.len(),
            (parsed_q@, pending_or) == parse_tokens(toks.take(i as int)),
        decreases tokens.len() - i,
    {
        proof {
            assert(toks.take(i + 1).drop_last() =~= toks.take(i as int));
            assert(toks.take(i + 1).last() == toks[i as int]);
            assert(toks[i as int] == tokens@[i as int]@);
        }
        let raw = chars_of(tokens[i].as_str());
        let trimmed_t = trim_chars(&raw);
        if trimmed_t.len() > 0 {
            let lower_raw = chars_of(str_to_lowercase(string_of(&trimmed_t).as_str()).as_str());
            let or_w = vec!['o', 'r'];
            let bar_w = vec!['|'];
            assert(or_w@ =~= seq!['o', 'r']);
            assert(bar_w@ =~= seq!['|']);
            if vec_eq_lit(&lower_raw, or_w) || vec_eq_lit(&lower_raw, bar_w) {
                pending_or = true;
            } else {
                absorb(&mut parsed_q, &trimmed_t, &mut pending_or);
            }
        }
        i = i + 1;
    }
    assert(toks.take(tokens.len() as int) =~= toks);
    parsed_q
}

} // verus!
