//! Filter gates and the match decision for one item.
use vstd::prelude::*;

use crate::matcher::{grade_field, grade_kind, strict_match, MatchKind};
use crate::normalize::{fold_case, words};
use crate::text::{
    chars_of, contains_chars, contains_seq, copy_string, lemma_views_push, lowercase, views,
};
use crate::types::{has_text, ItemView, ParsedQuery, QueryView, Searchable};

verus! {

/// Some field of the item (name, alias, tag) grades the token other than "no match".
pub open spec fn token_matches(it: ItemView, tok: Seq<char>) -> bool {
    ||| grade_kind(it.name, tok) != MatchKind::NoMatch
    ||| exists|i: int| 0 <= i < it.aliases.len() && grade_kind(it.aliases[i], tok) != MatchKind::NoMatch
    ||| exists|i: int| 0 <= i < it.tags.len() && grade_kind(it.tags[i], tok) != MatchKind::NoMatch
}

/// Some field of the item matches the token as a substring or better.
pub open spec fn strongly_matches(it: ItemView, tok: Seq<char>) -> bool {
    ||| strict_match(it.name, tok)
    ||| exists|i: int| 0 <= i < it.aliases.len() && strict_match(it.aliases[i], tok)
    ||| exists|i: int| 0 <= i < it.tags.len() && strict_match(it.tags[i], tok)
}

/// Some tag of the item, folded, contains `needle`.
pub open spec fn has_tag_containing(it: ItemView, needle: Seq<char>) -> bool {
    exists|i: int| 0 <= i < it.tags.len() && contains_seq(lowercase(it.tags[i]), needle)
}

/// The favorite, extension, tag, and negation filters all admit the item.
pub open spec fn passes_gates(it: ItemView, q: QueryView) -> bool {
    &&& q.favorites_only ==> it.favorite
    &&& q.extensions.len() > 0 ==> exists|e: int|
        0 <= e < q.extensions.len() && q.extensions[e] == lowercase(it.extension)
    &&& forall|n: int|
        0 <= n < q.tag_filters.len() ==> has_tag_containing(it, #[trigger] q.tag_filters[n])
    &&& forall|n: int|
        0 <= n < q.excluded_tags.len() ==> !has_tag_containing(it, #[trigger] q.excluded_tags[n])
    &&& forall|n: int|
        0 <= n < q.excluded_tokens.len() ==> !strongly_matches(it, #[trigger] q.excluded_tokens[n])
}

/// The item is a hit: it passes the gates, and every non-empty group has an
/// alternative that matches some field (in browse mode, the gates alone).
pub open spec fn is_hit(it: ItemView, q: QueryView) -> bool {
    &&& passes_gates(it, q)
    &&& forall|g: int|
        0 <= g < q.must_groups.len() && #[trigger] q.must_groups[g].len() > 0 ==> exists|a: int|
            0 <= a < q.must_groups[g].len() && token_matches(it, q.must_groups[g][a])
}

/// A field matches `tok` as a substring or better: its lower-cased text, or
/// one of its words, contains the token.
proof fn lemma_strict_field(f: Seq<char>, tok: Seq<char>)
    ensures
        strict_match(f, tok) <==> (contains_seq(lowercase(f), tok) || exists|w: int|
            0 <= w < words(f).len() && contains_seq(words(f)[w], tok)),
{
}

/// The gates: favorites only admits favorites; extension filters admit the
/// item whose lower-cased extension is one of them; every tag filter needs a
/// tag whose lower-cased text contains it; no excluded tag may be contained in a
/// tag; and no negated token may match the name, an alias or a tag as a
/// substring or better.
pub proof fn lemma_gates(it: ItemView, q: QueryView)
    ensures
        passes_gates(it, q) == ((q.favorites_only ==> it.favorite) && (q.extensions.len() > 0
            ==> exists|e: int| 0 <= e < q.extensions.len() && q.extensions[e] === lowercase(it.extension))
            && (forall|n: int|
            0 <= n < q.tag_filters.len() ==> has_tag_containing(it, #[trigger] q.tag_filters[n]))
            && (forall|n: int, i: int|
            0 <= n < q.excluded_tags.len() && 0 <= i < it.tags.len() ==> !contains_seq(
                lowercase(#[trigger] it.tags[i]),
                #[trigger] q.excluded_tags[n],
            )) && (forall|n: int|
            0 <= n < q.excluded_tokens.len() ==> !strict_match(it.name, #[trigger] q.excluded_tokens[n]))
            && (forall|n: int, i: int|
            0 <= n < q.excluded_tokens.len() && 0 <= i < it.aliases.len() ==> !strict_match(
                #[trigger] it.aliases[i],
                #[trigger] q.excluded_tokens[n],
            )) && (forall|n: int, i: int|
            0 <= n < q.excluded_tokens.len() && 0 <= i < it.tags.len() ==> !strict_match(
                #[trigger] it.tags[i],
                #[trigger] q.excluded_tokens[n],
            ))),
{
    lemma_gates_negation(it, q);
    lemma_gates_excluded_tags(it, q);
    let tf = forall|n: int|
        0 <= n < q.tag_filters.len() ==> has_tag_containing(it, #[trigger] q.tag_filters[n]);
    let xt_orig = forall|n: int|
        0 <= n < q.excluded_tags.len() ==> !has_tag_containing(it, #[trigger] q.excluded_tags[n]);
    let xt = forall|n: int, i: int|
        0 <= n < q.excluded_tags.len() && 0 <= i < it.tags.len() ==> !contains_seq(
            lowercase(#[trigger] it.tags[i]),
            #[trigger] q.excluded_tags[n],
        );
    assert(xt_orig == xt);
    let neg_orig = forall|n: int|
        0 <= n < q.excluded_tokens.len() ==> !strongly_matches(it, #[trigger] q.excluded_tokens[n]);
    let negs = {
        &&& forall|n: int|
            0 <= n < q.excluded_tokens.len() ==> !strict_match(it.name, #[trigger] q.excluded_tokens[n])
        &&& forall|n: int, i: int|
            0 <= n < q.excluded_tokens.len() && 0 <= i < it.aliases.len() ==> !strict_match(
                #[trigger] it.aliases[i],
                #[trigger] q.excluded_tokens[n],
            )
        &&& forall|n: int, i: int|
            0 <= n < q.excluded_tokens.len() && 0 <= i < it.tags.len() ==> !strict_match(
                #[trigger] it.tags[i],
                #[trigger] q.excluded_tokens[n],
            )
    };
    assert(neg_orig == negs);
    let fav = q.favorites_only ==> it.favorite;
    let ext = q.extensions.len() > 0 ==> exists|e: int|
        0 <= e < q.extensions.len() && q.extensions[e] == lowercase(it.extension);
    assert(passes_gates(it, q) == (fav && ext && tf && xt && negs));
}

proof fn lemma_gates_negation(it: ItemView, q: QueryView)
    ensures
        (forall|n: int|
            0 <= n < q.excluded_tokens.len() ==> !strongly_matches(it, #[trigger] q.excluded_tokens[n])) <==> {
            &&& forall|n: int|
                0 <= n < q.excluded_tokens.len() ==> !strict_match(it.name, #[trigger] q.excluded_tokens[n])
            &&& forall|n: int, i: int|
                0 <= n < q.excluded_tokens.len() && 0 <= i < it.aliases.len() ==> !strict_match(
                    #[trigger] it.aliases[i],
                    #[trigger] q.excluded_tokens[n],
                )
            &&& forall|n: int, i: int|
                0 <= n < q.excluded_tokens.len() && 0 <= i < it.tags.len() ==> !strict_match(
                    #[trigger] it.tags[i],
                    #[trigger] q.excluded_tokens[n],
                )
        },
{
    let neg_ok = forall|n: int|
        0 <= n < q.excluded_tokens.len() ==> !strongly_matches(it, #[trigger] q.excluded_tokens[n]);
    let neg_fields = {
        &&& forall|n: int|
            0 <= n < q.excluded_tokens.len() ==> !strict_match(it.name, #[trigger] q.excluded_tokens[n])
        &&& forall|n: int, i: int|
            0 <= n < q.excluded_tokens.len() && 0 <= i < it.aliases.len() ==> !strict_match(
                #[trigger] it.aliases[i],
                #[trigger] q.excluded_tokens[n],
            )
        &&& forall|n: int, i: int|
            0 <= n < q.excluded_tokens.len() && 0 <= i < it.tags.len() ==> !strict_match(
                #[trigger] it.tags[i],
                #[trigger] q.excluded_tokens[n],
            )
    };
    if neg_ok {
        assert forall|n: int, i: int|
            0 <= n < q.excluded_tokens.len() && 0 <= i < it.aliases.len() implies !strict_match(
                #[trigger] it.aliases[i],
                #[trigger] q.excluded_tokens[n],
            ) by {
            assert(!strongly_matches(it, q.excluded_tokens[n]));
        }
        assert forall|n: int, i: int|
            0 <= n < q.excluded_tokens.len() && 0 <= i < it.tags.len() implies !strict_match(
                #[trigger] it.tags[i],
                #[trigger] q.excluded_tokens[n],
            ) by {
            assert(!strongly_matches(it, q.excluded_tokens[n]));
        }
    }
    if neg_fields {
        assert forall|n: int| 0 <= n < q.excluded_tokens.len() implies !strongly_matches(
            it,
            #[trigger] q.excluded_tokens[n],
        ) by {
            if exists|i: int| 0 <= i < it.aliases.len() && strict_match(it.aliases[i], q.excluded_tokens[n]) {
                let i = choose|i: int| 0 <= i < it.aliases.len() && strict_match(it.aliases[i], q.excluded_tokens[n]);
                assert(!strict_match(it.aliases[i], q.excluded_tokens[n]));
            }
            if exists|i: int| 0 <= i < it.tags.len() && strict_match(it.tags[i], q.excluded_tokens[n]) {
                let i = choose|i: int| 0 <= i < it.tags.len() && strict_match(it.tags[i], q.excluded_tokens[n]);
                assert(!strict_match(it.tags[i], q.excluded_tokens[n]));
            }
        }
    }
}

proof fn lemma_gates_excluded_tags(it: ItemView, q: QueryView)
    ensures
        (forall|n: int|
            0 <= n < q.excluded_tags.len() ==> !has_tag_containing(it, #[trigger] q.excluded_tags[n])) <==> (
        forall|n: int, i: int|
            0 <= n < q.excluded_tags.len() && 0 <= i < it.tags.len() ==> !contains_seq(
                lowercase(#[trigger] it.tags[i]),
                #[trigger] q.excluded_tags[n],
            )),
{
    let ex_ok = forall|n: int|
        0 <= n < q.excluded_tags.len() ==> !has_tag_containing(it, #[trigger] q.excluded_tags[n]);
    if ex_ok {
        assert forall|n: int, i: int|
            0 <= n < q.excluded_tags.len() && 0 <= i < it.tags.len() implies !contains_seq(
                lowercase(#[trigger] it.tags[i]),
                #[trigger] q.excluded_tags[n],
            ) by {
            assert(!has_tag_containing(it, q.excluded_tags[n]));
        }
    }
    if forall|n: int, i: int|
        0 <= n < q.excluded_tags.len() && 0 <= i < it.tags.len() ==> !contains_seq(
            lowercase(#[trigger] it.tags[i]),
            #[trigger] q.excluded_tags[n],
        ) {
        assert forall|n: int| 0 <= n < q.excluded_tags.len() implies !has_tag_containing(
            it,
            #[trigger] q.excluded_tags[n],
        ) by {
            if has_tag_containing(it, q.excluded_tags[n]) {
                let i = choose|i: int| 0 <= i < it.tags.len() && contains_seq(lowercase(it.tags[i]), q.excluded_tags[n]);
                assert(!contains_seq(lowercase(it.tags[i]), q.excluded_tags[n]));
            }
        }
    }
}

/// A hit passes the gates and, for every non-empty group, has an
/// alternative that some field (name, alias or tag) grades above no match:
/// groups are AND-ed, alternatives within a group OR-ed.
pub proof fn lemma_hit(it: ItemView, q: QueryView)
    ensures
        is_hit(it, q) <==> (passes_gates(it, q) && forall|g: int|
            0 <= g < q.must_groups.len() && #[trigger] q.must_groups[g].len() > 0 ==> exists|a: int|
                0 <= a < q.must_groups[g].len() && (grade_kind(it.name, q.must_groups[g][a]) != MatchKind::NoMatch
                    || (exists|i: int|
                    0 <= i < it.aliases.len() && grade_kind(it.aliases[i], q.must_groups[g][a])
                        != MatchKind::NoMatch) || (exists|i: int|
                    0 <= i < it.tags.len() && grade_kind(it.tags[i], q.must_groups[g][a])
                        != MatchKind::NoMatch))),
{
}

/// Negation drops an item when any of its fields matches a negated token as
/// a substring or better: the name, an alias, or a tag whose lower-cased
/// text, or one of whose words, contains the token.
pub proof fn lemma_excluded_token_drops(it: ItemView, q: QueryView)
    ensures
        forall|n: int|
            0 <= n < q.excluded_tokens.len() && (contains_seq(
                lowercase(it.name),
                #[trigger] q.excluded_tokens[n],
            ) || exists|w: int|
                0 <= w < words(it.name).len() && contains_seq(words(it.name)[w], q.excluded_tokens[n]))
                ==> !passes_gates(it, q) && !is_hit(it, q),
        forall|n: int, i: int|
            0 <= n < q.excluded_tokens.len() && 0 <= i < it.aliases.len() && (contains_seq(
                lowercase(#[trigger] it.aliases[i]),
                #[trigger] q.excluded_tokens[n],
            ) || exists|w: int|
                0 <= w < words(it.aliases[i]).len() && contains_seq(
                    words(it.aliases[i])[w],
                    q.excluded_tokens[n],
                )) ==> !passes_gates(it, q) && !is_hit(it, q),
        forall|n: int, i: int|
            0 <= n < q.excluded_tokens.len() && 0 <= i < it.tags.len() && (contains_seq(
                lowercase(#[trigger] it.tags[i]),
                #[trigger] q.excluded_tokens[n],
            ) || exists|w: int|
                0 <= w < words(it.tags[i]).len() && contains_seq(words(it.tags[i])[w], q.excluded_tokens[n]))
                ==> !passes_gates(it, q) && !is_hit(it, q),
{
    assert forall|n: int|
        0 <= n < q.excluded_tokens.len() && (contains_seq(
            lowercase(it.name),
            #[trigger] q.excluded_tokens[n],
        ) || exists|w: int|
            0 <= w < words(it.name).len() && contains_seq(words(it.name)[w], q.excluded_tokens[n]))
            implies !passes_gates(it, q) && !is_hit(it, q) by {
        assert(strongly_matches(it, q.excluded_tokens[n]));
    }
    assert forall|n: int, i: int|
        0 <= n < q.excluded_tokens.len() && 0 <= i < it.aliases.len() && (contains_seq(
            lowercase(#[trigger] it.aliases[i]),
            #[trigger] q.excluded_tokens[n],
        ) || exists|w: int|
            0 <= w < words(it.aliases[i]).len() && contains_seq(words(it.aliases[i])[w], q.excluded_tokens[n]))
            implies !passes_gates(it, q) && !is_hit(it, q) by {
        assert(strict_match(it.aliases[i], q.excluded_tokens[n]));
        assert(strongly_matches(it, q.excluded_tokens[n]));
    }
    assert forall|n: int, i: int|
        0 <= n < q.excluded_tokens.len() && 0 <= i < it.tags.len() && (contains_seq(
            lowercase(#[trigger] it.tags[i]),
            #[trigger] q.excluded_tokens[n],
        ) || exists|w: int|
            0 <= w < words(it.tags[i]).len() && contains_seq(words(it.tags[i])[w], q.excluded_tokens[n]))
            implies !passes_gates(it, q) && !is_hit(it, q) by {
        assert(strict_match(it.tags[i], q.excluded_tokens[n]));
        assert(strongly_matches(it, q.excluded_tokens[n]));
    }
}

/// Labels of the active filters: `filter:fav`, `filter:tag:<t>`, `filter:ext:<e>`.
pub open spec fn filter_labels(q: QueryView) -> Seq<Seq<char>> {
    (if q.favorites_only {
        seq!["filter:fav"@]
    } else {
        Seq::empty()
    }).add(q.tag_filters.map_values(|t: Seq<char>| "filter:tag:"@ + t)).add(
        q.extensions.map_values(|e: Seq<char>| "filter:ext:"@ + e),
    )
}

fn prefixed(prefix: &str, rest: &String) -> (r: String)
    ensures
        r@ == prefix@ + rest@,
{
    let mut s = String::from_str(prefix);
    s.append(rest.as_str());
    s
}

/// Reasons that name the filters a hit passed.
pub fn filter_reason_labels(parsed: &ParsedQuery) -> (r: Vec<String>)
    ensures
        views(r@) == filter_labels(parsed@),
{
    let ghost q = parsed@;
    let mut reasons: Vec<String> = Vec::new();
    if parsed.favorites_only {
        reasons.push(String::from_str("filter:fav"));
        assert(views(reasons@) =~= seq!["filter:fav"@]);
    } else {
        assert(views(reasons@) =~= Seq::<Seq<char>>::empty());
    }
    let ghost head = views(reasons@);
    let mut i: usize = 0;
    while i < parsed.tag_filters.len()
        invariant
            i <= parsed.tag_filters.len(),
            q == parsed@,
            views(reasons@) == head.add(q.tag_filters.take(i as int).map_values(|t: Seq<char>| "filter:tag:"@ + t)),
        decreases parsed.tag_filters.len() - i,
    {
        let ghost prev = reasons@;
        reasons.push(prefixed("filter:tag:", &parsed.tag_filters[i]));
        proof {
            lemma_views_push(prev, reasons@.last());
            assert(q.tag_filters.take(i + 1) =~= q.tag_filters.take(i as int).push(parsed.tag_filters@[i as int]@));
            assert(q.tag_filters.take(i + 1).map_values(|t: Seq<char>| "filter:tag:"@ + t) =~= q.tag_filters.take(i as int).map_values(|t: Seq<char>| "filter:tag:"@ + t).push("filter:tag:"@ + parsed.tag_filters@[i as int]@));
        }
        i = i + 1;
    }
    assert(q.tag_filters.take(i as int) =~= q.tag_filters);
    let ghost mid = views(reasons@);
    let mut j: usize = 0;
    while j < parsed.extensions.len()
        invariant
            j <= parsed.extensions.len(),
            q == parsed@,
            views(reasons@) == mid.add(q.extensions.take(j as int).map_values(|e: Seq<char>| "filter:ext:"@ + e)),
        decreases parsed.extensions.len() - j,
    {
        let ghost prev = reasons@;
        reasons.push(prefixed("filter:ext:", &parsed.extensions[j]));
        proof {
            lemma_views_push(prev, reasons@.last());
            assert(q.extensions.take(j + 1) =~= q.extensions.take(j as int).push(parsed.extensions@[j as int]@));
            assert(q.extensions.take(j + 1).map_values(|e: Seq<char>| "filter:ext:"@ + e) =~= q.extensions.take(j as int).map_values(|e: Seq<char>| "filter:ext:"@ + e).push("filter:ext:"@ + parsed.extensions@[j as int]@));
        }
        j = j + 1;
    }
    assert(q.extensions.take(j as int) =~= q.extensions);
    reasons
}

fn field_strict(field: &str, tok: &str) -> (r: bool)
    ensures
        r == strict_match(field@, tok@),
{
    let g = grade_field(field, tok);
    let r = match g.kind {
        MatchKind::Exact | MatchKind::Word | MatchKind::Prefix | MatchKind::Substr => true,
        _ => false,
    };
    proof {
        let ws = words(field@);
        let folded = lowercase(field@);
        if r {
            if g.kind == MatchKind::Exact {
                assert(folded.subrange(0, tok@.len() as int) =~= folded);
                assert(crate::text::matches_at(folded, tok@, 0));
            } else if g.kind == MatchKind::Word {
                let i = choose|i: int| 0 <= i < ws.len() && ws[i] == tok@;
                assert(ws[i].subrange(0, tok@.len() as int) =~= ws[i]);
                assert(crate::text::matches_at(ws[i], tok@, 0));
            } else if g.kind == MatchKind::Prefix {
                if !crate::text::starts_with_seq(folded, tok@) {
                    let i = choose|i: int| 0 <= i < ws.len() && crate::text::starts_with_seq(ws[i], tok@);
                    assert(crate::text::matches_at(ws[i], tok@, 0));
                }
            }
        }
    }
    r
}

fn fields_any(fields: &Vec<String>, tok: &str, strict: bool) -> (r: bool)
    ensures
        strict ==> r == exists|i: int| 0 <= i < fields@.len() && strict_match(fields@[i]@, tok@),
        !strict ==> r == exists|i: int|
            0 <= i < fields@.len() && grade_kind(fields@[i]@, tok@) != MatchKind::NoMatch,
{
    let mut i: usize = 0;
    while i < fields.len()
        invariant
            i <= fields.len(),
            strict ==> forall|k: int| 0 <= k < i ==> !strict_match(fields@[k]@, tok@),
            !strict ==> forall|k: int| 0 <= k < i ==> grade_kind(fields@[k]@, tok@) == MatchKind::NoMatch,
        decreases fields.len() - i,
    {
        let hit = if strict {
            field_strict(fields[i].as_str(), tok)
        } else {
            grade_field(fields[i].as_str(), tok).kind != MatchKind::NoMatch
        };
        if hit {
            return true;
        }
        i = i + 1;
    }
    false
}

/// Some field grades the token other than "no match".
pub fn token_hits(item: &Searchable, tok: &str) -> (r: bool)
    ensures
        r == token_matches(item@, tok@),
{
    if grade_field(item.name.as_str(), tok).kind != MatchKind::NoMatch {
        return true;
    }
    let a = fields_any(&item.aliases, tok, false);
    let t = fields_any(&item.tags, tok, false);
    proof {
        if a {
            let i = choose|i: int| 0 <= i < item.aliases@.len() && grade_kind(item.aliases@[i]@, tok@) != MatchKind::NoMatch;
            assert(item@.aliases[i] == item.aliases@[i]@);
        }
        if t {
            let i = choose|i: int| 0 <= i < item.tags@.len() && grade_kind(item.tags@[i]@, tok@) != MatchKind::NoMatch;
            assert(item@.tags[i] == item.tags@[i]@);
        }
        if exists|i: int| 0 <= i < item@.aliases.len() && grade_kind(item@.aliases[i], tok@) != MatchKind::NoMatch {
            let i = choose|i: int| 0 <= i < item@.aliases.len() && grade_kind(item@.aliases[i], tok@) != MatchKind::NoMatch;
            assert(item@.aliases[i] == item.aliases@[i]@);
        }
        if exists|i: int| 0 <= i < item@.tags.len() && grade_kind(item@.tags[i], tok@) != MatchKind::NoMatch {
            let i = choose|i: int| 0 <= i < item@.tags.len() && grade_kind(item@.tags[i], tok@) != MatchKind::NoMatch;
            assert(item@.tags[i] == item.tags@[i]@);
        }
    }
    a || t
}

fn strongly(item: &Searchable, tok: &str) -> (r: bool)
    ensures
        r == strongly_matches(item@, tok@),
{
    if field_strict(item.name.as_str(), tok) {
        return true;
    }
    let a = fields_any(&item.aliases, tok, true);
    let t = fields_any(&item.tags, tok, true);
    proof {
        if a {
            let i = choose|i: int| 0 <= i < item.aliases@.len() && strict_match(item.aliases@[i]@, tok@);
            assert(item@.aliases[i] == item.aliases@[i]@);
        }
        if t {
            let i = choose|i: int| 0 <= i < item.tags@.len() && strict_match(item.tags@[i]@, tok@);
            assert(item@.tags[i] == item.tags@[i]@);
        }
        if exists|i: int| 0 <= i < item@.aliases.len() && strict_match(item@.aliases[i], tok@) {
            let i = choose|i: int| 0 <= i < item@.aliases.len() && strict_match(item@.aliases[i], tok@);
            assert(item@.aliases[i] == item.aliases@[i]@);
        }
        if exists|i: int| 0 <= i < item@.tags.len() && strict_match(item@.tags[i], tok@) {
            let i = choose|i: int| 0 <= i < item@.tags.len() && strict_match(item@.tags[i], tok@);
            assert(item@.tags[i] == item.tags@[i]@);
        }
    }
    a || t
}

fn tag_containing(item: &Searchable, needle: &String) -> (r: bool)
    ensures
        r == has_tag_containing(item@, needle@),
{
    let nd = chars_of(needle.as_str());
    let mut i: usize = 0;
    while i < item.tags.len()
        invariant
            i <= item.tags.len(),
            nd@ == needle@,
            forall|k: int| 0 <= k < i ==> !contains_seq(lowercase(item@.tags[k]), needle@),
        decreases item.tags.len() - i,
    {
        let t = chars_of(fold_case(item.tags[i].as_str()).as_str());
        assert(item@.tags[i as int] == item.tags@[i as int]@);
        if contains_chars(&t, &nd) {
            return true;
        }
        i = i + 1;
    }
    false
}

/// The favorite, extension, tag, and negation filters admit the item.
pub fn gates_ok(item: &Searchable, parsed: &ParsedQuery) -> (r: bool)
    ensures
        r == passes_gates(item@, parsed@),
{
    let ghost q = parsed@;
    if parsed.favorites_only && !item.favorite {
        return false;
    }
    if parsed.extensions.len() > 0 {
        let ext = fold_case(item.extension.as_str());
        let mut found = false;
        let mut e: usize = 0;
        while e < parsed.extensions.len()
            invariant
                e <= parsed.extensions.len(),
                q == parsed@,
                ext@ == lowercase(item@.extension),
                found == exists|k: int| 0 <= k < e && q.extensions[k] == ext@,
            decreases parsed.extensions.len() - e,
        {
            assert(q.extensions[e as int] == parsed.extensions@[e as int]@);
            if parsed.extensions[e] == ext {
                found = true;
            }
            e = e + 1;
        }
        if !found {
            return false;
        }
    }
    let mut n: usize = 0;
    while n < parsed.tag_filters.len()
        invariant
            n <= parsed.tag_filters.len(),
            q == parsed@,
            forall|k: int| 0 <= k < n ==> has_tag_containing(item@, #[trigger] q.tag_filters[k]),
        decreases parsed.tag_filters.len() - n,
    {
        if !tag_containing(item, &parsed.tag_filters[n]) {
            assert(!has_tag_containing(item@, q.tag_filters[n as int]));
            return false;
        }
        n = n + 1;
    }
    let mut n: usize = 0;
    while n < parsed.excluded_tags.len()
        invariant
            n <= parsed.excluded_tags.len(),
            q == parsed@,
            forall|k: int| 0 <= k < n ==> !has_tag_containing(item@, #[trigger] q.excluded_tags[k]),
        decreases parsed.excluded_tags.len() - n,
    {
        if tag_containing(item, &parsed.excluded_tags[n]) {
            assert(has_tag_containing(item@, q.excluded_tags[n as int]));
            return false;
        }
        n = n + 1;
    }
    let mut n: usize = 0;
    while n < parsed.excluded_tokens.len()
        invariant
            n <= parsed.excluded_tokens.len(),
            q == parsed@,
            forall|k: int| 0 <= k < n ==> !strongly_matches(item@, #[trigger] q.excluded_tokens[k]),
        decreases parsed.excluded_tokens.len() - n,
    {
        if strongly(item, parsed.excluded_tokens[n].as_str()) {
            assert(strongly_matches(item@, q.excluded_tokens[n as int]));
            return false;
        }
        n = n + 1;
    }
    true
}

/// Whether an item is a hit for the query (the decision that scoring makes
/// before it computes points).
pub fn is_match(item: &Searchable, parsed: &ParsedQuery) -> (r: bool)
    ensures
        r == is_hit(item@, parsed@),
{
    let ghost q = parsed@;
    if !gates_ok(item, parsed) {
        return false;
    }
    let mut g: usize = 0;
    while g < parsed.must_groups.len()
        invariant
            g <= parsed.must_groups.len(),
            q == parsed@,
            forall|k: int|
                0 <= k < g && #[trigger] q.must_groups[k].len() > 0 ==> exists|a: int|
                    0 <= a < q.must_groups[k].len() && token_matches(item@, q.must_groups[k][a]),
        decreases parsed.must_groups.len() - g,
    {
        let group = &parsed.must_groups[g];
        assert(q.must_groups[g as int] == views(group@));
        if group.len() > 0 {
            let mut found = false;
            let mut a: usize = 0;
            while a < group.len()
                invariant
                    a <= group.len(),
                    found == exists|b: int| 0 <= b < a && token_matches(item@, group@[b]@),
                decreases group.len() - a,
            {
                if token_hits(item, group[a].as_str()) {
                    found = true;
                }
                a = a + 1;
            }
            if !found {
                assert forall|b: int| 0 <= b < q.must_groups[g as int].len() implies !token_matches(item@, q.must_groups[g as int][b]) by {
                    assert(q.must_groups[g as int][b] == group@[b]@);
                }
                assert(q.must_groups[g as int].len() > 0);
                assert(!is_hit(item@, q));
                return false;
            }
            proof {
                let b = choose|b: int| 0 <= b < a && token_matches(item@, group@[b]@);
                assert(q.must_groups[g as int][b] == group@[b]@);
            }
        }
        g = g + 1;
    }
    true
}


/// Number of groups with at least one alternative.
pub open spec fn text_groups(q: QueryView) -> int
    decreases q.must_groups.len(),
{
    if q.must_groups.len() == 0 {
        0
    } else {
        text_groups(QueryView { must_groups: q.must_groups.drop_last(), ..q }) + if q.must_groups.last().len()
            > 0 {
            1int
        } else {
            0int
        }
    }
}

/// The name-coverage bonus applies: more than one text group, and each one
/// has an alternative that the folded name contains.
pub open spec fn name_covered(it: ItemView, q: QueryView) -> bool {
    &&& text_groups(q) > 1
    &&& forall|g: int|
        0 <= g < q.must_groups.len() && #[trigger] q.must_groups[g].len() > 0 ==> exists|a: int|
            0 <= a < q.must_groups[g].len() && contains_seq(lowercase(it.name), q.must_groups[g][a])
}

proof fn lemma_text_groups_count(q: QueryView)
    ensures
        text_groups(q) >= 0,
        text_groups(q) > 0 <==> exists|g: int| 0 <= g < q.must_groups.len() && #[trigger] q.must_groups[g].len() > 0,
        text_groups(q) > 1 <==> exists|g: int, h: int|
            0 <= g < h < q.must_groups.len() && #[trigger] q.must_groups[g].len() > 0
                && #[trigger] q.must_groups[h].len() > 0,
    decreases q.must_groups.len(),
{
    if q.must_groups.len() > 0 {
        let p = QueryView { must_groups: q.must_groups.drop_last(), ..q };
        lemma_text_groups_count(p);
        let n = q.must_groups.len() - 1;
        assert(q.must_groups[n] == q.must_groups.last());
        assert forall|g: int| 0 <= g < n implies #[trigger] p.must_groups[g] == q.must_groups[g] by {}
        if exists|g: int| 0 <= g < q.must_groups.len() && #[trigger] q.must_groups[g].len() > 0 {
            let g = choose|g: int| 0 <= g < q.must_groups.len() && #[trigger] q.must_groups[g].len() > 0;
            if g < n {
                assert(p.must_groups[g].len() > 0);
            }
        }
        if exists|g: int, h: int|
            0 <= g < h < q.must_groups.len() && #[trigger] q.must_groups[g].len() > 0
                && #[trigger] q.must_groups[h].len() > 0 {
            let (g, h) = choose|g: int, h: int|
                0 <= g < h < q.must_groups.len() && #[trigger] q.must_groups[g].len() > 0
                    && #[trigger] q.must_groups[h].len() > 0;
            assert(p.must_groups[g].len() > 0);
            if h < n {
                assert(p.must_groups[h].len() > 0);
            }
        }
        if text_groups(p) > 0 && q.must_groups.last().len() > 0 {
            let g = choose|g: int| 0 <= g < p.must_groups.len() && #[trigger] p.must_groups[g].len() > 0;
            assert(q.must_groups[g].len() > 0 && q.must_groups[n].len() > 0);
        }
        if text_groups(p) > 1 {
            let (g, h) = choose|g: int, h: int|
                0 <= g < h < p.must_groups.len() && #[trigger] p.must_groups[g].len() > 0
                    && #[trigger] p.must_groups[h].len() > 0;
            assert(q.must_groups[g].len() > 0 && q.must_groups[h].len() > 0);
        }
    }
}

/// The name-coverage bonus applies exactly when at least two groups have
/// alternatives and every such group has one that the lower-cased name
/// contains.
pub proof fn lemma_name_coverage(it: ItemView, q: QueryView)
    ensures
        name_covered(it, q) <==> ((exists|g: int, h: int|
            0 <= g < h < q.must_groups.len() && #[trigger] q.must_groups[g].len() > 0
                && #[trigger] q.must_groups[h].len() > 0) && forall|g: int|
            0 <= g < q.must_groups.len() && #[trigger] q.must_groups[g].len() > 0 ==> exists|a: int|
                0 <= a < q.must_groups[g].len() && contains_seq(lowercase(it.name), q.must_groups[g][a])),
{
    lemma_text_groups_count(q);
}

/// Whether the name-coverage bonus applies to the item.
pub fn covers_name(item: &Searchable, parsed: &ParsedQuery) -> (r: bool)
    ensures
        r == name_covered(item@, parsed@),
{
    let ghost q = parsed@;
    let name = chars_of(fold_case(item.name.as_str()).as_str());
    let mut groups: usize = 0;
    let mut all = true;
    let mut g: usize = 0;
    while g < parsed.must_groups.len()
        invariant
            g <= parsed.must_groups.len(),
            q == parsed@,
            name@ == lowercase(item@.name),
            groups == text_groups(QueryView { must_groups: q.must_groups.take(g as int), ..q }),
            groups <= g,
            all == forall|k: int|
                0 <= k < g && #[trigger] q.must_groups[k].len() > 0 ==> exists|a: int|
                    0 <= a < q.must_groups[k].len() && contains_seq(name@, q.must_groups[k][a]),
        decreases parsed.must_groups.len() - g,
    {
        let group = &parsed.must_groups[g];
        assert(q.must_groups[g as int] == views(group@));
        proof {
            let qa = QueryView { must_groups: q.must_groups.take(g + 1), ..q };
            assert(qa.must_groups.drop_last() =~= q.must_groups.take(g as int));
            assert(QueryView { must_groups: qa.must_groups.drop_last(), ..qa } == QueryView { must_groups: q.must_groups.take(g as int), ..q });
        }
        if group.len() > 0 {
            groups = groups + 1;
            let mut found = false;
            let mut a: usize = 0;
            while a < group.len()
                invariant
                    a <= group.len(),
                    found == exists|b: int| 0 <= b < a && contains_seq(name@, group@[b]@),
                decreases group.len() - a,
            {
                if contains_chars(&name, &chars_of(group[a].as_str())) {
                    found = true;
                }
                a = a + 1;
            }
            proof {
                if found {
                    let b = choose|b: int| 0 <= b < a && contains_seq(name@, group@[b]@);
                    assert(q.must_groups[g as int][b] == group@[b]@);
                } else {
                    assert forall|b: int| 0 <= b < q.must_groups[g as int].len() implies !contains_seq(name@, q.must_groups[g as int][b]) by {
                        assert(q.must_groups[g as int][b] == group@[b]@);
                    }
                }
            }
            all = all && found;
        }
        g = g + 1;
    }
    proof {
        assert(q.must_groups.take(g as int) =~= q.must_groups);
        assert(QueryView { must_groups: q.must_groups, ..q } == q);
    }
    groups > 1 && all
}

} // verus!
