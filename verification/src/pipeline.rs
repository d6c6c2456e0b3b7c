//! Tag catalog and tag suggestions.
use vstd::prelude::*;

use crate::matcher::{best_similarity, grade_field, grade_kind, strict_points, MatchKind};
use crate::normalize::{fold_case, words};
use crate::order::{
    goes_before, is_permutation, key_views, lemma_lex_asymmetric, lemma_lex_irreflexive, lemma_lex_total,
    lex_lt,
    push_num_key, push_text_key, sort_order, sorted_by_keys, text_key,
};
use crate::text::{
    ascii_lowered, chars_of, copy_string, is_ascii_text, lemma_views_push, lowercase, str_to_lowercase,
    trim_chars, trimmed, views,
};
use crate::types::{item_views, ItemView, Searchable};

verus! {

/// ASCII-only lower-casing of one character (`char::to_ascii_lowercase`).
pub open spec fn ascii_lower(c: char) -> char {
    if 'A' <= c <= 'Z' {
        ((c as u32) + 32) as char
    } else {
        c
    }
}

/// `str::eq_ignore_ascii_case`.
pub open spec fn eq_ascii_ci(a: Seq<char>, b: Seq<char>) -> bool {
    a.len() == b.len() && forall|i: int| 0 <= i < a.len() ==> ascii_lower(a[i]) == ascii_lower(b[i])
}

/// Executable `eq_ascii_ci`.
pub fn eq_ignore_ascii_case(a: &str, b: &str) -> (r: bool)
    ensures
        r == eq_ascii_ci(a@, b@),
{
    let x = chars_of(a);
    let y = chars_of(b);
    if x.len() != y.len() {
        return false;
    }
    let mut i: usize = 0;
    while i < x.len()
        invariant
            x@ == a@,
            y@ == b@,
            x.len() == y.len(),
            i <= x.len(),
            forall|k: int| 0 <= k < i ==> ascii_lower(a@[k]) == ascii_lower(b@[k]),
        decreases x.len() - i,
    {
        let c = x[i];
        let d = y[i];
        let lc = if 'A' <= c && c <= 'Z' {
            ((c as u32) + 32) as u32
        } else {
            c as u32
        };
        let ld = if 'A' <= d && d <= 'Z' {
            ((d as u32) + 32) as u32
        } else {
            d as u32
        };
        if lc != ld {
            assert(ascii_lower(c) as u32 == lc);
            assert(ascii_lower(d) as u32 == ld);
            return false;
        }
        assert(ascii_lower(c) as u32 == ascii_lower(d) as u32);
        i = i + 1;
    }
    true
}

/// Drop each string that equals (ignoring ASCII case) the last one kept
/// (`Vec::dedup_by` with `eq_ignore_ascii_case`).
pub open spec fn dedup_ci(s: Seq<Seq<char>>) -> Seq<Seq<char>>
    decreases s.len(),
{
    if s.len() == 0 {
        s
    } else {
        let r = dedup_ci(s.drop_last());
        if r.len() > 0 && eq_ascii_ci(s.last(), r.last()) {
            r
        } else {
            r.push(s.last())
        }
    }
}

/// Every tag of every item, in order.
pub open spec fn all_tags(items: Seq<ItemView>) -> Seq<Seq<char>> {
    items.map_values(|it: ItemView| it.tags).flatten()
}

/// `s` rearranged by the positions `p`.
pub open spec fn arranged<A>(s: Seq<A>, p: Seq<usize>) -> Seq<A> {
    p.map_values(|i: usize| s[i as int])
}

/// Sort keys of tags: the lower-cased text.
pub open spec fn tag_keys(tags: Seq<Seq<char>>) -> Seq<Seq<i128>> {
    tags.map_values(|t: Seq<char>| text_key(lowercase(t)))
}

/// The tag catalog: every tag ordered by its lower-cased form (ties in input
/// order), then runs that are equal up to ASCII case reduced to their first.
pub open spec fn is_catalog(r: Seq<Seq<char>>, items: Seq<ItemView>) -> bool {
    exists|p: Seq<usize>|
        is_permutation(p, all_tags(items).len() as int) && sorted_by_keys(
            p,
            tag_keys(all_tags(items)),
        ) && r == dedup_ci(arranged(all_tags(items), p))
}

/// Copy every tag of every item, in order.
fn gather_tags(items: &Vec<Searchable>) -> (r: Vec<String>)
    ensures
        views(r@) == all_tags(item_views(items@)),
{
    let ghost its = item_views(items@);
    let mut out: Vec<String> = Vec::new();
    let mut i: usize = 0;
    assert(its.take(0).map_values(|it: ItemView| it.tags) =~= Seq::<Seq<Seq<char>>>::empty());
    assert(views(out@) =~= Seq::<Seq<char>>::empty());
    while i < items.len()
        invariant
            i <= items.len(),
            its == item_views(items@),
            views(out@) == its.take(i as int).map_values(|it: ItemView| it.tags).flatten(),
        decreases items.len() - i,
    {
        let ghost before = views(out@);
        let tags = &items[i].tags;
        let mut j: usize = 0;
        while j < tags.len()
            invariant
                j <= tags.len(),
                views(out@) == before + views(tags@).take(j as int),
            decreases tags.len() - j,
        {
            let ghost prev = out@;
            out.push(copy_string(&tags[j]));
            proof {
                lemma_views_push(prev, out@.last());
                assert(views(tags@).take(j + 1) =~= views(tags@).take(j as int).push(tags@[j as int]@));
            }
            assert(views(out@) =~= before + views(tags@).take(j + 1));
            j = j + 1;
        }
        proof {
            assert(views(tags@).take(j as int) =~= views(tags@));
            let m = its.take(i + 1).map_values(|it: ItemView| it.tags);
            let m0 = its.take(i as int).map_values(|it: ItemView| it.tags);
            assert(m =~= m0.push(its[i as int].tags));
            m0.lemma_flatten_push(its[i as int].tags);
            assert(its[i as int].tags == views(tags@));
        }
        i = i + 1;
    }
    assert(its.take(items.len() as int) =~= its);
    out
}

/// Keys for a list of tags, by lower-cased text.
fn lower_text_keys(tags: &Vec<String>) -> (r: Vec<Vec<i128>>)
    ensures
        key_views(r@) == tag_keys(views(tags@)),
        forall|k: int|
            0 <= k < tags@.len() && is_ascii_text(#[trigger] views(tags@)[k]) ==> lowercase(views(tags@)[k])
                == ascii_lowered(views(tags@)[k]),
{
    let mut keys: Vec<Vec<i128>> = Vec::new();
    let mut i: usize = 0;
    while i < tags.len()
        invariant
            i <= tags.len(),
            key_views(keys@) == tag_keys(views(tags@)).take(i as int),
            forall|k: int|
                0 <= k < i && is_ascii_text(#[trigger] views(tags@)[k]) ==> lowercase(views(tags@)[k])
                    == ascii_lowered(views(tags@)[k]),
        decreases tags.len() - i,
    {
        assert(views(tags@)[i as int] == tags@[i as int]@);
        let lower = chars_of(str_to_lowercase(tags[i].as_str()).as_str());
        let mut key: Vec<i128> = Vec::new();
        push_text_key(&mut key, &lower, false);
        assert(key@ =~= text_key(lowercase(tags@[i as int]@)));
        let ghost before = key_views(keys@);
        keys.push(key);
        assert(key_views(keys@) =~= before.push(key@));
        assert(tag_keys(views(tags@)).take(i + 1) =~= tag_keys(views(tags@)).take(i as int).push(
            text_key(lowercase(tags@[i as int]@)),
        ));
        i = i + 1;
    }
    assert(tag_keys(views(tags@)).take(tags.len() as int) =~= tag_keys(views(tags@)));
    keys
}

/// Copy of `v` rearranged by `p`.
fn arrange_strings(v: &Vec<String>, p: &Vec<usize>) -> (r: Vec<String>)
    requires
        forall|x: int| 0 <= x < p@.len() ==> p@[x] < v@.len(),
    ensures
        views(r@) == arranged(views(v@), p@),
{
    let mut out: Vec<String> = Vec::new();
    let mut i: usize = 0;
    while i < p.len()
        invariant
            i <= p.len(),
            forall|x: int| 0 <= x < p@.len() ==> p@[x] < v@.len(),
            views(out@) == arranged(views(v@), p@).take(i as int),
        decreases p.len() - i,
    {
        let ghost prev = out@;
        out.push(copy_string(&v[p[i]]));
        proof {
            lemma_views_push(prev, out@.last());
            assert(arranged(views(v@), p@).take(i + 1) =~= arranged(views(v@), p@).take(i as int).push(v@[p@[i as int] as int]@));
        }
        assert(views(out@) =~= arranged(views(v@), p@).take(i + 1));
        i = i + 1;
    }
    assert(arranged(views(v@), p@).take(p.len() as int) =~= arranged(views(v@), p@));
    out
}

/// Reduce runs of strings equal up to ASCII case to their first.
fn dedup_ascii_ci(s: &Vec<String>) -> (r: Vec<String>)
    ensures
        views(r@) == dedup_ci(views(s@)),
{
    let mut out: Vec<String> = Vec::new();
    let mut i: usize = 0;
    assert(views(s@).take(0) =~= Seq::<Seq<char>>::empty());
    assert(views(out@) =~= Seq::<Seq<char>>::empty());
    while i < s.len()
        invariant
            i <= s.len(),
            views(out@) == dedup_ci(views(s@).take(i as int)),
        decreases s.len() - i,
    {
        let ghost before = views(out@);
        proof {
            assert(views(s@).take(i + 1).drop_last() =~= views(s@).take(i as int));
            assert(views(s@).take(i + 1).last() == s@[i as int]@);
        }
        let dup = out.len() > 0 && eq_ignore_ascii_case(s[i].as_str(), out[out.len() - 1].as_str());
        if !dup {
            out.push(copy_string(&s[i]));
            assert(views(out@) =~= before.push(s@[i as int]@));
        }
        i = i + 1;
    }
    assert(views(s@).take(s.len() as int) =~= views(s@));
    out
}

/// Every unique library tag, ordered by lower-cased text.
pub fn collect_tags(items: &Vec<Searchable>) -> (r: Vec<String>)
    ensures
        is_catalog(views(r@), item_views(items@)),
        (forall|j: int|
            0 <= j < all_tags(item_views(items@)).len() ==> is_ascii_text(
                #[trigger] all_tags(item_views(items@))[j],
            )) ==> forall|i: int, k: int|
            0 <= i < k < r@.len() ==> !eq_ascii_ci(#[trigger] views(r@)[i], #[trigger] views(r@)[k]),
{
    let tags = gather_tags(items);
    let keys = lower_text_keys(&tags);
    let p = sort_order(&keys);
    assert(keys@.len() == key_views(keys@).len());
    assert(tags@.len() == views(tags@).len());
    let sorted = arrange_strings(&tags, &p);
    let r = dedup_ascii_ci(&sorted);
    assert(is_permutation(p@, all_tags(item_views(items@)).len() as int) && sorted_by_keys(
        p@,
        tag_keys(all_tags(item_views(items@))),
    ) && views(r@) == dedup_ci(arranged(all_tags(item_views(items@)), p@)));
    proof {
        let at = all_tags(item_views(items@));
        if forall|j: int| 0 <= j < at.len() ==> is_ascii_text(#[trigger] at[j]) {
            assert forall|j: int| 0 <= j < at.len() implies is_ascii_text(#[trigger] at[j]) && lowercase(at[j])
                == ascii_lowered(at[j]) by {
                assert(views(tags@)[j] == at[j]);
            }
            lemma_catalog_no_twins(views(r@), item_views(items@));
        }
    }
    r
}


/// Tags (already in catalog order) that the prefix grades above "no match".
pub open spec fn matching_tags(cat: Seq<Seq<char>>, pfx: Seq<char>) -> Seq<Seq<char>>
    decreases cat.len(),
{
    if cat.len() == 0 {
        cat
    } else {
        let r = matching_tags(cat.drop_last(), pfx);
        if grade_kind(lowercase(cat.last()), pfx) != MatchKind::NoMatch {
            r.push(cat.last())
        } else {
            r
        }
    }
}

/// Suggestion order: grade points descending (fuzzy grades, below every
/// strict grade, by similarity descending), then lower-cased text.
pub open spec fn suggest_key(t: Seq<char>, pfx: Seq<char>) -> Seq<i128> {
    let field = lowercase(t);
    let k = grade_kind(field, pfx);
    let sim: int = if k == MatchKind::Fuzzy {
        best_similarity(seq![lowercase(field)].add(words(field)), pfx) as int
    } else {
        0
    };
    seq![(-strict_points(k)) as i128, (-sim) as i128].add(text_key(lowercase(t)))
}

pub open spec fn suggest_keys(tags: Seq<Seq<char>>, pfx: Seq<char>) -> Seq<Seq<i128>> {
    tags.map_values(|t: Seq<char>| suggest_key(t, pfx))
}

pub open spec fn min_nat(a: int, b: int) -> int {
    if a <= b {
        a
    } else {
        b
    }
}

/// What `suggest_tags` returns: the catalog (first `limit` tags when the
/// trimmed prefix is empty), or the catalog tags that the folded prefix
/// matches, best first, at most `limit` of them (`limit` at least 1).
pub open spec fn is_suggestion(
    r: Seq<Seq<char>>,
    items: Seq<ItemView>,
    prefix: Seq<char>,
    limit: usize,
) -> bool {
    let pfx = lowercase(trimmed(prefix));
    let lim: int = if limit == 0 {
        1
    } else {
        limit as int
    };
    exists|cat: Seq<Seq<char>>|
        #![trigger is_catalog(cat, items)]
        is_catalog(cat, items) && if pfx.len() == 0 {
            r == cat.take(min_nat(lim, cat.len() as int))
        } else {
            let m = matching_tags(cat, pfx);
            exists|p: Seq<usize>|
                is_permutation(p, m.len() as int) && sorted_by_keys(p, suggest_keys(m, pfx))
                    && r == arranged(m, p).take(min_nat(lim, m.len() as int))
        }
}

/// The first `n` strings (all of them when there are fewer).
fn take_strings(v: &Vec<String>, n: usize) -> (r: Vec<String>)
    ensures
        views(r@) == views(v@).take(min_nat(n as int, v@.len() as int)),
{
    let mut out: Vec<String> = Vec::new();
    let mut i: usize = 0;
    while i < v.len() && i < n
        invariant
            i <= v.len(),
            i <= n,
            views(out@) == views(v@).take(i as int),
        decreases v.len() - i,
    {
        let ghost prev = out@;
        out.push(copy_string(&v[i]));
        proof {
            lemma_views_push(prev, out@.last());
            assert(views(v@).take(i + 1) =~= views(v@).take(i as int).push(v@[i as int]@));
        }
        i = i + 1;
    }
    out
}

/// Prefix / fuzzy tag suggestions for picker chips.
pub fn suggest_tags(items: &Vec<Searchable>, prefix: &str, limit: usize) -> (r: Vec<String>)
    ensures
        is_suggestion(views(r@), item_views(items@), prefix@, limit),
{
    let pchars = chars_of(prefix);
    let trimmed_p = crate::text::string_of(&trim_chars(&pchars));
    let pfx = str_to_lowercase(trimmed_p.as_str());
    let lim = if limit == 0 {
        1
    } else {
        limit
    };
    let catalog = collect_tags(items);
    let ghost cat = views(catalog@);
    if crate::text::string_is_empty(&pfx) {
        let r = take_strings(&catalog, lim);
        assert(is_catalog(cat, item_views(items@)));
        return r;
    }
    // Keep the matching tags, with their keys.
    let mut kept: Vec<String> = Vec::new();
    let mut keys: Vec<Vec<i128>> = Vec::new();
    let mut i: usize = 0;
    assert(cat.take(0) =~= Seq::<Seq<char>>::empty());
    assert(views(kept@) =~= Seq::<Seq<char>>::empty());
    assert(key_views(keys@) =~= Seq::<Seq<i128>>::empty());
    while i < catalog.len()
        invariant
            i <= catalog.len(),
            cat == views(catalog@),
            views(kept@) == matching_tags(cat.take(i as int), pfx@),
            key_views(keys@) == suggest_keys(views(kept@), pfx@),
        decreases catalog.len() - i,
    {
        proof {
            assert(cat.take(i + 1).drop_last() =~= cat.take(i as int));
            assert(cat.take(i + 1).last() == catalog@[i as int]@);
        }
        let lower = fold_case(catalog[i].as_str());
        let g = grade_field(lower.as_str(), pfx.as_str());
        if g.kind != MatchKind::NoMatch {
            let ghost prev = kept@;
            let ghost prev_keys = keys@;
            kept.push(copy_string(&catalog[i]));
            proof {
                lemma_views_push(prev, kept@.last());
            }
            let mut key: Vec<i128> = Vec::new();
            let pts: i128 = match g.kind {
                MatchKind::Exact => 100,
                MatchKind::Word => 95,
                MatchKind::Prefix => 80,
                MatchKind::Substr => 50,
                _ => 0,
            };
            key.push(-pts);
            let sim: i128 = if g.kind == MatchKind::Fuzzy {
                g.similarity as i128
            } else {
                0
            };
            key.push(-sim);
            let lower_chars = chars_of(lower.as_str());
            push_text_key(&mut key, &lower_chars, false);
            assert(key@ =~= suggest_key(catalog@[i as int]@, pfx@));
            keys.push(key);
            assert(key_views(keys@) =~= key_views(prev_keys).push(suggest_key(catalog@[i as int]@, pfx@)));
            assert(suggest_keys(views(kept@), pfx@) =~= suggest_keys(views(prev), pfx@).push(suggest_key(catalog@[i as int]@, pfx@)));
        }
        i = i + 1;
    }
    assert(cat.take(catalog.len() as int) =~= cat);
    let p = sort_order(&keys);
    assert(keys@.len() == key_views(keys@).len());
    assert(kept@.len() == views(kept@).len());
    let sorted = arrange_strings(&kept, &p);
    let r = take_strings(&sorted, lim);
    assert(sorted@.len() == views(sorted@).len());
    assert(views(sorted@).len() == p@.len());
    assert(is_permutation(p@, views(kept@).len() as int) && sorted_by_keys(p@, suggest_keys(views(kept@), pfx@))
        && views(r@) == arranged(views(kept@), p@).take(min_nat(lim as int, views(kept@).len() as int)));
    assert(is_catalog(cat, item_views(items@)));
    r
}

/// `dedup_ci(s)` keeps a subsequence of `s` (positions `ix`, increasing),
/// represents every string of `s` up to ASCII case, and has no neighbours
/// equal up to ASCII case.
proof fn lemma_dedup_ci(s: Seq<Seq<char>>) -> (ix: Seq<int>)
    ensures
        ix.len() == dedup_ci(s).len(),
        forall|i: int| 0 <= i < ix.len() ==> 0 <= #[trigger] ix[i] < s.len() && dedup_ci(s)[i] == s[ix[i]],
        forall|i: int, k: int| 0 <= i < k < ix.len() ==> #[trigger] ix[i] < #[trigger] ix[k],
        forall|j: int| 0 <= j < s.len() ==> exists|k: int|
            0 <= k < dedup_ci(s).len() && eq_ascii_ci(#[trigger] s[j], dedup_ci(s)[k]),
        forall|i: int, k: int|
            0 <= i && k == i + 1 && k < dedup_ci(s).len() ==> !eq_ascii_ci(
                #[trigger] dedup_ci(s)[i],
                #[trigger] dedup_ci(s)[k],
            ),
    decreases s.len(),
{
    if s.len() == 0 {
        Seq::empty()
    } else {
        let d = s.drop_last();
        let ix0 = lemma_dedup_ci(d);
        let r0 = dedup_ci(d);
        let r = dedup_ci(s);
        assert forall|j: int| 0 <= j < d.len() implies #[trigger] d[j] == s[j] by {}
        if r0.len() > 0 && eq_ascii_ci(s.last(), r0.last()) {
            assert forall|j: int| 0 <= j < s.len() implies exists|k: int|
                0 <= k < r.len() && eq_ascii_ci(#[trigger] s[j], r[k]) by {
                if j < d.len() {
                    assert(d[j] == s[j]);
                } else {
                    assert(eq_ascii_ci(s[j], r[r.len() - 1]));
                }
            }
            ix0
        } else {
            let ix = ix0.push(s.len() - 1);
            assert forall|i: int| 0 <= i < r0.len() implies #[trigger] r[i] == r0[i] by {}
            assert forall|i: int| 0 <= i < ix.len() implies 0 <= #[trigger] ix[i] < s.len() && r[i] == s[ix[i]] by {
                if i < ix0.len() {
                    assert(ix[i] == ix0[i]);
                    assert(d[ix0[i]] == s[ix0[i]]);
                }
            }
            assert forall|i: int, k: int| 0 <= i < k < ix.len() implies #[trigger] ix[i] < #[trigger] ix[k] by {
                if k < ix0.len() {
                    assert(ix[i] == ix0[i] && ix[k] == ix0[k]);
                } else {
                    assert(ix[i] == ix0[i]);
                }
            }
            assert forall|j: int| 0 <= j < s.len() implies exists|k: int|
                0 <= k < r.len() && eq_ascii_ci(#[trigger] s[j], r[k]) by {
                if j < d.len() {
                    assert(d[j] == s[j]);
                    let k = choose|k: int| 0 <= k < r0.len() && eq_ascii_ci(d[j], r0[k]);
                    assert(r[k] == r0[k]);
                } else {
                    assert(r[r0.len() as int] == s[j]);
                    assert(eq_ascii_ci(s[j], r[r0.len() as int]));
                }
            }
            assert forall|i: int, k: int|
                0 <= i && k == i + 1 && k < r.len() implies !eq_ascii_ci(#[trigger] r[i], #[trigger] r[k]) by {
                if k < r0.len() {
                    assert(r[i] == r0[i] && r[k] == r0[k]);
                } else {
                    assert(r[i] == r0.last());
                    if eq_ascii_ci(r[i], r[k]) {
                        assert(eq_ascii_ci(s.last(), r0.last()));
                    }
                }
            }
            ix
        }
    }
}

/// Every catalog entry is a tag of some item.
proof fn lemma_catalog_tags(r: Seq<Seq<char>>, items: Seq<ItemView>)
    requires
        is_catalog(r, items),
    ensures
        forall|i: int| 0 <= i < r.len() ==> all_tags(items).contains(#[trigger] r[i]),
{
    let tags = all_tags(items);
    let p = choose|p: Seq<usize>|
        is_permutation(p, tags.len() as int) && sorted_by_keys(p, tag_keys(tags)) && r == dedup_ci(
            arranged(tags, p),
        );
    let a = arranged(tags, p);
    let ix = lemma_dedup_ci(a);
    assert forall|i: int| 0 <= i < r.len() implies tags.contains(#[trigger] r[i]) by {
        assert(r[i] == a[ix[i]]);
        assert(a[ix[i]] == tags[p[ix[i]] as int]);
    }
}

/// The tag catalog: every entry is a tag of some item, every tag is
/// represented (up to ASCII case), entries are in order of their lower-cased
/// text, and no two neighbours are equal up to ASCII case.
pub proof fn lemma_catalog(r: Seq<Seq<char>>, items: Seq<ItemView>)
    requires
        is_catalog(r, items),
    ensures
        forall|i: int| 0 <= i < r.len() ==> all_tags(items).contains(#[trigger] r[i]),
        forall|j: int| 0 <= j < all_tags(items).len() ==> exists|k: int|
            0 <= k < r.len() && eq_ascii_ci(#[trigger] all_tags(items)[j], r[k]),
        forall|i: int, k: int|
            0 <= i < k < r.len() ==> !lex_lt(
                text_key(lowercase(#[trigger] r[k])),
                text_key(lowercase(#[trigger] r[i])),
            ),
        forall|i: int, k: int|
            0 <= i && k == i + 1 && k < r.len() ==> !eq_ascii_ci(#[trigger] r[i], #[trigger] r[k]),
{
    let tags = all_tags(items);
    let p = choose|p: Seq<usize>|
        is_permutation(p, tags.len() as int) && sorted_by_keys(p, tag_keys(tags)) && r == dedup_ci(
            arranged(tags, p),
        );
    let a = arranged(tags, p);
    let ix = lemma_dedup_ci(a);
    lemma_catalog_tags(r, items);
    assert forall|j: int| 0 <= j < tags.len() implies exists|k: int|
        0 <= k < r.len() && eq_ascii_ci(#[trigger] tags[j], r[k]) by {
        lemma_permutation_onto(p, tags.len() as int, j);
        let x = choose|x: int| 0 <= x < p.len() && p[x] == j;
        assert(a[x] == tags[j]);
        let k = choose|k: int| 0 <= k < r.len() && eq_ascii_ci(a[x], r[k]);
    }
    assert forall|i: int, k: int| 0 <= i < k < r.len() implies !lex_lt(
        text_key(lowercase(#[trigger] r[k])),
        text_key(lowercase(#[trigger] r[i])),
    ) by {
        let x = ix[i];
        let y = ix[k];
        assert(x < y);
        let kx = tag_keys(tags)[p[x] as int];
        let ky = tag_keys(tags)[p[y] as int];
        assert(goes_before(kx, p[x] as int, ky, p[y] as int));
        assert(r[i] == tags[p[x] as int]);
        assert(r[k] == tags[p[y] as int]);
        lemma_lex_asymmetric(kx, ky);
        lemma_lex_irreflexive(kx);
    }
}

/// Texts whose lower-cased forms are their ASCII lower-casings are equal up
/// to ASCII case exactly when those forms are equal.
proof fn lemma_ascii_ci_by_lowered(a: Seq<char>, b: Seq<char>)
    ensures
        eq_ascii_ci(a, b) <==> ascii_lowered(a) == ascii_lowered(b),
{
    if eq_ascii_ci(a, b) {
        assert forall|i: int| 0 <= i < a.len() implies ascii_lowered(a)[i] == ascii_lowered(b)[i] by {
            assert(ascii_lower(a[i]) == ascii_lower(b[i]));
        }
        assert(ascii_lowered(a) =~= ascii_lowered(b));
    }
    assert(ascii_lowered(a).len() == a.len());
    assert(ascii_lowered(b).len() == b.len());
    if ascii_lowered(a) == ascii_lowered(b) {
        assert forall|i: int| 0 <= i < a.len() implies ascii_lower(a[i]) == ascii_lower(b[i]) by {
            assert(ascii_lowered(a)[i] == ascii_lowered(b)[i]);
            assert(ascii_lowered(a)[i] == ascii_lower(a[i]));
            assert(ascii_lowered(b)[i] == ascii_lower(b[i]));
        }
    }
}

/// With ASCII tags, no two catalog entries are equal up to ASCII case.
proof fn lemma_catalog_no_twins(r: Seq<Seq<char>>, items: Seq<ItemView>)
    requires
        is_catalog(r, items),
        forall|j: int|
            0 <= j < all_tags(items).len() ==> is_ascii_text(#[trigger] all_tags(items)[j]) && lowercase(
                all_tags(items)[j],
            ) == ascii_lowered(all_tags(items)[j]),
    ensures
        forall|i: int, k: int| 0 <= i < k < r.len() ==> !eq_ascii_ci(#[trigger] r[i], #[trigger] r[k]),
{
    lemma_catalog(r, items);
    let tags = all_tags(items);
    assert forall|i: int| 0 <= i < r.len() implies lowercase(#[trigger] r[i]) == ascii_lowered(r[i]) by {
        assert(tags.contains(r[i]));
        let j = choose|j: int| 0 <= j < tags.len() && tags[j] == r[i];
        assert(lowercase(tags[j]) == ascii_lowered(tags[j]));
    }
    assert forall|i: int, k: int| 0 <= i < k < r.len() implies !eq_ascii_ci(#[trigger] r[i], #[trigger] r[k]) by {
        if eq_ascii_ci(r[i], r[k]) {
            lemma_ascii_ci_by_lowered(r[i], r[k]);
            let ki = text_key(lowercase(r[i]));
            let k1 = text_key(lowercase(r[i + 1]));
            let kk = text_key(lowercase(r[k]));
            assert(lowercase(r[i]) == lowercase(r[k]));
            assert(!lex_lt(k1, ki));
            if i + 1 < k {
                assert(!lex_lt(kk, k1));
            }
            lemma_lex_total(ki, k1);
            lemma_lex_irreflexive(ki);
            assert(ki == k1);
            if lowercase(r[i]) != lowercase(r[i + 1]) {
                crate::order::lemma_text_keys(lowercase(r[i]), lowercase(r[i + 1]), Seq::empty(), Seq::empty());
                assert(text_key(lowercase(r[i])) + Seq::<i128>::empty() =~= ki);
                assert(text_key(lowercase(r[i + 1])) + Seq::<i128>::empty() =~= k1);
            }
            lemma_ascii_ci_by_lowered(r[i], r[i + 1]);
            assert(eq_ascii_ci(r[i], r[i + 1]));
        }
    }
}

/// A permutation of `0..n` hits every position.
proof fn lemma_permutation_onto(p: Seq<usize>, n: int, j: int)
    requires
        is_permutation(p, n),
        0 <= j < n,
    ensures
        exists|x: int| 0 <= x < p.len() && p[x] == j,
{
    let ps = p.map_values(|v: usize| v as int);
    let vals = ps.to_set();
    let full = Set::new(|v: int| 0 <= v < n);
    if !(exists|x: int| 0 <= x < p.len() && p[x] == j) {
        assert forall|v: int| vals.contains(v) implies full.remove(j).contains(v) by {
            let x = choose|x: int| 0 <= x < ps.len() && #[trigger] ps[x] == v;
            assert(p[x] as int == v);
        }
        assert(ps.no_duplicates()) by {
            assert forall|x: int, y: int| 0 <= x < ps.len() && 0 <= y < ps.len() && x != y implies ps[x] != ps[y] by {
                assert(p[x] != p[y]);
            }
        }
        vstd::set_lib::lemma_int_range(0, n);
        assert(full =~= vstd::set_lib::set_int_range(0, n));
        ps.unique_seq_to_set();
        vstd::set_lib::lemma_len_subset(vals, full.remove(j));
    }
}


proof fn lemma_matching_tags(cat: Seq<Seq<char>>, pfx: Seq<char>)
    ensures
        forall|i: int| 0 <= i < matching_tags(cat, pfx).len() ==> cat.contains(#[trigger] matching_tags(cat, pfx)[i])
            && grade_kind(lowercase(matching_tags(cat, pfx)[i]), pfx) != MatchKind::NoMatch,
    decreases cat.len(),
{
    if cat.len() > 0 {
        let d = cat.drop_last();
        lemma_matching_tags(d, pfx);
        let m0 = matching_tags(d, pfx);
        assert forall|i: int| 0 <= i < matching_tags(cat, pfx).len() implies cat.contains(#[trigger] matching_tags(cat, pfx)[i])
            && grade_kind(lowercase(matching_tags(cat, pfx)[i]), pfx) != MatchKind::NoMatch by {
            if i < m0.len() {
                assert(matching_tags(cat, pfx)[i] == m0[i]);
                let x = choose|x: int| 0 <= x < d.len() && d[x] == m0[i];
                assert(cat[x] == d[x]);
            } else {
                assert(matching_tags(cat, pfx)[i] == cat.last());
                assert(cat[cat.len() - 1] == cat.last());
            }
        }
    }
}

/// Tag suggestions are library tags, at most `limit` of them (at least one
/// is allowed); with a non-empty prefix each one matches it, and with an
/// empty prefix they are the head of the catalog.
pub proof fn lemma_suggestions(r: Seq<Seq<char>>, items: Seq<ItemView>, prefix: Seq<char>, limit: usize)
    requires
        is_suggestion(r, items, prefix, limit),
    ensures
        r.len() <= if limit == 0 { 1 } else { limit as int },
        forall|i: int| 0 <= i < r.len() ==> all_tags(items).contains(#[trigger] r[i]),
        lowercase(trimmed(prefix)).len() > 0 ==> forall|i: int|
            0 <= i < r.len() ==> grade_kind(lowercase(#[trigger] r[i]), lowercase(trimmed(prefix)))
                != MatchKind::NoMatch,
        lowercase(trimmed(prefix)).len() == 0 ==> exists|cat: Seq<Seq<char>>|
            #![trigger is_catalog(cat, items)]
            is_catalog(cat, items) && r == cat.take(
                min_nat(if limit == 0 { 1 } else { limit as int }, cat.len() as int),
            ),
{
    let pfx = lowercase(trimmed(prefix));
    let cat = choose|cat: Seq<Seq<char>>| #[trigger] is_catalog(cat, items) && if pfx.len() == 0 {
        r == cat.take(min_nat(if limit == 0 { 1 } else { limit as int }, cat.len() as int))
    } else {
        let m = matching_tags(cat, pfx);
        exists|p: Seq<usize>|
            is_permutation(p, m.len() as int) && sorted_by_keys(p, suggest_keys(m, pfx))
                && r == arranged(m, p).take(min_nat(if limit == 0 { 1 } else { limit as int }, m.len() as int))
    };
    lemma_catalog_tags(cat, items);
    if pfx.len() == 0 {
        assert forall|i: int| 0 <= i < r.len() implies all_tags(items).contains(#[trigger] r[i]) by {
            assert(r[i] == cat[i]);
        }
    } else {
        let m = matching_tags(cat, pfx);
        lemma_matching_tags(cat, pfx);
        let p = choose|p: Seq<usize>|
            is_permutation(p, m.len() as int) && sorted_by_keys(p, suggest_keys(m, pfx))
                && r == arranged(m, p).take(min_nat(if limit == 0 { 1 } else { limit as int }, m.len() as int));
        assert forall|i: int| 0 <= i < r.len() implies all_tags(items).contains(#[trigger] r[i])
            && grade_kind(lowercase(r[i]), pfx) != MatchKind::NoMatch by {
            assert(r[i] == m[p[i] as int]);
            assert(m.contains(m[p[i] as int]));
            let x = choose|x: int| 0 <= x < cat.len() && cat[x] == m[p[i] as int];
            assert(all_tags(items).contains(cat[x]));
        }
    }
}


proof fn lemma_matching_complete(cat: Seq<Seq<char>>, pfx: Seq<char>)
    ensures
        forall|i: int|
            0 <= i < cat.len() && grade_kind(lowercase(#[trigger] cat[i]), pfx) != MatchKind::NoMatch
                ==> matching_tags(cat, pfx).contains(cat[i]),
    decreases cat.len(),
{
    if cat.len() > 0 {
        let d = cat.drop_last();
        lemma_matching_complete(d, pfx);
        let m0 = matching_tags(d, pfx);
        let m = matching_tags(cat, pfx);
        assert forall|i: int|
            0 <= i < cat.len() && grade_kind(lowercase(#[trigger] cat[i]), pfx) != MatchKind::NoMatch
                implies m.contains(cat[i]) by {
            if i < d.len() {
                assert(d[i] == cat[i]);
                assert(m0.contains(d[i]));
                let x = choose|x: int| 0 <= x < m0.len() && m0[x] == d[i];
                if grade_kind(lowercase(cat.last()), pfx) != MatchKind::NoMatch {
                    assert(m[x] == m0[x]);
                }
            } else {
                assert(cat[i] == cat.last());
                assert(m[m.len() - 1] == cat[i]);
            }
        }
    }
}

/// With a non-empty prefix, suggestions come best grade first (exact, word,
/// and prefix matches before substring matches, those before fuzzy ones),
/// and when fewer than the limit come back, every catalog tag that matches
/// the prefix is among them.
pub proof fn lemma_suggestion_order(r: Seq<Seq<char>>, items: Seq<ItemView>, prefix: Seq<char>, limit: usize)
    requires
        is_suggestion(r, items, prefix, limit),
        lowercase(trimmed(prefix)).len() > 0,
    ensures
        forall|i: int, k: int|
            0 <= i < k < r.len() ==> strict_points(grade_kind(lowercase(#[trigger] r[i]), lowercase(trimmed(prefix))))
                >= strict_points(grade_kind(lowercase(#[trigger] r[k]), lowercase(trimmed(prefix)))),
        exists|cat: Seq<Seq<char>>|
            #![trigger is_catalog(cat, items)]
            is_catalog(cat, items) && (r.len() < (if limit == 0 { 1 } else { limit as int }) ==> forall|c: int|
                0 <= c < cat.len() && grade_kind(lowercase(#[trigger] cat[c]), lowercase(trimmed(prefix)))
                    != MatchKind::NoMatch ==> r.contains(cat[c])),
{
    let pfx = lowercase(trimmed(prefix));
    let lim: int = if limit == 0 { 1 } else { limit as int };
    let cat = choose|cat: Seq<Seq<char>>| #[trigger] is_catalog(cat, items) && if pfx.len() == 0 {
        r == cat.take(min_nat(lim, cat.len() as int))
    } else {
        let m = matching_tags(cat, pfx);
        exists|p: Seq<usize>|
            is_permutation(p, m.len() as int) && sorted_by_keys(p, suggest_keys(m, pfx))
                && r == arranged(m, p).take(min_nat(lim, m.len() as int))
    };
    let m = matching_tags(cat, pfx);
    let p = choose|p: Seq<usize>|
        is_permutation(p, m.len() as int) && sorted_by_keys(p, suggest_keys(m, pfx))
            && r == arranged(m, p).take(min_nat(lim, m.len() as int));
    let keys = suggest_keys(m, pfx);
    assert forall|i: int, k: int| 0 <= i < k < r.len() implies strict_points(grade_kind(lowercase(#[trigger] r[i]), pfx))
        >= strict_points(grade_kind(lowercase(#[trigger] r[k]), pfx)) by {
        let ka = keys[p[i] as int];
        let kb = keys[p[k] as int];
        assert(goes_before(ka, p[i] as int, kb, p[k] as int));
        assert(r[i] == m[p[i] as int]);
        assert(r[k] == m[p[k] as int]);
        assert(ka[0] == (-strict_points(grade_kind(lowercase(m[p[i] as int]), pfx))) as i128);
        assert(kb[0] == (-strict_points(grade_kind(lowercase(m[p[k] as int]), pfx))) as i128);
        assert(ka[0] <= kb[0]);
    }
    lemma_matching_complete(cat, pfx);
    if r.len() < lim {
        assert forall|c: int|
            0 <= c < cat.len() && grade_kind(lowercase(#[trigger] cat[c]), pfx) != MatchKind::NoMatch
                implies r.contains(cat[c]) by {
            let x = choose|x: int| 0 <= x < m.len() && m[x] == cat[c];
            lemma_permutation_onto(p, m.len() as int, x);
            let y = choose|y: int| 0 <= y < p.len() && p[y] == x;
            assert(r[y] == cat[c]);
        }
    }
}

} // verus!
