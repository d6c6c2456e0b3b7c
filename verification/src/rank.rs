//! Ranking order, the items a query scores, and paging of the results.
//!
//! Scores are doubles; ordering reads each one as its bit pattern, which on
//! non-negative doubles orders as the numbers do (scores are never negative).
use vstd::prelude::*;

use crate::engine::is_hit;
use crate::index::{candidate, indexes, item_term, last_of_id, lemma_candidates_keep_hits, InvertedIndex};
use crate::order::{
    goes_before, is_permutation, key_views, lemma_desc_then, lemma_num_then, lemma_text_then, lex_lt,
    push_num_key, push_text_key, sort_order, sorted_by_keys, text_key, text_key_desc, text_lt,
};
use crate::parse::{parse_query, parsed};
use crate::synonyms::{expanded, SynonymMap};
use crate::text::{chars_of, copy_string, lowercase, str_to_lowercase, views};
use crate::types::{has_text, item_views, ItemView, ParsedQuery, QueryView, SearchMetrics, SearchSort, Searchable};

verus! {

/// Results per page when the caller gives no limit.
pub const DEFAULT_LIMIT: usize = 50;

/// What the relevance order reads of one hit.
pub struct RankKey {
    /// Bit pattern of the hit's (non-negative) score.
    pub score_bits: u64,
    pub use_count: u64,
    /// When the item was last used; empty when never.
    pub last_used: String,
    /// The item's name, lower-cased.
    pub name_key: String,
}

/// A rank key as values.
pub struct RankKeyView {
    pub score_bits: u64,
    pub use_count: u64,
    pub last_used: Seq<char>,
    pub name_key: Seq<char>,
}

impl View for RankKey {
    type V = RankKeyView;

    open spec fn view(&self) -> RankKeyView {
        RankKeyView {
            score_bits: self.score_bits,
            use_count: self.use_count,
            last_used: self.last_used@,
            name_key: self.name_key@,
        }
    }
}

pub open spec fn rank_key_views(ks: Seq<RankKey>) -> Seq<RankKeyView> {
    ks.map_values(|k: RankKey| k@)
}

/// The key of an item with the given score.
pub open spec fn key_of(it: ItemView, score_bits: u64) -> RankKeyView {
    RankKeyView {
        score_bits,
        use_count: it.use_count,
        last_used: match it.last_used_at {
            Some(t) => t,
            None => Seq::empty(),
        },
        name_key: lowercase(it.name),
    }
}

impl RankKey {
    /// The rank key of `item` scored `score_bits`.
    pub fn from_item(item: &Searchable, score_bits: u64) -> (r: RankKey)
        ensures
            r@ == key_of(item@, score_bits),
    {
        let last_used = match &item.last_used_at {
            Some(t) => copy_string(t),
            None => String::new(),
        };
        RankKey {
            score_bits,
            use_count: item.use_count,
            last_used,
            name_key: str_to_lowercase(item.name.as_str()),
        }
    }
}

/// Relevance: higher score first, then more uses, then more recent use,
/// then name.
pub open spec fn relevance_key(k: RankKeyView) -> Seq<i128> {
    seq![(-(k.score_bits as int)) as i128, (-(k.use_count as int)) as i128].add(
        text_key_desc(k.last_used),
    ).add(text_key(k.name_key))
}

/// Relevance, or most recent use first, or name first, each with the
/// relevance order breaking ties.
pub open spec fn rank_key(k: RankKeyView, sort: SearchSort) -> Seq<i128> {
    match sort {
        SearchSort::Relevance => relevance_key(k),
        SearchSort::Recent => text_key_desc(k.last_used).add(relevance_key(k)),
        SearchSort::Name => text_key(k.name_key).add(relevance_key(k)),
    }
}

pub open spec fn rank_keys(ks: Seq<RankKeyView>, sort: SearchSort) -> Seq<Seq<i128>> {
    ks.map_values(|k: RankKeyView| rank_key(k, sort))
}

fn relevance_parts(key: &mut Vec<i128>, k: &RankKey)
    ensures
        final(key)@ == old(key)@ + relevance_key(k@),
{
    let ghost start = key@;
    push_num_key(key, k.score_bits, true);
    push_num_key(key, k.use_count, true);
    push_text_key(key, &chars_of(k.last_used.as_str()), true);
    push_text_key(key, &chars_of(k.name_key.as_str()), false);
    assert(key@ =~= start + relevance_key(k@));
}

fn sort_key(k: &RankKey, sort: SearchSort) -> (r: Vec<i128>)
    ensures
        r@ == rank_key(k@, sort),
{
    let mut key: Vec<i128> = Vec::new();
    match sort {
        SearchSort::Relevance => {},
        SearchSort::Recent => {
            push_text_key(&mut key, &chars_of(k.last_used.as_str()), true);
        },
        SearchSort::Name => {
            push_text_key(&mut key, &chars_of(k.name_key.as_str()), false);
        },
    }
    relevance_parts(&mut key, k);
    assert(key@ =~= rank_key(k@, sort));
    key
}

/// Positions of the hits in the order `sort` asks for (stable).
pub fn rank_order(keys: &Vec<RankKey>, sort: SearchSort) -> (r: Vec<usize>)
    ensures
        is_permutation(r@, keys@.len() as int),
        sorted_by_keys(r@, rank_keys(rank_key_views(keys@), sort)),
{
    let ghost want = rank_keys(rank_key_views(keys@), sort);
    let mut ks: Vec<Vec<i128>> = Vec::new();
    let mut i: usize = 0;
    while i < keys.len()
        invariant
            i <= keys.len(),
            want == rank_keys(rank_key_views(keys@), sort),
            key_views(ks@) == want.take(i as int),
        decreases keys.len() - i,
    {
        let ghost prev = key_views(ks@);
        ks.push(sort_key(&keys[i], sort));
        assert(key_views(ks@) =~= prev.push(rank_key(keys@[i as int]@, sort)));
        assert(want.take(i + 1) =~= want.take(i as int).push(rank_key(keys@[i as int]@, sort)));
        i = i + 1;
    }
    assert(want.take(keys.len() as int) =~= want);
    assert(ks@.len() == key_views(ks@).len());
    sort_order(&ks)
}

/// What relevance promises of a hit `a` ranked before a hit `b`: a score at
/// least as high; on equal scores at least as many uses; then a use at least
/// as recent; then a name that does not sort after.
pub open spec fn relevance_in_order(a: RankKeyView, b: RankKeyView) -> bool {
    &&& a.score_bits >= b.score_bits
    &&& a.score_bits == b.score_bits ==> a.use_count >= b.use_count
    &&& a.score_bits == b.score_bits && a.use_count == b.use_count ==> !text_lt(a.last_used, b.last_used)
    &&& a.score_bits == b.score_bits && a.use_count == b.use_count && a.last_used == b.last_used
        ==> !text_lt(b.name_key, a.name_key)
}

/// What `sort` promises of a hit `a` ranked before a hit `b`: by relevance;
/// or the more recent use first, then relevance; or the name first, then
/// relevance.
pub open spec fn ranked_in_order(a: RankKeyView, b: RankKeyView, sort: SearchSort) -> bool {
    match sort {
        SearchSort::Relevance => relevance_in_order(a, b),
        SearchSort::Recent => !text_lt(a.last_used, b.last_used) && (a.last_used == b.last_used
            ==> relevance_in_order(a, b)),
        SearchSort::Name => !text_lt(b.name_key, a.name_key) && (a.name_key == b.name_key
            ==> relevance_in_order(a, b)),
    }
}

proof fn lemma_relevance_keys(a: RankKeyView, b: RankKeyView)
    requires
        lex_lt(relevance_key(a), relevance_key(b)) || relevance_key(a) == relevance_key(b),
    ensures
        relevance_in_order(a, b),
{
    let sa = (-(a.score_bits as int)) as i128;
    let sb = (-(b.score_bits as int)) as i128;
    let ua = (-(a.use_count as int)) as i128;
    let ub = (-(b.use_count as int)) as i128;
    let ta = text_key_desc(a.last_used) + text_key(a.name_key);
    let tb = text_key_desc(b.last_used) + text_key(b.name_key);
    assert(relevance_key(a) =~= seq![sa] + (seq![ua] + ta));
    assert(relevance_key(b) =~= seq![sb] + (seq![ub] + tb));
    lemma_num_then(sa, sb, seq![ua] + ta, seq![ub] + tb);
    if sa == sb {
        lemma_num_then(ua, ub, ta, tb);
        if ua == ub {
            lemma_desc_then(a.last_used, b.last_used, text_key(a.name_key), text_key(b.name_key));
            if a.last_used == b.last_used {
                let e = Seq::<i128>::empty();
                assert(text_key(a.name_key) + e =~= text_key(a.name_key));
                assert(text_key(b.name_key) + e =~= text_key(b.name_key));
                lemma_text_then(a.name_key, b.name_key, e, e);
            }
        }
    }
}

proof fn lemma_rank_keys(a: RankKeyView, b: RankKeyView, sort: SearchSort)
    requires
        lex_lt(rank_key(a, sort), rank_key(b, sort)) || rank_key(a, sort) == rank_key(b, sort),
    ensures
        ranked_in_order(a, b, sort),
{
    match sort {
        SearchSort::Relevance => {
            lemma_relevance_keys(a, b);
        },
        SearchSort::Recent => {
            lemma_desc_then(a.last_used, b.last_used, relevance_key(a), relevance_key(b));
            if a.last_used == b.last_used {
                lemma_relevance_keys(a, b);
            }
        },
        SearchSort::Name => {
            lemma_text_then(a.name_key, b.name_key, relevance_key(a), relevance_key(b));
            if a.name_key == b.name_key {
                lemma_relevance_keys(a, b);
            }
        },
    }
}

/// Result orders: in an order that `rank_order` gives, every hit listed
/// before another is ranked in order with it by the sort (relevance: score,
/// then uses, then last use, then name; recent: last use, then relevance;
/// name: name, then relevance), and hits that tie on every key keep their
/// input order.
pub proof fn lemma_rank_orders(r: Seq<usize>, keys: Seq<RankKeyView>, sort: SearchSort)
    requires
        is_permutation(r, keys.len() as int),
        sorted_by_keys(r, rank_keys(keys, sort)),
    ensures
        forall|x: int, y: int|
            0 <= x < y < r.len() ==> ranked_in_order(keys[#[trigger] r[x] as int], keys[#[trigger] r[y] as int], sort),
        forall|x: int, y: int|
            0 <= x < y < r.len() && keys[#[trigger] r[x] as int] == keys[#[trigger] r[y] as int] ==> r[x] < r[y],
{
    let ks = rank_keys(keys, sort);
    assert forall|x: int, y: int| 0 <= x < y < r.len() implies ranked_in_order(
        keys[#[trigger] r[x] as int],
        keys[#[trigger] r[y] as int],
        sort,
    ) && (keys[r[x] as int] == keys[r[y] as int] ==> r[x] < r[y]) by {
        assert(goes_before(ks[r[x] as int], r[x] as int, ks[r[y] as int], r[y] as int));
        lemma_rank_keys(keys[r[x] as int], keys[r[y] as int], sort);
        if keys[r[x] as int] == keys[r[y] as int] {
            crate::order::lemma_lex_irreflexive(ks[r[x] as int]);
        }
    }
}

pub open spec fn min_int(a: int, b: int) -> int {
    if a <= b {
        a
    } else {
        b
    }
}

/// The effective page size: the limit given (or the default), at least one.
pub open spec fn page_limit(limit: Option<usize>) -> int {
    let l = match limit {
        Some(l) => l as int,
        None => DEFAULT_LIMIT as int,
    };
    if l == 0 {
        1
    } else {
        l
    }
}

/// The page `[start, end)` of `n` ordered results: skip `offset` (default 0),
/// then take up to the limit.
pub open spec fn page_start(n: int, offset: Option<usize>) -> int {
    min_int(
        match offset {
            Some(o) => o as int,
            None => 0,
        },
        n,
    )
}

pub open spec fn page_end(n: int, offset: Option<usize>, limit: Option<usize>) -> int {
    page_start(n, offset) + min_int(page_limit(limit), n - page_start(n, offset))
}

/// Paging: the page starts at the offset (0 when none is given, at most
/// `n`), and holds as many results as the limit asks for (50 when none is
/// given, one when it is zero), or all that remain when fewer do.
pub proof fn lemma_page_bounds(n: int, offset: Option<usize>, limit: Option<usize>)
    requires
        n >= 0,
    ensures
        page_start(n, offset) == (if offset is Some && offset->0 <= n {
            offset->0 as int
        } else if offset is Some {
            n
        } else {
            0
        }),
        limit is Some && limit->0 >= 1 ==> page_end(n, offset, limit) - page_start(n, offset) == (if limit->0
            <= n - page_start(n, offset) {
            limit->0 as int
        } else {
            n - page_start(n, offset)
        }),
        limit == Some(0usize) ==> page_end(n, offset, limit) - page_start(n, offset) == (if n
            > page_start(n, offset) {
            1int
        } else {
            0int
        }),
        limit is None ==> page_end(n, offset, limit) - page_start(n, offset) == (if 50 <= n - page_start(
            n,
            offset,
        ) {
            50int
        } else {
            n - page_start(n, offset)
        }),
{
}

/// Bounds of the requested page within `n` results.
pub fn page_window(n: usize, offset: Option<usize>, limit: Option<usize>) -> (r: (usize, usize))
    ensures
        r.0 == page_start(n as int, offset),
        r.1 == page_end(n as int, offset, limit),
        r.0 == (if offset is Some && offset->0 <= n { offset->0 } else if offset is Some { n } else { 0 }),
        limit is Some && limit->0 >= 1 ==> r.1 - r.0 == (if limit->0 <= n - r.0 {
            limit->0 as int
        } else {
            n - r.0
        }),
        limit == Some(0usize) ==> r.1 - r.0 == (if n > r.0 { 1int } else { 0int }),
        limit is None ==> r.1 - r.0 == (if 50 <= n - r.0 { 50int } else { n - r.0 }),
{
    proof {
        lemma_page_bounds(n as int, offset, limit);
    }
    let lim = match limit {
        Some(l) => l,
        None => DEFAULT_LIMIT,
    };
    let lim = if lim == 0 {
        1
    } else {
        lim
    };
    let off = match offset {
        Some(o) => o,
        None => 0,
    };
    let start = if off <= n {
        off
    } else {
        n
    };
    let room = n - start;
    let take = if lim <= room {
        lim
    } else {
        room
    };
    (start, start + take)
}

/// Order the hits and cut out the requested page: positions into `keys`.
pub fn rank_page(keys: &Vec<RankKey>, sort: SearchSort, offset: Option<usize>, limit: Option<usize>) -> (r: Vec<usize>)
    ensures
        exists|p: Seq<usize>|
            is_permutation(p, keys@.len() as int) && sorted_by_keys(
                p,
                rank_keys(rank_key_views(keys@), sort),
            ) && r@ == p.subrange(
                page_start(keys@.len() as int, offset),
                page_end(keys@.len() as int, offset, limit),
            ),
{
    let order = rank_order(keys, sort);
    let (start, end) = page_window(order.len(), offset, limit);
    let mut out: Vec<usize> = Vec::new();
    let mut i: usize = start;
    while i < end
        invariant
            start <= i <= end <= order.len(),
            out@ == order@.subrange(start as int, i as int),
        decreases end - i,
    {
        out.push(order[i]);
        assert(out@ =~= order@.subrange(start as int, i + 1));
        i = i + 1;
    }
    out
}

/// Positions of the items whose id passes `keep`, in order.
pub open spec fn positions_where(items: Seq<ItemView>, keep: spec_fn(Seq<char>) -> bool) -> Seq<usize>
    decreases items.len(),
{
    if items.len() == 0 {
        Seq::empty()
    } else {
        let r = positions_where(items.drop_last(), keep);
        if keep(items.last().id) {
            r.push((items.len() - 1) as usize)
        } else {
            r
        }
    }
}

/// Every item in browse mode (`None`), else those among the candidate ids.
pub open spec fn among(ids: Option<Seq<Seq<char>>>) -> spec_fn(Seq<char>) -> bool {
    |id: Seq<char>|
        match ids {
            Some(v) => v.contains(id),
            None => true,
        }
}

pub open spec fn opt_views(ids: Option<Vec<String>>) -> Option<Seq<Seq<char>>> {
    match ids {
        Some(v) => Some(views(v@)),
        None => None,
    }
}

/// Positions of the items to score, in library order.
pub fn score_positions(items: &Vec<Searchable>, ids: &Option<Vec<String>>) -> (r: Vec<usize>)
    ensures
        r@ == positions_where(item_views(items@), among(opt_views(*ids))),
{
    let ghost its = item_views(items@);
    let ghost keep = among(opt_views(*ids));
    let mut out: Vec<usize> = Vec::new();
    let mut i: usize = 0;
    while i < items.len()
        invariant
            i <= items.len(),
            its == item_views(items@),
            keep == among(opt_views(*ids)),
            out@ == positions_where(its.take(i as int), keep),
        decreases items.len() - i,
    {
        proof {
            assert(its.take(i + 1).drop_last() =~= its.take(i as int));
            assert(its.take(i + 1).last() == items@[i as int]@);
        }
        let take = match ids {
            Some(v) => crate::sets::vec_has(v, &items[i].id),
            None => true,
        };
        if take {
            out.push(i);
        }
        i = i + 1;
    }
    assert(its.take(items.len() as int) =~= its);
    out
}

/// The query as searched: parsed, then expanded by the synonyms, if any.
pub open spec fn searched_query(input: Seq<char>, synonyms: Option<&SynonymMap>) -> QueryView {
    match synonyms {
        Some(m) => expanded(parsed(input), m.entries()),
        None => parsed(input),
    }
}

/// The ids a query scores: every id in browse mode, else the candidates.
pub open spec fn to_score(idx: InvertedIndex, q: QueryView) -> spec_fn(Seq<char>) -> bool {
    |id: Seq<char>| !has_text(q) || candidate(idx, q, id)
}

/// Everything a search decides before it scores: the query, whether the
/// index narrowed it, and the positions of the items to score.
pub struct SearchPlan {
    pub parsed: ParsedQuery,
    pub used_index: bool,
    pub positions: Vec<usize>,
}

/// Parse and expand the query, then pick the items to score: every item in
/// browse mode, else the index's candidates (from `index`, or from an index
/// built over `items`).
pub fn plan_search(
    items: &Vec<Searchable>,
    query: &str,
    synonyms: Option<&SynonymMap>,
    index: Option<&InvertedIndex>,
) -> (r: SearchPlan)
    ensures
        r.parsed@ == searched_query(query@, synonyms),
        r.used_index == has_text(r.parsed@),
        exists|idx: InvertedIndex|
            (match index {
                Some(i) => idx == *i,
                None => indexes(idx, item_views(items@)),
            }) && r.positions@ == positions_where(item_views(items@), #[trigger] to_score(idx, r.parsed@)),
{
    let mut q = parse_query(query);
    match synonyms {
        Some(map) => {
            q = map.expand_parsed(&q);
        },
        None => {},
    }
    let built;
    let idx = match index {
        Some(i) => i,
        None => {
            built = InvertedIndex::build(items);
            &built
        },
    };
    let ids = idx.candidates(&q);
    let used = ids.is_some();
    let positions = score_positions(items, &ids);
    let r = SearchPlan { parsed: q, used_index: used, positions };
    proof {
        let want = to_score(*idx, r.parsed@);
        assert(among(opt_views(ids)) =~= want);
        assert(match index {
            Some(i) => *idx == *i,
            None => indexes(*idx, item_views(items@)),
        });
        assert(r.positions@ == positions_where(item_views(items@), want));
    }
    r
}


/// The metrics of one search: the library's size, the candidates (all of
/// them scanned) and whether the index narrowed them, from the plan; the
/// hits that matched and those returned; the time taken.
pub fn search_metrics(library_size: usize, plan: &SearchPlan, matched: usize, returned: usize, ms: u64) -> (r: SearchMetrics)
    ensures
        r.library_size == library_size,
        r.candidates == plan.positions@.len(),
        r.scanned == plan.positions@.len(),
        r.matched == matched,
        r.returned == returned,
        r.ms == ms,
        r.used_index == plan.used_index,
{
    SearchMetrics {
        library_size,
        candidates: plan.positions.len(),
        scanned: plan.positions.len(),
        matched,
        returned,
        ms,
        used_index: plan.used_index,
    }
}

/// `positions_where` lists, in increasing order, exactly the positions whose
/// id passes `keep`.
pub proof fn lemma_positions_where(items: Seq<ItemView>, keep: spec_fn(Seq<char>) -> bool)
    requires
        items.len() <= usize::MAX,
    ensures
        forall|x: int|
            0 <= x < positions_where(items, keep).len() ==> #[trigger] positions_where(items, keep)[x]
                < items.len() && keep(items[positions_where(items, keep)[x] as int].id),
        forall|x: int, y: int|
            0 <= x < y < positions_where(items, keep).len() ==> #[trigger] positions_where(items, keep)[x]
                < #[trigger] positions_where(items, keep)[y],
        forall|j: int|
            0 <= j < items.len() && keep(#[trigger] items[j].id) ==> positions_where(items, keep).contains(
                j as usize,
            ),
    decreases items.len(),
{
    if items.len() > 0 {
        let d = items.drop_last();
        lemma_positions_where(d, keep);
        let r0 = positions_where(d, keep);
        let r = positions_where(items, keep);
        assert forall|j: int| 0 <= j < d.len() implies #[trigger] d[j] == items[j] by {}
        if keep(items.last().id) {
            assert forall|x: int| 0 <= x < r0.len() implies #[trigger] r[x] == r0[x] by {}
            assert(r[r0.len() as int] == (items.len() - 1) as usize);
            assert forall|x: int, y: int| 0 <= x < y < r.len() implies #[trigger] r[x] < #[trigger] r[y] by {
                assert(r[x] == r0[x]);
                if y < r0.len() {
                    assert(r[y] == r0[y]);
                }
            }
        }
        assert forall|x: int| 0 <= x < r.len() implies #[trigger] r[x] < items.len() && keep(items[r[x] as int].id) by {
            if x < r0.len() {
                assert(r[x] == r0[x]);
                assert(d[r0[x] as int] == items[r0[x] as int]);
            }
        }
        assert forall|j: int| 0 <= j < items.len() && keep(#[trigger] items[j].id) implies r.contains(j as usize) by {
            if j < d.len() {
                assert(d[j] == items[j]);
                assert(r0.contains(j as usize));
                let x = choose|x: int| 0 <= x < r0.len() && r0[x] == j as usize;
                if keep(items.last().id) {
                    assert(r[x] == r0[x]);
                }
            } else {
                assert(r[r.len() - 1] == j as usize);
            }
        }
    }
}

/// Narrowing by the index drops no hit: with an index built over the items,
/// the item kept for its id that is a hit of the query is scored (whenever an
/// empty alternative only occurs for an item with some index term, and an
/// extension filter only meets an item whose extension is not empty once
/// folded).
pub proof fn lemma_search_scores_hits(idx: InvertedIndex, items: Seq<ItemView>, q: QueryView, j: int)
    requires
        items.len() <= usize::MAX,
        indexes(idx, items),
        last_of_id(items, j),
        is_hit(items[j], q),
        q.extensions.len() > 0 ==> lowercase(items[j].extension).len() > 0,
        forall|g: int, a: int|
            0 <= g < q.must_groups.len() && 0 <= a < q.must_groups[g].len()
                && #[trigger] q.must_groups[g][a].len() == 0 ==> exists|t: Seq<char>| item_term(items[j], t),
    ensures
        positions_where(items, to_score(idx, q)).contains(j as usize),
{
    if has_text(q) {
        lemma_candidates_keep_hits(idx, items, q, j);
    }
    assert(to_score(idx, q)(items[j].id));
    lemma_positions_where(items, to_score(idx, q));
}

} // verus!
