//! Search over the meme library: alias enrichment, the cached index, tags.
use vstd::prelude::*;

use crate::index::{
    candidate, doc_order, indexes, lemma_same_as_answers, lemma_same_as_indexes, lemma_same_as_symmetric,
    InvertedIndex,
};
use crate::pipeline::{
    all_tags, ascii_lower, collect_tags as collect_item_tags, eq_ascii_ci, eq_ignore_ascii_case, is_catalog,
    is_suggestion, suggest_tags as suggest_item_tags,
};
use crate::storage::bindings::{binding_views, normal_trigger, normalize_trigger, Binding, BindingView};
use crate::storage::meme::{meme_views, searchable_view, Meme, MemeView};
use crate::text::{is_ascii_text, lemma_views_push, string_is_empty, views};
use crate::types::{item_views, ItemView, QueryView, Searchable};

verus! {

/// What search reads of each meme.
pub open spec fn library_items(ms: Seq<MemeView>) -> Seq<ItemView> {
    ms.map_values(|m: MemeView| searchable_view(m))
}

/// The searchable form of every meme, in order.
pub fn searchables(memes: &Vec<Meme>) -> (r: Vec<Searchable>)
    ensures
        item_views(r@) == library_items(meme_views(memes@)),
{
    let mut out: Vec<Searchable> = Vec::new();
    let mut i: usize = 0;
    while i < memes.len()
        invariant
            i <= memes.len(),
            item_views(out@) == library_items(meme_views(memes@)).take(i as int),
        decreases memes.len() - i,
    {
        let ghost prev = item_views(out@);
        out.push(memes[i].searchable());
        assert(item_views(out@) =~= prev.push(searchable_view(memes@[i as int]@)));
        assert(library_items(meme_views(memes@)).take(i + 1) =~= library_items(meme_views(memes@)).take(i as int).push(searchable_view(memes@[i as int]@)));
        i = i + 1;
    }
    assert(library_items(meme_views(memes@)).take(memes.len() as int) =~= library_items(meme_views(memes@)));
    out
}

/// Process-wide inverted index; cleared on library mutations.
pub struct SearchIndexCache {
    inner: Option<InvertedIndex>,
}

impl SearchIndexCache {
    /// The index held, if any.
    pub closed spec fn cached(&self) -> Option<InvertedIndex> {
        self.inner
    }

    /// An empty cache.
    pub fn new() -> (r: SearchIndexCache)
        ensures
            r.cached().is_none(),
    {
        SearchIndexCache { inner: None }
    }

    /// Forget the held index (after any library change).
    pub fn invalidate(&mut self)
        ensures
            final(self).cached().is_none(),
    {
        self.inner = None;
    }

    /// The held index, or one built from `memes` (and then held).
    pub fn get_or_build(&mut self, memes: &Vec<Meme>) -> (r: InvertedIndex)
        ensures
            match old(self).cached() {
                Some(c) => {
                    &&& r.same_as(c)
                    &&& final(self).cached() == old(self).cached()
                    &&& r.spec_doc_ids() == c.spec_doc_ids()
                    &&& forall|q: QueryView, id: Seq<char>| candidate(r, q, id) == candidate(c, q, id)
                },
                None => {
                    &&& indexes(r, library_items(meme_views(memes@)))
                    &&& r.spec_doc_ids() == doc_order(library_items(meme_views(memes@)))
                    &&& final(self).cached() matches Some(c) && c.same_as(r)
                },
            },
            cache_step(old(self).cached(), Some(library_items(meme_views(memes@))), r, final(self).cached()),
    {
        match &self.inner {
            Some(index) => {
                let r = index.duplicate();
                proof {
                    lemma_same_as_answers(r, *index);
                }
                return r;
            },
            None => {},
        }
        let built = InvertedIndex::build(&searchables(memes));
        let kept = built.duplicate();
        self.inner = Some(kept);
        built
    }
}

/// One call on the cache, as its contracts describe it: a lookup over
/// `items` (`Some`) or a clearing (`None`), from the held index `before` to
/// `after`, a lookup answering `r`.
pub open spec fn cache_step(
    before: Option<InvertedIndex>,
    call: Option<Seq<ItemView>>,
    r: InvertedIndex,
    after: Option<InvertedIndex>,
) -> bool {
    match call {
        None => after.is_none(),
        Some(items) => match before {
            Some(c) => r.same_as(c) && after == before,
            None => indexes(r, items) && (after matches Some(c) && c.same_as(r)),
        },
    }
}

/// The items whose index the cache holds after `calls` from empty: those of
/// the first lookup since the last clearing.
pub open spec fn held_items(calls: Seq<Option<Seq<ItemView>>>) -> Option<Seq<ItemView>>
    decreases calls.len(),
{
    if calls.len() == 0 {
        None
    } else {
        match calls.last() {
            None => None,
            Some(items) => match held_items(calls.drop_last()) {
                Some(s) => Some(s),
                None => Some(items),
            },
        }
    }
}

proof fn lemma_cache_prefix(
    calls: Seq<Option<Seq<ItemView>>>,
    states: Seq<Option<InvertedIndex>>,
    answers: Seq<InvertedIndex>,
    n: int,
)
    requires
        states.len() == calls.len() + 1,
        answers.len() == calls.len(),
        states[0].is_none(),
        forall|i: int| 0 <= i < calls.len() ==> cache_step(states[i], calls[i], #[trigger] answers[i], states[i + 1]),
        0 <= n <= calls.len(),
    ensures
        states[n].is_some() == held_items(calls.take(n)).is_some(),
        states[n] matches Some(c) ==> indexes(c, held_items(calls.take(n))->Some_0),
    decreases n,
{
    if n == 0 {
        assert(calls.take(0) =~= Seq::<Option<Seq<ItemView>>>::empty());
    } else {
        lemma_cache_prefix(calls, states, answers, n - 1);
        assert(calls.take(n).drop_last() =~= calls.take(n - 1));
        assert(calls.take(n).last() == calls[n - 1]);
        assert(cache_step(states[n - 1], calls[n - 1], answers[n - 1], states[n]));
        match calls[n - 1] {
            None => {},
            Some(items) => match states[n - 1] {
                Some(c) => {},
                None => {
                    let c = states[n]->Some_0;
                    lemma_same_as_symmetric(c, answers[n - 1]);
                    lemma_same_as_indexes(answers[n - 1], c, items);
                },
            },
        }
    }
}

/// Staleness of the cache: over any run of calls on a cache that starts
/// empty, every lookup answers with an index of the items of the first
/// lookup since the last clearing; later changes to the library are not
/// seen until the cache is cleared.
pub proof fn lemma_cache_run(
    calls: Seq<Option<Seq<ItemView>>>,
    states: Seq<Option<InvertedIndex>>,
    answers: Seq<InvertedIndex>,
)
    requires
        states.len() == calls.len() + 1,
        answers.len() == calls.len(),
        states[0].is_none(),
        forall|i: int| 0 <= i < calls.len() ==> cache_step(states[i], calls[i], #[trigger] answers[i], states[i + 1]),
    ensures
        forall|i: int|
            0 <= i < calls.len() && (#[trigger] calls[i]).is_some() ==> (held_items(calls.take(i + 1)) matches Some(
                s,
            ) && indexes(answers[i], s)),
{
    assert forall|i: int| 0 <= i < calls.len() && (#[trigger] calls[i]).is_some() implies (held_items(
        calls.take(i + 1),
    ) matches Some(s) && indexes(answers[i], s)) by {
        lemma_cache_prefix(calls, states, answers, i);
        assert(calls.take(i + 1).drop_last() =~= calls.take(i));
        assert(calls.take(i + 1).last() == calls[i]);
        assert(cache_step(states[i], calls[i], answers[i], states[i + 1]));
        match states[i] {
            Some(c) => {
                lemma_same_as_symmetric(answers[i], c);
                lemma_same_as_indexes(c, answers[i], held_items(calls.take(i))->Some_0);
            },
            None => {},
        }
    }
}

/// Normalized triggers of the bindings that point at `id`, in order.
pub open spec fn triggers_for(bs: Seq<BindingView>, id: Seq<char>) -> Seq<Seq<char>>
    decreases bs.len(),
{
    if bs.len() == 0 {
        Seq::empty()
    } else {
        let r = triggers_for(bs.drop_last(), id);
        if bs.last().meme_id == id {
            r.push(normal_trigger(bs.last().trigger))
        } else {
            r
        }
    }
}

/// Add each trigger that is not empty and not already an alias (ignoring
/// ASCII case), in order.
pub open spec fn with_triggers(aliases: Seq<Seq<char>>, ts: Seq<Seq<char>>) -> Seq<Seq<char>>
    decreases ts.len(),
{
    if ts.len() == 0 {
        aliases
    } else {
        let a = with_triggers(aliases, ts.drop_last());
        let t = ts.last();
        if t.len() == 0 || exists|i: int| 0 <= i < a.len() && eq_ascii_ci(a[i], t) {
            a
        } else {
            a.push(t)
        }
    }
}

/// A meme with the triggers bound to it folded into its aliases.
pub open spec fn enriched(m: MemeView, bs: Seq<BindingView>) -> MemeView {
    MemeView { aliases: with_triggers(m.aliases, triggers_for(bs, m.id)), ..m }
}

proof fn lemma_triggers_for(bs: Seq<BindingView>, id: Seq<char>)
    ensures
        forall|t: Seq<char>| #[trigger] triggers_for(bs, id).contains(t) <==> exists|k: int|
            0 <= k < bs.len() && bs[k].meme_id == id && normal_trigger(bs[k].trigger) == t,
    decreases bs.len(),
{
    broadcast use vstd::seq_lib::lemma_seq_contains_after_push;

    if bs.len() > 0 {
        let d = bs.drop_last();
        lemma_triggers_for(d, id);
        assert forall|t: Seq<char>| #[trigger] triggers_for(bs, id).contains(t) <==> exists|k: int|
            0 <= k < bs.len() && bs[k].meme_id == id && normal_trigger(bs[k].trigger) == t by {
            if exists|k: int| 0 <= k < bs.len() && bs[k].meme_id == id && normal_trigger(bs[k].trigger) == t {
                let k = choose|k: int| 0 <= k < bs.len() && bs[k].meme_id == id && normal_trigger(bs[k].trigger) == t;
                if k < d.len() {
                    assert(d[k] == bs[k]);
                }
            }
            if triggers_for(d, id).contains(t) {
                let k = choose|k: int| 0 <= k < d.len() && d[k].meme_id == id && normal_trigger(d[k].trigger) == t;
                assert(bs[k] == d[k]);
            }
            assert(bs[bs.len() - 1] == bs.last());
        }
    }
}

proof fn lemma_with_triggers(aliases: Seq<Seq<char>>, ts: Seq<Seq<char>>)
    ensures
        with_triggers(aliases, ts).len() >= aliases.len(),
        with_triggers(aliases, ts).take(aliases.len() as int) == aliases,
        forall|i: int|
            aliases.len() <= i < with_triggers(aliases, ts).len() ==> (#[trigger] with_triggers(aliases, ts)[i]).len() > 0
                && ts.contains(with_triggers(aliases, ts)[i]),
        forall|j: int|
            0 <= j < ts.len() && (#[trigger] ts[j]).len() > 0 ==> exists|i: int|
                0 <= i < with_triggers(aliases, ts).len() && eq_ascii_ci(with_triggers(aliases, ts)[i], ts[j]),
    decreases ts.len(),
{
    if ts.len() == 0 {
        assert(aliases.take(aliases.len() as int) =~= aliases);
    } else {
        let d = ts.drop_last();
        let t = ts.last();
        lemma_with_triggers(aliases, d);
        let a = with_triggers(aliases, d);
        let r = with_triggers(aliases, ts);
        assert(ts[ts.len() - 1] == t);
        assert forall|j: int| 0 <= j < d.len() implies #[trigger] d[j] == ts[j] by {}
        if !(t.len() == 0 || exists|i: int| 0 <= i < a.len() && eq_ascii_ci(a[i], t)) {
            assert(r == a.push(t));
            assert(r.take(aliases.len() as int) =~= a.take(aliases.len() as int));
            assert forall|i: int| aliases.len() <= i < r.len() implies (#[trigger] r[i]).len() > 0 && ts.contains(r[i]) by {
                if i < a.len() {
                    assert(r[i] == a[i]);
                    let k = choose|k: int| 0 <= k < d.len() && d[k] == a[i];
                    assert(ts[k] == a[i]);
                }
            }
            assert forall|j: int| 0 <= j < ts.len() && (#[trigger] ts[j]).len() > 0 implies exists|i: int|
                0 <= i < r.len() && eq_ascii_ci(r[i], ts[j]) by {
                if j < d.len() {
                    assert(d[j] == ts[j]);
                    let i = choose|i: int| 0 <= i < a.len() && eq_ascii_ci(a[i], d[j]);
                    assert(r[i] == a[i]);
                } else {
                    assert(r[a.len() as int] == t);
                    assert(eq_ascii_ci(t, t));
                }
            }
        } else {
            assert forall|i: int| aliases.len() <= i < r.len() implies (#[trigger] r[i]).len() > 0 && ts.contains(r[i]) by {
                let k = choose|k: int| 0 <= k < d.len() && d[k] == a[i];
                assert(ts[k] == a[i]);
            }
            assert forall|j: int| 0 <= j < ts.len() && (#[trigger] ts[j]).len() > 0 implies exists|i: int|
                0 <= i < r.len() && eq_ascii_ci(r[i], ts[j]) by {
                if j < d.len() {
                    assert(d[j] == ts[j]);
                }
            }
        }
    }
}

/// Alias enrichment: only the aliases change; the old aliases stay first,
/// in order; each added alias is the non-empty normalized trigger of a
/// binding to that meme; and every such trigger ends up among the aliases,
/// up to ASCII case.
pub proof fn lemma_enrichment(m: MemeView, bs: Seq<BindingView>)
    ensures
        enriched(m, bs) == (MemeView { aliases: enriched(m, bs).aliases, ..m }),
        enriched(m, bs).aliases.len() >= m.aliases.len(),
        enriched(m, bs).aliases.take(m.aliases.len() as int) == m.aliases,
        forall|i: int|
            m.aliases.len() <= i < enriched(m, bs).aliases.len() ==> (#[trigger] enriched(m, bs).aliases[i]).len()
                > 0 && exists|k: int|
                0 <= k < bs.len() && bs[k].meme_id == m.id && normal_trigger(bs[k].trigger)
                    == enriched(m, bs).aliases[i],
        forall|k: int|
            0 <= k < bs.len() && (#[trigger] bs[k]).meme_id == m.id && normal_trigger(bs[k].trigger).len() > 0
                ==> exists|i: int|
                0 <= i < enriched(m, bs).aliases.len() && eq_ascii_ci(
                    enriched(m, bs).aliases[i],
                    normal_trigger(bs[k].trigger),
                ),
{
    let ts = triggers_for(bs, m.id);
    lemma_triggers_for(bs, m.id);
    lemma_with_triggers(m.aliases, ts);
    let r = enriched(m, bs).aliases;
    assert forall|i: int| m.aliases.len() <= i < r.len() implies (#[trigger] r[i]).len() > 0 && exists|k: int|
        0 <= k < bs.len() && bs[k].meme_id == m.id && normal_trigger(bs[k].trigger) == r[i] by {
        assert(ts.contains(r[i]));
    }
    assert forall|k: int|
        0 <= k < bs.len() && (#[trigger] bs[k]).meme_id == m.id && normal_trigger(bs[k].trigger).len() > 0
            implies exists|i: int| 0 <= i < r.len() && eq_ascii_ci(r[i], normal_trigger(bs[k].trigger)) by {
        assert(ts.contains(normal_trigger(bs[k].trigger)));
        let j = choose|j: int| 0 <= j < ts.len() && ts[j] == normal_trigger(bs[k].trigger);
        assert(ts[j].len() > 0);
    }
}

fn triggers_of(bindings: &Vec<Binding>, id: &String) -> (r: Vec<String>)
    ensures
        views(r@) == triggers_for(binding_views(bindings@), id@),
{
    let ghost bv = binding_views(bindings@);
    let mut out: Vec<String> = Vec::new();
    let mut i: usize = 0;
    assert(bv.take(0) =~= Seq::<BindingView>::empty());
    assert(views(out@) =~= Seq::<Seq<char>>::empty());
    while i < bindings.len()
        invariant
            i <= bindings.len(),
            bv == binding_views(bindings@),
            views(out@) == triggers_for(bv.take(i as int), id@),
        decreases bindings.len() - i,
    {
        proof {
            assert(bv.take(i + 1).drop_last() =~= bv.take(i as int));
            assert(bv.take(i + 1).last() == bindings@[i as int]@);
        }
        if bindings[i].meme_id == *id {
            let ghost prev = out@;
            out.push(normalize_trigger(bindings[i].trigger.as_str()));
            proof {
                lemma_views_push(prev, out@.last());
            }
        }
        i = i + 1;
    }
    assert(bv.take(bindings.len() as int) =~= bv);
    out
}

fn has_alias_ci(aliases: &Vec<String>, t: &String) -> (r: bool)
    ensures
        r == exists|i: int| 0 <= i < aliases@.len() && eq_ascii_ci(views(aliases@)[i], t@),
{
    let mut i: usize = 0;
    while i < aliases.len()
        invariant
            i <= aliases.len(),
            forall|k: int| 0 <= k < i ==> !eq_ascii_ci(views(aliases@)[k], t@),
        decreases aliases.len() - i,
    {
        if eq_ignore_ascii_case(aliases[i].as_str(), t.as_str()) {
            assert(eq_ascii_ci(views(aliases@)[i as int], t@));
            return true;
        }
        i = i + 1;
    }
    false
}

/// Merge binding triggers into each meme's aliases for scoring (does not write disk).
pub fn enrich_aliases_from_bindings(memes: &mut Vec<Meme>, bindings: &Vec<Binding>)
    ensures
        final(memes)@.len() == old(memes)@.len(),
        forall|k: int|
            0 <= k < old(memes)@.len() ==> #[trigger] final(memes)@[k]@ == enriched(
                old(memes)@[k]@,
                binding_views(bindings@),
            ),
{
    let ghost start = memes@;
    let ghost bv = binding_views(bindings@);
    let mut k: usize = 0;
    while k < memes.len()
        invariant
            k <= memes.len(),
            memes@.len() == start.len(),
            bv == binding_views(bindings@),
            forall|j: int| 0 <= j < k ==> #[trigger] memes@[j]@ == enriched(start[j]@, bv),
            forall|j: int| k <= j < memes@.len() ==> #[trigger] memes@[j] == start[j],
        decreases memes.len() - k,
    {
        let triggers = triggers_of(bindings, &memes[k].id);
        let mut aliases = crate::text::copy_strings(&memes[k].aliases);
        let ghost ts = views(triggers@);
        let ghost a0 = views(aliases@);
        assert(ts.take(0) =~= Seq::<Seq<char>>::empty());
        let mut i: usize = 0;
        while i < triggers.len()
            invariant
                i <= triggers.len(),
                ts == views(triggers@),
                views(aliases@) == with_triggers(a0, ts.take(i as int)),
            decreases triggers.len() - i,
        {
            proof {
                assert(ts.take(i + 1).drop_last() =~= ts.take(i as int));
                assert(ts.take(i + 1).last() == triggers@[i as int]@);
            }
            let t = &triggers[i];
            let dup = has_alias_ci(&aliases, t);
            if !string_is_empty(t) && !dup {
                let ghost prev = aliases@;
                aliases.push(crate::text::copy_string(t));
                proof {
                    lemma_views_push(prev, aliases@.last());
                }
            }
            i = i + 1;
        }
        assert(ts.take(triggers.len() as int) =~= ts);
        let mut m = memes[k].duplicate();
        m.aliases = aliases;
        assert(m@ == enriched(start[k as int]@, bv));
        memes.set(k, m);
        k = k + 1;
    }
}

/// Every unique tag of the library, ordered by lower-cased text.
pub fn collect_tags(memes: &Vec<Meme>) -> (r: Vec<String>)
    ensures
        is_catalog(views(r@), library_items(meme_views(memes@))),
        (forall|j: int|
            0 <= j < all_tags(library_items(meme_views(memes@))).len() ==> is_ascii_text(
                #[trigger] all_tags(library_items(meme_views(memes@)))[j],
            )) ==> forall|i: int, k: int|
            0 <= i < k < r@.len() ==> !eq_ascii_ci(#[trigger] views(r@)[i], #[trigger] views(r@)[k]),
{
    collect_item_tags(&searchables(memes))
}

/// Prefix / fuzzy tag suggestions over the library.
pub fn suggest_tags_for(memes: &Vec<Meme>, prefix: &str, limit: usize) -> (r: Vec<String>)
    ensures
        is_suggestion(views(r@), library_items(meme_views(memes@)), prefix@, limit),
{
    suggest_item_tags(&searchables(memes), prefix, limit)
}

} // verus!
