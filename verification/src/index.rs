//! In-memory inverted index for candidate retrieval before scoring.
use vstd::prelude::*;

use crate::engine::{has_tag_containing, is_hit, passes_gates, token_matches};
use crate::matcher::{
    best_similarity, close_enough, grade_kind, lemma_best_similarity_witness, pair_similarity,
    similarity, some_word_contains, strict_match, MatchKind,
    FUZZY_THRESHOLD_BITS, JARO_THRESHOLD_BITS,
};
use crate::normalize::{fold_case, words, words_of};
use crate::sets::{
    dropped, insert_unique, intersect, lemma_dropped_absent, lemma_dropped_commute, lemma_dropped_facts,
    lemma_dropped_order,
    union_into, vec_has, without,
};
use crate::text::{
    chars_of, contains_chars, contains_seq, copy_string, copy_strings, lowercase, matches_at,
    starts_with_chars, starts_with_seq, views,
};
use crate::types::{has_text, item_views, ItemView, ParsedQuery, QueryView, Searchable};

verus! {

/// One term and the documents that hold it.
#[derive(Debug, Clone)]
pub struct Posting {
    pub term: String,
    pub ids: Vec<String>,
}

/// `id` is listed under `term`.
pub open spec fn posted(p: Seq<Posting>, term: Seq<char>, id: Seq<char>) -> bool {
    exists|i: int| 0 <= i < p.len() && p[i].term@ == term && views(p[i].ids@).contains(id)
}

/// Token → document-id postings built from name / aliases / tags.
#[derive(Debug, Clone)]
pub struct InvertedIndex {
    postings: Vec<Posting>,
    tag_postings: Vec<Posting>,
    ext_postings: Vec<Posting>,
    favorite_ids: Vec<String>,
    doc_ids: Vec<String>,
}

// ---------------------------------------------------------------------------
// What the index holds, in terms of the items it was built from.
// ---------------------------------------------------------------------------

/// `t` is an index term of a field: its folded form or one of its words.
pub open spec fn field_term(f: Seq<char>, t: Seq<char>) -> bool {
    t.len() > 0 && (t == lowercase(f) || words(f).contains(t))
}

/// `t` is an index term of some field in `fs`.
pub open spec fn fields_term(fs: Seq<Seq<char>>, t: Seq<char>) -> bool {
    exists|i: int| 0 <= i < fs.len() && field_term(fs[i], t)
}

/// The terms that an item contributes: from its name, tags, and aliases.
pub open spec fn item_term(it: ItemView, t: Seq<char>) -> bool {
    field_term(it.name, t) || fields_term(it.tags, t) || fields_term(it.aliases, t)
}

/// The tag keys that an item contributes (folded tags).
pub open spec fn item_tag_key(it: ItemView, k: Seq<char>) -> bool {
    exists|i: int| 0 <= i < it.tags.len() && lowercase(it.tags[i]) == k
}

/// The extension key that an item contributes (folded, when not empty).
pub open spec fn item_ext_key(it: ItemView, k: Seq<char>) -> bool {
    k.len() > 0 && lowercase(it.extension) == k
}

/// Position `j` holds the last item with its id.
pub open spec fn last_of_id(items: Seq<ItemView>, j: int) -> bool {
    0 <= j < items.len() && forall|k: int| j < k < items.len() ==> items[k].id != items[j].id
}

/// The item that the index keeps for `id`: the last one given with that id.
pub open spec fn live(items: Seq<ItemView>, id: Seq<char>, j: int) -> bool {
    last_of_id(items, j) && items[j].id == id
}

/// The index holds exactly what `items` contribute, each id by its last item.
pub closed spec fn indexes(idx: InvertedIndex, items: Seq<ItemView>) -> bool {
    &&& views(idx.doc_ids@).no_duplicates()
    &&& views(idx.favorite_ids@).no_duplicates()
    &&& forall|id: Seq<char>|
        #![trigger views(idx.doc_ids@).contains(id)]
        views(idx.doc_ids@).contains(id) <==> exists|j: int| live(items, id, j)
    &&& forall|id: Seq<char>|
        #![trigger views(idx.favorite_ids@).contains(id)]
        views(idx.favorite_ids@).contains(id) <==> exists|j: int|
            live(items, id, j) && items[j].favorite
    &&& forall|t: Seq<char>, id: Seq<char>|
        #![trigger posted(idx.postings@, t, id)]
        posted(idx.postings@, t, id) <==> exists|j: int| live(items, id, j) && item_term(items[j], t)
    &&& forall|k: Seq<char>, id: Seq<char>|
        #![trigger posted(idx.tag_postings@, k, id)]
        posted(idx.tag_postings@, k, id) <==> exists|j: int|
            live(items, id, j) && item_tag_key(items[j], k)
    &&& forall|k: Seq<char>, id: Seq<char>|
        #![trigger posted(idx.ext_postings@, k, id)]
        posted(idx.ext_postings@, k, id) <==> exists|j: int|
            live(items, id, j) && item_ext_key(items[j], k)
}

// ---------------------------------------------------------------------------
// Posting lists
// ---------------------------------------------------------------------------

/// Add `id` under `term` (once, when `dedup`).
fn add_posting(list: &mut Vec<Posting>, term: &String, id: &String, dedup: bool)
    ensures
        forall|t: Seq<char>, d: Seq<char>|
            #![trigger posted(final(list)@, t, d)]
            posted(final(list)@, t, d) <==> (posted(old(list)@, t, d) || (t == term@ && d == id@)),
{
    let mut i: usize = 0;
    while i < list.len()
        invariant
            i <= list.len(),
            list@ == old(list)@,
            forall|j: int| 0 <= j < i ==> (#[trigger] list@[j]).term@ != term@,
        decreases list.len() - i,
    {
        if list[i].term == *term {
            let ghost before = list@;
            let ghost old_ids = views(list@[i as int].ids@);
            if !dedup || !vec_has(&list[i].ids, id) {
                list[i].ids.push(copy_string(id));
                assert(views(list@[i as int].ids@) =~= old_ids.push(id@));
            }
            assert(views(list@[i as int].ids@).contains(id@)) by {
                if views(list@[i as int].ids@) =~= old_ids.push(id@) {
                    assert(views(list@[i as int].ids@)[old_ids.len() as int] == id@);
                }
            }
            assert forall|t: Seq<char>, d: Seq<char>|
                posted(list@, t, d) <==> (posted(before, t, d) || (t == term@ && d == id@)) by {
                if posted(before, t, d) {
                    let k = choose|k: int|
                        0 <= k < before.len() && before[k].term@ == t && views(
                            before[k].ids@,
                        ).contains(d);
                    if k == i {
                        let m = choose|m: int| 0 <= m < old_ids.len() && old_ids[m] == d;
                        assert(views(list@[k].ids@)[m] == d);
                    } else {
                        assert(list@[k] == before[k]);
                    }
                }
                if posted(list@, t, d) {
                    let k = choose|k: int|
                        0 <= k < list@.len() && list@[k].term@ == t && views(
                            list@[k].ids@,
                        ).contains(d);
                    if k != i {
                        assert(list@[k] == before[k]);
                    } else if d != id@ {
                        let m = choose|m: int|
                            0 <= m < views(list@[k].ids@).len() && views(list@[k].ids@)[m] == d;
                        assert(old_ids[m] == d);
                    }
                }
            }
            return;
        }
        i = i + 1;
    }
    let ghost before = list@;
    let mut ids: Vec<String> = Vec::new();
    ids.push(copy_string(id));
    list.push(Posting { term: copy_string(term), ids });
    assert(views(list@[before.len() as int].ids@)[0] == id@);
    assert forall|t: Seq<char>, d: Seq<char>|
        posted(list@, t, d) <==> (posted(before, t, d) || (t == term@ && d == id@)) by {
        if posted(before, t, d) {
            let k = choose|k: int|
                0 <= k < before.len() && before[k].term@ == t && views(before[k].ids@).contains(d);
            assert(list@[k] == before[k]);
        }
        if posted(list@, t, d) {
            let k = choose|k: int|
                0 <= k < list@.len() && list@[k].term@ == t && views(list@[k].ids@).contains(d);
            if k < before.len() {
                assert(list@[k] == before[k]);
            } else {
                let m = choose|m: int|
                    0 <= m < views(list@[k].ids@).len() && views(list@[k].ids@)[m] == d;
                assert(views(list@[k].ids@).len() == 1);
            }
        }
    }
}

/// Drop `id` from every posting list (and lists left empty).
fn remove_posted(list: &Vec<Posting>, id: &String) -> (r: Vec<Posting>)
    ensures
        forall|t: Seq<char>, d: Seq<char>|
            #![trigger posted(r@, t, d)]
            posted(r@, t, d) <==> (posted(list@, t, d) && d != id@),
{
    let mut out: Vec<Posting> = Vec::new();
    let mut i: usize = 0;
    while i < list.len()
        invariant
            i <= list.len(),
            forall|t: Seq<char>, d: Seq<char>|
                #![trigger posted(out@, t, d)]
                posted(out@, t, d) <==> (posted(list@.take(i as int), t, d) && d != id@),
        decreases list.len() - i,
    {
        let ghost before = out@;
        let ghost lt = list@.take(i as int);
        let ghost nxt = list@.take(i + 1);
        assert(nxt =~= lt.push(list@[i as int]));
        let kept = without(&list[i].ids, id);
        if kept.len() > 0 {
            out.push(Posting { term: copy_string(&list[i].term), ids: kept });
        }
        assert forall|t: Seq<char>, d: Seq<char>|
            posted(out@, t, d) <==> (posted(nxt, t, d) && d != id@) by {
            if posted(out@, t, d) {
                let k = choose|k: int|
                    0 <= k < out@.len() && out@[k].term@ == t && views(out@[k].ids@).contains(d);
                if k < before.len() {
                    assert(out@[k] == before[k]);
                    assert(posted(before, t, d));
                    let m = choose|m: int|
                        0 <= m < lt.len() && lt[m].term@ == t && views(lt[m].ids@).contains(d);
                    assert(nxt[m] == lt[m]);
                } else {
                    assert(nxt[i as int].term@ == t);
                }
            }
            if posted(nxt, t, d) && d != id@ {
                let k = choose|k: int|
                    0 <= k < nxt.len() && nxt[k].term@ == t && views(nxt[k].ids@).contains(d);
                if k < i {
                    assert(lt[k] == nxt[k]);
                    assert(posted(lt, t, d));
                    assert(posted(before, t, d));
                    let m = choose|m: int|
                        0 <= m < before.len() && before[m].term@ == t && views(
                            before[m].ids@,
                        ).contains(d);
                    assert(out@[m] == before[m]);
                } else {
                    assert(views(kept@).contains(d));
                    assert(out@[before.len() as int].term@ == t);
                }
            }
        }
        i = i + 1;
    }
    assert(list@.take(list.len() as int) =~= list@);
    out
}

// ---------------------------------------------------------------------------
// Building
// ---------------------------------------------------------------------------

/// What an index needs to know about how its terms were added so far.
spec fn terms_added(
    after: Seq<Posting>,
    before: Seq<Posting>,
    id: Seq<char>,
    added: spec_fn(Seq<char>) -> bool,
) -> bool {
    forall|t: Seq<char>, d: Seq<char>|
        #![trigger posted(after, t, d)]
        posted(after, t, d) <==> (posted(before, t, d) || (d == id && added(t)))
}

/// Document ids in order of each id's last occurrence among the items.
pub open spec fn doc_order(items: Seq<ItemView>) -> Seq<Seq<char>>
    decreases items.len(),
{
    if items.len() == 0 {
        Seq::empty()
    } else {
        dropped(doc_order(items.drop_last()), items.last().id).push(items.last().id)
    }
}

impl InvertedIndex {
    /// An index with nothing in it.
    pub fn new() -> (r: InvertedIndex)
        ensures
            indexes(r, Seq::empty()),
            r.spec_doc_ids() == Seq::<Seq<char>>::empty(),
    {
        let r = InvertedIndex {
            postings: Vec::new(),
            tag_postings: Vec::new(),
            ext_postings: Vec::new(),
            favorite_ids: Vec::new(),
            doc_ids: Vec::new(),
        };
        assert(views(r.doc_ids@) =~= Seq::<Seq<char>>::empty());
        assert(views(r.favorite_ids@) =~= Seq::<Seq<char>>::empty());
        r
    }

    /// Index every item; an id given twice keeps its last item. The
    /// document ids come in the order of each id's last occurrence.
    pub fn build(items: &Vec<Searchable>) -> (r: InvertedIndex)
        ensures
            indexes(r, item_views(items@)),
            r.spec_doc_ids() == doc_order(item_views(items@)),
    {
        let mut index = InvertedIndex::new();
        let mut i: usize = 0;
        assert(index.spec_doc_ids() =~= doc_order(item_views(items@).take(0)));
        while i < items.len()
            invariant
                i <= items.len(),
                indexes(index, item_views(items@).take(i as int)),
                index.spec_doc_ids() == doc_order(item_views(items@).take(i as int)),
            decreases items.len() - i,
        {
            let ghost prev = item_views(items@).take(i as int);
            let ghost nxt = item_views(items@).take(i + 1);
            assert(nxt =~= prev.push(items@[i as int]@));
            assert(nxt.drop_last() =~= prev);
            index.insert(&items[i], Ghost(prev));
            i = i + 1;
        }
        assert(item_views(items@).take(items.len() as int) =~= item_views(items@));
        index
    }

    /// Number of indexed documents.
    pub fn len(&self) -> (r: usize)
        ensures
            r == self.spec_doc_ids().len(),
    {
        self.doc_ids.len()
    }

    /// No document is indexed.
    pub fn is_empty(&self) -> (r: bool)
        ensures
            r == (self.spec_doc_ids().len() == 0),
    {
        self.doc_ids.len() == 0
    }

    /// The indexed document ids, each once.
    pub fn doc_ids(&self) -> (r: &Vec<String>)
        ensures
            views(r@) == self.spec_doc_ids(),
    {
        &self.doc_ids
    }

    pub closed spec fn spec_doc_ids(&self) -> Seq<Seq<char>> {
        views(self.doc_ids@)
    }

    /// Add `term` (when not empty) under `id`.
    fn add_term(&mut self, id: &String, term: &String)
        ensures
            terms_added(final(self).postings@, old(self).postings@, id@, |t: Seq<char>| t == term@ && term@.len() > 0),
            final(self).tag_postings == old(self).tag_postings,
            final(self).ext_postings == old(self).ext_postings,
            final(self).favorite_ids == old(self).favorite_ids,
            final(self).doc_ids == old(self).doc_ids,
    {
        if crate::text::string_is_empty(term) {
            assert(term@.len() == 0);
            return;
        }
        assert(term@.len() > 0);
        add_posting(&mut self.postings, term, id, true);
    }

    /// Add the folded field and its words as terms of `id`.
    fn add_field(&mut self, id: &String, field: &String)
        ensures
            terms_added(final(self).postings@, old(self).postings@, id@, |t: Seq<char>| field_term(field@, t)),
            final(self).tag_postings == old(self).tag_postings,
            final(self).ext_postings == old(self).ext_postings,
            final(self).favorite_ids == old(self).favorite_ids,
            final(self).doc_ids == old(self).doc_ids,
    {
        let ghost start = self.postings@;
        let folded = fold_case(field.as_str());
        self.add_term(id, &folded);
        let ws = words_of(field.as_str());
        let mut i: usize = 0;
        while i < ws.len()
            invariant
                i <= ws.len(),
                views(ws@) == words(field@),
                folded@ == lowercase(field@),
                self.tag_postings == old(self).tag_postings,
                self.ext_postings == old(self).ext_postings,
                self.favorite_ids == old(self).favorite_ids,
                self.doc_ids == old(self).doc_ids,
                terms_added(self.postings@, start, id@, |t: Seq<char>| t.len() > 0 && (t == lowercase(field@) || views(ws@).take(i as int).contains(t))),
            decreases ws.len() - i,
        {
            let ghost mid = self.postings@;
            self.add_term(id, &ws[i]);
            let ghost nxt = views(ws@).take(i + 1);
            let ghost cur = views(ws@).take(i as int);
            assert(nxt =~= cur.push(ws@[i as int]@));
            assert forall|t: Seq<char>, d: Seq<char>|
                posted(self.postings@, t, d) <==> (posted(start, t, d) || (d == id@ && (t.len() > 0 && (t == lowercase(field@) || nxt.contains(t))))) by {
                if cur.contains(t) {
                    let k = choose|k: int| 0 <= k < cur.len() && cur[k] == t;
                    assert(nxt[k] == t);
                }
                if nxt.contains(t) {
                    let k = choose|k: int| 0 <= k < nxt.len() && nxt[k] == t;
                    if k < i {
                        assert(cur[k] == t);
                    }
                }
                if t == ws@[i as int]@ {
                    assert(nxt[i as int] == t);
                }
            }
            i = i + 1;
        }
        assert(views(ws@).take(ws.len() as int) =~= views(ws@));
    }

    /// Add every field of `fields` as terms of `id` (and, for tags, as tag keys).
    fn add_fields(&mut self, id: &String, fields: &Vec<String>, as_tags: bool)
        ensures
            terms_added(final(self).postings@, old(self).postings@, id@, |t: Seq<char>| fields_term(views(fields@), t)),
            as_tags ==> terms_added(final(self).tag_postings@, old(self).tag_postings@, id@, |k: Seq<char>| exists|i: int| 0 <= i < fields@.len() && lowercase(fields@[i]@) == k),
            !as_tags ==> final(self).tag_postings@ == old(self).tag_postings@,
            final(self).ext_postings == old(self).ext_postings,
            final(self).favorite_ids == old(self).favorite_ids,
            final(self).doc_ids == old(self).doc_ids,
    {
        let ghost start = self.postings@;
        let ghost start_tags = self.tag_postings@;
        let mut i: usize = 0;
        while i < fields.len()
            invariant
                i <= fields.len(),
                terms_added(self.postings@, start, id@, |t: Seq<char>| fields_term(views(fields@).take(i as int), t)),
                as_tags ==> terms_added(self.tag_postings@, start_tags, id@, |k: Seq<char>| exists|j: int| 0 <= j < i && lowercase(fields@[j]@) == k),
                !as_tags ==> self.tag_postings@ == start_tags,
                self.ext_postings == old(self).ext_postings,
                self.favorite_ids == old(self).favorite_ids,
                self.doc_ids == old(self).doc_ids,
            decreases fields.len() - i,
        {
            let ghost cur = views(fields@).take(i as int);
            let ghost nxt = views(fields@).take(i + 1);
            assert(nxt =~= cur.push(fields@[i as int]@));
            let ghost tags_mid = self.tag_postings@;
            if as_tags {
                let folded = fold_case(fields[i].as_str());
                add_posting(&mut self.tag_postings, &folded, id, false);
                assert forall|k: Seq<char>, d: Seq<char>|
                    posted(self.tag_postings@, k, d) <==> (posted(start_tags, k, d) || (d == id@ && exists|j: int| 0 <= j < i + 1 && lowercase(fields@[j]@) == k)) by {
                    if d == id@ && k == lowercase(fields@[i as int]@) {
                    }
                }
            }
            let ghost mid = self.postings@;
            self.add_field(id, &fields[i]);
            assert forall|t: Seq<char>, d: Seq<char>|
                posted(self.postings@, t, d) <==> (posted(start, t, d) || (d == id@ && fields_term(nxt, t))) by {
                if fields_term(cur, t) {
                    let k = choose|k: int| 0 <= k < cur.len() && field_term(cur[k], t);
                    assert(nxt[k] == cur[k]);
                }
                if fields_term(nxt, t) {
                    let k = choose|k: int| 0 <= k < nxt.len() && field_term(nxt[k], t);
                    if k < i {
                        assert(cur[k] == nxt[k]);
                    }
                }
                if field_term(fields@[i as int]@, t) {
                    assert(nxt[i as int] == fields@[i as int]@);
                }
            }
            i = i + 1;
        }
        assert(views(fields@).take(fields.len() as int) =~= views(fields@));
    }

    /// `id` is listed under term `t`.
    pub closed spec fn has_term(&self, t: Seq<char>, id: Seq<char>) -> bool {
        posted(self.postings@, t, id)
    }

    /// `id` is listed under folded tag `k`.
    pub closed spec fn has_tag_key(&self, k: Seq<char>, id: Seq<char>) -> bool {
        posted(self.tag_postings@, k, id)
    }

    /// `id` is listed under folded extension `k`.
    pub closed spec fn has_ext_key(&self, k: Seq<char>, id: Seq<char>) -> bool {
        posted(self.ext_postings@, k, id)
    }

    /// `id` is marked favorite.
    pub closed spec fn is_favorite_id(&self, id: Seq<char>) -> bool {
        views(self.favorite_ids@).contains(id)
    }

    /// The id lists hold no repeats.
    pub closed spec fn wf(&self) -> bool {
        views(self.doc_ids@).no_duplicates() && views(self.favorite_ids@).no_duplicates()
    }

    /// Drop one document (for incremental updates). Rebuild is preferred after batch edits.
    pub fn remove(&mut self, id: &String)
        ensures
            forall|t: Seq<char>, d: Seq<char>|
                #[trigger] final(self).has_term(t, d) <==> (old(self).has_term(t, d) && d != id@),
            forall|t: Seq<char>, d: Seq<char>|
                #[trigger] final(self).has_tag_key(t, d) <==> (old(self).has_tag_key(t, d) && d != id@),
            forall|t: Seq<char>, d: Seq<char>|
                #[trigger] final(self).has_ext_key(t, d) <==> (old(self).has_ext_key(t, d) && d != id@),
            forall|d: Seq<char>|
                #[trigger] final(self).spec_doc_ids().contains(d) <==> (old(self).spec_doc_ids().contains(d) && d != id@),
            forall|d: Seq<char>|
                #[trigger] final(self).is_favorite_id(d) <==> (old(self).is_favorite_id(d) && d != id@),
            old(self).wf() ==> final(self).wf(),
            final(self).spec_doc_ids() == dropped(old(self).spec_doc_ids(), id@),
    {
        self.doc_ids = without(&self.doc_ids, id);
        self.favorite_ids = without(&self.favorite_ids, id);
        self.postings = remove_posted(&self.postings, id);
        self.tag_postings = remove_posted(&self.tag_postings, id);
        self.ext_postings = remove_posted(&self.ext_postings, id);
    }

    /// Index one item, replacing whatever was indexed under its id.
    fn insert(&mut self, item: &Searchable, Ghost(prev): Ghost<Seq<ItemView>>)
        requires
            indexes(*old(self), prev),
        ensures
            indexes(*final(self), prev.push(item@)),
            final(self).spec_doc_ids() == dropped(old(self).spec_doc_ids(), item@.id).push(item@.id),
    {
        let ghost items = prev.push(item@);
        let id = copy_string(&item.id);
        let ghost orig = *self;
        let had = vec_has(&self.doc_ids, &id);
        if had {
            self.remove(&id);
        }
        let ghost base = *self;
        assert forall|k: int| 0 <= k < prev.len() implies items[k] == prev[k] by {}
        assert forall|d: Seq<char>, j: int| d != id@ implies (live(prev, d, j) <==> live(items, d, j)) by {
            if live(items, d, j) {
                assert(j != prev.len());
                assert forall|k: int| j < k < prev.len() implies prev[k].id != prev[j].id by {
                    assert(items[k] == prev[k]);
                }
            }
            if live(prev, d, j) {
                assert forall|k: int| j < k < items.len() implies items[k].id != items[j].id by {
                    if k < prev.len() {
                        assert(items[k] == prev[k]);
                    }
                }
            }
        }
        proof {
            if !had {
                assert(!views(orig.doc_ids@).contains(id@));
                assert(forall|j: int| !live(prev, id@, j));
            }
        }
        // After clearing: nothing is indexed under `id`, the rest is unchanged.
        assert forall|t: Seq<char>, d: Seq<char>|
            posted(base.postings@, t, d) <==> (d != id@ && exists|j: int| live(items, d, j) && item_term(items[j], t)) by {
            assert(base.has_term(t, d) == posted(base.postings@, t, d));
            assert(orig.has_term(t, d) == posted(orig.postings@, t, d));
            if posted(orig.postings@, t, d) {
                let j = choose|j: int| live(prev, d, j) && item_term(prev[j], t);
                if d != id@ {
                    assert(live(items, d, j) && item_term(items[j], t));
                }
            }
            if d != id@ && exists|j: int| live(items, d, j) && item_term(items[j], t) {
                let j = choose|j: int| live(items, d, j) && item_term(items[j], t);
                assert(live(prev, d, j) && item_term(prev[j], t));
            }
        }
        assert forall|t: Seq<char>, d: Seq<char>|
            posted(base.tag_postings@, t, d) <==> (d != id@ && exists|j: int| live(items, d, j) && item_tag_key(items[j], t)) by {
            assert(base.has_tag_key(t, d) == posted(base.tag_postings@, t, d));
            assert(orig.has_tag_key(t, d) == posted(orig.tag_postings@, t, d));
            if posted(orig.tag_postings@, t, d) {
                let j = choose|j: int| live(prev, d, j) && item_tag_key(prev[j], t);
                if d != id@ {
                    assert(live(items, d, j) && item_tag_key(items[j], t));
                }
            }
            if d != id@ && exists|j: int| live(items, d, j) && item_tag_key(items[j], t) {
                let j = choose|j: int| live(items, d, j) && item_tag_key(items[j], t);
                assert(live(prev, d, j) && item_tag_key(prev[j], t));
            }
        }
        assert forall|t: Seq<char>, d: Seq<char>|
            posted(base.ext_postings@, t, d) <==> (d != id@ && exists|j: int| live(items, d, j) && item_ext_key(items[j], t)) by {
            assert(base.has_ext_key(t, d) == posted(base.ext_postings@, t, d));
            assert(orig.has_ext_key(t, d) == posted(orig.ext_postings@, t, d));
            if posted(orig.ext_postings@, t, d) {
                let j = choose|j: int| live(prev, d, j) && item_ext_key(prev[j], t);
                if d != id@ {
                    assert(live(items, d, j) && item_ext_key(items[j], t));
                }
            }
            if d != id@ && exists|j: int| live(items, d, j) && item_ext_key(items[j], t) {
                let j = choose|j: int| live(items, d, j) && item_ext_key(items[j], t);
                assert(live(prev, d, j) && item_ext_key(prev[j], t));
            }
        }
        assert forall|d: Seq<char>|
            views(base.doc_ids@).contains(d) <==> (d != id@ && exists|j: int| live(items, d, j)) by {
            assert(base.spec_doc_ids().contains(d) == views(base.doc_ids@).contains(d));
            assert(orig.spec_doc_ids().contains(d) == views(orig.doc_ids@).contains(d));
            if views(orig.doc_ids@).contains(d) {
                let j = choose|j: int| live(prev, d, j);
                if d != id@ {
                    assert(live(items, d, j));
                }
            }
            if d != id@ && exists|j: int| live(items, d, j) {
                let j = choose|j: int| live(items, d, j);
                assert(live(prev, d, j));
            }
        }
        assert forall|d: Seq<char>|
            views(base.favorite_ids@).contains(d) <==> (d != id@ && exists|j: int| live(items, d, j) && items[j].favorite) by {
            assert(base.is_favorite_id(d) == views(base.favorite_ids@).contains(d));
            assert(orig.is_favorite_id(d) == views(orig.favorite_ids@).contains(d));
            if views(orig.favorite_ids@).contains(d) {
                let j = choose|j: int| live(prev, d, j) && prev[j].favorite;
                if d != id@ {
                    assert(live(items, d, j) && items[j].favorite);
                }
            }
            if d != id@ && exists|j: int| live(items, d, j) && items[j].favorite {
                let j = choose|j: int| live(items, d, j) && items[j].favorite;
                assert(live(prev, d, j) && prev[j].favorite);
            }
        }
        assert(base.wf());
        assert(live(items, id@, prev.len() as int));

        let ghost before_doc = views(self.doc_ids@);
        proof {
            if !had {
                lemma_dropped_absent(views(orig.doc_ids@), id@);
            }
            assert(before_doc == dropped(views(orig.doc_ids@), id@));
        }
        self.doc_ids.push(copy_string(&id));
        assert(views(self.doc_ids@) =~= before_doc.push(id@));
        assert(!before_doc.contains(id@));
        assert forall|a: int, b: int|
            0 <= a < views(self.doc_ids@).len() && 0 <= b < views(self.doc_ids@).len() && a != b
                implies views(self.doc_ids@)[a] != views(self.doc_ids@)[b] by {
            if a == before_doc.len() {
                assert(views(self.doc_ids@)[b] == before_doc[b]);
            } else if b == before_doc.len() {
                assert(views(self.doc_ids@)[a] == before_doc[a]);
            }
        }
        assert forall|d: Seq<char>| views(self.doc_ids@).contains(d) <==> exists|j: int| live(items, d, j) by {
            if d == id@ {
                assert(views(self.doc_ids@)[before_doc.len() as int] == d);
                assert(live(items, d, prev.len() as int));
            } else {
                if views(self.doc_ids@).contains(d) {
                    let k = choose|k: int| 0 <= k < views(self.doc_ids@).len() && views(self.doc_ids@)[k] == d;
                    if k == before_doc.len() {
                        assert(views(self.doc_ids@)[k] == id@);
                    }
                    assert(before_doc[k] == d);
                }
                assert(before_doc == views(base.doc_ids@));
                assert(views(base.doc_ids@).contains(d) <==> (d != id@ && exists|j: int| live(items, d, j)));
                if views(self.doc_ids@).contains(d) {
                    assert(before_doc.contains(d));
                }
                if exists|j: int| live(items, d, j) {
                    assert(before_doc.contains(d));
                    let k = choose|k: int| 0 <= k < before_doc.len() && before_doc[k] == d;
                    assert(views(self.doc_ids@)[k] == d);
                }
            }
        }
        if item.favorite {
            insert_unique(&mut self.favorite_ids, &id);
        }
        assert forall|d: Seq<char>| views(self.favorite_ids@).contains(d) <==> exists|j: int| live(items, d, j) && items[j].favorite by {
            if d == id@ && exists|j: int| live(items, d, j) && items[j].favorite {
                let j = choose|j: int| live(items, d, j) && items[j].favorite;
                assert(j == prev.len());
            }
        }

        let ext = fold_case(item.extension.as_str());
        if !crate::text::string_is_empty(&ext) {
            add_posting(&mut self.ext_postings, &ext, &id, false);
        }
        assert forall|k: Seq<char>, d: Seq<char>|
            posted(self.ext_postings@, k, d) <==> exists|j: int| live(items, d, j) && item_ext_key(items[j], k) by {
            if d == id@ && exists|j: int| live(items, d, j) && item_ext_key(items[j], k) {
                let j = choose|j: int| live(items, d, j) && item_ext_key(items[j], k);
                assert(j == prev.len());
            }
        }

        let ghost p0 = self.postings@;
        let ghost t0 = self.tag_postings@;
        self.add_fields(&id, &item.tags, true);
        assert forall|k: Seq<char>, d: Seq<char>|
            posted(self.tag_postings@, k, d) <==> exists|j: int| live(items, d, j) && item_tag_key(items[j], k) by {
            if d == id@ && exists|j: int| live(items, d, j) && item_tag_key(items[j], k) {
                let j = choose|j: int| live(items, d, j) && item_tag_key(items[j], k);
                assert(j == prev.len());
                let m = choose|m: int| 0 <= m < items[j].tags.len() && lowercase(items[j].tags[m]) == k;
                assert(items[j].tags[m] == item.tags@[m]@);
            }
            if d == id@ && (exists|m: int| 0 <= m < item.tags@.len() && lowercase(item.tags@[m]@) == k) {
                let m = choose|m: int| 0 <= m < item.tags@.len() && lowercase(item.tags@[m]@) == k;
                assert(items[prev.len() as int].tags[m] == item.tags@[m]@);
                assert(item_tag_key(items[prev.len() as int], k));
            }
        }
        self.add_field(&id, &item.name);
        self.add_fields(&id, &item.aliases, false);
        assert forall|t: Seq<char>, d: Seq<char>|
            posted(self.postings@, t, d) <==> exists|j: int| live(items, d, j) && item_term(items[j], t) by {
            if d == id@ && exists|j: int| live(items, d, j) && item_term(items[j], t) {
                let j = choose|j: int| live(items, d, j) && item_term(items[j], t);
                assert(j == prev.len());
            }
            if d == id@ && item_term(item@, t) {
                assert(items[prev.len() as int] == item@);
            }
        }
    }
}


// ---------------------------------------------------------------------------
// Candidate retrieval
// ---------------------------------------------------------------------------

/// A term answers a token when one is a prefix of the other or the term
/// contains the token.
pub open spec fn related(term: Seq<char>, tok: Seq<char>) -> bool {
    term == tok || starts_with_seq(term, tok) || starts_with_seq(tok, term) || contains_seq(term, tok)
}

/// `id` holds a term that answers the token.
pub open spec fn direct_hit(idx: InvertedIndex, tok: Seq<char>, id: Seq<char>) -> bool {
    exists|t: Seq<char>| idx.has_term(t, id) && related(t, tok)
}

/// `id` holds a term similar enough to the token.
pub open spec fn fuzzy_hit(idx: InvertedIndex, tok: Seq<char>, id: Seq<char>) -> bool {
    exists|t: Seq<char>| idx.has_term(t, id) && close_enough(pair_similarity(t, tok))
}

/// Documents retrieved for one token: those with a term that answers it
/// directly or is similar enough to it.
pub open spec fn token_hit(idx: InvertedIndex, tok: Seq<char>, id: Seq<char>) -> bool {
    direct_hit(idx, tok, id) || fuzzy_hit(idx, tok, id)
}

/// Some alternative of the group retrieves `id`.
pub open spec fn group_hit(idx: InvertedIndex, g: Seq<Seq<char>>, id: Seq<char>) -> bool {
    exists|a: int| 0 <= a < g.len() && token_hit(idx, g[a], id)
}

/// Some folded tag of `id` contains `needle`.
pub open spec fn tag_hit(idx: InvertedIndex, id: Seq<char>, needle: Seq<char>) -> bool {
    exists|k: Seq<char>| idx.has_tag_key(k, id) && contains_seq(k, needle)
}

/// `id` survives the index's view of the query: every non-empty group
/// retrieves it, and the favorite / extension / tag filters hold.
pub open spec fn candidate(idx: InvertedIndex, q: QueryView, id: Seq<char>) -> bool {
    &&& forall|i: int|
        0 <= i < q.must_groups.len() && #[trigger] q.must_groups[i].len() > 0 ==> group_hit(
            idx,
            q.must_groups[i],
            id,
        )
    &&& q.favorites_only ==> idx.is_favorite_id(id)
    &&& q.extensions.len() > 0 ==> exists|e: int|
        0 <= e < q.extensions.len() && idx.has_ext_key(q.extensions[e], id)
    &&& forall|n: int| 0 <= n < q.tag_filters.len() ==> tag_hit(idx, id, #[trigger] q.tag_filters[n])
    &&& forall|n: int|
        0 <= n < q.excluded_tags.len() ==> !tag_hit(idx, id, #[trigger] q.excluded_tags[n])
}

fn related_exec(term: &Vec<char>, tok: &Vec<char>) -> (r: bool)
    ensures
        r == related(term@, tok@),
{
    crate::text::eq_chars(term, tok) || starts_with_chars(term, tok) || starts_with_chars(tok, term)
        || contains_chars(term, tok)
}


/// The strings of `set` whose flag in `keep` is set.
fn keep_where(set: &Vec<String>, keep: &Vec<bool>) -> (r: Vec<String>)
    requires
        keep@.len() == set@.len(),
        views(set@).no_duplicates(),
    ensures
        views(r@).no_duplicates(),
        forall|x: Seq<char>|
            #![trigger views(r@).contains(x)]
            views(r@).contains(x) <==> exists|i: int| 0 <= i < set@.len() && set@[i]@ == x && keep@[i],
{
    let mut out: Vec<String> = Vec::new();
    assert(views(out@) =~= Seq::<Seq<char>>::empty());
    let mut i: usize = 0;
    while i < set.len()
        invariant
            i <= set.len(),
            keep@.len() == set@.len(),
            views(set@).no_duplicates(),
            views(out@).no_duplicates(),
            forall|x: Seq<char>| views(out@).contains(x) <==> exists|k: int| 0 <= k < i && set@[k]@ == x && keep@[k],
        decreases set.len() - i,
    {
        let ghost before = views(out@);
        if keep[i] {
            assert(!before.contains(set@[i as int]@)) by {
                if before.contains(set@[i as int]@) {
                    let k = choose|k: int| 0 <= k < i && set@[k]@ == set@[i as int]@ && keep@[k];
                    assert(views(set@)[k] == views(set@)[i as int]);
                }
            }
            out.push(copy_string(&set[i]));
            assert(views(out@) =~= before.push(set@[i as int]@));
            assert forall|a: int, b: int|
                0 <= a < views(out@).len() && 0 <= b < views(out@).len() && a != b
                    implies views(out@)[a] != views(out@)[b] by {
                if a == before.len() as int || b == before.len() as int {
                    let o = if a == before.len() as int { b } else { a };
                    assert(before.contains(views(out@)[o]));
                }
            }
            assert forall|x: Seq<char>| views(out@).contains(x) <==> exists|k: int| 0 <= k < i + 1 && set@[k]@ == x && keep@[k] by {
                if views(out@).contains(x) {
                    let m = choose|m: int| 0 <= m < views(out@).len() && views(out@)[m] == x;
                    if m < before.len() {
                        assert(before.contains(x));
                    }
                }
                if exists|k: int| 0 <= k < i + 1 && set@[k]@ == x && keep@[k] {
                    let k = choose|k: int| 0 <= k < i + 1 && set@[k]@ == x && keep@[k];
                    if k < i {
                        assert(before.contains(x));
                        let m = choose|m: int| 0 <= m < before.len() && before[m] == x;
                        assert(views(out@)[m] == x);
                    } else {
                        assert(views(out@)[before.len() as int] == x);
                    }
                }
            }
        }
        i = i + 1;
    }
    out
}

/// Membership after `keep_where`, when each flag says whether its string
/// satisfies a predicate.
proof fn lemma_keep_where(set: Seq<String>, keep: Seq<bool>, r: Seq<Seq<char>>, p: spec_fn(Seq<char>) -> bool)
    requires
        keep.len() == set.len(),
        forall|k: int| 0 <= k < set.len() ==> keep[k] == p(set[k]@),
        forall|x: Seq<char>| r.contains(x) <==> exists|i: int| 0 <= i < set.len() && set[i]@ == x && keep[i],
    ensures
        forall|x: Seq<char>|
            #![trigger r.contains(x)]
            #![trigger views(set).contains(x)]
            r.contains(x) <==> (views(set).contains(x) && p(x)),
{
    assert forall|x: Seq<char>| r.contains(x) <==> (views(set).contains(x) && p(x)) by {
        if views(set).contains(x) && p(x) {
            let i = choose|i: int| 0 <= i < views(set).len() && views(set)[i] == x;
            assert(set[i]@ == x);
            assert(keep[i] == p(set[i]@));
            assert(0 <= i < set.len() && set[i]@ == x && keep[i]);
        }
        if r.contains(x) {
            let i = choose|i: int| 0 <= i < set.len() && set[i]@ == x && keep[i];
            assert(views(set)[i] == x);
            assert(keep[i] == p(set[i]@));
        }
    }
}

impl InvertedIndex {
    /// Documents retrieved for one token.
    fn docs_for_token(&self, token: &String) -> (r: Vec<String>)
        ensures
            views(r@).no_duplicates(),
            forall|id: Seq<char>| views(r@).contains(id) <==> token_hit(*self, token@, id),
    {
        let tok = chars_of(token.as_str());
        let mut out: Vec<String> = Vec::new();
        let mut i: usize = 0;
        assert(views(out@) =~= Seq::<Seq<char>>::empty());
        while i < self.postings.len()
            invariant
                i <= self.postings.len(),
                tok@ == token@,
                views(out@).no_duplicates(),
                forall|id: Seq<char>|
                    views(out@).contains(id) <==> exists|k: int|
                        0 <= k < i && related(self.postings@[k].term@, tok@) && views(
                            self.postings@[k].ids@,
                        ).contains(id),
            decreases self.postings.len() - i,
        {
            let term = chars_of(self.postings[i].term.as_str());
            let ghost before = views(out@);
            let rel = related_exec(&term, &tok);
            if rel {
                union_into(&mut out, &self.postings[i].ids);
            }
            assert forall|id: Seq<char>|
                views(out@).contains(id) <==> exists|k: int|
                    0 <= k < i + 1 && related(self.postings@[k].term@, tok@) && views(
                        self.postings@[k].ids@,
                    ).contains(id) by {
                if exists|k: int|
                    0 <= k < i + 1 && related(self.postings@[k].term@, tok@) && views(
                        self.postings@[k].ids@,
                    ).contains(id) {
                    let k = choose|k: int|
                        0 <= k < i + 1 && related(self.postings@[k].term@, tok@) && views(
                            self.postings@[k].ids@,
                        ).contains(id);
                    if k < i {
                        assert(before.contains(id));
                    } else {
                        assert(rel);
                        assert(views(self.postings@[i as int].ids@).contains(id));
                    }
                }
                if views(out@).contains(id) {
                    if before.contains(id) {
                        let k = choose|k: int|
                            0 <= k < i && related(self.postings@[k].term@, tok@) && views(
                                self.postings@[k].ids@,
                            ).contains(id);
                        assert(0 <= k < i + 1 && related(self.postings@[k].term@, tok@) && views(
                            self.postings@[k].ids@,
                        ).contains(id));
                    } else {
                        assert(rel);
                        assert(0 <= i < i + 1 && related(self.postings@[i as int].term@, tok@) && views(
                            self.postings@[i as int].ids@,
                        ).contains(id));
                    }
                }
            }
            i = i + 1;
        }
        assert forall|id: Seq<char>| views(out@).contains(id) <==> direct_hit(*self, token@, id) by {
            if views(out@).contains(id) {
                let k = choose|k: int|
                    0 <= k < i && related(self.postings@[k].term@, tok@) && views(
                        self.postings@[k].ids@,
                    ).contains(id);
                assert(self.has_term(self.postings@[k].term@, id));
            }
            if direct_hit(*self, token@, id) {
                let t = choose|t: Seq<char>| self.has_term(t, id) && related(t, token@);
                assert(posted(self.postings@, t, id));
            }
        }
        let mut j: usize = 0;
        while j < self.postings.len()
            invariant
                j <= self.postings.len(),
                views(out@).no_duplicates(),
                forall|id: Seq<char>|
                    views(out@).contains(id) <==> (direct_hit(*self, token@, id) || exists|k: int|
                        0 <= k < j && close_enough(pair_similarity(self.postings@[k].term@, token@))
                            && views(self.postings@[k].ids@).contains(id)),
            decreases self.postings.len() - j,
        {
            let sim = similarity(self.postings[j].term.as_str(), token.as_str());
            let ghost before = views(out@);
            let close = sim >= JARO_THRESHOLD_BITS || sim >= FUZZY_THRESHOLD_BITS;
            if close {
                union_into(&mut out, &self.postings[j].ids);
            }
            assert forall|id: Seq<char>|
                views(out@).contains(id) <==> (direct_hit(*self, token@, id) || exists|k: int|
                    0 <= k < j + 1 && close_enough(pair_similarity(self.postings@[k].term@, token@))
                        && views(self.postings@[k].ids@).contains(id)) by {
                if exists|k: int|
                    0 <= k < j + 1 && close_enough(pair_similarity(self.postings@[k].term@, token@))
                        && views(self.postings@[k].ids@).contains(id) {
                    let k = choose|k: int|
                        0 <= k < j + 1 && close_enough(pair_similarity(self.postings@[k].term@, token@))
                            && views(self.postings@[k].ids@).contains(id);
                    if k < j {
                        assert(before.contains(id));
                    }
                }
                if views(out@).contains(id) && !before.contains(id) {
                    assert(close);
                    assert(0 <= j < j + 1 && close_enough(pair_similarity(self.postings@[j as int].term@, token@))
                        && views(self.postings@[j as int].ids@).contains(id));
                }
            }
            j = j + 1;
        }
        assert forall|id: Seq<char>| views(out@).contains(id) <==> token_hit(*self, token@, id) by {
            if exists|k: int|
                0 <= k < j && close_enough(pair_similarity(self.postings@[k].term@, token@))
                    && views(self.postings@[k].ids@).contains(id) {
                let k = choose|k: int|
                    0 <= k < j && close_enough(pair_similarity(self.postings@[k].term@, token@))
                        && views(self.postings@[k].ids@).contains(id);
                assert(self.has_term(self.postings@[k].term@, id));
            }
            if fuzzy_hit(*self, token@, id) {
                let t = choose|t: Seq<char>|
                    self.has_term(t, id) && close_enough(pair_similarity(t, token@));
                assert(posted(self.postings@, t, id));
            }
        }
        out
    }

    /// Some folded tag of `id` contains `needle`.
    fn tag_matches(&self, id: &String, needle: &String) -> (r: bool)
        ensures
            r == tag_hit(*self, id@, needle@),
    {
        let nd = chars_of(needle.as_str());
        let mut i: usize = 0;
        while i < self.tag_postings.len()
            invariant
                i <= self.tag_postings.len(),
                nd@ == needle@,
                forall|k: int|
                    0 <= k < i ==> !(contains_seq(self.tag_postings@[k].term@, needle@) && views(
                        self.tag_postings@[k].ids@,
                    ).contains(id@)),
            decreases self.tag_postings.len() - i,
        {
            let key = chars_of(self.tag_postings[i].term.as_str());
            if contains_chars(&key, &nd) && vec_has(&self.tag_postings[i].ids, id) {
                assert(self.has_tag_key(self.tag_postings@[i as int].term@, id@));
                return true;
            }
            i = i + 1;
        }
        assert(!tag_hit(*self, id@, needle@)) by {
            if tag_hit(*self, id@, needle@) {
                let k = choose|k: Seq<char>| self.has_tag_key(k, id@) && contains_seq(k, needle@);
                assert(posted(self.tag_postings@, k, id@));
            }
        }
        false
    }

    /// Ids listed under the extension key `ext`.
    fn ext_docs(&self, ext: &String) -> (r: Vec<String>)
        ensures
            forall|id: Seq<char>| views(r@).contains(id) <==> self.has_ext_key(ext@, id),
    {
        let mut out: Vec<String> = Vec::new();
        assert(views(out@) =~= Seq::<Seq<char>>::empty());
        let mut i: usize = 0;
        while i < self.ext_postings.len()
            invariant
                i <= self.ext_postings.len(),
                forall|id: Seq<char>|
                    views(out@).contains(id) <==> exists|k: int|
                        0 <= k < i && self.ext_postings@[k].term@ == ext@ && views(
                            self.ext_postings@[k].ids@,
                        ).contains(id),
            decreases self.ext_postings.len() - i,
        {
            let ghost before = views(out@);
            let same = self.ext_postings[i].term == *ext;
            if same {
                union_into(&mut out, &self.ext_postings[i].ids);
            }
            assert forall|id: Seq<char>|
                views(out@).contains(id) <==> exists|k: int|
                    0 <= k < i + 1 && self.ext_postings@[k].term@ == ext@ && views(
                        self.ext_postings@[k].ids@,
                    ).contains(id) by {
                if exists|k: int|
                    0 <= k < i + 1 && self.ext_postings@[k].term@ == ext@ && views(
                        self.ext_postings@[k].ids@,
                    ).contains(id) {
                    let k = choose|k: int|
                        0 <= k < i + 1 && self.ext_postings@[k].term@ == ext@ && views(
                            self.ext_postings@[k].ids@,
                        ).contains(id);
                    if k < i {
                        assert(before.contains(id));
                    }
                }
                if views(out@).contains(id) {
                    if before.contains(id) {
                        let k = choose|k: int|
                            0 <= k < i && self.ext_postings@[k].term@ == ext@ && views(
                                self.ext_postings@[k].ids@,
                            ).contains(id);
                        assert(0 <= k < i + 1 && self.ext_postings@[k].term@ == ext@ && views(
                            self.ext_postings@[k].ids@,
                        ).contains(id));
                    } else {
                        assert(same);
                        assert(0 <= i < i + 1 && self.ext_postings@[i as int].term@ == ext@ && views(
                            self.ext_postings@[i as int].ids@,
                        ).contains(id));
                    }
                }
            }
            i = i + 1;
        }
        assert forall|id: Seq<char>| views(out@).contains(id) <==> self.has_ext_key(ext@, id) by {
            if views(out@).contains(id) {
                let k = choose|k: int|
                    0 <= k < i && self.ext_postings@[k].term@ == ext@ && views(
                        self.ext_postings@[k].ids@,
                    ).contains(id);
            }
            if self.has_ext_key(ext@, id) {
                let k = choose|k: int|
                    0 <= k < self.ext_postings@.len() && self.ext_postings@[k].term@ == ext@ && views(
                        self.ext_postings@[k].ids@,
                    ).contains(id);
            }
        }
        out
    }

    /// Candidate document ids for a parsed query.
    ///
    /// Returns `None` when the caller should score the full library (browse mode).
    /// Returns `Some(empty)` when the index proves no document can match.
    pub fn candidates(&self, parsed: &ParsedQuery) -> (r: Option<Vec<String>>)
        ensures
            r.is_some() == has_text(parsed@),
            r matches Some(v) ==> views(v@).no_duplicates(),
            r matches Some(v) ==> forall|id: Seq<char>|
                views(v@).contains(id) <==> candidate(*self, parsed@, id),
    {
        if !parsed.has_text_tokens() {
            return None;
        }
        let ghost q = parsed@;
        let mut acc: Option<Vec<String>> = None;
        let mut g: usize = 0;
        while g < parsed.must_groups.len()
            invariant
                q == parsed@,
                has_text(q),
                g <= parsed.must_groups.len(),
                acc.is_none() <==> forall|i: int| 0 <= i < g ==> q.must_groups[i].len() == 0,
                acc matches Some(v) ==> views(v@).no_duplicates(),
                acc matches Some(v) ==> forall|id: Seq<char>|
                    views(v@).contains(id) <==> forall|i: int|
                        0 <= i < g && q.must_groups[i].len() > 0 ==> group_hit(
                            *self,
                            q.must_groups[i],
                            id,
                        ),
            decreases parsed.must_groups.len() - g,
        {
            let group = &parsed.must_groups[g];
            assert(q.must_groups[g as int] == views(group@));
            if group.len() == 0 {
                g = g + 1;
                continue;
            }
            let mut union: Vec<String> = Vec::new();
            assert(views(union@) =~= Seq::<Seq<char>>::empty());
            let mut a: usize = 0;
            while a < group.len()
                invariant
                    a <= group.len(),
                    views(union@).no_duplicates(),
                    forall|id: Seq<char>|
                        views(union@).contains(id) <==> exists|b: int|
                            0 <= b < a && token_hit(*self, group@[b]@, id),
                decreases group.len() - a,
            {
                let docs = self.docs_for_token(&group[a]);
                let ghost before = views(union@);
                union_into(&mut union, &docs);
                assert forall|id: Seq<char>|
                    views(union@).contains(id) <==> exists|b: int|
                        0 <= b < a + 1 && token_hit(*self, group@[b]@, id) by {
                    if exists|b: int| 0 <= b < a + 1 && token_hit(*self, group@[b]@, id) {
                        let b = choose|b: int| 0 <= b < a + 1 && token_hit(*self, group@[b]@, id);
                        if b < a {
                            assert(before.contains(id));
                        } else {
                            assert(views(docs@).contains(id));
                        }
                    }
                    if views(union@).contains(id) {
                        if before.contains(id) {
                            let b = choose|b: int| 0 <= b < a && token_hit(*self, group@[b]@, id);
                            assert(0 <= b < a + 1 && token_hit(*self, group@[b]@, id));
                        } else {
                            assert(views(docs@).contains(id));
                            assert(0 <= a < a + 1 && token_hit(*self, group@[a as int]@, id));
                        }
                    }
                }
                a = a + 1;
            }
            assert forall|id: Seq<char>|
                views(union@).contains(id) <==> group_hit(*self, q.must_groups[g as int], id) by {
                if views(union@).contains(id) {
                    let b = choose|b: int| 0 <= b < a && token_hit(*self, group@[b]@, id);
                    assert(q.must_groups[g as int][b] == group@[b]@);
                }
                if group_hit(*self, q.must_groups[g as int], id) {
                    let b = choose|b: int|
                        0 <= b < q.must_groups[g as int].len() && token_hit(
                            *self,
                            q.must_groups[g as int][b],
                            id,
                        );
                    assert(q.must_groups[g as int][b] == group@[b]@);
                }
            }
            if union.len() == 0 {
                let empty: Vec<String> = Vec::new();
                assert(views(empty@) =~= Seq::<Seq<char>>::empty());
                assert forall|id: Seq<char>| !candidate(*self, q, id) by {
                    if candidate(*self, q, id) {
                        assert(q.must_groups[g as int].len() > 0);
                        assert(group_hit(*self, q.must_groups[g as int], id));
                        assert(views(union@).contains(id));
                    }
                }
                return Some(empty);
            }
            let ghost prev_acc = acc;
            let next = match acc {
                None => union,
                Some(v) => intersect(&v, &union),
            };
            assert forall|id: Seq<char>|
                views(next@).contains(id) <==> forall|i: int|
                    0 <= i < g + 1 && q.must_groups[i].len() > 0 ==> group_hit(
                        *self,
                        q.must_groups[i],
                        id,
                    ) by {
                if prev_acc.is_none() {
                    if views(next@).contains(id) {
                        assert forall|i: int|
                            0 <= i < g + 1 && q.must_groups[i].len() > 0 implies group_hit(
                                *self,
                                q.must_groups[i],
                                id,
                            ) by {
                            if i < g {
                                assert(q.must_groups[i].len() == 0);
                            }
                        }
                    }
                }
            }
            acc = Some(next);
            g = g + 1;
        }
        assert(acc.is_some()) by {
            let i = choose|i: int| 0 <= i < q.must_groups.len() && #[trigger] q.must_groups[i].len() > 0;
        }
        let mut set = match acc {
            Some(v) => v,
            None => Vec::new(),
        };
        assert forall|id: Seq<char>|
            views(set@).contains(id) <==> forall|i: int|
                0 <= i < q.must_groups.len() && #[trigger] q.must_groups[i].len() > 0 ==> group_hit(
                    *self,
                    q.must_groups[i],
                    id,
                ) by {}

        let ghost base_set = views(set@);
        if parsed.favorites_only {
            let mut keep: Vec<bool> = Vec::new();
            let mut i: usize = 0;
            while i < set.len()
                invariant
                    i <= set.len(),
                    keep@.len() == i,
                    forall|k: int| 0 <= k < i ==> keep@[k] == self.is_favorite_id(set@[k]@),
                decreases set.len() - i,
            {
                keep.push(vec_has(&self.favorite_ids, &set[i]));
                i = i + 1;
            }
            let ghost old_set = set@;
            set = keep_where(&set, &keep);
            proof {
                lemma_keep_where(old_set, keep@, views(set@), |x: Seq<char>| self.is_favorite_id(x));
            }
        }
        let ghost s1 = views(set@);
        assert forall|id: Seq<char>| s1.contains(id) <==> (base_set.contains(id) && (q.favorites_only ==> self.is_favorite_id(id))) by {}

        if parsed.extensions.len() > 0 {
            let mut allowed: Vec<String> = Vec::new();
            let mut e: usize = 0;
            while e < parsed.extensions.len()
                invariant
                    e <= parsed.extensions.len(),
                    q == parsed@,
                    forall|id: Seq<char>|
                        views(allowed@).contains(id) <==> exists|k: int|
                            0 <= k < e && self.has_ext_key(q.extensions[k], id),
                decreases parsed.extensions.len() - e,
            {
                let docs = self.ext_docs(&parsed.extensions[e]);
                let ghost before = views(allowed@);
                union_into(&mut allowed, &docs);
                assert forall|id: Seq<char>|
                    views(allowed@).contains(id) <==> exists|k: int|
                        0 <= k < e + 1 && self.has_ext_key(q.extensions[k], id) by {
                    assert(q.extensions[e as int] == parsed.extensions@[e as int]@);
                    if exists|k: int| 0 <= k < e + 1 && self.has_ext_key(q.extensions[k], id) {
                        let k = choose|k: int| 0 <= k < e + 1 && self.has_ext_key(q.extensions[k], id);
                        if k < e {
                            assert(before.contains(id));
                        } else {
                            assert(views(docs@).contains(id));
                        }
                    }
                    if views(allowed@).contains(id) {
                        if before.contains(id) {
                            let k = choose|k: int| 0 <= k < e && self.has_ext_key(q.extensions[k], id);
                            assert(0 <= k < e + 1 && self.has_ext_key(q.extensions[k], id));
                        } else {
                            assert(views(docs@).contains(id));
                            assert(0 <= e < e + 1 && self.has_ext_key(q.extensions[e as int], id));
                        }
                    }
                }
                e = e + 1;
            }
            let mut keep: Vec<bool> = Vec::new();
            let mut i: usize = 0;
            while i < set.len()
                invariant
                    i <= set.len(),
                    keep@.len() == i,
                    forall|k: int| 0 <= k < i ==> keep@[k] == views(allowed@).contains(set@[k]@),
                decreases set.len() - i,
            {
                keep.push(vec_has(&allowed, &set[i]));
                i = i + 1;
            }
            let ghost old_set = set@;
            set = keep_where(&set, &keep);
            proof {
                lemma_keep_where(old_set, keep@, views(set@), |x: Seq<char>| views(allowed@).contains(x));
            }
        }
        let ghost s2 = views(set@);
        assert forall|id: Seq<char>| s2.contains(id) <==> (s1.contains(id) && (q.extensions.len() > 0 ==> exists|e: int| 0 <= e < q.extensions.len() && self.has_ext_key(q.extensions[e], id))) by {}

        let mut n: usize = 0;
        while n < parsed.tag_filters.len()
            invariant
                n <= parsed.tag_filters.len(),
                q == parsed@,
                forall|id: Seq<char>| base_set.contains(id) <==> forall|i: int|
                    0 <= i < q.must_groups.len() && #[trigger] q.must_groups[i].len() > 0 ==> group_hit(*self, q.must_groups[i], id),
                forall|id: Seq<char>| s1.contains(id) <==> (base_set.contains(id) && (q.favorites_only ==> self.is_favorite_id(id))),
                forall|id: Seq<char>| s2.contains(id) <==> (s1.contains(id) && (q.extensions.len() > 0 ==> exists|e: int| 0 <= e < q.extensions.len() && self.has_ext_key(q.extensions[e], id))),

                views(set@).no_duplicates(),
                forall|id: Seq<char>|
                    views(set@).contains(id) <==> (s2.contains(id) && forall|m: int|
                        0 <= m < n ==> tag_hit(*self, id, #[trigger] q.tag_filters[m])),
            decreases parsed.tag_filters.len() - n,
        {
            let needle = &parsed.tag_filters[n];
            assert(q.tag_filters[n as int] == needle@);
            let ghost top = views(set@);
            assert(forall|id: Seq<char>| top.contains(id) <==> (s2.contains(id) && forall|m: int|
                    0 <= m < n ==> tag_hit(*self, id, #[trigger] q.tag_filters[m])));
            let mut keep: Vec<bool> = Vec::new();
            let mut i: usize = 0;
            while i < set.len()
                invariant
                    i <= set.len(),
                    keep@.len() == i,
                    forall|k: int| 0 <= k < i ==> keep@[k] == tag_hit(*self, set@[k]@, needle@),
                decreases set.len() - i,
            {
                keep.push(self.tag_matches(&set[i], needle));
                i = i + 1;
            }
            let ghost prev = views(set@);
            let ghost old_set = set@;
            set = keep_where(&set, &keep);
            proof {
                lemma_keep_where(old_set, keep@, views(set@), |x: Seq<char>| tag_hit(*self, x, needle@));
            }
            assert forall|id: Seq<char>|
                views(set@).contains(id) <==> (s2.contains(id) && forall|m: int|
                    0 <= m < n + 1 ==> tag_hit(*self, id, #[trigger] q.tag_filters[m])) by {
                assert(views(set@).contains(id) <==> (prev.contains(id) && tag_hit(*self, id, needle@)));
                assert(prev.contains(id) <==> (s2.contains(id) && forall|m: int|
                    0 <= m < n ==> tag_hit(*self, id, #[trigger] q.tag_filters[m])));
                if views(set@).contains(id) {
                    assert forall|m: int| 0 <= m < n + 1 implies tag_hit(*self, id, #[trigger] q.tag_filters[m]) by {
                        if m == n {
                            assert(q.tag_filters[m] == needle@);
                        }
                    }
                }
                if s2.contains(id) && forall|m: int| 0 <= m < n + 1 ==> tag_hit(*self, id, #[trigger] q.tag_filters[m]) {
                    assert(tag_hit(*self, id, q.tag_filters[n as int]));
                    assert forall|m: int| 0 <= m < n implies tag_hit(*self, id, #[trigger] q.tag_filters[m]) by {
                        assert(0 <= m < n + 1);
                    }
                }
            }
            n = n + 1;
        }
        let ghost s3 = views(set@);

        let mut n: usize = 0;
        while n < parsed.excluded_tags.len()
            invariant
                n <= parsed.excluded_tags.len(),
                q == parsed@,
                forall|id: Seq<char>| base_set.contains(id) <==> forall|i: int|
                    0 <= i < q.must_groups.len() && #[trigger] q.must_groups[i].len() > 0 ==> group_hit(*self, q.must_groups[i], id),
                forall|id: Seq<char>| s1.contains(id) <==> (base_set.contains(id) && (q.favorites_only ==> self.is_favorite_id(id))),
                forall|id: Seq<char>| s2.contains(id) <==> (s1.contains(id) && (q.extensions.len() > 0 ==> exists|e: int| 0 <= e < q.extensions.len() && self.has_ext_key(q.extensions[e], id))),
                forall|id: Seq<char>| s3.contains(id) <==> (s2.contains(id) && forall|m: int|
                    0 <= m < q.tag_filters.len() ==> tag_hit(*self, id, #[trigger] q.tag_filters[m])),

                views(set@).no_duplicates(),
                forall|id: Seq<char>|
                    views(set@).contains(id) <==> (s3.contains(id) && forall|m: int|
                        0 <= m < n ==> !tag_hit(*self, id, #[trigger] q.excluded_tags[m])),
            decreases parsed.excluded_tags.len() - n,
        {
            let banned = &parsed.excluded_tags[n];
            assert(q.excluded_tags[n as int] == banned@);
            let ghost top = views(set@);
            assert(forall|id: Seq<char>| top.contains(id) <==> (s3.contains(id) && forall|m: int|
                    0 <= m < n ==> !tag_hit(*self, id, #[trigger] q.excluded_tags[m])));
            let mut keep: Vec<bool> = Vec::new();
            let mut i: usize = 0;
            while i < set.len()
                invariant
                    i <= set.len(),
                    keep@.len() == i,
                    forall|k: int| 0 <= k < i ==> keep@[k] == !tag_hit(*self, set@[k]@, banned@),
                decreases set.len() - i,
            {
                let hit = self.tag_matches(&set[i], banned);
                keep.push(!hit);
                i = i + 1;
            }
            let ghost prev = views(set@);
            let ghost old_set = set@;
            set = keep_where(&set, &keep);
            proof {
                lemma_keep_where(old_set, keep@, views(set@), |x: Seq<char>| !tag_hit(*self, x, banned@));
            }
            assert forall|id: Seq<char>|
                views(set@).contains(id) <==> (s3.contains(id) && forall|m: int|
                    0 <= m < n + 1 ==> !tag_hit(*self, id, #[trigger] q.excluded_tags[m])) by {
                assert(views(set@).contains(id) <==> (prev.contains(id) && !tag_hit(*self, id, banned@)));
                assert(prev.contains(id) <==> (s3.contains(id) && forall|m: int|
                    0 <= m < n ==> !tag_hit(*self, id, #[trigger] q.excluded_tags[m])));
                if views(set@).contains(id) {
                    assert forall|m: int| 0 <= m < n + 1 implies !tag_hit(*self, id, #[trigger] q.excluded_tags[m]) by {
                        if m == n {
                            assert(q.excluded_tags[m] == banned@);
                        }
                    }
                }
                if s3.contains(id) && forall|m: int| 0 <= m < n + 1 ==> !tag_hit(*self, id, #[trigger] q.excluded_tags[m]) {
                    assert(!tag_hit(*self, id, q.excluded_tags[n as int]));
                    assert forall|m: int| 0 <= m < n implies !tag_hit(*self, id, #[trigger] q.excluded_tags[m]) by {
                        assert(0 <= m < n + 1);
                    }
                }
            }
            n = n + 1;
        }
        assert forall|id: Seq<char>| views(set@).contains(id) <==> candidate(*self, q, id) by {
            assert(views(set@).contains(id) <==> (s3.contains(id) && forall|m: int|
                0 <= m < q.excluded_tags.len() ==> !tag_hit(*self, id, #[trigger] q.excluded_tags[m])));
            assert(s3.contains(id) <==> (s2.contains(id) && forall|m: int|
                0 <= m < q.tag_filters.len() ==> tag_hit(*self, id, #[trigger] q.tag_filters[m])));
            assert(s2.contains(id) <==> (s1.contains(id) && (q.extensions.len() > 0 ==> exists|e: int| 0 <= e < q.extensions.len() && self.has_ext_key(q.extensions[e], id))));
            assert(s1.contains(id) <==> (base_set.contains(id) && (q.favorites_only ==> self.is_favorite_id(id))));
            assert(base_set.contains(id) <==> forall|i: int|
                0 <= i < q.must_groups.len() && #[trigger] q.must_groups[i].len() > 0 ==> group_hit(*self, q.must_groups[i], id));
        }
        Some(set)
    }
}

/// The posting lists as values.
pub open spec fn posting_views(p: Seq<Posting>) -> Seq<(Seq<char>, Seq<Seq<char>>)> {
    p.map_values(|x: Posting| (x.term@, views(x.ids@)))
}

proof fn lemma_posted_same(a: Seq<Posting>, b: Seq<Posting>)
    requires
        posting_views(a) == posting_views(b),
    ensures
        forall|t: Seq<char>, d: Seq<char>| posted(a, t, d) == posted(b, t, d),
{
    assert forall|t: Seq<char>, d: Seq<char>| posted(a, t, d) == posted(b, t, d) by {
        assert(a.len() == posting_views(a).len());
        assert(b.len() == posting_views(b).len());
        if posted(a, t, d) {
            let i = choose|i: int| 0 <= i < a.len() && a[i].term@ == t && views(a[i].ids@).contains(d);
            assert(posting_views(a)[i] == posting_views(b)[i]);
        }
        if posted(b, t, d) {
            let i = choose|i: int| 0 <= i < b.len() && b[i].term@ == t && views(b[i].ids@).contains(d);
            assert(posting_views(a)[i] == posting_views(b)[i]);
        }
    }
}

fn copy_postings(p: &Vec<Posting>) -> (r: Vec<Posting>)
    ensures
        posting_views(r@) == posting_views(p@),
{
    let mut out: Vec<Posting> = Vec::new();
    let mut i: usize = 0;
    while i < p.len()
        invariant
            i <= p.len(),
            posting_views(out@) == posting_views(p@).take(i as int),
        decreases p.len() - i,
    {
        let ghost prev = out@;
        out.push(Posting { term: copy_string(&p[i].term), ids: copy_strings(&p[i].ids) });
        assert(posting_views(out@) =~= posting_views(prev).push((p@[i as int].term@, views(p@[i as int].ids@))));
        assert(posting_views(p@).take(i + 1) =~= posting_views(p@).take(i as int).push((p@[i as int].term@, views(p@[i as int].ids@))));
        i = i + 1;
    }
    assert(posting_views(p@).take(p.len() as int) =~= posting_views(p@));
    out
}

impl InvertedIndex {
    /// Same postings, favorites, and documents.
    pub closed spec fn same_as(&self, other: InvertedIndex) -> bool {
        &&& posting_views(self.postings@) == posting_views(other.postings@)
        &&& posting_views(self.tag_postings@) == posting_views(other.tag_postings@)
        &&& posting_views(self.ext_postings@) == posting_views(other.ext_postings@)
        &&& views(self.favorite_ids@) == views(other.favorite_ids@)
        &&& views(self.doc_ids@) == views(other.doc_ids@)
    }

    /// A copy with the same contents.
    pub fn duplicate(&self) -> (r: InvertedIndex)
        ensures
            r.same_as(*self),
    {
        InvertedIndex {
            postings: copy_postings(&self.postings),
            tag_postings: copy_postings(&self.tag_postings),
            ext_postings: copy_postings(&self.ext_postings),
            favorite_ids: copy_strings(&self.favorite_ids),
            doc_ids: copy_strings(&self.doc_ids),
        }
    }
}

/// Having the same contents is symmetric.
pub proof fn lemma_same_as_symmetric(a: InvertedIndex, b: InvertedIndex)
    requires
        a.same_as(b),
    ensures
        b.same_as(a),
{
}

/// Indexes with the same contents index the same items.
pub proof fn lemma_same_as_indexes(a: InvertedIndex, b: InvertedIndex, items: Seq<ItemView>)
    requires
        a.same_as(b),
        indexes(a, items),
    ensures
        indexes(b, items),
{
    lemma_posted_same(a.postings@, b.postings@);
    lemma_posted_same(a.tag_postings@, b.tag_postings@);
    lemma_posted_same(a.ext_postings@, b.ext_postings@);
}

/// Two positions that both hold the kept item of an id are the same.
proof fn lemma_live_unique(items: Seq<ItemView>, id: Seq<char>, j: int, k: int)
    requires
        live(items, id, j),
        live(items, id, k),
    ensures
        j == k,
{
}

/// A field that matches a non-empty token strictly has an index term that
/// answers the token.
proof fn lemma_strict_term(f: Seq<char>, tok: Seq<char>) -> (t: Seq<char>)
    requires
        strict_match(f, tok),
        tok.len() > 0,
    ensures
        field_term(f, t),
        related(t, tok),
{
    if contains_seq(lowercase(f), tok) {
        let at = choose|at: int| matches_at(lowercase(f), tok, at);
        lowercase(f)
    } else {
        let ws = words(f);
        let i = choose|i: int| 0 <= i < ws.len() && contains_seq(ws[i], tok);
        let at = choose|at: int| matches_at(ws[i], tok, at);
        assert(ws.contains(ws[i]));
        ws[i]
    }
}

/// A field that grades a non-empty token above "no match" has an index term
/// that answers the token directly or is similar enough to it.
proof fn lemma_graded_term(f: Seq<char>, tok: Seq<char>) -> (t: Seq<char>)
    requires
        grade_kind(f, tok) != MatchKind::NoMatch,
        tok.len() > 0,
    ensures
        field_term(f, t),
        related(t, tok) || close_enough(pair_similarity(t, tok)),
{
    let folded = lowercase(f);
    let ws = words(f);
    let k = grade_kind(f, tok);
    if k == MatchKind::Exact {
        assert(folded.subrange(0, tok.len() as int) =~= folded);
        assert(matches_at(folded, tok, 0));
        lemma_strict_term(f, tok)
    } else if k == MatchKind::Word {
        let i = choose|i: int| 0 <= i < ws.len() && ws[i] == tok;
        assert(ws[i].subrange(0, tok.len() as int) =~= ws[i]);
        assert(matches_at(ws[i], tok, 0));
        assert(some_word_contains(ws, tok));
        lemma_strict_term(f, tok)
    } else if k == MatchKind::Prefix {
        if !starts_with_seq(folded, tok) {
            let i = choose|i: int| 0 <= i < ws.len() && starts_with_seq(ws[i], tok);
            assert(matches_at(ws[i], tok, 0));
            assert(some_word_contains(ws, tok));
        }
        lemma_strict_term(f, tok)
    } else if k == MatchKind::Substr {
        lemma_strict_term(f, tok)
    } else {
        let cands = seq![folded].add(ws);
        lemma_best_similarity_witness(cands, tok);
        let c = choose|c: int| 0 <= c < cands.len() && pair_similarity(cands[c], tok) == best_similarity(cands, tok);
        let t = cands[c];
        assert(t.len() > 0);
        if c > 0 {
            assert(t == ws[c - 1]);
            assert(ws.contains(ws[c - 1]));
        }
        t
    }
}

/// Retrieval loses no hit: when `items[j]` is the item the index keeps for
/// its id and it is a hit of the query, its id is a candidate. This holds
/// whenever an empty alternative only occurs for an item with some index
/// term, and an extension filter only meets an item whose extension is not
/// empty once folded.
pub proof fn lemma_candidates_keep_hits(idx: InvertedIndex, items: Seq<ItemView>, q: QueryView, j: int)
    requires
        indexes(idx, items),
        last_of_id(items, j),
        is_hit(items[j], q),
        q.extensions.len() > 0 ==> lowercase(items[j].extension).len() > 0,
        forall|g: int, a: int|
            0 <= g < q.must_groups.len() && 0 <= a < q.must_groups[g].len()
                && #[trigger] q.must_groups[g][a].len() == 0 ==> exists|t: Seq<char>| item_term(items[j], t),
    ensures
        candidate(idx, q, items[j].id),
{
    let it = items[j];
    let id = it.id;
    assert(live(items, id, j));
    assert forall|g: int|
        0 <= g < q.must_groups.len() && #[trigger] q.must_groups[g].len() > 0 implies group_hit(
            idx,
            q.must_groups[g],
            id,
        ) by {
        let a = choose|a: int| 0 <= a < q.must_groups[g].len() && token_matches(it, q.must_groups[g][a]);
        let tok = q.must_groups[g][a];
        if tok.len() == 0 {
            let t = choose|t: Seq<char>| item_term(it, t);
            assert(posted(idx.postings@, t, id));
            assert(idx.has_term(t, id));
            assert(t.subrange(0, 0) =~= tok);
            assert(related(t, tok));
            assert(direct_hit(idx, tok, id));
        } else {
            let t = if grade_kind(it.name, tok) != MatchKind::NoMatch {
                lemma_graded_term(it.name, tok)
            } else if exists|i: int| 0 <= i < it.aliases.len() && grade_kind(it.aliases[i], tok) != MatchKind::NoMatch {
                let i = choose|i: int| 0 <= i < it.aliases.len() && grade_kind(it.aliases[i], tok) != MatchKind::NoMatch;
                let t = lemma_graded_term(it.aliases[i], tok);
                assert(fields_term(it.aliases, t));
                t
            } else {
                let i = choose|i: int| 0 <= i < it.tags.len() && grade_kind(it.tags[i], tok) != MatchKind::NoMatch;
                let t = lemma_graded_term(it.tags[i], tok);
                assert(fields_term(it.tags, t));
                t
            };
            assert(item_term(it, t));
            assert(posted(idx.postings@, t, id));
            assert(idx.has_term(t, id));
        }
        assert(token_hit(idx, tok, id));
    }
    lemma_filters_kept(idx, items, q, j);
}

/// An item kept for its id that passes the query's filters (with a
/// non-empty extension when one is asked for) passes the index's filters.
proof fn lemma_filters_kept(idx: InvertedIndex, items: Seq<ItemView>, q: QueryView, j: int)
    requires
        indexes(idx, items),
        last_of_id(items, j),
        passes_gates(items[j], q),
        q.extensions.len() > 0 ==> lowercase(items[j].extension).len() > 0,
    ensures
        q.favorites_only ==> idx.is_favorite_id(items[j].id),
        q.extensions.len() > 0 ==> exists|e: int|
            0 <= e < q.extensions.len() && idx.has_ext_key(q.extensions[e], items[j].id),
        forall|n: int| 0 <= n < q.tag_filters.len() ==> tag_hit(idx, items[j].id, #[trigger] q.tag_filters[n]),
        forall|n: int|
            0 <= n < q.excluded_tags.len() ==> !tag_hit(idx, items[j].id, #[trigger] q.excluded_tags[n]),
{
    let it = items[j];
    let id = it.id;
    assert(live(items, id, j));
    if q.favorites_only {
        assert(views(idx.favorite_ids@).contains(id));
    }
    if q.extensions.len() > 0 {
        let e = choose|e: int| 0 <= e < q.extensions.len() && q.extensions[e] == lowercase(it.extension);
        assert(item_ext_key(it, q.extensions[e]));
        assert(posted(idx.ext_postings@, q.extensions[e], id));
        assert(idx.has_ext_key(q.extensions[e], id));
    }
    assert forall|n: int| 0 <= n < q.tag_filters.len() implies tag_hit(
        idx,
        id,
        #[trigger] q.tag_filters[n],
    ) by {
        let needle = q.tag_filters[n];
        assert(has_tag_containing(it, needle));
        let i = choose|i: int| 0 <= i < it.tags.len() && contains_seq(lowercase(it.tags[i]), needle);
        let k = lowercase(it.tags[i]);
        assert(item_tag_key(it, k));
        assert(posted(idx.tag_postings@, k, id));
        assert(idx.has_tag_key(k, id));
    }
    assert forall|n: int| 0 <= n < q.excluded_tags.len() implies !tag_hit(
        idx,
        id,
        #[trigger] q.excluded_tags[n],
    ) by {
        let needle = q.excluded_tags[n];
        assert(!has_tag_containing(it, needle));
        if tag_hit(idx, id, needle) {
            let k = choose|k: Seq<char>| idx.has_tag_key(k, id) && contains_seq(k, needle);
            assert(posted(idx.tag_postings@, k, id));
            let jj = choose|jj: int| live(items, id, jj) && item_tag_key(items[jj], k);
            lemma_live_unique(items, id, j, jj);
            let i = choose|i: int| 0 <= i < it.tags.len() && lowercase(it.tags[i]) == k;
            assert(contains_seq(lowercase(it.tags[i]), needle));
        }
    }
}

/// Every candidate of a text query is an indexed document.
pub proof fn lemma_candidates_are_documents(
    idx: InvertedIndex,
    items: Seq<ItemView>,
    q: QueryView,
    id: Seq<char>,
)
    requires
        indexes(idx, items),
        has_text(q),
        candidate(idx, q, id),
    ensures
        idx.spec_doc_ids().contains(id),
{
    let g = choose|g: int| 0 <= g < q.must_groups.len() && #[trigger] q.must_groups[g].len() > 0;
    assert(group_hit(idx, q.must_groups[g], id));
    let a = choose|a: int| 0 <= a < q.must_groups[g].len() && token_hit(idx, q.must_groups[g][a], id);
    let tok = q.must_groups[g][a];
    let t = if direct_hit(idx, tok, id) {
        choose|t: Seq<char>| idx.has_term(t, id) && related(t, tok)
    } else {
        choose|t: Seq<char>| idx.has_term(t, id) && close_enough(pair_similarity(t, tok))
    };
    assert(posted(idx.postings@, t, id));
    let j = choose|j: int| live(items, id, j) && item_term(items[j], t);
    assert(views(idx.doc_ids@).contains(id));
}

/// After a document is dropped (it is listed under no term), no text query
/// retrieves it.
pub proof fn lemma_removed_never_candidate(
    before: InvertedIndex,
    after: InvertedIndex,
    id: Seq<char>,
    q: QueryView,
)
    requires
        forall|t: Seq<char>, d: Seq<char>|
            #[trigger] after.has_term(t, d) <==> (before.has_term(t, d) && d != id),
        has_text(q),
    ensures
        !candidate(after, q, id),
{
    if candidate(after, q, id) {
        let g = choose|g: int| 0 <= g < q.must_groups.len() && #[trigger] q.must_groups[g].len() > 0;
        assert(group_hit(after, q.must_groups[g], id));
        let a = choose|a: int|
            0 <= a < q.must_groups[g].len() && token_hit(after, q.must_groups[g][a], id);
        let tok = q.must_groups[g][a];
        if direct_hit(after, tok, id) {
            let t = choose|t: Seq<char>| after.has_term(t, id) && related(t, tok);
        } else {
            let t = choose|t: Seq<char>| after.has_term(t, id) && close_enough(pair_similarity(t, tok));
        }
    }
}

/// Some position from `j` on holds the kept item of `items[j]`'s id.
proof fn lemma_some_live(items: Seq<ItemView>, j: int) -> (k: int)
    requires
        0 <= j < items.len(),
    ensures
        live(items, items[j].id, k),
    decreases items.len() - j,
{
    if last_of_id(items, j) {
        j
    } else {
        let k = choose|k: int| j < k < items.len() && items[k].id == items[j].id;
        lemma_some_live(items, k)
    }
}

/// The built index holds one document per distinct id of the items.
pub proof fn lemma_documents_are_ids(idx: InvertedIndex, items: Seq<ItemView>)
    requires
        indexes(idx, items),
    ensures
        idx.spec_doc_ids().no_duplicates(),
        forall|id: Seq<char>|
            idx.spec_doc_ids().contains(id) <==> exists|j: int| 0 <= j < items.len() && items[j].id == id,
{
    assert forall|id: Seq<char>|
        idx.spec_doc_ids().contains(id) <==> exists|j: int| 0 <= j < items.len() && items[j].id == id by {
        if exists|j: int| 0 <= j < items.len() && items[j].id == id {
            let j = choose|j: int| 0 <= j < items.len() && items[j].id == id;
            let k = lemma_some_live(items, j);
            assert(views(idx.doc_ids@).contains(id));
        }
        if views(idx.doc_ids@).contains(id) {
            let k = choose|k: int| live(items, id, k);
        }
    }
}


/// Candidates answer the text: for a candidate of a text query, every group
/// with alternatives has one that a term of the kept item (its folded name,
/// tag or alias, or one of their words) equals, starts with, is the start of,
/// contains, or is similar enough to.
pub proof fn lemma_candidate_answers_group(
    idx: InvertedIndex,
    items: Seq<ItemView>,
    q: QueryView,
    id: Seq<char>,
    g: int,
) -> (j: int)
    requires
        indexes(idx, items),
        candidate(idx, q, id),
        0 <= g < q.must_groups.len(),
        q.must_groups[g].len() > 0,
    ensures
        live(items, id, j),
        exists|a: int, t: Seq<char>|
            #![trigger item_term(items[j], t), q.must_groups[g][a]]
            0 <= a < q.must_groups[g].len() && item_term(items[j], t) && (related(t, q.must_groups[g][a])
                || close_enough(pair_similarity(t, q.must_groups[g][a]))),
{
    assert(group_hit(idx, q.must_groups[g], id));
    let a = choose|a: int| 0 <= a < q.must_groups[g].len() && token_hit(idx, q.must_groups[g][a], id);
    let tok = q.must_groups[g][a];
    let t = if direct_hit(idx, tok, id) {
        choose|t: Seq<char>| idx.has_term(t, id) && related(t, tok)
    } else {
        choose|t: Seq<char>| idx.has_term(t, id) && close_enough(pair_similarity(t, tok))
    };
    assert(posted(idx.postings@, t, id));
    let j = choose|j: int| live(items, id, j) && item_term(items[j], t);
    assert(0 <= a < q.must_groups[g].len() && item_term(items[j], t) && (related(t, q.must_groups[g][a])
        || close_enough(pair_similarity(t, q.must_groups[g][a]))));
    j
}

/// Every candidate of a text query is the id of a kept item that passes the
/// query's favorite, extension, and tag filters.
pub proof fn lemma_candidates_pass_filters(idx: InvertedIndex, items: Seq<ItemView>, q: QueryView, id: Seq<char>) -> (j: int)
    requires
        indexes(idx, items),
        has_text(q),
        candidate(idx, q, id),
    ensures
        live(items, id, j),
        q.favorites_only ==> items[j].favorite,
        q.extensions.len() > 0 ==> exists|e: int|
            0 <= e < q.extensions.len() && q.extensions[e] == lowercase(items[j].extension),
        forall|n: int| 0 <= n < q.tag_filters.len() ==> has_tag_containing(items[j], #[trigger] q.tag_filters[n]),
        forall|n: int|
            0 <= n < q.excluded_tags.len() ==> !has_tag_containing(items[j], #[trigger] q.excluded_tags[n]),
{
    lemma_candidates_are_documents(idx, items, q, id);
    assert(views(idx.doc_ids@).contains(id));
    let j = choose|j: int| live(items, id, j);
    let it = items[j];
    if q.favorites_only {
        assert(views(idx.favorite_ids@).contains(id));
        let k = choose|k: int| live(items, id, k) && items[k].favorite;
        lemma_live_unique(items, id, j, k);
    }
    if q.extensions.len() > 0 {
        let e = choose|e: int| 0 <= e < q.extensions.len() && idx.has_ext_key(q.extensions[e], id);
        assert(posted(idx.ext_postings@, q.extensions[e], id));
        let k = choose|k: int| live(items, id, k) && item_ext_key(items[k], q.extensions[e]);
        lemma_live_unique(items, id, j, k);
    }
    assert forall|n: int| 0 <= n < q.tag_filters.len() implies has_tag_containing(it, #[trigger] q.tag_filters[n]) by {
        let needle = q.tag_filters[n];
        assert(tag_hit(idx, id, needle));
        let key = choose|key: Seq<char>| idx.has_tag_key(key, id) && contains_seq(key, needle);
        assert(posted(idx.tag_postings@, key, id));
        let k = choose|k: int| live(items, id, k) && item_tag_key(items[k], key);
        lemma_live_unique(items, id, j, k);
        let m = choose|m: int| 0 <= m < it.tags.len() && lowercase(it.tags[m]) == key;
    }
    assert forall|n: int| 0 <= n < q.excluded_tags.len() implies !has_tag_containing(it, #[trigger] q.excluded_tags[n]) by {
        let needle = q.excluded_tags[n];
        assert(!tag_hit(idx, id, needle));
        if has_tag_containing(it, needle) {
            let m = choose|m: int| 0 <= m < it.tags.len() && contains_seq(lowercase(it.tags[m]), needle);
            let key = lowercase(it.tags[m]);
            assert(item_tag_key(it, key));
            assert(posted(idx.tag_postings@, key, id));
            assert(idx.has_tag_key(key, id));
        }
    }
    j
}

/// Indexes with the same contents answer alike: the same documents, in the
/// same order, and the same candidates for every query.
pub proof fn lemma_same_as_answers(a: InvertedIndex, b: InvertedIndex)
    requires
        a.same_as(b),
    ensures
        b.same_as(a),
        a.spec_doc_ids() == b.spec_doc_ids(),
        forall|q: QueryView, id: Seq<char>| candidate(a, q, id) == candidate(b, q, id),
{
    lemma_posted_same(a.postings@, b.postings@);
    lemma_posted_same(a.tag_postings@, b.tag_postings@);
    lemma_posted_same(a.ext_postings@, b.ext_postings@);
    assert forall|t: Seq<char>, d: Seq<char>| a.has_term(t, d) == b.has_term(t, d) by {}
    assert forall|t: Seq<char>, d: Seq<char>| a.has_tag_key(t, d) == b.has_tag_key(t, d) by {}
    assert forall|t: Seq<char>, d: Seq<char>| a.has_ext_key(t, d) == b.has_ext_key(t, d) by {}
    assert forall|d: Seq<char>| a.is_favorite_id(d) == b.is_favorite_id(d) by {}
    assert forall|q: QueryView, id: Seq<char>| candidate(a, q, id) == candidate(b, q, id) by {
        assert forall|tok: Seq<char>| token_hit(a, tok, id) == token_hit(b, tok, id) by {
            assert(direct_hit(a, tok, id) == direct_hit(b, tok, id));
            assert(fuzzy_hit(a, tok, id) == fuzzy_hit(b, tok, id));
        }
        assert forall|g: Seq<Seq<char>>| group_hit(a, g, id) == group_hit(b, g, id) by {
            if group_hit(a, g, id) {
                let x = choose|x: int| 0 <= x < g.len() && token_hit(a, g[x], id);
                assert(token_hit(b, g[x], id));
            }
            if group_hit(b, g, id) {
                let x = choose|x: int| 0 <= x < g.len() && token_hit(b, g[x], id);
                assert(token_hit(a, g[x], id));
            }
        }
        assert forall|needle: Seq<char>| tag_hit(a, id, needle) == tag_hit(b, id, needle) by {}
    }
}


/// After dropping a document, every query answers for the other documents
/// as before, and a text query no longer retrieves the dropped one.
pub proof fn lemma_remove_keeps_other_candidates(
    before: InvertedIndex,
    after: InvertedIndex,
    id: Seq<char>,
    q: QueryView,
    d: Seq<char>,
)
    requires
        forall|t: Seq<char>, x: Seq<char>|
            #[trigger] after.has_term(t, x) <==> (before.has_term(t, x) && x != id),
        forall|t: Seq<char>, x: Seq<char>|
            #[trigger] after.has_tag_key(t, x) <==> (before.has_tag_key(t, x) && x != id),
        forall|t: Seq<char>, x: Seq<char>|
            #[trigger] after.has_ext_key(t, x) <==> (before.has_ext_key(t, x) && x != id),
        forall|x: Seq<char>| #[trigger] after.is_favorite_id(x) <==> (before.is_favorite_id(x) && x != id),
    ensures
        d != id ==> (candidate(after, q, d) <==> candidate(before, q, d)),
        has_text(q) ==> (candidate(after, q, d) <==> (candidate(before, q, d) && d != id)),
{
    if d == id {
        if has_text(q) {
            lemma_removed_never_candidate(before, after, id, q);
        }
    } else {
        assert forall|tok: Seq<char>| token_hit(after, tok, d) == token_hit(before, tok, d) by {
            if direct_hit(before, tok, d) {
                let t = choose|t: Seq<char>| before.has_term(t, d) && related(t, tok);
                assert(after.has_term(t, d));
            }
            if direct_hit(after, tok, d) {
                let t = choose|t: Seq<char>| after.has_term(t, d) && related(t, tok);
                assert(before.has_term(t, d));
            }
            if fuzzy_hit(before, tok, d) {
                let t = choose|t: Seq<char>| before.has_term(t, d) && close_enough(pair_similarity(t, tok));
                assert(after.has_term(t, d));
            }
            if fuzzy_hit(after, tok, d) {
                let t = choose|t: Seq<char>| after.has_term(t, d) && close_enough(pair_similarity(t, tok));
                assert(before.has_term(t, d));
            }
        }
        assert forall|g: Seq<Seq<char>>| group_hit(after, g, d) == group_hit(before, g, d) by {
            if group_hit(after, g, d) {
                let x = choose|x: int| 0 <= x < g.len() && token_hit(after, g[x], d);
                assert(token_hit(before, g[x], d));
            }
            if group_hit(before, g, d) {
                let x = choose|x: int| 0 <= x < g.len() && token_hit(before, g[x], d);
                assert(token_hit(after, g[x], d));
            }
        }
        assert forall|needle: Seq<char>| tag_hit(after, d, needle) == tag_hit(before, d, needle) by {
            if tag_hit(before, d, needle) {
                let k = choose|k: Seq<char>| before.has_tag_key(k, d) && contains_seq(k, needle);
                assert(after.has_tag_key(k, d));
            }
            if tag_hit(after, d, needle) {
                let k = choose|k: Seq<char>| after.has_tag_key(k, d) && contains_seq(k, needle);
                assert(before.has_tag_key(k, d));
            }
        }
        assert forall|e: Seq<char>| after.has_ext_key(e, d) == before.has_ext_key(e, d) by {}
        assert(after.is_favorite_id(d) == before.is_favorite_id(d));
    }
}

/// Some item is kept for `id`.
pub open spec fn has_kept(items: Seq<ItemView>, id: Seq<char>) -> bool {
    exists|j: int| live(items, id, j)
}

/// Two item lists keep the same items for the same ids.
pub open spec fn same_kept_items(a: Seq<ItemView>, b: Seq<ItemView>) -> bool {
    &&& forall|id: Seq<char>| #[trigger] has_kept(a, id) == has_kept(b, id)
    &&& forall|id: Seq<char>, j: int, k: int| #[trigger] live(a, id, j) && #[trigger] live(b, id, k) ==> a[j] == b[k]
}

/// Indexes of item lists that keep the same item for each id hold the same
/// documents and give every query the same candidates.
pub proof fn lemma_same_kept_items_same_answers(ia: InvertedIndex, a: Seq<ItemView>, ib: InvertedIndex, b: Seq<ItemView>)
    requires
        indexes(ia, a),
        indexes(ib, b),
        same_kept_items(a, b),
    ensures
        forall|id: Seq<char>| ia.spec_doc_ids().contains(id) == ib.spec_doc_ids().contains(id),
        forall|q: QueryView, id: Seq<char>| candidate(ia, q, id) == candidate(ib, q, id),
{
    assert forall|t: Seq<char>, d: Seq<char>| ia.has_term(t, d) == ib.has_term(t, d) by {
        if posted(ia.postings@, t, d) {
            let j = choose|j: int| live(a, d, j) && item_term(a[j], t);
            assert(has_kept(a, d));
            assert(has_kept(a, d) == has_kept(b, d));
            let k = choose|k: int| live(b, d, k);
        }
        if posted(ib.postings@, t, d) {
            let k = choose|k: int| live(b, d, k) && item_term(b[k], t);
            assert(has_kept(b, d));
            assert(has_kept(a, d) == has_kept(b, d));
            let j = choose|j: int| live(a, d, j);
        }
    }
    assert forall|t: Seq<char>, d: Seq<char>| ia.has_tag_key(t, d) == ib.has_tag_key(t, d) by {
        if posted(ia.tag_postings@, t, d) {
            let j = choose|j: int| live(a, d, j) && item_tag_key(a[j], t);
            assert(has_kept(a, d));
            assert(has_kept(a, d) == has_kept(b, d));
            let k = choose|k: int| live(b, d, k);
        }
        if posted(ib.tag_postings@, t, d) {
            let k = choose|k: int| live(b, d, k) && item_tag_key(b[k], t);
            assert(has_kept(b, d));
            assert(has_kept(a, d) == has_kept(b, d));
            let j = choose|j: int| live(a, d, j);
        }
    }
    assert forall|t: Seq<char>, d: Seq<char>| ia.has_ext_key(t, d) == ib.has_ext_key(t, d) by {
        if posted(ia.ext_postings@, t, d) {
            let j = choose|j: int| live(a, d, j) && item_ext_key(a[j], t);
            assert(has_kept(a, d));
            assert(has_kept(a, d) == has_kept(b, d));
            let k = choose|k: int| live(b, d, k);
        }
        if posted(ib.ext_postings@, t, d) {
            let k = choose|k: int| live(b, d, k) && item_ext_key(b[k], t);
            assert(has_kept(b, d));
            assert(has_kept(a, d) == has_kept(b, d));
            let j = choose|j: int| live(a, d, j);
        }
    }
    assert forall|d: Seq<char>| ia.is_favorite_id(d) == ib.is_favorite_id(d) by {
        if views(ia.favorite_ids@).contains(d) {
            let j = choose|j: int| live(a, d, j) && a[j].favorite;
            assert(has_kept(a, d));
            assert(has_kept(a, d) == has_kept(b, d));
            let k = choose|k: int| live(b, d, k);
        }
        if views(ib.favorite_ids@).contains(d) {
            let k = choose|k: int| live(b, d, k) && b[k].favorite;
            assert(has_kept(b, d));
            assert(has_kept(a, d) == has_kept(b, d));
            let j = choose|j: int| live(a, d, j);
        }
    }
    assert forall|id: Seq<char>| ia.spec_doc_ids().contains(id) == ib.spec_doc_ids().contains(id) by {
        assert(has_kept(a, id) == has_kept(b, id));
        assert(ia.spec_doc_ids().contains(id) == views(ia.doc_ids@).contains(id));
        assert(ib.spec_doc_ids().contains(id) == views(ib.doc_ids@).contains(id));
    }
    assert forall|q: QueryView, id: Seq<char>| candidate(ia, q, id) == candidate(ib, q, id) by {
        assert forall|tok: Seq<char>| token_hit(ia, tok, id) == token_hit(ib, tok, id) by {
            assert(direct_hit(ia, tok, id) == direct_hit(ib, tok, id));
            assert(fuzzy_hit(ia, tok, id) == fuzzy_hit(ib, tok, id));
        }
        assert forall|g: Seq<Seq<char>>| group_hit(ia, g, id) == group_hit(ib, g, id) by {
            if group_hit(ia, g, id) {
                let x = choose|x: int| 0 <= x < g.len() && token_hit(ia, g[x], id);
                assert(token_hit(ib, g[x], id));
            }
            if group_hit(ib, g, id) {
                let x = choose|x: int| 0 <= x < g.len() && token_hit(ib, g[x], id);
                assert(token_hit(ia, g[x], id));
            }
        }
        assert forall|needle: Seq<char>| tag_hit(ia, id, needle) == tag_hit(ib, id, needle) by {}
    }
}


/// The item kept for `id`: the last one with that id, if any.
pub open spec fn kept(items: Seq<ItemView>, id: Seq<char>) -> Option<ItemView> {
    if has_kept(items, id) {
        Some(items[choose|j: int| live(items, id, j)])
    } else {
        None
    }
}

/// Appending an item makes it the kept item of its id and leaves the others.
pub proof fn lemma_kept_push(s: Seq<ItemView>, x: ItemView, d: Seq<char>)
    ensures
        kept(s.push(x), d) == if x.id == d { Some(x) } else { kept(s, d) },
{
    let t = s.push(x);
    assert forall|k: int| 0 <= k < s.len() implies #[trigger] t[k] == s[k] by {}
    if x.id == d {
        assert(live(t, d, s.len() as int));
        let j = choose|j: int| live(t, d, j);
        lemma_live_unique(t, d, j, s.len() as int);
    } else {
        assert forall|j: int| live(t, d, j) <==> live(s, d, j) by {
            if live(s, d, j) {
                assert forall|k: int| j < k < t.len() implies t[k].id != t[j].id by {
                    if k < s.len() {
                        assert(t[k] == s[k]);
                    }
                }
            }
            if live(t, d, j) {
                assert(j != s.len());
                assert forall|k: int| j < k < s.len() implies s[k].id != s[j].id by {
                    assert(t[k] == s[k]);
                }
            }
        }
        if has_kept(s, d) {
            let j1 = choose|j: int| live(t, d, j);
            let j2 = choose|j: int| live(s, d, j);
            lemma_live_unique(s, d, j1, j2);
        }
    }
}

/// The items without those whose id is `id`, the rest in order.
pub open spec fn without_id(items: Seq<ItemView>, id: Seq<char>) -> Seq<ItemView>
    decreases items.len(),
{
    if items.len() == 0 {
        items
    } else {
        let r = without_id(items.drop_last(), id);
        if items.last().id == id {
            r
        } else {
            r.push(items.last())
        }
    }
}

/// Dropping the items of one id keeps every other id's item.
pub proof fn lemma_kept_without_id(items: Seq<ItemView>, id: Seq<char>, d: Seq<char>)
    ensures
        kept(without_id(items, id), d) == if d == id { None } else { kept(items, d) },
    decreases items.len(),
{
    if items.len() == 0 {
        assert(!has_kept(items, d));
    } else {
        let s = items.drop_last();
        let x = items.last();
        assert(s.push(x) =~= items);
        lemma_kept_without_id(s, id, d);
        lemma_kept_push(s, x, d);
        if x.id != id {
            lemma_kept_push(without_id(s, id), x, d);
        }
    }
}

/// Each id's last item, in order of those last occurrences.
pub open spec fn last_only(items: Seq<ItemView>) -> Seq<ItemView>
    decreases items.len(),
{
    if items.len() == 0 {
        items
    } else {
        without_id(last_only(items.drop_last()), items.last().id).push(items.last())
    }
}

/// Keeping only each id's last item keeps every id's item.
pub proof fn lemma_kept_last_only(items: Seq<ItemView>, d: Seq<char>)
    ensures
        kept(last_only(items), d) == kept(items, d),
    decreases items.len(),
{
    if items.len() == 0 {
    } else {
        let s = items.drop_last();
        let x = items.last();
        assert(s.push(x) =~= items);
        lemma_kept_last_only(s, d);
        lemma_kept_push(s, x, d);
        lemma_kept_push(without_id(last_only(s), x.id), x, d);
        lemma_kept_without_id(last_only(s), x.id, d);
    }
}

/// Indexes whose item lists keep the same item for `d` hold `d` alike and
/// give it the same answer to every query.
pub proof fn lemma_same_kept_same_answers(ia: InvertedIndex, a: Seq<ItemView>, ib: InvertedIndex, b: Seq<ItemView>, d: Seq<char>)
    requires
        indexes(ia, a),
        indexes(ib, b),
        kept(a, d) == kept(b, d),
    ensures
        ia.spec_doc_ids().contains(d) == ib.spec_doc_ids().contains(d),
        forall|q: QueryView| candidate(ia, q, d) == candidate(ib, q, d),
{
    assert(has_kept(a, d) == has_kept(b, d));
    assert forall|j: int, k: int| live(a, d, j) && live(b, d, k) implies a[j] == b[k] by {
        let ja = choose|j: int| live(a, d, j);
        let kb = choose|k: int| live(b, d, k);
        lemma_live_unique(a, d, j, ja);
        lemma_live_unique(b, d, k, kb);
    }
    assert forall|t: Seq<char>| ia.has_term(t, d) == ib.has_term(t, d) by {
        if posted(ia.postings@, t, d) {
            let j = choose|j: int| live(a, d, j) && item_term(a[j], t);
            let k = choose|k: int| live(b, d, k);
        }
        if posted(ib.postings@, t, d) {
            let k = choose|k: int| live(b, d, k) && item_term(b[k], t);
            let j = choose|j: int| live(a, d, j);
        }
    }
    assert forall|t: Seq<char>| ia.has_tag_key(t, d) == ib.has_tag_key(t, d) by {
        if posted(ia.tag_postings@, t, d) {
            let j = choose|j: int| live(a, d, j) && item_tag_key(a[j], t);
            let k = choose|k: int| live(b, d, k);
        }
        if posted(ib.tag_postings@, t, d) {
            let k = choose|k: int| live(b, d, k) && item_tag_key(b[k], t);
            let j = choose|j: int| live(a, d, j);
        }
    }
    assert forall|t: Seq<char>| ia.has_ext_key(t, d) == ib.has_ext_key(t, d) by {
        if posted(ia.ext_postings@, t, d) {
            let j = choose|j: int| live(a, d, j) && item_ext_key(a[j], t);
            let k = choose|k: int| live(b, d, k);
        }
        if posted(ib.ext_postings@, t, d) {
            let k = choose|k: int| live(b, d, k) && item_ext_key(b[k], t);
            let j = choose|j: int| live(a, d, j);
        }
    }
    if views(ia.favorite_ids@).contains(d) {
        let j = choose|j: int| live(a, d, j) && a[j].favorite;
        let k = choose|k: int| live(b, d, k);
    }
    if views(ib.favorite_ids@).contains(d) {
        let k = choose|k: int| live(b, d, k) && b[k].favorite;
        let j = choose|j: int| live(a, d, j);
    }
    assert(ia.is_favorite_id(d) == ib.is_favorite_id(d));
    assert(ia.spec_doc_ids().contains(d) == views(ia.doc_ids@).contains(d));
    assert(ib.spec_doc_ids().contains(d) == views(ib.doc_ids@).contains(d));
    assert forall|q: QueryView| candidate(ia, q, d) == candidate(ib, q, d) by {
        assert forall|tok: Seq<char>| token_hit(ia, tok, d) == token_hit(ib, tok, d) by {
            if direct_hit(ia, tok, d) {
                let t = choose|t: Seq<char>| ia.has_term(t, d) && related(t, tok);
                assert(ib.has_term(t, d));
            }
            if direct_hit(ib, tok, d) {
                let t = choose|t: Seq<char>| ib.has_term(t, d) && related(t, tok);
                assert(ia.has_term(t, d));
            }
            if fuzzy_hit(ia, tok, d) {
                let t = choose|t: Seq<char>| ia.has_term(t, d) && close_enough(pair_similarity(t, tok));
                assert(ib.has_term(t, d));
            }
            if fuzzy_hit(ib, tok, d) {
                let t = choose|t: Seq<char>| ib.has_term(t, d) && close_enough(pair_similarity(t, tok));
                assert(ia.has_term(t, d));
            }
        }
        assert forall|g: Seq<Seq<char>>| group_hit(ia, g, d) == group_hit(ib, g, d) by {
            if group_hit(ia, g, d) {
                let x = choose|x: int| 0 <= x < g.len() && token_hit(ia, g[x], d);
                assert(token_hit(ib, g[x], d));
            }
            if group_hit(ib, g, d) {
                let x = choose|x: int| 0 <= x < g.len() && token_hit(ib, g[x], d);
                assert(token_hit(ia, g[x], d));
            }
        }
        assert forall|needle: Seq<char>| tag_hit(ia, d, needle) == tag_hit(ib, d, needle) by {
            if tag_hit(ia, d, needle) {
                let k = choose|k: Seq<char>| ia.has_tag_key(k, d) && contains_seq(k, needle);
                assert(ib.has_tag_key(k, d));
            }
            if tag_hit(ib, d, needle) {
                let k = choose|k: Seq<char>| ib.has_tag_key(k, d) && contains_seq(k, needle);
                assert(ia.has_tag_key(k, d));
            }
        }
        assert forall|e: Seq<char>| ia.has_ext_key(e, d) == ib.has_ext_key(e, d) by {}
    }
}

/// The ids of the items, in order.
pub open spec fn item_ids(s: Seq<ItemView>) -> Seq<Seq<char>> {
    s.map_values(|x: ItemView| x.id)
}

proof fn lemma_ids_without_id(s: Seq<ItemView>, id: Seq<char>)
    ensures
        item_ids(without_id(s, id)) == dropped(item_ids(s), id),
    decreases s.len(),
{
    if s.len() > 0 {
        lemma_ids_without_id(s.drop_last(), id);
        assert(item_ids(s.drop_last()) =~= item_ids(s).drop_last());
        let w = without_id(s.drop_last(), id);
        assert(item_ids(w.push(s.last())) =~= item_ids(w).push(s.last().id));
    }
}

/// Document order of a build: every id that occurs among the items, once,
/// in the order of each id's last occurrence (the order of `last_only`).
pub proof fn lemma_doc_order(items: Seq<ItemView>)
    ensures
        doc_order(items) == item_ids(last_only(items)),
        doc_order(items).no_duplicates(),
        forall|d: Seq<char>|
            #[trigger] doc_order(items).contains(d) <==> exists|j: int|
                0 <= j < items.len() && items[j].id == d,
    decreases items.len(),
{
    broadcast use vstd::seq_lib::lemma_seq_contains_after_push;

    if items.len() > 0 {
        let init = items.drop_last();
        let e = items.last().id;
        lemma_doc_order(init);
        lemma_ids_without_id(last_only(init), e);
        let w = without_id(last_only(init), e);
        assert(item_ids(w.push(items.last())) =~= item_ids(w).push(e));
        let r = dropped(doc_order(init), e);
        lemma_dropped_facts(doc_order(init), e);
        assert forall|i: int, j: int| 0 <= i < j < r.push(e).len() implies r.push(e)[i] != r.push(e)[j] by {
            if j == r.len() {
                assert(r.contains(r[i]));
            } else {
                assert(r.push(e)[i] == r[i] && r.push(e)[j] == r[j]);
            }
        }
        assert forall|d: Seq<char>|
            #[trigger] doc_order(items).contains(d) <==> exists|j: int|
                0 <= j < items.len() && items[j].id == d by {
            if exists|j: int| 0 <= j < items.len() && items[j].id == d {
                let j = choose|j: int| 0 <= j < items.len() && items[j].id == d;
                if j < init.len() {
                    assert(init[j].id == d);
                }
            }
            if doc_order(init).contains(d) {
                let j = choose|j: int| 0 <= j < init.len() && init[j].id == d;
                assert(items[j].id == d);
            }
            assert(items[items.len() - 1].id == e);
        }
    }
}

/// Document order of a build follows last occurrences: of two listed ids,
/// the one listed first has its last item earlier among the items.
pub proof fn lemma_doc_order_by_last(items: Seq<ItemView>)
    ensures
        forall|x: int, y: int, j: int, k: int|
            0 <= x < y < doc_order(items).len() && #[trigger] live(items, doc_order(items)[x], j)
                && #[trigger] live(items, doc_order(items)[y], k) ==> j < k,
    decreases items.len(),
{
    if items.len() > 0 {
        let init = items.drop_last();
        let e = items.last().id;
        let d0 = doc_order(init);
        let r = dropped(d0, e);
        let t = doc_order(items);
        lemma_doc_order_by_last(init);
        lemma_dropped_order(d0, e);
        lemma_dropped_facts(d0, e);
        assert(items[items.len() - 1].id == e);
        assert forall|x: int, y: int, j: int, k: int|
            0 <= x < y < t.len() && #[trigger] live(items, t[x], j) && #[trigger] live(items, t[y], k)
                implies j < k by {
            assert(t[x] == r[x]);
            assert(r.contains(r[x]));
            assert(r[x] != e);
            assert(j != items.len() - 1);
            if y == t.len() - 1 {
                assert(t[y] == e);
                assert(k == items.len() - 1);
            } else {
                assert(t[y] == r[y]);
                assert(r.contains(r[y]));
                assert(r[y] != e);
                assert(k != items.len() - 1);
                assert(crate::sets::occurs_before(d0, r[x], r[y]));
                let (a, b) = choose|a: int, b: int| 0 <= a < b < d0.len() && d0[a] == r[x] && d0[b] == r[y];
                assert(live(init, d0[a], j));
                assert(live(init, d0[b], k));
            }
        }
    }
}

/// Dropping an id's items before a build gives the document order of the
/// full build without that id.
pub proof fn lemma_doc_order_without_id(items: Seq<ItemView>, id: Seq<char>)
    ensures
        doc_order(without_id(items, id)) == dropped(doc_order(items), id),
    decreases items.len(),
{
    if items.len() > 0 {
        let init = items.drop_last();
        let e = items.last().id;
        lemma_doc_order_without_id(init, id);
        let d0 = doc_order(init);
        lemma_dropped_facts(dropped(d0, id), id);
        lemma_dropped_facts(d0, id);
        if e == id {
            lemma_dropped_absent(dropped(d0, id), id);
            assert(without_id(items, id) == without_id(init, id));
            assert(doc_order(items) == dropped(d0, id).push(id));
            assert(dropped(d0, id).push(id).drop_last() =~= dropped(d0, id));
            assert(dropped(doc_order(items), id) == dropped(dropped(d0, id), id));
        } else {
            let w = without_id(init, id);
            assert(without_id(items, id) == w.push(items.last()));
            assert(w.push(items.last()).drop_last() =~= w);
            assert(doc_order(w.push(items.last())) == dropped(doc_order(w), e).push(e));
            lemma_dropped_commute(d0, id, e);
            assert(dropped(d0, e).push(e).drop_last() =~= dropped(d0, e));
            assert(dropped(doc_order(items), id) == dropped(dropped(d0, e), id).push(e));
        }
    }
}

/// A build answers as a build of each id's last item only: the same
/// documents and the same candidates for every query.
pub proof fn lemma_build_answers_as_last_only(ia: InvertedIndex, ib: InvertedIndex, items: Seq<ItemView>)
    requires
        indexes(ia, items),
        indexes(ib, last_only(items)),
    ensures
        forall|d: Seq<char>| ia.spec_doc_ids().contains(d) == ib.spec_doc_ids().contains(d),
        forall|q: QueryView, d: Seq<char>| candidate(ia, q, d) == candidate(ib, q, d),
{
    assert forall|d: Seq<char>| ia.spec_doc_ids().contains(d) == ib.spec_doc_ids().contains(d) by {
        lemma_kept_last_only(items, d);
        lemma_same_kept_same_answers(ia, items, ib, last_only(items), d);
    }
    assert forall|q: QueryView, d: Seq<char>| candidate(ia, q, d) == candidate(ib, q, d) by {
        lemma_kept_last_only(items, d);
        lemma_same_kept_same_answers(ia, items, ib, last_only(items), d);
    }
}

/// Removing a document answers as a fresh build without that id's items:
/// the same documents, the same candidates for every text query, and the
/// same answer for every query on every document that is left, and (with
/// the document orders that `build` and `remove` give) the same order.
pub proof fn lemma_remove_answers_as_rebuild(
    before: InvertedIndex,
    after: InvertedIndex,
    fresh: InvertedIndex,
    items: Seq<ItemView>,
    id: Seq<char>,
)
    requires
        indexes(before, items),
        indexes(fresh, without_id(items, id)),
        forall|t: Seq<char>, x: Seq<char>|
            #[trigger] after.has_term(t, x) <==> (before.has_term(t, x) && x != id),
        forall|t: Seq<char>, x: Seq<char>|
            #[trigger] after.has_tag_key(t, x) <==> (before.has_tag_key(t, x) && x != id),
        forall|t: Seq<char>, x: Seq<char>|
            #[trigger] after.has_ext_key(t, x) <==> (before.has_ext_key(t, x) && x != id),
        forall|x: Seq<char>| #[trigger] after.is_favorite_id(x) <==> (before.is_favorite_id(x) && x != id),
        forall|x: Seq<char>|
            #[trigger] after.spec_doc_ids().contains(x) <==> (before.spec_doc_ids().contains(x) && x != id),
    ensures
        forall|d: Seq<char>| after.spec_doc_ids().contains(d) == fresh.spec_doc_ids().contains(d),
        forall|q: QueryView, d: Seq<char>|
            (has_text(q) || after.spec_doc_ids().contains(d)) ==> candidate(after, q, d) == candidate(
                fresh,
                q,
                d,
            ),
        (before.spec_doc_ids() == doc_order(items) && after.spec_doc_ids() == dropped(
            before.spec_doc_ids(),
            id,
        ) && fresh.spec_doc_ids() == doc_order(without_id(items, id))) ==> after.spec_doc_ids()
            == fresh.spec_doc_ids(),
{
    lemma_doc_order_without_id(items, id);
    assert forall|d: Seq<char>| after.spec_doc_ids().contains(d) == fresh.spec_doc_ids().contains(d) by {
        lemma_kept_without_id(items, id, d);
        if d == id {
            assert(!has_kept(without_id(items, id), d));
            assert(fresh.spec_doc_ids().contains(d) == views(fresh.doc_ids@).contains(d));
        } else {
            lemma_same_kept_same_answers(before, items, fresh, without_id(items, id), d);
        }
    }
    assert forall|q: QueryView, d: Seq<char>|
        (has_text(q) || after.spec_doc_ids().contains(d)) implies candidate(after, q, d) == candidate(
            fresh,
            q,
            d,
        ) by {
        lemma_remove_keeps_other_candidates(before, after, id, q, d);
        lemma_kept_without_id(items, id, d);
        if d == id {
            if has_text(q) && candidate(fresh, q, d) {
                lemma_candidates_are_documents(fresh, without_id(items, id), q, d);
                assert(views(fresh.doc_ids@).contains(d));
                assert(has_kept(without_id(items, id), d));
            }
        } else {
            lemma_same_kept_same_answers(before, items, fresh, without_id(items, id), d);
        }
    }
}

} // verus!
