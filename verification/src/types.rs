//! Public types for the search engine.
use vstd::prelude::*;

use crate::text::{copy_string, copy_strings, views};

verus! {

/// Fields required to rank/filter a meme.
#[derive(Debug, Clone)]
pub struct Searchable {
    /// Stable document id used by the inverted index.
    pub id: String,
    pub name: String,
    pub tags: Vec<String>,
    /// Optional short names / triggers included in scoring.
    pub aliases: Vec<String>,
    pub extension: String,
    pub favorite: bool,
    pub use_count: u64,
    pub last_used_at: Option<String>,
}

/// What search reads of an item, as mathematical values.
pub struct ItemView {
    pub id: Seq<char>,
    pub name: Seq<char>,
    pub tags: Seq<Seq<char>>,
    pub aliases: Seq<Seq<char>>,
    pub extension: Seq<char>,
    pub favorite: bool,
    pub use_count: u64,
    pub last_used_at: Option<Seq<char>>,
}

pub open spec fn opt_view(o: Option<String>) -> Option<Seq<char>> {
    match o {
        Some(s) => Some(s@),
        None => None,
    }
}

impl View for Searchable {
    type V = ItemView;

    open spec fn view(&self) -> ItemView {
        ItemView {
            id: self.id@,
            name: self.name@,
            tags: views(self.tags@),
            aliases: views(self.aliases@),
            extension: self.extension@,
            favorite: self.favorite,
            use_count: self.use_count,
            last_used_at: opt_view(self.last_used_at),
        }
    }
}

/// The views of a sequence of items.
pub open spec fn item_views(items: Seq<Searchable>) -> Seq<ItemView> {
    items.map_values(|m: Searchable| m@)
}

/// Copy of an optional string.
pub fn copy_opt_string(o: &Option<String>) -> (r: Option<String>)
    ensures
        opt_view(r) == opt_view(*o),
{
    match o {
        Some(s) => Some(copy_string(s)),
        None => None,
    }
}

impl Searchable {
    /// Stable document id used by the inverted index.
    pub fn id(&self) -> (r: &str)
        ensures
            r@ == self.id@,
    {
        self.id.as_str()
    }

    pub fn name(&self) -> (r: &str)
        ensures
            r@ == self.name@,
    {
        self.name.as_str()
    }

    pub fn tags(&self) -> (r: &Vec<String>)
        ensures
            views(r@) == self@.tags,
    {
        &self.tags
    }

    /// Optional short names / triggers included in scoring.
    pub fn aliases(&self) -> (r: &Vec<String>)
        ensures
            views(r@) == self@.aliases,
    {
        &self.aliases
    }

    pub fn extension(&self) -> (r: &str)
        ensures
            r@ == self.extension@,
    {
        self.extension.as_str()
    }

    pub fn favorite(&self) -> (r: bool)
        ensures
            r == self.favorite,
    {
        self.favorite
    }

    pub fn use_count(&self) -> (r: u64)
        ensures
            r == self.use_count,
    {
        self.use_count
    }

    pub fn last_used_at(&self) -> (r: Option<String>)
        ensures
            opt_view(r) == self@.last_used_at,
    {
        copy_opt_string(&self.last_used_at)
    }

    /// A field-for-field copy.
    pub fn duplicate(&self) -> (r: Searchable)
        ensures
            r@ == self@,
    {
        Searchable {
            id: copy_string(&self.id),
            name: copy_string(&self.name),
            tags: copy_strings(&self.tags),
            aliases: copy_strings(&self.aliases),
            extension: copy_string(&self.extension),
            favorite: self.favorite,
            use_count: self.use_count,
            last_used_at: copy_opt_string(&self.last_used_at),
        }
    }
}

/// Timing / fan-out stats for one ranked search.
#[derive(Debug, Clone, Copy, Default, PartialEq, Eq)]
pub struct SearchMetrics {
    /// Total items in the library slice passed to rank.
    pub library_size: usize,
    /// Items selected by the inverted index (or full library on browse / fallback).
    pub candidates: usize,
    /// Items actually scored.
    pub scanned: usize,
    /// Hits that passed filters/min_score before pagination.
    pub matched: usize,
    /// Hits returned after offset/limit.
    pub returned: usize,
    /// Wall time in milliseconds.
    pub ms: u64,
    /// True when candidate retrieval used the inverted index (text query).
    pub used_index: bool,
}

/// Character range on a matched field (for UI underline).
#[derive(Debug, Clone)]
pub struct MatchSpan {
    /// `name`, `alias`, or `tag:<value>`
    pub field: String,
    pub start: usize,
    pub end: usize,
}

/// Post-filter ordering of hits.
#[derive(Debug, Clone, Copy, PartialEq, Eq, Structural)]
pub enum SearchSort {
    Relevance,
    Recent,
    Name,
}

impl Default for SearchSort {
    fn default() -> (r: Self)
        ensures
            r == SearchSort::Relevance,
    {
        SearchSort::Relevance
    }
}

/// AND of OR-groups: every group must match; within a group any alternative may match.
#[derive(Debug, Clone)]
pub struct ParsedQuery {
    pub must_groups: Vec<Vec<String>>,
    pub excluded_tokens: Vec<String>,
    pub tag_filters: Vec<String>,
    pub excluded_tags: Vec<String>,
    pub extensions: Vec<String>,
    pub favorites_only: bool,
}

/// A parsed query as mathematical values.
pub struct QueryView {
    pub must_groups: Seq<Seq<Seq<char>>>,
    pub excluded_tokens: Seq<Seq<char>>,
    pub tag_filters: Seq<Seq<char>>,
    pub excluded_tags: Seq<Seq<char>>,
    pub extensions: Seq<Seq<char>>,
    pub favorites_only: bool,
}

pub open spec fn group_views(g: Seq<Vec<String>>) -> Seq<Seq<Seq<char>>> {
    g.map_values(|v: Vec<String>| views(v@))
}

impl View for ParsedQuery {
    type V = QueryView;

    open spec fn view(&self) -> QueryView {
        QueryView {
            must_groups: group_views(self.must_groups@),
            excluded_tokens: views(self.excluded_tokens@),
            tag_filters: views(self.tag_filters@),
            excluded_tags: views(self.excluded_tags@),
            extensions: views(self.extensions@),
            favorites_only: self.favorites_only,
        }
    }
}

/// The query with nothing in it.
pub open spec fn empty_query() -> QueryView {
    QueryView {
        must_groups: Seq::empty(),
        excluded_tokens: Seq::empty(),
        tag_filters: Seq::empty(),
        excluded_tags: Seq::empty(),
        extensions: Seq::empty(),
        favorites_only: false,
    }
}

/// Some group has at least one alternative.
pub open spec fn has_text(q: QueryView) -> bool {
    exists|i: int| 0 <= i < q.must_groups.len() && #[trigger] q.must_groups[i].len() > 0
}

/// A text token joins the last group (OR) or opens a new one (AND).
pub open spec fn with_text(q: QueryView, v: Seq<char>, or_with_previous: bool) -> QueryView {
    if or_with_previous && q.must_groups.len() > 0 {
        QueryView {
            must_groups: q.must_groups.update(
                q.must_groups.len() - 1,
                q.must_groups.last().push(v),
            ),
            ..q
        }
    } else {
        QueryView { must_groups: q.must_groups.push(seq![v]), ..q }
    }
}

/// Adding a text token: OR'ed onto an existing group it goes to the end of
/// the most recent group, the other groups unchanged; otherwise it opens a
/// new group of its own after the others. Nothing else changes.
pub proof fn lemma_with_text(q: QueryView, v: Seq<char>, or_with_previous: bool)
    ensures
        with_text(q, v, or_with_previous) == (QueryView {
            must_groups: with_text(q, v, or_with_previous).must_groups,
            ..q
        }),
        or_with_previous && q.must_groups.len() > 0 ==> {
            let r = with_text(q, v, or_with_previous).must_groups;
            &&& r.len() == q.must_groups.len()
            &&& forall|i: int| 0 <= i < q.must_groups.len() - 1 ==> r[i] == q.must_groups[i]
            &&& r[q.must_groups.len() - 1] == q.must_groups[q.must_groups.len() - 1].push(v)
        },
        !(or_with_previous && q.must_groups.len() > 0) ==> {
            let r = with_text(q, v, or_with_previous).must_groups;
            &&& r.len() == q.must_groups.len() + 1
            &&& forall|i: int| 0 <= i < q.must_groups.len() ==> r[i] == q.must_groups[i]
            &&& r[q.must_groups.len() as int] == seq![v]
        },
{
}

/// Number of leading `.` characters.
pub open spec fn lead_dots(s: Seq<char>) -> nat
    decreases s.len(),
{
    if s.len() > 0 && s[0] == '.' {
        1 + lead_dots(s.drop_first())
    } else {
        0
    }
}

/// `s` without its leading dots (`trim_start_matches('.')`).
pub open spec fn strip_dots(s: Seq<char>) -> Seq<char> {
    s.skip(lead_dots(s) as int)
}

pub proof fn lemma_lead_dots(s: Seq<char>)
    ensures
        lead_dots(s) <= s.len(),
        forall|i: int| 0 <= i < lead_dots(s) ==> #[trigger] s[i] == '.',
        lead_dots(s) < s.len() ==> s[lead_dots(s) as int] != '.',
    decreases s.len(),
{
    if s.len() > 0 && s[0] == '.' {
        lemma_lead_dots(s.drop_first());
        assert forall|i: int| 0 <= i < lead_dots(s) implies #[trigger] s[i] == '.' by {
            if i > 0 {
                assert(s[i] == s.drop_first()[i - 1]);
            }
        }
        if lead_dots(s) < s.len() {
            assert(s[lead_dots(s) as int] == s.drop_first()[lead_dots(s.drop_first()) as int]);
        }
    }
}

impl ParsedQuery {
    /// An empty query.
    pub fn new() -> (r: ParsedQuery)
        ensures
            r@ == empty_query(),
    {
        let r = ParsedQuery {
            must_groups: Vec::new(),
            excluded_tokens: Vec::new(),
            tag_filters: Vec::new(),
            excluded_tags: Vec::new(),
            extensions: Vec::new(),
            favorites_only: false,
        };
        assert(r@.must_groups =~= Seq::empty());
        assert(r@.excluded_tokens =~= Seq::empty());
        assert(r@.tag_filters =~= Seq::empty());
        assert(r@.excluded_tags =~= Seq::empty());
        assert(r@.extensions =~= Seq::empty());
        r
    }

    /// True when some group holds an alternative (text mode rather than browse mode).
    pub fn has_text_tokens(&self) -> (r: bool)
        ensures
            r == has_text(self@),
    {
        let mut i: usize = 0;
        while i < self.must_groups.len()
            invariant
                i <= self.must_groups.len(),
                forall|j: int| 0 <= j < i ==> #[trigger] self@.must_groups[j].len() == 0,
            decreases self.must_groups.len() - i,
        {
            if self.must_groups[i].len() > 0 {
                assert(self@.must_groups[i as int].len() > 0);
                return true;
            }
            assert(self@.must_groups[i as int] == views(self.must_groups@[i as int]@));
            i = i + 1;
        }
        false
    }

    /// Add a text alternative, either to the last group or as a new group.
    pub fn push_text(&mut self, value: String, or_with_previous: bool)
        ensures
            final(self)@ == with_text(old(self)@, value@, or_with_previous),
            final(self)@ == (QueryView { must_groups: final(self)@.must_groups, ..old(self)@ }),
            or_with_previous && old(self)@.must_groups.len() > 0 ==> {
                let n = old(self)@.must_groups.len();
                &&& final(self)@.must_groups.len() == n
                &&& forall|i: int| 0 <= i < n - 1 ==> final(self)@.must_groups[i] == old(self)@.must_groups[i]
                &&& final(self)@.must_groups[n - 1] == old(self)@.must_groups[n - 1].push(value@)
            },
            !(or_with_previous && old(self)@.must_groups.len() > 0) ==> {
                let n = old(self)@.must_groups.len();
                &&& final(self)@.must_groups.len() == n + 1
                &&& forall|i: int| 0 <= i < n ==> final(self)@.must_groups[i] == old(self)@.must_groups[i]
                &&& final(self)@.must_groups[n as int] == seq![value@]
            },
    {
        let ghost q = self@;
        if or_with_previous && self.must_groups.len() > 0 {
            let mut last = self.must_groups.pop().unwrap();
            let ghost lv = views(last@);
            last.push(value);
            assert(views(last@) =~= lv.push(value@));
            self.must_groups.push(last);
            assert(self@.must_groups =~= q.must_groups.update(
                q.must_groups.len() - 1,
                q.must_groups.last().push(value@),
            ));
        } else {
            let mut g: Vec<String> = Vec::new();
            g.push(value);
            assert(views(g@) =~= seq![value@]);
            self.must_groups.push(g);
            assert(self@.must_groups =~= q.must_groups.push(seq![value@]));
        }
    }

    /// Add a token that must not match.
    pub fn push_excluded_token(&mut self, value: String)
        ensures
            final(self)@ == (QueryView {
                excluded_tokens: old(self)@.excluded_tokens.push(value@),
                ..old(self)@
            }),
    {
        let ghost q = self@;
        self.excluded_tokens.push(value);
        assert(self@.excluded_tokens =~= q.excluded_tokens.push(value@));
    }

    /// Require a tag.
    pub fn push_tag(&mut self, value: String)
        ensures
            final(self)@ == (QueryView { tag_filters: old(self)@.tag_filters.push(value@), ..old(self)@ }),
    {
        let ghost q = self@;
        self.tag_filters.push(value);
        assert(self@.tag_filters =~= q.tag_filters.push(value@));
    }

    /// Exclude a tag.
    pub fn push_excluded_tag(&mut self, value: String)
        ensures
            final(self)@ == (QueryView {
                excluded_tags: old(self)@.excluded_tags.push(value@),
                ..old(self)@
            }),
    {
        let ghost q = self@;
        self.excluded_tags.push(value);
        assert(self@.excluded_tags =~= q.excluded_tags.push(value@));
    }

    /// Require an extension (leading dots dropped).
    pub fn push_ext(&mut self, value: String)
        ensures
            final(self)@ == (QueryView {
                extensions: old(self)@.extensions.push(strip_dots(value@)),
                ..old(self)@
            }),
    {
        let ghost q = self@;
        let chars = crate::text::chars_of(value.as_str());
        let mut k: usize = 0;
        proof {
            lemma_lead_dots(value@);
        }
        while k < chars.len() && chars[k] == '.'
            invariant
                chars@ == value@,
                k <= chars.len(),
                k <= lead_dots(value@),
                lead_dots(value@) <= value@.len(),
                forall|i: int| 0 <= i < lead_dots(value@) ==> #[trigger] value@[i] == '.',
                lead_dots(value@) < value@.len() ==> value@[lead_dots(value@) as int] != '.',
            decreases chars.len() - k,
        {
            k = k + 1;
        }
        let rest = crate::text::slice_chars(&chars, k, chars.len());
        assert(rest@ =~= strip_dots(value@));
        self.extensions.push(crate::text::string_of(&rest));
        assert(self@.extensions =~= q.extensions.push(strip_dots(value@)));
    }

    /// Keep favorites only.
    pub fn set_favorites_only(&mut self)
        ensures
            final(self)@ == (QueryView { favorites_only: true, ..old(self)@ }),
    {
        self.favorites_only = true;
    }

    /// A copy with the same view.
    pub fn duplicate(&self) -> (r: ParsedQuery)
        ensures
            r@ == self@,
    {
        let mut groups: Vec<Vec<String>> = Vec::new();
        let mut i: usize = 0;
        while i < self.must_groups.len()
            invariant
                i <= self.must_groups.len(),
                groups@.len() == i,
                group_views(groups@) == group_views(self.must_groups@).take(i as int),
            decreases self.must_groups.len() - i,
        {
            let ghost prev = groups@;
            groups.push(copy_strings(&self.must_groups[i]));
            proof {
                assert forall|j: int| 0 <= j < i + 1 implies group_views(groups@)[j]
                    == group_views(self.must_groups@)[j] by {
                    if j < i {
                        assert(groups@[j] == prev[j]);
                        assert(group_views(prev)[j] == group_views(self.must_groups@).take(
                            i as int,
                        )[j]);
                    }
                }
            }
            i = i + 1;
            assert(group_views(groups@) =~= group_views(self.must_groups@).take(i as int));
        }
        assert(group_views(self.must_groups@).take(i as int) =~= group_views(self.must_groups@));
        ParsedQuery {
            must_groups: groups,
            excluded_tokens: copy_strings(&self.excluded_tokens),
            tag_filters: copy_strings(&self.tag_filters),
            excluded_tags: copy_strings(&self.excluded_tags),
            extensions: copy_strings(&self.extensions),
            favorites_only: self.favorites_only,
        }
    }
}

} // verus!
