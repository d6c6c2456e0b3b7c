//! Local synonym / typo expansion map.
use vstd::prelude::*;

use crate::sets::vec_has;
use crate::text::{chars_of, copy_string, copy_strings, trim_chars, trimmed, lemma_views_push, lowercase, str_to_lowercase, string_is_empty, views};
use crate::engine::{is_hit, token_matches};
use crate::types::{group_views, ItemView, ParsedQuery, QueryView};

verus! {

/// An entry as values.
pub open spec fn entry_view(e: (String, Vec<String>)) -> (Seq<char>, Seq<Seq<char>>) {
    (e.0@, views(e.1@))
}

pub open spec fn entry_views(m: Seq<(String, Vec<String>)>) -> Seq<(Seq<char>, Seq<Seq<char>>)> {
    m.map_values(|e: (String, Vec<String>)| entry_view(e))
}

/// Maps a canonical (or typed) token → alternate spellings.
/// Keys and values are matched case-insensitively after fold.
#[derive(Debug, Clone)]
pub struct SynonymMap {
    map: Vec<(String, Vec<String>)>,
}

/// The folded alternates of one key: lower-cased, dropping empty ones and the
/// key itself.
pub open spec fn clean_alts(vs: Seq<Seq<char>>, key: Seq<char>) -> Seq<Seq<char>>
    decreases vs.len(),
{
    if vs.len() == 0 {
        Seq::empty()
    } else {
        let r = clean_alts(vs.drop_last(), key);
        let v = lowercase(vs.last());
        if v.len() > 0 && v != key {
            r.push(v)
        } else {
            r
        }
    }
}

/// The cleaned alternates of a key are the lower-cased values, in order,
/// without the empty ones and without the key itself: each one comes from a
/// value, and each value that folds to neither is among them.
pub proof fn lemma_clean_alts(vs: Seq<Seq<char>>, key: Seq<char>)
    ensures
        forall|x: Seq<char>| #[trigger] clean_alts(vs, key).contains(x) ==> x.len() > 0 && x != key
            && exists|j: int| 0 <= j < vs.len() && lowercase(vs[j]) == x,
        forall|j: int|
            0 <= j < vs.len() && lowercase(#[trigger] vs[j]).len() > 0 && lowercase(vs[j]) != key
                ==> clean_alts(vs, key).contains(lowercase(vs[j])),
    decreases vs.len(),
{
    broadcast use vstd::seq_lib::lemma_seq_contains_after_push;

    if vs.len() > 0 {
        let d = vs.drop_last();
        lemma_clean_alts(d, key);
        assert(vs[vs.len() - 1] == vs.last());
        assert forall|x: Seq<char>| #[trigger] clean_alts(vs, key).contains(x) implies x.len() > 0 && x != key
            && exists|j: int| 0 <= j < vs.len() && lowercase(vs[j]) == x by {
            if clean_alts(d, key).contains(x) {
                let j = choose|j: int| 0 <= j < d.len() && lowercase(d[j]) == x;
                assert(vs[j] == d[j]);
            }
        }
        assert forall|j: int|
            0 <= j < vs.len() && lowercase(#[trigger] vs[j]).len() > 0 && lowercase(vs[j]) != key
                implies clean_alts(vs, key).contains(lowercase(vs[j])) by {
            if j < d.len() {
                assert(d[j] == vs[j]);
            }
        }
    }
}

/// Position of `key` among the map's keys.
pub open spec fn key_pos(m: Seq<(Seq<char>, Seq<Seq<char>>)>, key: Seq<char>) -> Option<int>
    decreases m.len(),
{
    if m.len() == 0 {
        None
    } else if m.last().0 == key {
        Some(m.len() - 1)
    } else {
        key_pos(m.drop_last(), key)
    }
}

/// Set `key` to `alts`, in place when the key is present.
pub open spec fn map_insert(
    m: Seq<(Seq<char>, Seq<Seq<char>>)>,
    key: Seq<char>,
    alts: Seq<Seq<char>>,
) -> Seq<(Seq<char>, Seq<Seq<char>>)> {
    match key_pos(m, key) {
        Some(i) => m.update(i, (key, alts)),
        None => m.push((key, alts)),
    }
}

/// The map built from raw pairs: each key folded, its alternates cleaned,
/// and keys left without alternates skipped; a later key replaces an
/// earlier one with the same folded form.
pub open spec fn built_map(raw: Seq<(Seq<char>, Seq<Seq<char>>)>) -> Seq<(Seq<char>, Seq<Seq<char>>)>
    decreases raw.len(),
{
    if raw.len() == 0 {
        Seq::empty()
    } else {
        let m = built_map(raw.drop_last());
        let key = lowercase(raw.last().0);
        let alts = clean_alts(raw.last().1, key);
        if alts.len() > 0 {
            map_insert(m, key, alts)
        } else {
            m
        }
    }
}

/// Add `x` unless present.
pub open spec fn add_unique(e: Seq<Seq<char>>, x: Seq<char>) -> Seq<Seq<char>> {
    if e.contains(x) {
        e
    } else {
        e.push(x)
    }
}

/// Add each of `xs` unless present, in order.
pub open spec fn add_all(e: Seq<Seq<char>>, xs: Seq<Seq<char>>) -> Seq<Seq<char>>
    decreases xs.len(),
{
    if xs.len() == 0 {
        e
    } else {
        add_unique(add_all(e, xs.drop_last()), xs.last())
    }
}

/// Alternates of `tok` (empty when it is not a key).
pub open spec fn alts_of(m: Seq<(Seq<char>, Seq<Seq<char>>)>, tok: Seq<char>) -> Seq<Seq<char>> {
    match key_pos(m, tok) {
        Some(i) => m[i].1,
        None => Seq::empty(),
    }
}

/// Keys, in map order, whose alternates include `tok`.
pub open spec fn keys_with_alt(m: Seq<(Seq<char>, Seq<Seq<char>>)>, tok: Seq<char>) -> Seq<Seq<char>>
    decreases m.len(),
{
    if m.len() == 0 {
        Seq::empty()
    } else {
        let r = keys_with_alt(m.drop_last(), tok);
        if m.last().1.contains(tok) {
            r.push(m.last().0)
        } else {
            r
        }
    }
}

/// One alternative, then its synonyms, then the keys it is a synonym of.
pub open spec fn expand_token(
    e: Seq<Seq<char>>,
    tok: Seq<char>,
    m: Seq<(Seq<char>, Seq<Seq<char>>)>,
) -> Seq<Seq<char>> {
    add_all(add_all(add_unique(e, tok), alts_of(m, tok)), keys_with_alt(m, tok))
}

/// A group with every alternative expanded.
pub open spec fn expand_group(g: Seq<Seq<char>>, m: Seq<(Seq<char>, Seq<Seq<char>>)>) -> Seq<Seq<char>>
    decreases g.len(),
{
    if g.len() == 0 {
        Seq::empty()
    } else {
        expand_token(expand_group(g.drop_last(), m), g.last(), m)
    }
}

/// The query with each group expanded; filters are unchanged.
pub open spec fn expanded(q: QueryView, m: Seq<(Seq<char>, Seq<Seq<char>>)>) -> QueryView {
    if m.len() == 0 {
        q
    } else {
        QueryView {
            must_groups: q.must_groups.map_values(|g: Seq<Seq<char>>| expand_group(g, m)),
            ..q
        }
    }
}

/// Result of `serde_json::from_str` into a `BTreeMap<String, Vec<String>>`:
/// the entries in key order, or the error's text.
pub uninterp spec fn synonym_json(s: Seq<char>) -> Result<Seq<(Seq<char>, Seq<Seq<char>>)>, Seq<char>>;

/// `serde_json::from_str` of a JSON object of string arrays, entries in key
/// order. The contract names the result, a function of the text alone.
#[verifier::external_body]
fn parse_synonym_json(json: &str) -> (r: Result<Vec<(String, Vec<String>)>, String>)
    ensures
        match r {
            Ok(v) => synonym_json(json@) == Ok::<Seq<(Seq<char>, Seq<Seq<char>>)>, Seq<char>>(entry_views(v@)),
            Err(e) => synonym_json(json@) == Err::<Seq<(Seq<char>, Seq<Seq<char>>)>, Seq<char>>(e@),
        },
{
    match serde_json::from_str::<std::collections::BTreeMap<String, Vec<String>>>(json) {
        Ok(m) => Ok(m.into_iter().collect()),
        Err(e) => Err(e.to_string()),
    }
}

fn find_key(m: &Vec<(String, Vec<String>)>, key: &String) -> (r: Option<usize>)
    ensures
        match r {
            Some(i) => key_pos(entry_views(m@), key@) == Some(i as int),
            None => key_pos(entry_views(m@), key@).is_none(),
        },
{
    let ghost mv = entry_views(m@);
    let mut k: usize = m.len();
    assert(mv.take(k as int) =~= mv);
    while k > 0
        invariant
            k <= m.len(),
            mv == entry_views(m@),
            key_pos(mv, key@) == key_pos(mv.take(k as int), key@),
        decreases k,
    {
        proof {
            assert(mv.take(k as int).drop_last() =~= mv.take(k - 1));
            assert(mv.take(k as int).last() == entry_view(m@[k - 1]));
        }
        if m[k - 1].0 == *key {
            return Some(k - 1);
        }
        k = k - 1;
    }
    assert(mv.take(0) =~= Seq::<(Seq<char>, Seq<Seq<char>>)>::empty());
    None
}

proof fn lemma_key_pos_bound(m: Seq<(Seq<char>, Seq<Seq<char>>)>, key: Seq<char>)
    ensures
        key_pos(m, key) matches Some(i) ==> 0 <= i < m.len() && m[i].0 == key,
    decreases m.len(),
{
    if m.len() > 0 && m.last().0 != key {
        lemma_key_pos_bound(m.drop_last(), key);
    }
}

fn clean(vs: &Vec<String>, key: &String) -> (r: Vec<String>)
    ensures
        views(r@) == clean_alts(views(vs@), key@),
{
    let ghost vv = views(vs@);
    let mut out: Vec<String> = Vec::new();
    let mut i: usize = 0;
    assert(vv.take(0) =~= Seq::<Seq<char>>::empty());
    assert(views(out@) =~= Seq::<Seq<char>>::empty());
    while i < vs.len()
        invariant
            i <= vs.len(),
            vv == views(vs@),
            views(out@) == clean_alts(vv.take(i as int), key@),
        decreases vs.len() - i,
    {
        proof {
            assert(vv.take(i + 1).drop_last() =~= vv.take(i as int));
            assert(vv.take(i + 1).last() == vs@[i as int]@);
        }
        let v = str_to_lowercase(vs[i].as_str());
        if !string_is_empty(&v) && v != *key {
            let ghost prev = out@;
            out.push(v);
            proof {
                lemma_views_push(prev, out@.last());
            }
        }
        i = i + 1;
    }
    assert(vv.take(vs.len() as int) =~= vv);
    out
}

fn add_unique_exec(e: &mut Vec<String>, x: &String)
    ensures
        views(final(e)@) == add_unique(views(old(e)@), x@),
{
    if !vec_has(e, x) {
        let ghost prev = e@;
        e.push(copy_string(x));
        proof {
            lemma_views_push(prev, e@.last());
        }
    }
}

fn add_all_exec(e: &mut Vec<String>, xs: &Vec<String>)
    ensures
        views(final(e)@) == add_all(views(old(e)@), views(xs@)),
{
    let ghost start = views(e@);
    let ghost xv = views(xs@);
    let mut i: usize = 0;
    assert(xv.take(0) =~= Seq::<Seq<char>>::empty());
    while i < xs.len()
        invariant
            i <= xs.len(),
            xv == views(xs@),
            views(e@) == add_all(start, xv.take(i as int)),
        decreases xs.len() - i,
    {
        proof {
            assert(xv.take(i + 1).drop_last() =~= xv.take(i as int));
            assert(xv.take(i + 1).last() == xs@[i as int]@);
        }
        add_unique_exec(e, &xs[i]);
        i = i + 1;
    }
    assert(xv.take(xs.len() as int) =~= xv);
}

impl SynonymMap {
    /// The entries as values.
    pub closed spec fn entries(&self) -> Seq<(Seq<char>, Seq<Seq<char>>)> {
        entry_views(self.map@)
    }

    /// An empty map.
    pub fn new() -> (r: SynonymMap)
        ensures
            r.entries() == Seq::<(Seq<char>, Seq<Seq<char>>)>::empty(),
    {
        let r = SynonymMap { map: Vec::new() };
        assert(entry_views(r.map@) =~= Seq::<(Seq<char>, Seq<Seq<char>>)>::empty());
        r
    }

    /// Build from `{"lol": ["lul", "lmao"], ...}` style JSON object.
    pub fn from_json_str(json: &str) -> (r: Result<SynonymMap, String>)
        ensures
            match synonym_json(json@) {
                Ok(raw) => r matches Ok(m) && m.entries() == built_map(raw),
                Err(e) => r matches Err(msg) && msg@ == "invalid synonym map JSON: "@ + e,
            },
    {
        match parse_synonym_json(json) {
            Ok(raw) => Ok(SynonymMap::from_map(raw)),
            Err(e) => {
                let mut msg = String::from_str("invalid synonym map JSON: ");
                msg.append(e.as_str());
                Err(msg)
            },
        }
    }

    /// Build from raw pairs.
    pub fn from_map(raw: Vec<(String, Vec<String>)>) -> (r: SynonymMap)
        ensures
            r.entries() == built_map(entry_views(raw@)),
    {
        let ghost rv = entry_views(raw@);
        let mut map: Vec<(String, Vec<String>)> = Vec::new();
        let mut i: usize = 0;
        assert(rv.take(0) =~= Seq::<(Seq<char>, Seq<Seq<char>>)>::empty());
        assert(entry_views(map@) =~= Seq::<(Seq<char>, Seq<Seq<char>>)>::empty());
        while i < raw.len()
            invariant
                i <= raw.len(),
                rv == entry_views(raw@),
                entry_views(map@) == built_map(rv.take(i as int)),
            decreases raw.len() - i,
        {
            proof {
                assert(rv.take(i + 1).drop_last() =~= rv.take(i as int));
                assert(rv.take(i + 1).last() == entry_view(raw@[i as int]));
            }
            let key = str_to_lowercase(raw[i].0.as_str());
            let alts = clean(&raw[i].1, &key);
            if alts.len() > 0 {
                let ghost prev = entry_views(map@);
                match find_key(&map, &key) {
                    Some(k) => {
                        proof {
                            lemma_key_pos_bound(prev, key@);
                        }
                        let ghost nv = (key@, views(alts@));
                        map.set(k, (key, alts));
                        assert(entry_views(map@) =~= prev.update(k as int, nv));
                    },
                    None => {
                        let ghost nv = (key@, views(alts@));
                        map.push((key, alts));
                        assert(entry_views(map@) =~= prev.push(nv));
                    },
                }
            }
            i = i + 1;
        }
        assert(rv.take(raw.len() as int) =~= rv);
        SynonymMap { map }
    }

    /// The map that the contents of a synonyms file give: blank text, or text
    /// that is not a valid map, gives the empty map.
    pub fn from_file_text(raw: &str) -> (r: SynonymMap)
        ensures
            r.entries() == if trimmed(raw@).len() == 0 {
                Seq::empty()
            } else {
                match synonym_json(raw@) {
                    Ok(v) => built_map(v),
                    Err(_) => Seq::empty(),
                }
            },
    {
        if trim_chars(&chars_of(raw)).len() == 0 {
            return SynonymMap::new();
        }
        match SynonymMap::from_json_str(raw) {
            Ok(m) => m,
            Err(_) => SynonymMap::new(),
        }
    }

    /// No synonyms are defined.
    pub fn is_empty(&self) -> (r: bool)
        ensures
            r == (self.entries().len() == 0),
    {
        self.map.len() == 0
    }

    fn keys_with(&self, tok: &String) -> (r: Vec<String>)
        ensures
            views(r@) == keys_with_alt(self.entries(), tok@),
    {
        let ghost mv = self.entries();
        let mut out: Vec<String> = Vec::new();
        let mut i: usize = 0;
        assert(mv.take(0) =~= Seq::<(Seq<char>, Seq<Seq<char>>)>::empty());
        assert(views(out@) =~= Seq::<Seq<char>>::empty());
        while i < self.map.len()
            invariant
                i <= self.map.len(),
                mv == self.entries(),
                views(out@) == keys_with_alt(mv.take(i as int), tok@),
            decreases self.map.len() - i,
        {
            proof {
                assert(mv.take(i + 1).drop_last() =~= mv.take(i as int));
                assert(mv.take(i + 1).last() == entry_view(self.map@[i as int]));
            }
            if vec_has(&self.map[i].1, tok) {
                let ghost prev = out@;
                out.push(copy_string(&self.map[i].0));
                proof {
                    lemma_views_push(prev, out@.last());
                }
            }
            i = i + 1;
        }
        assert(mv.take(self.map.len() as int) =~= mv);
        out
    }

    fn expand_group_exec(&self, group: &Vec<String>) -> (r: Vec<String>)
        ensures
            views(r@) == expand_group(views(group@), self.entries()),
    {
        let ghost gv = views(group@);
        let mut expanded: Vec<String> = Vec::new();
        let mut i: usize = 0;
        assert(gv.take(0) =~= Seq::<Seq<char>>::empty());
        assert(views(expanded@) =~= Seq::<Seq<char>>::empty());
        while i < group.len()
            invariant
                i <= group.len(),
                gv == views(group@),
                views(expanded@) == expand_group(gv.take(i as int), self.entries()),
            decreases group.len() - i,
        {
            proof {
                assert(gv.take(i + 1).drop_last() =~= gv.take(i as int));
                assert(gv.take(i + 1).last() == group@[i as int]@);
            }
            let tok = &group[i];
            add_unique_exec(&mut expanded, tok);
            match find_key(&self.map, tok) {
                Some(k) => {
                    proof {
                        lemma_key_pos_bound(self.entries(), tok@);
                    }
                    add_all_exec(&mut expanded, &self.map[k].1);
                },
                None => {
                    let none: Vec<String> = Vec::new();
                    assert(views(none@) =~= Seq::<Seq<char>>::empty());
                    add_all_exec(&mut expanded, &none);
                },
            }
            let keys = self.keys_with(tok);
            add_all_exec(&mut expanded, &keys);
            i = i + 1;
        }
        assert(gv.take(group.len() as int) =~= gv);
        expanded
    }

    /// Expand each OR-group alternative with synonyms (as additional OR options).
    pub fn expand_parsed(&self, parsed: &ParsedQuery) -> (r: ParsedQuery)
        ensures
            r@ == expanded(parsed@, self.entries()),
    {
        if self.map.len() == 0 {
            return parsed.duplicate();
        }
        let mut out = parsed.duplicate();
        let ghost q = parsed@;
        let mut groups: Vec<Vec<String>> = Vec::new();
        let mut g: usize = 0;
        while g < parsed.must_groups.len()
            invariant
                g <= parsed.must_groups.len(),
                q == parsed@,
                self.entries().len() > 0,
                groups@.len() == g,
                group_views(groups@) == q.must_groups.map_values(|gr: Seq<Seq<char>>| expand_group(gr, self.entries())).take(g as int),
            decreases parsed.must_groups.len() - g,
        {
            let e = self.expand_group_exec(&parsed.must_groups[g]);
            let ghost prev = groups@;
            groups.push(e);
            assert(q.must_groups[g as int] == views(parsed.must_groups@[g as int]@));
            assert(group_views(groups@) =~= group_views(prev).push(views(e@)));
            assert(q.must_groups.map_values(|gr: Seq<Seq<char>>| expand_group(gr, self.entries())).take(g + 1) =~= q.must_groups.map_values(|gr: Seq<Seq<char>>| expand_group(gr, self.entries())).take(g as int).push(expand_group(q.must_groups[g as int], self.entries())));
            g = g + 1;
        }
        assert(q.must_groups.map_values(|gr: Seq<Seq<char>>| expand_group(gr, self.entries())).take(g as int) =~= q.must_groups.map_values(|gr: Seq<Seq<char>>| expand_group(gr, self.entries())));
        out.must_groups = groups;
        out
    }
}


proof fn lemma_add_all_keeps(e: Seq<Seq<char>>, xs: Seq<Seq<char>>)
    ensures
        forall|y: Seq<char>| e.contains(y) ==> #[trigger] add_all(e, xs).contains(y),
    decreases xs.len(),
{
    if xs.len() > 0 {
        lemma_add_all_keeps(e, xs.drop_last());
        let r = add_all(e, xs.drop_last());
        assert forall|y: Seq<char>| r.contains(y) implies #[trigger] add_unique(r, xs.last()).contains(y) by {
            if !r.contains(xs.last()) {
                let i = choose|i: int| 0 <= i < r.len() && r[i] == y;
                assert(r.push(xs.last())[i] == y);
            }
        }
    }
}

proof fn lemma_expand_token_keeps(e: Seq<Seq<char>>, tok: Seq<char>, m: Seq<(Seq<char>, Seq<Seq<char>>)>)
    ensures
        expand_token(e, tok, m).contains(tok),
        forall|y: Seq<char>| e.contains(y) ==> #[trigger] expand_token(e, tok, m).contains(y),
{
    let u = add_unique(e, tok);
    if !e.contains(tok) {
        assert(e.push(tok)[e.len() as int] == tok);
        assert forall|y: Seq<char>| e.contains(y) implies u.contains(y) by {
            let i = choose|i: int| 0 <= i < e.len() && e[i] == y;
            assert(e.push(tok)[i] == y);
        }
    }
    assert(u.contains(tok));
    lemma_add_all_keeps(u, alts_of(m, tok));
    lemma_add_all_keeps(add_all(u, alts_of(m, tok)), keys_with_alt(m, tok));
}

proof fn lemma_expand_group_keeps(g: Seq<Seq<char>>, m: Seq<(Seq<char>, Seq<Seq<char>>)>)
    ensures
        forall|a: int| 0 <= a < g.len() ==> #[trigger] expand_group(g, m).contains(g[a]),
    decreases g.len(),
{
    if g.len() > 0 {
        lemma_expand_group_keeps(g.drop_last(), m);
        lemma_expand_token_keeps(expand_group(g.drop_last(), m), g.last(), m);
        assert forall|a: int| 0 <= a < g.len() implies #[trigger] expand_group(g, m).contains(g[a]) by {
            if a < g.len() - 1 {
                assert(g.drop_last()[a] == g[a]);
                assert(expand_group(g.drop_last(), m).contains(g.drop_last()[a]));
            }
        }
    }
}

/// Expansion only widens a query: every group keeps its alternatives (in
/// the same place, with the filters unchanged), so every hit of the query
/// is a hit of its expansion.
pub proof fn lemma_expansion_keeps_hits(it: ItemView, q: QueryView, m: Seq<(Seq<char>, Seq<Seq<char>>)>)
    ensures
        expanded(q, m).must_groups.len() == q.must_groups.len(),
        forall|g: int, a: int|
            0 <= g < q.must_groups.len() && 0 <= a < q.must_groups[g].len() ==> #[trigger] expanded(
                q,
                m,
            ).must_groups[g].contains(#[trigger] q.must_groups[g][a]),
        is_hit(it, q) ==> is_hit(it, expanded(q, m)),
{
    let x = expanded(q, m);
    if m.len() > 0 {
        assert forall|g: int, a: int|
            0 <= g < q.must_groups.len() && 0 <= a < q.must_groups[g].len() implies #[trigger] x.must_groups[g].contains(
                #[trigger] q.must_groups[g][a],
            ) by {
            lemma_expand_group_keeps(q.must_groups[g], m);
        }
    } else {
        assert forall|g: int, a: int|
            0 <= g < q.must_groups.len() && 0 <= a < q.must_groups[g].len() implies #[trigger] x.must_groups[g].contains(
                #[trigger] q.must_groups[g][a],
            ) by {
            assert(q.must_groups[g][a] == x.must_groups[g][a]);
        }
    }
    if is_hit(it, q) {
        assert forall|g: int|
            0 <= g < x.must_groups.len() && #[trigger] x.must_groups[g].len() > 0 implies exists|b: int|
                0 <= b < x.must_groups[g].len() && token_matches(it, x.must_groups[g][b]) by {
            if q.must_groups[g].len() == 0 {
                assert(m.len() > 0);
                assert(q.must_groups[g] =~= Seq::<Seq<char>>::empty());
                assert(x.must_groups[g] == expand_group(q.must_groups[g], m));
            }
            assert(q.must_groups[g].len() > 0);
            let a = choose|a: int| 0 <= a < q.must_groups[g].len() && token_matches(it, q.must_groups[g][a]);
            assert(x.must_groups[g].contains(q.must_groups[g][a]));
            let b = choose|b: int| 0 <= b < x.must_groups[g].len() && x.must_groups[g][b] == q.must_groups[g][a];
        }
    }
}


/// `x` is a synonym of `t` in `m`: one of `t`'s alternates, or a key that
/// has `t` among its alternates.
pub open spec fn synonym_in(m: Seq<(Seq<char>, Seq<Seq<char>>)>, x: Seq<char>, t: Seq<char>) -> bool {
    exists|i: int|
        0 <= i < m.len() && ((m[i].0 == t && m[i].1.contains(x)) || (m[i].0 == x && m[i].1.contains(
            t,
        )))
}

proof fn lemma_add_unique(e: Seq<Seq<char>>, x: Seq<char>)
    ensures
        forall|y: Seq<char>| #[trigger] add_unique(e, x).contains(y) <==> (e.contains(y) || y == x),
        e.no_duplicates() ==> add_unique(e, x).no_duplicates(),
{
    broadcast use vstd::seq_lib::lemma_seq_contains_after_push;

    if !e.contains(x) {
        let t = e.push(x);
        assert forall|i: int, j: int| e.no_duplicates() && 0 <= i < j < t.len() implies t[i] != t[j] by {
            if j == e.len() {
                assert(e.contains(e[i]));
            } else {
                assert(t[i] == e[i] && t[j] == e[j]);
            }
        }
    }
}

proof fn lemma_add_all(e: Seq<Seq<char>>, xs: Seq<Seq<char>>)
    ensures
        forall|y: Seq<char>| #[trigger] add_all(e, xs).contains(y) <==> (e.contains(y) || xs.contains(y)),
        e.no_duplicates() ==> add_all(e, xs).no_duplicates(),
    decreases xs.len(),
{
    broadcast use vstd::seq_lib::lemma_seq_contains_after_push;

    if xs.len() > 0 {
        lemma_add_all(e, xs.drop_last());
        lemma_add_unique(add_all(e, xs.drop_last()), xs.last());
        assert(xs =~= xs.drop_last().push(xs.last()));
    }
}

proof fn lemma_keys_with_alt(m: Seq<(Seq<char>, Seq<Seq<char>>)>, tok: Seq<char>)
    ensures
        forall|k: Seq<char>| #[trigger] keys_with_alt(m, tok).contains(k) ==> exists|i: int|
            0 <= i < m.len() && m[i].0 == k && m[i].1.contains(tok),
    decreases m.len(),
{
    broadcast use vstd::seq_lib::lemma_seq_contains_after_push;

    if m.len() > 0 {
        let d = m.drop_last();
        lemma_keys_with_alt(d, tok);
        assert forall|k: Seq<char>| #[trigger] keys_with_alt(m, tok).contains(k) implies exists|i: int|
            0 <= i < m.len() && m[i].0 == k && m[i].1.contains(tok) by {
            if keys_with_alt(d, tok).contains(k) {
                let i = choose|i: int| 0 <= i < d.len() && d[i].0 == k && d[i].1.contains(tok);
                assert(m[i] == d[i]);
            } else {
                assert(m[m.len() - 1] == m.last());
            }
        }
    }
}

proof fn lemma_expand_group_facts(g: Seq<Seq<char>>, m: Seq<(Seq<char>, Seq<Seq<char>>)>)
    ensures
        expand_group(g, m).no_duplicates(),
        forall|x: Seq<char>| #[trigger] expand_group(g, m).contains(x) ==> exists|a: int|
            0 <= a < g.len() && (g[a] == x || synonym_in(m, x, g[a])),
    decreases g.len(),
{
    if g.len() > 0 {
        let d = g.drop_last();
        let t = g.last();
        let e0 = expand_group(d, m);
        lemma_expand_group_facts(d, m);
        lemma_add_unique(e0, t);
        let e1 = add_unique(e0, t);
        lemma_add_all(e1, alts_of(m, t));
        let e2 = add_all(e1, alts_of(m, t));
        lemma_add_all(e2, keys_with_alt(m, t));
        lemma_keys_with_alt(m, t);
        lemma_key_pos_bound(m, t);
        assert(g[g.len() - 1] == t);
        assert forall|x: Seq<char>| #[trigger] expand_group(g, m).contains(x) implies exists|a: int|
            0 <= a < g.len() && (g[a] == x || synonym_in(m, x, g[a])) by {
            if e0.contains(x) {
                let a = choose|a: int| 0 <= a < d.len() && (d[a] == x || synonym_in(m, x, d[a]));
                assert(g[a] == d[a]);
            } else if x == t {
            } else if alts_of(m, t).contains(x) {
                let i = key_pos(m, t)->Some_0;
                assert(m[i].0 == t && m[i].1.contains(x));
                assert(synonym_in(m, x, t));
            } else {
                assert(keys_with_alt(m, t).contains(x));
                let i = choose|i: int| 0 <= i < m.len() && m[i].0 == x && m[i].1.contains(t);
                assert(synonym_in(m, x, t));
            }
        }
    }
}

/// Expansion adds only synonyms and repeats nothing: with a non-empty map,
/// every group of the expansion lists each spelling once, and each spelling
/// is one of the group's alternatives or a synonym of one; with an empty
/// map the query is unchanged.
pub proof fn lemma_expansion_adds_synonyms(q: QueryView, m: Seq<(Seq<char>, Seq<Seq<char>>)>)
    ensures
        m.len() == 0 ==> expanded(q, m) == q,
        m.len() > 0 ==> forall|g: int|
            0 <= g < q.must_groups.len() ==> (#[trigger] expanded(q, m).must_groups[g]).no_duplicates(),
        m.len() > 0 ==> forall|g: int, x: Seq<char>|
            0 <= g < q.must_groups.len() && #[trigger] expanded(q, m).must_groups[g].contains(x)
                ==> exists|a: int|
                0 <= a < q.must_groups[g].len() && (q.must_groups[g][a] == x || synonym_in(
                    m,
                    x,
                    q.must_groups[g][a],
                )),
{
    if m.len() > 0 {
        assert forall|g: int| 0 <= g < q.must_groups.len() implies (#[trigger] expanded(q, m).must_groups[g]).no_duplicates()
            && forall|x: Seq<char>| expanded(q, m).must_groups[g].contains(x) ==> exists|a: int|
                0 <= a < q.must_groups[g].len() && (q.must_groups[g][a] == x || synonym_in(
                    m,
                    x,
                    q.must_groups[g][a],
                )) by {
            lemma_expand_group_facts(q.must_groups[g], m);
        }
    }
}

/// A map built from raw pairs is empty exactly when no pair brings an
/// alternate: every value of every key folds to the empty text or to the
/// folded key.
pub proof fn lemma_built_map_empty(raw: Seq<(Seq<char>, Seq<Seq<char>>)>)
    ensures
        (built_map(raw).len() == 0) <==> forall|i: int, j: int|
            0 <= i < raw.len() && 0 <= j < raw[i].1.len() ==> lowercase(#[trigger] raw[i].1[j]).len() == 0
                || lowercase(raw[i].1[j]) == lowercase(raw[i].0),
    decreases raw.len(),
{
    if raw.len() > 0 {
        let d = raw.drop_last();
        lemma_built_map_empty(d);
        let key = lowercase(raw.last().0);
        lemma_clean_alts_empty(raw.last().1, key);
        let m = built_map(d);
        if clean_alts(raw.last().1, key).len() > 0 {
            lemma_key_pos_bound(m, key);
            assert(built_map(raw).len() > 0);
        }
        assert forall|i: int| 0 <= i < d.len() implies #[trigger] d[i] == raw[i] by {}
        assert(raw[raw.len() - 1] == raw.last());
        let ok = forall|i: int, j: int|
            0 <= i < raw.len() && 0 <= j < raw[i].1.len() ==> lowercase(#[trigger] raw[i].1[j]).len() == 0
                || lowercase(raw[i].1[j]) == lowercase(raw[i].0);
        if ok {
            assert forall|i: int, j: int|
                0 <= i < d.len() && 0 <= j < d[i].1.len() implies lowercase(#[trigger] d[i].1[j]).len() == 0
                    || lowercase(d[i].1[j]) == lowercase(d[i].0) by {
                assert(d[i] == raw[i]);
            }
            assert forall|j: int| 0 <= j < raw.last().1.len() implies lowercase(#[trigger] raw.last().1[j]).len()
                == 0 || lowercase(raw.last().1[j]) == key by {
                assert(raw[raw.len() - 1].1[j] == raw.last().1[j]);
            }
        }
        if built_map(raw).len() == 0 {
            assert forall|i: int, j: int|
                0 <= i < raw.len() && 0 <= j < raw[i].1.len() implies lowercase(#[trigger] raw[i].1[j]).len()
                    == 0 || lowercase(raw[i].1[j]) == lowercase(raw[i].0) by {
                if i < d.len() {
                    assert(d[i] == raw[i]);
                    assert(lowercase(d[i].1[j]).len() == 0 || lowercase(d[i].1[j]) == lowercase(d[i].0));
                } else {
                    assert(raw[i] == raw.last());
                    assert(lowercase(raw.last().1[j]).len() == 0 || lowercase(raw.last().1[j]) == key);
                }
            }
        }
    }
}

proof fn lemma_clean_alts_empty(vs: Seq<Seq<char>>, key: Seq<char>)
    ensures
        (clean_alts(vs, key).len() == 0) <==> forall|j: int|
            0 <= j < vs.len() ==> lowercase(#[trigger] vs[j]).len() == 0 || lowercase(vs[j]) == key,
    decreases vs.len(),
{
    if vs.len() > 0 {
        let d = vs.drop_last();
        lemma_clean_alts_empty(d, key);
        assert forall|j: int| 0 <= j < d.len() implies #[trigger] d[j] == vs[j] by {}
        assert(vs[vs.len() - 1] == vs.last());
        let ok = forall|j: int|
            0 <= j < vs.len() ==> lowercase(#[trigger] vs[j]).len() == 0 || lowercase(vs[j]) == key;
        if ok {
            assert forall|j: int| 0 <= j < d.len() implies lowercase(#[trigger] d[j]).len() == 0
                || lowercase(d[j]) == key by {
                assert(d[j] == vs[j]);
            }
        }
        if clean_alts(vs, key).len() == 0 {
            assert forall|j: int| 0 <= j < vs.len() implies lowercase(#[trigger] vs[j]).len() == 0
                || lowercase(vs[j]) == key by {
                if j < d.len() {
                    assert(d[j] == vs[j]);
                }
            }
        }
    }
}

/// No two entries of the map share a key.
pub open spec fn keys_distinct(m: Seq<(Seq<char>, Seq<Seq<char>>)>) -> bool {
    forall|i: int, j: int| 0 <= i < j < m.len() ==> m[i].0 != m[j].0
}

proof fn lemma_key_pos_distinct(m: Seq<(Seq<char>, Seq<Seq<char>>)>, i: int)
    requires
        keys_distinct(m),
        0 <= i < m.len(),
    ensures
        key_pos(m, m[i].0) == Some(i),
    decreases m.len(),
{
    if i < m.len() - 1 {
        assert(m[i].0 != m[m.len() - 1].0);
        let d = m.drop_last();
        assert(d[i] == m[i]);
        lemma_key_pos_distinct(d, i);
    }
}

proof fn lemma_keys_with_alt_complete(m: Seq<(Seq<char>, Seq<Seq<char>>)>, tok: Seq<char>)
    ensures
        forall|i: int| 0 <= i < m.len() && (#[trigger] m[i]).1.contains(tok) ==> keys_with_alt(m, tok).contains(m[i].0),
    decreases m.len(),
{
    broadcast use vstd::seq_lib::lemma_seq_contains_after_push;

    if m.len() > 0 {
        let d = m.drop_last();
        lemma_keys_with_alt_complete(d, tok);
        assert forall|i: int| 0 <= i < m.len() && (#[trigger] m[i]).1.contains(tok) implies keys_with_alt(m, tok).contains(
            m[i].0,
        ) by {
            if i < d.len() {
                assert(d[i] == m[i]);
            }
        }
    }
}

proof fn lemma_expand_group_covers(g: Seq<Seq<char>>, m: Seq<(Seq<char>, Seq<Seq<char>>)>)
    ensures
        forall|a: int, i: int|
            0 <= a < g.len() && 0 <= i < m.len() && (#[trigger] m[i]).1.contains(#[trigger] g[a])
                ==> expand_group(g, m).contains(m[i].0),
        keys_distinct(m) ==> forall|a: int, i: int, b: int|
            0 <= a < g.len() && 0 <= i < m.len() && m[i].0 == #[trigger] g[a] && 0 <= b
                < m[i].1.len() ==> expand_group(g, m).contains(#[trigger] m[i].1[b]),
    decreases g.len(),
{
    if g.len() > 0 {
        let d = g.drop_last();
        let t = g.last();
        let e0 = expand_group(d, m);
        lemma_expand_group_covers(d, m);
        lemma_add_unique(e0, t);
        let e1 = add_unique(e0, t);
        lemma_add_all(e1, alts_of(m, t));
        let e2 = add_all(e1, alts_of(m, t));
        lemma_add_all(e2, keys_with_alt(m, t));
        lemma_keys_with_alt_complete(m, t);
        let r = expand_group(g, m);
        assert(r == add_all(e2, keys_with_alt(m, t)));
        assert(g[g.len() - 1] == t);
        assert forall|a: int, i: int|
            0 <= a < g.len() && 0 <= i < m.len() && (#[trigger] m[i]).1.contains(#[trigger] g[a])
                implies r.contains(m[i].0) by {
            if a < d.len() {
                assert(d[a] == g[a]);
                assert(e0.contains(m[i].0));
            } else {
                assert(keys_with_alt(m, t).contains(m[i].0));
            }
        }
        if keys_distinct(m) {
            assert forall|a: int, i: int, b: int|
                0 <= a < g.len() && 0 <= i < m.len() && m[i].0 == #[trigger] g[a] && 0 <= b
                    < m[i].1.len() implies r.contains(#[trigger] m[i].1[b]) by {
                if a < d.len() {
                    assert(d[a] == g[a]);
                    assert(e0.contains(m[i].1[b]));
                } else {
                    lemma_key_pos_distinct(m, i);
                    assert(alts_of(m, t) == m[i].1);
                    assert(alts_of(m, t).contains(m[i].1[b]));
                }
            }
        }
    }
}

/// Expansion brings in the synonyms: with a non-empty map, each group of the
/// expansion holds, for each of its alternatives `t`, every key whose
/// alternates include `t`, and (keys being distinct, as in every built map)
/// every alternate of the key `t`.
pub proof fn lemma_expansion_includes_synonyms(q: QueryView, m: Seq<(Seq<char>, Seq<Seq<char>>)>)
    requires
        m.len() > 0,
    ensures
        forall|g: int, a: int, i: int|
            0 <= g < q.must_groups.len() && 0 <= a < q.must_groups[g].len() && 0 <= i < m.len() && (
            #[trigger] m[i]).1.contains(#[trigger] q.must_groups[g][a]) ==> expanded(q, m).must_groups[g].contains(
                m[i].0,
            ),
        keys_distinct(m) ==> forall|g: int, a: int, i: int, b: int|
            0 <= g < q.must_groups.len() && 0 <= a < q.must_groups[g].len() && 0 <= i < m.len() && (
            m[i]).0 == #[trigger] q.must_groups[g][a] && 0 <= b < m[i].1.len()
                ==> expanded(q, m).must_groups[g].contains(#[trigger] m[i].1[b]),
{
    assert forall|g: int, a: int, i: int|
        0 <= g < q.must_groups.len() && 0 <= a < q.must_groups[g].len() && 0 <= i < m.len() && (
        #[trigger] m[i]).1.contains(#[trigger] q.must_groups[g][a]) implies expanded(q, m).must_groups[g].contains(
            m[i].0,
        ) by {
        lemma_expand_group_covers(q.must_groups[g], m);
    }
    if keys_distinct(m) {
        assert forall|g: int, a: int, i: int, b: int|
            0 <= g < q.must_groups.len() && 0 <= a < q.must_groups[g].len() && 0 <= i < m.len() && (
            m[i]).0 == #[trigger] q.must_groups[g][a] && 0 <= b < m[i].1.len()
                implies expanded(q, m).must_groups[g].contains(#[trigger] m[i].1[b]) by {
            lemma_expand_group_covers(q.must_groups[g], m);
        }
    }
}

/// A built map never repeats a key.
pub proof fn lemma_built_map_keys_distinct(raw: Seq<(Seq<char>, Seq<Seq<char>>)>)
    ensures
        keys_distinct(built_map(raw)),
    decreases raw.len(),
{
    if raw.len() > 0 {
        let d = raw.drop_last();
        lemma_built_map_keys_distinct(d);
        let m = built_map(d);
        let key = lowercase(raw.last().0);
        let alts = clean_alts(raw.last().1, key);
        if alts.len() > 0 {
            lemma_key_pos_bound(m, key);
            lemma_key_pos_absent(m, key);
            let r = map_insert(m, key, alts);
            assert forall|i: int, j: int| 0 <= i < j < r.len() implies r[i].0 != r[j].0 by {
                match key_pos(m, key) {
                    Some(p) => {
                        assert(m[i].0 != m[j].0 || i == j);
                    },
                    None => {
                        if j == m.len() {
                            assert(r[j].0 == key);
                            assert(r[i] == m[i]);
                        } else {
                            assert(r[i] == m[i] && r[j] == m[j]);
                        }
                    },
                }
            }
        }
    }
}

proof fn lemma_key_pos_absent(m: Seq<(Seq<char>, Seq<Seq<char>>)>, key: Seq<char>)
    ensures
        key_pos(m, key) is None ==> forall|i: int| 0 <= i < m.len() ==> (#[trigger] m[i]).0 != key,
    decreases m.len(),
{
    if m.len() > 0 && m.last().0 != key {
        let d = m.drop_last();
        lemma_key_pos_absent(d, key);
        if key_pos(m, key) is None {
            assert forall|i: int| 0 <= i < m.len() implies (#[trigger] m[i]).0 != key by {
                if i < d.len() {
                    assert(d[i] == m[i]);
                } else {
                    assert(m[i] == m.last());
                }
            }
        }
    }
}

/// An empty synonym map leaves every query as it is.
pub proof fn lemma_empty_map_expands_nothing(q: QueryView)
    ensures
        expanded(q, Seq::empty()) == q,
{
}

} // verus!
