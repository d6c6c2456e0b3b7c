//! The meme library: records, bindings, and the rules that storage applies.
pub mod bindings;
pub mod meme;
pub mod repair;
pub mod search;

use sha2::{Digest, Sha256};
use time::format_description::well_known::Rfc3339;
use time::OffsetDateTime;
use vstd::prelude::*;

use crate::order::{
    goes_before, is_permutation, key_views, lemma_lex_asymmetric, lemma_lex_common_prefix,
    lemma_lex_irreflexive, lemma_text_keys, lex_lt, push_num_key, push_text_key, sort_order,
    sorted_by_keys, text_key, text_key_desc, text_lt,
};
use crate::pipeline::arranged;
use crate::storage::meme::{meme_views, normalized, Meme, MemeView};
use crate::text::{
    ascii_lowered, chars_of, contains_chars, contains_seq, copy_string, eq_chars, is_ascii_text,
    lead_ws, lowercase, str_to_lowercase, string_is_empty, string_of, trail_ws, trim_chars, trimmed,
    views, white_space,
};
use crate::types::strip_dots;

verus! {

/// Extensions the library accepts.
pub open spec fn allowed_extension(e: Seq<char>) -> bool {
    ||| e == seq!['g', 'i', 'f']
    ||| e == seq!['w', 'e', 'b', 'p']
    ||| e == seq!['p', 'n', 'g']
    ||| e == seq!['j', 'p', 'g']
    ||| e == seq!['j', 'p', 'e', 'g']
}

/// An extension as given, trimmed, without leading dots, lower-cased.
pub open spec fn clean_extension(ext: Seq<char>) -> Seq<char> {
    lowercase(strip_dots(trimmed(ext)))
}

/// An allowed extension is already clean: no white space or dots around
/// it, ASCII, and lower-case.
proof fn lemma_allowed_is_clean(e: Seq<char>)
    requires
        allowed_extension(e),
    ensures
        trimmed(e) == e,
        strip_dots(e) == e,
        is_ascii_text(e),
        ascii_lowered(e) == e,
{
    assert(e.len() > 0);
    assert(!white_space(e[0]));
    assert(!white_space(e.last()));
    assert(lead_ws(e) == 0);
    assert(trail_ws(e) == 0);
    assert(e.subrange(0, e.len() as int) =~= e);
    assert(e[0] != '.');
    assert(crate::types::lead_dots(e) == 0);
    assert(e.skip(0) =~= e);
    assert forall|i: int| 0 <= i < e.len() implies (e[i] as u32) < 128 && !('A' <= e[i] <= 'Z') by {}
    assert(ascii_lowered(e) =~= e);
}

/// Validate and normalize a file extension. An extension that is already
/// one of the allowed names is returned as it is, so normalizing the result
/// again gives it back.
pub fn normalize_extension(ext: &str) -> (r: Result<String, String>)
    ensures
        match r {
            Ok(e) => allowed_extension(clean_extension(ext@)) && e@ == clean_extension(ext@),
            Err(msg) => !allowed_extension(clean_extension(ext@)) && msg@ == "unsupported extension '"@
                + clean_extension(ext@) + "'; allowed: gif, webp, png, jpg, jpeg"@,
        },
        allowed_extension(ext@) ==> (r matches Ok(e) && e@ == ext@),
{
    proof {
        if allowed_extension(ext@) {
            lemma_allowed_is_clean(ext@);
        }
    }
    let t = trim_chars(&chars_of(ext));
    let mut k: usize = 0;
    proof {
        crate::types::lemma_lead_dots(t@);
    }
    while k < t.len() && t[k] == '.'
        invariant
            k <= t.len(),
            k <= crate::types::lead_dots(t@),
            crate::types::lead_dots(t@) <= t@.len(),
            forall|i: int| 0 <= i < crate::types::lead_dots(t@) ==> #[trigger] t@[i] == '.',
            crate::types::lead_dots(t@) < t@.len() ==> t@[crate::types::lead_dots(t@) as int] != '.',
        decreases t.len() - k,
    {
        k = k + 1;
    }
    let rest = crate::text::slice_chars(&t, k, t.len());
    assert(rest@ =~= strip_dots(t@));
    let cleaned = str_to_lowercase(string_of(&rest).as_str());
    let c = chars_of(cleaned.as_str());
    let gif = vec!['g', 'i', 'f'];
    let webp = vec!['w', 'e', 'b', 'p'];
    let png = vec!['p', 'n', 'g'];
    let jpg = vec!['j', 'p', 'g'];
    let jpeg = vec!['j', 'p', 'e', 'g'];
    assert(gif@ =~= seq!['g', 'i', 'f']);
    assert(webp@ =~= seq!['w', 'e', 'b', 'p']);
    assert(png@ =~= seq!['p', 'n', 'g']);
    assert(jpg@ =~= seq!['j', 'p', 'g']);
    assert(jpeg@ =~= seq!['j', 'p', 'e', 'g']);
    if eq_chars(&c, &gif) || eq_chars(&c, &webp) || eq_chars(&c, &png) || eq_chars(&c, &jpg)
        || eq_chars(&c, &jpeg) {
        Ok(cleaned)
    } else {
        let mut msg = String::from_str("unsupported extension '");
        msg.append(cleaned.as_str());
        msg.append("'; allowed: gif, webp, png, jpg, jpeg");
        Err(msg)
    }
}

/// The plain substring query used by the simple list filter.
pub open spec fn matches_query(m: MemeView, query: Seq<char>) -> bool {
    let q = lowercase(trimmed(query));
    q.len() == 0 || contains_seq(lowercase(m.name), q) || exists|i: int|
        0 <= i < m.tags.len() && contains_seq(lowercase(m.tags[i]), q)
}

/// The list filter: a blank query keeps every meme; otherwise a meme is kept
/// exactly when its lower-cased name, or one of its lower-cased tags,
/// contains the lower-cased, trimmed query.
pub proof fn lemma_list_filter(m: MemeView, query: Seq<char>)
    ensures
        lowercase(trimmed(query)).len() == 0 ==> matches_query(m, query),
        contains_seq(lowercase(m.name), lowercase(trimmed(query))) ==> matches_query(m, query),
        forall|i: int|
            0 <= i < m.tags.len() && contains_seq(lowercase(#[trigger] m.tags[i]), lowercase(trimmed(query)))
                ==> matches_query(m, query),
        lowercase(trimmed(query)).len() > 0 && !contains_seq(lowercase(m.name), lowercase(trimmed(query)))
            && (forall|i: int|
            0 <= i < m.tags.len() ==> !contains_seq(lowercase(#[trigger] m.tags[i]), lowercase(trimmed(query))))
            ==> !matches_query(m, query),
{
}

/// Case-insensitive substring match of the query on the name or a tag; the
/// empty query matches everything.
pub fn meme_matches_query(meme: &Meme, query: &str) -> (r: bool)
    ensures
        r == matches_query(meme@, query@),
{
    let q = chars_of(str_to_lowercase(string_of(&trim_chars(&chars_of(query))).as_str()).as_str());
    if q.len() == 0 {
        return true;
    }
    let name = chars_of(str_to_lowercase(meme.name.as_str()).as_str());
    if contains_chars(&name, &q) {
        return true;
    }
    let mut i: usize = 0;
    while i < meme.tags.len()
        invariant
            i <= meme.tags.len(),
            q@ == lowercase(trimmed(query@)),
            forall|k: int| 0 <= k < i ==> !contains_seq(lowercase(meme@.tags[k]), q@),
        decreases meme.tags.len() - i,
    {
        let t = chars_of(str_to_lowercase(meme.tags[i].as_str()).as_str());
        if contains_chars(&t, &q) {
            assert(meme@.tags[i as int] == meme.tags@[i as int]@);
            return true;
        }
        assert(meme@.tags[i as int] == meme.tags@[i as int]@);
        i = i + 1;
    }
    false
}

/// Orders for listing the library.
#[derive(Debug, Clone, Copy, PartialEq, Eq, Structural)]
pub enum MemeSort {
    Created,
    Recent,
    Favorites,
    Name,
}

/// Sort key of a meme: newest first (by creation), most recently used first
/// (then most used), favorites first (then newest), or name (case-folded).
pub open spec fn meme_key(m: MemeView, sort: MemeSort) -> Seq<i128> {
    match sort {
        MemeSort::Created => text_key_desc(m.created_at),
        MemeSort::Recent => text_key_desc(
            match m.last_used_at {
                Some(t) => t,
                None => Seq::empty(),
            },
        ).push((-(m.use_count as int)) as i128),
        MemeSort::Favorites => seq![(if m.favorite { -1int } else { 0int }) as i128].add(
            text_key_desc(m.created_at),
        ),
        MemeSort::Name => text_key(lowercase(m.name)),
    }
}

pub open spec fn meme_keys(ms: Seq<MemeView>, sort: MemeSort) -> Seq<Seq<i128>> {
    ms.map_values(|m: MemeView| meme_key(m, sort))
}

/// `r` is `memes` in the stable order that `sort` asks for.
pub open spec fn is_sorted_listing(r: Seq<MemeView>, memes: Seq<MemeView>, sort: MemeSort) -> bool {
    exists|p: Seq<usize>|
        is_permutation(p, memes.len() as int) && sorted_by_keys(p, meme_keys(memes, sort)) && r
            == arranged(memes, p)
}

/// When a meme was last used, the empty text if never.
pub open spec fn last_use(m: MemeView) -> Seq<char> {
    match m.last_used_at {
        Some(t) => t,
        None => Seq::empty(),
    }
}

/// What `sort` promises of a meme `a` listed before a meme `b`.
pub open spec fn listed_in_order(a: MemeView, b: MemeView, sort: MemeSort) -> bool {
    match sort {
        MemeSort::Created => !text_lt(a.created_at, b.created_at),
        MemeSort::Recent => !text_lt(last_use(a), last_use(b)) && (last_use(a) == last_use(b)
            ==> a.use_count >= b.use_count),
        MemeSort::Favorites => (b.favorite ==> a.favorite) && (a.favorite == b.favorite
            ==> !text_lt(a.created_at, b.created_at)),
        MemeSort::Name => !text_lt(lowercase(b.name), lowercase(a.name)),
    }
}

/// Two different texts under descending keys, followed by anything.
proof fn lemma_desc_keys(a: Seq<char>, b: Seq<char>, x: Seq<i128>, y: Seq<i128>)
    requires
        lex_lt(text_key_desc(a) + x, text_key_desc(b) + y) || text_key_desc(a) + x
            == text_key_desc(b) + y,
        a != b,
    ensures
        text_lt(b, a),
        !text_lt(a, b),
{
    lemma_text_keys(a, b, x, y);
    lemma_text_keys(b, a, y, x);
    lemma_lex_irreflexive(text_key_desc(a) + x);
    lemma_lex_asymmetric(text_key(a), text_key(b));
}

proof fn lemma_key_order(a: MemeView, b: MemeView, sort: MemeSort)
    requires
        lex_lt(meme_key(a, sort), meme_key(b, sort)) || meme_key(a, sort) == meme_key(b, sort),
    ensures
        listed_in_order(a, b, sort),
{
    let e = Seq::<i128>::empty();
    let ka = meme_key(a, sort);
    let kb = meme_key(b, sort);
    match sort {
        MemeSort::Created => {
            lemma_lex_irreflexive(text_key(a.created_at));
            if a.created_at != b.created_at {
                assert(text_key_desc(a.created_at) + e =~= ka);
                assert(text_key_desc(b.created_at) + e =~= kb);
                lemma_desc_keys(a.created_at, b.created_at, e, e);
            }
        },
        MemeSort::Name => {
            let na = lowercase(a.name);
            let nb = lowercase(b.name);
            lemma_lex_irreflexive(text_key(na));
            if na != nb {
                lemma_text_keys(na, nb, e, e);
                assert(text_key(na) + e =~= ka);
                assert(text_key(nb) + e =~= kb);
                lemma_lex_irreflexive(ka);
                lemma_lex_asymmetric(ka, kb);
            }
        },
        MemeSort::Favorites => {
            let fa: i128 = (if a.favorite { -1int } else { 0int }) as i128;
            let fb: i128 = (if b.favorite { -1int } else { 0int }) as i128;
            assert(ka[0] == fa);
            assert(kb[0] == fb);
            if a.favorite == b.favorite {
                lemma_lex_common_prefix(seq![fa], text_key_desc(a.created_at), text_key_desc(b.created_at));
                assert(ka =~= seq![fa] + text_key_desc(a.created_at));
                assert(kb =~= seq![fa] + text_key_desc(b.created_at));
                lemma_lex_irreflexive(text_key(a.created_at));
                if a.created_at != b.created_at {
                    if ka == kb {
                        assert(ka.drop_first() =~= text_key_desc(a.created_at));
                        assert(kb.drop_first() =~= text_key_desc(b.created_at));
                    }
                    assert(text_key_desc(a.created_at) + e =~= text_key_desc(a.created_at));
                    assert(text_key_desc(b.created_at) + e =~= text_key_desc(b.created_at));
                    lemma_desc_keys(a.created_at, b.created_at, e, e);
                }
            }
        },
        MemeSort::Recent => {
            let la = last_use(a);
            let lb = last_use(b);
            let xa = seq![(-(a.use_count as int)) as i128];
            let xb = seq![(-(b.use_count as int)) as i128];
            assert(ka =~= text_key_desc(la) + xa);
            assert(kb =~= text_key_desc(lb) + xb);
            lemma_lex_irreflexive(text_key(la));
            if la != lb {
                lemma_desc_keys(la, lb, xa, xb);
            } else {
                lemma_lex_common_prefix(text_key_desc(la), xa, xb);
                if ka == kb {
                    assert(ka[ka.len() - 1] == xa[0]);
                    assert(kb[kb.len() - 1] == xb[0]);
                } else {
                    assert(xa.drop_first() =~= e);
                    assert(xb.drop_first() =~= e);
                }
            }
        },
    }
}

/// Listing orders: `sort_memes` lists the newest first (`Created`); the most
/// recently used first, then the most used (`Recent`); favorites before the
/// rest, each part newest first (`Favorites`); names in case-folded
/// alphabetical order (`Name`).
pub proof fn lemma_listing_orders(r: Seq<MemeView>, memes: Seq<MemeView>, sort: MemeSort)
    requires
        is_sorted_listing(r, memes, sort),
    ensures
        r.len() == memes.len(),
        forall|x: int, y: int|
            0 <= x < y < r.len() ==> listed_in_order(#[trigger] r[x], #[trigger] r[y], sort),
{
    let p = choose|p: Seq<usize>|
        is_permutation(p, memes.len() as int) && sorted_by_keys(p, meme_keys(memes, sort)) && r
            == arranged(memes, p);
    let keys = meme_keys(memes, sort);
    assert forall|x: int, y: int| 0 <= x < y < r.len() implies listed_in_order(
        #[trigger] r[x],
        #[trigger] r[y],
        sort,
    ) by {
        assert(goes_before(keys[p[x] as int], p[x] as int, keys[p[y] as int], p[y] as int));
        assert(r[x] == memes[p[x] as int]);
        assert(r[y] == memes[p[y] as int]);
        lemma_key_order(r[x], r[y], sort);
    }
}

fn meme_sort_key(m: &Meme, sort: MemeSort) -> (r: Vec<i128>)
    ensures
        r@ == meme_key(m@, sort),
{
    let mut key: Vec<i128> = Vec::new();
    match sort {
        MemeSort::Created => {
            push_text_key(&mut key, &chars_of(m.created_at.as_str()), true);
        },
        MemeSort::Recent => {
            let last = match &m.last_used_at {
                Some(t) => chars_of(t.as_str()),
                None => Vec::new(),
            };
            push_text_key(&mut key, &last, true);
            push_num_key(&mut key, m.use_count, true);
        },
        MemeSort::Favorites => {
            key.push(if m.favorite { -1 } else { 0 });
            push_text_key(&mut key, &chars_of(m.created_at.as_str()), true);
        },
        MemeSort::Name => {
            push_text_key(&mut key, &chars_of(str_to_lowercase(m.name.as_str()).as_str()), false);
        },
    }
    assert(key@ =~= meme_key(m@, sort));
    key
}

/// List the library in the given order (stable).
pub fn sort_memes(memes: Vec<Meme>, sort: MemeSort) -> (r: Vec<Meme>)
    ensures
        is_sorted_listing(meme_views(r@), meme_views(memes@), sort),
{
    let mut keys: Vec<Vec<i128>> = Vec::new();
    let mut i: usize = 0;
    while i < memes.len()
        invariant
            i <= memes.len(),
            key_views(keys@) == meme_keys(meme_views(memes@), sort).take(i as int),
        decreases memes.len() - i,
    {
        let k = meme_sort_key(&memes[i], sort);
        let ghost prev = key_views(keys@);
        keys.push(k);
        assert(key_views(keys@) =~= prev.push(meme_key(memes@[i as int]@, sort)));
        assert(meme_keys(meme_views(memes@), sort).take(i + 1) =~= meme_keys(meme_views(memes@), sort).take(i as int).push(meme_key(memes@[i as int]@, sort)));
        i = i + 1;
    }
    assert(meme_keys(meme_views(memes@), sort).take(memes.len() as int) =~= meme_keys(meme_views(memes@), sort));
    let p = sort_order(&keys);
    assert(keys@.len() == key_views(keys@).len());
    let mut out: Vec<Meme> = Vec::new();
    let mut j: usize = 0;
    while j < p.len()
        invariant
            j <= p.len(),
            is_permutation(p@, memes@.len() as int),
            meme_views(out@) == arranged(meme_views(memes@), p@).take(j as int),
        decreases p.len() - j,
    {
        let ghost prev = meme_views(out@);
        out.push(memes[p[j]].duplicate());
        assert(meme_views(out@) =~= prev.push(memes@[p@[j as int] as int]@));
        assert(arranged(meme_views(memes@), p@).take(j + 1) =~= arranged(meme_views(memes@), p@).take(j as int).push(memes@[p@[j as int] as int]@));
        j = j + 1;
    }
    assert(arranged(meme_views(memes@), p@).take(p.len() as int) =~= arranged(meme_views(memes@), p@));
    out
}

/// Counts over the library.
#[derive(Debug, Clone, Copy, PartialEq, Eq)]
pub struct LibraryStats {
    pub count: u64,
    pub favorites: u64,
    pub total_bytes: u64,
}

/// Files that a repair removed.
#[derive(Debug, Clone, Copy, PartialEq, Eq)]
pub struct RepairReport {
    pub removed_json: u64,
    pub removed_media: u64,
}

/// The library as exported for another machine.
#[derive(Debug, Clone)]
pub struct Manifest {
    pub version: u32,
    pub exported_at: String,
    pub memes: Vec<Meme>,
}

/// Version written into exported manifests.
pub const MANIFEST_VERSION: u32 = 1;

/// How an imported manifest combines with the library.
#[derive(Debug, Clone, Copy, PartialEq, Eq, Structural)]
pub enum ImportMode {
    Merge,
}

pub open spec fn favorite_count(ms: Seq<MemeView>) -> int
    decreases ms.len(),
{
    if ms.len() == 0 {
        0
    } else {
        favorite_count(ms.drop_last()) + if ms.last().favorite {
            1int
        } else {
            0int
        }
    }
}

pub open spec fn total_size(ms: Seq<MemeView>) -> int
    decreases ms.len(),
{
    if ms.len() == 0 {
        0
    } else {
        total_size(ms.drop_last()) + ms.last().size_bytes
    }
}

proof fn lemma_total_size_mono(ms: Seq<MemeView>, i: int)
    requires
        0 <= i <= ms.len(),
    ensures
        total_size(ms.take(i)) <= total_size(ms),
        favorite_count(ms.take(i)) <= ms.len(),
    decreases ms.len() - i,
{
    if i < ms.len() {
        lemma_total_size_mono(ms, i + 1);
        assert(ms.take(i + 1).drop_last() =~= ms.take(i));
    } else {
        assert(ms.take(i) =~= ms);
        lemma_favorite_count_bound(ms);
    }
}

proof fn lemma_favorite_count_bound(ms: Seq<MemeView>)
    ensures
        0 <= favorite_count(ms) <= ms.len(),
    decreases ms.len(),
{
    if ms.len() > 0 {
        lemma_favorite_count_bound(ms.drop_last());
    }
}

/// Library totals add up: the favorites and the bytes of two lists together
/// are those of each list added, and one meme counts itself as a favorite
/// when it is one and brings its own size.
pub proof fn lemma_stats_add_up(a: Seq<MemeView>, b: Seq<MemeView>, m: MemeView)
    ensures
        favorite_count(a + b) == favorite_count(a) + favorite_count(b),
        total_size(a + b) == total_size(a) + total_size(b),
        favorite_count(seq![m]) == (if m.favorite { 1int } else { 0int }),
        total_size(seq![m]) == m.size_bytes,
        0 <= favorite_count(a) <= a.len(),
    decreases b.len(),
{
    assert(seq![m].drop_last() =~= Seq::<MemeView>::empty());
    assert(seq![m].last() == m);
    assert(favorite_count(Seq::<MemeView>::empty()) == 0);
    assert(total_size(Seq::<MemeView>::empty()) == 0);
    assert(favorite_count(seq![m]) == favorite_count(seq![m].drop_last()) + if seq![m].last().favorite {
        1int
    } else {
        0int
    });
    assert(total_size(seq![m]) == total_size(seq![m].drop_last()) + seq![m].last().size_bytes);
    if b.len() > 0 {
        lemma_stats_add_up(a, b.drop_last(), m);
        assert((a + b).drop_last() =~= a + b.drop_last());
        assert((a + b).last() == b.last());
    } else {
        assert(a + b =~= a);
        lemma_favorites_bounded(a);
    }
}

proof fn lemma_favorites_bounded(a: Seq<MemeView>)
    ensures
        0 <= favorite_count(a) <= a.len(),
    decreases a.len(),
{
    if a.len() > 0 {
        lemma_favorites_bounded(a.drop_last());
    }
}

/// Number of memes, of favorites, and the sum of their sizes.
pub fn compute_library_stats(memes: &Vec<Meme>) -> (r: LibraryStats)
    requires
        total_size(meme_views(memes@)) <= u64::MAX,
    ensures
        r.count == memes@.len(),
        r.favorites == favorite_count(meme_views(memes@)),
        r.total_bytes == total_size(meme_views(memes@)),
{
    let ghost ms = meme_views(memes@);
    let mut favorites: u64 = 0;
    let mut total: u64 = 0;
    let mut i: usize = 0;
    while i < memes.len()
        invariant
            i <= memes.len(),
            ms == meme_views(memes@),
            total_size(ms) <= u64::MAX,
            favorites == favorite_count(ms.take(i as int)),
            total == total_size(ms.take(i as int)),
            favorites <= i,
        decreases memes.len() - i,
    {
        proof {
            assert(ms.take(i + 1).drop_last() =~= ms.take(i as int));
            assert(ms.take(i + 1).last() == memes@[i as int]@);
            lemma_total_size_mono(ms, i + 1);
        }
        if memes[i].favorite {
            favorites = favorites + 1;
        }
        total = total + memes[i].size_bytes;
        i = i + 1;
    }
    assert(ms.take(memes.len() as int) =~= ms);
    LibraryStats { count: memes.len() as u64, favorites, total_bytes: total }
}

/// The first meme with the given content hash.
pub fn find_by_hash(memes: &Vec<Meme>, hash: &String) -> (r: Option<Meme>)
    ensures
        match r {
            Some(m) => exists|i: int|
                0 <= i < memes@.len() && memes@[i]@ == m@ && m@.content_hash == hash@ && forall|k: int|
                    0 <= k < i ==> memes@[k]@.content_hash != hash@,
            None => forall|k: int| 0 <= k < memes@.len() ==> memes@[k]@.content_hash != hash@,
        },
{
    let mut i: usize = 0;
    while i < memes.len()
        invariant
            i <= memes.len(),
            forall|k: int| 0 <= k < i ==> memes@[k]@.content_hash != hash@,
        decreases memes.len() - i,
    {
        if memes[i].content_hash == *hash {
            let m = memes[i].duplicate();
            assert(0 <= i < memes@.len() && memes@[i as int]@ == m@);
            return Some(m);
        }
        i = i + 1;
    }
    None
}

/// A manifest entry may be merged when no meme of the library has its id,
/// nor (when it has one) its content hash, and its media file is present.
pub open spec fn importable(library: Seq<MemeView>, m: MemeView, media_present: bool) -> bool {
    &&& !(exists|k: int| 0 <= k < library.len() && library[k].id == m.id)
    &&& !(m.content_hash.len() > 0 && exists|k: int|
        0 <= k < library.len() && library[k].content_hash == m.content_hash)
    &&& media_present
}

/// The entries whose flag in `picks` is set, in order.
pub open spec fn chosen(incoming: Seq<MemeView>, picks: Seq<bool>) -> Seq<MemeView>
    decreases picks.len(),
{
    if picks.len() == 0 {
        Seq::empty()
    } else {
        let c = chosen(incoming, picks.drop_last());
        if picks.last() {
            c.push(incoming[picks.len() - 1])
        } else {
            c
        }
    }
}

/// Merge decisions for the first `n` entries: each entry is checked against
/// the library as it stands when the entry is reached, that is, the memes
/// there before plus the entries merged earlier in the same import.
pub open spec fn import_picks(existing: Seq<MemeView>, incoming: Seq<MemeView>, present: Seq<bool>, n: int) -> Seq<bool>
    decreases n,
{
    if n <= 0 {
        Seq::empty()
    } else {
        let p = import_picks(existing, incoming, present, n - 1);
        p.push(importable(existing + chosen(incoming, p), incoming[n - 1], present[n - 1]))
    }
}

proof fn lemma_import_picks_len(existing: Seq<MemeView>, incoming: Seq<MemeView>, present: Seq<bool>, n: int)
    requires
        0 <= n,
    ensures
        import_picks(existing, incoming, present, n).len() == n,
    decreases n,
{
    if n > 0 {
        lemma_import_picks_len(existing, incoming, present, n - 1);
    }
}

/// For each manifest entry, whether merge mode imports it: not when a meme
/// of the library, or an entry merged before it in this import, has its id
/// or its (non-empty) content hash, nor when its media file is missing.
pub fn select_imports(existing: &Vec<Meme>, incoming: &Vec<Meme>, media_present: &Vec<bool>) -> (r: Vec<bool>)
    requires
        media_present@.len() == incoming@.len(),
    ensures
        r@ == import_picks(meme_views(existing@), meme_views(incoming@), media_present@, incoming@.len() as int),
{
    let ghost ex = meme_views(existing@);
    let ghost inc = meme_views(incoming@);
    let mut out: Vec<bool> = Vec::new();
    let mut taken: Vec<Meme> = Vec::new();
    let mut i: usize = 0;
    assert(meme_views(taken@) =~= chosen(inc, out@));
    while i < incoming.len()
        invariant
            i <= incoming.len(),
            media_present@.len() == incoming@.len(),
            ex == meme_views(existing@),
            inc == meme_views(incoming@),
            out@ == import_picks(ex, inc, media_present@, i as int),
            out@.len() == i,
            meme_views(taken@) == chosen(inc, out@),
        decreases incoming.len() - i,
    {
        let m = &incoming[i];
        assert(m@ == inc[i as int]);
        let id_exists = any_with_id(existing, &m.id);
        let hash_exists = any_with_hash(existing, &m.content_hash);
        let cid = any_with_id(&taken, &m.id);
        let chash = any_with_hash(&taken, &m.content_hash);
        let hash_given = !string_is_empty(&m.content_hash);
        let pick = !id_exists && !cid && !(hash_given && (hash_exists || chash)) && media_present[i];
        proof {
            lemma_library_clash(ex, meme_views(taken@), m@);
        }
        let ghost before = out@;
        out.push(pick);
        proof {
            assert(out@.drop_last() =~= before);
            lemma_import_picks_len(ex, inc, media_present@, i as int);
        }
        if pick {
            let ghost tb = meme_views(taken@);
            taken.push(m.duplicate());
            assert(meme_views(taken@) =~= tb.push(inc[i as int]));
        }
        i = i + 1;
    }
    out
}

/// Some meme of the list has the id.
fn any_with_id(ms: &Vec<Meme>, id: &String) -> (r: bool)
    ensures
        r == exists|j: int| 0 <= j < ms@.len() && meme_views(ms@)[j].id == id@,
{
    let mut k: usize = 0;
    while k < ms.len()
        invariant
            k <= ms.len(),
            forall|j: int| 0 <= j < k ==> meme_views(ms@)[j].id != id@,
        decreases ms.len() - k,
    {
        assert(meme_views(ms@)[k as int] == ms@[k as int]@);
        if ms[k].id == *id {
            return true;
        }
        k = k + 1;
    }
    false
}

/// Some meme of the list has the content hash.
fn any_with_hash(ms: &Vec<Meme>, hash: &String) -> (r: bool)
    ensures
        r == exists|j: int| 0 <= j < ms@.len() && meme_views(ms@)[j].content_hash == hash@,
{
    let mut k: usize = 0;
    while k < ms.len()
        invariant
            k <= ms.len(),
            forall|j: int| 0 <= j < k ==> meme_views(ms@)[j].content_hash != hash@,
        decreases ms.len() - k,
    {
        assert(meme_views(ms@)[k as int] == ms@[k as int]@);
        if ms[k].content_hash == *hash {
            return true;
        }
        k = k + 1;
    }
    false
}

/// The library followed by the merged entries has a meme with the id (hash)
/// when one of the two parts has.
proof fn lemma_library_clash(ex: Seq<MemeView>, c: Seq<MemeView>, m: MemeView)
    ensures
        (exists|k: int| 0 <= k < (ex + c).len() && (ex + c)[k].id == m.id) == ((exists|j: int|
            0 <= j < ex.len() && ex[j].id == m.id) || (exists|j: int| 0 <= j < c.len() && c[j].id == m.id)),
        (exists|k: int| 0 <= k < (ex + c).len() && (ex + c)[k].content_hash == m.content_hash) == ((exists|j: int|
            0 <= j < ex.len() && ex[j].content_hash == m.content_hash) || (exists|j: int|
            0 <= j < c.len() && c[j].content_hash == m.content_hash)),
{
    let l = ex + c;
    if exists|k: int| 0 <= k < l.len() && l[k].id == m.id {
        let k = choose|k: int| 0 <= k < l.len() && l[k].id == m.id;
        if k >= ex.len() {
            assert(l[k] == c[k - ex.len()]);
        } else {
            assert(l[k] == ex[k]);
        }
    }
    if exists|j: int| 0 <= j < c.len() && c[j].id == m.id {
        let j = choose|j: int| 0 <= j < c.len() && c[j].id == m.id;
        assert(l[ex.len() + j] == c[j]);
    }
    if exists|j: int| 0 <= j < ex.len() && ex[j].id == m.id {
        let j = choose|j: int| 0 <= j < ex.len() && ex[j].id == m.id;
        assert(l[j] == ex[j]);
    }
    if exists|k: int| 0 <= k < l.len() && l[k].content_hash == m.content_hash {
        let k = choose|k: int| 0 <= k < l.len() && l[k].content_hash == m.content_hash;
        if k >= ex.len() {
            assert(l[k] == c[k - ex.len()]);
        } else {
            assert(l[k] == ex[k]);
        }
    }
    if exists|j: int| 0 <= j < c.len() && c[j].content_hash == m.content_hash {
        let j = choose|j: int| 0 <= j < c.len() && c[j].content_hash == m.content_hash;
        assert(l[ex.len() + j] == c[j]);
    }
    if exists|j: int| 0 <= j < ex.len() && ex[j].content_hash == m.content_hash {
        let j = choose|j: int| 0 <= j < ex.len() && ex[j].content_hash == m.content_hash;
        assert(l[j] == ex[j]);
    }
}

/// A picked entry is among the chosen ones.
proof fn lemma_chosen_member(incoming: Seq<MemeView>, picks: Seq<bool>, j: int) -> (x: int)
    requires
        picks.len() <= incoming.len(),
        0 <= j < picks.len(),
        picks[j],
    ensures
        0 <= x < chosen(incoming, picks).len(),
        chosen(incoming, picks)[x] == incoming[j],
    decreases picks.len(),
{
    let d = picks.drop_last();
    let c0 = chosen(incoming, d);
    let c = chosen(incoming, picks);
    if j == picks.len() - 1 {
        assert(picks.last());
        c0.len() as int
    } else {
        assert(d[j] == picks[j]);
        let x = lemma_chosen_member(incoming, d, j);
        if picks.last() {
            assert(c[x] == c0[x]);
        }
        x
    }
}

/// Merge never imports two entries with the same id, nor two with the same
/// non-empty content hash, nor one that clashes with the library.
pub proof fn lemma_merge_picks_distinct(existing: Seq<MemeView>, incoming: Seq<MemeView>, present: Seq<bool>)
    requires
        present.len() == incoming.len(),
    ensures
        forall|i: int, k: int|
            0 <= i < k < incoming.len() && #[trigger] import_picks(existing, incoming, present, incoming.len() as int)[i]
                && #[trigger] import_picks(existing, incoming, present, incoming.len() as int)[k] ==> incoming[i].id
                != incoming[k].id && (incoming[k].content_hash.len() > 0 ==> incoming[i].content_hash
                != incoming[k].content_hash),
{
    let n = incoming.len() as int;
    let p = import_picks(existing, incoming, present, n);
    lemma_import_picks_len(existing, incoming, present, n);
    assert forall|i: int, k: int| 0 <= i < k < n && #[trigger] p[i] && #[trigger] p[k] implies incoming[i].id
        != incoming[k].id && (incoming[k].content_hash.len() > 0 ==> incoming[i].content_hash
        != incoming[k].content_hash) by {
        lemma_import_picks_prefix(existing, incoming, present, k + 1, n);
        lemma_import_picks_prefix(existing, incoming, present, k, n);
        let pk = import_picks(existing, incoming, present, k);
        lemma_import_picks_len(existing, incoming, present, k);
        assert(import_picks(existing, incoming, present, k + 1)[k] == p[k]);
        assert(pk[i] == p[i]);
        let x = lemma_chosen_member(incoming, pk, i);
        let lib = existing + chosen(incoming, pk);
        assert(lib[existing.len() + x] == incoming[i]);
    }
}

/// Later decisions never change earlier ones.
proof fn lemma_import_picks_prefix(existing: Seq<MemeView>, incoming: Seq<MemeView>, present: Seq<bool>, m: int, n: int)
    requires
        0 <= m <= n,
    ensures
        forall|j: int| 0 <= j < m ==> #[trigger] import_picks(existing, incoming, present, m)[j]
            == import_picks(existing, incoming, present, n)[j],
    decreases n - m,
{
    if m < n {
        lemma_import_picks_prefix(existing, incoming, present, m, n - 1);
        lemma_import_picks_len(existing, incoming, present, n - 1);
        assert forall|j: int| 0 <= j < m implies #[trigger] import_picks(existing, incoming, present, m)[j]
            == import_picks(existing, incoming, present, n)[j] by {
            assert(import_picks(existing, incoming, present, n)[j] == import_picks(existing, incoming, present, n - 1)[j]);
        }
    }
}

/// A manifest entry as merge mode writes it: normalized, and updated now
/// when it still has no update time.
pub fn prepare_import(m: Meme) -> (r: Meme)
    ensures
        r@ == (MemeView {
            updated_at: if normalized(m@).updated_at.len() == 0 {
                r@.updated_at
            } else {
                normalized(m@).updated_at
            },
            ..normalized(m@)
        }),
        r@.updated_at.len() > 0,
{
    let mut n = m.normalize();
    if string_is_empty(&n.updated_at) {
        n.updated_at = now_rfc3339();
    }
    n
}

/// How many flags are set.
pub open spec fn count_set(flags: Seq<bool>) -> nat
    decreases flags.len(),
{
    if flags.len() == 0 {
        0
    } else {
        count_set(flags.drop_last()) + if flags.last() {
            1nat
        } else {
            0nat
        }
    }
}

/// `r` is the manifest entry `m` as an import writes it: normalized, with a
/// time of update (its own, or the time of the import).
pub open spec fn imported_as(r: MemeView, m: MemeView) -> bool {
    &&& r == (MemeView {
        updated_at: if normalized(m).updated_at.len() == 0 {
            r.updated_at
        } else {
            normalized(m).updated_at
        },
        ..normalized(m)
    })
    &&& r.updated_at.len() > 0
}

proof fn lemma_chosen_count(incoming: Seq<MemeView>, picks: Seq<bool>)
    ensures
        chosen(incoming, picks).len() == count_set(picks),
    decreases picks.len(),
{
    if picks.len() > 0 {
        lemma_chosen_count(incoming, picks.drop_last());
    }
}

/// The records that merging a manifest writes, in order: each entry that
/// `select_imports` picks, prepared for import. Their number is the count
/// that the merge reports: the number of picked entries.
pub fn merge_records(existing: &Vec<Meme>, incoming: &Vec<Meme>, media_present: &Vec<bool>) -> (r: Vec<Meme>)
    requires
        media_present@.len() == incoming@.len(),
    ensures
        r@.len() == count_set(
            import_picks(meme_views(existing@), meme_views(incoming@), media_present@, incoming@.len() as int),
        ),
        r@.len() == chosen(
            meme_views(incoming@),
            import_picks(meme_views(existing@), meme_views(incoming@), media_present@, incoming@.len() as int),
        ).len(),
        forall|k: int|
            0 <= k < r@.len() ==> imported_as(
                #[trigger] r@[k]@,
                chosen(
                    meme_views(incoming@),
                    import_picks(
                        meme_views(existing@),
                        meme_views(incoming@),
                        media_present@,
                        incoming@.len() as int,
                    ),
                )[k],
            ),
{
    let picks = select_imports(existing, incoming, media_present);
    let ghost inc = meme_views(incoming@);
    proof {
        lemma_import_picks_len(meme_views(existing@), inc, media_present@, incoming@.len() as int);
    }
    let mut out: Vec<Meme> = Vec::new();
    let mut i: usize = 0;
    assert(picks@.take(0) =~= Seq::<bool>::empty());
    while i < incoming.len()
        invariant
            i <= incoming.len(),
            picks@.len() == incoming@.len(),
            inc == meme_views(incoming@),
            out@.len() == chosen(inc, picks@.take(i as int)).len(),
            forall|k: int| 0 <= k < out@.len() ==> imported_as(#[trigger] out@[k]@, chosen(inc, picks@.take(i as int))[k]),
        decreases incoming.len() - i,
    {
        let ghost prev = chosen(inc, picks@.take(i as int));
        assert(picks@.take(i + 1).drop_last() =~= picks@.take(i as int));
        assert(picks@.take(i + 1).last() == picks@[i as int]);
        if picks[i] {
            let m = prepare_import(incoming[i].duplicate());
            assert(chosen(inc, picks@.take(i + 1)) == prev.push(inc[i as int]));
            out.push(m);
        }
        i = i + 1;
    }
    assert(picks@.take(incoming.len() as int) =~= picks@);
    proof {
        lemma_chosen_count(inc, picks@);
    }
    out
}

// ---------------------------------------------------------------------------
// Hashes, ids, and clock.
// ---------------------------------------------------------------------------

/// Lowercase hex text of the SHA-256 digest of some bytes.
pub uninterp spec fn sha256_hex(bytes: Seq<u8>) -> Seq<char>;

/// `sha2::Sha256` over the bytes, printed with `{:x}`. The contract names the
/// result, a function of the bytes alone, and states its length: the digest
/// has 32 bytes and generic-array prints each as two hex digits.
#[verifier::external_body]
fn hash_bytes(bytes: &Vec<u8>) -> (r: String)
    ensures
        r@ == sha256_hex(bytes@),
        r@.len() == 64,
{
    let mut hasher = Sha256::new();
    hasher.update(bytes.as_slice());
    format!("{:x}", hasher.finalize())
}

/// `time::OffsetDateTime::now_utc` formatted as RFC 3339 (or the epoch when
/// formatting fails). The time is the machine's: the contract states only
/// what every outcome has, the fixed `YYYY-MM-DDTHH:MM:SS` head and a zone
/// mark, so at least 20 characters.
#[verifier::external_body]
pub(crate) fn now_rfc3339() -> (r: String)
    ensures
        r@.len() >= 20,
{
    OffsetDateTime::now_utc().format(&Rfc3339).unwrap_or_else(|_| "1970-01-01T00:00:00Z".to_string())
}

/// A fresh id: `uuid::Uuid::new_v4` in its hyphenated text form. The id is
/// random; the contract states only its length (36 characters, as the
/// hyphenated form always has).
#[verifier::external_body]
pub(crate) fn new_uuid() -> (r: String)
    ensures
        r@.len() == 36,
{
    uuid::Uuid::new_v4().to_string()
}

// ---------------------------------------------------------------------------
// Adding media.
// ---------------------------------------------------------------------------

/// What saving media gives back: the library's meme with the same content,
/// or a new record (whose files the caller then writes).
pub enum NewMeme {
    Existing(Meme),
    Created(Meme),
}

/// The record of newly saved media: a fresh id, `<id>.<ext>` as file name,
/// the size and hash of the bytes, not yet used, created and updated `now`.
pub open spec fn fresh_meme(
    id: Seq<char>,
    name: Seq<char>,
    extension: Seq<char>,
    tags: Seq<Seq<char>>,
    size: nat,
    hash: Seq<char>,
    now: Seq<char>,
) -> MemeView {
    MemeView {
        id,
        name,
        filename: id + "."@ + extension,
        extension,
        tags,
        aliases: Seq::empty(),
        size_bytes: size as u64,
        content_hash: hash,
        favorite: false,
        use_count: 0,
        last_used_at: None,
        created_at: now,
        updated_at: now,
    }
}

/// `m` is the first library meme whose content hash is `hash`.
pub open spec fn first_with_hash(existing: Seq<MemeView>, hash: Seq<char>, m: MemeView) -> bool {
    exists|i: int|
        0 <= i < existing.len() && existing[i] == m && m.content_hash == hash && forall|k: int|
            0 <= k < i ==> existing[k].content_hash != hash
}

/// What saving `bytes` yields: the existing meme with the same hash, or a
/// fresh record.
pub open spec fn is_new_meme_for(
    r: NewMeme,
    existing: Seq<MemeView>,
    bytes: Seq<u8>,
    extension: Seq<char>,
    name: Seq<char>,
    tags: Seq<Seq<char>>,
) -> bool {
    let hash = sha256_hex(bytes);
    match r {
        NewMeme::Existing(m) => first_with_hash(existing, hash, m@),
        NewMeme::Created(m) => {
            &&& forall|k: int| 0 <= k < existing.len() ==> existing[k].content_hash != hash
            &&& m@ == fresh_meme(m@.id, name, extension, tags, bytes.len(), hash, m@.created_at)
            &&& m@.id.len() == 36
            &&& m@.created_at.len() >= 20
        },
    }
}

/// Dedup by content: the library's meme with the same SHA-256, else a new
/// record for the bytes.
pub fn plan_new_meme(
    existing: &Vec<Meme>,
    bytes: &Vec<u8>,
    extension: &str,
    name: String,
    tags: Vec<String>,
) -> (r: NewMeme)
    ensures
        is_new_meme_for(r, meme_views(existing@), bytes@, extension@, name@, views(tags@)),
{
    let hash = hash_bytes(bytes);
    match find_by_hash(existing, &hash) {
        Some(m) => {
            proof {
                let i = choose|i: int|
                    0 <= i < existing@.len() && existing@[i]@ == m@ && m@.content_hash == hash@
                        && forall|k: int| 0 <= k < i ==> existing@[k]@.content_hash != hash@;
                let ev = meme_views(existing@);
                assert(ev[i] == existing@[i]@);
                assert forall|k: int| 0 <= k < i implies ev[k].content_hash != hash@ by {
                    assert(ev[k] == existing@[k]@);
                }
                assert(first_with_hash(ev, hash@, m@));
            }
            return NewMeme::Existing(m);
        },
        None => {},
    }
    let id = new_uuid();
    let mut filename = copy_string(&id);
    filename.append(".");
    filename.append(extension);
    let now = now_rfc3339();
    let m = Meme {
        id,
        name,
        filename,
        extension: string_of(&chars_of(extension)),
        tags,
        aliases: Vec::new(),
        size_bytes: bytes.len() as u64,
        content_hash: hash,
        favorite: false,
        use_count: 0,
        last_used_at: None,
        created_at: copy_string(&now),
        updated_at: now,
    };
    proof {
        assert(meme_views(existing@).len() == existing@.len());
        assert forall|k: int| 0 <= k < existing@.len() implies meme_views(existing@)[k].content_hash != sha256_hex(bytes@) by {
            assert(meme_views(existing@)[k] == existing@[k]@);
        }
        assert(views(m.aliases@) =~= Seq::<Seq<char>>::empty());
    }
    NewMeme::Created(m)
}

/// What saving raw bytes decides: the extension must be allowed, the bytes
/// must not be empty, the name defaults to `meme`, the tags to none.
pub fn prepare_meme_bytes(
    existing: &Vec<Meme>,
    bytes: &Vec<u8>,
    extension: &str,
    name: Option<String>,
    tags: Option<Vec<String>>,
) -> (r: Result<NewMeme, String>)
    ensures
        !allowed_extension(clean_extension(extension@)) ==> (r matches Err(msg) && msg@
            == "unsupported extension '"@ + clean_extension(extension@)
            + "'; allowed: gif, webp, png, jpg, jpeg"@),
        allowed_extension(clean_extension(extension@)) && bytes@.len() == 0 ==> (r matches Err(msg)
            && msg@ == "cannot save empty meme bytes"@),
        allowed_extension(clean_extension(extension@)) && bytes@.len() > 0 ==> (r matches Ok(n)
            && is_new_meme_for(
            n,
            meme_views(existing@),
            bytes@,
            clean_extension(extension@),
            match name {
                Some(x) => x@,
                None => "meme"@,
            },
            match tags {
                Some(t) => views(t@),
                None => Seq::empty(),
            },
        )),
{
    let ext = match normalize_extension(extension) {
        Ok(e) => e,
        Err(msg) => {
            return Err(msg);
        },
    };
    if bytes.len() == 0 {
        return Err(String::from_str("cannot save empty meme bytes"));
    }
    let name = match name {
        Some(n) => n,
        None => String::from_str("meme"),
    };
    let tags = match tags {
        Some(t) => t,
        None => {
            let t: Vec<String> = Vec::new();
            assert(views(t@) =~= Seq::<Seq<char>>::empty());
            t
        },
    };
    Ok(plan_new_meme(existing, bytes, ext.as_str(), name, tags))
}

/// What saving a file decides once it is read: the extension must be
/// allowed; the name defaults to the file's stem, else `meme`; the tags to
/// none.
pub fn prepare_meme_file(
    existing: &Vec<Meme>,
    bytes: &Vec<u8>,
    extension: &str,
    name: Option<String>,
    stem: Option<String>,
    tags: Option<Vec<String>>,
) -> (r: Result<NewMeme, String>)
    ensures
        !allowed_extension(clean_extension(extension@)) ==> (r matches Err(msg) && msg@
            == "unsupported extension '"@ + clean_extension(extension@)
            + "'; allowed: gif, webp, png, jpg, jpeg"@),
        allowed_extension(clean_extension(extension@)) ==> (r matches Ok(n) && is_new_meme_for(
            n,
            meme_views(existing@),
            bytes@,
            clean_extension(extension@),
            match name {
                Some(x) => x@,
                None => match stem {
                    Some(s) => s@,
                    None => "meme"@,
                },
            },
            match tags {
                Some(t) => views(t@),
                None => Seq::empty(),
            },
        )),
{
    let ext = match normalize_extension(extension) {
        Ok(e) => e,
        Err(msg) => {
            return Err(msg);
        },
    };
    let name = match name {
        Some(n) => n,
        None => match stem {
            Some(s) => s,
            None => String::from_str("meme"),
        },
    };
    let tags = match tags {
        Some(t) => t,
        None => {
            let t: Vec<String> = Vec::new();
            assert(views(t@) =~= Seq::<Seq<char>>::empty());
            t
        },
    };
    Ok(plan_new_meme(existing, bytes, ext.as_str(), name, tags))
}

// ---------------------------------------------------------------------------
// Changing a meme.
// ---------------------------------------------------------------------------

impl Meme {
    /// After a paste: one more use (saturating), last used and updated now.
    pub fn record_use(self) -> (r: Meme)
        ensures
            r@ == (MemeView {
                use_count: if self@.use_count == u64::MAX {
                    u64::MAX
                } else {
                    (self@.use_count + 1) as u64
                },
                last_used_at: r@.last_used_at,
                updated_at: r@.updated_at,
                ..self@
            }),
            r@.last_used_at matches Some(t) && t.len() >= 20,
            r@.updated_at.len() >= 20,
    {
        let mut m = self;
        m.use_count = m.use_count.saturating_add(1);
        m.last_used_at = Some(now_rfc3339());
        m.updated_at = now_rfc3339();
        m
    }

    /// Set or clear the star; updated now.
    pub fn set_favorite(self, favorite: bool) -> (r: Meme)
        ensures
            r@ == (MemeView { favorite, updated_at: r@.updated_at, ..self@ }),
            r@.updated_at.len() >= 20,
    {
        let mut m = self;
        m.favorite = favorite;
        m.updated_at = now_rfc3339();
        m
    }

    /// Patch the name, tags, and aliases that are given; updated now.
    pub fn update(self, name: Option<String>, tags: Option<Vec<String>>, aliases: Option<Vec<String>>) -> (r: Meme)
        ensures
            r@ == (MemeView {
                name: match name {
                    Some(n) => n@,
                    None => self@.name,
                },
                tags: match tags {
                    Some(t) => views(t@),
                    None => self@.tags,
                },
                aliases: match aliases {
                    Some(a) => views(a@),
                    None => self@.aliases,
                },
                updated_at: r@.updated_at,
                ..self@
            }),
            r@.updated_at.len() >= 20,
    {
        let mut m = self;
        match name {
            Some(n) => {
                m.name = n;
            },
            None => {},
        }
        match tags {
            Some(t) => {
                m.tags = t;
            },
            None => {},
        }
        match aliases {
            Some(a) => {
                m.aliases = a;
            },
            None => {},
        }
        m.updated_at = now_rfc3339();
        m
    }
}

/// The library's metadata for another machine: the format version, the
/// time, and every meme.
pub fn export_manifest(memes: Vec<Meme>) -> (r: Manifest)
    ensures
        r.version == MANIFEST_VERSION,
        meme_views(r.memes@) == meme_views(memes@),
        r.exported_at@.len() >= 20,
{
    Manifest { version: MANIFEST_VERSION, exported_at: now_rfc3339(), memes }
}


/// Saving the same bytes again returns the meme the first save created: once
/// the new record is in the library, planning the same bytes finds it.
pub proof fn lemma_save_twice_returns_first(
    existing: Seq<MemeView>,
    bytes: Seq<u8>,
    extension: Seq<char>,
    name: Seq<char>,
    tags: Seq<Seq<char>>,
    first: NewMeme,
    again: NewMeme,
    extension2: Seq<char>,
    name2: Seq<char>,
    tags2: Seq<Seq<char>>,
)
    requires
        first matches NewMeme::Created(_),
        is_new_meme_for(first, existing, bytes, extension, name, tags),
        is_new_meme_for(again, existing.push(first->Created_0@), bytes, extension2, name2, tags2),
    ensures
        again matches NewMeme::Existing(m) && m@ == first->Created_0@,
{
    let m = first->Created_0@;
    let lib = existing.push(m);
    let hash = sha256_hex(bytes);
    assert(lib[existing.len() as int] == m);
    match again {
        NewMeme::Existing(m2) => {
            let i = choose|i: int|
                0 <= i < lib.len() && lib[i] == m2@ && m2@.content_hash == hash && forall|k: int|
                    0 <= k < i ==> lib[k].content_hash != hash;
            if i < existing.len() {
                assert(lib[i] == existing[i]);
            }
        },
        NewMeme::Created(_) => {
            assert(lib[existing.len() as int].content_hash == hash);
        },
    }
}

/// A merged manifest entry is skipped by a later merge of the same entry:
/// its id is then in the library.
pub proof fn lemma_merge_skips_imported(existing: Seq<MemeView>, m: MemeView, updated_at: Seq<char>, present: bool)
    ensures
        !importable(existing.push(MemeView { updated_at, ..normalized(m) }), m, present),
{
    let lib = existing.push(MemeView { updated_at, ..normalized(m) });
    assert(lib[existing.len() as int].id == m.id);
}

} // verus!
