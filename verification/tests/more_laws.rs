use memebin::index::InvertedIndex;
use memebin::parse::parse_query;
use memebin::storage::bindings::Binding;
use memebin::storage::meme::Meme;
use memebin::storage::search::{enrich_aliases_from_bindings, SearchIndexCache};
use memebin::storage::{merge_records, sort_memes, MemeSort};
use memebin::synonyms::SynonymMap;
use memebin::types::Searchable;

fn doc(id: &str, name: &str) -> Searchable {
    Searchable {
        id: id.to_string(),
        name: name.to_string(),
        tags: vec![],
        aliases: vec![],
        extension: "gif".to_string(),
        favorite: false,
        use_count: 0,
        last_used_at: None,
    }
}

fn meme(id: &str, name: &str, created: &str) -> Meme {
    Meme {
        id: id.into(),
        name: name.into(),
        filename: format!("{id}.gif"),
        extension: "gif".into(),
        tags: vec![],
        aliases: vec![],
        size_bytes: 1,
        content_hash: String::new(),
        favorite: false,
        use_count: 0,
        last_used_at: None,
        created_at: created.into(),
        updated_at: created.into(),
    }
}

fn sorted(c: Option<Vec<String>>) -> Option<Vec<String>> {
    c.map(|mut v| {
        v.sort();
        v
    })
}

fn ids(ms: &[Meme]) -> Vec<String> {
    ms.iter().map(|m| m.id.clone()).collect()
}

#[test]
fn build_lists_ids_by_last_occurrence_and_answers_as_last_items() {
    let items = vec![doc("a", "cat"), doc("b", "dog"), doc("a", "bird")];
    let ix = InvertedIndex::build(&items);
    assert_eq!(ix.doc_ids(), &vec!["b".to_string(), "a".to_string()]);
    let last = vec![doc("b", "dog"), doc("a", "bird")];
    let fresh = InvertedIndex::build(&last);
    for q in ["cat", "bird", "dog"] {
        let p = parse_query(q);
        assert_eq!(sorted(ix.candidates(&p)), sorted(fresh.candidates(&p)), "query {q}");
    }
    assert_eq!(ix.candidates(&parse_query("cat")), Some(vec![]));
}

#[test]
fn remove_answers_as_a_fresh_build_without_the_id() {
    let items = vec![doc("a", "cat"), doc("b", "cat dog"), doc("c", "bird")];
    let mut ix = InvertedIndex::build(&items);
    ix.remove(&"b".to_string());
    let fresh = InvertedIndex::build(&vec![doc("a", "cat"), doc("c", "bird")]);
    assert_eq!(ix.doc_ids(), fresh.doc_ids());
    for q in ["cat", "dog", "bird", "fav:true"] {
        let p = parse_query(q);
        assert_eq!(sorted(ix.candidates(&p)), sorted(fresh.candidates(&p)), "query {q}");
    }
    let before = ix.doc_ids().clone();
    ix.remove(&"zzz".to_string());
    assert_eq!(ix.doc_ids(), &before);
}

#[test]
fn listing_orders_follow_the_sort() {
    let mut a = meme("a", "beta", "2024-01-02T00:00:00Z");
    let mut b = meme("b", "Alpha", "2024-01-03T00:00:00Z");
    let mut c = meme("c", "gamma", "2024-01-01T00:00:00Z");
    a.favorite = true;
    b.use_count = 3;
    b.last_used_at = Some("2024-02-01T00:00:00Z".into());
    c.use_count = 5;
    c.last_used_at = Some("2024-02-01T00:00:00Z".into());
    let all = vec![a.clone(), b.clone(), c.clone()];
    assert_eq!(ids(&sort_memes(all.clone(), MemeSort::Created)), vec!["b", "a", "c"]);
    assert_eq!(ids(&sort_memes(all.clone(), MemeSort::Recent)), vec!["c", "b", "a"]);
    assert_eq!(ids(&sort_memes(all.clone(), MemeSort::Favorites)), vec!["a", "b", "c"]);
    assert_eq!(ids(&sort_memes(all, MemeSort::Name)), vec!["b", "a", "c"]);
}

#[test]
fn expansion_adds_only_synonyms_once() {
    let map = SynonymMap::from_map(vec![
        ("lol".to_string(), vec!["lul".to_string(), "kek".to_string()]),
        ("kek".to_string(), vec!["lol".to_string()]),
    ]);
    let e = map.expand_parsed(&parse_query("lol|kek"));
    assert_eq!(e.must_groups.len(), 1);
    let g = &e.must_groups[0];
    for (i, x) in g.iter().enumerate() {
        assert!(!g[i + 1..].contains(x), "repeated {x}");
        assert!(["lol", "kek", "lul"].contains(&x.as_str()), "unexpected {x}");
    }
    assert!(g.contains(&"lul".to_string()));
}

#[test]
fn a_map_without_alternates_is_empty() {
    let m = SynonymMap::from_map(vec![("LOL".to_string(), vec!["lol".to_string(), "".to_string()])]);
    assert!(m.is_empty());
    let m = SynonymMap::from_map(vec![("LOL".to_string(), vec!["LUL".to_string(), "lol".to_string(), "".to_string()])]);
    assert!(!m.is_empty());
    let e = m.expand_parsed(&parse_query("lol"));
    assert_eq!(e.must_groups, vec![vec!["lol".to_string(), "lul".to_string()]]);
}

#[test]
fn enrichment_keeps_aliases_and_adds_bound_triggers() {
    let mut m = meme("m1", "cat", "2024-01-01T00:00:00Z");
    m.aliases = vec!["Kitty".into()];
    let mut memes = vec![m, meme("m2", "dog", "2024-01-01T00:00:00Z")];
    let bindings = vec![
        Binding { id: "b1".into(), trigger: "  KITTY ".into(), meme_id: "m1".into() },
        Binding { id: "b2".into(), trigger: "purr".into(), meme_id: "m1".into() },
        Binding { id: "b3".into(), trigger: "woof".into(), meme_id: "m2".into() },
    ];
    enrich_aliases_from_bindings(&mut memes, &bindings);
    assert_eq!(memes[0].aliases, vec!["Kitty".to_string(), "purr".to_string()]);
    assert_eq!(memes[1].aliases, vec!["woof".to_string()]);
    assert_eq!(memes[0].name, "cat");
}

#[test]
fn the_cache_answers_from_its_first_build_until_cleared() {
    let mut cache = SearchIndexCache::new();
    let first = vec![meme("a", "cat", "2024-01-01T00:00:00Z")];
    let r1 = cache.get_or_build(&first);
    assert_eq!(r1.doc_ids(), &vec!["a".to_string()]);
    let second = vec![meme("b", "dog", "2024-01-01T00:00:00Z")];
    let r2 = cache.get_or_build(&second);
    assert_eq!(r2.doc_ids(), &vec!["a".to_string()]);
    cache.invalidate();
    let r3 = cache.get_or_build(&second);
    assert_eq!(r3.doc_ids(), &vec!["b".to_string()]);
}

#[test]
fn merging_counts_the_records_it_writes() {
    let existing = vec![meme("a", "cat", "2024-01-01T00:00:00Z")];
    let mut dup_hash = meme("c", "x", "2024-01-01T00:00:00Z");
    dup_hash.content_hash = "h".into();
    let mut dup_hash2 = meme("d", "y", "2024-01-01T00:00:00Z");
    dup_hash2.content_hash = "h".into();
    let mut no_update = meme("e", "z", "2024-01-01T00:00:00Z");
    no_update.updated_at = String::new();
    let incoming = vec![
        meme("a", "again", "2024-01-01T00:00:00Z"),
        dup_hash,
        dup_hash2,
        meme("f", "missing", "2024-01-01T00:00:00Z"),
        no_update,
    ];
    let present = vec![true, true, true, false, true];
    let r = merge_records(&existing, &incoming, &present);
    assert_eq!(ids(&r), vec!["c", "e"]);
    assert!(!r[1].updated_at.is_empty());
}

#[test]
fn normalizing_an_extension_twice_gives_the_same() {
    for raw in [" .GIF ", "WebP", "..png", "JPG", "jpeg"] {
        let once = memebin::storage::normalize_extension(raw).unwrap();
        let twice = memebin::storage::normalize_extension(&once).unwrap();
        assert_eq!(once, twice);
    }
}

#[test]
fn ascii_catalog_entries_differ_beyond_case() {
    let mut a = doc("1", "x");
    a.tags = vec!["Cat".into(), "dog".into(), "cat".into()];
    let mut b = doc("2", "y");
    b.tags = vec!["CAT".into(), "Dog".into(), "bird".into(), "Cat_".into()];
    let cat = memebin::pipeline::collect_tags(&vec![a, b]);
    for i in 0..cat.len() {
        for k in i + 1..cat.len() {
            assert!(!cat[i].eq_ignore_ascii_case(&cat[k]), "{} and {}", cat[i], cat[k]);
        }
    }
    assert_eq!(cat.len(), 4);
}
