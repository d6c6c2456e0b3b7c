use memebin::engine::is_match;
use memebin::index::InvertedIndex;
use memebin::parse::parse_query;
use memebin::pipeline::{collect_tags, suggest_tags};
use memebin::storage::bindings::{binding_for_trigger, remove_binding_by_trigger, upsert_binding, Binding};
use memebin::storage::meme::Meme;
use memebin::storage::{plan_new_meme, prepare_import, select_imports, NewMeme};
use memebin::synonyms::SynonymMap;
use memebin::types::Searchable;

fn doc(id: &str, name: &str, tags: &[&str]) -> Searchable {
    Searchable {
        id: id.to_string(),
        name: name.to_string(),
        tags: tags.iter().map(|t| t.to_string()).collect(),
        aliases: vec![],
        extension: "gif".to_string(),
        favorite: false,
        use_count: 0,
        last_used_at: None,
    }
}

#[test]
fn strict_hits_are_always_candidates() {
    let items = vec![
        doc("1", "Funny Cat", &["animals"]),
        doc("2", "Bobcats", &[]),
        doc("3", "Doggo", &["catnip"]),
        doc("4", "Bird", &[]),
    ];
    let index = InvertedIndex::build(&items);
    let q = parse_query("cat");
    let c = index.candidates(&q).unwrap();
    for it in &items {
        if is_match(it, &q) && it.id != "4" {
            assert!(c.contains(&it.id), "missing {}", it.id);
        }
    }
    assert!(!c.contains(&"4".to_string()));
}

#[test]
fn fuzzy_hits_are_candidates_too() {
    let items = vec![doc("1", "cat", &[]), doc("2", "cot", &[])];
    let index = InvertedIndex::build(&items);
    let q = parse_query("cat");
    assert!(is_match(&items[1], &q));
    let c = index.candidates(&q).unwrap();
    assert!(c.contains(&"1".to_string()));
    assert!(c.contains(&"2".to_string()));
}

#[test]
fn every_hit_is_a_candidate() {
    let items = vec![doc("a", "cat", &[]), doc("b", "cotton", &[])];
    let index = InvertedIndex::build(&items);
    let q = parse_query("cot cat");
    assert!(is_match(&items[0], &q));
    assert!(index.candidates(&q).unwrap().contains(&"a".to_string()));
}

#[test]
fn removed_documents_are_never_candidates() {
    let items = vec![doc("1", "Funny Cat", &[]), doc("2", "Cat Photo", &[])];
    let mut index = InvertedIndex::build(&items);
    index.remove(&"1".to_string());
    let c = index.candidates(&parse_query("cat")).unwrap();
    assert_eq!(c, vec!["2".to_string()]);
    assert_eq!(index.len(), 1);
}

#[test]
fn one_document_per_distinct_id() {
    let items = vec![doc("1", "Old Name", &[]), doc("2", "Other", &[]), doc("1", "New Name", &[])];
    let index = InvertedIndex::build(&items);
    assert_eq!(index.len(), 2);
    let mut ids = index.doc_ids().clone();
    ids.sort();
    assert_eq!(ids, vec!["1".to_string(), "2".to_string()]);
    assert!(index.candidates(&parse_query("old")).unwrap().is_empty());
    assert_eq!(index.candidates(&parse_query("new")).unwrap(), vec!["1".to_string()]);
}

#[test]
fn candidates_are_documents() {
    let items = vec![doc("1", "Funny Cat", &[]), doc("2", "Doggo", &[])];
    let index = InvertedIndex::build(&items);
    for id in index.candidates(&parse_query("funny OR dog")).unwrap() {
        assert!(index.doc_ids().contains(&id));
    }
}

#[test]
fn expansion_keeps_hits() {
    let map = SynonymMap::from_json_str(r#"{"lol":["lul","lmao"]}"#).unwrap();
    let item = doc("1", "lol moment", &[]);
    let q = parse_query("lol");
    assert!(is_match(&item, &q));
    assert!(is_match(&item, &map.expand_parsed(&q)));
    let other = doc("2", "lmao", &[]);
    assert!(is_match(&other, &map.expand_parsed(&q)));
}

#[test]
fn a_trigger_resolves_to_what_was_last_bound() {
    let mut b: Vec<Binding> = Vec::new();
    upsert_binding(&mut b, "lul", "meme-a");
    upsert_binding(&mut b, "wow", "meme-c");
    upsert_binding(&mut b, " LUL", "meme-b");
    assert_eq!(binding_for_trigger(&b, "lul").unwrap().meme_id, "meme-b");
    assert_eq!(binding_for_trigger(&b, "WOW ").unwrap().meme_id, "meme-c");
    assert_eq!(b.len(), 2);
    assert!(remove_binding_by_trigger(&mut b, "Lul"));
    assert!(binding_for_trigger(&b, "lul").is_none());
    assert_eq!(binding_for_trigger(&b, "wow").unwrap().meme_id, "meme-c");
    assert!(!remove_binding_by_trigger(&mut b, "lul"));
}

#[test]
fn normalizing_twice_changes_nothing() {
    let m = Meme {
        id: "abc".into(),
        name: "test".into(),
        filename: "abc.GIF".into(),
        extension: String::new(),
        tags: vec![],
        aliases: vec![],
        size_bytes: 0,
        content_hash: String::new(),
        favorite: false,
        use_count: 0,
        last_used_at: None,
        created_at: "2024-01-01T00:00:00Z".into(),
        updated_at: String::new(),
    };
    let once = m.normalize();
    let ext = once.extension.clone();
    let updated = once.updated_at.clone();
    let twice = once.normalize();
    assert_eq!(ext, "gif");
    assert_eq!(twice.extension, ext);
    assert_eq!(twice.updated_at, updated);
}

#[test]
fn catalog_represents_every_tag_once_in_order() {
    let items = vec![doc("1", "A", &["Zebra", "cat"]), doc("2", "B", &["CAT", "bird", "zebra"])];
    let tags = collect_tags(&items);
    assert_eq!(tags, vec!["bird".to_string(), "cat".to_string(), "Zebra".to_string()]);
}

#[test]
fn suggestions_come_from_the_catalog() {
    let items = vec![doc("1", "A", &["animals", "lol"]), doc("2", "B", &["angry", "anime"])];
    let catalog = collect_tags(&items);
    let s = suggest_tags(&items, "an", 2);
    assert_eq!(s.len(), 2);
    for t in &s {
        assert!(catalog.contains(t));
    }
    assert_eq!(suggest_tags(&items, "  ", 0), vec!["angry".to_string()]);
    assert_eq!(suggest_tags(&items, "", 10), catalog);
}

#[test]
fn saving_twice_returns_the_first_meme() {
    let bytes = vec![4u8, 5, 6];
    let first = match plan_new_meme(&vec![], &bytes, "gif", "a".into(), vec![]) {
        NewMeme::Created(m) => m,
        NewMeme::Existing(_) => panic!("empty library"),
    };
    match plan_new_meme(&vec![first.clone()], &bytes, "png", "b".into(), vec![]) {
        NewMeme::Existing(m) => assert_eq!(m.id, first.id),
        NewMeme::Created(_) => panic!("saved twice"),
    }
}

#[test]
fn merged_entries_are_skipped_next_time() {
    let mut m = Meme {
        id: "x".into(),
        name: "n".into(),
        filename: "x.gif".into(),
        extension: String::new(),
        tags: vec![],
        aliases: vec![],
        size_bytes: 1,
        content_hash: String::new(),
        favorite: false,
        use_count: 0,
        last_used_at: None,
        created_at: "2024-01-01T00:00:00Z".into(),
        updated_at: String::new(),
    };
    assert_eq!(select_imports(&vec![], &vec![m.clone()], &vec![true]), vec![true]);
    let written = prepare_import(m.clone());
    m.name = "renamed".into();
    assert_eq!(select_imports(&vec![written], &vec![m], &vec![true]), vec![false]);
}

#[test]
fn negated_ext_and_fav_are_ignored() {
    let q = parse_query("cat -ext:gif -fav:1 -is:fav");
    assert!(q.extensions.is_empty());
    assert!(!q.favorites_only);
    assert!(q.excluded_tokens.is_empty());
    assert_eq!(q.must_groups, vec![vec!["cat".to_string()]]);
}

#[test]
fn document_ids_follow_last_occurrence() {
    let items = vec![doc("1", "a", &[]), doc("2", "b", &[]), doc("3", "c", &[]), doc("1", "d", &[])];
    let mut index = InvertedIndex::build(&items);
    assert_eq!(index.doc_ids(), &vec!["2".to_string(), "3".to_string(), "1".to_string()]);
    index.remove(&"3".to_string());
    assert_eq!(index.doc_ids(), &vec!["2".to_string(), "1".to_string()]);
}

#[test]
fn builds_keeping_the_same_items_answer_alike() {
    let a = vec![doc("1", "Old Cat", &[]), doc("2", "Dog", &["pet"]), doc("1", "Funny Cat", &[])];
    let b = vec![doc("2", "Dog", &["pet"]), doc("1", "Funny Cat", &[])];
    let ia = InvertedIndex::build(&a);
    let ib = InvertedIndex::build(&b);
    for query in ["cat", "old", "dog #pet", "funny OR dog"] {
        let mut ca = ia.candidates(&parse_query(query)).unwrap();
        let mut cb = ib.candidates(&parse_query(query)).unwrap();
        ca.sort();
        cb.sort();
        assert_eq!(ca, cb, "{query}");
    }
}

#[test]
fn removing_keeps_other_candidates() {
    let items = vec![doc("1", "Funny Cat", &[]), doc("2", "Cat Photo", &[]), doc("3", "Cat Nap", &[])];
    let mut index = InvertedIndex::build(&items);
    let mut before = index.candidates(&parse_query("cat")).unwrap();
    index.remove(&"2".to_string());
    let mut after = index.candidates(&parse_query("cat")).unwrap();
    before.retain(|d| d != "2");
    before.sort();
    after.sort();
    assert_eq!(before, after);
}
