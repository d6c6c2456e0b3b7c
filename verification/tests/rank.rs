use memebin::index::InvertedIndex;
use memebin::rank::{page_window, plan_search, rank_order, rank_page, score_positions, search_metrics, RankKey};
use memebin::synonyms::SynonymMap;
use memebin::types::{SearchSort, Searchable};

fn stub(name: &str, tags: &[&str], use_count: u64, last: Option<&str>) -> Searchable {
    Searchable {
        id: name.to_lowercase().replace(' ', "-"),
        name: name.into(),
        tags: tags.iter().map(|t| (*t).to_string()).collect(),
        aliases: vec![],
        extension: "gif".into(),
        favorite: false,
        use_count,
        last_used_at: last.map(|s| s.to_string()),
    }
}

fn key(score: f64, use_count: u64, last: &str, name: &str) -> RankKey {
    RankKey {
        score_bits: score.to_bits(),
        use_count,
        last_used: last.into(),
        name_key: name.to_lowercase(),
    }
}

#[test]
fn relevance_orders_by_score_then_ties() {
    let keys = vec![
        key(10.0, 0, "", "b"),
        key(95.5, 0, "", "a"),
        key(10.0, 5, "", "c"),
        key(10.0, 5, "2024-02-01", "d"),
        key(10.0, 5, "2024-02-01", "b"),
    ];
    assert_eq!(rank_order(&keys, SearchSort::Relevance), vec![1, 4, 3, 2, 0]);
}

#[test]
fn name_sort_puts_names_first() {
    let keys = vec![key(1.0, 5, "", "beta"), key(1.0, 10, "", "alpha")];
    assert_eq!(rank_order(&keys, SearchSort::Name), vec![1, 0]);
}

#[test]
fn recent_sort_puts_latest_use_first() {
    let keys = vec![
        key(50.0, 0, "2024-01-01", "a"),
        key(1.0, 0, "2024-05-01", "b"),
        key(9.0, 0, "", "c"),
    ];
    assert_eq!(rank_order(&keys, SearchSort::Recent), vec![1, 0, 2]);
}

#[test]
fn rank_key_reads_the_item() {
    let it = stub("Funny CAT", &[], 3, Some("2024-01-01T00:00:00Z"));
    let k = RankKey::from_item(&it, 7);
    assert_eq!(k.score_bits, 7);
    assert_eq!(k.use_count, 3);
    assert_eq!(k.last_used, "2024-01-01T00:00:00Z");
    assert_eq!(k.name_key, "funny cat");
    assert_eq!(RankKey::from_item(&stub("x", &[], 0, None), 0).last_used, "");
}

#[test]
fn pages_skip_then_take() {
    assert_eq!(page_window(10, Some(2), Some(3)), (2, 5));
    assert_eq!(page_window(10, None, None), (0, 10));
    assert_eq!(page_window(100, None, None), (0, 50));
    assert_eq!(page_window(10, Some(8), Some(5)), (8, 10));
    assert_eq!(page_window(10, Some(20), Some(5)), (10, 10));
    assert_eq!(page_window(10, None, Some(0)), (0, 1));
}

#[test]
fn rank_page_orders_then_pages() {
    let keys: Vec<RankKey> = (0..10).map(|i| key(i as f64, 0, "", "m")).collect();
    assert_eq!(rank_page(&keys, SearchSort::Relevance, Some(2), Some(3)), vec![7, 6, 5]);
}

#[test]
fn score_positions_keep_candidates_in_order() {
    let items = vec![stub("A", &[], 0, None), stub("B", &[], 0, None), stub("C", &[], 0, None)];
    assert_eq!(score_positions(&items, &None), vec![0, 1, 2]);
    assert_eq!(score_positions(&items, &Some(vec!["c".into(), "a".into()])), vec![0, 2]);
    assert_eq!(score_positions(&items, &Some(vec![])), Vec::<usize>::new());
}

#[test]
fn index_narrows_scored_items() {
    let mut items: Vec<Searchable> = (0..50).map(|i| stub(&format!("Item{i}"), &["noise"], 0, None)).collect();
    items.push(stub("Target Cat", &[], 0, None));
    let plan = plan_search(&items, "cat", None, None);
    assert!(plan.used_index);
    assert_eq!(plan.positions, vec![50]);
}

#[test]
fn browse_scores_everything() {
    let items = vec![stub("A", &[], 1, None), stub("B", &[], 5, None)];
    let plan = plan_search(&items, "", None, None);
    assert!(!plan.used_index);
    assert_eq!(plan.positions, vec![0, 1]);
    let filtered = plan_search(&items, "is:fav", None, None);
    assert!(!filtered.used_index);
    assert_eq!(filtered.positions, vec![0, 1]);
}

#[test]
fn plan_uses_given_index_and_synonyms() {
    let items = vec![stub("Reaction", &["lul"], 0, None), stub("Other", &[], 0, None)];
    let index = InvertedIndex::build(&items);
    let map = SynonymMap::from_json_str(r#"{"lol":["lul"]}"#).unwrap();
    let plan = plan_search(&items, "lol", Some(&map), Some(&index));
    assert!(plan.parsed.must_groups[0].contains(&"lul".to_string()));
    assert_eq!(plan.positions, vec![0]);
    let plain = plan_search(&items, "lol", None, Some(&index));
    assert_eq!(plain.parsed.must_groups[0], vec!["lol".to_string()]);
}

#[test]
fn metrics_come_from_the_plan() {
    let mut items: Vec<Searchable> = (0..5).map(|i| stub(&format!("Item{i}"), &[], 0, None)).collect();
    items.push(stub("Target Cat", &[], 0, None));
    let plan = plan_search(&items, "cat", None, None);
    let m = search_metrics(items.len(), &plan, 1, 1, 3);
    assert_eq!((m.library_size, m.candidates, m.scanned, m.matched, m.returned, m.ms), (6, 1, 1, 1, 1, 3));
    assert!(m.used_index);
    let browse = plan_search(&items, "", None, None);
    let b = search_metrics(items.len(), &browse, 6, 6, 0);
    assert_eq!(b.candidates, 6);
    assert!(!b.used_index);
}
