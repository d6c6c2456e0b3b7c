use memebin::pipeline::{collect_tags, suggest_tags};
use memebin::types::Searchable;

fn stub(name: &str, tags: &[&str], favorite: bool, use_count: u64) -> Searchable {
    Searchable {
        id: name.to_lowercase().replace(' ', "-"),
        name: name.into(),
        tags: tags.iter().map(|t| (*t).to_string()).collect(),
        aliases: vec![],
        extension: "gif".into(),
        favorite,
        use_count,
        last_used_at: if use_count > 0 {
            Some("2024-06-01T00:00:00Z".into())
        } else {
            None
        },
    }
}

#[test]
fn suggest_tags_prefix() {
    let items = vec![
        stub("A", &["animals", "lol"], false, 0),
        stub("B", &["angry"], false, 0),
    ];
    let tags = suggest_tags(&items, "an", 10);
    assert!(tags.iter().any(|t| t.eq_ignore_ascii_case("animals")));
    assert!(tags.iter().any(|t| t.eq_ignore_ascii_case("angry")));
    assert!(!tags.iter().any(|t| t.eq_ignore_ascii_case("lol")));
}

#[test]
fn collect_tags_unique_sorted() {
    let items = vec![
        stub("A", &["Zebra", "cat"], false, 0),
        stub("B", &["cat", "bird"], false, 0),
    ];
    let tags = collect_tags(&items);
    assert_eq!(
        tags.iter().map(|t| t.to_lowercase()).collect::<Vec<_>>(),
        vec!["bird", "cat", "zebra"]
    );
}
