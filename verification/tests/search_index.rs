use memebin::index::InvertedIndex;
use memebin::parse::parse_query;
use memebin::types::Searchable;

fn doc(id: &str, name: &str, tags: &[&str]) -> Searchable {
    Searchable {
        id: id.to_string(),
        name: name.to_string(),
        tags: tags.iter().map(|t| t.to_string()).collect(),
        aliases: vec![],
        extension: "gif".to_string(),
        favorite: false,
        use_count: 0,
        last_used_at: None,
    }
}

fn has(ids: &[String], id: &str) -> bool {
    ids.iter().any(|d| d == id)
}

#[test]
fn index_finds_by_name_word() {
    let items = vec![doc("1", "Funny Cat", &[]), doc("2", "Doggo", &[])];
    let index = InvertedIndex::build(&items);
    let c = index.candidates(&parse_query("cat")).unwrap();
    assert!(has(&c, "1"));
    assert!(!has(&c, "2"));
}

#[test]
fn and_intersects_groups() {
    let items = vec![doc("1", "Cat Meme", &[]), doc("2", "Cat Photo", &[])];
    let index = InvertedIndex::build(&items);
    let c = index.candidates(&parse_query("cat meme")).unwrap();
    assert_eq!(c.len(), 1);
    assert!(has(&c, "1"));
}
