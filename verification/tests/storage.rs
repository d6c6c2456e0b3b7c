use memebin::storage::bindings::{normalize_trigger, upsert_binding, Binding};
use memebin::storage::meme::Meme;
use memebin::storage::{meme_matches_query, normalize_extension};

fn meme(id: &str, name: &str, filename: &str, extension: &str, tags: &[&str]) -> Meme {
    Meme {
        id: id.into(),
        name: name.into(),
        filename: filename.into(),
        extension: extension.into(),
        tags: tags.iter().map(|t| t.to_string()).collect(),
        aliases: vec![],
        size_bytes: 0,
        content_hash: String::new(),
        favorite: false,
        use_count: 0,
        last_used_at: None,
        created_at: "2024-01-01T00:00:00Z".into(),
        updated_at: String::new(),
    }
}

#[test]
fn normalize_trigger_trims_and_lowercases() {
    assert_eq!(normalize_trigger("  Ctrl+Shift+M  "), "ctrl+shift+m");
    assert_eq!(normalize_trigger("LUL"), "lul");
}

#[test]
fn upsert_updates_existing_trigger() {
    let mut bindings: Vec<Binding> = Vec::new();
    let first = upsert_binding(&mut bindings, "lul", "meme-a");
    let second = upsert_binding(&mut bindings, " LUL ", "meme-b");
    assert_eq!(bindings.len(), 1);
    assert_eq!(first.id, second.id);
    assert_eq!(bindings[0].meme_id, "meme-b");
}

#[test]
fn normalize_fills_extension_and_updated_at() {
    let m = meme("abc", "test", "abc.gif", "", &[]).normalize();
    assert_eq!(m.extension, "gif");
    assert_eq!(m.updated_at, "2024-01-01T00:00:00Z");
}

#[test]
fn normalize_extension_allows_gif() {
    assert_eq!(normalize_extension("GIF").unwrap(), "gif");
    assert_eq!(normalize_extension(".WebP").unwrap(), "webp");
}

#[test]
fn normalize_extension_rejects_exe() {
    assert!(normalize_extension("exe").is_err());
}

#[test]
fn search_matches_name_and_tags() {
    let mut m = meme("1", "Funny Cat", "1.gif", "gif", &["lol", "animals"]);
    m.size_bytes = 10;
    m.content_hash = "abc".into();
    m.created_at = "t".into();
    m.updated_at = "t".into();
    assert!(meme_matches_query(&m, "cat"));
    assert!(meme_matches_query(&m, "LOL"));
    assert!(!meme_matches_query(&m, "dog"));
}
