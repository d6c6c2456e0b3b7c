use memebin::storage::bindings::{drop_bindings_for, upsert_binding, Binding};
use memebin::storage::meme::Meme;
use memebin::storage::repair::plan_repair;
use memebin::storage::search::{enrich_aliases_from_bindings, suggest_tags_for, SearchIndexCache};
use memebin::storage::{
    compute_library_stats, export_manifest, find_by_hash, normalize_extension, plan_new_meme,
    prepare_import, prepare_meme_bytes, prepare_meme_file, select_imports, sort_memes, MemeSort, NewMeme,
    MANIFEST_VERSION,
};
use memebin::parse::parse_query;
use memebin::synonyms::SynonymMap;
use sha2::{Digest, Sha256};

fn meme(id: &str, name: &str) -> Meme {
    Meme {
        id: id.into(),
        name: name.into(),
        filename: format!("{id}.gif"),
        extension: "gif".into(),
        tags: vec![],
        aliases: vec![],
        size_bytes: 1,
        content_hash: String::new(),
        favorite: false,
        use_count: 0,
        last_used_at: None,
        created_at: "2024-01-01T00:00:00Z".into(),
        updated_at: "2024-01-01T00:00:00Z".into(),
    }
}

fn sha_hex(bytes: &[u8]) -> String {
    let mut h = Sha256::new();
    h.update(bytes);
    format!("{:x}", h.finalize())
}

#[test]
fn new_media_gets_a_fresh_record() {
    let bytes = vec![1u8, 2, 3];
    match plan_new_meme(&vec![], &bytes, "gif", "cat".into(), vec!["lol".into()]) {
        NewMeme::Created(m) => {
            assert_eq!(m.id.len(), 36);
            assert_eq!(m.filename, format!("{}.gif", m.id));
            assert_eq!(m.extension, "gif");
            assert_eq!(m.name, "cat");
            assert_eq!(m.tags, vec!["lol".to_string()]);
            assert_eq!(m.size_bytes, 3);
            assert_eq!(m.content_hash, sha_hex(&bytes));
            assert_eq!(m.content_hash.len(), 64);
            assert!(!m.favorite);
            assert_eq!(m.use_count, 0);
            assert!(m.last_used_at.is_none());
            assert_eq!(m.created_at, m.updated_at);
            assert!(m.created_at.len() >= 20);
        }
        NewMeme::Existing(_) => panic!("nothing to dedup against"),
    }
}

#[test]
fn same_bytes_return_the_existing_meme() {
    let bytes = vec![9u8, 9, 9];
    let mut a = meme("a", "first");
    a.content_hash = sha_hex(&bytes);
    let mut b = meme("b", "second");
    b.content_hash = sha_hex(&bytes);
    match plan_new_meme(&vec![meme("z", "other"), a, b], &bytes, "png", "x".into(), vec![]) {
        NewMeme::Existing(m) => assert_eq!(m.id, "a"),
        NewMeme::Created(_) => panic!("duplicate content was saved twice"),
    }
}

#[test]
fn saving_bytes_checks_extension_then_emptiness() {
    match prepare_meme_bytes(&vec![], &vec![1], "exe", None, None) {
        Err(e) => assert_eq!(e, "unsupported extension 'exe'; allowed: gif, webp, png, jpg, jpeg"),
        Ok(_) => panic!("exe accepted"),
    }
    match prepare_meme_bytes(&vec![], &vec![], "gif", None, None) {
        Err(e) => assert_eq!(e, "cannot save empty meme bytes"),
        Ok(_) => panic!("empty bytes accepted"),
    }
    match prepare_meme_bytes(&vec![], &vec![1], ".JPEG", None, None) {
        Ok(NewMeme::Created(m)) => {
            assert_eq!(m.name, "meme");
            assert_eq!(m.extension, "jpeg");
            assert!(m.tags.is_empty());
        }
        _ => panic!("valid bytes refused"),
    }
}

#[test]
fn saving_a_file_names_it_by_its_stem() {
    match prepare_meme_file(&vec![], &vec![1], "gif", None, Some("funny".into()), None) {
        Ok(NewMeme::Created(m)) => assert_eq!(m.name, "funny"),
        _ => panic!("file refused"),
    }
    match prepare_meme_file(&vec![], &vec![1], "gif", Some("given".into()), Some("funny".into()), None) {
        Ok(NewMeme::Created(m)) => assert_eq!(m.name, "given"),
        _ => panic!("file refused"),
    }
    match prepare_meme_file(&vec![], &vec![], "gif", None, None, None) {
        Ok(NewMeme::Created(m)) => assert_eq!(m.name, "meme"),
        _ => panic!("file refused"),
    }
    assert!(prepare_meme_file(&vec![], &vec![1], "bmp", None, None, None).is_err());
}

#[test]
fn record_use_counts_and_stamps() {
    let m = meme("a", "x").record_use();
    assert_eq!(m.use_count, 1);
    assert!(m.last_used_at.as_ref().unwrap().len() >= 20);
    assert!(m.updated_at.len() >= 20);
    let mut full = meme("b", "y");
    full.use_count = u64::MAX;
    assert_eq!(full.record_use().use_count, u64::MAX);
}

#[test]
fn favorite_and_update_patch_fields() {
    let m = meme("a", "x").set_favorite(true);
    assert!(m.favorite);
    let u = m.update(Some("new".into()), None, Some(vec!["db".into()]));
    assert_eq!(u.name, "new");
    assert!(u.tags.is_empty());
    assert_eq!(u.aliases, vec!["db".to_string()]);
    assert!(u.favorite);
    let kept = u.update(None, Some(vec!["t".into()]), None);
    assert_eq!(kept.name, "new");
    assert_eq!(kept.tags, vec!["t".to_string()]);
    assert_eq!(kept.aliases, vec!["db".to_string()]);
}

#[test]
fn manifest_holds_version_and_memes() {
    let man = export_manifest(vec![meme("a", "x"), meme("b", "y")]);
    assert_eq!(man.version, MANIFEST_VERSION);
    assert_eq!(man.version, 1);
    assert_eq!(man.memes.len(), 2);
    assert!(man.exported_at.len() >= 20);
}

#[test]
fn merge_skips_known_ids_hashes_and_missing_media() {
    let mut local = meme("a", "x");
    local.content_hash = "h1".into();
    let mut same_hash = meme("b", "y");
    same_hash.content_hash = "h1".into();
    let no_hash = meme("c", "z");
    let mut other = meme("d", "w");
    other.content_hash = "h2".into();
    let mut blank_local = meme("e", "v");
    blank_local.content_hash = String::new();
    let incoming = vec![meme("a", "dup id"), same_hash, no_hash, other.clone(), other];
    let picks = select_imports(&vec![local, blank_local], &incoming, &vec![true, true, true, true, false]);
    assert_eq!(picks, vec![false, false, true, true, false]);
}

#[test]
fn merge_skips_repeats_within_one_manifest() {
    let mut a = meme("a", "x");
    a.content_hash = "h".into();
    let mut b = meme("b", "y");
    b.content_hash = "h".into();
    let mut c = meme("c", "z");
    c.content_hash = String::new();
    let mut c2 = meme("c", "z2");
    c2.content_hash = String::new();
    let mut e = meme("e", "w");
    e.content_hash = String::new();
    let incoming = vec![a.clone(), a, b, c, c2, e];
    let picks = select_imports(&vec![], &incoming, &vec![true; 6]);
    assert_eq!(picks, vec![true, false, false, true, false, true]);
}

#[test]
fn import_entries_are_normalized_and_stamped() {
    let mut m = meme("a", "x");
    m.extension = String::new();
    m.updated_at = String::new();
    m.created_at = String::new();
    let p = prepare_import(m);
    assert_eq!(p.extension, "gif");
    assert!(p.updated_at.len() >= 20);
    let q = prepare_import(meme("b", "y"));
    assert_eq!(q.updated_at, "2024-01-01T00:00:00Z");
}

#[test]
fn stats_count_favorites_and_bytes() {
    let mut a = meme("a", "x");
    a.favorite = true;
    a.size_bytes = 10;
    let mut b = meme("b", "y");
    b.size_bytes = 32;
    let s = compute_library_stats(&vec![a, b]);
    assert_eq!((s.count, s.favorites, s.total_bytes), (2, 1, 42));
}

#[test]
fn find_by_hash_returns_first() {
    let mut a = meme("a", "x");
    a.content_hash = "h".into();
    let mut b = meme("b", "y");
    b.content_hash = "h".into();
    assert_eq!(find_by_hash(&vec![a, b], &"h".to_string()).unwrap().id, "a");
    assert!(find_by_hash(&vec![meme("c", "z")], &"h".to_string()).is_none());
}

#[test]
fn listing_orders() {
    let mut a = meme("a", "beta");
    a.created_at = "2024-01-01".into();
    a.last_used_at = Some("2024-03-01".into());
    let mut b = meme("b", "Alpha");
    b.created_at = "2024-02-01".into();
    b.favorite = true;
    let mut c = meme("c", "gamma");
    c.created_at = "2024-03-01".into();
    c.last_used_at = Some("2024-03-01".into());
    c.use_count = 4;
    let ids = |v: Vec<Meme>| v.into_iter().map(|m| m.id).collect::<Vec<_>>();
    let all = || vec![a.duplicate(), b.duplicate(), c.duplicate()];
    assert_eq!(ids(sort_memes(all(), MemeSort::Created)), vec!["c", "b", "a"]);
    assert_eq!(ids(sort_memes(all(), MemeSort::Recent)), vec!["c", "a", "b"]);
    assert_eq!(ids(sort_memes(all(), MemeSort::Favorites)), vec!["b", "c", "a"]);
    assert_eq!(ids(sort_memes(all(), MemeSort::Name)), vec!["b", "a", "c"]);
}

#[test]
fn deleting_a_meme_drops_its_bindings() {
    let mut b: Vec<Binding> = Vec::new();
    upsert_binding(&mut b, "a", "m1");
    upsert_binding(&mut b, "b", "m2");
    upsert_binding(&mut b, "c", "m1");
    assert!(drop_bindings_for(&mut b, "m1"));
    assert_eq!(b.len(), 1);
    assert_eq!(b[0].trigger, "b");
    assert!(!drop_bindings_for(&mut b, "m1"));
}

#[test]
fn new_bindings_get_uuid_ids() {
    let mut b: Vec<Binding> = Vec::new();
    let made = upsert_binding(&mut b, "x", "m");
    assert_eq!(made.id.len(), 36);
    assert_eq!(made.id.chars().filter(|c| *c == '-').count(), 4);
}

#[test]
fn repair_removes_broken_pairs() {
    let names: Vec<String> = ["a.json", "a.gif", "b.json", "c.png", "d.json", "x.y.webp", "x.y.json"]
        .iter()
        .map(|s| s.to_string())
        .collect();
    let sidecars = vec![
        Some("a.gif".to_string()),
        None,
        None,
        None,
        Some("d.gif".to_string()),
        None,
        Some("x.y.webp".to_string()),
    ];
    let plan = plan_repair(&names, &sidecars);
    assert_eq!(plan.remove, vec![false, false, true, true, true, false, false]);
    assert_eq!(plan.report.removed_json, 2);
    assert_eq!(plan.report.removed_media, 1);
}

#[test]
fn repair_does_not_depend_on_order() {
    let names = vec!["k.gif".to_string(), "k.json".to_string()];
    let plan = plan_repair(&names, &vec![None, None]);
    assert_eq!(plan.remove, vec![true, true]);
    assert_eq!((plan.report.removed_json, plan.report.removed_media), (1, 1));
    let names = vec!["k.json".to_string(), "k.gif".to_string()];
    let plan = plan_repair(&names, &vec![None, None]);
    assert_eq!(plan.remove, vec![true, true]);
    let names = vec!["k.gif".to_string(), "k.json".to_string()];
    let plan = plan_repair(&names, &vec![None, Some("k.gif".to_string())]);
    assert_eq!(plan.remove, vec![false, false]);
}

#[test]
fn repair_keeps_no_sidecar_without_its_media() {
    let names = vec!["a.json".to_string(), "b.gif".to_string()];
    let plan = plan_repair(&names, &vec![Some("b.gif".to_string()), None]);
    assert_eq!(plan.remove, vec![true, true]);
    assert_eq!((plan.report.removed_json, plan.report.removed_media), (1, 1));
}

#[test]
fn cache_builds_once_until_invalidated() {
    let memes = vec![meme("a", "Funny Cat")];
    let mut cache = SearchIndexCache::new();
    let first = cache.get_or_build(&memes);
    assert_eq!(first.len(), 1);
    let more = vec![meme("a", "Funny Cat"), meme("b", "Dog")];
    assert_eq!(cache.get_or_build(&more).len(), 1);
    cache.invalidate();
    let rebuilt = cache.get_or_build(&more);
    assert_eq!(rebuilt.len(), 2);
    assert_eq!(rebuilt.candidates(&parse_query("dog")).unwrap(), vec!["b".to_string()]);
}

#[test]
fn triggers_become_aliases() {
    let mut memes = vec![meme("a", "x"), meme("b", "y")];
    memes[0].aliases = vec!["LUL".into()];
    let bindings = vec![
        Binding { id: "1".into(), trigger: " lul ".into(), meme_id: "a".into() },
        Binding { id: "2".into(), trigger: "Wow".into(), meme_id: "a".into() },
        Binding { id: "3".into(), trigger: "   ".into(), meme_id: "b".into() },
    ];
    enrich_aliases_from_bindings(&mut memes, &bindings);
    assert_eq!(memes[0].aliases, vec!["LUL".to_string(), "wow".to_string()]);
    assert!(memes[1].aliases.is_empty());
}

#[test]
fn tag_suggestions_over_memes() {
    let mut a = meme("a", "x");
    a.tags = vec!["animals".into(), "lol".into()];
    let s = suggest_tags_for(&vec![a], "ani", 20);
    assert_eq!(s, vec!["animals".to_string()]);
}

#[test]
fn synonyms_file_text() {
    assert!(SynonymMap::from_file_text("   ").is_empty());
    assert!(SynonymMap::from_file_text("not json").is_empty());
    assert!(!SynonymMap::from_file_text(r#"{"lol":["lul"]}"#).is_empty());
    match SynonymMap::from_json_str("[1]") {
        Err(e) => assert!(e.starts_with("invalid synonym map JSON: ")),
        Ok(_) => panic!("array accepted"),
    }
}

#[test]
fn extension_error_names_the_cleaned_extension() {
    assert_eq!(
        normalize_extension("  ..EXE ").unwrap_err(),
        "unsupported extension 'exe'; allowed: gif, webp, png, jpg, jpeg"
    );
    assert_eq!(normalize_extension(" .Jpg ").unwrap(), "jpg");
}
