use memebin::parse::parse_query;
use memebin::synonyms::SynonymMap;

#[test]
fn expands_or_alternatives() {
    let map = SynonymMap::from_json_str(r#"{"lol":["lul","lmao"]}"#).unwrap();
    let parsed = parse_query("lol cat");
    let expanded = map.expand_parsed(&parsed);
    assert!(expanded.must_groups[0].contains(&"lol".to_string()));
    assert!(expanded.must_groups[0].contains(&"lul".to_string()));
    assert_eq!(expanded.must_groups[1], vec!["cat".to_string()]);
}
