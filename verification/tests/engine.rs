use memebin::engine::{covers_name, filter_reason_labels, gates_ok, is_match, token_hits};
use memebin::matcher::{find_token_span, grade_field, MatchKind};
use memebin::normalize::{fold_case, words_of};
use memebin::parse::parse_query;
use memebin::types::Searchable;

fn stub(name: &str, tags: &[&str], favorite: bool) -> Searchable {
    Searchable {
        id: name.to_lowercase().replace(' ', "-"),
        name: name.into(),
        tags: tags.iter().map(|t| (*t).to_string()).collect(),
        aliases: vec![],
        extension: "gif".into(),
        favorite,
        use_count: 0,
        last_used_at: None,
    }
}

#[test]
fn grades_in_order_of_strength() {
    assert_eq!(grade_field("Cat", "cat").kind, MatchKind::Exact);
    assert_eq!(grade_field("Funny Cat", "cat").kind, MatchKind::Word);
    assert_eq!(grade_field("Catastrophe", "cat").kind, MatchKind::Prefix);
    assert_eq!(grade_field("Bobcats", "cat").kind, MatchKind::Substr);
    assert_eq!(grade_field("cot", "cat").kind, MatchKind::Fuzzy);
    assert_eq!(grade_field("zebra", "cat").kind, MatchKind::NoMatch);
}

#[test]
fn camel_case_words_grade_as_words() {
    assert_eq!(words_of("FunnyCat"), vec!["funny".to_string(), "cat".to_string()]);
    assert_eq!(grade_field("FunnyCat", "cat").kind, MatchKind::Word);
}

#[test]
fn fuzzy_grade_carries_similarity() {
    let g = grade_field("cot", "cat");
    let sim = f64::from_bits(g.similarity);
    let expected = strsim::jaro_winkler("cot", "cat").max(strsim::normalized_levenshtein("cot", "cat"));
    assert_eq!(sim, expected);
    assert!(sim >= 0.72);
    assert_eq!(grade_field("Cat", "cat").similarity, 0);
}

#[test]
fn spans_are_char_ranges() {
    assert_eq!(find_token_span("Funny Cat", "cat"), Some((6, 9)));
    assert_eq!(find_token_span("Funny Cat", "dog"), None);
    assert_eq!(find_token_span("Funny Cat", ""), None);
    assert_eq!(grade_field("Cat", "cat").span, Some((0, 3)));
}

#[test]
fn labels_name_each_grade() {
    assert_eq!(MatchKind::Exact.as_label(), "exact");
    assert_eq!(MatchKind::Fuzzy.as_label(), "fuzzy");
    assert_eq!(MatchKind::NoMatch.as_label(), "none");
}

#[test]
fn fold_case_lowercases() {
    assert_eq!(fold_case("FuNNy"), "funny");
}

#[test]
fn every_group_must_match() {
    let m = stub("Funny Cat", &["animals"], false);
    assert!(!is_match(&m, &parse_query("cat dog")));
    assert!(is_match(&m, &parse_query("cat funny")));
}

#[test]
fn any_alternative_of_a_group_may_match() {
    let cat = stub("Funny Cat", &[], false);
    let dog = stub("Funny Dog", &[], false);
    let bird = stub("Funny Bird", &[], false);
    let q = parse_query("cat OR dog");
    assert!(is_match(&cat, &q));
    assert!(is_match(&dog, &q));
    assert!(!is_match(&bird, &q));
}

#[test]
fn negation_drops_strong_matches() {
    let cat = stub("Funny Cat", &["animals"], false);
    let dog = stub("Funny Dog", &["animals"], false);
    let q = parse_query("funny -dog");
    assert!(is_match(&cat, &q));
    assert!(!is_match(&dog, &q));
}

#[test]
fn negation_ignores_fuzzy_matches() {
    let cot = stub("cot", &[], false);
    assert!(gates_ok(&cot, &parse_query("-cat")));
    assert!(!gates_ok(&stub("cat", &[], false), &parse_query("-cat")));
}

#[test]
fn favorite_tag_and_extension_filters() {
    let a = stub("A", &["lol"], true);
    let mut b = stub("B", &["lol"], false);
    b.extension = "png".into();
    let c = stub("C", &["sad"], true);
    let q = parse_query("is:fav #lol ext:gif");
    assert!(gates_ok(&a, &q));
    assert!(!gates_ok(&b, &q));
    assert!(!gates_ok(&c, &q));
}

#[test]
fn excluded_tags_drop_items() {
    let a = stub("A", &["NSFW stuff"], false);
    assert!(!gates_ok(&a, &parse_query("-tag:nsfw")));
    assert!(gates_ok(&a, &parse_query("-tag:sad")));
}

#[test]
fn phrase_matches_as_one_token() {
    let m = stub("Funny Cat Dance", &[], false);
    assert!(is_match(&m, &parse_query("\"funny cat\"")));
}

#[test]
fn aliases_match_like_names() {
    let mut m = stub("Distracted Boyfriend", &[], false);
    m.aliases = vec!["db".into()];
    assert!(token_hits(&m, "db"));
    assert!(!token_hits(&m, "qqq"));
}

#[test]
fn filter_labels_list_active_filters() {
    let q = parse_query("is:fav #lol ext:GIF cat");
    assert_eq!(
        filter_reason_labels(&q),
        vec!["filter:fav".to_string(), "filter:tag:lol".to_string(), "filter:ext:gif".to_string()]
    );
    assert!(filter_reason_labels(&parse_query("cat")).is_empty());
}

#[test]
fn browse_query_admits_everything() {
    let m = stub("Anything", &[], false);
    assert!(is_match(&m, &parse_query("")));
}

#[test]
fn name_coverage_needs_every_group_in_the_name() {
    let m = stub("Funny Cat Dance", &["dog"], false);
    assert!(covers_name(&m, &parse_query("funny cat")));
    assert!(covers_name(&m, &parse_query("(dog | cat) dance")));
    assert!(!covers_name(&m, &parse_query("funny dog")));
    assert!(!covers_name(&m, &parse_query("funny")));
}
