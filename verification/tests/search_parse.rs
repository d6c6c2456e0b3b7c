use memebin::parse::{lex_quoted, parse_query};

#[test]
fn lex_keeps_phrases() {
    assert_eq!(lex_quoted(r#"a "b c" d"#), vec!["a", "b c", "d"]);
}

#[test]
fn parse_or_groups() {
    let q = parse_query("cat OR dog meme");
    assert_eq!(
        q.must_groups,
        vec![
            vec!["cat".to_string(), "dog".to_string()],
            vec!["meme".to_string()]
        ]
    );
}

#[test]
fn parse_pipe_and_parens() {
    let q = parse_query("(cat | dog) funny");
    assert_eq!(
        q.must_groups,
        vec![
            vec!["cat".to_string(), "dog".to_string()],
            vec!["funny".to_string()]
        ]
    );
}

#[test]
fn parse_tokens_filters_hash_and_negation() {
    let q = parse_query(r#"cat "funny dog" #lol -sad -tag:nsfw ext:GIF is:fav"#);
    assert_eq!(
        q.must_groups,
        vec![vec!["cat".to_string()], vec!["funny dog".to_string()]]
    );
    assert_eq!(q.tag_filters, vec!["lol"]);
    assert_eq!(q.excluded_tokens, vec!["sad"]);
    assert_eq!(q.excluded_tags, vec!["nsfw"]);
    assert_eq!(q.extensions, vec!["gif"]);
    assert!(q.favorites_only);
}
