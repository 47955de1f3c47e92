use crumbled::lexer::{tokenize, Kind};

#[test]
fn tokens_carry_kind_text_and_position() {
    let tokens = tokenize("a.b = 'x'; // c\n\"y${z}\" é # d", true);
    let kinds: Vec<Kind> = tokens.iter().map(|t| t.kind).collect();
    assert_eq!(
        kinds,
        vec![Kind::Word, Kind::Symbol, Kind::Word, Kind::Symbol, Kind::Literal, Kind::Symbol, Kind::Dynamic, Kind::Word]
    );
    assert_eq!(tokens[4].text, "x");
    assert_eq!(tokens[4].offset, 6);
    assert_eq!(tokens[6].text, "y${z}");
    assert_eq!((tokens[6].line, tokens[6].column), (2, 1));
    assert_eq!(tokens[7].text, "é");
    assert_eq!((tokens[7].line, tokens[7].column), (2, 9));
}

#[test]
fn comments_depend_on_the_language() {
    assert_eq!(tokenize("# note", true).len(), 0);
    assert_eq!(tokenize("# note", false).len(), 2);
    assert!(tokenize("/* open", false).is_empty());
    let unterminated = tokenize("'abc", false);
    assert_eq!(unterminated.len(), 1);
    assert_eq!(unterminated[0].kind, Kind::Dynamic);
    let escaped = tokenize("'a\\'b'", false);
    assert_eq!(escaped[0].kind, Kind::Dynamic);
}
