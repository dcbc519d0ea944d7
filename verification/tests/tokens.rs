use codeforge::file::token::{
    bracket_class, find_token, pieces, raw_tokens_fit, remove_other_bracket, Token, TokenTree,
};

fn tok(start: u32, text: &str, kind: &str) -> Token {
    Token { start, token: text.to_string(), type_: kind.to_string(), modifiers: None }
}

fn sem(start: u32, text: &str, kind: &str, modifiers: &[&str]) -> Token {
    Token {
        start,
        token: text.to_string(),
        type_: kind.to_string(),
        modifiers: Some(modifiers.iter().map(|m| m.to_string()).collect()),
    }
}

fn tree(lines: Vec<Vec<Token>>) -> TokenTree {
    let mut tree = TokenTree::new();
    tree.set_tokens(lines);
    tree
}

fn kinds(tree: &TokenTree) -> Vec<Vec<String>> {
    tree.tokens.iter().map(|l| l.iter().map(|t| t.type_.clone()).collect()).collect()
}

#[test]
fn new_tree_is_empty() {
    assert!(TokenTree::new().tokens.is_empty());
    assert_eq!(TokenTree::new(), TokenTree::default());
}

#[test]
fn set_tokens_replaces_the_lines() {
    let mut t = tree(vec![vec![tok(0, "a", "x")]]);
    t.set_tokens(vec![vec![], vec![tok(0, "b", "y")]]);
    assert_eq!(t.tokens, vec![vec![], vec![tok(0, "b", "y")]]);
}

#[test]
fn merge_precedence_semantic_wins_on_a_match() {
    let mut lexical = tree(vec![vec![tok(0, "foo", "variable")]]);
    lexical.merge(tree(vec![vec![sem(0, "foo", "function", &[])]]));
    assert_eq!(lexical.tokens, vec![vec![sem(0, "foo", "function", &[])]]);
}

#[test]
fn merge_keeps_what_has_no_match() {
    let mut lexical = tree(vec![
        vec![tok(0, "foo", "variable"), tok(3, " ", ""), tok(4, "bar", "variable")],
        vec![tok(0, "foo", "variable")],
    ]);
    let semantic = tree(vec![vec![
        sem(1, "foo", "function", &[]),
        sem(0, "fo", "function", &[]),
        sem(4, "bar", "type", &["readonly"]),
        sem(4, "bar", "keyword", &[]),
    ]]);
    lexical.merge(semantic);
    assert_eq!(
        lexical.tokens,
        vec![
            vec![tok(0, "foo", "variable"), tok(3, " ", ""), sem(4, "bar", "type", &["readonly"])],
            vec![tok(0, "foo", "variable")],
        ]
    );
}

#[test]
fn merge_matches_line_by_line() {
    let mut lexical = tree(vec![vec![tok(0, "x", "a")], vec![tok(0, "x", "a")], vec![tok(0, "x", "a")]]);
    lexical.merge(tree(vec![vec![], vec![sem(0, "x", "b", &[])]]));
    assert_eq!(kinds(&lexical), vec![vec!["a"], vec!["b"], vec!["a"]]);
    assert_eq!(lexical.tokens[1][0].modifiers, Some(vec![]));
    assert_eq!(lexical.tokens[0][0].modifiers, None);
}

#[test]
fn bracket_depth_of_nested_calls() {
    let mut lexical = tree(vec![vec![
        tok(0, "a", "function"),
        tok(1, "(", "punctuation.bracket"),
        tok(2, "b", "function"),
        tok(3, "(", "punctuation.bracket"),
        tok(4, "c", "variable"),
        tok(5, ")", "punctuation.bracket"),
        tok(6, ")", "punctuation.bracket"),
    ]]);
    lexical.merge(TokenTree::new());
    assert_eq!(
        kinds(&lexical),
        vec![vec![
            "function",
            "punctuation.bracket_0",
            "function",
            "punctuation.bracket_1",
            "variable",
            "punctuation.bracket_1",
            "punctuation.bracket_0",
        ]]
    );
}

#[test]
fn bracket_depth_counts_in_threes_and_across_lines() {
    let mut lexical = tree(vec![
        vec![tok(0, "{", ""), tok(1, "[", "")],
        vec![tok(0, "(", ""), tok(1, "<", "")],
        vec![tok(0, ">", ""), tok(1, ")", ""), tok(2, "]", ""), tok(3, "}", "")],
    ]);
    lexical.merge(TokenTree::new());
    assert_eq!(
        kinds(&lexical),
        vec![
            vec!["punctuation.bracket_0", "punctuation.bracket_1"],
            vec!["punctuation.bracket_2", "punctuation.bracket_0"],
            vec![
                "punctuation.bracket_0",
                "punctuation.bracket_2",
                "punctuation.bracket_1",
                "punctuation.bracket_0"
            ],
        ]
    );
}

#[test]
fn closing_bracket_skips_mismatched_openers() {
    let mut lexical = tree(vec![vec![
        tok(0, "(", ""),
        tok(1, "[", ""),
        tok(2, "{", ""),
        tok(3, ")", "old"),
        tok(4, "}", "old"),
        tok(5, "(", ""),
    ]]);
    lexical.merge(TokenTree::new());
    assert_eq!(
        kinds(&lexical),
        vec![vec![
            "punctuation.bracket_0",
            "punctuation.bracket_1",
            "punctuation.bracket_2",
            "punctuation.bracket_0",
            "old",
            "punctuation.bracket_0",
        ]]
    );
}

#[test]
fn unmatched_closer_clears_the_open_brackets() {
    let mut lexical = tree(vec![vec![tok(0, "(", ""), tok(1, "]", "lex"), tok(2, ")", "lex")]]);
    lexical.merge(TokenTree::new());
    assert_eq!(kinds(&lexical), vec![vec!["punctuation.bracket_0", "lex", "lex"]]);
}

#[test]
fn bracket_class_overrides_semantic_class() {
    let mut lexical = tree(vec![vec![tok(0, "<", "operator"), tok(1, "T", "type"), tok(2, ">", "operator")]]);
    lexical.merge(tree(vec![vec![sem(0, "<", "operator", &["x"]), sem(2, ">", "keyword", &["y"])]]));
    assert_eq!(
        lexical.tokens,
        vec![vec![
            sem(0, "<", "punctuation.bracket_0", &["x"]),
            tok(1, "T", "type"),
            sem(2, ">", "punctuation.bracket_0", &["y"]),
        ]]
    );
}

#[test]
fn merge_keeps_spans() {
    let lines = vec![vec![tok(0, "ab", "x"), tok(2, "(", "y")], vec![], vec![tok(0, ")", "z")]];
    let mut merged = tree(lines.clone());
    merged.merge(tree(vec![vec![sem(0, "ab", "k", &[])]]));
    assert_eq!(merged.tokens.len(), lines.len());
    for (a, b) in merged.tokens.iter().zip(lines.iter()) {
        assert_eq!(a.len(), b.len());
        for (s, t) in a.iter().zip(b.iter()) {
            assert_eq!((s.start, &s.token), (t.start, &t.token));
        }
    }
}

#[test]
fn remove_other_bracket_pops_to_the_opener() {
    let mut open = vec!["(".to_string(), "[".to_string(), "(".to_string(), "{".to_string()];
    let mut token = tok(7, "]", "lex");
    remove_other_bracket(&mut open, "[", &mut token);
    assert_eq!(open, vec!["(".to_string()]);
    assert_eq!(token, tok(7, "]", "punctuation.bracket_1"));
    let mut token = tok(8, "}", "lex");
    remove_other_bracket(&mut open, "{", &mut token);
    assert!(open.is_empty());
    assert_eq!(token, tok(8, "}", "lex"));
}

#[test]
fn bracket_class_names() {
    assert_eq!(bracket_class(0), "punctuation.bracket_0");
    assert_eq!(bracket_class(1), "punctuation.bracket_1");
    assert_eq!(bracket_class(2), "punctuation.bracket_2");
    assert_eq!(bracket_class(3), "punctuation.bracket_0");
    assert_eq!(bracket_class(10), "punctuation.bracket_1");
}

#[test]
fn find_token_takes_the_first_match() {
    let line = vec![sem(0, "a", "1", &[]), sem(2, "b", "2", &[]), sem(2, "b", "3", &[])];
    assert_eq!(find_token(&line, 2, "b"), Some(1));
    assert_eq!(find_token(&line, 2, "a"), None);
    assert_eq!(find_token(&line, 1, "a"), None);
    assert_eq!(find_token(&Vec::new(), 0, ""), None);
}

#[test]
fn pieces_cut_at_line_feeds_and_drop_carriage_returns() {
    assert_eq!(pieces(""), vec![""]);
    assert_eq!(pieces("abc"), vec!["abc"]);
    assert_eq!(pieces("a\nb"), vec!["a", "b"]);
    assert_eq!(pieces("a\r\nb\r\n"), vec!["a", "b", ""]);
    assert_eq!(pieces("\n"), vec!["", ""]);
    assert_eq!(pieces("a\rb\r"), vec!["ab"]);
    assert_eq!(pieces("é\n\nü"), vec!["é", "", "ü"]);
}

#[test]
fn raw_tokens_become_lines() {
    let mut t = TokenTree::new();
    t.set_raw_tokens(vec![
        tok(99, "fn", "keyword"),
        tok(99, " ", ""),
        tok(99, "main", "function"),
        tok(99, "() {\r\n    é\n", ""),
        tok(99, "}", "punctuation.bracket"),
    ]);
    assert_eq!(
        t.tokens,
        vec![
            vec![tok(0, "fn", "keyword"), tok(2, " ", ""), tok(3, "main", "function"), tok(7, "() {", "")],
            vec![tok(0, "    é", "")],
            vec![tok(0, "", ""), tok(0, "}", "punctuation.bracket")],
        ]
    );
}

#[test]
fn raw_tokens_keep_class_and_modifiers_on_every_piece() {
    let mut t = TokenTree::new();
    t.set_raw_tokens(vec![sem(0, "/* a\n b\n c */", "comment", &["doc"])]);
    assert_eq!(
        t.tokens,
        vec![
            vec![sem(0, "/* a", "comment", &["doc"])],
            vec![sem(0, " b", "comment", &["doc"])],
            vec![sem(0, " c */", "comment", &["doc"])],
        ]
    );
}

#[test]
fn no_raw_tokens_make_one_empty_line() {
    let mut t = tree(vec![vec![tok(0, "x", "")], vec![]]);
    t.set_raw_tokens(Vec::new());
    assert_eq!(t.tokens, vec![Vec::<Token>::new()]);
}

#[test]
fn raw_tree_is_partitioned() {
    let mut t = TokenTree::new();
    t.set_raw_tokens(vec![tok(5, "aé", "x"), tok(5, "b\nc", "y"), tok(5, "", "z"), tok(5, "dd\r\n", "w")]);
    for line in &t.tokens {
        let mut at = 0;
        for token in line {
            assert_eq!(token.start, at);
            at += token.token.len() as u32;
        }
    }
    assert_eq!(t.tokens.len(), 3);
}

#[test]
fn raw_tokens_fit_small_inputs() {
    assert!(raw_tokens_fit(&Vec::new()));
    assert!(raw_tokens_fit(&vec![tok(0, "abc", ""), tok(0, "def", "")]));
}

#[test]
fn from_raw_tokens_builds_the_same_tree() {
    let raw = vec![tok(9, "a\nbc", "x"), tok(9, "d", "y"), tok(9, "\r\n", "")];
    let mut set = TokenTree::new();
    set.set_raw_tokens(raw.clone());
    assert_eq!(TokenTree::from_raw_tokens(&raw), Some(set));
    assert_eq!(
        TokenTree::from_raw_tokens(&raw).unwrap().tokens,
        vec![
            vec![tok(0, "a", "x")],
            vec![tok(0, "bc", "x"), tok(2, "d", "y"), tok(3, "", "")],
            vec![tok(0, "", "")],
        ]
    );
    let empty = TokenTree::from_raw_tokens(&Vec::new()).unwrap();
    assert_eq!(empty.tokens, vec![Vec::<Token>::new()]);
}

#[test]
fn pieces_are_the_split_lines_without_carriage_returns() {
    for text in ["", "\n", "\r", "a\r\nb", "\r\n\r\n", "x\ry\n\rz\r", "one\ntwo\n", "é\r\nü\n"] {
        let expected: Vec<String> = text.split('\n').map(|t| t.replace('\r', "")).collect();
        assert_eq!(pieces(text), expected, "{:?}", text);
    }
}
