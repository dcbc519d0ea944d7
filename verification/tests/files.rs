use codeforge::file::manager::{
    content_lines, highlight, raw_tokens, File, FileManager, HighlightError, HighlightEvent,
};
use codeforge::file::token::{Token, TokenTree};

fn tok(start: u32, text: &str, kind: &str) -> Token {
    Token { start, token: text.to_string(), type_: kind.to_string(), modifiers: None }
}

fn src(start: usize, end: usize) -> HighlightEvent {
    HighlightEvent::Source { start, end }
}

#[test]
fn content_lines_end_in_crlf() {
    assert_eq!(content_lines(""), Vec::<String>::new());
    assert_eq!(content_lines("a"), vec!["a\r\n"]);
    assert_eq!(content_lines("a\n"), vec!["a\r\n"]);
    assert_eq!(content_lines("a\r\n"), vec!["a\r\n"]);
    assert_eq!(content_lines("a\nb"), vec!["a\r\n", "b\r\n"]);
    assert_eq!(content_lines("\n\n"), vec!["\r\n", "\r\n"]);
    assert_eq!(content_lines("a\r"), vec!["a\r\r\n"]);
    assert_eq!(content_lines("a\r\r\nb\rc\n\r"), vec!["a\r\r\n", "b\rc\r\n", "\r\r\n"]);
    assert_eq!(content_lines("é\r\nü"), vec!["é\r\n", "ü\r\n"]);
}

#[test]
fn content_lines_are_the_lines_of_std() {
    for text in ["", "\n", "\r", "\r\n", "a\r\nb\n\nc", "x\r\r\n\ry\r", "\n\r\n\r", "one\ntwo\r\nthree\r"] {
        let expected: Vec<String> = text.lines().map(|l| l.to_string() + "\r\n").collect();
        assert_eq!(content_lines(text), expected, "{:?}", text);
    }
}

#[test]
fn file_holds_its_lines_and_gives_its_text() {
    let file = File::new("/a.rs", "fn main() {\n}\n");
    assert_eq!(file.path, "/a.rs");
    assert_eq!(file.content, vec!["fn main() {\r\n", "}\r\n"]);
    assert_eq!(file.source(), "fn main() {\r\n}\r\n");
    assert_eq!(File::new("", "").source(), "");
}

#[test]
fn events_become_raw_tokens() {
    let source = "let é = 1;";
    let events = [
        HighlightEvent::HighlightStart(27),
        src(0, 3),
        HighlightEvent::HighlightEnd,
        src(3, 4),
        HighlightEvent::HighlightStart(0),
        HighlightEvent::HighlightStart(4),
        src(4, 6),
        HighlightEvent::HighlightEnd,
        src(6, 7),
        HighlightEvent::HighlightEnd,
        HighlightEvent::HighlightEnd,
        src(7, 11),
    ];
    assert_eq!(
        raw_tokens(source, &events),
        Ok(vec![
            tok(0, "let", "keyword"),
            tok(0, " ", ""),
            tok(0, "é", "constant"),
            tok(0, " ", "variable"),
            tok(0, "= 1;", ""),
        ])
    );
    assert_eq!(raw_tokens(source, &[]), Ok(vec![]));
}

#[test]
fn events_that_do_not_fit_are_errors() {
    assert_eq!(raw_tokens("abc", &[src(0, 4)]), Err(HighlightError::SpanOutOfRange));
    assert_eq!(raw_tokens("abc", &[src(2, 1)]), Err(HighlightError::SpanOutOfRange));
    assert_eq!(raw_tokens("aé", &[src(0, 2)]), Err(HighlightError::SpanOutOfRange));
    assert_eq!(
        raw_tokens("abc", &[HighlightEvent::HighlightStart(46)]),
        Err(HighlightError::UnknownHighlight)
    );
    assert_eq!(
        raw_tokens("abc", &[src(0, 1), HighlightEvent::HighlightStart(99), src(0, 9)]),
        Err(HighlightError::UnknownHighlight)
    );
    assert_eq!(highlight("abc", &[src(0, 9)]), Err(HighlightError::SpanOutOfRange));
}

#[test]
fn highlight_builds_the_tree() {
    let source = "a(\r\nb)\r\n";
    let events = [
        HighlightEvent::HighlightStart(21),
        src(0, 1),
        HighlightEvent::HighlightEnd,
        HighlightEvent::HighlightStart(41),
        src(1, 2),
        HighlightEvent::HighlightEnd,
        src(2, 4),
        src(4, 5),
        HighlightEvent::HighlightStart(41),
        src(5, 6),
        HighlightEvent::HighlightEnd,
        src(6, 8),
    ];
    let mut expected = TokenTree::new();
    expected.set_tokens(vec![
        vec![tok(0, "a", "function"), tok(1, "(", "punctuation.bracket"), tok(2, "", "")],
        vec![tok(0, "", ""), tok(0, "b", ""), tok(1, ")", "punctuation.bracket"), tok(2, "", "")],
        vec![tok(0, "", "")],
    ]);
    assert_eq!(highlight(source, &events), Ok(expected));
}

#[test]
fn files_open_and_close() {
    let mut manager = FileManager::new();
    assert!(manager.get_file("/a").is_none());
    manager.open_file("/a", "one\n");
    manager.open_file("/b", "two\n");
    manager.open_file("/a", "three\n");
    assert_eq!(manager.get_file("/a").unwrap().content, vec!["one\r\n"]);
    assert_eq!(manager.get_file("/b").unwrap().content, vec!["two\r\n"]);
    manager.close_file("/a");
    assert!(manager.get_file("/a").is_none());
    assert_eq!(manager.get_file("/b").unwrap().path, "/b");
    manager.close_file("/nothing");
    assert!(manager.get_file("/b").is_some());
    manager.close_file("/b");
    assert_eq!(manager, FileManager::new());
}

#[test]
fn highlighting_of_an_open_file() {
    let mut manager = FileManager::new();
    manager.open_file("/a.rs", "x(y)");
    let events = [
        HighlightEvent::HighlightStart(0),
        src(0, 1),
        HighlightEvent::HighlightEnd,
        src(1, 2),
        HighlightEvent::HighlightStart(0),
        src(2, 3),
        HighlightEvent::HighlightEnd,
        src(3, 6),
    ];
    let tree = manager.get_highlighting("/a.rs", &events).unwrap();
    assert_eq!(
        tree.tokens,
        vec![
            vec![tok(0, "x", "variable"), tok(1, "(", ""), tok(2, "y", "variable"), tok(3, ")", "")],
            vec![tok(0, "", "")],
        ]
    );
    assert!(manager.get_highlighting("/b.rs", &events).is_none());
    assert!(manager.get_highlighting("/a.rs", &[src(0, 60)]).is_none());

    let semantic = vec![vec![Token {
        start: 2,
        token: "y".to_string(),
        type_: "variable.parameter".to_string(),
        modifiers: Some(vec!["readonly".to_string()]),
    }]];
    let merged = manager.get_semantic_highlighting("/a.rs", &events, semantic.clone()).unwrap();
    assert_eq!(
        merged.tokens,
        vec![
            vec![
                tok(0, "x", "variable"),
                tok(1, "(", "punctuation.bracket_0"),
                semantic[0][0].clone(),
                tok(3, ")", "punctuation.bracket_0"),
            ],
            vec![tok(0, "", "")],
        ]
    );
    assert!(manager.get_semantic_highlighting("/b.rs", &events, semantic).is_none());
}
