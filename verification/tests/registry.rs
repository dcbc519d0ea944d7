use codeforge::file::parser::{
    get_highlighting_name, highlighting_name_at, ParserError, ParsersManager,
    HIGHLIGHTING_NAME_COUNT, LANGUAGE_VERSION,
};
use codeforge::file::token::Token;
use codeforge::lsp::builder::{BuildError, HandshakeError, LSPClientBuilder};
use codeforge::lsp::info::{
    InitializeResult, LSPInfo, SemanticTokenInfo, SemanticTokensLegend,
    SemanticTokensServerCapabilities,
};
use codeforge::lsp::manager::{document_uri, LSPData, LSPManager, RoutingError, TokenError};
use codeforge::lsp::response::LSPResponse;
use codeforge::lsp::semantic::{DecodeError, SemanticToken};
use codeforge::lsp::utils::{ErrorCode, LSPError};
use codeforge::pattern::{compile_all, matches_any, FilePattern, PatternError};

fn patterns(texts: &[&str]) -> Vec<FilePattern> {
    texts.iter().map(|t| FilePattern::new(t).unwrap()).collect()
}

fn legend() -> SemanticTokensLegend {
    SemanticTokensLegend {
        token_types: vec!["variable".to_string(), "keyword".to_string()],
        token_modifiers: vec!["readonly".to_string()],
    }
}

fn lsp(texts: &[&str], with_legend: bool) -> LSPData {
    let semantic_token_info = if with_legend { Some(SemanticTokenInfo::new(legend())) } else { None };
    LSPData { file_patterns: patterns(texts), lsp_info: Some(LSPInfo { semantic_token_info }) }
}

fn manager() -> LSPManager {
    let mut manager = LSPManager::new();
    manager.add_lsp(lsp(&["^.+\\.rs$"], true));
    manager.add_lsp(lsp(&["^.+\\.py$", "^.+\\.pyi$"], false));
    manager.add_lsp(lsp(&["main"], true));
    manager.add_lsp(LSPData { file_patterns: patterns(&["\\.txt$"]), lsp_info: None });
    manager
}

#[test]
fn patterns_compile_and_match() {
    let pattern = FilePattern::new("^.+\\.rs$").unwrap();
    assert!(pattern.is_match("file:///src/main.rs"));
    assert!(!pattern.is_match("file:///src/main.rs.bak"));
    assert!(!pattern.is_match("^.+\\.rs$"));
    assert!(!pattern.is_match(".rs"));
    assert!(FilePattern::new("").unwrap().is_match("anything"));
}

#[test]
fn bad_patterns_are_refused() {
    assert_eq!(
        FilePattern::new("foo(bar").map(|_| ()),
        Err(PatternError { pattern: "foo(bar".to_string() })
    );
    let all = compile_all(&vec!["a".to_string(), "(".to_string(), "[".to_string()]);
    assert_eq!(all.map(|_| ()), Err(PatternError { pattern: "(".to_string() }));
    let all = compile_all(&vec!["a".to_string(), "b+".to_string()]).unwrap();
    assert_eq!(all.len(), 2);
    assert!(all[1].is_match("abba"));
    assert!(!all[1].is_match("xyz"));
}

#[test]
fn matches_any_pattern() {
    let list = patterns(&["\\.rs$", "\\.toml$"]);
    assert!(matches_any(&list, "Cargo.toml"));
    assert!(matches_any(&list, "lib.rs"));
    assert!(!matches_any(&list, "lib.py"));
    assert!(!matches_any(&Vec::new(), "lib.rs"));
}

#[test]
fn routing_takes_the_first_connection_that_matches() {
    let manager = manager();
    assert_eq!(manager.len(), 4);
    assert_eq!(manager.route("file:///a/lib.rs"), Ok(0));
    assert_eq!(manager.route("file:///a/main.rs"), Ok(0));
    assert_eq!(manager.route("file:///a/main.py"), Ok(1));
    assert_eq!(manager.route("file:///a/stub.pyi"), Ok(1));
    assert_eq!(manager.route("file:///a/main.c"), Ok(2));
    assert_eq!(manager.get_lsp("file:///a/stub.pyi").unwrap().file_patterns.len(), 2);
}

#[test]
fn routing_matches_the_path_of_the_uri() {
    let mut manager = LSPManager::new();
    manager.add_lsp(lsp(&["^file:", "rs#", "query"], true));
    manager.add_lsp(lsp(&["^/src/"], true));
    manager.add_lsp(lsp(&["%20"], false));
    assert_eq!(manager.route("file:///src/lib.rs"), Ok(1));
    assert_eq!(manager.route("file:///src/lib.rs?query=1#frag"), Ok(1));
    assert_eq!(manager.route("https://example.com/src/"), Ok(1));
    assert_eq!(manager.route("file:///other/src/lib.rs"), Err(RoutingError));
    assert_eq!(manager.route("file:///a b/lib.rs"), Ok(2));
    assert_eq!(manager.route("/src/lib.rs"), Err(RoutingError));
    assert_eq!(manager.route(""), Err(RoutingError));
    assert!(manager.get_lsp("/src/lib.rs").is_none());
    assert_eq!(manager.get_lsp("file:///src/x").unwrap().file_patterns.len(), 1);
}

#[test]
fn routing_miss_is_an_error() {
    let manager = manager();
    assert_eq!(manager.route("file:///a/lib.c"), Err(RoutingError));
    assert!(manager.get_lsp("file:///a/lib.c").is_none());
    assert_eq!(LSPManager::new().route("file:///a/lib.rs"), Err(RoutingError));
    let content = vec!["x".to_string()];
    assert_eq!(manager.get_semantic_tokens("/a/lib.c", &content, &[]), Err(TokenError::NoServer));
}

#[test]
fn document_uris() {
    assert_eq!(document_uri("/home/me/main.rs"), Some("file:///home/me/main.rs".to_string()));
    assert_eq!(document_uri("/a b/ü.rs"), Some("file:///a%20b/%C3%BC.rs".to_string()));
    assert_eq!(document_uri("/a/../b"), Some("file:///b".to_string()));
    assert_eq!(document_uri("host:x/a"), None);
}

#[test]
fn semantic_tokens_of_a_document() {
    let manager = manager();
    let content = vec!["name value".to_string()];
    let data = [
        SemanticToken { delta_line: 0, delta_start: 0, length: 4, token_type: 0, token_modifiers_bitset: 0 },
        SemanticToken { delta_line: 0, delta_start: 5, length: 5, token_type: 1, token_modifiers_bitset: 1 },
    ];
    assert_eq!(
        manager.get_semantic_tokens("/src/lib.rs", &content, &data),
        Ok(vec![vec![
            Token { start: 0, token: "name".to_string(), type_: "variable".to_string(), modifiers: Some(vec![]) },
            Token {
                start: 5,
                token: "value".to_string(),
                type_: "keyword".to_string(),
                modifiers: Some(vec!["readonly".to_string()]),
            },
        ]])
    );
}

#[test]
fn semantic_token_errors() {
    let manager = manager();
    let content = vec!["name value".to_string()];
    let bad = [SemanticToken { delta_line: 3, delta_start: 0, length: 4, token_type: 0, token_modifiers_bitset: 0 }];
    assert_eq!(manager.get_semantic_tokens("host:x/a.rs", &content, &[]), Err(TokenError::InvalidPath));
    assert_eq!(manager.get_semantic_tokens("/a.zig", &content, &[]), Err(TokenError::NoServer));
    assert_eq!(manager.get_semantic_tokens("/a.py", &content, &[]), Err(TokenError::NoLegend));
    assert_eq!(manager.get_semantic_tokens("/a.txt", &content, &[]), Err(TokenError::NoLegend));
    assert_eq!(
        manager.get_semantic_tokens("/a.rs", &content, &bad),
        Err(TokenError::Decode(DecodeError::LineOutOfRange))
    );
}

fn builder() -> LSPClientBuilder<String, u8, fn(u8)> {
    LSPData::create()
}

fn handler(_: u8) {}

#[test]
fn builder_needs_its_parts_in_order() {
    assert_eq!(builder().build().map(|_| ()), Err(BuildError::NoPath));
    assert_eq!(builder().path("ra".to_string()).build().map(|_| ()), Err(BuildError::NoFilePatterns));
    assert_eq!(
        builder().path("ra".to_string()).file_patterns(vec![]).build().map(|_| ()),
        Err(BuildError::NoWorkspaceFolders)
    );
    assert_eq!(
        builder()
            .path("ra".to_string())
            .file_patterns(vec!["(".to_string()])
            .workspace_folders(vec![])
            .build()
            .map(|_| ()),
        Err(BuildError::NoCapabilities)
    );
    assert_eq!(
        builder()
            .capabilities(1)
            .workspace_folders(vec![])
            .file_patterns(vec!["a".to_string(), "(".to_string()])
            .path("ra".to_string())
            .build()
            .map(|_| ()),
        Err(BuildError::InvalidPattern(PatternError { pattern: "(".to_string() }))
    );
}

#[test]
fn builder_hands_its_parts_on() {
    let plan = builder()
        .path("rust-analyzer".to_string())
        .file_patterns(vec!["^.+\\.rs$".to_string()])
        .workspace_folders(vec!["here".to_string()])
        .capabilities(9)
        .build()
        .unwrap();
    assert_eq!(plan.path, "rust-analyzer");
    assert_eq!(plan.args, Vec::<String>::new());
    assert_eq!(plan.workspace_folders, vec!["here".to_string()]);
    assert_eq!(plan.capabilities, 9);
    assert!(plan.not_handler.is_none());
    assert_eq!(plan.file_patterns.len(), 1);
    assert!(plan.file_patterns[0].is_match("a.rs"));
    let plan = builder()
        .path("x".to_string())
        .args(vec!["--stdio".to_string()])
        .file_patterns(vec![])
        .workspace_folders(vec![])
        .capabilities(0)
        .not_handler(handler)
        .build()
        .unwrap();
    assert_eq!(plan.args, vec!["--stdio".to_string()]);
    assert!(plan.not_handler.is_some());
}

#[test]
fn connecting_takes_the_legend_or_fails() {
    let ok = LSPResponse {
        result: Ok(InitializeResult {
            semantic_tokens_provider: Some(SemanticTokensServerCapabilities::SemanticTokensOptions(legend())),
        }),
        id: Some(1),
    };
    let lsp = LSPData::connect(patterns(&["a"]), Some(ok)).unwrap();
    assert_eq!(lsp.lsp_info, Some(LSPInfo { semantic_token_info: Some(SemanticTokenInfo::new(legend())) }));
    assert_eq!(lsp.file_patterns.len(), 1);
    assert_eq!(
        LSPData::connect(Vec::new(), None).map(|_| ()),
        Err(HandshakeError::NoInitResponse)
    );
    let error = LSPError { code: ErrorCode::ServerError(-1), message: "busy".to_string() };
    let failed = LSPResponse { result: Err(error.clone()), id: Some(1) };
    assert_eq!(
        LSPData::connect(Vec::new(), Some(failed)).map(|_| ()),
        Err(HandshakeError::Rejected(error))
    );
}

#[test]
fn highlight_names_by_number() {
    assert_eq!(HIGHLIGHTING_NAME_COUNT, 46);
    assert_eq!(highlighting_name_at(0), Some("variable"));
    assert_eq!(highlighting_name_at(21), Some("function"));
    assert_eq!(highlighting_name_at(27), Some("keyword"));
    assert_eq!(highlighting_name_at(41), Some("punctuation.bracket"));
    assert_eq!(highlighting_name_at(45), Some("comment.documentation"));
    assert_eq!(highlighting_name_at(46), None);
    assert_eq!(highlighting_name_at(usize::MAX), None);
    let mut seen = std::collections::HashSet::new();
    for i in 0..HIGHLIGHTING_NAME_COUNT {
        assert!(seen.insert(highlighting_name_at(i).unwrap()));
    }
}

#[test]
fn semantic_types_map_to_highlight_names() {
    let table = [
        ("namespace", "module"),
        ("type", "type"),
        ("class", "type"),
        ("enum", "type"),
        ("interface", "type"),
        ("struct", "type"),
        ("typeParameter", "type"),
        ("parameter", "variable.parameter"),
        ("variable", "variable"),
        ("property", "variable.member"),
        ("enumMember", "type"),
        ("event", "variable"),
        ("function", "function"),
        ("method", "function"),
        ("macro", "function.macro"),
        ("keyword", "keyword"),
        ("modifier", "keyword.modifier"),
        ("comment", "comment"),
        ("string", "string"),
        ("number", "number"),
        ("regexp", "string.regexp"),
        ("operator", "operator"),
        ("decorator", "label"),
        ("punctuation", "punctuation.delimiter"),
        ("brace", "punctuation.bracket"),
        ("bracket", "punctuation.bracket"),
        ("parenthesis", "punctuation.bracket"),
    ];
    for (key, value) in table {
        assert_eq!(get_highlighting_name(key), Some(value.to_string()));
    }
    assert_eq!(get_highlighting_name("Variable"), None);
    assert_eq!(get_highlighting_name(""), None);
    assert_eq!(get_highlighting_name("selfKeyword"), None);
}

#[test]
fn languages_are_found_by_file_name() {
    let mut manager = ParsersManager::new();
    assert!(manager.get_language("main.rs").is_none());
    assert_eq!(tree_sitter_rust::language().version(), LANGUAGE_VERSION);
    assert_eq!(
        manager.add_language(tree_sitter_rust::language(), "h", "i", "l", "^.+\\.rs$".to_string()),
        Ok(())
    );
    assert_eq!(
        manager.add_language(tree_sitter_rust::language(), "h2", "i2", "l2", "main".to_string()),
        Ok(())
    );
    let found = manager.get_language("src/main.rs").unwrap();
    assert_eq!((found.1.as_str(), found.2.as_str(), found.3.as_str()), ("h", "i", "l"));
    assert_eq!(found.0, tree_sitter_rust::language());
    let found = manager.get_language("main.c").unwrap();
    assert_eq!(found.1, "h2");
    assert!(manager.get_language("lib.c").is_none());
}

#[test]
fn a_language_with_a_bad_pattern_is_refused() {
    let mut manager = ParsersManager::new();
    assert_eq!(
        manager.add_language(tree_sitter_rust::language(), "h", "i", "l", "(".to_string()),
        Err(ParserError::InvalidPattern(PatternError { pattern: "(".to_string() }))
    );
    assert!(manager.get_language("(").is_none());
}
