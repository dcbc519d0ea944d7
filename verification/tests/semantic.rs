use codeforge::file::token::Token;
use codeforge::lsp::info::{
    InitializeResult, LSPInfo, SemanticTokenInfo, SemanticTokensLegend,
    SemanticTokensServerCapabilities,
};
use codeforge::lsp::response::LSPResponse;
use codeforge::lsp::semantic::{decode, DecodeError, SemanticToken};
use codeforge::lsp::utils::{ErrorCode, LSPError};

fn legend(types: &[&str], modifiers: &[&str]) -> SemanticTokensLegend {
    SemanticTokensLegend {
        token_types: types.iter().map(|s| s.to_string()).collect(),
        token_modifiers: modifiers.iter().map(|s| s.to_string()).collect(),
    }
}

fn info(types: &[&str], modifiers: &[&str]) -> SemanticTokenInfo {
    SemanticTokenInfo::new(legend(types, modifiers))
}

fn st(delta_line: u32, delta_start: u32, length: u32, token_type: u32, bits: u32) -> SemanticToken {
    SemanticToken { delta_line, delta_start, length, token_type, token_modifiers_bitset: bits }
}

fn token(start: u32, text: &str, kind: &str, modifiers: &[&str]) -> Token {
    Token {
        start,
        token: text.to_string(),
        type_: kind.to_string(),
        modifiers: Some(modifiers.iter().map(|m| m.to_string()).collect()),
    }
}

fn lines(text: &[&str]) -> Vec<String> {
    text.iter().map(|s| s.to_string()).collect()
}

#[test]
fn semantic_decode_example() {
    let info = info(&["variable", "keyword"], &["readonly"]);
    let content = lines(&["name value"]);
    let data = [st(0, 0, 4, 0, 0), st(0, 5, 3, 1, 1)];
    let tree = decode(&info, &content, &data).unwrap();
    assert_eq!(
        tree,
        vec![vec![token(0, "name", "variable", &[]), token(5, "val", "keyword", &["readonly"])]]
    );
    let count: usize = tree.iter().map(|l| l.len()).sum();
    assert_eq!(count, data.len());
    for line in &tree {
        for pair in line.windows(2) {
            assert!(pair[0].start + pair[0].token.len() as u32 <= pair[1].start);
            assert!(pair[0].start < pair[1].start);
        }
    }
}

#[test]
fn decode_moves_down_lines_and_resets_the_column() {
    let info = info(&["function", "class", "unheard"], &["a", "b", "c"]);
    let content = lines(&["fn main() {\r\n", "    let x = 1;\r\n", "\r\n", "}  // é!\r\n"]);
    let data = [st(0, 3, 4, 0, 0b101), st(1, 4, 3, 2, 0), st(0, 4, 1, 1, 0b010), st(2, 6, 2, 0, 0)];
    assert_eq!(
        decode(&info, &content, &data),
        Ok(vec![
            vec![token(3, "main", "function", &["a", "c"])],
            vec![token(4, "let", "", &[]), token(8, "x", "type", &["b"])],
            vec![],
            vec![token(6, "é", "function", &[])],
        ])
    );
}

#[test]
fn decode_of_nothing_is_one_empty_line() {
    assert_eq!(decode(&info(&[], &[]), &[], &[]), Ok(vec![Vec::<Token>::new()]));
}

#[test]
fn decode_allows_overlapping_tokens() {
    let info = info(&["string"], &[]);
    let content = lines(&["abcdef"]);
    let data = [st(0, 2, 3, 0, 0), st(0, 0, 4, 0, 0), st(0, 1, 0, 0, 0)];
    assert_eq!(
        decode(&info, &content, &data),
        Ok(vec![vec![
            token(2, "cde", "string", &[]),
            token(2, "cdef", "string", &[]),
            token(3, "", "string", &[]),
        ]])
    );
}

#[test]
fn decode_rejects_unknown_type() {
    let info = info(&["variable"], &[]);
    assert_eq!(decode(&info, &lines(&["abc"]), &[st(0, 0, 1, 1, 0)]), Err(DecodeError::UnknownType));
}

#[test]
fn decode_rejects_unknown_modifier() {
    let info = info(&["variable"], &["one"]);
    let content = lines(&["abc"]);
    assert_eq!(decode(&info, &content, &[st(0, 0, 1, 0, 0b10)]), Err(DecodeError::UnknownModifier));
    assert_eq!(decode(&info, &content, &[st(0, 0, 1, 0, 1 << 30)]), Err(DecodeError::UnknownModifier));
    assert_eq!(
        decode(&info, &content, &[st(0, 0, 1, 0, (1 << 31) | 1)]),
        Err(DecodeError::UnknownModifier)
    );
}

#[test]
fn decode_reads_all_thirty_two_modifier_bits() {
    let names: Vec<String> = (0..32).map(|i| format!("m{}", i)).collect();
    let refs: Vec<&str> = names.iter().map(|s| s.as_str()).collect();
    let info = info(&["variable"], &refs);
    let content = lines(&["abc"]);
    assert_eq!(
        decode(&info, &content, &[st(0, 0, 1, 0, 1 << 31)]),
        Ok(vec![vec![token(0, "a", "variable", &["m31"])]])
    );
    assert_eq!(
        decode(&info, &content, &[st(0, 1, 2, 0, (1 << 31) | (1 << 30) | 1)]),
        Ok(vec![vec![token(1, "bc", "variable", &["m0", "m30", "m31"])]])
    );
    assert_eq!(info.get_token_modifiers(u32::MAX), names);
    assert!(info.knows_modifiers(u32::MAX));
}

#[test]
fn decode_rejects_lines_outside_the_document() {
    let info = info(&["variable"], &[]);
    assert_eq!(decode(&info, &lines(&["abc"]), &[st(1, 0, 1, 0, 0)]), Err(DecodeError::LineOutOfRange));
    assert_eq!(decode(&info, &[], &[st(0, 0, 0, 0, 0)]), Err(DecodeError::LineOutOfRange));
    assert_eq!(
        decode(&info, &lines(&["a", "b"]), &[st(1, 0, 1, 0, 0), st(u32::MAX, 0, 1, 0, 0)]),
        Err(DecodeError::LineOutOfRange)
    );
}

#[test]
fn decode_rejects_spans_outside_the_line() {
    let info = info(&["variable"], &[]);
    let content = lines(&["aéb"]);
    assert_eq!(decode(&info, &content, &[st(0, 0, 5, 0, 0)]), Err(DecodeError::SpanOutOfRange));
    assert_eq!(decode(&info, &content, &[st(0, 5, 0, 0, 0)]), Err(DecodeError::SpanOutOfRange));
    assert_eq!(decode(&info, &content, &[st(0, 2, 1, 0, 0)]), Err(DecodeError::SpanOutOfRange));
    assert_eq!(decode(&info, &content, &[st(0, 1, 1, 0, 0)]), Err(DecodeError::SpanOutOfRange));
    assert_eq!(
        decode(&info, &content, &[st(0, 1, 2, 0, 0), st(0, u32::MAX, 0, 0, 0)]),
        Err(DecodeError::SpanOutOfRange)
    );
    assert_eq!(
        decode(&info, &content, &[st(0, 1, u32::MAX, 0, 0)]),
        Err(DecodeError::SpanOutOfRange)
    );
}

#[test]
fn first_error_decides() {
    let info = info(&["variable"], &[]);
    let content = lines(&["abc"]);
    assert_eq!(
        decode(&info, &content, &[st(0, 0, 9, 0, 0), st(0, 0, 1, 7, 0)]),
        Err(DecodeError::SpanOutOfRange)
    );
    assert_eq!(
        decode(&info, &content, &[st(5, 0, 9, 3, 2)]),
        Err(DecodeError::UnknownType)
    );
}

#[test]
fn legend_lookups() {
    let info = info(&["a", "b"], &["x", "y", "z"]);
    assert_eq!(info.token_type_count(), 2);
    assert_eq!(info.get_token_type(0), "a");
    assert_eq!(info.get_token_type(1), "b");
    assert_eq!(info.get_token_modifiers(0), Vec::<String>::new());
    assert_eq!(info.get_token_modifiers(0b101), vec!["x", "z"]);
    assert_eq!(info.get_token_modifiers(0b111), vec!["x", "y", "z"]);
    assert!(info.knows_modifiers(0b111));
    assert!(!info.knows_modifiers(1 << 31));
    assert!(!info.knows_modifiers(0b1000));
    assert!(info.knows_modifiers(0));
}

#[test]
fn info_takes_the_legend_of_either_form() {
    let direct = LSPResponse {
        result: Ok(InitializeResult {
            semantic_tokens_provider: Some(SemanticTokensServerCapabilities::SemanticTokensOptions(
                legend(&["a"], &["m"]),
            )),
        }),
        id: Some(1),
    };
    let registered = LSPResponse {
        result: Ok(InitializeResult {
            semantic_tokens_provider: Some(
                SemanticTokensServerCapabilities::SemanticTokensRegistrationOptions(legend(&["a"], &["m"])),
            ),
        }),
        id: Some(1),
    };
    let expected = LSPInfo { semantic_token_info: Some(info(&["a"], &["m"])) };
    assert_eq!(LSPInfo::new(direct), Ok(expected.clone()));
    assert_eq!(LSPInfo::new(registered), Ok(expected));
}

#[test]
fn info_without_semantic_tokens_is_valid() {
    let none = LSPResponse { result: Ok(InitializeResult { semantic_tokens_provider: None }), id: None };
    assert_eq!(LSPInfo::new(none), Ok(LSPInfo { semantic_token_info: None }));
}

#[test]
fn info_of_a_failed_handshake_is_the_error() {
    let error = LSPError { code: ErrorCode::InternalError, message: "no".to_string() };
    let failed: LSPResponse<InitializeResult> = LSPResponse { result: Err(error.clone()), id: Some(1) };
    assert_eq!(LSPInfo::new(failed), Err(error));
}
