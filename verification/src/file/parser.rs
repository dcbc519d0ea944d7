//! The highlight vocabulary: the names of the classes that the lexical
//! highlighter knows, and the table that carries a server's token types
//! over to them.

use crate::pattern::{regex_compiles, regex_matches, FilePattern, PatternError};
use crate::text::str_eq;
use tree_sitter::Language;
use vstd::prelude::*;

verus! {

/// The number of highlight classes.
pub const HIGHLIGHTING_NAME_COUNT: usize = 46;

/// The name of highlight class `index`, in the order in which the
/// highlighter numbers them.
pub open spec fn spec_highlighting_name_at(index: int) -> Option<Seq<char>> {
    if index == 0 {
        Some("variable"@)
    } else if index == 1 {
        Some("variable.builtin"@)
    } else if index == 2 {
        Some("variable.parameter"@)
    } else if index == 3 {
        Some("variable.member"@)
    } else if index == 4 {
        Some("constant"@)
    } else if index == 5 {
        Some("constant.builtin"@)
    } else if index == 6 {
        Some("module"@)
    } else if index == 7 {
        Some("label"@)
    } else if index == 8 {
        Some("string"@)
    } else if index == 9 {
        Some("string.documentation"@)
    } else if index == 10 {
        Some("string.escape"@)
    } else if index == 11 {
        Some("string.regexp"@)
    } else if index == 12 {
        Some("character"@)
    } else if index == 13 {
        Some("boolean"@)
    } else if index == 14 {
        Some("number"@)
    } else if index == 15 {
        Some("number.float"@)
    } else if index == 16 {
        Some("type"@)
    } else if index == 17 {
        Some("type.builtin"@)
    } else if index == 18 {
        Some("type.definition"@)
    } else if index == 19 {
        Some("attribute"@)
    } else if index == 20 {
        Some("attribute.builtin"@)
    } else if index == 21 {
        Some("function"@)
    } else if index == 22 {
        Some("function.builtin"@)
    } else if index == 23 {
        Some("function.macro"@)
    } else if index == 24 {
        Some("function.call"@)
    } else if index == 25 {
        Some("constructor"@)
    } else if index == 26 {
        Some("operator"@)
    } else if index == 27 {
        Some("keyword"@)
    } else if index == 28 {
        Some("keyword.coroutine"@)
    } else if index == 29 {
        Some("keyword.function"@)
    } else if index == 30 {
        Some("keyword.operator"@)
    } else if index == 31 {
        Some("keyword.import"@)
    } else if index == 32 {
        Some("keyword.type"@)
    } else if index == 33 {
        Some("keyword.modifier"@)
    } else if index == 34 {
        Some("keyword.repeat"@)
    } else if index == 35 {
        Some("keyword.return"@)
    } else if index == 36 {
        Some("keyword.debug"@)
    } else if index == 37 {
        Some("keyword.exception"@)
    } else if index == 38 {
        Some("keyword.conditional"@)
    } else if index == 39 {
        Some("keyword.directive"@)
    } else if index == 40 {
        Some("punctuation.delimiter"@)
    } else if index == 41 {
        Some("punctuation.bracket"@)
    } else if index == 42 {
        Some("punctuation.special"@)
    } else if index == 43 {
        Some("punctuation.accessor"@)
    } else if index == 44 {
        Some("comment"@)
    } else if index == 45 {
        Some("comment.documentation"@)
    } else {
        None
    }
}

/// The highlight class that stands for a server's token type `name`.
pub open spec fn spec_highlighting_name(name: Seq<char>) -> Option<Seq<char>> {
    if name == "namespace"@ {
        Some("module"@)
    } else if name == "type"@ {
        Some("type"@)
    } else if name == "class"@ {
        Some("type"@)
    } else if name == "enum"@ {
        Some("type"@)
    } else if name == "interface"@ {
        Some("type"@)
    } else if name == "struct"@ {
        Some("type"@)
    } else if name == "typeParameter"@ {
        Some("type"@)
    } else if name == "parameter"@ {
        Some("variable.parameter"@)
    } else if name == "variable"@ {
        Some("variable"@)
    } else if name == "property"@ {
        Some("variable.member"@)
    } else if name == "enumMember"@ {
        Some("type"@)
    } else if name == "event"@ {
        Some("variable"@)
    } else if name == "function"@ {
        Some("function"@)
    } else if name == "method"@ {
        Some("function"@)
    } else if name == "macro"@ {
        Some("function.macro"@)
    } else if name == "keyword"@ {
        Some("keyword"@)
    } else if name == "modifier"@ {
        Some("keyword.modifier"@)
    } else if name == "comment"@ {
        Some("comment"@)
    } else if name == "string"@ {
        Some("string"@)
    } else if name == "number"@ {
        Some("number"@)
    } else if name == "regexp"@ {
        Some("string.regexp"@)
    } else if name == "operator"@ {
        Some("operator"@)
    } else if name == "decorator"@ {
        Some("label"@)
    } else if name == "punctuation"@ {
        Some("punctuation.delimiter"@)
    } else if name == "brace"@ {
        Some("punctuation.bracket"@)
    } else if name == "bracket"@ {
        Some("punctuation.bracket"@)
    } else if name == "parenthesis"@ {
        Some("punctuation.bracket"@)
    } else {
        None
    }
}

/// The name of highlight class `index`; `None` from
/// `HIGHLIGHTING_NAME_COUNT` on.
pub fn highlighting_name_at(index: usize) -> (name: Option<&'static str>)
    ensures
        name is Some <==> index < HIGHLIGHTING_NAME_COUNT,
        match (name, spec_highlighting_name_at(index as int)) {
            (Some(n), Some(s)) => n@ == s,
            (None, None) => true,
            _ => false,
        },
{
    if index == 0 {
        Some("variable")
    } else if index == 1 {
        Some("variable.builtin")
    } else if index == 2 {
        Some("variable.parameter")
    } else if index == 3 {
        Some("variable.member")
    } else if index == 4 {
        Some("constant")
    } else if index == 5 {
        Some("constant.builtin")
    } else if index == 6 {
        Some("module")
    } else if index == 7 {
        Some("label")
    } else if index == 8 {
        Some("string")
    } else if index == 9 {
        Some("string.documentation")
    } else if index == 10 {
        Some("string.escape")
    } else if index == 11 {
        Some("string.regexp")
    } else if index == 12 {
        Some("character")
    } else if index == 13 {
        Some("boolean")
    } else if index == 14 {
        Some("number")
    } else if index == 15 {
        Some("number.float")
    } else if index == 16 {
        Some("type")
    } else if index == 17 {
        Some("type.builtin")
    } else if index == 18 {
        Some("type.definition")
    } else if index == 19 {
        Some("attribute")
    } else if index == 20 {
        Some("attribute.builtin")
    } else if index == 21 {
        Some("function")
    } else if index == 22 {
        Some("function.builtin")
    } else if index == 23 {
        Some("function.macro")
    } else if index == 24 {
        Some("function.call")
    } else if index == 25 {
        Some("constructor")
    } else if index == 26 {
        Some("operator")
    } else if index == 27 {
        Some("keyword")
    } else if index == 28 {
        Some("keyword.coroutine")
    } else if index == 29 {
        Some("keyword.function")
    } else if index == 30 {
        Some("keyword.operator")
    } else if index == 31 {
        Some("keyword.import")
    } else if index == 32 {
        Some("keyword.type")
    } else if index == 33 {
        Some("keyword.modifier")
    } else if index == 34 {
        Some("keyword.repeat")
    } else if index == 35 {
        Some("keyword.return")
    } else if index == 36 {
        Some("keyword.debug")
    } else if index == 37 {
        Some("keyword.exception")
    } else if index == 38 {
        Some("keyword.conditional")
    } else if index == 39 {
        Some("keyword.directive")
    } else if index == 40 {
        Some("punctuation.delimiter")
    } else if index == 41 {
        Some("punctuation.bracket")
    } else if index == 42 {
        Some("punctuation.special")
    } else if index == 43 {
        Some("punctuation.accessor")
    } else if index == 44 {
        Some("comment")
    } else if index == 45 {
        Some("comment.documentation")
    } else {
        None
    }
}

/// Carries a server's token type over to the highlight vocabulary:
/// the class of the first entry of the table whose key is `name`, `None`
/// where the table has no such key.
pub fn get_highlighting_name(name: &str) -> (class: Option<String>)
    ensures
        match (class, spec_highlighting_name(name@)) {
            (Some(c), Some(s)) => c@ == s,
            (None, None) => true,
            _ => false,
        },
{
    if str_eq(name, "namespace") {
        Some("module".to_string())
    } else if str_eq(name, "type") {
        Some("type".to_string())
    } else if str_eq(name, "class") {
        Some("type".to_string())
    } else if str_eq(name, "enum") {
        Some("type".to_string())
    } else if str_eq(name, "interface") {
        Some("type".to_string())
    } else if str_eq(name, "struct") {
        Some("type".to_string())
    } else if str_eq(name, "typeParameter") {
        Some("type".to_string())
    } else if str_eq(name, "parameter") {
        Some("variable.parameter".to_string())
    } else if str_eq(name, "variable") {
        Some("variable".to_string())
    } else if str_eq(name, "property") {
        Some("variable.member".to_string())
    } else if str_eq(name, "enumMember") {
        Some("type".to_string())
    } else if str_eq(name, "event") {
        Some("variable".to_string())
    } else if str_eq(name, "function") {
        Some("function".to_string())
    } else if str_eq(name, "method") {
        Some("function".to_string())
    } else if str_eq(name, "macro") {
        Some("function.macro".to_string())
    } else if str_eq(name, "keyword") {
        Some("keyword".to_string())
    } else if str_eq(name, "modifier") {
        Some("keyword.modifier".to_string())
    } else if str_eq(name, "comment") {
        Some("comment".to_string())
    } else if str_eq(name, "string") {
        Some("string".to_string())
    } else if str_eq(name, "number") {
        Some("number".to_string())
    } else if str_eq(name, "regexp") {
        Some("string.regexp".to_string())
    } else if str_eq(name, "operator") {
        Some("operator".to_string())
    } else if str_eq(name, "decorator") {
        Some("label".to_string())
    } else if str_eq(name, "punctuation") {
        Some("punctuation.delimiter".to_string())
    } else if str_eq(name, "brace") {
        Some("punctuation.bracket".to_string())
    } else if str_eq(name, "bracket") {
        Some("punctuation.bracket".to_string())
    } else if str_eq(name, "parenthesis") {
        Some("punctuation.bracket".to_string())
    } else {
        None
    }
}

/// `tree_sitter::Language`, the grammar of a language. Nothing is known
/// of what is inside one.
#[verifier::external_type_specification]
#[verifier::external_body]
pub struct ExLanguage(Language);

/// The version of the grammar format that `language` was made with: what
/// `Language::version` returns.
pub uninterp spec fn language_abi(language: Language) -> usize;

/// The version of the grammar format that the parsing library reads.
pub const LANGUAGE_VERSION: usize = 14;

/// `Language::version`: the version of the grammar format that the
/// language was made with.
#[verifier::external_body]
fn language_version(language: &Language) -> (version: usize)
    ensures
        version == language_abi(*language),
{
    language.version()
}

/// `tree_sitter::LANGUAGE_VERSION`: the version of the grammar format
/// that the parsing library reads, which is 14.
#[verifier::external_body]
fn library_version() -> (version: usize)
    ensures
        version == LANGUAGE_VERSION,
{
    tree_sitter::LANGUAGE_VERSION
}

/// Why a language cannot be added.
#[derive(Debug, Clone, PartialEq, Eq)]
pub enum ParserError {
    /// The language was made with another version of the grammar format
    /// than the parsing library reads.
    VersionMismatch,
    /// The pattern of the language's files does not compile.
    InvalidPattern(PatternError),
}

/// A language with what its highlighting needs, and the pattern of the
/// files that are written in it.
#[derive(Debug)]
pub struct ParserLanguage {
    /// The language, and its queries for highlights, injections and
    /// locals.
    pub language: (Language, String, String, String),
    pub file_pattern: FilePattern,
}

/// A language as the registry reads it.
pub struct ParserLanguageView {
    pub language: Language,
    pub highlights_query: Seq<char>,
    pub injection_query: Seq<char>,
    pub locals_query: Seq<char>,
    pub file_pattern: Seq<char>,
}

impl View for ParserLanguage {
    type V = ParserLanguageView;

    open spec fn view(&self) -> ParserLanguageView {
        ParserLanguageView {
            language: self.language.0,
            highlights_query: self.language.1@,
            injection_query: self.language.2@,
            locals_query: self.language.3@,
            file_pattern: self.file_pattern@,
        }
    }
}

/// The languages of an editor, in the order in which they were added.
#[derive(Debug)]
pub struct ParsersManager {
    languages: Vec<ParserLanguage>,
}

/// The place of the first of `languages` whose pattern matches
/// `file_name`.
pub open spec fn spec_find_language(
    languages: Seq<ParserLanguageView>,
    file_name: Seq<char>,
) -> Option<int>
    decreases languages.len(),
{
    if languages.len() == 0 {
        None
    } else if regex_matches(languages[0].file_pattern, file_name) {
        Some(0)
    } else {
        match spec_find_language(languages.drop_first(), file_name) {
            Some(at) => Some(at + 1),
            None => None,
        }
    }
}

impl View for ParsersManager {
    type V = Seq<ParserLanguageView>;

    closed spec fn view(&self) -> Seq<ParserLanguageView> {
        self.languages@.map_values(|l: ParserLanguage| l@)
    }
}

impl ParsersManager {
    /// No language.
    pub fn new() -> (manager: Self)
        ensures
            manager@ == Seq::<ParserLanguageView>::empty(),
    {
        let manager = ParsersManager { languages: Vec::new() };
        assert(manager@ =~= Seq::<ParserLanguageView>::empty());
        manager
    }

    /// Adds a language for the files whose names `file_pattern` matches.
    ///
    /// A language of another version than the parsing library reads is
    /// refused; then a pattern that does not compile is.
    pub fn add_language(
        &mut self,
        language: Language,
        highlights_query: &str,
        injection_query: &str,
        locals_query: &str,
        file_pattern: String,
    ) -> (done: Result<(), ParserError>)
        ensures
            match done {
                Ok(_) => language_abi(language) == LANGUAGE_VERSION && regex_compiles(
                    file_pattern@,
                ) && final(self)@ == old(self)@.push(
                    ParserLanguageView {
                        language,
                        highlights_query: highlights_query@,
                        injection_query: injection_query@,
                        locals_query: locals_query@,
                        file_pattern: file_pattern@,
                    },
                ),
                Err(ParserError::VersionMismatch) => language_abi(language) != LANGUAGE_VERSION
                    && final(self)@ == old(self)@,
                Err(ParserError::InvalidPattern(e)) => language_abi(language) == LANGUAGE_VERSION
                    && !regex_compiles(file_pattern@) && e.pattern@ == file_pattern@
                    && final(self)@ == old(self)@,
            },
    {
        if library_version() != language_version(&language) {
            return Err(ParserError::VersionMismatch);
        }
        let language_name = match FilePattern::new(file_pattern.as_str()) {
            Ok(pattern) => pattern,
            Err(e) => {
                return Err(ParserError::InvalidPattern(e));
            },
        };
        let entry = ParserLanguage {
            language: (
                language,
                highlights_query.to_string(),
                injection_query.to_string(),
                locals_query.to_string(),
            ),
            file_pattern: language_name,
        };
        self.languages.push(entry);
        assert(self@ =~= old(self)@.push(entry@));
        Ok(())
    }

    /// The language of the file `file_name`, with its queries: the first
    /// one whose pattern matches the name.
    pub fn get_language(&self, file_name: &str) -> (language: Option<
        &(Language, String, String, String),
    >)
        ensures
            match (language, spec_find_language(self@, file_name@)) {
                (Some(l), Some(at)) => 0 <= at < self@.len() && l.0 == self@[at].language && l.1@
                    == self@[at].highlights_query && l.2@ == self@[at].injection_query && l.3@
                    == self@[at].locals_query,
                (None, None) => true,
                _ => false,
            },
    {
        let mut i: usize = 0;
        assert(self@.skip(0) =~= self@);
        while i < self.languages.len()
            invariant
                i <= self.languages@.len(),
                spec_find_language(self@, file_name@) == match spec_find_language(
                    self@.skip(i as int),
                    file_name@,
                ) {
                    Some(at) => Some(at + i),
                    None => None,
                },
            decreases self.languages@.len() - i,
        {
            assert(self@.skip(i as int)[0] == self@[i as int]);
            assert(self@[i as int] == self.languages@[i as int]@);
            if self.languages[i].file_pattern.is_match(file_name) {
                return Some(&self.languages[i].language);
            }
            assert(self@.skip(i as int).drop_first() =~= self@.skip(i + 1));
            i += 1;
        }
        assert(self@.skip(i as int).len() == 0);
        None
    }
}

} // verus!
