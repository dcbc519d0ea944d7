//! Patterns on file names: regular expressions, compiled once and matched
//! many times.

use regex::Regex;
use vstd::prelude::*;

verus! {

/// `regex::Regex`, a compiled regular expression. Nothing is known of
/// what is inside one.
#[verifier::external_type_specification]
#[verifier::external_body]
pub struct ExRegex(Regex);

/// `regex::Error`, the reason why a pattern did not compile. Nothing is
/// known of what is inside one.
#[verifier::external_type_specification]
#[verifier::external_body]
pub struct ExRegexError(regex::Error);

/// Whether `Regex::new` accepts `pattern`.
pub uninterp spec fn regex_compiles(pattern: Seq<char>) -> bool;

/// The pattern that `re` was compiled from: what `Regex::as_str` returns.
pub uninterp spec fn regex_source(re: Regex) -> Seq<char>;

/// Whether the regular expression that `Regex::new` makes of `pattern`
/// matches somewhere in `text`: what `Regex::is_match` returns.
pub uninterp spec fn regex_matches(pattern: Seq<char>, text: Seq<char>) -> bool;

/// Whether `re` is as `Regex::new` makes a regular expression: compiled
/// from its pattern with the options that `Regex::new` sets, and no
/// others.
pub uninterp spec fn regex_plain(re: Regex) -> bool;

/// `Regex::new`: the pattern compiled. Whether it compiles depends on the
/// pattern alone, and the regular expression keeps the pattern that it
/// was compiled from. What comes out is a plain regular expression.
#[verifier::external_body]
fn compile(pattern: &str) -> (re: Result<Regex, regex::Error>)
    ensures
        re is Ok <==> regex_compiles(pattern@),
        re is Ok ==> regex_source(re->Ok_0) == pattern@,
        re is Ok ==> regex_plain(re->Ok_0),
{
    Regex::new(pattern)
}

/// `Regex::is_match`: whether the regular expression matches somewhere in
/// `text`. For a plain regular expression this depends on its pattern and
/// on the text alone.
#[verifier::external_body]
fn is_match(re: &Regex, text: &str) -> (found: bool)
    requires
        regex_plain(*re),
    ensures
        found == regex_matches(regex_source(*re), text@),
{
    re.is_match(text)
}

/// A pattern that did not compile.
#[derive(Debug, Clone, PartialEq, Eq)]
pub struct PatternError {
    /// The text of the pattern.
    pub pattern: String,
}

/// A compiled pattern on file names.
#[derive(Debug)]
pub struct FilePattern {
    regex: Regex,
}

impl View for FilePattern {
    type V = Seq<char>;

    closed spec fn view(&self) -> Seq<char> {
        regex_source(self.regex)
    }
}

impl FilePattern {
    /// The regular expression of a pattern is a plain one.
    #[verifier::type_invariant]
    spec fn plain(&self) -> bool {
        regex_plain(self.regex)
    }

    /// Compiles `pattern`.
    pub fn new(pattern: &str) -> (compiled: Result<FilePattern, PatternError>)
        ensures
            match compiled {
                Ok(p) => regex_compiles(pattern@) && p@ == pattern@,
                Err(e) => !regex_compiles(pattern@) && e.pattern@ == pattern@,
            },
    {
        match compile(pattern) {
            Ok(regex) => Ok(FilePattern { regex }),
            Err(_) => Err(PatternError { pattern: pattern.to_string() }),
        }
    }

    /// Whether the pattern matches somewhere in `text`.
    pub fn is_match(&self, text: &str) -> (found: bool)
        ensures
            found == regex_matches(self@, text@),
    {
        proof {
            use_type_invariant(self);
        }
        is_match(&self.regex, text)
    }
}

/// The texts of a list of patterns.
pub open spec fn patterns_view(patterns: Seq<FilePattern>) -> Seq<Seq<char>> {
    patterns.map_values(|p: FilePattern| p@)
}

/// Whether one of `patterns` matches somewhere in `text`.
pub open spec fn any_matches(patterns: Seq<Seq<char>>, text: Seq<char>) -> bool {
    exists|j: int| 0 <= j < patterns.len() && regex_matches(#[trigger] patterns[j], text)
}

/// Whether one of `patterns` matches somewhere in `text`.
pub fn matches_any(patterns: &Vec<FilePattern>, text: &str) -> (found: bool)
    ensures
        found == any_matches(patterns_view(patterns@), text@),
{
    let mut j: usize = 0;
    while j < patterns.len()
        invariant
            j <= patterns@.len(),
            forall|k: int|
                0 <= k < j ==> !regex_matches(#[trigger] patterns_view(patterns@)[k], text@),
        decreases patterns@.len() - j,
    {
        if patterns[j].is_match(text) {
            assert(regex_matches(patterns_view(patterns@)[j as int], text@));
            return true;
        }
        j += 1;
    }
    false
}

/// The place of the first pattern of `patterns` that does not compile.
pub open spec fn first_bad_pattern(patterns: Seq<Seq<char>>) -> Option<int>
    decreases patterns.len(),
{
    if patterns.len() == 0 {
        None
    } else if !regex_compiles(patterns[0]) {
        Some(0)
    } else {
        match first_bad_pattern(patterns.drop_first()) {
            Some(at) => Some(at + 1),
            None => None,
        }
    }
}

/// Compiles each of `patterns`, in their order. The first one that does
/// not compile is the error.
pub fn compile_all(patterns: &Vec<String>) -> (compiled: Result<Vec<FilePattern>, PatternError>)
    ensures
        match (compiled, first_bad_pattern(crate::text::strings_view(patterns@))) {
            (Ok(list), None) => patterns_view(list@) == crate::text::strings_view(patterns@),
            (Err(e), Some(at)) => 0 <= at < patterns@.len() && e.pattern@ == patterns@[at]@,
            _ => false,
        },
{
    let ghost texts = crate::text::strings_view(patterns@);
    let mut list: Vec<FilePattern> = Vec::new();
    let mut i: usize = 0;
    assert(texts.skip(0) =~= texts);
    assert(patterns_view(list@) =~= texts.take(0));
    while i < patterns.len()
        invariant
            texts == crate::text::strings_view(patterns@),
            i <= patterns@.len(),
            patterns_view(list@) == texts.take(i as int),
            first_bad_pattern(texts) == match first_bad_pattern(texts.skip(i as int)) {
                Some(at) => Some(at + i),
                None => None,
            },
        decreases patterns@.len() - i,
    {
        let ghost so_far = patterns_view(list@);
        assert(texts.skip(i as int)[0] == texts[i as int]);
        assert(texts.skip(i as int).drop_first() =~= texts.skip(i + 1));
        match FilePattern::new(patterns[i].as_str()) {
            Ok(pattern) => {
                list.push(pattern);
                assert(patterns_view(list@) =~= so_far.push(pattern@));
                assert(texts.take(i + 1) =~= texts.take(i as int).push(texts[i as int]));
            },
            Err(e) => {
                return Err(e);
            },
        }
        i += 1;
    }
    assert(texts.skip(i as int).len() == 0);
    assert(texts.take(i as int) =~= texts);
    Ok(list)
}

} // verus!
