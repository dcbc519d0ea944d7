//! The registry of connections: which server serves which document, and
//! the semantic tokens of a document read with the legend of its server.

use super::info::{LSPInfo, LegendView};
use super::semantic::{decode, spec_decode, DecodeError, SemanticToken};
use crate::file::token::{lines_view, Token, TokenView};
use crate::pattern::{any_matches, matches_any, patterns_view, FilePattern};
use crate::text::strings_view;
use vstd::prelude::*;
use vstd::string::*;

verus! {

/// The URL that `Url::parse` makes of `text`, as it is written out;
/// `None` where `text` is no URL.
pub uninterp spec fn spec_url(text: Seq<char>) -> Option<Seq<char>>;

/// `Url::parse`, and `Url::as_str` on what it returns: the URL that
/// `text` reads as, written out. It depends on `text` alone.
#[verifier::external_body]
fn parse_url(text: &str) -> (url: Option<String>)
    ensures
        match (url, spec_url(text@)) {
            (Some(u), Some(s)) => u@ == s,
            (None, None) => true,
            _ => false,
        },
{
    match lsp_types::Url::parse(text) {
        Ok(url) => Some(url.as_str().to_string()),
        Err(_) => None,
    }
}

/// The path of the URL that `Url::parse` makes of `text`, as `Url::path`
/// gives it; `None` where `text` is no URL.
pub uninterp spec fn spec_url_path(text: Seq<char>) -> Option<Seq<char>>;

/// `Url::parse`, and `Url::path` on what it returns: the path of the URL
/// that `text` reads as. It depends on `text` alone.
#[verifier::external_body]
fn parse_url_path(text: &str) -> (path: Option<String>)
    ensures
        match (path, spec_url_path(text@)) {
            (Some(p), Some(s)) => p@ == s,
            (None, None) => true,
            _ => false,
        },
{
    match lsp_types::Url::parse(text) {
        Ok(url) => Some(url.path().to_string()),
        Err(_) => None,
    }
}

/// The URI of the document at `path`: the URL of `file://` and the path.
pub open spec fn spec_document_uri(path: Seq<char>) -> Option<Seq<char>> {
    spec_url("file://"@ + path)
}

/// The URI of the document at `path`.
pub fn document_uri(path: &str) -> (uri: Option<String>)
    ensures
        match (uri, spec_document_uri(path@)) {
            (Some(u), Some(s)) => u@ == s,
            (None, None) => true,
            _ => false,
        },
{
    let mut text = "file://".to_string();
    text.append(path);
    parse_url(text.as_str())
}

/// What the registry keeps of a connection: the patterns on the paths of
/// the documents that its server serves, and what the server said of
/// itself.
#[derive(Debug)]
pub struct LSPData {
    pub file_patterns: Vec<FilePattern>,
    pub lsp_info: Option<LSPInfo>,
}

/// A connection as the registry reads it.
pub struct LSPDataView {
    pub patterns: Seq<Seq<char>>,
    pub legend: Option<LegendView>,
}

impl View for LSPData {
    type V = LSPDataView;

    open spec fn view(&self) -> LSPDataView {
        LSPDataView {
            patterns: patterns_view(self.file_patterns@),
            legend: match self.lsp_info {
                Some(info) => info.legend(),
                None => None,
            },
        }
    }
}

/// No connection serves the document.
#[derive(Debug, Clone, Copy, PartialEq, Eq, Structural)]
pub struct RoutingError;

/// Why a document has no semantic tokens.
#[derive(Debug, Clone, Copy, PartialEq, Eq, Structural)]
pub enum TokenError {
    /// The path of the document makes no URI.
    InvalidPath,
    /// No connection serves the document.
    NoServer,
    /// The server of the document gave no legend.
    NoLegend,
    /// The tokens do not fit the document or the legend.
    Decode(DecodeError),
}

/// The connections of an editor, in the order in which they were added.
#[derive(Debug)]
pub struct LSPManager {
    lsps: Vec<LSPData>,
}

/// The connections of a run, each as the registry reads it.
pub open spec fn lsps_view(lsps: Seq<LSPData>) -> Seq<LSPDataView> {
    lsps.map_values(|lsp: LSPData| lsp@)
}

/// The place of the first of `lsps` one of whose patterns matches `path`.
pub open spec fn spec_route(lsps: Seq<LSPDataView>, path: Seq<char>) -> Option<int>
    decreases lsps.len(),
{
    if lsps.len() == 0 {
        None
    } else if any_matches(lsps[0].patterns, path) {
        Some(0)
    } else {
        match spec_route(lsps.drop_first(), path) {
            Some(at) => Some(at + 1),
            None => None,
        }
    }
}

/// The place of the connection that serves the document `uri`: the first
/// of `lsps` one of whose patterns matches the path of the URI. A text
/// that is no URI has no path, and no connection serves it.
pub open spec fn spec_route_uri(lsps: Seq<LSPDataView>, uri: Seq<char>) -> Option<int> {
    match spec_url_path(uri) {
        Some(path) => spec_route(lsps, path),
        None => None,
    }
}

/// The semantic tokens of the document at `path`, whose lines are
/// `content`, from the tokens `data` of the wire.
pub open spec fn spec_semantic_tokens(
    lsps: Seq<LSPDataView>,
    path: Seq<char>,
    content: Seq<Seq<char>>,
    data: Seq<SemanticToken>,
) -> Result<Seq<Seq<TokenView>>, TokenError> {
    match spec_document_uri(path) {
        None => Err(TokenError::InvalidPath),
        Some(uri) => match spec_route_uri(lsps, uri) {
            None => Err(TokenError::NoServer),
            Some(at) => match lsps[at].legend {
                None => Err(TokenError::NoLegend),
                Some(legend) => match spec_decode(legend, content, data) {
                    Ok(tree) => Ok(tree),
                    Err(e) => Err(TokenError::Decode(e)),
                },
            },
        },
    }
}

impl View for LSPManager {
    type V = Seq<LSPDataView>;

    closed spec fn view(&self) -> Seq<LSPDataView> {
        lsps_view(self.lsps@)
    }
}

impl LSPManager {
    /// No connection.
    pub fn new() -> (manager: Self)
        ensures
            manager@ == Seq::<LSPDataView>::empty(),
    {
        let manager = LSPManager { lsps: Vec::new() };
        assert(manager@ =~= Seq::<LSPDataView>::empty());
        manager
    }

    /// Adds a connection behind those that are there.
    pub fn add_lsp(&mut self, lsp: LSPData)
        ensures
            final(self)@ == old(self)@.push(lsp@),
    {
        self.lsps.push(lsp);
        assert(self@ =~= old(self)@.push(lsp@));
    }

    /// The number of connections.
    pub fn len(&self) -> (count: usize)
        ensures
            count == self@.len(),
    {
        self.lsps.len()
    }

    /// The place of the first connection one of whose patterns matches
    /// `path`.
    fn route_path(&self, path: &str) -> (place: Option<usize>)
        ensures
            match (place, spec_route(self@, path@)) {
                (Some(at), Some(s)) => at == s && at < self@.len(),
                (None, None) => true,
                _ => false,
            },
            place is None <==> forall|i: int|
                0 <= i < self@.len() ==> !any_matches((#[trigger] self@[i]).patterns, path@),
    {
        let mut i: usize = 0;
        assert(self@.skip(0) =~= self@);
        while i < self.lsps.len()
            invariant
                i <= self.lsps@.len(),
                spec_route(self@, path@) == match spec_route(self@.skip(i as int), path@) {
                    Some(at) => Some(at + i),
                    None => None,
                },
                forall|k: int| 0 <= k < i ==> !any_matches((#[trigger] self@[k]).patterns, path@),
            decreases self.lsps@.len() - i,
        {
            assert(self@.skip(i as int)[0] == self@[i as int]);
            assert(self@[i as int] == self.lsps@[i as int]@);
            if matches_any(&self.lsps[i].file_patterns, path) {
                return Some(i);
            }
            assert(self@.skip(i as int).drop_first() =~= self@.skip(i + 1));
            i += 1;
        }
        assert(self@.skip(i as int).len() == 0);
        None
    }

    /// The place of the connection that serves the document `uri`: the
    /// first one of whose patterns matches the path of the URI. A document
    /// that none serves is a routing error, and so is a text that is no
    /// URI.
    pub fn route(&self, uri: &str) -> (place: Result<usize, RoutingError>)
        ensures
            match (place, spec_route_uri(self@, uri@)) {
                (Ok(at), Some(s)) => at == s && at < self@.len(),
                (Err(_), None) => true,
                _ => false,
            },
            place is Err <==> spec_url_path(uri@) is None || forall|i: int|
                0 <= i < self@.len() ==> !any_matches(
                    (#[trigger] self@[i]).patterns,
                    spec_url_path(uri@)->Some_0,
                ),
    {
        let path = match parse_url_path(uri) {
            Some(path) => path,
            None => {
                return Err(RoutingError);
            },
        };
        match self.route_path(path.as_str()) {
            Some(at) => Ok(at),
            None => Err(RoutingError),
        }
    }

    /// The connection that serves the document `uri`.
    pub fn get_lsp(&self, uri: &str) -> (lsp: Option<&LSPData>)
        ensures
            match (lsp, spec_route_uri(self@, uri@)) {
                (Some(l), Some(at)) => 0 <= at < self@.len() && l@ == self@[at],
                (None, None) => true,
                _ => false,
            },
    {
        match self.route(uri) {
            Ok(at) => {
                assert(self@[at as int] == self.lsps@[at as int]@);
                Some(&self.lsps[at])
            },
            Err(_) => None,
        }
    }

    /// Reads the semantic tokens `data`, which the server of the document
    /// at `path` sent for it, against the lines `content` of the document
    /// and the legend of that server.
    pub fn get_semantic_tokens(&self, path: &str, content: &[String], data: &[SemanticToken]) -> (tokens:
        Result<Vec<Vec<Token>>, TokenError>)
        ensures
            match (tokens, spec_semantic_tokens(self@, path@, strings_view(content@), data@)) {
                (Ok(t), Ok(s)) => lines_view(t@) == s,
                (Err(e), Err(f)) => e == f,
                _ => false,
            },
    {
        let uri = match document_uri(path) {
            Some(uri) => uri,
            None => {
                return Err(TokenError::InvalidPath);
            },
        };
        let lsp = match self.get_lsp(uri.as_str()) {
            Some(lsp) => lsp,
            None => {
                return Err(TokenError::NoServer);
            },
        };
        let token_info = match &lsp.lsp_info {
            Some(info) => match &info.semantic_token_info {
                Some(token_info) => token_info,
                None => {
                    return Err(TokenError::NoLegend);
                },
            },
            None => {
                return Err(TokenError::NoLegend);
            },
        };
        match decode(token_info, content, data) {
            Ok(tokens) => Ok(tokens),
            Err(e) => Err(TokenError::Decode(e)),
        }
    }
}

} // verus!
