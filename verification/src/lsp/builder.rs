//! Setting up a connection: what has to be known before a server is
//! started, and what is made of its first answer.

use super::info::{InitializeResult, LSPInfo, spec_legend};
use super::manager::{LSPData, LSPDataView};
use super::response::LSPResponse;
use super::utils::LSPError;
use crate::pattern::{
    compile_all, first_bad_pattern, patterns_view, FilePattern, PatternError,
};
use crate::text::strings_view;
use vstd::prelude::*;

verus! {

/// What a connection is made from, piece by piece. `W` is the type of a
/// workspace folder, `C` that of the client's capabilities, `H` that of
/// the notification handler: all three are handed through as they are.
#[derive(Debug)]
pub struct LSPClientBuilder<W, C, H> {
    pub path: Option<String>,
    pub args: Option<Vec<String>>,
    pub file_patterns: Option<Vec<String>>,
    pub workspace_folders: Option<Vec<W>>,
    pub capabilities: Option<C>,
    pub not_handler: Option<H>,
}

/// What is missing or wrong in what a connection is made from.
#[derive(Debug, Clone, PartialEq, Eq)]
pub enum BuildError {
    NoPath,
    NoFilePatterns,
    NoWorkspaceFolders,
    NoCapabilities,
    InvalidPattern(PatternError),
}

/// A build error with the text of its pattern.
pub enum BuildErrorView {
    NoPath,
    NoFilePatterns,
    NoWorkspaceFolders,
    NoCapabilities,
    InvalidPattern(Seq<char>),
}

impl View for BuildError {
    type V = BuildErrorView;

    open spec fn view(&self) -> BuildErrorView {
        match self {
            BuildError::NoPath => BuildErrorView::NoPath,
            BuildError::NoFilePatterns => BuildErrorView::NoFilePatterns,
            BuildError::NoWorkspaceFolders => BuildErrorView::NoWorkspaceFolders,
            BuildError::NoCapabilities => BuildErrorView::NoCapabilities,
            BuildError::InvalidPattern(e) => BuildErrorView::InvalidPattern(e.pattern@),
        }
    }
}

/// Everything that is needed to start a server and to greet it.
#[derive(Debug)]
pub struct LaunchPlan<W, C, H> {
    /// The path of the server's executable.
    pub path: String,
    /// The arguments to start it with.
    pub args: Vec<String>,
    /// The patterns of the documents that it serves, compiled.
    pub file_patterns: Vec<FilePattern>,
    pub workspace_folders: Vec<W>,
    pub capabilities: C,
    /// The notification handler, where one was given.
    pub not_handler: Option<H>,
}

/// Why the greeting of a server failed.
#[derive(Debug, Clone, PartialEq, Eq)]
pub enum HandshakeError {
    /// The first request got an answer with neither result nor error.
    NoInitResponse,
    /// The server answered the first request with an error.
    Rejected(LSPError),
}

impl LSPData {
    /// A builder with nothing set.
    pub fn create<W, C, H>() -> (builder: LSPClientBuilder<W, C, H>)
        ensures
            builder.path is None,
            builder.args is None,
            builder.file_patterns is None,
            builder.workspace_folders is None,
            builder.capabilities is None,
            builder.not_handler is None,
    {
        LSPClientBuilder {
            path: None,
            args: None,
            file_patterns: None,
            workspace_folders: None,
            capabilities: None,
            not_handler: None,
        }
    }

    /// The registry's part of a connection whose server has answered the
    /// first request with `init_res`.
    pub fn connect(
        file_patterns: Vec<FilePattern>,
        init_res: Option<LSPResponse<InitializeResult>>,
    ) -> (lsp: Result<LSPData, HandshakeError>)
        ensures
            match init_res {
                None => lsp == Err::<LSPData, HandshakeError>(HandshakeError::NoInitResponse),
                Some(res) => match res.result {
                    Err(e) => lsp == Err::<LSPData, HandshakeError>(HandshakeError::Rejected(e)),
                    Ok(r) => lsp is Ok && lsp->Ok_0.lsp_info is Some && lsp->Ok_0@ == (LSPDataView {
                        patterns: patterns_view(file_patterns@),
                        legend: spec_legend(r.semantic_tokens_provider),
                    }),
                },
            },
    {
        let init_res = match init_res {
            Some(res) => res,
            None => {
                return Err(HandshakeError::NoInitResponse);
            },
        };
        match LSPInfo::new(init_res) {
            Ok(info) => Ok(LSPData { file_patterns, lsp_info: Some(info) }),
            Err(e) => Err(HandshakeError::Rejected(e)),
        }
    }
}

impl<W, C, H> LSPClientBuilder<W, C, H> {
    /// Sets the path of the server's executable.
    pub fn path(self, path: String) -> (builder: Self)
        ensures
            builder == (LSPClientBuilder { path: Some(path), ..self }),
    {
        let mut builder = self;
        builder.path = Some(path);
        builder
    }

    /// Sets the arguments to start the server with.
    pub fn args(self, args: Vec<String>) -> (builder: Self)
        ensures
            builder == (LSPClientBuilder { args: Some(args), ..self }),
    {
        let mut builder = self;
        builder.args = Some(args);
        builder
    }

    /// Sets the patterns of the documents that the server serves.
    pub fn file_patterns(self, file_patterns: Vec<String>) -> (builder: Self)
        ensures
            builder == (LSPClientBuilder { file_patterns: Some(file_patterns), ..self }),
    {
        let mut builder = self;
        builder.file_patterns = Some(file_patterns);
        builder
    }

    /// Sets the workspace folders to tell the server of.
    pub fn workspace_folders(self, workspace_folders: Vec<W>) -> (builder: Self)
        ensures
            builder == (LSPClientBuilder { workspace_folders: Some(workspace_folders), ..self }),
    {
        let mut builder = self;
        builder.workspace_folders = Some(workspace_folders);
        builder
    }

    /// Sets the capabilities to tell the server of.
    pub fn capabilities(self, capabilities: C) -> (builder: Self)
        ensures
            builder == (LSPClientBuilder { capabilities: Some(capabilities), ..self }),
    {
        let mut builder = self;
        builder.capabilities = Some(capabilities);
        builder
    }

    /// Sets the handler of the server's notifications.
    pub fn not_handler(self, not_handler: H) -> (builder: Self)
        ensures
            builder == (LSPClientBuilder { not_handler: Some(not_handler), ..self }),
    {
        let mut builder = self;
        builder.not_handler = Some(not_handler);
        builder
    }

    /// The error that `build` ends in, if it does.
    pub open spec fn spec_build_error(self) -> Option<BuildErrorView> {
        if self.path is None {
            Some(BuildErrorView::NoPath)
        } else if self.file_patterns is None {
            Some(BuildErrorView::NoFilePatterns)
        } else if self.workspace_folders is None {
            Some(BuildErrorView::NoWorkspaceFolders)
        } else if self.capabilities is None {
            Some(BuildErrorView::NoCapabilities)
        } else {
            let patterns = strings_view(self.file_patterns->Some_0@);
            match first_bad_pattern(patterns) {
                Some(at) => Some(BuildErrorView::InvalidPattern(patterns[at])),
                None => None,
            }
        }
    }

    /// Checks that everything is there, and compiles the patterns.
    ///
    /// The path, the patterns, the workspace folders and the capabilities
    /// must have been set; what is missing first in this order is the
    /// error. Arguments that were not set are none. Then the first pattern
    /// that does not compile is the error.
    pub fn build(self) -> (plan: Result<LaunchPlan<W, C, H>, BuildError>)
        ensures
            match plan {
                Ok(p) => self.spec_build_error() is None && p.path == self.path->Some_0 && p.args@
                    == (match self.args {
                    Some(a) => a@,
                    None => Seq::empty(),
                }) && patterns_view(p.file_patterns@) == strings_view(
                    self.file_patterns->Some_0@,
                ) && p.workspace_folders == self.workspace_folders->Some_0 && p.capabilities
                    == self.capabilities->Some_0 && p.not_handler == self.not_handler,
                Err(e) => self.spec_build_error() == Some(e@),
            },
    {
        let path = match self.path {
            Some(path) => path,
            None => {
                return Err(BuildError::NoPath);
            },
        };
        let args = match self.args {
            Some(args) => args,
            None => Vec::new(),
        };
        let file_patterns = match self.file_patterns {
            Some(file_patterns) => file_patterns,
            None => {
                return Err(BuildError::NoFilePatterns);
            },
        };
        let workspace_folders = match self.workspace_folders {
            Some(workspace_folders) => workspace_folders,
            None => {
                return Err(BuildError::NoWorkspaceFolders);
            },
        };
        let capabilities = match self.capabilities {
            Some(capabilities) => capabilities,
            None => {
                return Err(BuildError::NoCapabilities);
            },
        };
        let file_patterns_reg = match compile_all(&file_patterns) {
            Ok(list) => list,
            Err(e) => {
                return Err(BuildError::InvalidPattern(e));
            },
        };
        Ok(
            LaunchPlan {
                path,
                args,
                file_patterns: file_patterns_reg,
                workspace_folders,
                capabilities,
                not_handler: self.not_handler,
            },
        )
    }
}

} // verus!
