//! The fixed table of language servers, chosen by file extension.
use crate::text::same_text;
use vstd::prelude::*;

verus! {

/// What `Path::extension` gives for a path (read lossily as UTF-8).
pub uninterp spec fn path_extension(path: Seq<char>) -> Option<Seq<char>>;

/// Relies on `Path::extension`: the extension depends on the path text alone.
#[verifier::external_body]
fn extension_of(path: &str) -> (r: Option<String>)
    ensures
        match r {
            Some(e) => path_extension(path@) == Some(e@),
            None => path_extension(path@) is None,
        },
{
    std::path::Path::new(path).extension().map(|e| e.to_string_lossy().into_owned())
}

/// One supported language server.
#[derive(Clone, Copy, Debug, PartialEq, Eq, Structural)]
pub enum ServerSpec {
    RustAnalyzer,
    Pylsp,
    TypeScript,
    Gopls,
}

/// The server for a file extension.
pub open spec fn spec_for_extension(ext: Seq<char>) -> Option<ServerSpec> {
    if ext == "rs"@ {
        Some(ServerSpec::RustAnalyzer)
    } else if ext == "py"@ {
        Some(ServerSpec::Pylsp)
    } else if ext == "js"@ || ext == "ts"@ || ext == "tsx"@ || ext == "jsx"@ {
        Some(ServerSpec::TypeScript)
    } else if ext == "go"@ {
        Some(ServerSpec::Gopls)
    } else {
        None
    }
}

/// The server for a path, by its extension.
pub open spec fn spec_for_path(path: Seq<char>) -> Option<ServerSpec> {
    match path_extension(path) {
        Some(e) => spec_for_extension(e),
        None => None,
    }
}

impl ServerSpec {
    /// The server for a file extension, or `None` when no server handles it.
    pub fn for_extension(ext: &str) -> (r: Option<ServerSpec>)
        ensures
            r == spec_for_extension(ext@),
    {
        if same_text(ext, "rs") {
            Some(ServerSpec::RustAnalyzer)
        } else if same_text(ext, "py") {
            Some(ServerSpec::Pylsp)
        } else if same_text(ext, "js") || same_text(ext, "ts") || same_text(ext, "tsx") || same_text(
            ext,
            "jsx",
        ) {
            Some(ServerSpec::TypeScript)
        } else if same_text(ext, "go") {
            Some(ServerSpec::Gopls)
        } else {
            None
        }
    }

    /// The server for a file, chosen by its extension; `None` when no server handles it.
    pub fn from_path(path: &str) -> (r: Option<ServerSpec>)
        ensures
            r == spec_for_path(path@),
    {
        match extension_of(path) {
            Some(e) => ServerSpec::for_extension(e.as_str()),
            None => None,
        }
    }

    /// The key that tells servers apart.
    pub fn key(&self) -> (r: &'static str)
        ensures
            r@ == match *self {
            ServerSpec::RustAnalyzer => "rust"@,
            ServerSpec::Pylsp => "python"@,
            ServerSpec::TypeScript => "ts"@,
            ServerSpec::Gopls => "go"@,
            },
    {
        match self {
            ServerSpec::RustAnalyzer => "rust",
            ServerSpec::Pylsp => "python",
            ServerSpec::TypeScript => "ts",
            ServerSpec::Gopls => "go",
        }
    }

    /// The server's display name.
    pub fn name(&self) -> (r: &'static str)
        ensures
            r@ == match *self {
            ServerSpec::RustAnalyzer => "rust-analyzer"@,
            ServerSpec::Pylsp => "pylsp"@,
            ServerSpec::TypeScript => "typescript-language-server"@,
            ServerSpec::Gopls => "gopls"@,
            },
    {
        match self {
            ServerSpec::RustAnalyzer => "rust-analyzer",
            ServerSpec::Pylsp => "pylsp",
            ServerSpec::TypeScript => "typescript-language-server",
            ServerSpec::Gopls => "gopls",
        }
    }

    /// The program to start.
    pub fn command(&self) -> (r: &'static str)
        ensures
            r@ == match *self {
            ServerSpec::RustAnalyzer => "rust-analyzer"@,
            ServerSpec::Pylsp => "pylsp"@,
            ServerSpec::TypeScript => "typescript-language-server"@,
            ServerSpec::Gopls => "gopls"@,
            },
    {
        match self {
            ServerSpec::RustAnalyzer => "rust-analyzer",
            ServerSpec::Pylsp => "pylsp",
            ServerSpec::TypeScript => "typescript-language-server",
            ServerSpec::Gopls => "gopls",
        }
    }

    /// The program's arguments.
    pub fn args(&self) -> (r: Vec<&'static str>)
        ensures
            *self == ServerSpec::TypeScript ==> r@.len() == 1 && r@[0]@ == "--stdio"@,
            *self != ServerSpec::TypeScript ==> r@.len() == 0,
    {
        match self {
            ServerSpec::TypeScript => vec!["--stdio"],
            _ => Vec::new(),
        }
    }

    /// The language identifier sent when a document is opened.
    pub fn language_id(&self) -> (r: &'static str)
        ensures
            r@ == match *self {
            ServerSpec::RustAnalyzer => "rust"@,
            ServerSpec::Pylsp => "python"@,
            ServerSpec::TypeScript => "typescript"@,
            ServerSpec::Gopls => "go"@,
            },
    {
        match self {
            ServerSpec::RustAnalyzer => "rust",
            ServerSpec::Pylsp => "python",
            ServerSpec::TypeScript => "typescript",
            ServerSpec::Gopls => "go",
        }
    }
}

} // verus!
