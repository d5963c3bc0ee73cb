//! Typed errors of the library.
//!
//! Library operations that can fail return `Result<T, RagCoreError>`. Each
//! variant carries the messages of what went wrong as plain strings; the
//! source error of the underlying operation is kept as its message.
use vstd::prelude::*;
use crate::text::{chars_of, concat2, concat3, contains_sub, has_substring};

verus! {

/// All error types produced by the library.
#[derive(Debug)]
pub enum RagCoreError {
    /// The requested workspace does not contain a Cargo.toml at the given path.
    MissingCargoToml(String),
    /// TOML configuration file parse / read failure (the source message).
    Config(String),
    /// A source file could not be read from disk: path and source message.
    FileRead(String, String),
    /// Parsing failed for a Rust source file: path and source message.
    ParseError(String, String),
    /// An embedding model failure: description and source message.
    Embedding(String, String),
    /// A persistent vector-store operation failed: description and source message.
    VectorStore(String, String),
    /// The index holds a symbol kind that cannot be parsed: kind, document id, file.
    UnknownSymbolKind(String, String, String),
    /// State save / load failure on disk (the source message).
    State(String),
    /// Call graph construction failed: description and source message.
    CallGraph(String, String),
    /// The embedding model could not be found and download also failed.
    ModelNotFound {
        /// URL where the model was fetched from.
        url: String,
        /// Message of the download failure.
        cause: String,
    },
    /// A generic I/O error: its kind and message.
    Io(IoErrorKind, String),
    /// An internal / unexpected error: description and source message.
    Internal(String, String),
}

/// The kind of an I/O failure (the common kinds of `std::io::ErrorKind`;
/// every other kind is `Other`).
#[derive(Debug, Clone, Copy, PartialEq, Eq, Structural)]
pub enum IoErrorKind {
    NotFound,
    PermissionDenied,
    ConnectionRefused,
    ConnectionReset,
    AlreadyExists,
    WouldBlock,
    InvalidInput,
    InvalidData,
    TimedOut,
    WriteZero,
    Interrupted,
    Unsupported,
    UnexpectedEof,
    OutOfMemory,
    Other,
}

/// High-level error categories useful for user-facing messages.
#[derive(Debug, Clone, Copy, PartialEq, Eq, Structural)]
pub enum ErrorKind {
    /// No Cargo.toml was found in the workspace root.
    MissingCargoToml,
    /// TOML configuration file parse / read failure.
    Config,
    /// General I/O error.
    Io,
    /// Embedding model read or initialisation failure.
    Embedding,
    /// Persistent vector-store operation failed.
    VectorStore,
    /// The index contains an unexpected symbol kind.
    CorruptIndex,
    /// An internal / unexpected error.
    Internal,
    /// The embedding model could not be found and download also failed.
    ModelNotFound,
}

/// The category of an error.
pub open spec fn kind_of(e: RagCoreError) -> ErrorKind {
    match e {
        RagCoreError::MissingCargoToml(_) => ErrorKind::MissingCargoToml,
        RagCoreError::Config(..) => ErrorKind::Config,
        RagCoreError::FileRead(..) => ErrorKind::Io,
        RagCoreError::ParseError(..) => ErrorKind::Io,
        RagCoreError::Embedding(..) => ErrorKind::Embedding,
        RagCoreError::VectorStore(..) => ErrorKind::VectorStore,
        RagCoreError::UnknownSymbolKind(..) => ErrorKind::CorruptIndex,
        RagCoreError::State(..) => ErrorKind::Io,
        RagCoreError::CallGraph(..) => ErrorKind::Internal,
        RagCoreError::Internal(..) => ErrorKind::Internal,
        RagCoreError::ModelNotFound { .. } => ErrorKind::ModelNotFound,
        RagCoreError::Io(..) => ErrorKind::Io,
    }
}

/// The user-facing message of an error.
pub open spec fn message_of(e: RagCoreError) -> Seq<char> {
    match e {
        RagCoreError::MissingCargoToml(p) => "no Cargo.toml found at "@ + p@,
        RagCoreError::Config(m) => "config error: "@ + m@,
        RagCoreError::FileRead(p, m) => "failed to read file '"@ + p@ + "': "@ + m@,
        RagCoreError::ParseError(p, m) => "tree-sitter parse error in '"@ + p@ + "': "@ + m@,
        RagCoreError::Embedding(d, _) => "embedding model error: "@ + d@,
        RagCoreError::VectorStore(d, _) => "vector store error: "@ + d@,
        RagCoreError::UnknownSymbolKind(k, id, f) => "unknown symbol kind '"@ + k@
            + "' in index (document id: "@ + id@ + ", file: "@ + f@ + ")"@,
        RagCoreError::State(m) => "state error: "@ + m@,
        RagCoreError::CallGraph(d, _) => "call graph error: "@ + d@,
        RagCoreError::ModelNotFound { url, cause } => "embedding model not found; attempted download from "@
            + url@ + ": "@ + cause@,
        RagCoreError::Io(_, m) => m@,
        RagCoreError::Internal(d, _) => "internal error: "@ + d@,
    }
}

/// The label of an error category.
pub open spec fn kind_label(k: ErrorKind) -> Seq<char> {
    match k {
        ErrorKind::MissingCargoToml => "missing Cargo.toml"@,
        ErrorKind::Config => "configuration error"@,
        ErrorKind::Io => "I/O error"@,
        ErrorKind::Embedding => "embedding model error"@,
        ErrorKind::VectorStore => "vector store error"@,
        ErrorKind::CorruptIndex => "corrupt index"@,
        ErrorKind::Internal => "internal error"@,
        ErrorKind::ModelNotFound => "embedding model not found"@,
    }
}

/// `e` is what an error of a source type named `source_type`, with message
/// `message`, becomes: parse and TOML errors are configuration errors, I/O
/// errors are state errors, anything else is internal.
pub open spec fn classified_as(e: RagCoreError, source_type: Seq<char>, message: Seq<char>) -> bool {
    if has_substring(source_type, "ParseIntError"@) || has_substring(source_type, "toml::de"@) {
        e matches RagCoreError::Config(m) && m@ == message
    } else if has_substring(source_type, "io::Error"@) || has_substring(source_type, "std::io"@) {
        e matches RagCoreError::State(m) && m@ == message
    } else {
        e matches RagCoreError::Internal(d, m) && d@ == "unexpected error: "@ + message && m@ == message
    }
}

impl RagCoreError {
    /// Wrap an I/O failure (its kind and message) with the operation it
    /// happened in as context: the kind is kept and the message becomes
    /// `"<op>: <message>"`; with no operation named the message is kept as
    /// it is.
    pub fn io(op: &str, kind: IoErrorKind, err: String) -> (res: RagCoreError)
        ensures
            op@.len() == 0 ==> res == RagCoreError::Io(kind, err),
            op@.len() != 0 ==> (res matches RagCoreError::Io(k, m) && k == kind && m@ == op@ + ": "@ + err@),
    {
        if op.is_empty() {
            RagCoreError::Io(kind, err)
        } else {
            RagCoreError::Io(kind, crate::text::concat3(op, ": ", err.as_str()))
        }
    }

    /// The semantic category of this error for high-level matching.
    pub fn kind(&self) -> (k: ErrorKind)
        ensures
            k == kind_of(*self),
    {
        match self {
            RagCoreError::MissingCargoToml(_) => ErrorKind::MissingCargoToml,
            RagCoreError::Config(..) => ErrorKind::Config,
            RagCoreError::FileRead(..) | RagCoreError::ParseError(..) => ErrorKind::Io,
            RagCoreError::Embedding(..) => ErrorKind::Embedding,
            RagCoreError::VectorStore(..) => ErrorKind::VectorStore,
            RagCoreError::UnknownSymbolKind(..) => ErrorKind::CorruptIndex,
            RagCoreError::State(..) => ErrorKind::Io,
            RagCoreError::CallGraph(..) | RagCoreError::Internal(..) => ErrorKind::Internal,
            RagCoreError::ModelNotFound { .. } => ErrorKind::ModelNotFound,
            RagCoreError::Io(..) => ErrorKind::Io,
        }
    }

    /// The user-facing message of this error.
    pub fn message(&self) -> (res: String)
        ensures
            res@ == message_of(*self),
    {
        match self {
            RagCoreError::MissingCargoToml(p) => concat2("no Cargo.toml found at ", p.as_str()),
            RagCoreError::Config(m) => concat2("config error: ", m.as_str()),
            RagCoreError::FileRead(p, m) => {
                let mut s = concat3("failed to read file '", p.as_str(), "': ");
                s.append(m.as_str());
                s
            },
            RagCoreError::ParseError(p, m) => {
                let mut s = concat3("tree-sitter parse error in '", p.as_str(), "': ");
                s.append(m.as_str());
                s
            },
            RagCoreError::Embedding(d, _) => concat2("embedding model error: ", d.as_str()),
            RagCoreError::VectorStore(d, _) => concat2("vector store error: ", d.as_str()),
            RagCoreError::UnknownSymbolKind(k, id, f) => {
                let mut s = concat3("unknown symbol kind '", k.as_str(), "' in index (document id: ");
                s.append(id.as_str());
                s.append(", file: ");
                s.append(f.as_str());
                s.append(")");
                s
            },
            RagCoreError::State(m) => concat2("state error: ", m.as_str()),
            RagCoreError::CallGraph(d, _) => concat2("call graph error: ", d.as_str()),
            RagCoreError::ModelNotFound { url, cause } => {
                let mut s = concat3("embedding model not found; attempted download from ", url.as_str(), ": ");
                s.append(cause.as_str());
                s
            },
            RagCoreError::Io(_, m) => m.clone(),
            RagCoreError::Internal(d, _) => concat2("internal error: ", d.as_str()),
        }
    }

    /// The error that a boxed source error becomes, given the name of its
    /// type and its message.
    pub fn from_source(source_type: &str, message: String) -> (res: RagCoreError)
        ensures
            classified_as(res, source_type@, message@),
    {
        let t = chars_of(source_type);
        let parse_int = chars_of("ParseIntError");
        let toml_de = chars_of("toml::de");
        let io_error = chars_of("io::Error");
        let std_io = chars_of("std::io");
        if contains_sub(&t, &parse_int) || contains_sub(&t, &toml_de) {
            RagCoreError::Config(message)
        } else if contains_sub(&t, &io_error) || contains_sub(&t, &std_io) {
            RagCoreError::State(message)
        } else {
            let d = concat2("unexpected error: ", message.as_str());
            RagCoreError::Internal(d, message)
        }
    }

    /// An HTTP failure with the given message (an embedding-model error).
    pub fn from_http_error(message: String) -> (res: RagCoreError)
        ensures
            res matches RagCoreError::Embedding(d, m) && d@ == "HTTP request failed: "@ + message@
                && m@ == message@,
    {
        let d = concat2("HTTP request failed: ", message.as_str());
        RagCoreError::Embedding(d, message)
    }

    /// A JSON failure with the given message (a vector-store error).
    pub fn from_json_error(message: String) -> (res: RagCoreError)
        ensures
            res matches RagCoreError::VectorStore(d, m) && d@ == "JSON parse error: "@ + message@
                && m@ == message@,
    {
        let d = concat2("JSON parse error: ", message.as_str());
        RagCoreError::VectorStore(d, message)
    }
}

impl ErrorKind {
    /// The user-facing label of this category.
    pub fn label(&self) -> (res: String)
        ensures
            res@ == kind_label(*self),
    {
        match self {
            ErrorKind::MissingCargoToml => "missing Cargo.toml".to_owned(),
            ErrorKind::Config => "configuration error".to_owned(),
            ErrorKind::Io => "I/O error".to_owned(),
            ErrorKind::Embedding => "embedding model error".to_owned(),
            ErrorKind::VectorStore => "vector store error".to_owned(),
            ErrorKind::CorruptIndex => "corrupt index".to_owned(),
            ErrorKind::Internal => "internal error".to_owned(),
            ErrorKind::ModelNotFound => "embedding model not found".to_owned(),
        }
    }
}

/// Turn a library result into one whose error is the tagged message
/// `"[RagCore] <message>"`.
pub fn wrap_core_result<T>(result: Result<T, RagCoreError>) -> (res: Result<T, String>)
    ensures
        result is Ok <==> res is Ok,
        result matches Ok(v) ==> res == Ok::<T, String>(v),
        result matches Err(e) ==> (res matches Err(m) && m@ == "[RagCore] "@ + message_of(e)),
{
    match result {
        Ok(v) => Ok(v),
        Err(e) => {
            let m = e.message();
            Err(concat2("[RagCore] ", m.as_str()))
        },
    }
}

/// Wrap a failed operation whose error is known by its type name and message.
pub trait IoContext<T>: Sized {
    /// Map the error through the classification of [`RagCoreError::from_source`].
    fn wrapped(self, source_type: &str) -> Result<T, RagCoreError>;
}

impl<T> IoContext<T> for Result<T, String> {
    fn wrapped(self, source_type: &str) -> (res: Result<T, RagCoreError>)
        ensures
            self is Ok <==> res is Ok,
            self matches Ok(v) ==> res == Ok::<T, RagCoreError>(v),
            self matches Err(m) ==> (res matches Err(e) && classified_as(e, source_type@, m@)),
    {
        match self {
            Ok(v) => Ok(v),
            Err(m) => Err(RagCoreError::from_source(source_type, m)),
        }
    }
}

} // verus!
