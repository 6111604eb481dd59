use vstd::prelude::*;

verus! {

/// A position in protocol coordinates: zero-based line and character offset.
#[derive(Clone, Copy, PartialEq, Eq, Structural, Debug)]
pub struct Position {
    pub line: u32,
    pub character: u32,
}

/// A half-open protocol range between two positions.
#[derive(Clone, Copy, PartialEq, Eq, Structural, Debug)]
pub struct Range {
    pub start: Position,
    pub end: Position,
}

/// The command attached to a code lens: a human-readable title, the
/// identifier of the command to run, and an ordered list of JSON arguments.
/// Absent arguments are treated as an empty list at invocation time.
pub struct Command {
    pub title: String,
    pub command: String,
    pub arguments: Option<Vec<serde_json::Value>>,
}

/// An inline, actionable annotation computed by a language server for a
/// range of a document.
pub struct CodeLens {
    pub range: Range,
    pub command: Option<Command>,
}

/// The code-lens part of the capabilities a server advertised at session
/// negotiation.  `resolve_provider` reports whether the server can lazily
/// fill in a lens's command; this client does not act on it yet.
#[derive(Clone, Copy, PartialEq, Eq, Structural, Debug)]
pub struct CodeLensCapability {
    pub resolve_provider: Option<bool>,
}

/// The part of the negotiated server capabilities that this feature reads.
#[derive(Clone, Copy, PartialEq, Eq, Structural, Debug)]
pub struct ServerCapabilities {
    pub code_lens_provider: Option<CodeLensCapability>,
}

/// The code-unit semantics negotiated with the server for converting
/// between native and protocol positions.
#[derive(Clone, Copy, PartialEq, Eq, Structural, Debug)]
pub enum OffsetEncoding {
    Utf8,
    Utf16,
    Utf32,
}

/// Metadata identifying the editor buffer that triggered a request.
pub struct EditorMeta {
    pub buffile: String,
}

/// A document as the document store tracks it: its current text and a
/// monotonically increasing version counter.
pub struct Document {
    pub text: String,
    pub version: u64,
}

/// Options of the lens-apply request: the serialized description of the
/// user's current selection, in the editor's native format.
pub struct CodeLensOptions {
    pub selection_desc: String,
}

/// Errors surfaced to the user by the request issuer.
#[derive(Clone, Copy, PartialEq, Eq, Structural, Debug)]
pub enum LensError {
    /// The server did not advertise code-lens support; no request is sent.
    CapabilityMissing,
    /// The triggering buffer's file path could not be turned into a URI.
    InvalidFilePath,
}

impl LensError {
    /// The single-line, user-visible message for this error.
    pub fn message(&self) -> (r: &'static str)
        ensures
            *self == LensError::CapabilityMissing ==> r@ == "server does not support code lenses"@,
            *self == LensError::InvalidFilePath ==> r@ == "invalid buffer file path"@,
    {
        match self {
            LensError::CapabilityMissing => "server does not support code lenses",
            LensError::InvalidFilePath => "invalid buffer file path",
        }
    }
}

/// The request the issuer hands to the transport layer: the document,
/// identified by its canonical URI, whose lenses are to be fetched.  The
/// protocol's progress and partial-result parameters stay at their
/// defaults and are filled in at the transport.
pub struct CodeLensRequest {
    pub uri: String,
}

/// A display instruction scoped to one buffer and guarded by the document
/// version observed when the instruction was built, so that a stale
/// instruction can be discarded downstream.
pub struct VersionedCommand {
    pub buffile: String,
    pub version: u64,
    pub command: String,
}

} // verus!
