//! The engine's error type.
use vstd::prelude::*;

verus! {

/// Every way an engine operation can fail.
///
/// Messages carried in `String` payloads name the offending item; the
/// graph-config parse error carries the parser's message text.
#[derive(Debug)]
pub enum Error {
    /// template type inference could not settle a connection's type
    TemplateInferFault,
    /// no message type fits every end of a connection
    ChannelTypeMismatch,
    /// the channel was closed (every peer dropped)
    ChannelClosed,
    /// the payload inside a sealed envelope was not of the requested type
    TypeMismatch,
    /// the graph-config text could not be parsed
    Toml(String),
    /// a port reference was not of the form "node:port"
    BadPortRef(String),
    /// the entry graph named by `main` is absent
    MainGraphNotFound(String),
    /// a node type is not in the registry
    UnknownNodeType(String),
    /// a port reference names an undefined node
    UnknownNode(String),
    /// a node has no port of that name
    UnknownPort { node: String, port: String },
    /// a declared port was left unwired
    PortNotConnected { node: String, port: String },
    /// a connection has an invalid shape
    BadConnection(String),
    /// a port was wired more than once
    PortAlreadyConnected { node: String, port: String },
    /// a node argument is missing or of the wrong type
    Arg { key: String, msg: String },
    /// a wiring shape that the engine does not support
    Unsupported(String),
    /// a node task panicked or was cancelled
    TaskJoin(String),
    /// a resource type is not in the resource registry
    UnknownResourceType(String),
    /// a subgraph reference cycle through the named graph
    SubgraphCycle(String),
}

/// Mathematical view of an [`Error`]: every text payload taken by its characters.
pub enum ErrorV {
    TemplateInferFault,
    ChannelTypeMismatch,
    ChannelClosed,
    TypeMismatch,
    Toml(Seq<char>),
    BadPortRef(Seq<char>),
    MainGraphNotFound(Seq<char>),
    UnknownNodeType(Seq<char>),
    UnknownNode(Seq<char>),
    UnknownPort { node: Seq<char>, port: Seq<char> },
    PortNotConnected { node: Seq<char>, port: Seq<char> },
    BadConnection(Seq<char>),
    PortAlreadyConnected { node: Seq<char>, port: Seq<char> },
    Arg { key: Seq<char>, msg: Seq<char> },
    Unsupported(Seq<char>),
    TaskJoin(Seq<char>),
    UnknownResourceType(Seq<char>),
    SubgraphCycle(Seq<char>),
}

impl View for Error {
    type V = ErrorV;

    open spec fn view(&self) -> ErrorV {
        match self {
            Error::TemplateInferFault => ErrorV::TemplateInferFault,
            Error::ChannelTypeMismatch => ErrorV::ChannelTypeMismatch,
            Error::ChannelClosed => ErrorV::ChannelClosed,
            Error::TypeMismatch => ErrorV::TypeMismatch,
            Error::Toml(m) => ErrorV::Toml(m@),
            Error::BadPortRef(m) => ErrorV::BadPortRef(m@),
            Error::MainGraphNotFound(m) => ErrorV::MainGraphNotFound(m@),
            Error::UnknownNodeType(m) => ErrorV::UnknownNodeType(m@),
            Error::UnknownNode(m) => ErrorV::UnknownNode(m@),
            Error::UnknownPort { node, port } => ErrorV::UnknownPort { node: node@, port: port@ },
            Error::PortNotConnected { node, port } => ErrorV::PortNotConnected {
                node: node@,
                port: port@,
            },
            Error::BadConnection(m) => ErrorV::BadConnection(m@),
            Error::PortAlreadyConnected { node, port } => ErrorV::PortAlreadyConnected {
                node: node@,
                port: port@,
            },
            Error::Arg { key, msg } => ErrorV::Arg { key: key@, msg: msg@ },
            Error::Unsupported(m) => ErrorV::Unsupported(m@),
            Error::TaskJoin(m) => ErrorV::TaskJoin(m@),
            Error::UnknownResourceType(m) => ErrorV::UnknownResourceType(m@),
            Error::SubgraphCycle(m) => ErrorV::SubgraphCycle(m@),
        }
    }
}

} // verus!
