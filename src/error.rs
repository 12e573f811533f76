use crate::codec::FrameError;
use crate::names::{join_names, joined, names_of};
use vstd::prelude::*;
use vstd::string::StringExecFns;

verus! {

/// Why a request, a reply or the server itself failed.
///
/// Failures of the outside world (sockets, files, SSH) arrive here as the text
/// that describes them.
#[derive(Debug, Clone, PartialEq, Eq)]
pub enum Error {
    Ssh(String),
    Io(String),
    Decode(String),
    Frame(FrameError),
    ConfigError(ConfigError),
    RequestError(RequestError),
}

/// A failure that ends the server or the client, with the stage it happened at.
#[derive(Debug, Clone, PartialEq, Eq)]
pub struct OviumError {
    kind: ErrorKind,
    source: Error,
    detail: Option<String>,
}

#[derive(Debug, Clone, PartialEq, Eq)]
pub enum ConfigError {
    UnknownNodes(Vec<String>),
    /// Names that key both a node and a group.
    SharedNames(Vec<String>),
    Parse(String),
}

#[derive(Debug, Clone, PartialEq, Eq)]
pub enum RequestError {
    UnknownNodes(Vec<String>),
}

#[derive(Debug, Clone, Copy, PartialEq, Eq)]
pub enum ErrorKind {
    InvalidConfig,
    LoadConfig,
    Handle,
    Bind,
    ClientRun,
}

impl OviumError {
    pub closed spec fn spec_kind(&self) -> ErrorKind {
        self.kind
    }

    pub closed spec fn spec_source(&self) -> Error {
        self.source
    }

    pub closed spec fn spec_detail(&self) -> Option<String> {
        self.detail
    }

    pub fn kind(&self) -> (r: ErrorKind)
        ensures
            r == self.spec_kind(),
    {
        self.kind
    }

    pub fn source(&self) -> (r: &Error)
        ensures
            *r == self.spec_source(),
    {
        &self.source
    }

    pub fn detail(&self) -> (r: &Option<String>)
        ensures
            *r == self.spec_detail(),
    {
        &self.detail
    }
}

impl From<ConfigError> for Error {
    fn from(e: ConfigError) -> (r: Error)
        ensures
            r == Error::ConfigError(e),
    {
        Error::ConfigError(e)
    }
}

impl vstd::std_specs::convert::FromSpecImpl<ConfigError> for Error {
    open spec fn obeys_from_spec() -> bool {
        true
    }

    open spec fn from_spec(e: ConfigError) -> Error {
        Error::ConfigError(e)
    }
}

impl From<RequestError> for Error {
    fn from(e: RequestError) -> (r: Error)
        ensures
            r == Error::RequestError(e),
    {
        Error::RequestError(e)
    }
}

impl vstd::std_specs::convert::FromSpecImpl<RequestError> for Error {
    open spec fn obeys_from_spec() -> bool {
        true
    }

    open spec fn from_spec(e: RequestError) -> Error {
        Error::RequestError(e)
    }
}

impl From<FrameError> for Error {
    fn from(e: FrameError) -> (r: Error)
        ensures
            r == Error::Frame(e),
    {
        Error::Frame(e)
    }
}

impl vstd::std_specs::convert::FromSpecImpl<FrameError> for Error {
    open spec fn obeys_from_spec() -> bool {
        true
    }

    open spec fn from_spec(e: FrameError) -> Error {
        Error::Frame(e)
    }
}

impl From<(ErrorKind, Error)> for OviumError {
    fn from(p: (ErrorKind, Error)) -> (r: OviumError)
        ensures
            r.spec_kind() == p.0,
            r.spec_source() == p.1,
            r.spec_detail() is None,
    {
        OviumError { kind: p.0, source: p.1, detail: None }
    }
}

impl vstd::std_specs::convert::FromSpecImpl<(ErrorKind, Error)> for OviumError {
    open spec fn obeys_from_spec() -> bool {
        true
    }

    closed spec fn from_spec(p: (ErrorKind, Error)) -> OviumError {
        OviumError { kind: p.0, source: p.1, detail: None }
    }
}

impl From<(ErrorKind, Error, String)> for OviumError {
    fn from(p: (ErrorKind, Error, String)) -> (r: OviumError)
        ensures
            r.spec_kind() == p.0,
            r.spec_source() == p.1,
            r.spec_detail() == Some(p.2),
    {
        OviumError { kind: p.0, source: p.1, detail: Some(p.2) }
    }
}

impl vstd::std_specs::convert::FromSpecImpl<(ErrorKind, Error, String)> for OviumError {
    open spec fn obeys_from_spec() -> bool {
        true
    }

    closed spec fn from_spec(p: (ErrorKind, Error, String)) -> OviumError {
        OviumError { kind: p.0, source: p.1, detail: Some(p.2) }
    }
}

impl FrameError {
    pub open spec fn spec_describe(self) -> Seq<char> {
        match self {
            FrameError::StrayNewline => "line feed inside a frame"@,
            FrameError::BadEscape => "malformed escape in a frame"@,
        }
    }
}

/// Text for a frame error.
pub fn describe_frame_error(e: FrameError) -> (r: String)
    ensures
        r@ == e.spec_describe(),
{
    match e {
        FrameError::StrayNewline => "line feed inside a frame".to_owned(),
        FrameError::BadEscape => "malformed escape in a frame".to_owned(),
    }
}

/// "Unknown nodes: 'a, b'".
pub open spec fn unknown_nodes_text(l: Seq<Seq<char>>) -> Seq<char> {
    "Unknown nodes: '"@ + joined(l, ", "@) + "'"@
}

fn unknown_nodes_message(l: &Vec<String>) -> (r: String)
    ensures
        r@ == unknown_nodes_text(names_of(l@)),
{
    let mut r = "Unknown nodes: '".to_owned();
    r.append(join_names(l, ", ").as_str());
    r.append("'");
    r
}

impl ConfigError {
    pub open spec fn spec_describe(self) -> Seq<char> {
        match self {
            ConfigError::UnknownNodes(l) => unknown_nodes_text(names_of(l@)),
            ConfigError::SharedNames(l) => "Names of both a node and a group: '"@ + joined(
                names_of(l@),
                ", "@,
            ) + "'"@,
            ConfigError::Parse(m) => "Parsing error: "@ + m@,
        }
    }

    pub fn describe(&self) -> (r: String)
        ensures
            r@ == self.spec_describe(),
    {
        match self {
            ConfigError::UnknownNodes(l) => unknown_nodes_message(l),
            ConfigError::SharedNames(l) => {
                let mut r = "Names of both a node and a group: '".to_owned();
                r.append(join_names(l, ", ").as_str());
                r.append("'");
                r
            },
            ConfigError::Parse(m) => {
                let mut r = "Parsing error: ".to_owned();
                r.append(m.as_str());
                r
            },
        }
    }
}

impl RequestError {
    pub open spec fn spec_describe(self) -> Seq<char> {
        match self {
            RequestError::UnknownNodes(l) => unknown_nodes_text(names_of(l@)),
        }
    }

    pub fn describe(&self) -> (r: String)
        ensures
            r@ == self.spec_describe(),
    {
        match self {
            RequestError::UnknownNodes(l) => unknown_nodes_message(l),
        }
    }
}

impl Error {
    pub open spec fn spec_describe(self) -> Seq<char> {
        match self {
            Error::Io(m) => "I/O error: "@ + m@,
            Error::Ssh(m) => "Ssh error: "@ + m@,
            Error::Decode(m) => "Decode error: "@ + m@,
            Error::Frame(e) => "Frame error: "@ + e.spec_describe(),
            Error::ConfigError(e) => e.spec_describe(),
            Error::RequestError(e) => e.spec_describe(),
        }
    }

    pub fn describe(&self) -> (r: String)
        ensures
            r@ == self.spec_describe(),
    {
        match self {
            Error::Io(m) => {
                let mut r = "I/O error: ".to_owned();
                r.append(m.as_str());
                r
            },
            Error::Ssh(m) => {
                let mut r = "Ssh error: ".to_owned();
                r.append(m.as_str());
                r
            },
            Error::Decode(m) => {
                let mut r = "Decode error: ".to_owned();
                r.append(m.as_str());
                r
            },
            Error::Frame(e) => {
                let mut r = "Frame error: ".to_owned();
                r.append(describe_frame_error(*e).as_str());
                r
            },
            Error::ConfigError(e) => e.describe(),
            Error::RequestError(e) => e.describe(),
        }
    }
}

impl ErrorKind {
    pub open spec fn spec_describe(self) -> Seq<char> {
        match self {
            ErrorKind::InvalidConfig => "Invalid configuration"@,
            ErrorKind::LoadConfig => "Failed to load configuration"@,
            ErrorKind::Handle => "Handle error"@,
            ErrorKind::Bind => "Error while binding socket"@,
            ErrorKind::ClientRun => "Error running Ovium client"@,
        }
    }

    pub fn describe(&self) -> (r: String)
        ensures
            r@ == self.spec_describe(),
    {
        match self {
            ErrorKind::InvalidConfig => "Invalid configuration".to_owned(),
            ErrorKind::LoadConfig => "Failed to load configuration".to_owned(),
            ErrorKind::Handle => "Handle error".to_owned(),
            ErrorKind::Bind => "Error while binding socket".to_owned(),
            ErrorKind::ClientRun => "Error running Ovium client".to_owned(),
        }
    }
}

impl OviumError {
    /// The stage on its own line, then the cause, then any detail.
    pub fn describe(&self) -> (r: String)
        ensures
            r@ == self.spec_kind().spec_describe() + "\n  Caused by: "@ + self.spec_source().spec_describe()
                + (match self.spec_detail() {
                Some(d) => "  Detail: "@ + d@,
                None => Seq::<char>::empty(),
            }),
    {
        let mut r = self.kind.describe();
        r.append("\n  Caused by: ");
        r.append(self.source.describe().as_str());
        match &self.detail {
            Some(d) => {
                r.append("  Detail: ");
                r.append(d.as_str());
            },
            None => {
                assert(r@ + Seq::<char>::empty() =~= r@);
            },
        }
        r
    }
}

} // verus!
