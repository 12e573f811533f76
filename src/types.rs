use crate::names::{join_names, joined, names_of};
use vstd::prelude::*;
use vstd::string::StringExecFns;

verus! {

/// The outcome of one remote command on one node.
#[derive(Debug, Clone, PartialEq, Eq)]
pub struct CmdReturn {
    pub node_name: String,
    pub data: SshReturn,
}

/// A command to run on a list of nodes or groups.
#[derive(Debug, Clone, PartialEq, Eq)]
pub struct CmdRequest {
    pub nodes: Vec<String>,
    pub command: String,
}

/// What came of the SSH exchange with one node.
#[derive(Debug, Clone, PartialEq, Eq)]
pub enum SshReturn {
    SshSuccess(SshSuccess),
    SshFailure(String),
}

/// A command that ran to completion; its exit status may still be non-zero.
#[derive(Debug, Clone, PartialEq, Eq)]
pub struct SshSuccess {
    pub stdout: Option<String>,
    pub stderr: Option<String>,
    pub exit_status: i32,
}

#[derive(Debug, Clone, PartialEq, Eq)]
pub enum Response {
    Cmd(Vec<CmdReturn>),
    Error(ResponseError),
}

#[derive(Debug, Clone, PartialEq, Eq)]
pub enum Request {
    Cmd(CmdRequest),
}

#[derive(Debug, Clone, PartialEq, Eq)]
pub enum ResponseError {
    UnknownNodes(Vec<String>),
}

/// A remote host: where to reach it and as whom.
#[derive(Debug, PartialEq, Eq)]
pub struct Node {
    pub ip: String,
    pub port: u32,
    pub user: String,
}

impl Clone for Node {
    fn clone(&self) -> (r: Self)
        ensures
            r == *self,
    {
        Node { ip: self.ip.clone(), port: self.port, user: self.user.clone() }
    }
}

/// The user that a node is reached as when its entry names none.
pub fn default_user() -> (r: String)
    ensures
        r@ == "root"@,
{
    "root".to_owned()
}

/// The SSH port of a node whose entry names none.
pub fn default_port() -> (r: u32)
    ensures
        r == 22,
{
    22
}

/// An output stream as a reply carries it: absent exactly when it was empty.
pub open spec fn stream_field(s: Seq<char>) -> Option<Seq<char>> {
    if s.len() == 0 {
        None
    } else {
        Some(s)
    }
}

pub open spec fn opt_view(o: Option<String>) -> Option<Seq<char>> {
    match o {
        Some(s) => Some(s@),
        None => None,
    }
}

fn stream_option(s: String) -> (r: Option<String>)
    ensures
        opt_view(r) == stream_field(s@),
{
    if s.as_str().is_empty() {
        None
    } else {
        Some(s)
    }
}

impl Node {
    /// A node entry, with the defaults for the fields that it leaves out.
    pub fn with_defaults(ip: String, port: Option<u32>, user: Option<String>) -> (r: Node)
        ensures
            r.ip == ip,
            r.port == (match port {
                Some(p) => p,
                None => 22,
            }),
            r.user@ == (match user {
                Some(u) => u@,
                None => "root"@,
            }),
    {
        let port = match port {
            Some(p) => p,
            None => default_port(),
        };
        let user = match user {
            Some(u) => u,
            None => default_user(),
        };
        Node { ip, port, user }
    }
}

impl SshSuccess {
    /// The record of a finished command, from the two streams as read to their end.
    pub fn from_streams(stdout: String, stderr: String, exit_status: i32) -> (r: SshSuccess)
        ensures
            opt_view(r.stdout) == stream_field(stdout@),
            opt_view(r.stderr) == stream_field(stderr@),
            r.exit_status == exit_status,
    {
        SshSuccess {
            stdout: stream_option(stdout),
            stderr: stream_option(stderr),
            exit_status,
        }
    }
}

impl SshReturn {
    /// The reply for one node: the finished command, or why the exchange failed.
    pub fn from_outcome(outcome: Result<SshSuccess, String>) -> (r: SshReturn)
        ensures
            outcome matches Ok(s) ==> r == SshReturn::SshSuccess(s),
            outcome matches Err(m) ==> r == SshReturn::SshFailure(m),
    {
        match outcome {
            Ok(s) => SshReturn::SshSuccess(s),
            Err(m) => SshReturn::SshFailure(m),
        }
    }
}

impl CmdReturn {
    /// A node is shown as succeeded when its command ran and exited with status 0.
    pub fn succeeded(&self) -> (r: bool)
        ensures
            r == (self.data matches SshReturn::SshSuccess(s) && s.exit_status == 0),
    {
        match &self.data {
            SshReturn::SshSuccess(s) => s.exit_status == 0,
            SshReturn::SshFailure(_) => false,
        }
    }
}

impl ResponseError {
    pub open spec fn spec_describe(self) -> Seq<char> {
        match self {
            ResponseError::UnknownNodes(l) => "ERROR: Unknown nodes or groups: ["@ + joined(
                names_of(l@),
                ", "@,
            ) + "]"@,
        }
    }

    /// The error as the client shows it.
    pub fn describe(&self) -> (r: String)
        ensures
            r@ == self.spec_describe(),
    {
        match self {
            ResponseError::UnknownNodes(l) => {
                let mut r = "ERROR: Unknown nodes or groups: [".to_owned();
                r.append(join_names(l, ", ").as_str());
                r.append("]");
                r
            },
        }
    }
}

/// Holds a reply on the client side until it is shown.
#[derive(Debug)]
pub struct ClientHandler<T> {
    pub response: T,
}

impl<T> ClientHandler<T> {
    pub fn new(response: T) -> (r: ClientHandler<T>)
        ensures
            r.response == response,
    {
        ClientHandler { response }
    }
}

} // verus!
