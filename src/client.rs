use crate::names::names_of;
use crate::types::{CmdRequest, Request};
use vstd::prelude::*;

verus! {

/// The pieces of `s` between the occurrences of `c`, in order; an empty `s`
/// is one empty piece.
pub open spec fn split_on(s: Seq<char>, c: char) -> Seq<Seq<char>>
    decreases s.len(),
{
    if s.len() == 0 {
        seq![Seq::empty()]
    } else {
        let r = split_on(s.drop_last(), c);
        if s.last() == c {
            r.push(Seq::empty())
        } else {
            r.update(r.len() - 1, r.last().push(s.last()))
        }
    }
}

/// Relies on `str::split` with a `char` pattern: the substrings between the
/// matches, in order, the empty ones included (an empty string gives one).
#[verifier::external_body]
pub(crate) fn split_text(s: &str, c: char) -> (r: Vec<String>)
    ensures
        names_of(r@) == split_on(s@, c),
{
    s.split(c).map(String::from).collect()
}

impl CmdRequest {
    /// The request that the client's arguments make: the comma-separated list
    /// of node and group names, and the command to run.
    pub fn from_args(nodes: &str, command: String) -> (r: CmdRequest)
        ensures
            names_of(r.nodes@) == split_on(nodes@, ','),
            r.command == command,
    {
        CmdRequest { nodes: split_text(nodes, ','), command }
    }
}

impl Request {
    pub fn cmd(nodes: &str, command: String) -> (r: Request)
        ensures
            r matches Request::Cmd(c) && names_of(c.nodes@) == split_on(nodes@, ',') && c.command
                == command,
    {
        Request::Cmd(CmdRequest::from_args(nodes, command))
    }
}

/// The client side of the socket: one request, one reply per connection.
pub struct Client<'a> {
    pub socket_path: &'a str,
}

impl<'a> Client<'a> {
    pub fn new(socket_path: &'a str) -> (r: Client<'a>)
        ensures
            r.socket_path == socket_path,
    {
        Client { socket_path }
    }
}

} // verus!
