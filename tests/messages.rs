use ovium::client::Client;
use ovium::codec::{frame, unframe, FrameError, ESC, LF};
use ovium::error::{ConfigError, Error, ErrorKind, OviumError, RequestError};
use ovium::names::{compare_names, join_names, same_name};
use ovium::types::{
    ClientHandler, CmdRequest, CmdReturn, Request, Response, ResponseError, SshReturn, SshSuccess,
};
use std::cmp::Ordering;

fn names(v: &[&str]) -> Vec<String> {
    v.iter().map(|s| s.to_string()).collect()
}

#[test]
fn frame_round_trip() {
    let payloads: Vec<Vec<u8>> = vec![
        vec![],
        b"hello".to_vec(),
        vec![LF, 1, LF, LF],
        vec![ESC, LF, ESC, 0xdc, 0xdd, 0],
        (0u8..=255).collect(),
    ];
    for p in payloads {
        let f = frame(&p);
        assert_eq!(*f.last().unwrap(), LF);
        assert!(!f[..f.len() - 1].contains(&LF));
        assert_eq!(unframe(&f), Ok(p.clone()));
        assert_eq!(unframe(&f[..f.len() - 1]), Ok(p));
    }
}

#[test]
fn frame_escapes_exactly() {
    assert_eq!(frame(&[]), vec![LF]);
    assert_eq!(frame(b"ab"), vec![b'a', b'b', LF]);
    assert_eq!(frame(&[LF]), vec![ESC, 0xdc, LF]);
    assert_eq!(frame(&[ESC]), vec![ESC, 0xdd, LF]);
}

#[test]
fn malformed_frames_are_refused() {
    assert_eq!(unframe(&[b'a', LF, b'b', LF]), Err(FrameError::StrayNewline));
    assert_eq!(unframe(&[ESC, LF]), Err(FrameError::BadEscape));
    assert_eq!(unframe(&[ESC, 0x00, LF]), Err(FrameError::BadEscape));
    assert_eq!(unframe(&[b'x', ESC]), Err(FrameError::BadEscape));
    assert_eq!(Error::from(FrameError::BadEscape), Error::Frame(FrameError::BadEscape));
}

#[test]
fn response_error_text() {
    let e = ResponseError::UnknownNodes(names(&["gamma", "delta"]));
    assert_eq!(e.describe(), "ERROR: Unknown nodes or groups: [gamma, delta]");
    assert_eq!(ResponseError::UnknownNodes(vec![]).describe(), "ERROR: Unknown nodes or groups: []");
}

#[test]
fn error_texts() {
    assert_eq!(
        RequestError::UnknownNodes(names(&["x"])).describe(),
        "Unknown nodes: 'x'"
    );
    assert_eq!(ConfigError::Parse("bad".to_string()).describe(), "Parsing error: bad");
    assert_eq!(Error::Io("gone".to_string()).describe(), "I/O error: gone");
    assert_eq!(Error::Ssh("auth".to_string()).describe(), "Ssh error: auth");
    assert_eq!(Error::Decode("junk".to_string()).describe(), "Decode error: junk");
    assert_eq!(
        Error::Frame(FrameError::StrayNewline).describe(),
        "Frame error: line feed inside a frame"
    );
    assert_eq!(
        Error::from(ConfigError::UnknownNodes(names(&["a", "b"]))).describe(),
        "Unknown nodes: 'a, b'"
    );
    assert_eq!(ErrorKind::Bind.describe(), "Error while binding socket");
    assert_eq!(ErrorKind::ClientRun.describe(), "Error running Ovium client");
    let e = OviumError::from((ErrorKind::InvalidConfig, Error::from(ConfigError::Parse("x".to_string()))));
    assert_eq!(e.describe(), "Invalid configuration\n  Caused by: Parsing error: x");
    assert_eq!(e.kind(), ErrorKind::InvalidConfig);
    let d = OviumError::from((ErrorKind::Handle, Error::Io("eof".to_string()), "while reading".to_string()));
    assert_eq!(
        d.describe(),
        "Handle error\n  Caused by: I/O error: eof  Detail: while reading"
    );
    assert_eq!(d.detail(), &Some("while reading".to_string()));
    assert_eq!(
        Error::from(RequestError::UnknownNodes(vec![])),
        Error::RequestError(RequestError::UnknownNodes(vec![]))
    );
}

#[test]
fn empty_streams_are_absent() {
    let s = SshSuccess::from_streams(String::new(), String::new(), 3);
    assert_eq!(s, SshSuccess { stdout: None, stderr: None, exit_status: 3 });
    let t = SshSuccess::from_streams("out".to_string(), "err".to_string(), -1);
    assert_eq!(t.stdout, Some("out".to_string()));
    assert_eq!(t.stderr, Some("err".to_string()));
    assert_eq!(t.exit_status, -1);
}

#[test]
fn client_request_from_arguments() {
    let r = CmdRequest::from_args("alpha,web,beta", "uptime".to_string());
    assert_eq!(r.nodes, names(&["alpha", "web", "beta"]));
    assert_eq!(r.command, "uptime");
    assert_eq!(CmdRequest::from_args("", "x".to_string()).nodes, names(&[""]));
    assert_eq!(CmdRequest::from_args("a,", "x".to_string()).nodes, names(&["a", ""]));
    match Request::cmd("solo", "ls".to_string()) {
        Request::Cmd(c) => assert_eq!(c.nodes, names(&["solo"])),
    }
}

#[test]
fn client_keeps_socket_path() {
    let c = Client::new("/tmp/ovium.sock");
    assert_eq!(c.socket_path, "/tmp/ovium.sock");
    let h = ClientHandler::new(Response::Cmd(vec![]));
    assert_eq!(h.response, Response::Cmd(vec![]));
}

#[test]
fn transport_failure_is_not_success() {
    let r = CmdReturn { node_name: "beta".to_string(), data: SshReturn::SshFailure("refused".to_string()) };
    assert!(!r.succeeded());
}

#[test]
fn names_compare_as_strings_do() {
    let words = ["", "a", "ab", "b", "B", "é", "z", "aa"];
    for x in words {
        for y in words {
            assert_eq!(compare_names(x, y), x.cmp(y));
            assert_eq!(same_name(x, y), x == y);
        }
    }
    assert_eq!(compare_names("B", "a"), Ordering::Less);
    assert_eq!(join_names(&names(&["a", "b", "c"]), "; "), "a; b; c");
    assert_eq!(join_names(&vec![], ", "), "");
}
