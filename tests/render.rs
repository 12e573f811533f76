use ovium::types::{CmdReturn, ResponseError, SshReturn, SshSuccess};

fn entry(name: &str, data: SshReturn) -> CmdReturn {
    CmdReturn { node_name: name.to_string(), data }
}

#[test]
fn success_is_green_with_indented_output() {
    let r = entry(
        "alpha",
        SshReturn::SshSuccess(SshSuccess::from_streams("hi\n".to_string(), String::new(), 0)),
    );
    assert_eq!(
        r.render(),
        "\x1b[0;32malpha | SUCCESS:\n  exit_status: 0\n  stdout:\n    hi\n\x1b[0m"
    );
}

#[test]
fn failure_is_red_with_both_streams() {
    let r = entry(
        "beta",
        SshReturn::SshSuccess(SshSuccess::from_streams(
            "  one\r\ntwo\n\n".to_string(),
            "bad\n".to_string(),
            -2,
        )),
    );
    assert_eq!(
        r.render(),
        "\x1b[0;31mbeta | FAILED:\n  exit_status: -2\n  stdout:\n    one\n    two\n\n  stderr:\n    bad\n\x1b[0m"
    );
}

#[test]
fn blank_stream_has_title_only() {
    let r = entry(
        "gamma",
        SshReturn::SshSuccess(SshSuccess { stdout: Some(" \n\t".to_string()), stderr: None, exit_status: 127 }),
    );
    assert_eq!(r.render(), "\x1b[0;31mgamma | FAILED:\n  exit_status: 127\n  stdout:\n\x1b[0m");
}

#[test]
fn transport_failure_is_red() {
    let r = entry("beta", SshReturn::SshFailure("connect: refused".to_string()));
    assert_eq!(r.render(), "\x1b[0;31mbeta | TRANSPORT FAILURE:\n  connect: refused\n\x1b[0m");
}

#[test]
fn response_error_is_red() {
    let e = ResponseError::UnknownNodes(vec!["gamma".to_string()]);
    assert_eq!(e.render(), "\x1b[0;31mERROR: Unknown nodes or groups: [gamma]\x1b[0m");
}
