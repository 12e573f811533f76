use ovium::error::ConfigError;
use ovium::server::{
    accept_step, read_step, validate_config, AcceptAction, AcceptEvent, ReadAction, ReadEvent,
    ServerConfig, POLL_INTERVAL_MS,
};
use ovium::types::{default_port, default_user, Node};

fn node(ip: &str) -> Node {
    Node::with_defaults(ip.to_string(), None, None)
}

fn names(v: &[&str]) -> Vec<String> {
    v.iter().map(|s| s.to_string()).collect()
}

#[test]
fn config_rejects_bad_groups() {
    let r = ServerConfig::new(
        vec![("alpha".to_string(), node("10.0.0.1"))],
        vec![("db".to_string(), names(&["alpha", "ghost"]))],
    );
    match r {
        Err(e) => assert_eq!(e, ConfigError::UnknownNodes(names(&["ghost"]))),
        Ok(_) => panic!("configuration should be refused"),
    }
}

#[test]
fn config_lists_each_unknown_member_once_sorted() {
    let r = ServerConfig::new(
        vec![("alpha".to_string(), node("10.0.0.1"))],
        vec![
            ("db".to_string(), names(&["zed", "alpha", "ghost"])),
            ("web".to_string(), names(&["ghost", "beta"])),
        ],
    );
    match r {
        Err(e) => {
            assert_eq!(e, ConfigError::UnknownNodes(names(&["beta", "ghost", "zed"])));
            assert_eq!(e.describe(), "Unknown nodes: 'beta, ghost, zed'");
        }
        Ok(_) => panic!("configuration should be refused"),
    }
}

#[test]
fn valid_config_groups_name_only_nodes() {
    let config = ServerConfig::new(
        vec![("alpha".to_string(), node("10.0.0.1")), ("beta".to_string(), node("10.0.0.2"))],
        vec![("web".to_string(), names(&["alpha", "beta"])), ("solo".to_string(), names(&["beta"]))],
    )
    .unwrap();
    assert_eq!(validate_config(&config), Ok(()));
    for group in ["web", "solo"] {
        assert!(config.is_group(group));
        for member in config.group_members(group) {
            assert!(config.is_node(&member));
        }
    }
    assert_eq!(config.group_members("web"), names(&["alpha", "beta"]));
    assert!(config.group_members("alpha").is_empty());
    assert!(config.group_members("nothing").is_empty());
    assert!(!config.is_group("alpha"));
    assert!(config.is_known("alpha") && config.is_known("web") && !config.is_known("gamma"));
}

#[test]
fn config_without_groups() {
    let config = ServerConfig::new(vec![("alpha".to_string(), node("10.0.0.1"))], vec![]).unwrap();
    assert!(!config.is_group("alpha"));
    assert_eq!(config.node("alpha"), Some(node("10.0.0.1")));
    assert_eq!(config.node("beta"), None);
}

#[test]
fn later_entry_under_a_name_wins() {
    let config = ServerConfig::new(
        vec![("alpha".to_string(), node("10.0.0.1")), ("alpha".to_string(), node("10.0.0.9"))],
        vec![("g".to_string(), names(&["ghost"])), ("g".to_string(), names(&["alpha"]))],
    )
    .unwrap();
    assert_eq!(config.node("alpha").unwrap().ip, "10.0.0.9");
    assert_eq!(config.group_members("g"), names(&["alpha"]));
}

#[test]
fn node_defaults() {
    assert_eq!(default_port(), 22);
    assert_eq!(default_user(), "root");
    let n = Node::with_defaults("h".to_string(), Some(2222), Some("admin".to_string()));
    assert_eq!(n, Node { ip: "h".to_string(), port: 2222, user: "admin".to_string() });
    let d = Node::with_defaults("h".to_string(), None, None);
    assert_eq!(d, Node { ip: "h".to_string(), port: 22, user: "root".to_string() });
}

#[test]
fn accept_loop_steps() {
    assert_eq!(accept_step(false, AcceptEvent::Connection), AcceptAction::Serve);
    assert_eq!(accept_step(false, AcceptEvent::WouldBlock), AcceptAction::Wait);
    assert_eq!(accept_step(false, AcceptEvent::Failed), AcceptAction::Stop);
    assert_eq!(accept_step(true, AcceptEvent::Connection), AcceptAction::Stop);
    assert_eq!(accept_step(true, AcceptEvent::WouldBlock), AcceptAction::Stop);
    assert_eq!(POLL_INTERVAL_MS, 500);
}

#[test]
fn read_loop_steps() {
    assert_eq!(read_step(ReadEvent::Read(0)), ReadAction::Close);
    assert_eq!(read_step(ReadEvent::Read(12)), ReadAction::Handle);
    assert_eq!(read_step(ReadEvent::Interrupted), ReadAction::Retry);
    assert_eq!(read_step(ReadEvent::Failed), ReadAction::Close);
}

#[test]
fn config_rejects_name_of_node_and_group() {
    let r = ServerConfig::new(
        vec![("a".to_string(), node("10.0.0.1")), ("web".to_string(), node("10.0.0.2"))],
        vec![("web".to_string(), names(&["a"])), ("a".to_string(), names(&["a"]))],
    );
    match r {
        Err(e) => {
            assert_eq!(e, ConfigError::SharedNames(names(&["a", "web"])));
            assert_eq!(e.describe(), "Names of both a node and a group: 'a, web'");
        }
        Ok(_) => panic!("configuration should be refused"),
    }
}

#[test]
fn unknown_members_are_reported_before_shared_names() {
    let r = ServerConfig::new(
        vec![("a".to_string(), node("10.0.0.1"))],
        vec![("a".to_string(), names(&["ghost"]))],
    );
    match r {
        Err(e) => assert_eq!(e, ConfigError::UnknownNodes(names(&["ghost"]))),
        Ok(_) => panic!("configuration should be refused"),
    }
}
