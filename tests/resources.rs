use ovium::ovl::{
    value_from_key, FromParsedResource, OvlCmd, OvlFile, ParsedResource, ResourceType,
};

fn members(v: &[(&str, &str)]) -> Vec<(String, String)> {
    v.iter().map(|(k, x)| (k.to_string(), x.to_string())).collect()
}

#[test]
fn file_resource_is_read() {
    let p = ParsedResource::new(
        "motd".to_string(),
        "File".to_string(),
        members(&[("path", "/etc/motd"), ("mode", "644"), ("owner", "root"), ("group", "wheel")]),
    );
    let r = p.parse();
    assert_eq!(r.name, "motd");
    assert_eq!(
        r.resource,
        ResourceType::File(OvlFile {
            path: "/etc/motd".to_string(),
            mode: 644,
            owner: "root".to_string(),
            group: "wheel".to_string(),
        })
    );
}

#[test]
fn file_mode_sign_is_read() {
    for (text, value) in [("-3", -3i64), ("+12", 12), ("0007", 7)] {
        let p = ParsedResource::new(
            "f".to_string(),
            "File".to_string(),
            members(&[("group", "g"), ("owner", "o"), ("mode", text), ("path", "p")]),
        );
        match OvlFile::from_parsed_resource(&p).resource {
            ResourceType::File(f) => assert_eq!(f.mode, value),
            ResourceType::Cmd(_) => panic!("expected a file"),
        }
    }
}

#[test]
fn cmd_resource_is_read() {
    let p = ParsedResource::new(
        "hello".to_string(),
        "Cmd".to_string(),
        members(&[("command", "echo hi"), ("command", "ignored")]),
    );
    let r = p.parse();
    assert_eq!(r.name, "hello");
    assert_eq!(r.resource, ResourceType::Cmd(OvlCmd { command: "echo hi".to_string() }));
}

#[test]
fn value_follows_first_key() {
    let keys: Vec<String> = ["a", "b", "a"].iter().map(|s| s.to_string()).collect();
    let values: Vec<String> = ["1", "2", "3"].iter().map(|s| s.to_string()).collect();
    assert_eq!(value_from_key(&keys, &values, "a"), "1");
    assert_eq!(value_from_key(&keys, &values, "b"), "2");
}
