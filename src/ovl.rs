//! Resources of the ovl configuration language, as its parser hands them over:
//! a kind, a name, and the key/value pairs written between braces.
use crate::names::{names_of, same_name};
use vstd::prelude::*;

verus! {

/// A resource as written: its kind, its name, and its members in order.
#[derive(Debug, Clone, PartialEq, Eq)]
pub struct ParsedResource {
    name: String,
    resource_type: String,
    content: Vec<(String, String)>,
}

/// A resource whose members were read into the fields of its kind.
#[derive(Debug, PartialEq, Eq)]
pub struct Resource {
    pub name: String,
    pub resource: ResourceType,
}

#[derive(Debug, Default, PartialEq, Eq)]
pub struct OvlFile {
    pub path: String,
    pub mode: i64,
    pub owner: String,
    pub group: String,
}

#[derive(Debug, Default, PartialEq, Eq)]
pub struct OvlCmd {
    pub command: String,
}

#[derive(Debug, PartialEq, Eq)]
pub enum ResourceType {
    File(OvlFile),
    Cmd(OvlCmd),
}

#[derive(Debug, Clone, Copy, PartialEq, Eq)]
pub enum Operator {
    Plus,
    Minus,
}

#[derive(Debug, Clone, Copy, PartialEq, Eq)]
pub enum RelOperator {
    Eq,
    Ge,
    Gt,
    Le,
    Lt,
    Ne,
}

/// The keys of a resource's members, in order.
pub open spec fn member_keys(content: Seq<(String, String)>) -> Seq<Seq<char>> {
    content.map_values(|m: (String, String)| m.0@)
}

/// `i` is where `v` first occurs among `keys`.
pub open spec fn is_first_index(keys: Seq<Seq<char>>, v: Seq<char>, i: int) -> bool {
    0 <= i < keys.len() && keys[i] == v && forall|j: int| 0 <= j < i ==> keys[j] != v
}

/// The value of the first member under `key`, where there is one.
pub open spec fn member_value(content: Seq<(String, String)>, key: Seq<char>) -> Option<Seq<char>> {
    if exists|i: int| is_first_index(member_keys(content), key, i) {
        let i = choose|i: int| is_first_index(member_keys(content), key, i);
        Some(content[i].1@)
    } else {
        None
    }
}

/// The number that `s` writes in decimal, as `str::parse::<i64>` reads it: an
/// optional sign, then one or more ASCII digits, within the range of `i64`.
pub open spec fn decimal_i64(s: Seq<char>) -> Option<i64> {
    let neg = s.len() > 0 && s[0] == '-';
    let body = if s.len() > 0 && (s[0] == '-' || s[0] == '+') {
        s.drop_first()
    } else {
        s
    };
    let v = if neg {
        -digits_value(body)
    } else {
        digits_value(body)
    };
    if body.len() > 0 && (forall|i: int| 0 <= i < body.len() ==> '0' <= #[trigger] body[i] <= '9')
        && i64::MIN <= v <= i64::MAX {
        Some(v as i64)
    } else {
        None
    }
}

/// The value of a string of decimal digits.
pub open spec fn digits_value(s: Seq<char>) -> int
    decreases s.len(),
{
    if s.len() == 0 {
        0
    } else {
        digits_value(s.drop_last()) * 10 + (s.last() as int - '0' as int)
    }
}

/// Relies on `<i64 as FromStr>::from_str`: an optional `+` or `-`, then ASCII
/// digits only, at least one, and a value that fits; anything else is an error.
#[verifier::external_body]
fn parse_i64(s: &str) -> (r: Option<i64>)
    ensures
        r == decimal_i64(s@),
{
    s.parse::<i64>().ok()
}

/// The value that follows the first occurrence of `v` among `keys`.
pub fn value_from_key(keys: &[String], values: &[String], v: &str) -> (r: String)
    requires
        exists|i: int| #[trigger] is_first_index(names_of(keys@), v@, i) && i < values@.len(),
    ensures
        forall|i: int| #[trigger] is_first_index(names_of(keys@), v@, i) ==> r@ == values@[i]@,
{
    let ghost ks = names_of(keys@);
    let mut i: usize = 0;
    while i < keys.len()
        invariant
            ks == names_of(keys@),
            i <= keys@.len(),
            forall|j: int| 0 <= j < i ==> ks[j] != v@,
            exists|f: int| #[trigger] is_first_index(ks, v@, f) && f < values@.len(),
        decreases keys@.len() - i,
    {
        if same_name(keys[i].as_str(), v) {
            proof {
                let f = choose|f: int| is_first_index(ks, v@, f) && f < values@.len();
                assert(ks[i as int] == v@);
                assert(f == i);
            }
            return values[i].clone();
        }
        i = i + 1;
    }
    proof {
        let f = choose|f: int| is_first_index(ks, v@, f) && f < values@.len();
        assert(ks[f] == v@);
    }
    values[0].clone()
}

/// The value of the first member under `key`.
fn member(p: &ParsedResource, key: &str) -> (r: Option<String>)
    ensures
        match r {
            Some(s) => member_value(p.content@, key@) == Some(s@),
            None => member_value(p.content@, key@) is None,
        },
{
    let ghost ks = member_keys(p.content@);
    let mut i: usize = 0;
    while i < p.content.len()
        invariant
            ks == member_keys(p.content@),
            i <= p.content@.len(),
            forall|j: int| 0 <= j < i ==> ks[j] != key@,
        decreases p.content@.len() - i,
    {
        if same_name(p.content[i].0.as_str(), key) {
            proof {
                assert(is_first_index(ks, key@, i as int));
                let f = choose|f: int| is_first_index(ks, key@, f);
                assert(f == i);
            }
            return Some(p.content[i].1.clone());
        }
        i = i + 1;
    }
    None
}

/// What a resource holds: its name and the values of its kind's fields.
pub struct ResourceView {
    pub name: Seq<char>,
    pub resource: ResourceTypeView,
}

pub enum ResourceTypeView {
    File { path: Seq<char>, mode: i64, owner: Seq<char>, group: Seq<char> },
    Cmd { command: Seq<char> },
}

impl View for Resource {
    type V = ResourceView;

    open spec fn view(&self) -> ResourceView {
        ResourceView {
            name: self.name@,
            resource: match self.resource {
                ResourceType::File(f) => ResourceTypeView::File {
                    path: f.path@,
                    mode: f.mode,
                    owner: f.owner@,
                    group: f.group@,
                },
                ResourceType::Cmd(c) => ResourceTypeView::Cmd { command: c.command@ },
            },
        }
    }
}

/// A kind of resource that reads itself from a parsed resource's members.
pub trait FromParsedResource {
    /// The parsed resource has every member that the kind needs, each readable.
    spec fn accepts(parsed_resource: &ParsedResource) -> bool;

    /// The resource that the members make.
    spec fn spec_from(parsed_resource: &ParsedResource) -> ResourceView;

    fn from_parsed_resource(parsed_resource: &ParsedResource) -> (r: Resource)
        requires
            Self::accepts(parsed_resource),
        ensures
            r@ == Self::spec_from(parsed_resource),
    ;
}

impl ParsedResource {
    pub fn new(name: String, resource_type: String, content: Vec<(String, String)>) -> (r: ParsedResource)
        ensures
            r.spec_name() == name,
            r.spec_resource_type() == resource_type,
            r.spec_content() == content,
    {
        ParsedResource { name, resource_type, content }
    }

    pub closed spec fn spec_name(&self) -> String {
        self.name
    }

    pub closed spec fn spec_resource_type(&self) -> String {
        self.resource_type
    }

    pub closed spec fn spec_content(&self) -> Vec<(String, String)> {
        self.content
    }

    /// Whether `parse` can read the resource: its kind is `File` or `Cmd` and
    /// it has that kind's members.
    pub open spec fn parsable(&self) -> bool {
        (self.spec_resource_type()@ == "File"@ && OvlFile::accepts(self)) || (
        self.spec_resource_type()@ == "Cmd"@ && OvlCmd::accepts(self))
    }

    /// Reads the members into the fields of the resource's kind.
    pub fn parse(self) -> (r: Resource)
        requires
            self.parsable(),
        ensures
            self.spec_resource_type()@ == "File"@ ==> r@ == OvlFile::spec_from(&self),
            self.spec_resource_type()@ == "Cmd"@ ==> r@ == OvlCmd::spec_from(&self),
    {
        proof {
            reveal_strlit("File");
            reveal_strlit("Cmd");
            assert("File"@.len() == 4 && "Cmd"@.len() == 3);
        }
        if same_name(self.resource_type.as_str(), "File") {
            OvlFile::from_parsed_resource(&self)
        } else {
            OvlCmd::from_parsed_resource(&self)
        }
    }
}

impl FromParsedResource for OvlFile {
    open spec fn accepts(parsed_resource: &ParsedResource) -> bool {
        let c = parsed_resource.spec_content()@;
        &&& member_value(c, "path"@) is Some
        &&& member_value(c, "owner"@) is Some
        &&& member_value(c, "group"@) is Some
        &&& member_value(c, "mode"@) matches Some(m) && decimal_i64(m) is Some
    }

    open spec fn spec_from(parsed_resource: &ParsedResource) -> ResourceView {
        let c = parsed_resource.spec_content()@;
        ResourceView {
            name: parsed_resource.spec_name()@,
            resource: ResourceTypeView::File {
                path: member_value(c, "path"@)->0,
                mode: decimal_i64(member_value(c, "mode"@)->0)->0,
                owner: member_value(c, "owner"@)->0,
                group: member_value(c, "group"@)->0,
            },
        }
    }

    fn from_parsed_resource(parsed_resource: &ParsedResource) -> (r: Resource) {
        let path = member(parsed_resource, "path");
        let mode = member(parsed_resource, "mode");
        let owner = member(parsed_resource, "owner");
        let group = member(parsed_resource, "group");
        match (path, mode, owner, group) {
            (Some(path), Some(mode), Some(owner), Some(group)) => {
                match parse_i64(mode.as_str()) {
                    Some(mode) => {
                        let file = OvlFile { path, mode, owner, group };
                        Resource { name: parsed_resource.name.clone(), resource: ResourceType::File(file) }
                    },
                    None => {
                        proof {
                            assert(false);
                        }
                        Resource { name: parsed_resource.name.clone(), resource: ResourceType::File(OvlFile { path, mode: 0, owner, group }) }
                    },
                }
            },
            _ => {
                proof {
                    assert(false);
                }
                Resource { name: parsed_resource.name.clone(), resource: ResourceType::Cmd(OvlCmd { command: String::new() }) }
            },
        }
    }
}

impl FromParsedResource for OvlCmd {
    open spec fn accepts(parsed_resource: &ParsedResource) -> bool {
        member_value(parsed_resource.spec_content()@, "command"@) is Some
    }

    open spec fn spec_from(parsed_resource: &ParsedResource) -> ResourceView {
        ResourceView {
            name: parsed_resource.spec_name()@,
            resource: ResourceTypeView::Cmd {
                command: member_value(parsed_resource.spec_content()@, "command"@)->0,
            },
        }
    }

    fn from_parsed_resource(parsed_resource: &ParsedResource) -> (r: Resource) {
        match member(parsed_resource, "command") {
            Some(command) => Resource {
                name: parsed_resource.name.clone(),
                resource: ResourceType::Cmd(OvlCmd { command }),
            },
            None => {
                proof {
                    assert(false);
                }
                Resource { name: parsed_resource.name.clone(), resource: ResourceType::Cmd(OvlCmd { command: String::new() }) }
            },
        }
    }
}

} // verus!
