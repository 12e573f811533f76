use crate::error::ConfigError;
use crate::names::{insert_name, names_of, same_name, strictly_sorted};
use crate::types::Node;
use vstd::prelude::*;

verus! {

/// No name keys two entries of the table.
pub open spec fn keys_unique<V>(t: Seq<(String, V)>) -> bool {
    forall|i: int, j: int| 0 <= i < j < t.len() ==> (#[trigger] t[i]).0@ != (#[trigger] t[j]).0@
}

/// The table's entries as a map, in their order: a later entry under a name
/// replaces an earlier one.
pub open spec fn table_map<V>(t: Seq<(String, V)>) -> Map<Seq<char>, V>
    decreases t.len(),
{
    if t.len() == 0 {
        Map::empty()
    } else {
        table_map(t.drop_last()).insert(t.last().0@, t.last().1)
    }
}

/// A table of groups as a map from each group's name to its members' names.
pub open spec fn members_map(t: Seq<(String, Vec<String>)>) -> Map<Seq<char>, Seq<Seq<char>>> {
    Map::new(|k: Seq<char>| table_map(t).contains_key(k), |k: Seq<char>| names_of(table_map(t)[k]@))
}

proof fn lemma_table_map_index<V>(t: Seq<(String, V)>, i: int)
    requires
        keys_unique(t),
        0 <= i < t.len(),
    ensures
        table_map(t).contains_key(t[i].0@),
        table_map(t)[t[i].0@] == t[i].1,
    decreases t.len(),
{
    if i < t.len() - 1 {
        assert(t.drop_last()[i] == t[i]);
        lemma_keys_unique_drop_last(t);
        lemma_table_map_index(t.drop_last(), i);
        assert(t[i].0@ != t[t.len() - 1].0@);
    }
}

proof fn lemma_table_map_key<V>(t: Seq<(String, V)>, k: Seq<char>)
    requires
        table_map(t).contains_key(k),
    ensures
        exists|i: int| 0 <= i < t.len() && (#[trigger] t[i]).0@ == k,
    decreases t.len(),
{
    if t.last().0@ == k {
        assert(t[t.len() - 1].0@ == k);
    } else {
        lemma_table_map_key(t.drop_last(), k);
        let i = choose|i: int| 0 <= i < t.drop_last().len() && (#[trigger] t.drop_last()[i]).0@ == k;
        assert(t[i] == t.drop_last()[i]);
    }
}

proof fn lemma_keys_unique_drop_last<V>(t: Seq<(String, V)>)
    requires
        keys_unique(t),
        t.len() > 0,
    ensures
        keys_unique(t.drop_last()),
{
    assert forall|a: int, b: int| 0 <= a < b < t.drop_last().len() implies (
    #[trigger] t.drop_last()[a]).0@ != (#[trigger] t.drop_last()[b]).0@ by {
        assert(t.drop_last()[a] == t[a]);
        assert(t.drop_last()[b] == t[b]);
    }
}

proof fn lemma_table_map_update<V>(t: Seq<(String, V)>, p: int, e: (String, V))
    requires
        keys_unique(t),
        0 <= p < t.len(),
        e.0@ == t[p].0@,
    ensures
        table_map(t.update(p, e)) == table_map(t).insert(e.0@, e.1),
    decreases t.len(),
{
    let u = t.update(p, e);
    if p == t.len() - 1 {
        assert(u.drop_last() =~= t.drop_last());
        assert(table_map(u) =~= table_map(t).insert(e.0@, e.1));
    } else {
        assert(u.drop_last() =~= t.drop_last().update(p, e));
        lemma_keys_unique_drop_last(t);
        assert(t.drop_last()[p] == t[p]);
        lemma_table_map_update(t.drop_last(), p, e);
        assert(u.last() == t.last());
        assert(t[p].0@ != t[t.len() - 1].0@);
        assert(table_map(u) =~= table_map(t).insert(e.0@, e.1));
    }
}

/// The index of the entry under `k`.
fn find_key<V>(t: &Vec<(String, V)>, k: &str) -> (r: Option<usize>)
    ensures
        match r {
            Some(i) => i < t@.len() && t@[i as int].0@ == k@,
            None => !table_map(t@).contains_key(k@),
        },
{
    let mut i: usize = 0;
    while i < t.len()
        invariant
            i <= t@.len(),
            forall|j: int| 0 <= j < i ==> (#[trigger] t@[j]).0@ != k@,
        decreases t@.len() - i,
    {
        if same_name(t[i].0.as_str(), k) {
            return Some(i);
        }
        i = i + 1;
    }
    proof {
        if table_map(t@).contains_key(k@) {
            lemma_table_map_key(t@, k@);
        }
    }
    None
}

/// Sets the entry under `k` to `v`, in place of any entry under that name.
fn table_put<V>(t: &mut Vec<(String, V)>, k: String, v: V)
    requires
        keys_unique(old(t)@),
    ensures
        keys_unique(final(t)@),
        table_map(final(t)@) == table_map(old(t)@).insert(k@, v),
{
    match find_key(t, k.as_str()) {
        Some(p) => {
            let ghost e = (k, v);
            proof {
                lemma_table_map_update(t@, p as int, e);
            }
            t.set(p, (k, v));
            assert(t@ == old(t)@.update(p as int, e));
        },
        None => {
            proof {
                assert forall|j: int| 0 <= j < t@.len() implies (#[trigger] t@[j]).0@ != k@ by {
                    if t@[j].0@ == k@ {
                        lemma_table_map_index(t@, j);
                    }
                }
            }
            t.push((k, v));
            assert(t@.drop_last() =~= old(t)@);
        },
    }
}

fn clone_names(v: &Vec<String>) -> (r: Vec<String>)
    ensures
        r@ == v@,
{
    let mut r: Vec<String> = Vec::new();
    let mut i: usize = 0;
    while i < v.len()
        invariant
            i <= v@.len(),
            r@ == v@.subrange(0, i as int),
        decreases v@.len() - i,
    {
        r.push(v[i].clone());
        assert(r@ =~= v@.subrange(0, i + 1));
        i = i + 1;
    }
    assert(v@.subrange(0, i as int) =~= v@);
    r
}

/// What the configuration says: each node's record, and each group's members.
pub struct ConfigView {
    pub nodes: Map<Seq<char>, Node>,
    pub groups: Map<Seq<char>, Seq<Seq<char>>>,
}

impl ConfigView {
    pub open spec fn is_node(self, n: Seq<char>) -> bool {
        self.nodes.contains_key(n)
    }

    pub open spec fn is_group(self, n: Seq<char>) -> bool {
        self.groups.contains_key(n)
    }

    /// A name that a request may use: a node's or a group's.
    pub open spec fn is_known(self, n: Seq<char>) -> bool {
        self.is_node(n) || self.is_group(n)
    }

    /// Every member of every group is a node.
    pub open spec fn members_known(self) -> bool {
        forall|g: Seq<char>, i: int|
            #![trigger self.groups[g][i]]
            self.groups.contains_key(g) && 0 <= i < self.groups[g].len() ==> self.nodes.contains_key(
                self.groups[g][i],
            )
    }

    /// No name is both a node's and a group's.
    pub open spec fn disjoint(self) -> bool {
        forall|n: Seq<char>| !(#[trigger] self.is_node(n) && self.is_group(n))
    }

    /// The names that are both a node's and a group's.
    pub open spec fn shared_names(self) -> Set<Seq<char>> {
        Set::new(|n: Seq<char>| self.is_node(n) && self.is_group(n))
    }

    /// The names that some group lists and that are no node's.
    pub open spec fn unknown_members(self) -> Set<Seq<char>> {
        Set::new(
            |n: Seq<char>|
                !self.nodes.contains_key(n) && exists|g: Seq<char>|
                    self.groups.contains_key(g) && (#[trigger] self.groups[g]).contains(n),
        )
    }

    /// The nodes that a name stands for: a group's members, or the name itself.
    pub open spec fn expand_name(self, n: Seq<char>) -> Seq<Seq<char>> {
        if self.is_group(n) {
            self.groups[n]
        } else {
            seq![n]
        }
    }

    /// The nodes that a list of names stands for.
    pub open spec fn expansion(self, names: Seq<Seq<char>>) -> Set<Seq<char>> {
        Set::new(
            |x: Seq<char>|
                exists|i: int| 0 <= i < names.len() && (#[trigger] self.expand_name(names[i])).contains(x),
        )
    }
}

/// The configuration that the tables give, a later entry under a name replacing
/// an earlier one.
pub open spec fn tables_view(nodes: Seq<(String, Node)>, groups: Seq<(String, Vec<String>)>) -> ConfigView {
    ConfigView { nodes: table_map(nodes), groups: members_map(groups) }
}

/// The nodes that the server may reach and the groups that name them.
pub struct ServerConfig {
    nodes: Vec<(String, Node)>,
    groups: Vec<(String, Vec<String>)>,
}

impl View for ServerConfig {
    type V = ConfigView;

    closed spec fn view(&self) -> ConfigView {
        tables_view(self.nodes@, self.groups@)
    }
}

impl ServerConfig {
    pub closed spec fn wf(&self) -> bool {
        keys_unique(self.nodes@) && keys_unique(self.groups@)
    }

    /// A configuration that passed validation: every group member is a node,
    /// and no name is both a node's and a group's.
    pub open spec fn valid(&self) -> bool {
        self.wf() && self@.members_known() && self@.disjoint()
    }

    /// The configuration of the given tables of nodes and of groups. It is
    /// refused when a group names a member that is no node, with every such
    /// name, sorted; else when a name keys both a node and a group, with every
    /// such name, sorted.
    pub fn new(nodes: Vec<(String, Node)>, groups: Vec<(String, Vec<String>)>) -> (r: Result<
        ServerConfig,
        ConfigError,
    >)
        ensures
            r is Ok <==> tables_view(nodes@, groups@).members_known() && tables_view(
                nodes@,
                groups@,
            ).disjoint(),
            r matches Ok(c) ==> c.valid() && c@ == tables_view(nodes@, groups@),
            r matches Err(e) ==> (e matches ConfigError::UnknownNodes(l) && !tables_view(
                nodes@,
                groups@,
            ).members_known() && strictly_sorted(names_of(l@)) && names_of(l@).to_set()
                == tables_view(nodes@, groups@).unknown_members()) || (e matches ConfigError::SharedNames(
                l,
            ) && tables_view(nodes@, groups@).members_known() && strictly_sorted(names_of(l@))
                && names_of(l@).to_set() == tables_view(nodes@, groups@).shared_names()),
            r matches Err(ConfigError::UnknownNodes(_)) <==> !tables_view(
                nodes@,
                groups@,
            ).members_known(),
    {
        let mut node_table: Vec<(String, Node)> = Vec::new();
        let mut i: usize = 0;
        while i < nodes.len()
            invariant
                i <= nodes@.len(),
                keys_unique(node_table@),
                table_map(node_table@) == table_map(nodes@.subrange(0, i as int)),
            decreases nodes@.len() - i,
        {
            assert(nodes@.subrange(0, i + 1).drop_last() =~= nodes@.subrange(0, i as int));
            table_put(&mut node_table, nodes[i].0.clone(), nodes[i].1.clone());
            i = i + 1;
        }
        assert(nodes@.subrange(0, i as int) =~= nodes@);
        let mut group_table: Vec<(String, Vec<String>)> = Vec::new();
        let mut j: usize = 0;
        while j < groups.len()
            invariant
                j <= groups@.len(),
                keys_unique(group_table@),
                members_map(group_table@) == members_map(groups@.subrange(0, j as int)),
            decreases groups@.len() - j,
        {
            assert(groups@.subrange(0, j + 1).drop_last() =~= groups@.subrange(0, j as int));
            let ghost before = group_table@;
            let members = clone_names(&groups[j].1);
            table_put(&mut group_table, groups[j].0.clone(), members);
            proof {
                let prefix = groups@.subrange(0, j as int);
                let next = groups@.subrange(0, j + 1);
                assert(table_map(next) == table_map(prefix).insert(groups@[j as int].0@, groups@[j as int].1));
                assert forall|k: Seq<char>| #[trigger] members_map(group_table@).contains_key(k) <==> members_map(next).contains_key(k) by {
                    assert(members_map(before).contains_key(k) == members_map(prefix).contains_key(k));
                }
                assert forall|k: Seq<char>| members_map(group_table@).contains_key(k) implies #[trigger] members_map(group_table@)[k] == members_map(next)[k] by {
                    if k != groups@[j as int].0@ {
                        assert(members_map(before)[k] == members_map(prefix)[k]);
                    }
                }
                assert(members_map(group_table@) =~= members_map(next));
            }
            j = j + 1;
        }
        assert(groups@.subrange(0, j as int) =~= groups@);
        let config = ServerConfig { nodes: node_table, groups: group_table };
        assert(config@.nodes == tables_view(nodes@, groups@).nodes);
        assert(config@.groups =~= tables_view(nodes@, groups@).groups);
        match validate_config(&config) {
            Ok(()) => {
                let shared = shared_names(&config);
                if shared.len() == 0 {
                    proof {
                        assert forall|n: Seq<char>| !(#[trigger] config@.is_node(n) && config@.is_group(n)) by {
                            if config@.is_node(n) && config@.is_group(n) {
                                assert(config@.shared_names().contains(n));
                                assert(names_of(shared@).to_set() =~= Set::<Seq<char>>::empty());
                            }
                        }
                    }
                    Ok(config)
                } else {
                    proof {
                        let n = names_of(shared@)[0];
                        assert(names_of(shared@).to_set().contains(n));
                        assert(config@.is_node(n) && config@.is_group(n));
                    }
                    Err(ConfigError::SharedNames(shared))
                }
            },
            Err(e) => Err(e),
        }
    }

    /// Whether `name` is a group's.
    pub fn is_group(&self, name: &str) -> (r: bool)
        requires
            self.wf(),
        ensures
            r == self@.is_group(name@),
    {
        match find_key(&self.groups, name) {
            Some(i) => {
                proof {
                    lemma_table_map_index(self.groups@, i as int);
                }
                true
            },
            None => false,
        }
    }

    /// Whether `name` is a node's.
    pub fn is_node(&self, name: &str) -> (r: bool)
        requires
            self.wf(),
        ensures
            r == self@.is_node(name@),
    {
        match find_key(&self.nodes, name) {
            Some(i) => {
                proof {
                    lemma_table_map_index(self.nodes@, i as int);
                }
                true
            },
            None => false,
        }
    }

    /// Whether a request may name `name`: it is a node's or a group's.
    pub fn is_known(&self, name: &str) -> (r: bool)
        requires
            self.wf(),
        ensures
            r == self@.is_known(name@),
    {
        self.is_node(name) || self.is_group(name)
    }

    /// The members of the group `name`; none where `name` is no group's.
    pub fn group_members(&self, name: &str) -> (r: Vec<String>)
        requires
            self.wf(),
        ensures
            names_of(r@) == (if self@.is_group(name@) {
                self@.groups[name@]
            } else {
                Seq::empty()
            }),
    {
        match find_key(&self.groups, name) {
            Some(i) => {
                proof {
                    lemma_table_map_index(self.groups@, i as int);
                }
                clone_names(&self.groups[i].1)
            },
            None => {
                let r: Vec<String> = Vec::new();
                assert(names_of(r@) =~= Seq::<Seq<char>>::empty());
                r
            },
        }
    }

    /// The record of the node `name`, where there is one.
    pub fn node(&self, name: &str) -> (r: Option<Node>)
        requires
            self.wf(),
        ensures
            r == (if self@.is_node(name@) {
                Some(self@.nodes[name@])
            } else {
                None
            }),
    {
        match find_key(&self.nodes, name) {
            Some(i) => {
                proof {
                    lemma_table_map_index(self.nodes@, i as int);
                }
                Some(self.nodes[i].1.clone())
            },
            None => None,
        }
    }
}

/// The group names before entry `g` of the table that are also node names.
spec fn shared_before(nodes: Map<Seq<char>, Node>, gs: Seq<(String, Vec<String>)>, g: int) -> Set<
    Seq<char>,
> {
    Set::new(
        |n: Seq<char>|
            nodes.contains_key(n) && exists|a: int| 0 <= a < g && (#[trigger] gs[a]).0@ == n,
    )
}

proof fn lemma_shared_step(nodes: Map<Seq<char>, Node>, gs: Seq<(String, Vec<String>)>, g: int)
    requires
        0 <= g < gs.len(),
    ensures
        shared_before(nodes, gs, g + 1) == (if nodes.contains_key(gs[g].0@) {
            shared_before(nodes, gs, g).insert(gs[g].0@)
        } else {
            shared_before(nodes, gs, g)
        }),
{
    let x = gs[g].0@;
    let lhs = shared_before(nodes, gs, g + 1);
    let old_set = shared_before(nodes, gs, g);
    let rhs = if nodes.contains_key(x) {
        old_set.insert(x)
    } else {
        old_set
    };
    assert forall|n: Seq<char>| lhs.contains(n) <==> rhs.contains(n) by {
        if lhs.contains(n) {
            let a = choose|a: int| 0 <= a < g + 1 && (#[trigger] gs[a]).0@ == n;
            if a < g {
                assert(old_set.contains(n));
            }
        }
        if rhs.contains(n) {
            if n == x && nodes.contains_key(x) {
                assert(gs[g].0@ == n);
            } else {
                let a = choose|a: int| 0 <= a < g && (#[trigger] gs[a]).0@ == n;
                assert(gs[a].0@ == n);
            }
        }
    }
    assert(lhs =~= rhs);
}

/// The names that key both a node and a group, sorted, each once.
pub fn shared_names(config: &ServerConfig) -> (r: Vec<String>)
    requires
        config.wf(),
    ensures
        strictly_sorted(names_of(r@)),
        names_of(r@).to_set() == config@.shared_names(),
{
    let ghost gs = config.groups@;
    let ghost cv = config@;
    let mut out: Vec<String> = Vec::new();
    proof {
        assert(names_of(out@).to_set() =~= shared_before(cv.nodes, gs, 0));
    }
    let mut g: usize = 0;
    while g < config.groups.len()
        invariant
            g <= gs.len(),
            gs == config.groups@,
            cv == config@,
            config.wf(),
            strictly_sorted(names_of(out@)),
            names_of(out@).to_set() == shared_before(cv.nodes, gs, g as int),
        decreases gs.len() - g,
    {
        proof {
            lemma_shared_step(cv.nodes, gs, g as int);
        }
        let name = &config.groups[g].0;
        if config.is_node(name.as_str()) {
            insert_name(&mut out, name.clone());
        }
        g = g + 1;
    }
    proof {
        let fin = shared_before(cv.nodes, gs, gs.len() as int);
        assert forall|n: Seq<char>| fin.contains(n) <==> cv.shared_names().contains(n) by {
            if fin.contains(n) {
                let a = choose|a: int| 0 <= a < gs.len() && (#[trigger] gs[a]).0@ == n;
                lemma_table_map_index(gs, a);
            }
            if cv.is_node(n) && cv.is_group(n) {
                lemma_table_map_key(gs, n);
                let a = choose|a: int| 0 <= a < gs.len() && (#[trigger] gs[a]).0@ == n;
                assert(gs[a].0@ == n);
            }
        }
        assert(fin =~= cv.shared_names());
    }
    out
}

/// The names listed by the groups before member `m` of group `g` that are no node's.
spec fn listed_unknown(
    nodes: Map<Seq<char>, Node>,
    gs: Seq<(String, Vec<String>)>,
    g: int,
    m: int,
) -> Set<Seq<char>> {
    Set::new(
        |n: Seq<char>|
            !nodes.contains_key(n) && exists|a: int, b: int|
                0 <= a < gs.len() && 0 <= b < gs[a].1@.len() && (#[trigger] gs[a].1@[b])@ == n && (a
                    < g || (a == g && b < m)),
    )
}

proof fn lemma_listed_step(nodes: Map<Seq<char>, Node>, gs: Seq<(String, Vec<String>)>, g: int, m: int)
    requires
        0 <= g < gs.len(),
        0 <= m < gs[g].1@.len(),
    ensures
        listed_unknown(nodes, gs, g, m + 1) == (if nodes.contains_key(gs[g].1@[m]@) {
            listed_unknown(nodes, gs, g, m)
        } else {
            listed_unknown(nodes, gs, g, m).insert(gs[g].1@[m]@)
        }),
{
    let x = gs[g].1@[m]@;
    let lhs = listed_unknown(nodes, gs, g, m + 1);
    let old_set = listed_unknown(nodes, gs, g, m);
    let rhs = if nodes.contains_key(x) {
        old_set
    } else {
        old_set.insert(x)
    };
    assert forall|n: Seq<char>| lhs.contains(n) <==> rhs.contains(n) by {
        if lhs.contains(n) {
            let (a, b) = choose|a: int, b: int|
                0 <= a < gs.len() && 0 <= b < gs[a].1@.len() && (#[trigger] gs[a].1@[b])@ == n && (a
                    < g || (a == g && b < m + 1));
            if !(a == g && b == m) {
                assert(old_set.contains(n));
            }
        }
        if rhs.contains(n) {
            if n == x && !nodes.contains_key(x) {
                assert(gs[g].1@[m]@ == n);
            } else {
                assert(old_set.contains(n));
                let (a, b) = choose|a: int, b: int|
                    0 <= a < gs.len() && 0 <= b < gs[a].1@.len() && (#[trigger] gs[a].1@[b])@ == n
                        && (a < g || (a == g && b < m));
                assert(gs[a].1@[b]@ == n);
            }
        }
    }
    assert(lhs =~= rhs);
}

proof fn lemma_listed_next_group(nodes: Map<Seq<char>, Node>, gs: Seq<(String, Vec<String>)>, g: int)
    requires
        0 <= g < gs.len(),
    ensures
        listed_unknown(nodes, gs, g, gs[g].1@.len() as int) == listed_unknown(nodes, gs, g + 1, 0),
{
    let lhs = listed_unknown(nodes, gs, g, gs[g].1@.len() as int);
    let rhs = listed_unknown(nodes, gs, g + 1, 0);
    assert forall|n: Seq<char>| lhs.contains(n) <==> rhs.contains(n) by {
        if lhs.contains(n) {
            let (a, b) = choose|a: int, b: int|
                0 <= a < gs.len() && 0 <= b < gs[a].1@.len() && (#[trigger] gs[a].1@[b])@ == n && (a
                    < g || (a == g && b < gs[g].1@.len()));
            assert(gs[a].1@[b]@ == n);
        }
        if rhs.contains(n) {
            let (a, b) = choose|a: int, b: int|
                0 <= a < gs.len() && 0 <= b < gs[a].1@.len() && (#[trigger] gs[a].1@[b])@ == n && (a
                    < g + 1 || (a == g + 1 && b < 0));
            assert(gs[a].1@[b]@ == n);
        }
    }
    assert(lhs =~= rhs);
}

/// Checks that every group member is a node; the error lists, sorted and once
/// each, every name that a group lists and that is no node's.
pub fn validate_config(config: &ServerConfig) -> (r: Result<(), ConfigError>)
    requires
        config.wf(),
    ensures
        r is Ok <==> config@.members_known(),
        r matches Err(e) ==> e matches ConfigError::UnknownNodes(l) && strictly_sorted(names_of(l@))
            && names_of(l@).to_set() == config@.unknown_members(),
{
    let ghost cv = config@;
    let ghost gs = config.groups@;
    let mut unknown: Vec<String> = Vec::new();
    proof {
        assert(names_of(unknown@).to_set() =~= listed_unknown(cv.nodes, gs, 0, 0));
    }
    let mut g: usize = 0;
    while g < config.groups.len()
        invariant
            g <= gs.len(),
            gs == config.groups@,
            cv == config@,
            config.wf(),
            strictly_sorted(names_of(unknown@)),
            names_of(unknown@).to_set() == listed_unknown(cv.nodes, gs, g as int, 0),
        decreases gs.len() - g,
    {
        let members = &config.groups[g].1;
        let mut m: usize = 0;
        while m < members.len()
            invariant
                g < gs.len(),
                m <= members@.len(),
                *members == gs[g as int].1,
                gs == config.groups@,
                cv == config@,
                config.wf(),
                strictly_sorted(names_of(unknown@)),
                names_of(unknown@).to_set() == listed_unknown(cv.nodes, gs, g as int, m as int),
            decreases members@.len() - m,
        {
            proof {
                lemma_listed_step(cv.nodes, gs, g as int, m as int);
            }
            match find_key(&config.nodes, members[m].as_str()) {
                Some(p) => {
                    proof {
                        lemma_table_map_index(config.nodes@, p as int);
                    }
                },
                None => {
                    insert_name(&mut unknown, members[m].clone());
                },
            }
            m = m + 1;
        }
        proof {
            lemma_listed_next_group(cv.nodes, gs, g as int);
        }
        g = g + 1;
    }
    proof {
        lemma_unknown_members(config);
        assert(names_of(unknown@).to_set() =~= cv.unknown_members());
        lemma_members_known_iff(cv);
    }
    if unknown.len() == 0 {
        proof {
            assert(names_of(unknown@).to_set() =~= Set::<Seq<char>>::empty());
        }
        Ok(())
    } else {
        proof {
            let n = names_of(unknown@)[0];
            assert(names_of(unknown@).to_set().contains(n));
        }
        Err(ConfigError::UnknownNodes(unknown))
    }
}

proof fn lemma_members_known_iff(cv: ConfigView)
    ensures
        cv.members_known() <==> cv.unknown_members() =~= Set::<Seq<char>>::empty(),
{
    if cv.members_known() {
        assert forall|n: Seq<char>| !cv.unknown_members().contains(n) by {
            if !cv.nodes.contains_key(n) && exists|g: Seq<char>|
                cv.groups.contains_key(g) && (#[trigger] cv.groups[g]).contains(n) {
                let g = choose|g: Seq<char>| cv.groups.contains_key(g) && (#[trigger] cv.groups[g]).contains(n);
                let i = choose|i: int| 0 <= i < cv.groups[g].len() && cv.groups[g][i] == n;
                assert(cv.nodes.contains_key(cv.groups[g][i]));
            }
        }
    } else {
        let (g, i) = choose|g: Seq<char>, i: int|
            !(cv.groups.contains_key(g) && 0 <= i < cv.groups[g].len() ==> cv.nodes.contains_key(
                #[trigger] cv.groups[g][i],
            ));
        assert(cv.groups[g].contains(cv.groups[g][i]));
        assert(cv.unknown_members().contains(cv.groups[g][i]));
    }
}

/// The unknown members of a configuration, as its table of groups lists them.
proof fn lemma_unknown_members(config: &ServerConfig)
    requires
        config.wf(),
    ensures
        config@.unknown_members() == listed_unknown(config@.nodes, config.groups@, config.groups@.len() as int, 0),
{
    let cv = config@;
    let gs = config.groups@;
    assert forall|n: Seq<char>|
        cv.unknown_members().contains(n) <==> (!cv.nodes.contains_key(n) && exists|a: int, b: int|
            0 <= a < gs.len() && 0 <= b < gs[a].1@.len() && (#[trigger] gs[a].1@[b])@ == n) by {
        if cv.unknown_members().contains(n) {
            let g = choose|g: Seq<char>| cv.groups.contains_key(g) && (#[trigger] cv.groups[g]).contains(n);
            lemma_table_map_key(gs, g);
            let a = choose|a: int| 0 <= a < gs.len() && (#[trigger] gs[a]).0@ == g;
            lemma_table_map_index(gs, a);
            let b = choose|b: int| 0 <= b < cv.groups[g].len() && cv.groups[g][b] == n;
            assert(gs[a].1@[b]@ == n);
        }
        if !cv.nodes.contains_key(n) && exists|a: int, b: int|
            0 <= a < gs.len() && 0 <= b < gs[a].1@.len() && (#[trigger] gs[a].1@[b])@ == n {
            let (a, b) = choose|a: int, b: int|
                0 <= a < gs.len() && 0 <= b < gs[a].1@.len() && (#[trigger] gs[a].1@[b])@ == n;
            lemma_table_map_index(gs, a);
            let g = gs[a].0@;
            assert(cv.groups.contains_key(g));
            assert(cv.groups[g][b] == n);
            assert(cv.groups[g].contains(n));
        }
    }
    let l = listed_unknown(cv.nodes, gs, gs.len() as int, 0);
    assert forall|n: Seq<char>| l.contains(n) <==> cv.unknown_members().contains(n) by {
        if l.contains(n) {
            let (a, b) = choose|a: int, b: int|
                0 <= a < gs.len() && 0 <= b < gs[a].1@.len() && (#[trigger] gs[a].1@[b])@ == n && (a
                    < gs.len() || (a == gs.len() && b < 0));
            assert(gs[a].1@[b]@ == n);
        }
        if cv.unknown_members().contains(n) {
            let (a, b) = choose|a: int, b: int|
                0 <= a < gs.len() && 0 <= b < gs[a].1@.len() && (#[trigger] gs[a].1@[b])@ == n;
            assert(gs[a].1@[b]@ == n);
        }
    }
    assert(l =~= cv.unknown_members());
}

/// How long the accept loop waits when no connection is pending.
pub const POLL_INTERVAL_MS: u64 = 500;

/// What one attempt to accept a connection gave.
#[derive(Debug, Clone, Copy, PartialEq, Eq)]
pub enum AcceptEvent {
    /// A client connected.
    Connection,
    /// No client is waiting.
    WouldBlock,
    /// Accepting failed for another reason.
    Failed,
}

/// What the accept loop does next.
#[derive(Debug, Clone, Copy, PartialEq, Eq)]
pub enum AcceptAction {
    /// Hand the connection to a handler of its own.
    Serve,
    /// Sleep for `POLL_INTERVAL_MS`, then try again.
    Wait,
    /// Leave the loop; the server then waits for its handlers and exits.
    Stop,
}

/// One turn of the accept loop: an interrupt, once seen, ends it before
/// anything else; a connection is served; with none pending the loop waits;
/// any other failure ends it.
pub fn accept_step(shutdown_requested: bool, event: AcceptEvent) -> (r: AcceptAction)
    ensures
        shutdown_requested ==> r == AcceptAction::Stop,
        !shutdown_requested ==> r == (match event {
            AcceptEvent::Connection => AcceptAction::Serve,
            AcceptEvent::WouldBlock => AcceptAction::Wait,
            AcceptEvent::Failed => AcceptAction::Stop,
        }),
{
    if shutdown_requested {
        return AcceptAction::Stop;
    }
    match event {
        AcceptEvent::Connection => AcceptAction::Serve,
        AcceptEvent::WouldBlock => AcceptAction::Wait,
        AcceptEvent::Failed => AcceptAction::Stop,
    }
}

/// What one read of a request frame from a connection gave.
#[derive(Debug, Clone, Copy, PartialEq, Eq)]
pub enum ReadEvent {
    /// This many bytes, up to and with the line feed that ends the frame.
    Read(usize),
    /// The read was interrupted by a signal before any byte came.
    Interrupted,
    /// The read failed for another reason.
    Failed,
}

/// What a connection's handler does next.
#[derive(Debug, Clone, Copy, PartialEq, Eq)]
pub enum ReadAction {
    /// Decode the frame, decide the request and reply; then close.
    Handle,
    /// Read again.
    Retry,
    /// Close the connection without a reply.
    Close,
}

/// One turn of reading a request: a frame is handled; a client that closed
/// the connection first, or a failed read, ends it; an interrupted read is
/// tried again.
pub fn read_step(event: ReadEvent) -> (r: ReadAction)
    ensures
        r == (match event {
            ReadEvent::Read(n) => if n == 0 {
                ReadAction::Close
            } else {
                ReadAction::Handle
            },
            ReadEvent::Interrupted => ReadAction::Retry,
            ReadEvent::Failed => ReadAction::Close,
        }),
{
    match event {
        ReadEvent::Read(n) => if n == 0 {
            ReadAction::Close
        } else {
            ReadAction::Handle
        },
        ReadEvent::Interrupted => ReadAction::Retry,
        ReadEvent::Failed => ReadAction::Close,
    }
}

} // verus!
