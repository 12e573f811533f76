//! What the server decides for one request: whether it names only known nodes
//! and groups, which nodes it runs on, and the reply that the outcomes make.
use crate::names::{
    insert_name, lemma_name_lt_irreflexive, lemma_sorted_listing_unique, names_of, strictly_sorted,
};
use crate::server::{ConfigView, ServerConfig};
use crate::types::{CmdRequest, CmdReturn, Node, Response, ResponseError, SshReturn};
use vstd::prelude::*;
use vstd::set_lib::{lemma_int_range, lemma_len_subset, set_int_range};

verus! {

/// The names of a request that are neither a node's nor a group's, in the
/// request's order.
pub open spec fn unknown_names(cfg: ConfigView, names: Seq<Seq<char>>) -> Seq<Seq<char>>
    decreases names.len(),
{
    if names.len() == 0 {
        Seq::empty()
    } else {
        let rest = unknown_names(cfg, names.drop_last());
        if cfg.is_known(names.last()) {
            rest
        } else {
            rest.push(names.last())
        }
    }
}

/// `targets` is the list of nodes that `names` runs on: each node once, sorted.
pub open spec fn is_execution_order(
    cfg: ConfigView,
    names: Seq<Seq<char>>,
    targets: Seq<Seq<char>>,
) -> bool {
    strictly_sorted(targets) && targets.to_set() == cfg.expansion(names)
}

/// One node's share of a request: the node and the command to run there.
#[derive(Debug, PartialEq, Eq)]
pub struct Job {
    pub node_name: String,
    pub node: Node,
    pub command: String,
}

pub open spec fn job_names(jobs: Seq<Job>) -> Seq<Seq<char>> {
    jobs.map_values(|j: Job| j.node_name@)
}

/// What to do with a request.
#[derive(Debug, PartialEq, Eq)]
pub enum Plan {
    /// Answer at once with this reply; run nothing.
    Reject(Response),
    /// Run each job, then answer with what came of them.
    Run(Vec<Job>),
}

/// A job's outcome, as a worker reports it: the job's index and what came of it.
#[derive(Debug, Clone, PartialEq, Eq)]
pub struct Completion {
    pub job: usize,
    pub data: SshReturn,
}

/// Some outcome in `s` is for job `j`.
pub open spec fn has_job(s: Seq<Completion>, j: usize) -> bool {
    exists|k: int| 0 <= k < s.len() && (#[trigger] s[k]).job == j
}

/// The outcomes that make a reply to `n` jobs, in the order they came: the
/// first outcome of each job; one for no job, or a second one for a job, is
/// left out.
pub open spec fn accepted(n: int, cs: Seq<Completion>) -> Seq<Completion>
    decreases cs.len(),
{
    if cs.len() == 0 {
        Seq::empty()
    } else {
        let rest = accepted(n, cs.drop_last());
        if cs.last().job < n && !has_job(rest, cs.last().job) {
            rest.push(cs.last())
        } else {
            rest
        }
    }
}

/// The node names of the entries of the reply to `jobs` and their outcomes.
pub open spec fn reply_names(jobs: Seq<Job>, cs: Seq<Completion>) -> Seq<Seq<char>> {
    Seq::new(
        accepted(jobs.len() as int, cs).len(),
        |k: int| jobs[accepted(jobs.len() as int, cs)[k].job as int].node_name@,
    )
}

/// The accepted outcomes are for jobs that exist, each job once.
proof fn lemma_accepted_jobs(n: int, cs: Seq<Completion>)
    ensures
        forall|k: int| 0 <= k < accepted(n, cs).len() ==> (#[trigger] accepted(n, cs)[k]).job < n,
        forall|i: int, j: int|
            0 <= i < j < accepted(n, cs).len() ==> (#[trigger] accepted(n, cs)[i]).job != (
            #[trigger] accepted(n, cs)[j]).job,
    decreases cs.len(),
{
    if cs.len() > 0 {
        lemma_accepted_jobs(n, cs.drop_last());
        let rest = accepted(n, cs.drop_last());
        if cs.last().job < n && !has_job(rest, cs.last().job) {
            let a = rest.push(cs.last());
            assert forall|i: int, j: int| 0 <= i < j < a.len() implies (#[trigger] a[i]).job != (
            #[trigger] a[j]).job by {
                if j == rest.len() {
                    assert(a[i] == rest[i]);
                    if rest[i].job == cs.last().job {
                        assert(has_job(rest, cs.last().job));
                    }
                } else {
                    assert(a[i] == rest[i] && a[j] == rest[j]);
                }
            }
        }
    }
}

/// Outcomes for distinct jobs among `n` number at most `n`.
proof fn lemma_accepted_len(n: int, cs: Seq<Completion>)
    requires
        0 <= n,
    ensures
        accepted(n, cs).len() <= n,
{
    let a = accepted(n, cs);
    lemma_accepted_jobs(n, cs);
    let js = a.map_values(|c: Completion| c.job as int);
    assert(js.no_duplicates()) by {
        assert forall|i: int, j: int| 0 <= i < js.len() && 0 <= j < js.len() && i != j implies js[i]
            != js[j] by {
            if i < j {
                assert(a[i].job != a[j].job);
            } else {
                assert(a[j].job != a[i].job);
            }
        }
    }
    js.unique_seq_to_set();
    assert(js.to_set().subset_of(set_int_range(0, n))) by {
        assert forall|x: int| js.to_set().contains(x) implies set_int_range(0, n).contains(x) by {
            let k = choose|k: int| 0 <= k < js.len() && js[k] == x;
            assert(a[k].job < n);
        }
    }
    lemma_int_range(0, n);
    lemma_len_subset(js.to_set(), set_int_range(0, n));
}

/// Checks that each name of the request is a node's or a group's; the error
/// lists the others, in the request's order.
pub fn validate_request(config: &ServerConfig, req: &CmdRequest) -> (r: Result<(), ResponseError>)
    requires
        config.wf(),
    ensures
        r is Ok <==> unknown_names(config@, names_of(req.nodes@)).len() == 0,
        r matches Err(e) ==> e matches ResponseError::UnknownNodes(l) && names_of(l@)
            == unknown_names(config@, names_of(req.nodes@)),
{
    let ghost names = names_of(req.nodes@);
    let mut unknown: Vec<String> = Vec::new();
    let mut i: usize = 0;
    while i < req.nodes.len()
        invariant
            config.wf(),
            names == names_of(req.nodes@),
            i <= names.len(),
            names_of(unknown@) == unknown_names(config@, names.subrange(0, i as int)),
        decreases names.len() - i,
    {
        assert(names.subrange(0, i + 1).drop_last() =~= names.subrange(0, i as int));
        if !config.is_known(req.nodes[i].as_str()) {
            unknown.push(req.nodes[i].clone());
            assert(names_of(unknown@) =~= unknown_names(config@, names.subrange(0, i as int)).push(
                names[i as int],
            ));
        }
        i = i + 1;
    }
    assert(names.subrange(0, i as int) =~= names);
    if unknown.len() == 0 {
        Ok(())
    } else {
        Err(ResponseError::UnknownNodes(unknown))
    }
}

/// Adds each of `items` to a strictly sorted list, which stays so.
fn insert_names(out: &mut Vec<String>, items: &Vec<String>)
    requires
        strictly_sorted(names_of(old(out)@)),
    ensures
        strictly_sorted(names_of(final(out)@)),
        names_of(final(out)@).to_set() == names_of(old(out)@).to_set() + names_of(items@).to_set(),
{
    let ghost start = names_of(out@).to_set();
    let mut i: usize = 0;
    while i < items.len()
        invariant
            i <= items@.len(),
            strictly_sorted(names_of(out@)),
            names_of(out@).to_set() == start + names_of(items@.subrange(0, i as int)).to_set(),
        decreases items@.len() - i,
    {
        insert_name(out, items[i].clone());
        assert(names_of(items@.subrange(0, i + 1)) =~= names_of(items@.subrange(0, i as int)).push(
            items@[i as int]@,
        ));
        proof {
            names_of(items@.subrange(0, i as int)).lemma_push_to_set_commute(items@[i as int]@);
        }
        assert(names_of(out@).to_set() =~= start + names_of(items@.subrange(0, i + 1)).to_set());
        i = i + 1;
    }
    assert(items@.subrange(0, i as int) =~= items@);
}

proof fn lemma_expansion_step(cfg: ConfigView, names: Seq<Seq<char>>, i: int)
    requires
        0 <= i < names.len(),
    ensures
        cfg.expansion(names.subrange(0, i + 1)) == cfg.expansion(names.subrange(0, i))
            + cfg.expand_name(names[i]).to_set(),
{
    let a = names.subrange(0, i + 1);
    let b = names.subrange(0, i);
    assert forall|x: Seq<char>|
        cfg.expansion(a).contains(x) <==> (cfg.expansion(b) + cfg.expand_name(names[i]).to_set()).contains(
            x,
        ) by {
        if cfg.expansion(a).contains(x) {
            let j = choose|j: int| 0 <= j < a.len() && (#[trigger] cfg.expand_name(a[j])).contains(x);
            if j < i {
                assert(b[j] == a[j]);
                assert(cfg.expand_name(b[j]).contains(x));
            }
        }
        if cfg.expansion(b).contains(x) {
            let j = choose|j: int| 0 <= j < b.len() && (#[trigger] cfg.expand_name(b[j])).contains(x);
            assert(a[j] == b[j]);
            assert(cfg.expand_name(a[j]).contains(x));
        }
        if cfg.expand_name(names[i]).to_set().contains(x) {
            assert(a[i] == names[i]);
            assert(cfg.expand_name(a[i]).contains(x));
        }
    }
    assert(cfg.expansion(a) =~= cfg.expansion(b) + cfg.expand_name(names[i]).to_set());
}

/// The nodes that `names` runs on: each group replaced by its members, each
/// node once, sorted as `String`s are.
pub fn expand_targets(config: &ServerConfig, names: &Vec<String>) -> (r: Vec<String>)
    requires
        config.wf(),
    ensures
        is_execution_order(config@, names_of(names@), names_of(r@)),
{
    let ghost ns = names_of(names@);
    let mut out: Vec<String> = Vec::new();
    proof {
        assert(names_of(out@).to_set() =~= config@.expansion(ns.subrange(0, 0)));
    }
    let mut i: usize = 0;
    while i < names.len()
        invariant
            config.wf(),
            ns == names_of(names@),
            i <= ns.len(),
            strictly_sorted(names_of(out@)),
            names_of(out@).to_set() == config@.expansion(ns.subrange(0, i as int)),
        decreases ns.len() - i,
    {
        proof {
            lemma_expansion_step(config@, ns, i as int);
        }
        let name = &names[i];
        if config.is_group(name.as_str()) {
            let members = config.group_members(name.as_str());
            insert_names(&mut out, &members);
        } else {
            let ghost before = names_of(out@).to_set();
            insert_name(&mut out, name.clone());
            assert(seq![name@].to_set() =~= Set::<Seq<char>>::empty().insert(name@)) by {
                assert(seq![name@].contains(name@) || seq![name@][0] == name@);
            }
            assert(before.insert(name@) =~= before + seq![name@].to_set());
        }
        i = i + 1;
    }
    assert(ns.subrange(0, i as int) =~= ns);
    out
}

/// The nodes that a list of names runs on have one listing: the sorted list,
/// without repeats, of the names' nodes and of their groups' members.
pub proof fn lemma_execution_order_unique(
    cfg: ConfigView,
    names: Seq<Seq<char>>,
    a: Seq<Seq<char>>,
    b: Seq<Seq<char>>,
)
    requires
        is_execution_order(cfg, names, a),
        is_execution_order(cfg, names, b),
    ensures
        a == b,
{
    lemma_sorted_listing_unique(a, b);
}

/// Every node that a valid request runs on is a node of the configuration.
proof fn lemma_expansion_nodes(cfg: ConfigView, names: Seq<Seq<char>>, x: Seq<char>)
    requires
        cfg.members_known(),
        unknown_names(cfg, names).len() == 0,
        cfg.expansion(names).contains(x),
    ensures
        cfg.is_node(x),
{
    let i = choose|i: int| 0 <= i < names.len() && (#[trigger] cfg.expand_name(names[i])).contains(x);
    lemma_unknown_names_empty(cfg, names, i);
    if cfg.is_group(names[i]) {
        let j = choose|j: int| 0 <= j < cfg.groups[names[i]].len() && cfg.groups[names[i]][j] == x;
        assert(cfg.nodes.contains_key(cfg.groups[names[i]][j]));
    } else {
        assert(seq![names[i]][0] == names[i]);
    }
}

proof fn lemma_unknown_names_empty(cfg: ConfigView, names: Seq<Seq<char>>, i: int)
    requires
        unknown_names(cfg, names).len() == 0,
        0 <= i < names.len(),
    ensures
        cfg.is_known(names[i]),
    decreases names.len(),
{
    if i < names.len() - 1 {
        assert(names.drop_last()[i] == names[i]);
        lemma_unknown_names_empty(cfg, names.drop_last(), i);
    }
}

/// Decides a request: a reply that names the unknown names, where there are
/// any; else one job per target node, in the order of the targets.
pub fn plan_request(config: &ServerConfig, req: &CmdRequest) -> (r: Plan)
    requires
        config.valid(),
    ensures
        r is Reject <==> unknown_names(config@, names_of(req.nodes@)).len() > 0,
        r matches Plan::Reject(resp) ==> resp matches Response::Error(ResponseError::UnknownNodes(l))
            && names_of(l@) == unknown_names(config@, names_of(req.nodes@)),
        r matches Plan::Run(jobs) ==> is_execution_order(
            config@,
            names_of(req.nodes@),
            job_names(jobs@),
        ) && (forall|k: int|
            0 <= k < jobs@.len() ==> (#[trigger] jobs@[k]).node == config@.nodes[jobs@[k].node_name@]
                && config@.is_node(jobs@[k].node_name@) && jobs@[k].command@ == req.command@),
{
    match validate_request(config, req) {
        Err(e) => Plan::Reject(Response::Error(e)),
        Ok(()) => {
            let targets = expand_targets(config, &req.nodes);
            let mut jobs: Vec<Job> = Vec::new();
            let mut i: usize = 0;
            while i < targets.len()
                invariant
                    config.valid(),
                    unknown_names(config@, names_of(req.nodes@)).len() == 0,
                    is_execution_order(config@, names_of(req.nodes@), names_of(targets@)),
                    i <= targets@.len(),
                    jobs@.len() == i,
                    forall|k: int|
                        0 <= k < i ==> (#[trigger] jobs@[k]).node_name@ == targets@[k]@ && jobs@[k].node
                            == config@.nodes[jobs@[k].node_name@] && config@.is_node(
                            jobs@[k].node_name@,
                        ) && jobs@[k].command@ == req.command@,
                decreases targets@.len() - i,
            {
                let name = &targets[i];
                proof {
                    assert(names_of(targets@)[i as int] == name@);
                    assert(names_of(targets@).to_set().contains(name@));
                    lemma_expansion_nodes(config@, names_of(req.nodes@), name@);
                }
                match config.node(name.as_str()) {
                    Some(node) => {
                        jobs.push(Job { node_name: name.clone(), node, command: req.command.clone() });
                    },
                    None => {
                        assert(false);
                    },
                }
                i = i + 1;
            }
            assert(job_names(jobs@) =~= names_of(targets@));
            Plan::Run(jobs)
        },
    }
}

/// The reply to a request that ran: one entry per job that reported, for its
/// first outcome, in the order the outcomes came, each under its job's node
/// name. An outcome for no job, or a job's second outcome, is left out.
pub fn assemble_response(jobs: &Vec<Job>, finished: Vec<Completion>) -> (r: Response)
    ensures
        r matches Response::Cmd(v) && v@.len() == accepted(jobs@.len() as int, finished@).len()
            && v@.len() <= jobs@.len() && (forall|k: int|
            0 <= k < v@.len() ==> (#[trigger] v@[k]).node_name@ == reply_names(jobs@, finished@)[k]
                && v@[k].data == accepted(jobs@.len() as int, finished@)[k].data) && (
        job_names(jobs@).no_duplicates() ==> forall|i: int, j: int|
            0 <= i < j < v@.len() ==> (#[trigger] v@[i]).node_name@ != (#[trigger] v@[j]).node_name@),
{
    let ghost fs = finished@;
    let ghost n = jobs@.len() as int;
    let total: usize = finished.len();
    let mut taken: Vec<bool> = Vec::new();
    while taken.len() < jobs.len()
        invariant
            taken@.len() <= jobs@.len(),
            forall|j: int| 0 <= j < taken@.len() ==> !(#[trigger] taken@[j]),
        decreases jobs@.len() - taken@.len(),
    {
        taken.push(false);
    }
    let mut rest = finished;
    let mut results: Vec<CmdReturn> = Vec::new();
    let mut i: usize = 0;
    while rest.len() > 0
        invariant
            n == jobs@.len(),
            fs.len() == total,
            i <= fs.len(),
            rest@ == fs.subrange(i as int, fs.len() as int),
            taken@.len() == n,
            forall|j: int|
                0 <= j < n ==> (#[trigger] taken@[j] <==> has_job(
                    accepted(n, fs.subrange(0, i as int)),
                    j as usize,
                )),
            results@.len() == accepted(n, fs.subrange(0, i as int)).len(),
            forall|k: int|
                0 <= k < results@.len() ==> (#[trigger] results@[k]).node_name@ == jobs@[accepted(
                    n,
                    fs.subrange(0, i as int),
                )[k].job as int].node_name@ && results@[k].data == accepted(n, fs.subrange(0, i as int))[k].data,
        decreases rest@.len(),
    {
        let ghost before = accepted(n, fs.subrange(0, i as int));
        let c = rest.remove(0);
        proof {
            assert(fs[i as int] == c);
            assert(fs.subrange(0, i + 1).drop_last() =~= fs.subrange(0, i as int));
            assert(fs.subrange(0, i + 1).last() == c);
            assert(rest@ =~= fs.subrange(i + 1, fs.len() as int));
        }
        if c.job < jobs.len() && !taken[c.job] {
            let ghost after = before.push(c);
            proof {
                assert forall|j: int| 0 <= j < n implies (#[trigger] has_job(after, j as usize) <==> (has_job(
                    before,
                    j as usize,
                ) || j == c.job)) by {
                    if has_job(after, j as usize) {
                        let k = choose|k: int| 0 <= k < after.len() && (#[trigger] after[k]).job == j as usize;
                        if k < before.len() {
                            assert(before[k] == after[k]);
                        }
                    }
                    if has_job(before, j as usize) {
                        let k = choose|k: int| 0 <= k < before.len() && (#[trigger] before[k]).job == j as usize;
                        assert(after[k] == before[k]);
                    }
                    if j == c.job {
                        assert(after[before.len() as int] == c);
                    }
                }
            }
            taken.set(c.job, true);
            let name = jobs[c.job].node_name.clone();
            results.push(CmdReturn { node_name: name, data: c.data });
        }
        i = i + 1;
    }
    proof {
        assert(fs.subrange(0, i as int) =~= fs);
        lemma_accepted_len(n, fs);
        lemma_accepted_jobs(n, fs);
        if job_names(jobs@).no_duplicates() {
            let a = accepted(n, fs);
            assert forall|p: int, q: int| 0 <= p < q < results@.len() implies (
            #[trigger] results@[p]).node_name@ != (#[trigger] results@[q]).node_name@ by {
                assert(a[p].job != a[q].job);
                assert(job_names(jobs@)[a[p].job as int] == jobs@[a[p].job as int].node_name@);
                assert(job_names(jobs@)[a[q].job as int] == jobs@[a[q].job as int].node_name@);
            }
        }
    }
    Response::Cmd(results)
}

/// A list that is strictly sorted holds each of its names once.
proof fn lemma_sorted_no_duplicates(s: Seq<Seq<char>>)
    requires
        strictly_sorted(s),
    ensures
        s.no_duplicates(),
{
    assert forall|i: int, j: int| 0 <= i < s.len() && 0 <= j < s.len() && i != j implies s[i] != s[j] by {
        if s[i] == s[j] {
            lemma_name_lt_irreflexive(s[i]);
        }
    }
}

/// A reply to a request that passed validation has no more entries than the
/// request has distinct target nodes, and each entry is for one of them, a
/// different one for each entry.
pub proof fn lemma_reply_within_targets(
    cfg: ConfigView,
    names: Seq<Seq<char>>,
    jobs: Seq<Job>,
    finished: Seq<Completion>,
)
    requires
        unknown_names(cfg, names).len() == 0,
        is_execution_order(cfg, names, job_names(jobs)),
    ensures
        reply_names(jobs, finished).len() <= cfg.expansion(names).len(),
        forall|k: int|
            0 <= k < reply_names(jobs, finished).len() ==> cfg.expansion(names).contains(
                #[trigger] reply_names(jobs, finished)[k],
            ),
        reply_names(jobs, finished).no_duplicates(),
{
    let t = job_names(jobs);
    let n = jobs.len() as int;
    let a = accepted(n, finished);
    let r = reply_names(jobs, finished);
    lemma_sorted_no_duplicates(t);
    t.unique_seq_to_set();
    lemma_accepted_jobs(n, finished);
    lemma_accepted_len(n, finished);
    assert forall|k: int| 0 <= k < r.len() implies cfg.expansion(names).contains(#[trigger] r[k]) by {
        let j = a[k].job as int;
        assert(t[j] == jobs[j].node_name@);
        assert(t.to_set().contains(t[j]));
    }
    assert forall|p: int, q: int| 0 <= p < r.len() && 0 <= q < r.len() && p != q implies r[p] != r[q] by {
        if p < q {
            assert(a[p].job != a[q].job);
        } else {
            assert(a[q].job != a[p].job);
        }
        assert(t[a[p].job as int] == r[p]);
        assert(t[a[q].job as int] == r[q]);
    }
}

} // verus!
