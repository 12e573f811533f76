use ovium::handlers::{
    assemble_response, expand_targets, plan_request, validate_request, Completion, Plan,
};
use ovium::server::ServerConfig;
use ovium::types::{CmdRequest, Node, Response, ResponseError, SshReturn, SshSuccess};

fn node(ip: &str) -> Node {
    Node::with_defaults(ip.to_string(), None, None)
}

fn names(v: &[&str]) -> Vec<String> {
    v.iter().map(|s| s.to_string()).collect()
}

fn two_nodes() -> Vec<(String, Node)> {
    vec![
        ("alpha".to_string(), node("10.0.0.1")),
        ("beta".to_string(), node("10.0.0.2")),
    ]
}

fn config_with_web() -> ServerConfig {
    ServerConfig::new(two_nodes(), vec![("web".to_string(), names(&["alpha", "beta"]))]).unwrap()
}

fn request(nodes: &[&str], command: &str) -> CmdRequest {
    CmdRequest { nodes: names(nodes), command: command.to_string() }
}

fn hi() -> SshReturn {
    SshReturn::SshSuccess(SshSuccess::from_streams("hi\n".to_string(), String::new(), 0))
}

fn run_all(plan: Plan, outcome: impl Fn(&str) -> SshReturn) -> Response {
    match plan {
        Plan::Run(jobs) => {
            let finished: Vec<Completion> = jobs
                .iter()
                .enumerate()
                .map(|(i, j)| Completion { job: i, data: outcome(&j.node_name) })
                .collect();
            assemble_response(&jobs, finished)
        }
        Plan::Reject(r) => r,
    }
}

#[test]
fn happy_path_two_nodes() {
    let config = ServerConfig::new(two_nodes(), vec![]).unwrap();
    let plan = plan_request(&config, &request(&["alpha", "beta"], "echo hi"));
    match &plan {
        Plan::Run(jobs) => {
            assert_eq!(jobs.len(), 2);
            assert_eq!(jobs[0].node.ip, "10.0.0.1");
            assert_eq!(jobs[0].node.port, 22);
            assert_eq!(jobs[0].node.user, "root");
            assert_eq!(jobs[1].command, "echo hi");
        }
        Plan::Reject(_) => panic!("request should run"),
    }
    let response = run_all(plan, |_| hi());
    match response {
        Response::Cmd(results) => {
            let mut got: Vec<String> = results.iter().map(|r| r.node_name.clone()).collect();
            got.sort();
            assert_eq!(got, names(&["alpha", "beta"]));
            for r in &results {
                assert!(r.succeeded());
                assert_eq!(r.data, hi());
                match &r.data {
                    SshReturn::SshSuccess(s) => {
                        assert_eq!(s.stdout, Some("hi\n".to_string()));
                        assert_eq!(s.stderr, None);
                        assert_eq!(s.exit_status, 0);
                    }
                    SshReturn::SshFailure(_) => panic!("expected success"),
                }
            }
        }
        Response::Error(_) => panic!("expected results"),
    }
}

#[test]
fn group_expansion() {
    let config = config_with_web();
    let targets = expand_targets(&config, &names(&["web"]));
    assert_eq!(targets, names(&["alpha", "beta"]));
    let response = run_all(plan_request(&config, &request(&["web"], "true")), |_| hi());
    match response {
        Response::Cmd(results) => assert_eq!(results.len(), 2),
        Response::Error(_) => panic!("expected results"),
    }
}

#[test]
fn duplicate_and_overlap() {
    let config = config_with_web();
    let targets = expand_targets(&config, &names(&["alpha", "web", "alpha"]));
    assert_eq!(targets, names(&["alpha", "beta"]));
    let response = run_all(plan_request(&config, &request(&["alpha", "web", "alpha"], "true")), |_| hi());
    match response {
        Response::Cmd(results) => {
            assert_eq!(results.len(), 2);
            let alphas = results.iter().filter(|r| r.node_name == "alpha").count();
            assert_eq!(alphas, 1);
        }
        Response::Error(_) => panic!("expected results"),
    }
}

#[test]
fn unknown_name_is_rejected() {
    let config = config_with_web();
    let req = request(&["alpha", "gamma"], "true");
    assert_eq!(
        validate_request(&config, &req),
        Err(ResponseError::UnknownNodes(names(&["gamma"])))
    );
    match plan_request(&config, &req) {
        Plan::Reject(r) => {
            assert_eq!(r, Response::Error(ResponseError::UnknownNodes(names(&["gamma"]))));
        }
        Plan::Run(_) => panic!("no job may run"),
    }
}

#[test]
fn unknown_names_keep_request_order() {
    let config = config_with_web();
    let req = request(&["zeta", "alpha", "gamma", "zeta"], "true");
    assert_eq!(
        validate_request(&config, &req),
        Err(ResponseError::UnknownNodes(names(&["zeta", "gamma", "zeta"])))
    );
    assert_eq!(validate_request(&config, &request(&["web", "beta"], "x")), Ok(()));
}

#[test]
fn mixed_transport_failure() {
    let config = config_with_web();
    let response = run_all(plan_request(&config, &request(&["alpha", "beta"], "true")), |n| {
        if n == "alpha" {
            SshReturn::from_outcome(Ok(SshSuccess::from_streams(String::new(), String::new(), 0)))
        } else {
            SshReturn::from_outcome(Err("connection refused".to_string()))
        }
    });
    match response {
        Response::Cmd(results) => {
            assert_eq!(results.len(), 2);
            let alpha = results.iter().find(|r| r.node_name == "alpha").unwrap();
            let beta = results.iter().find(|r| r.node_name == "beta").unwrap();
            assert!(alpha.succeeded());
            assert!(!beta.succeeded());
            assert_eq!(beta.data, SshReturn::SshFailure("connection refused".to_string()));
        }
        Response::Error(_) => panic!("expected results"),
    }
}

#[test]
fn nonzero_exit_is_not_success() {
    let config = config_with_web();
    let response = run_all(plan_request(&config, &request(&["alpha"], "false")), |_| {
        SshReturn::SshSuccess(SshSuccess::from_streams(String::new(), "no\n".to_string(), 1))
    });
    match response {
        Response::Cmd(results) => {
            assert_eq!(results.len(), 1);
            assert!(!results[0].succeeded());
        }
        Response::Error(_) => panic!("expected results"),
    }
}

#[test]
fn reply_has_at_most_one_entry_per_target() {
    let config = config_with_web();
    let plan = plan_request(&config, &request(&["web"], "true"));
    let jobs = match plan {
        Plan::Run(jobs) => jobs,
        Plan::Reject(_) => panic!("request should run"),
    };
    let finished = vec![
        Completion { job: 1, data: hi() },
        Completion { job: 7, data: hi() },
        Completion { job: 0, data: hi() },
        Completion { job: 1, data: hi() },
    ];
    match assemble_response(&jobs, finished) {
        Response::Cmd(results) => {
            assert_eq!(results.len(), 2);
            assert_eq!(results[0].node_name, "beta");
            assert_eq!(results[1].node_name, "alpha");
        }
        Response::Error(_) => panic!("expected results"),
    }
}

#[test]
fn missing_outcomes_are_absent() {
    let config = config_with_web();
    let jobs = match plan_request(&config, &request(&["alpha", "beta"], "true")) {
        Plan::Run(jobs) => jobs,
        Plan::Reject(_) => panic!("request should run"),
    };
    match assemble_response(&jobs, vec![Completion { job: 1, data: hi() }]) {
        Response::Cmd(results) => {
            assert_eq!(results.len(), 1);
            assert_eq!(results[0].node_name, "beta");
        }
        Response::Error(_) => panic!("expected results"),
    }
}

#[test]
fn expansion_is_sorted_by_bytes_without_repeats() {
    let nodes = vec![
        ("b".to_string(), node("1")),
        ("a".to_string(), node("2")),
        ("B".to_string(), node("3")),
        ("ab".to_string(), node("4")),
        ("é".to_string(), node("5")),
    ];
    let groups = vec![("g".to_string(), names(&["ab", "b", "a"]))];
    let config = ServerConfig::new(nodes, groups).unwrap();
    let targets = expand_targets(&config, &names(&["é", "g", "B", "a", "g"]));
    assert_eq!(targets, names(&["B", "a", "ab", "b", "é"]));
}

#[test]
fn empty_request_runs_nothing() {
    let config = config_with_web();
    assert!(expand_targets(&config, &Vec::new()).is_empty());
    match run_all(plan_request(&config, &request(&[], "true")), |_| hi()) {
        Response::Cmd(results) => assert!(results.is_empty()),
        Response::Error(_) => panic!("expected results"),
    }
}

#[test]
fn second_outcome_of_a_job_is_dropped() {
    let config = config_with_web();
    let jobs = match plan_request(&config, &request(&["alpha", "beta"], "true")) {
        Plan::Run(jobs) => jobs,
        Plan::Reject(_) => panic!("request should run"),
    };
    let failed = SshReturn::SshFailure("late".to_string());
    let finished = vec![
        Completion { job: 0, data: hi() },
        Completion { job: 0, data: failed },
    ];
    match assemble_response(&jobs, finished) {
        Response::Cmd(results) => {
            assert_eq!(results.len(), 1);
            assert_eq!(results[0].node_name, "alpha");
            assert_eq!(results[0].data, hi());
        }
        Response::Error(_) => panic!("expected results"),
    }
}
