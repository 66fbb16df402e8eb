use forkstack::integrations::gh_stack::{
    existing_stacks, link, parse_stacks, reconcile_and_link, stack_from, unstack,
    PullRequestMembership,
};
use forkstack::integrations::runner::{CommandRunner, Recorded};

type Call = (String, Vec<String>, Vec<(String, String)>);

#[derive(Default)]
struct Runner {
    calls: Vec<Call>,
}

impl CommandRunner for Runner {
    fn run(
        &mut self,
        program: &str,
        args: &Vec<String>,
        _repo: &str,
        input: &Option<String>,
        env: &Vec<(String, String)>,
    ) -> Result<String, String> {
        assert!(input.is_none());
        self.calls.push((program.into(), args.clone(), env.clone()));
        Ok(String::new())
    }
}

#[test]
fn link_runs_for_the_published_origin_branches() {
    let mut runner = Recorded::new(Runner::default());

    link(
        &mut runner,
        "repo",
        "owner/repo",
        "origin",
        "main",
        &vec!["fs-head/topic/1".into(), "fs-head/topic/2".into()],
    )
    .unwrap();

    assert_eq!(
        runner.runner().calls,
        [(
            "gh".into(),
            [
                "stack",
                "link",
                "--remote",
                "origin",
                "--base",
                "main",
                "fs-head/topic/1",
                "fs-head/topic/2",
            ]
            .map(str::to_owned)
            .to_vec(),
            vec![("GH_REPO".into(), "owner/repo".into())],
        )]
    );
}

struct ReconcileRunner {
    response: String,
    calls: Vec<Vec<String>>,
}

impl CommandRunner for ReconcileRunner {
    fn run(
        &mut self,
        program: &str,
        args: &Vec<String>,
        _repo: &str,
        _input: &Option<String>,
        env: &Vec<(String, String)>,
    ) -> Result<String, String> {
        assert_eq!(program, "gh");
        assert!(env.contains(&("GH_REPO".into(), "owner/repo".into())));
        self.calls.push(args.clone());
        Ok(if args.starts_with(&["api".into()]) {
            self.response.clone()
        } else {
            String::new()
        })
    }
}

#[test]
fn stale_stack_is_unstacked_before_relinking() {
    let mut runner = Recorded::new(ReconcileRunner {
        response: r#"[{"number":7,"pull_requests":[101,{"number":102},103]}]"#.into(),
        calls: Vec::new(),
    });

    reconcile_and_link(
        &mut runner,
        "repo",
        "owner/repo",
        "origin",
        "main",
        &vec!["fs-head/topic/1".into(), "fs-head/topic/3".into()],
        PullRequestMembership {
            existing: &[101, 103],
            desired: &[101, 103],
        },
    )
    .unwrap();

    assert_eq!(runner.runner().calls[2], ["stack", "unstack", "7"]);
    assert!(runner.runner().calls[3].starts_with(&["stack".into(), "link".into()]));
}

#[test]
fn additive_stack_is_relinked_without_unstacking() {
    let mut runner = Recorded::new(ReconcileRunner {
        response: r#"[{"number":7,"pull_requests":[101]}]"#.into(),
        calls: Vec::new(),
    });

    reconcile_and_link(
        &mut runner,
        "repo",
        "owner/repo",
        "origin",
        "main",
        &vec!["fs-head/topic/1".into(), "fs-head/topic/2".into()],
        PullRequestMembership {
            existing: &[101],
            desired: &[101, 102],
        },
    )
    .unwrap();

    assert_eq!(runner.runner().calls.len(), 2);
    assert!(runner.runner().calls[1].starts_with(&["stack".into(), "link".into()]));
}

#[test]
fn stacks_are_read_from_the_reply() {
    let stacks =
        parse_stacks(r#"[{"number":7,"pull_requests":[101,{"number":102}]},{"number":8,"pull_requests":[]}]"#)
            .unwrap();
    assert_eq!(stacks.len(), 2);
    assert_eq!(stacks[0].number, 7);
    let mut members = stacks[0].pull_requests.clone();
    members.sort();
    assert_eq!(members, [101, 102]);
    assert_eq!(stacks[1].number, 8);
    assert!(stacks[1].pull_requests.is_empty());
    assert!(parse_stacks("[]").unwrap().is_empty());
}

#[test]
fn replies_of_another_form_are_errors() {
    assert!(parse_stacks("not json").is_err());
    assert!(parse_stacks(r#"[{"pull_requests":[1]}]"#).is_err());
    assert!(parse_stacks(r#"[{"number":7}]"#).is_err());
    assert!(parse_stacks(r#"[{"number":7,"pull_requests":["one"]}]"#).is_err());
}

#[test]
fn a_stack_needs_a_number_and_the_numbers_of_its_members() {
    let stack = stack_from(Some(3), Some(vec![Some(5), Some(6)])).unwrap();
    assert_eq!(stack.number, 3);
    assert!(stack_from(None, Some(vec![])).is_err());
    assert!(stack_from(Some(3), None).is_err());
    assert!(stack_from(Some(3), Some(vec![Some(5), None])).is_err());
}

#[test]
fn each_existing_pull_request_is_asked_for_once() {
    let mut runner = Recorded::new(ReconcileRunner {
        response: r#"[{"number":7,"pull_requests":[101,102]}]"#.into(),
        calls: Vec::new(),
    });
    let stacks = existing_stacks(&mut runner, "repo", "owner/repo", &[101, 102]).unwrap();
    assert_eq!(stacks.len(), 1);
    assert_eq!(runner.runner().calls.len(), 2);
    assert_eq!(runner.runner().calls[0][0], "api");
    assert!(runner.runner().calls[0].iter().any(|arg| arg.contains("101")));
    assert!(runner.runner().calls[1].iter().any(|arg| arg.contains("102")));
}

struct Failing;

impl CommandRunner for Failing {
    fn run(
        &mut self,
        _program: &str,
        _args: &Vec<String>,
        _repo: &str,
        _input: &Option<String>,
        _env: &Vec<(String, String)>,
    ) -> Result<String, String> {
        Err("no network".into())
    }
}

#[test]
fn errors_of_the_command_are_passed_on() {
    assert_eq!(
        unstack(&mut Recorded::new(Failing), "repo", "owner/repo", 7),
        Err("could not unstack GitHub stack #7: no network".into())
    );
    assert!(existing_stacks(&mut Recorded::new(Failing), "repo", "owner/repo", &[1]).is_err());
    assert!(link(
        &mut Recorded::new(Failing),
        "repo",
        "owner/repo",
        "origin",
        "main",
        &vec!["fs-head/a/1".into()]
    )
    .is_err());
}
