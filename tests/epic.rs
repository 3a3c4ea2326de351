use ghh::epic::{EpicAnalysis, LabelFinding, Logic, Step};
use ghh::github::{Issue, Label, Milestone};
use ghh::refs::Reference;

const REPO: &str = "https://github.com/org/repo";

fn settings(graph: bool) -> EpicAnalysis {
    EpicAnalysis {
        epic_id: 1,
        repo: None,
        label_component: vec!["backend".to_string()],
        label_blocked: "blocked".to_string(),
        prefix_blocked: "Blocked by".to_string(),
        graph,
    }
}

fn issue(number: u64, title: &str, body: &str, labels: &[&str], closed: bool) -> Issue {
    Issue {
        number,
        title: title.to_string(),
        assignees: vec![],
        body: body.to_string(),
        labels: labels
            .iter()
            .map(|l| Label { name: l.to_string(), color: "fff".to_string() })
            .collect(),
        milestone: None,
        closed_at: if closed { Some("2020-01-01T00:00:00Z".to_string()) } else { None },
    }
}

fn reference(number: u64) -> Reference {
    Reference {
        full_issue_url: format!("{}/issues/{}", REPO, number),
        message: String::new(),
        number,
    }
}

/// Runs the walk, answering fetches from `issues`; returns the steps and the URLs fetched.
fn walk(logic: &mut Logic, issues: &[Issue]) -> (Vec<Step>, Vec<String>) {
    let mut steps = vec![];
    let mut fetched = vec![];
    loop {
        let step = logic.next_step();
        match &step {
            Step::Fetch { url, .. } => {
                fetched.push(url.clone());
                let found = issues
                    .iter()
                    .find(|i| format!("{}/issues/{}", REPO, i.number) == *url)
                    .map(|i| Issue {
                        number: i.number,
                        title: i.title.clone(),
                        assignees: vec![],
                        body: i.body.clone(),
                        labels: i
                            .labels
                            .iter()
                            .map(|l| Label { name: l.name.clone(), color: l.color.clone() })
                            .collect(),
                        milestone: i.milestone.as_ref().map(|m| Milestone { title: m.title.clone() }),
                        closed_at: i.closed_at.clone(),
                    });
                logic.deliver(found);
            },
            Step::Done => {
                steps.push(step);
                return (steps, fetched);
            },
            _ => {},
        }
        steps.push(step);
    }
}

#[test]
fn blocker_in_body_gives_edge_and_external_marking() {
    let mut logic = Logic::new(settings(true));
    let epic = issue(1, "Epic", "Tasks:\n- #10\n- #11", &[], false);
    logic.start(epic, REPO.to_string());
    let issues = vec![
        issue(10, "A", "text\nBlocked by #11\n- #20", &["blocked"], false),
        issue(11, "B", "", &[], false),
        issue(20, "C", "", &[], false),
    ];
    let (steps, fetched) = walk(&mut logic, &issues);
    assert!(logic.issue_graph().contains(&(11, 10)));
    assert!(logic.issue_graph().contains(&(20, 10)));
    assert_eq!(logic.issue_graph().len(), 2);
    assert_eq!(logic.external_issues(), &vec![20]);
    assert_eq!(logic.internal_refs(), &vec![10, 11]);
    assert_eq!(fetched.len(), 3);
    assert!(steps.iter().any(|s| matches!(s, Step::Blocking { blocker: 11, blocked: 10 })));
    assert!(steps.iter().any(|s| matches!(s, Step::Checked { number: 10, label: None, milestone: false })));
    assert!(steps.iter().any(|s| matches!(s, Step::Checked { number: 11, label: None, milestone: false })));
}

#[test]
fn each_url_is_fetched_once() {
    let mut logic = Logic::new(settings(false));
    let epic = issue(1, "Epic", "- #10\n- #11\n- #10", &[], false);
    logic.start(epic, REPO.to_string());
    let issues = vec![
        issue(10, "A", "Blocked by #11", &[], false),
        issue(11, "B", "Blocked by #12", &[], false),
        issue(12, "C", "", &[], true),
    ];
    let (_, fetched) = walk(&mut logic, &issues);
    assert_eq!(fetched.len(), 3);
    let mut sorted = fetched.clone();
    sorted.sort();
    sorted.dedup();
    assert_eq!(sorted.len(), 3);
    let r = reference(11);
    let k = logic.cached_fetch_issue(&r).unwrap();
    assert_eq!(logic.cached_issue(k).title, "B");
    assert_eq!(logic.cached_fetch_issue(&r), Some(k));
}

#[test]
fn missing_issue_is_passed_over() {
    let mut logic = Logic::new(settings(false));
    let epic = issue(1, "Epic", "- #10\n- #13", &[], false);
    logic.start(epic, REPO.to_string());
    let issues = vec![issue(10, "A", "Blocked by #14", &[], false)];
    let (steps, fetched) = walk(&mut logic, &issues);
    assert_eq!(fetched.len(), 3);
    assert!(logic.issue_graph().is_empty());
    assert!(steps.iter().any(|s| matches!(s, Step::Checked { number: 10, .. })));
    assert!(!steps.iter().any(|s| matches!(s, Step::Checked { number: 13, .. })));
}

#[test]
fn fetch_records_closed_title_cluster_and_external() {
    let mut logic = Logic::new(settings(false));
    let r = reference(5);
    let k = logic.fetch_issue(&r, true, issue(5, "Five", "", &["backend", "ui"], true));
    assert_eq!(k, 0);
    assert_eq!(logic.closed_issues(), &vec![5]);
    assert_eq!(logic.external_issues(), &vec![5]);
    assert_eq!(logic.node_titles(), &vec![(5, "Five".to_string())]);
    assert_eq!(logic.cluster_members(), &vec![("backend".to_string(), vec![5])]);
    assert_eq!(logic.cached_fetch_issue(&r), Some(0));
    assert_eq!(logic.cached_fetch_issue(&reference(6)), None);
}

fn label_walk() -> (Logic, Vec<Step>) {
    let mut logic = Logic::new(settings(false));
    let epic = issue(1, "Epic", "- #10\n- #11\n- #12\n- #13\n- #14", &[], false);
    logic.start(epic, REPO.to_string());
    let issues = vec![
        issue(2, "open blocker", "", &[], false),
        issue(3, "closed blocker", "", &[], true),
        issue(10, "A", "Blocked by #2", &[], false),
        issue(11, "B", "Blocked by #3", &["blocked"], false),
        issue(12, "C", "", &["blocked"], false),
        issue(13, "D", "Blocked by #2", &["blocked"], false),
        issue(14, "E", "Blocked by #3\n- #3", &[], false),
    ];
    let (steps, _) = walk(&mut logic, &issues);
    (logic, steps)
}

#[test]
fn label_findings() {
    let (logic, steps) = label_walk();
    assert_eq!(logic.issue_graph(), &vec![(2, 10), (3, 11), (2, 13), (3, 14)]);
    let finding = |n: u64| {
        steps
            .iter()
            .find_map(|s| match s {
                Step::Checked { number, label, .. } if *number == n => Some(*label),
                _ => None,
            })
            .unwrap()
    };
    assert_eq!(finding(10), Some(LabelFinding::MissingLabel));
    assert_eq!(finding(11), Some(LabelFinding::StaleLabel));
    assert_eq!(finding(12), Some(LabelFinding::StaleLabel));
    assert_eq!(finding(13), None);
    assert_eq!(finding(14), None);
    assert_eq!(logic.validate_blocked_label_state(&issue(10, "A", "", &["blocked"], false)), None);
    assert_eq!(logic.validate_blocked_label_state(&issue(99, "Z", "", &[], false)), None);
}

#[test]
fn every_edge_end_has_a_title() {
    let (logic, _) = label_walk();
    for (b, a) in logic.issue_graph() {
        assert!(logic.node_titles().iter().any(|t| t.0 == *b));
        assert!(logic.node_titles().iter().any(|t| t.0 == *a));
    }
}

#[test]
fn issue_with_another_number_is_stored_under_its_url() {
    let mut logic = Logic::new(settings(false));
    logic.start(issue(1, "Epic", "- #10", &[], false), REPO.to_string());
    assert!(matches!(logic.next_step(), Step::Fetch { .. }));
    let mut odd = issue(10, "A", "", &[], true);
    odd.number = 77;
    logic.deliver(Some(odd));
    let k = logic.cached_fetch_issue(&reference(10)).unwrap();
    assert_eq!(logic.cached_issue(k).number, 77);
    assert_eq!(logic.node_titles(), &vec![(10, "A".to_string())]);
    assert_eq!(logic.closed_issues(), &vec![10]);
    assert!(matches!(logic.next_step(), Step::Checked { number: 10, .. }));
    assert!(matches!(logic.next_step(), Step::Done));
}

#[test]
fn unavailable_url_is_asked_for_once() {
    let mut logic = Logic::new(settings(false));
    logic.start(issue(1, "Epic", "- #10\n- #11\n- #10", &[], false), REPO.to_string());
    let issues = vec![issue(11, "B", "Blocked by #12\n- #12", &[], false)];
    let (steps, fetched) = walk(&mut logic, &issues);
    assert_eq!(fetched, vec![
        format!("{}/issues/10", REPO),
        format!("{}/issues/11", REPO),
        format!("{}/issues/12", REPO),
    ]);
    let skipped: Vec<&String> = steps
        .iter()
        .filter_map(|s| match s {
            Step::Skipped { url } => Some(url),
            _ => None,
        })
        .collect();
    assert_eq!(skipped, vec![&format!("{}/issues/12", REPO), &format!("{}/issues/10", REPO)]);
    assert!(logic.issue_graph().is_empty());
    assert!(steps.iter().any(|s| matches!(s, Step::Checked { number: 11, .. })));
}

#[test]
fn blockers_outside_the_epic_are_external_and_epic_issues_never() {
    let mut logic = Logic::new(settings(false));
    logic.start(issue(1, "Epic", "- #10\n- #11", &[], false), REPO.to_string());
    let issues = vec![
        issue(10, "A", "Blocked by #11\n- #30", &[], false),
        issue(11, "B", "Blocked by #10", &[], false),
        issue(30, "C", "", &[], false),
    ];
    walk(&mut logic, &issues);
    assert_eq!(logic.external_issues(), &vec![30]);
    assert_eq!(logic.issue_graph(), &vec![(11, 10), (30, 10), (10, 11)]);
}

#[test]
fn milestone_check() {
    let logic = Logic::new(settings(false));
    let mut epic = issue(1, "Epic", "", &[], false);
    let mut same = issue(2, "A", "", &[], false);
    let none = issue(3, "B", "", &[], false);
    let mut other = issue(4, "C", "", &[], false);
    assert!(!logic.validate_milestone(&epic, &none));
    epic.milestone = Some(Milestone { title: "v1".to_string() });
    same.milestone = Some(Milestone { title: "v1".to_string() });
    other.milestone = Some(Milestone { title: "v2".to_string() });
    assert!(!logic.validate_milestone(&epic, &same));
    assert!(logic.validate_milestone(&epic, &none));
    assert!(logic.validate_milestone(&epic, &other));
}

#[test]
fn unblocked_set() {
    let (logic, _) = label_walk();
    assert_eq!(logic.find_unblocked_issues(vec![10, 11, 12, 13, 14]), vec![11, 12, 14]);
}
