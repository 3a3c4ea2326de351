use ghh::epic::{EpicAnalysis, Logic, Step};
use ghh::github::{Issue, Label};
use ghh::render::{sanitize_title, title_segments, title_segments_at};

#[test]
fn short_title_stands_on_the_first_line() {
    let (a, b, c, d) = title_segments("Hello");
    assert_eq!((a.as_str(), b.as_str(), c.as_str(), d.as_str()), ("Hello", "", "", ""));
}

#[test]
fn long_title_is_cut_at_each_boundary() {
    let t = "abcdefghij0123456789ABCDEFGHIJklmnopqrstXYZWV";
    assert_eq!(t.len(), 45);
    let (a, b, c, d) = title_segments(t);
    assert_eq!(a, "abcdefghij");
    assert_eq!(b, "0123456789");
    assert_eq!(c, "ABCDEFGHIJ");
    assert_eq!(d, "klmnopqrst");
}

#[test]
fn middle_length_title() {
    let (a, b, c, d) = title_segments("abcdefghij0123");
    assert_eq!((a.as_str(), b.as_str(), c.as_str(), d.as_str()), ("abcdefghij", "0123", "", ""));
    let (a, b, c, d) = title_segments_at("abcdef", 2, 3, 5, 9);
    assert_eq!((a.as_str(), b.as_str(), c.as_str(), d.as_str()), ("ab", "c", "de", "f"));
}

#[test]
fn markup_is_stripped() {
    assert_eq!(sanitize_title("`a<b>c`"), "abc");
    let (a, _, _, _) = title_segments("<<Fix>> `x`");
    assert_eq!(a, "Fix x");
}

fn walk_all(logic: &mut Logic, issues: Vec<Issue>) {
    let mut pending: Vec<Option<Issue>> = issues.into_iter().map(Some).collect();
    loop {
        match logic.next_step() {
            Step::Fetch { url, .. } => {
                let found = pending
                    .iter_mut()
                    .find(|i| i.as_ref().map_or(false, |i| format!("u/issues/{}", i.number) == url))
                    .and_then(|i| i.take());
                logic.deliver(found);
            },
            Step::Done => return,
            _ => {},
        }
    }
}

#[test]
fn graph_text() {
    let mut logic = Logic::new(EpicAnalysis {
        epic_id: 1,
        repo: None,
        label_component: vec!["ui".to_string()],
        label_blocked: "blocked".to_string(),
        prefix_blocked: "Blocked by".to_string(),
        graph: true,
    });
    let mk = |n: u64, title: &str, body: &str, labels: Vec<&str>, closed: bool| Issue {
        number: n,
        title: title.to_string(),
        assignees: vec![],
        body: body.to_string(),
        labels: labels.into_iter().map(|l| Label { name: l.to_string(), color: String::new() }).collect(),
        milestone: None,
        closed_at: if closed { Some("x".to_string()) } else { None },
    };
    logic.start(mk(1, "Epic", "- #10\n- #11", vec![], false), "u".to_string());
    walk_all(&mut logic, vec![
        mk(10, "Ten", "Blocked by #11", vec!["ui"], false),
        mk(11, "Eleven", "Blocked by #12", vec![], false),
        mk(12, "Twelve", "", vec![], true),
    ]);
    let unblocked = logic.find_unblocked_issues(vec![10, 11]);
    assert_eq!(unblocked, vec![11]);
    let text = logic.build_graph(&unblocked);
    let expected = "digraph { \n\
11 -> 10;\n\
12 -> 11;\n\
subgraph \"clusterui\" {\n\
10;\n\
label=\"ui\";\n\
}\n\
10 [style=filled,color=indianred1,label=<issue #10<BR /><FONT POINT-SIZE='12' color='gray20'>Ten<BR /><BR /><BR /></FONT>>]\n\
11 [label=<issue #11<BR /><FONT POINT-SIZE='12' color='gray20'>Eleven<BR /><BR /><BR /></FONT>>]\n\
12 [style=filled,color=gray90,label=<EXTERNAL<BR/> issue #12<BR /><FONT POINT-SIZE='12' color='gray20'>Twelve<BR /><BR /><BR /></FONT>>]\n\
} \n";
    assert_eq!(text, expected);
}

#[test]
fn decimal_numbers() {
    let mut s = String::from("n=");
    ghh::render::push_decimal(&mut s, 0);
    ghh::render::push_decimal(&mut s, 1234567890);
    assert_eq!(s, "n=01234567890");
    let mut m = String::new();
    ghh::render::push_decimal(&mut m, u64::MAX);
    assert_eq!(m, "18446744073709551615");
}
