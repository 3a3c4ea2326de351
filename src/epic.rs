use vstd::prelude::*;

use crate::github::{Issue, Label};
use crate::refs::{extracted, token_starts, LocalRefExtractor, Reference};
use crate::text::{blocked_by_block, blocked_by_lines, views};

verus! {

/// Settings of one analysis of an epic.
pub struct EpicAnalysis {
    pub epic_id: i32,
    pub repo: Option<String>,
    /// Labels that group issues into clusters when the graph is drawn.
    pub label_component: Vec<String>,
    /// The label that marks an issue as blocked.
    pub label_blocked: String,
    /// Text at the start of the line that opens the list of blockers.
    pub prefix_blocked: String,
    /// Whether the graph is drawn.
    pub graph: bool,
}

/// A disagreement between an issue's blocked label and the graph.
#[derive(PartialEq, Eq, Structural, Debug, Clone, Copy)]
pub enum LabelFinding {
    /// The issue has an open blocker but not the label.
    MissingLabel,
    /// The issue has the label but no open blocker.
    StaleLabel,
}

/// The state of one analysis: the issues fetched so far, keyed by URL, what was learnt
/// from them, and the graph of blockers.
pub struct Logic {
    cmd: EpicAnalysis,
    node_titles: Vec<(u64, String)>,
    cluster_members: Vec<(String, Vec<u64>)>,
    issue_graph: Vec<(u64, u64)>,
    closed_issues: Vec<u64>,
    issues_outside_milestone: Vec<u64>,
    issue_cache: Vec<(String, Issue)>,
    epic: Option<Issue>,
    repo_url: String,
    refs: Vec<Reference>,
    internal: Vec<u64>,
    phase: Phase,
    pos: usize,
    current: usize,
    blockers: Vec<Reference>,
    bpos: usize,
    /// URLs whose issue could not be had; never asked for again.
    unavailable: Vec<String>,
    /// The same URLs, as a set.
    skipped: Ghost<Set<Seq<char>>>,
    /// The blocker lists of the epic's references walked so far.
    walked: Ghost<Seq<Seq<Reference>>>,
}

/// Where the walk over the epic stands.
#[derive(PartialEq, Eq, Structural, Debug, Clone, Copy)]
pub enum Phase {
    /// No epic yet.
    Idle,
    /// At the epic's reference `pos`, whose issue is still to be had.
    Direct,
    /// At the blocker `bpos` of the epic's reference `pos`.
    Blockers,
    /// Every reference of the epic was handled.
    Finished,
}

/// What the walk asks of its caller, or reports.
pub enum Step {
    /// Fetch the issue at `url` and hand it over with `deliver`.
    Fetch { url: String, external: bool },
    /// `blocker` was recorded as blocking `blocked`.
    Blocking { blocker: u64, blocked: u64 },
    /// The issue `number` of the epic was checked: `label` is the finding on its blocked
    /// label, `milestone` whether it strays from the epic's milestone.
    Checked { number: u64, label: Option<LabelFinding>, milestone: bool },
    /// The issue at `url` could not be had before; the reference to it was passed over
    /// without asking again.
    Skipped { url: String },
    /// Nothing is left to do.
    Done,
}

pub open spec fn is_component(cmd: &EpicAnalysis, name: Seq<char>) -> bool {
    exists|i: int| 0 <= i < cmd.label_component@.len() && #[trigger] cmd.label_component@[i]@ == name
}

/// Whether `issue` and the epic disagree on the milestone: the epic has one and the
/// issue has none or another.
pub open spec fn milestone_mismatch(epic: &Issue, issue: &Issue) -> bool {
    match epic.milestone {
        None => false,
        Some(m) => match issue.milestone {
            None => true,
            Some(mi) => mi.title@ != m.title@,
        },
    }
}

/// The finding for an issue, given whether it has an open blocker and whether it
/// carries the blocked label.
pub open spec fn label_finding(blocked: bool, labelled: bool) -> Option<LabelFinding> {
    if blocked && !labelled {
        Some(LabelFinding::MissingLabel)
    } else if !blocked && labelled {
        Some(LabelFinding::StaleLabel)
    } else {
        None
    }
}

pub open spec fn distinct_urls(s: Seq<(String, Issue)>) -> bool {
    forall|i: int, j: int| 0 <= i < j < s.len() ==> #[trigger] s[i].0@ != #[trigger] s[j].0@
}

pub open spec fn distinct_numbers(s: Seq<(u64, String)>) -> bool {
    forall|i: int, j: int| 0 <= i < j < s.len() ==> #[trigger] s[i].0 != #[trigger] s[j].0
}

/// Some element of `v` reads `u`.
pub open spec fn listed_url(v: Seq<String>, u: Seq<char>) -> bool {
    exists|i: int| 0 <= i < v.len() && #[trigger] v[i]@ == u
}

pub open spec fn distinct_edges(s: Seq<(u64, u64)>) -> bool {
    forall|i: int, j: int| 0 <= i < j < s.len() ==> #[trigger] s[i] != #[trigger] s[j]
}

pub open spec fn distinct_labels(s: Seq<(String, Vec<u64>)>) -> bool {
    forall|i: int, j: int| 0 <= i < j < s.len() ==> #[trigger] s[i].0@ != #[trigger] s[j].0@
}

/// The clusters as label names with their members.
pub open spec fn cluster_view(cs: Seq<(String, Vec<u64>)>) -> Seq<(Seq<char>, Seq<u64>)> {
    cs.map_values(|c: (String, Vec<u64>)| (c.0@, c.1@))
}

/// Index of the first cluster from `i` on named `name`, or the count of clusters.
pub open spec fn label_index(v: Seq<(Seq<char>, Seq<u64>)>, name: Seq<char>, i: int) -> int
    decreases v.len() - i,
{
    if i < 0 || i >= v.len() {
        v.len() as int
    } else if v[i].0 == name {
        i
    } else {
        label_index(v, name, i + 1)
    }
}

/// `v` with `n` added to the cluster `name`: at the end of its members unless it is
/// one already, or in a new cluster at the end.
pub open spec fn add_member(v: Seq<(Seq<char>, Seq<u64>)>, name: Seq<char>, n: u64) -> Seq<(Seq<char>, Seq<u64>)> {
    let k = label_index(v, name, 0);
    if k < v.len() {
        v.update(k, (name, if v[k].1.contains(n) { v[k].1 } else { v[k].1.push(n) }))
    } else {
        v.push((name, seq![n]))
    }
}

/// `v` with `n` added, label after label, to the cluster of each component label.
pub open spec fn add_to_clusters(
    v: Seq<(Seq<char>, Seq<u64>)>,
    labels: Seq<Label>,
    cmd: EpicAnalysis,
    n: u64,
) -> Seq<(Seq<char>, Seq<u64>)>
    decreases labels.len(),
{
    if labels.len() == 0 {
        v
    } else {
        let w = add_to_clusters(v, labels.drop_last(), cmd, n);
        if is_component(&cmd, labels.last().name@) {
            add_member(w, labels.last().name@, n)
        } else {
            w
        }
    }
}

impl Logic {
    /// URLs in the cache are distinct; so are titled numbers, cluster labels and edges;
    /// both ends of every edge have a title.
    pub open spec fn wf(&self) -> bool {
        &&& distinct_urls(self.cache())
        &&& distinct_numbers(self.titles())
        &&& distinct_labels(self.clusters())
        &&& distinct_edges(self.edges())
        &&& self.nodes_titled()
    }

    /// Both ends of every edge of the graph have a title.
    pub open spec fn nodes_titled(&self) -> bool {
        forall|e: (u64, u64)| #[trigger] self.edges().contains(e) ==> self.has_title(e.0) && self.has_title(e.1)
    }

    pub closed spec fn settings(&self) -> EpicAnalysis {
        self.cmd
    }

    /// Fetched issues with their URLs, in the order of fetching.
    pub closed spec fn cache(&self) -> Seq<(String, Issue)> {
        self.issue_cache@
    }

    pub closed spec fn closed(&self) -> Seq<u64> {
        self.closed_issues@
    }

    /// Issues found only as blockers of issues of the epic.
    pub closed spec fn external(&self) -> Seq<u64> {
        self.issues_outside_milestone@
    }

    /// Edges of the graph, blocker first.
    pub closed spec fn edges(&self) -> Seq<(u64, u64)> {
        self.issue_graph@
    }

    pub closed spec fn titles(&self) -> Seq<(u64, String)> {
        self.node_titles@
    }

    pub closed spec fn clusters(&self) -> Seq<(String, Vec<u64>)> {
        self.cluster_members@
    }

    pub closed spec fn phase(&self) -> Phase {
        self.phase
    }

    /// The epic's own references, in the order of its text.
    pub closed spec fn direct_refs(&self) -> Seq<Reference> {
        self.refs@
    }

    /// The numbers of the epic's own references.
    pub closed spec fn internal(&self) -> Seq<u64> {
        self.internal@
    }

    pub closed spec fn epic_issue(&self) -> Option<Issue> {
        self.epic
    }

    pub closed spec fn repo(&self) -> Seq<char> {
        self.repo_url@
    }

    /// Index of the epic's reference at hand.
    pub closed spec fn position(&self) -> int {
        self.pos as int
    }

    /// The blockers of the epic's reference at hand.
    pub closed spec fn blocker_list(&self) -> Seq<Reference> {
        self.blockers@
    }

    pub closed spec fn blocker_position(&self) -> int {
        self.bpos as int
    }

    /// Where the issue of the epic's reference at hand stands in the cache.
    pub closed spec fn current_index(&self) -> int {
        self.current as int
    }

    pub open spec fn current_issue(&self) -> Issue {
        self.cache()[self.current_index()].1
    }

    /// The walk's own bookkeeping is consistent: the numbers of the epic's references
    /// are kept beside them, and while blockers are walked they are those of the issue
    /// at hand.
    pub closed spec fn walk_wf(&self) -> bool {
        &&& self.internal@.len() == self.refs@.len()
        &&& forall|k: int| 0 <= k < self.refs@.len() ==> #[trigger] self.internal@[k] == self.refs@[k].number
        &&& self.pos <= self.refs@.len()
        &&& self.phase != Phase::Idle ==> self.epic is Some
        &&& self.phase == Phase::Idle ==> self.pos == 0
        &&& forall|u: Seq<char>| #[trigger] self.skipped@.contains(u) <==> listed_url(self.unavailable@, u)
        &&& forall|n: u64| #[trigger] self.issues_outside_milestone@.contains(n) ==> !self.internal@.contains(n)
        &&& self.phase == Phase::Blockers ==> {
            &&& self.pos < self.refs@.len()
            &&& self.bpos <= self.blockers@.len()
            &&& self.current < self.issue_cache@.len()
            &&& self.issue_cache@[self.current as int].0@ == self.refs@[self.pos as int].full_issue_url@
            &&& refs_of_lines(
                blocked_by_block(self.issue_cache@[self.current as int].1.body@, self.cmd.prefix_blocked@),
                self.repo_url@,
                self.blockers@,
            )
            &&& self.has_title(self.refs@[self.pos as int].number)
            &&& forall|j: int| 0 <= j < self.bpos ==> #[trigger] self.edge_or_skipped(self.blockers@[j], self.refs@[self.pos as int].number)
        }
        &&& self.edges_listed()
        &&& self.phase == Phase::Finished ==> self.pos == self.refs@.len()
        &&& self.walked@.len() == self.pos
        &&& forall|p: int| 0 <= p < self.pos ==> #[trigger] self.walked_ok(p)
    }

    /// URLs whose issue could not be had.
    pub closed spec fn skipped(&self) -> Set<Seq<char>> {
        self.skipped@
    }

    /// The blocker lists of the epic's references walked so far, in order.
    pub closed spec fn walked(&self) -> Seq<Seq<Reference>> {
        self.walked@
    }

    /// `e` runs from a blocker listed for one of the epic's references to that reference:
    /// one walked already, or the one at hand.
    pub open spec fn listed_edge(&self, e: (u64, u64)) -> bool {
        ||| exists|p: int, j: int|
            0 <= p < self.walked().len() && 0 <= j < self.walked()[p].len() && e == (
                #[trigger] self.walked()[p][j].number,
                self.direct_refs()[p].number,
            )
        ||| self.phase() == Phase::Blockers && exists|j: int|
            0 <= j < self.blocker_position() && e == (
                #[trigger] self.blocker_list()[j].number,
                self.direct_refs()[self.position()].number,
            )
    }

    /// Every edge of the graph is a listed one.
    pub open spec fn edges_listed(&self) -> bool {
        forall|e: (u64, u64)| #[trigger] self.edges().contains(e) ==> self.listed_edge(e)
    }

    /// `b` blocks `a` in the graph and is marked external unless the epic references its
    /// number, or `b`'s issue could not be had.
    pub open spec fn edge_or_skipped(&self, b: Reference, a: u64) -> bool {
        ||| self.edges().contains((b.number, a)) && (self.internal().contains(b.number)
            || self.external().contains(b.number))
        ||| self.skipped().contains(b.full_issue_url@)
    }

    /// The epic's reference `p` was walked: its issue could not be had and it has no
    /// blockers, or its issue is cached, its blockers are those of the issue's
    /// blocked-by block, and each is an edge towards it unless it could not be had.
    pub open spec fn walked_ok(&self, p: int) -> bool {
        let r = self.direct_refs()[p];
        let w = self.walked()[p];
        ||| self.skipped().contains(r.full_issue_url@) && w.len() == 0
        ||| {
            &&& exists|k: int|
                0 <= k < self.cache().len() && #[trigger] self.cache()[k].0@ == r.full_issue_url@
                    && refs_of_lines(
                    blocked_by_block(self.cache()[k].1.body@, self.settings().prefix_blocked@),
                    self.repo(),
                    w,
                )
            &&& forall|j: int| 0 <= j < w.len() ==> #[trigger] self.edge_or_skipped(w[j], r.number)
        }
    }

    /// The reference whose issue the walk waits for, and whether it lies outside the epic.
    pub open spec fn awaited(&self) -> Option<(Reference, bool)> {
        if self.phase() == Phase::Direct && self.position() < self.direct_refs().len()
            && !self.is_cached(self.direct_refs()[self.position()].full_issue_url@)
            && !self.skipped().contains(self.direct_refs()[self.position()].full_issue_url@) {
            Some((self.direct_refs()[self.position()], false))
        } else if self.phase() == Phase::Blockers && self.blocker_position() < self.blocker_list().len()
            && !self.is_cached(self.blocker_list()[self.blocker_position()].full_issue_url@)
            && !self.skipped().contains(self.blocker_list()[self.blocker_position()].full_issue_url@) {
            let b = self.blocker_list()[self.blocker_position()];
            Some((b, !self.internal().contains(b.number)))
        } else {
            None
        }
    }

    /// The walk's state is unchanged between `self` and `other`.
    pub open spec fn same_walk(&self, other: &Logic) -> bool {
        &&& self.phase() == other.phase()
        &&& self.direct_refs() == other.direct_refs()
        &&& self.internal() == other.internal()
        &&& self.epic_issue() == other.epic_issue()
        &&& self.repo() == other.repo()
        &&& self.position() == other.position()
        &&& self.blocker_list() == other.blocker_list()
        &&& self.blocker_position() == other.blocker_position()
        &&& self.current_index() == other.current_index()
        &&& self.skipped() == other.skipped()
        &&& self.walked() == other.walked()
    }

    pub open spec fn is_cached(&self, url: Seq<char>) -> bool {
        exists|k: int| 0 <= k < self.cache().len() && #[trigger] self.cache()[k].0@ == url
    }

    pub open spec fn has_title(&self, n: u64) -> bool {
        exists|k: int| 0 <= k < self.titles().len() && #[trigger] self.titles()[k].0 == n
    }

    /// Issue `n` sits in the cluster of label `name`.
    pub open spec fn in_cluster(&self, name: Seq<char>, n: u64) -> bool {
        exists|k: int|
            0 <= k < self.clusters().len() && #[trigger] self.clusters()[k].0@ == name
                && self.clusters()[k].1@.contains(n)
    }

    /// Some open issue blocks issue `n`.
    pub open spec fn blocked_spec(&self, n: u64) -> bool {
        exists|e: (u64, u64)| #[trigger] self.edges().contains(e) && e.1 == n && !self.closed().contains(e.0)
    }

    /// The walked references stay walked while the cache, the graph and the skipped
    /// URLs only grow.
    proof fn lemma_walked_grow(a: Logic, b: Logic)
        requires
            b.refs@ == a.refs@,
            forall|p: int| 0 <= p < a.pos ==> #[trigger] b.walked@[p] == a.walked@[p],
            b.cmd == a.cmd,
            b.repo_url@ == a.repo_url@,
            a.walked@.len() >= a.pos,
            b.walked@.len() >= a.pos,
            a.issue_cache@.len() <= b.issue_cache@.len(),
            forall|k: int| 0 <= k < a.issue_cache@.len() ==> #[trigger] b.issue_cache@[k] == a.issue_cache@[k],
            forall|e: (u64, u64)| #[trigger] a.issue_graph@.contains(e) ==> b.issue_graph@.contains(e),
            a.skipped@.subset_of(b.skipped@),
            b.internal@ == a.internal@,
            forall|n: u64| #[trigger] a.issues_outside_milestone@.contains(n) ==> b.issues_outside_milestone@.contains(n),
            forall|p: int| 0 <= p < a.pos ==> #[trigger] a.walked_ok(p),
        ensures
            forall|p: int| 0 <= p < a.pos ==> #[trigger] b.walked_ok(p),
    {
        assert forall|p: int| 0 <= p < a.pos implies #[trigger] b.walked_ok(p) by {
            assert(a.walked_ok(p));
            let r = a.refs@[p];
            let w = a.walked@[p];
            assert(b.walked@[p] == w);
            if a.skipped@.contains(r.full_issue_url@) && w.len() == 0 {
            } else {
                let k = choose|k: int|
                    0 <= k < a.cache().len() && #[trigger] a.cache()[k].0@ == r.full_issue_url@
                        && refs_of_lines(
                        blocked_by_block(a.cache()[k].1.body@, a.settings().prefix_blocked@),
                        a.repo(),
                        w,
                    );
                assert(b.cache()[k] == a.cache()[k]);
                assert forall|j: int| 0 <= j < w.len() implies #[trigger] b.edge_or_skipped(w[j], r.number) by {
                    assert(a.edge_or_skipped(w[j], r.number));
                }
            }
        }
    }

    /// The blockers walked so far stay edges or skipped while the graph and the skipped
    /// URLs only grow.
    proof fn lemma_blockers_grow(a: Logic, b: Logic, upto: int)
        requires
            b.refs@ == a.refs@,
            b.pos == a.pos,
            b.blockers@ == a.blockers@,
            a.pos < a.refs@.len(),
            forall|e: (u64, u64)| #[trigger] a.issue_graph@.contains(e) ==> b.issue_graph@.contains(e),
            a.skipped@.subset_of(b.skipped@),
            b.internal@ == a.internal@,
            forall|n: u64| #[trigger] a.issues_outside_milestone@.contains(n) ==> b.issues_outside_milestone@.contains(n),
            forall|j: int| 0 <= j < upto ==> #[trigger] a.edge_or_skipped(a.blockers@[j], a.refs@[a.pos as int].number),
        ensures
            forall|j: int| 0 <= j < upto ==> #[trigger] b.edge_or_skipped(b.blockers@[j], b.refs@[b.pos as int].number),
    {
        assert forall|j: int| 0 <= j < upto implies #[trigger] b.edge_or_skipped(b.blockers@[j], b.refs@[b.pos as int].number) by {
            assert(a.edge_or_skipped(a.blockers@[j], a.refs@[a.pos as int].number));
        }
    }

    /// Listed edges stay listed while the walk goes on: walked lists are kept, and the
    /// list at hand is either still walked or has become the last walked one.
    proof fn lemma_listed_grow(a: Logic, b: Logic)
        requires
            a.walk_wf(),
            b.refs@ == a.refs@,
            a.walked@.len() <= b.walked@.len(),
            forall|p: int| 0 <= p < a.walked@.len() ==> #[trigger] b.walked@[p] == a.walked@[p],
            a.phase == Phase::Blockers ==> {
                ||| b.phase == Phase::Blockers && b.pos == a.pos && b.blockers@ == a.blockers@
                    && a.bpos <= b.bpos
                ||| a.pos < b.walked@.len() && b.walked@[a.pos as int] == a.blockers@
            },
        ensures
            forall|e: (u64, u64)| a.listed_edge(e) ==> #[trigger] b.listed_edge(e),
            b.edges() == a.edges() ==> b.edges_listed(),
    {
        assert forall|e: (u64, u64)| a.listed_edge(e) implies #[trigger] b.listed_edge(e) by {
            if exists|p: int, j: int|
                0 <= p < a.walked().len() && 0 <= j < a.walked()[p].len() && e == (
                    #[trigger] a.walked()[p][j].number,
                    a.direct_refs()[p].number,
                ) {
                let (p, j) = choose|p: int, j: int|
                    0 <= p < a.walked().len() && 0 <= j < a.walked()[p].len() && e == (
                        #[trigger] a.walked()[p][j].number,
                        a.direct_refs()[p].number,
                    );
                assert(b.walked()[p][j] == a.walked()[p][j]);
            } else {
                let j = choose|j: int|
                    0 <= j < a.blocker_position() && e == (
                        #[trigger] a.blocker_list()[j].number,
                        a.direct_refs()[a.position()].number,
                    );
                if b.phase == Phase::Blockers && b.pos == a.pos && b.blockers@ == a.blockers@ && a.bpos <= b.bpos {
                    assert(b.blocker_list()[j] == a.blocker_list()[j]);
                } else {
                    let p = a.pos as int;
                    assert(b.walked()[p][j] == a.blocker_list()[j]);
                }
            }
        }
        if b.edges() == a.edges() {
            assert forall|e: (u64, u64)| #[trigger] b.edges().contains(e) implies b.listed_edge(e) by {
                assert(a.edges().contains(e));
                assert(a.listed_edge(e));
            }
        }
    }

    /// Whatever the walk had done stays done when only the cache, the graph and the
    /// skipped URLs grow.
    proof fn lemma_walk_grows(a: Logic, b: Logic)
        requires
            a.walk_wf(),
            b.refs@ == a.refs@,
            b.internal@ == a.internal@,
            b.walked == a.walked,
            b.cmd == a.cmd,
            b.repo_url@ == a.repo_url@,
            b.pos == a.pos,
            b.phase == a.phase,
            b.epic == a.epic,
            b.blockers@ == a.blockers@,
            b.bpos == a.bpos,
            b.current == a.current,
            a.issue_cache@.len() <= b.issue_cache@.len(),
            forall|k: int| 0 <= k < a.issue_cache@.len() ==> #[trigger] b.issue_cache@[k] == a.issue_cache@[k],
            b.issue_graph@ == a.issue_graph@,
            b.skipped == a.skipped,
            b.unavailable@ == a.unavailable@,
            forall|n: u64| a.has_title(n) ==> #[trigger] b.has_title(n),
            forall|n: u64| #[trigger] a.issues_outside_milestone@.contains(n) ==> b.issues_outside_milestone@.contains(n),
            forall|n: u64| #[trigger] b.issues_outside_milestone@.contains(n) ==> a.issues_outside_milestone@.contains(n)
                || !a.internal@.contains(n),
        ensures
            b.walk_wf(),
    {
        Logic::lemma_walked_grow(a, b);
        Logic::lemma_listed_grow(a, b);
        if a.phase == Phase::Blockers {
            Logic::lemma_blockers_grow(a, b, a.bpos as int);
            assert(b.issue_cache@[b.current as int] == a.issue_cache@[a.current as int]);
        }
    }


    pub fn new(cmd: EpicAnalysis) -> (r: Self)
        ensures
            r.wf(),
            r.settings() == cmd,
            r.cache().len() == 0,
            r.closed().len() == 0,
            r.external().len() == 0,
            r.edges().len() == 0,
            r.titles().len() == 0,
            r.clusters().len() == 0,
            r.phase() == Phase::Idle,
            r.walk_wf(),
    {
        Logic {
            cmd,
            node_titles: Vec::new(),
            cluster_members: Vec::new(),
            issue_graph: Vec::new(),
            closed_issues: Vec::new(),
            issues_outside_milestone: Vec::new(),
            issue_cache: Vec::new(),
            epic: None,
            repo_url: String::new(),
            refs: Vec::new(),
            internal: Vec::new(),
            phase: Phase::Idle,
            pos: 0,
            current: 0,
            blockers: Vec::new(),
            bpos: 0,
            unavailable: Vec::new(),
            skipped: Ghost(Set::empty()),
            walked: Ghost(Seq::empty()),
        }
    }

    /// Where the issue of `r` stands in the cache, if it was fetched already.
    pub fn cached_fetch_issue(&self, r: &Reference) -> (res: Option<usize>)
        ensures
            res is None <==> !self.is_cached(r.full_issue_url@),
            res matches Some(k) ==> k < self.cache().len() && self.cache()[k as int].0@
                == r.full_issue_url@,
    {
        let mut k: usize = 0;
        while k < self.issue_cache.len()
            invariant
                k <= self.issue_cache@.len(),
                forall|j: int| 0 <= j < k ==> #[trigger] self.issue_cache@[j].0@ != r.full_issue_url@,
            decreases self.issue_cache@.len() - k,
        {
            if self.issue_cache[k].0 == r.full_issue_url {
                return Some(k);
            }
            k = k + 1;
        }
        None
    }

    pub fn cmd(&self) -> (r: &EpicAnalysis)
        ensures
            *r == self.settings(),
    {
        &self.cmd
    }

    /// The cached issue at `k`.
    pub fn cached_issue(&self, k: usize) -> (r: &Issue)
        requires
            k < self.cache().len(),
        ensures
            *r == self.cache()[k as int].1,
    {
        &self.issue_cache[k].1
    }

    /// Records `issue`, just fetched for `r`, in the cache and learns from it: whether it
    /// is closed, its title, the clusters of `r` by its component labels, and, where
    /// `from_outside`, that it lies outside the epic. Returns where it stands in the cache.
    pub fn fetch_issue(&mut self, r: &Reference, from_outside: bool, issue: Issue) -> (k: usize)
        requires
            old(self).wf(),
            !old(self).is_cached(r.full_issue_url@),
            from_outside ==> !old(self).internal().contains(r.number),
        ensures
            final(self).wf(),
            final(self).settings() == old(self).settings(),
            k == old(self).cache().len(),
            final(self).cache() == old(self).cache().push((r.full_issue_url, issue)),
            final(self).is_cached(r.full_issue_url@),
            final(self).edges() == old(self).edges(),
            final(self).same_walk(&*old(self)),
            old(self).walk_wf() ==> final(self).walk_wf(),
            forall|n: u64|
                #[trigger] final(self).external().contains(n) <==> old(self).external().contains(n)
                    || (from_outside && n == r.number),
            forall|n: u64|
                #[trigger] final(self).closed().contains(n) <==> old(self).closed().contains(n)
                    || (issue.is_closed() && n == r.number),
            final(self).titles() == if old(self).has_title(r.number) {
                old(self).titles()
            } else {
                old(self).titles().push((r.number, issue.title))
            },
            forall|name: Seq<char>, n: u64|
                #[trigger] final(self).in_cluster(name, n) <==> old(self).in_cluster(name, n) || (
                n == r.number && issue.has_label(name) && is_component(&old(self).settings(), name)),
            cluster_view(final(self).clusters()) == add_to_clusters(
                cluster_view(old(self).clusters()),
                issue.labels@,
                old(self).settings(),
                r.number,
            ),
    {
        proof {
            lemma_push_contains(old(self).external(), r.number);
            lemma_push_contains(old(self).closed(), r.number);
        }
        if from_outside {
            insert_number(&mut self.issues_outside_milestone, r.number);
        }
        if issue.closed_at.is_some() {
            insert_number(&mut self.closed_issues, r.number);
        }
        proof {
            assert(self.cache() == old(self).cache());
            assert(self.titles() == old(self).titles());
            assert(self.clusters() == old(self).clusters());
            assert(self.edges() == old(self).edges());
            lemma_wf_frame(*old(self), *self);
        }
        let ghost ext = self.issues_outside_milestone@;
        let ghost closed = self.closed_issues@;
        let mut i: usize = 0;
        while i < issue.labels.len()
            invariant
                self.wf(),
                self.cmd == old(self).cmd,
                self.issue_cache == old(self).issue_cache,
                self.node_titles == old(self).node_titles,
                self.issue_graph == old(self).issue_graph,
                self.epic == old(self).epic,
                self.repo_url == old(self).repo_url,
                self.refs == old(self).refs,
                self.internal == old(self).internal,
                self.phase == old(self).phase,
                self.pos == old(self).pos,
                self.current == old(self).current,
                self.blockers == old(self).blockers,
                self.bpos == old(self).bpos,
                self.skipped == old(self).skipped,
                self.unavailable == old(self).unavailable,
                self.walked == old(self).walked,
                self.issues_outside_milestone@ == ext,
                cluster_view(self.clusters()) == add_to_clusters(
                    cluster_view(old(self).clusters()),
                    issue.labels@.subrange(0, i as int),
                    old(self).settings(),
                    r.number,
                ),
                self.closed_issues@ == closed,
                i <= issue.labels@.len(),
                forall|name: Seq<char>, n: u64|
                    #[trigger] self.in_cluster(name, n) <==> old(self).in_cluster(name, n) || (n
                        == r.number && is_component(&self.cmd, name) && exists|j: int|
                        0 <= j < i && #[trigger] issue.labels@[j].name@ == name),
            decreases issue.labels@.len() - i,
        {
            let name = &issue.labels[i].name;
            proof {
                let next = issue.labels@.subrange(0, i as int + 1);
                assert(next.drop_last() =~= issue.labels@.subrange(0, i as int));
                assert(next.last() == issue.labels@[i as int]);
            }
            if contains_string(&self.cmd.label_component, name) {
                self.add_to_cluster(name, r.number);
            }
            proof {
                assert forall|nm: Seq<char>, n: u64|
                    #[trigger] self.in_cluster(nm, n) <==> old(self).in_cluster(nm, n) || (n
                        == r.number && is_component(&self.cmd, nm) && exists|j: int|
                        0 <= j < i + 1 && #[trigger] issue.labels@[j].name@ == nm) by {
                    if n == r.number && is_component(&self.cmd, nm) && issue.labels@[i as int].name@
                        == nm {
                        assert(exists|j: int|
                            0 <= j < i + 1 && #[trigger] issue.labels@[j].name@ == nm);
                    }
                    if (exists|j: int| 0 <= j < i + 1 && #[trigger] issue.labels@[j].name@ == nm)
                        && !(exists|j: int| 0 <= j < i && #[trigger] issue.labels@[j].name@ == nm) {
                        let j = choose|j: int| 0 <= j < i + 1 && #[trigger] issue.labels@[j].name@ == nm;
                        assert(j == i);
                    }
                }
            }
            i = i + 1;
        }
        proof {
            assert(issue.labels@.subrange(0, i as int) =~= issue.labels@);
        }
        let ghost looped = *self;
        let ghost mid = self.titles();
        if !self.has_title_exec(r.number) {
            self.node_titles.push((r.number, issue.title.clone()));
            proof {
                assert forall|a: int, b: int|
                    0 <= a < b < self.titles().len() implies #[trigger] self.titles()[a].0
                        != #[trigger] self.titles()[b].0 by {
                    assert(self.titles()[a] == mid[a]);
                    if b == mid.len() {
                        assert(mid[a].0 != r.number);
                    } else {
                        assert(self.titles()[b] == mid[b]);
                        assert(mid[a].0 != mid[b].0);
                    }
                }
            }
        }
        let url = r.full_issue_url.clone();
        let ghost before = self.cache();
        self.issue_cache.push((url, issue));
        proof {
            let n = before.len() as int;
            assert(self.cache()[n].0@ == r.full_issue_url@);
            assert forall|a: int, b: int|
                0 <= a < b < self.cache().len() implies #[trigger] self.cache()[a].0@
                    != #[trigger] self.cache()[b].0@ by {
                assert(self.cache()[a] == before[a]);
                if b == n {
                    assert(before[a].0@ != r.full_issue_url@);
                } else {
                    assert(self.cache()[b] == before[b]);
                    assert(before[a].0@ != before[b].0@);
                }
            }
            assert(self.clusters() == looped.clusters());
            assert forall|nm: Seq<char>, m: u64| #[trigger] self.in_cluster(nm, m) == looped.in_cluster(nm, m) by {}
            assert(distinct_labels(self.clusters()));
            lemma_titles_grow(*old(self), *self);
            if old(self).walk_wf() {
                Logic::lemma_walk_grows(*old(self), *self);
            }
            assert(self.has_title(r.number)) by {
                if old(self).has_title(r.number) {
                } else {
                    assert(self.titles()[mid.len() as int].0 == r.number);
                }
            }
            assert(self.edges() == old(self).edges());
            assert forall|e: (u64, u64)| #[trigger] self.edges().contains(e) implies self.has_title(e.0) && self.has_title(e.1) by {
                assert(old(self).edges().contains(e));
            }
        }
        self.issue_cache.len() - 1
    }

    /// Records that `blocker` blocks `blocked`; recording an edge twice changes nothing.
    fn add_blocker(&mut self, blocker: u64, blocked: u64)
        requires
            old(self).wf(),
            old(self).has_title(blocker),
            old(self).has_title(blocked),
        ensures
            final(self).wf(),
            final(self).settings() == old(self).settings(),
            final(self).cache() == old(self).cache(),
            final(self).closed() == old(self).closed(),
            final(self).external() == old(self).external(),
            final(self).titles() == old(self).titles(),
            final(self).clusters() == old(self).clusters(),
            final(self).same_walk(&*old(self)),
            final(self).refs == old(self).refs,
            final(self).blockers == old(self).blockers,
            final(self).walked == old(self).walked,
            final(self).skipped == old(self).skipped,
            final(self).unavailable == old(self).unavailable,
            final(self).issue_cache == old(self).issue_cache,
            final(self).phase == old(self).phase,
            final(self).pos == old(self).pos,
            final(self).bpos == old(self).bpos,
            final(self).current == old(self).current,
            final(self).internal == old(self).internal,
            final(self).epic == old(self).epic,
            final(self).repo_url == old(self).repo_url,
            final(self).edges() == if old(self).edges().contains((blocker, blocked)) {
                old(self).edges()
            } else {
                old(self).edges().push((blocker, blocked))
            },
    {
        let mut i: usize = 0;
        while i < self.issue_graph.len()
            invariant
                *self == *old(self),
                old(self).wf(),
                i <= self.issue_graph@.len(),
                forall|k: int| 0 <= k < i ==> self.issue_graph@[k] != (blocker, blocked),
            decreases self.issue_graph@.len() - i,
        {
            let e = self.issue_graph[i];
            if e.0 == blocker && e.1 == blocked {
                assert(self.edges()[i as int] == (blocker, blocked));
                return;
            }
            i = i + 1;
        }
        self.issue_graph.push((blocker, blocked));
        proof {
            lemma_push_keeps(old(self).issue_graph@, (blocker, blocked));
            assert forall|i: int, j: int| 0 <= i < j < self.edges().len() implies #[trigger] self.edges()[i] != #[trigger] self.edges()[j] by {
                if j == old(self).edges().len() {
                    assert(old(self).edges()[i] != (blocker, blocked));
                } else {
                    assert(old(self).edges()[i] != old(self).edges()[j]);
                }
            }
            assert forall|e: (u64, u64)| #[trigger] self.edges().contains(e) implies self.has_title(e.0) && self.has_title(e.1) by {
                let j0 = choose|j: int| 0 <= j < old(self).titles().len() && #[trigger] old(self).titles()[j].0 == blocker;
                assert(self.titles()[j0].0 == blocker);
                let j1 = choose|j: int| 0 <= j < old(self).titles().len() && #[trigger] old(self).titles()[j].0 == blocked;
                assert(self.titles()[j1].0 == blocked);
                if e != (blocker, blocked) {
                    let i = choose|i: int| 0 <= i < self.edges().len() && self.edges()[i] == e;
                    assert(old(self).edges()[i] == e);
                    assert(old(self).edges().contains(e));
                }
            }
        }
    }

    /// Whether some open issue blocks issue `n`.
    pub fn has_blockages(&self, n: u64) -> (r: bool)
        ensures
            r == self.blocked_spec(n),
    {
        let mut i: usize = 0;
        while i < self.issue_graph.len()
            invariant
                i <= self.issue_graph@.len(),
                forall|k: int|
                    0 <= k < i ==> !(#[trigger] self.issue_graph@[k].1 == n
                        && !self.closed_issues@.contains(self.issue_graph@[k].0)),
            decreases self.issue_graph@.len() - i,
        {
            let e = self.issue_graph[i];
            if e.1 == n && !contains_number(&self.closed_issues, e.0) {
                assert(self.edges()[i as int] == e);
                assert(self.edges().contains(e));
                return true;
            }
            i = i + 1;
        }
        proof {
            assert forall|e: (u64, u64)|
                #[trigger] self.edges().contains(e) implies !(e.1 == n && !self.closed().contains(
                    e.0,
                )) by {
                let k = choose|k: int| 0 <= k < self.edges().len() && self.edges()[k] == e;
                assert(self.issue_graph@[k].1 == e.1);
            }
        }
        false
    }

    /// The finding on issue `re`'s blocked label: missing where an open issue blocks it,
    /// stale where none does, none where the label agrees with the graph.
    pub fn validate_blocked_label_state(&self, re: &Issue) -> (r: Option<LabelFinding>)
        ensures
            r == label_finding(
                self.blocked_spec(re.number),
                re.has_label(self.settings().label_blocked@),
            ),
    {
        self.label_state(re.number, re)
    }

    /// The finding on the blocked label of `re`, the issue of number `number`.
    pub fn label_state(&self, number: u64, re: &Issue) -> (r: Option<LabelFinding>)
        ensures
            r == label_finding(
                self.blocked_spec(number),
                re.has_label(self.settings().label_blocked@),
            ),
    {
        let blocked = self.has_blockages(number);
        let labelled = re.carries_label(&self.cmd.label_blocked);
        if blocked && !labelled {
            Some(LabelFinding::MissingLabel)
        } else if !blocked && labelled {
            Some(LabelFinding::StaleLabel)
        } else {
            None
        }
    }

    /// Whether `issue` strays from the epic's milestone.
    pub fn validate_milestone(&self, epic_issue: &Issue, issue: &Issue) -> (r: bool)
        ensures
            r == milestone_mismatch(epic_issue, issue),
    {
        match &epic_issue.milestone {
            None => false,
            Some(m) => match &issue.milestone {
                None => true,
                Some(mi) => mi.title != m.title,
            },
        }
    }

    /// The issues of `internal_refs` that no open issue blocks, in their order.
    pub fn find_unblocked_issues(&self, internal_refs: Vec<u64>) -> (r: Vec<u64>)
        ensures
            r@ == internal_refs@.filter(|n: u64| !self.blocked_spec(n)),
    {
        let ghost pred = |n: u64| !self.blocked_spec(n);
        let mut out: Vec<u64> = Vec::new();
        let mut i: usize = 0;
        while i < internal_refs.len()
            invariant
                i <= internal_refs@.len(),
                pred == (|n: u64| !self.blocked_spec(n)),
                out@ == internal_refs@.subrange(0, i as int).filter(pred),
            decreases internal_refs@.len() - i,
        {
            let n = internal_refs[i];
            proof {
                reveal(Seq::filter);
                assert(internal_refs@.subrange(0, i as int + 1).drop_last() =~= internal_refs@.subrange(0, i as int));
                assert(internal_refs@.subrange(0, i as int + 1).last() == n);
            }
            if !self.has_blockages(n) {
                out.push(n);
            }
            i = i + 1;
        }
        assert(internal_refs@.subrange(0, i as int) =~= internal_refs@);
        out
    }

    /// Begins the walk over `epic`, whose references are resolved against the
    /// repository at `repo_url`.
    pub fn start(&mut self, epic: Issue, repo_url: String)
        requires
            old(self).wf(),
            old(self).walk_wf(),
            old(self).phase() == Phase::Idle,
            old(self).external().len() == 0,
        ensures
            final(self).wf(),
            final(self).walk_wf(),
            final(self).settings() == old(self).settings(),
            final(self).cache() == old(self).cache(),
            final(self).closed() == old(self).closed(),
            final(self).external() == old(self).external(),
            final(self).titles() == old(self).titles(),
            final(self).clusters() == old(self).clusters(),
            final(self).edges() == old(self).edges(),
            final(self).phase() == Phase::Direct,
            final(self).position() == 0,
            final(self).epic_issue() == Some(epic),
            final(self).repo() == repo_url@,
            extracted(false, epic.body@, repo_url@, final(self).direct_refs()),
    {
        let refs = LocalRefExtractor::new().extract(epic.body.as_str(), &repo_url);
        let mut internal: Vec<u64> = Vec::new();
        let mut k: usize = 0;
        while k < refs.len()
            invariant
                k <= refs@.len(),
                internal@.len() == k,
                forall|j: int| 0 <= j < k ==> #[trigger] internal@[j] == refs@[j].number,
            decreases refs@.len() - k,
        {
            internal.push(refs[k].number);
            k = k + 1;
        }
        self.refs = refs;
        self.internal = internal;
        self.epic = Some(epic);
        self.repo_url = repo_url;
        self.pos = 0;
        self.bpos = 0;
        let ghost before = *self;
        self.phase = Phase::Direct;
        self.walked = Ghost(Seq::empty());
        proof {
            assert(old(self).walked().len() == 0);
            assert forall|e: (u64, u64)| !#[trigger] before.edges().contains(e) by {
                if before.edges().contains(e) {
                    assert(before.edges() == old(self).edges());
                    assert(old(self).edges().contains(e));
                    assert(old(self).edges_listed());
                    assert(old(self).listed_edge(e));
                }
            }
            lemma_wf_frame(before, *self);
        }
    }

    /// Takes the walk one step on: asks for an issue that is neither cached nor known to
    /// be unavailable, passes over a reference whose issue is unavailable, records one
    /// blocker, or checks an issue of the epic once its blockers are walked.
    pub fn next_step(&mut self) -> (r: Step)
        requires
            old(self).wf(),
            old(self).walk_wf(),
        ensures
            final(self).wf(),
            final(self).walk_wf(),
            final(self).settings() == old(self).settings(),
            final(self).cache() == old(self).cache(),
            final(self).closed() == old(self).closed(),
            final(self).clusters() == old(self).clusters(),
            final(self).direct_refs() == old(self).direct_refs(),
            final(self).internal() == old(self).internal(),
            final(self).epic_issue() == old(self).epic_issue(),
            final(self).skipped() == old(self).skipped(),
            old(self).titles().len() <= final(self).titles().len(),
            forall|k: int| 0 <= k < old(self).titles().len() ==> #[trigger] final(self).titles()[k] == old(self).titles()[k],
            forall|n: u64|
                #[trigger] final(self).external().contains(n) <==> old(self).external().contains(n) || (
                r matches Step::Blocking { blocker, blocked } && n == blocker && !final(self).internal().contains(n)),
            r matches Step::Fetch { url, external } ==> {
                &&& final(self).awaited() matches Some((w, ext))
                &&& w.full_issue_url@ == url@
                &&& ext == external
                &&& !final(self).is_cached(url@)
                &&& !final(self).skipped().contains(url@)
                &&& final(self).edges() == old(self).edges()
            },
            r matches Step::Blocking { blocker, blocked } ==> {
                &&& final(self).phase() == Phase::Blockers
                &&& final(self).position() == old(self).position()
                &&& blocked == final(self).direct_refs()[final(self).position()].number
                &&& final(self).blocker_position() >= 1
                &&& blocker == final(self).blocker_list()[final(self).blocker_position() - 1].number
                &&& final(self).is_cached(final(self).blocker_list()[final(self).blocker_position() - 1].full_issue_url@)
                &&& final(self).edges() == if old(self).edges().contains((blocker, blocked)) {
                    old(self).edges()
                } else {
                    old(self).edges().push((blocker, blocked))
                }
            },
            r matches Step::Checked { number, label, milestone } ==> {
                let issue = final(self).current_issue();
                &&& final(self).phase() == Phase::Direct
                &&& final(self).position() == old(self).position() + 1
                &&& 0 <= final(self).current_index() < final(self).cache().len()
                &&& final(self).cache()[final(self).current_index()].0@ == final(self).direct_refs()[final(self).position() - 1].full_issue_url@
                &&& number == final(self).direct_refs()[final(self).position() - 1].number
                &&& label == label_finding(
                    final(self).blocked_spec(number),
                    issue.has_label(final(self).settings().label_blocked@),
                )
                &&& final(self).epic_issue() matches Some(e) && milestone == milestone_mismatch(&e, &issue)
                &&& final(self).edges() == old(self).edges()
            },
            r matches Step::Skipped { url } ==> {
                &&& old(self).skipped().contains(url@)
                &&& final(self).edges() == old(self).edges()
                &&& {
                    ||| final(self).phase() == Phase::Direct && final(self).position() == old(self).position() + 1
                        && url@ == final(self).direct_refs()[old(self).position()].full_issue_url@
                    ||| final(self).phase() == Phase::Blockers && final(self).blocker_position() >= 1
                        && url@ == final(self).blocker_list()[final(self).blocker_position() - 1].full_issue_url@
                }
            },
            r matches Step::Done ==> {
                &&& final(self).awaited() is None
                &&& final(self).phase() == Phase::Idle || final(self).phase() == Phase::Finished
                &&& final(self).edges() == old(self).edges()
                &&& final(self).titles() == old(self).titles()
            },
            r is Done <==> (old(self).phase() == Phase::Idle || old(self).phase() == Phase::Finished
                || (old(self).phase() == Phase::Direct && old(self).position() >= old(self).direct_refs().len())),
    {
        let ghost before = *self;
        match self.phase {
            Phase::Direct => {
                if self.pos >= self.refs.len() {
                    self.phase = Phase::Finished;
                    proof {
                        Logic::lemma_walked_grow(before, *self);
                        Logic::lemma_listed_grow(before, *self);
                        lemma_wf_frame(before, *self);
                    }
                    return Step::Done;
                }
                if self.is_unavailable(&self.refs[self.pos].full_issue_url) {
                    let url = self.refs[self.pos].full_issue_url.clone();
                    self.skip_direct();
                    proof {
                        assert(self.skipped() =~= before.skipped());
                        Logic::lemma_titles_same(before, *self);
                    }
                    return Step::Skipped { url };
                }
                match self.cached_fetch_issue(&self.refs[self.pos]) {
                    None => {
                        let url = self.refs[self.pos].full_issue_url.clone();
                        Step::Fetch { url, external: false }
                    },
                    Some(k) => {
                        let n = self.refs[self.pos].number;
                        let title = self.issue_cache[k].1.title.clone();
                        self.ensure_title(n, title);
                        let ghost mid = *self;
                        let b = blocker_refs(
                            self.issue_cache[k].1.body.as_str(),
                            self.cmd.prefix_blocked.as_str(),
                            &self.repo_url,
                        );
                        self.blockers = b;
                        self.bpos = 0;
                        self.current = k;
                        self.phase = Phase::Blockers;
                        proof {
                            Logic::lemma_walked_grow(mid, *self);
                            Logic::lemma_listed_grow(mid, *self);
                            lemma_wf_frame(mid, *self);
                        }
                        self.blocker_step()
                    },
                }
            },
            Phase::Blockers => self.blocker_step(),
            _ => Step::Done,
        }
    }

    /// Whether `url`'s issue is known to be unavailable.
    fn is_unavailable(&self, url: &String) -> (r: bool)
        requires
            self.walk_wf(),
        ensures
            r == self.skipped().contains(url@),
    {
        let mut i: usize = 0;
        while i < self.unavailable.len()
            invariant
                i <= self.unavailable@.len(),
                forall|u: Seq<char>| #[trigger] self.skipped@.contains(u) <==> listed_url(self.unavailable@, u),
                forall|k: int| 0 <= k < i ==> #[trigger] self.unavailable@[k]@ != url@,
            decreases self.unavailable@.len() - i,
        {
            if self.unavailable[i] == *url {
                assert(listed_url(self.unavailable@, url@));
                return true;
            }
            i = i + 1;
        }
        false
    }

    /// Records `title` under `n` unless `n` has a title.
    fn ensure_title(&mut self, n: u64, title: String)
        requires
            old(self).wf(),
            old(self).walk_wf(),
        ensures
            final(self).wf(),
            final(self).walk_wf(),
            final(self).has_title(n),
            final(self).titles() == if old(self).has_title(n) {
                old(self).titles()
            } else {
                old(self).titles().push((n, title))
            },
            final(self).cmd == old(self).cmd,
            final(self).issue_cache == old(self).issue_cache,
            final(self).issue_graph == old(self).issue_graph,
            final(self).cluster_members == old(self).cluster_members,
            final(self).closed_issues == old(self).closed_issues,
            final(self).issues_outside_milestone == old(self).issues_outside_milestone,
            final(self).epic == old(self).epic,
            final(self).repo_url == old(self).repo_url,
            final(self).refs == old(self).refs,
            final(self).internal == old(self).internal,
            final(self).phase == old(self).phase,
            final(self).pos == old(self).pos,
            final(self).current == old(self).current,
            final(self).blockers == old(self).blockers,
            final(self).bpos == old(self).bpos,
            final(self).unavailable == old(self).unavailable,
            final(self).skipped == old(self).skipped,
            final(self).walked == old(self).walked,
    {
        if !self.has_title_exec(n) {
            let ghost before = self.titles();
            self.node_titles.push((n, title));
            proof {
                assert(self.titles()[before.len() as int].0 == n);
                assert forall|a: int, b: int|
                    0 <= a < b < self.titles().len() implies #[trigger] self.titles()[a].0
                        != #[trigger] self.titles()[b].0 by {
                    assert(self.titles()[a] == before[a]);
                    if b < before.len() {
                        assert(self.titles()[b] == before[b]);
                    }
                }
                lemma_titles_grow(*old(self), *self);
                assert(self.edges() == old(self).edges());
                assert forall|e: (u64, u64)| #[trigger] self.edges().contains(e) implies self.has_title(e.0) && self.has_title(e.1) by {
                    assert(old(self).edges().contains(e));
                }
                Logic::lemma_walk_grows(*old(self), *self);
            }
        }
    }

    /// Marks `n`, which the epic does not reference, as external.
    fn mark_external(&mut self, n: u64)
        requires
            old(self).wf(),
            old(self).walk_wf(),
            !old(self).internal().contains(n),
        ensures
            final(self).wf(),
            final(self).walk_wf(),
            forall|m: u64| #[trigger] final(self).external().contains(m) <==> old(self).external().contains(m) || m == n,
            final(self).cmd == old(self).cmd,
            final(self).issue_cache == old(self).issue_cache,
            final(self).issue_graph == old(self).issue_graph,
            final(self).cluster_members == old(self).cluster_members,
            final(self).closed_issues == old(self).closed_issues,
            final(self).node_titles == old(self).node_titles,
            final(self).epic == old(self).epic,
            final(self).repo_url == old(self).repo_url,
            final(self).refs == old(self).refs,
            final(self).internal == old(self).internal,
            final(self).phase == old(self).phase,
            final(self).pos == old(self).pos,
            final(self).current == old(self).current,
            final(self).blockers == old(self).blockers,
            final(self).bpos == old(self).bpos,
            final(self).unavailable == old(self).unavailable,
            final(self).skipped == old(self).skipped,
            final(self).walked == old(self).walked,
    {
        proof {
            lemma_push_contains(self.issues_outside_milestone@, n);
        }
        insert_number(&mut self.issues_outside_milestone, n);
        proof {
            lemma_wf_frame(*old(self), *self);
            Logic::lemma_walk_grows(*old(self), *self);
        }
    }

    /// Passes over the epic's reference at hand, whose issue could not be had.
    fn skip_direct(&mut self)
        requires
            old(self).wf(),
            old(self).walk_wf(),
            old(self).phase() == Phase::Direct,
            old(self).position() < old(self).direct_refs().len(),
        ensures
            final(self).wf(),
            final(self).walk_wf(),
            final(self).settings() == old(self).settings(),
            final(self).cache() == old(self).cache(),
            final(self).closed() == old(self).closed(),
            final(self).external() == old(self).external(),
            final(self).titles() == old(self).titles(),
            final(self).clusters() == old(self).clusters(),
            final(self).edges() == old(self).edges(),
            final(self).direct_refs() == old(self).direct_refs(),
            final(self).internal() == old(self).internal(),
            final(self).epic_issue() == old(self).epic_issue(),
            final(self).phase() == Phase::Direct,
            final(self).position() == old(self).position() + 1,
            final(self).skipped() == old(self).skipped().insert(old(self).direct_refs()[old(self).position()].full_issue_url@),
    {
        let ghost before = *self;
        let url = self.refs[self.pos].full_issue_url.clone();
        self.skipped = Ghost(self.skipped@.insert(url@));
        self.unavailable.push(url);
        self.walked = Ghost(self.walked@.push(Seq::empty()));
        let n_refs = self.refs.len();
        assert(self.pos < n_refs);
        self.pos = self.pos + 1;
        proof {
            Logic::lemma_walked_grow(before, *self);
            Logic::lemma_listed_grow(before, *self);
            lemma_wf_frame(before, *self);
            assert(self.walked_ok(before.pos as int));
            Logic::lemma_unavailable_push(before, *self);
        }
    }

    /// Passes over the blocker at hand, whose issue could not be had.
    fn skip_blocker(&mut self)
        requires
            old(self).wf(),
            old(self).walk_wf(),
            old(self).phase() == Phase::Blockers,
            old(self).blocker_position() < old(self).blocker_list().len(),
        ensures
            final(self).wf(),
            final(self).walk_wf(),
            final(self).settings() == old(self).settings(),
            final(self).cache() == old(self).cache(),
            final(self).closed() == old(self).closed(),
            final(self).external() == old(self).external(),
            final(self).titles() == old(self).titles(),
            final(self).clusters() == old(self).clusters(),
            final(self).edges() == old(self).edges(),
            final(self).direct_refs() == old(self).direct_refs(),
            final(self).internal() == old(self).internal(),
            final(self).epic_issue() == old(self).epic_issue(),
            final(self).phase() == Phase::Blockers,
            final(self).position() == old(self).position(),
            final(self).blocker_list() == old(self).blocker_list(),
            final(self).blocker_position() == old(self).blocker_position() + 1,
            final(self).current_index() == old(self).current_index(),
            final(self).skipped() == old(self).skipped().insert(old(self).blocker_list()[old(self).blocker_position()].full_issue_url@),
    {
        let ghost before = *self;
        let url = self.blockers[self.bpos].full_issue_url.clone();
        self.skipped = Ghost(self.skipped@.insert(url@));
        self.unavailable.push(url);
        let n_blockers = self.blockers.len();
        assert(self.bpos < n_blockers);
        self.bpos = self.bpos + 1;
        proof {
            Logic::lemma_walked_grow(before, *self);
            Logic::lemma_blockers_grow(before, *self, before.bpos as int);
            Logic::lemma_listed_grow(before, *self);
            lemma_wf_frame(before, *self);
            assert(self.edge_or_skipped(self.blockers@[before.bpos as int], self.refs@[self.pos as int].number));
            Logic::lemma_unavailable_push(before, *self);
        }
    }

    proof fn lemma_titles_same(a: Logic, b: Logic)
        requires
            b.titles() == a.titles(),
        ensures
            forall|k: int| 0 <= k < a.titles().len() ==> #[trigger] b.titles()[k] == a.titles()[k],
    {
    }

    /// The set of unavailable URLs follows the list when one is added to both.
    proof fn lemma_unavailable_push(a: Logic, b: Logic)
        requires
            forall|u: Seq<char>| #[trigger] a.skipped@.contains(u) <==> listed_url(a.unavailable@, u),
            b.unavailable@.len() == a.unavailable@.len() + 1,
            forall|k: int| 0 <= k < a.unavailable@.len() ==> #[trigger] b.unavailable@[k] == a.unavailable@[k],
            b.skipped@ == a.skipped@.insert(b.unavailable@[a.unavailable@.len() as int]@),
        ensures
            forall|u: Seq<char>| #[trigger] b.skipped@.contains(u) <==> listed_url(b.unavailable@, u),
    {
        assert forall|u: Seq<char>| #[trigger] b.skipped@.contains(u) <==> listed_url(b.unavailable@, u) by {
            if listed_url(b.unavailable@, u) {
                let i = choose|i: int| 0 <= i < b.unavailable@.len() && #[trigger] b.unavailable@[i]@ == u;
                if i < a.unavailable@.len() {
                    assert(a.unavailable@[i]@ == u);
                    assert(listed_url(a.unavailable@, u));
                }
            }
            if a.skipped@.contains(u) {
                let i = choose|i: int| 0 <= i < a.unavailable@.len() && #[trigger] a.unavailable@[i]@ == u;
                assert(b.unavailable@[i]@ == u);
            }
            let last = a.unavailable@.len() as int;
            assert(b.unavailable@[last]@ == b.unavailable@[last]@);
        }
    }

    fn blocker_step(&mut self) -> (r: Step)
        requires
            old(self).wf(),
            old(self).walk_wf(),
            old(self).phase() == Phase::Blockers,
        ensures
            final(self).wf(),
            final(self).walk_wf(),
            final(self).settings() == old(self).settings(),
            final(self).cache() == old(self).cache(),
            final(self).closed() == old(self).closed(),
            final(self).clusters() == old(self).clusters(),
            final(self).direct_refs() == old(self).direct_refs(),
            final(self).internal() == old(self).internal(),
            final(self).epic_issue() == old(self).epic_issue(),
            final(self).skipped() == old(self).skipped(),
            old(self).titles().len() <= final(self).titles().len(),
            forall|k: int| 0 <= k < old(self).titles().len() ==> #[trigger] final(self).titles()[k] == old(self).titles()[k],
            forall|n: u64|
                #[trigger] final(self).external().contains(n) <==> old(self).external().contains(n) || (
                r matches Step::Blocking { blocker, blocked } && n == blocker && !final(self).internal().contains(n)),
            r matches Step::Fetch { url, external } ==> {
                &&& final(self).awaited() matches Some((w, ext))
                &&& w.full_issue_url@ == url@
                &&& ext == external
                &&& !final(self).is_cached(url@)
                &&& !final(self).skipped().contains(url@)
                &&& final(self).edges() == old(self).edges()
            },
            r matches Step::Blocking { blocker, blocked } ==> {
                &&& final(self).phase() == Phase::Blockers
                &&& final(self).position() == old(self).position()
                &&& blocked == final(self).direct_refs()[final(self).position()].number
                &&& final(self).blocker_position() >= 1
                &&& blocker == final(self).blocker_list()[final(self).blocker_position() - 1].number
                &&& final(self).is_cached(final(self).blocker_list()[final(self).blocker_position() - 1].full_issue_url@)
                &&& final(self).edges() == if old(self).edges().contains((blocker, blocked)) {
                    old(self).edges()
                } else {
                    old(self).edges().push((blocker, blocked))
                }
            },
            r matches Step::Checked { number, label, milestone } ==> {
                let issue = final(self).current_issue();
                &&& final(self).phase() == Phase::Direct
                &&& final(self).position() == old(self).position() + 1
                &&& 0 <= final(self).current_index() < final(self).cache().len()
                &&& final(self).cache()[final(self).current_index()].0@ == final(self).direct_refs()[final(self).position() - 1].full_issue_url@
                &&& number == final(self).direct_refs()[final(self).position() - 1].number
                &&& label == label_finding(
                    final(self).blocked_spec(number),
                    issue.has_label(final(self).settings().label_blocked@),
                )
                &&& final(self).epic_issue() matches Some(e) && milestone == milestone_mismatch(&e, &issue)
                &&& final(self).edges() == old(self).edges()
            },
            r matches Step::Skipped { url } ==> {
                &&& old(self).skipped().contains(url@)
                &&& final(self).edges() == old(self).edges()
                &&& {
                    ||| final(self).phase() == Phase::Direct && final(self).position() == old(self).position() + 1
                        && url@ == final(self).direct_refs()[old(self).position()].full_issue_url@
                    ||| final(self).phase() == Phase::Blockers && final(self).blocker_position() >= 1
                        && url@ == final(self).blocker_list()[final(self).blocker_position() - 1].full_issue_url@
                }
            },
            !(r is Done),
    {
        if self.bpos < self.blockers.len() {
            if self.is_unavailable(&self.blockers[self.bpos].full_issue_url) {
                let url = self.blockers[self.bpos].full_issue_url.clone();
                let ghost before = *self;
                self.skip_blocker();
                proof {
                    assert(self.skipped() =~= before.skipped());
                }
                return Step::Skipped { url };
            }
            match self.cached_fetch_issue(&self.blockers[self.bpos]) {
                None => {
                    let external = !contains_number(&self.internal, self.blockers[self.bpos].number);
                    let url = self.blockers[self.bpos].full_issue_url.clone();
                    Step::Fetch { url, external }
                },
                Some(k) => {
                    let blocker = self.blockers[self.bpos].number;
                    let blocked = self.refs[self.pos].number;
                    let title = self.issue_cache[k].1.title.clone();
                    self.ensure_title(blocker, title);
                    if !contains_number(&self.internal, blocker) {
                        self.mark_external(blocker);
                    }
                    let ghost before = *self;
                    proof {
                        assert(self.has_title(self.refs@[self.pos as int].number));
                    }
                    self.add_blocker(blocker, blocked);
                    proof {
                        lemma_push_keeps(before.issue_graph@, (blocker, blocked));
                        assert(self.issue_graph@.contains((blocker, blocked)));
                        Logic::lemma_blockers_grow(before, *self, before.bpos as int);
                    }
                    self.bpos = self.bpos + 1;
                    proof {
                        Logic::lemma_walked_grow(before, *self);
                        assert(self.internal().contains(blocker) || self.external().contains(blocker));
                        assert(self.edge_or_skipped(self.blockers@[before.bpos as int], self.refs@[self.pos as int].number));
                        Logic::lemma_blockers_grow(before, *self, before.bpos as int);
                        Logic::lemma_listed_grow(before, *self);
                        assert forall|e: (u64, u64)| #[trigger] self.edges().contains(e) implies self.listed_edge(e) by {
                            if e == (blocker, blocked) {
                                assert(self.blocker_list()[before.bpos as int].number == blocker);
                            } else {
                                let i = choose|i: int| 0 <= i < self.edges().len() && self.edges()[i] == e;
                                assert(before.edges()[i] == e);
                                assert(before.edges().contains(e));
                                assert(before.listed_edge(e));
                            }
                        }
                    }
                    Step::Blocking { blocker, blocked }
                },
            }
        } else {
            let n_refs = self.refs.len();
            proof {
                assert(self.pos < n_refs);
            }
            let ghost before = *self;
            let number = self.refs[self.pos].number;
            let issue = &self.issue_cache[self.current].1;
            let label = self.label_state(number, issue);
            let milestone = match &self.epic {
                Some(e) => self.validate_milestone(e, issue),
                None => false,
            };
            self.pos = self.pos + 1;
            self.phase = Phase::Direct;
            self.walked = Ghost(self.walked@.push(self.blockers@));
            proof {
                Logic::lemma_walked_grow(before, *self);
                let p = before.pos as int;
                let k = self.current as int;
                assert(self.cache()[k].0@ == self.direct_refs()[p].full_issue_url@);
                assert(self.walked()[p] == self.blockers@);
                assert forall|j: int| 0 <= j < self.blockers@.len() implies #[trigger] self.edge_or_skipped(self.walked()[p][j], self.direct_refs()[p].number) by {
                    assert(before.edge_or_skipped(before.blockers@[j], before.refs@[p].number));
                }
                assert(self.walked_ok(p));
                Logic::lemma_listed_grow(before, *self);
                lemma_wf_frame(before, *self);
                assert(self.current_issue() == before.current_issue());
                assert(self.edges() == before.edges());
                assert(self.closed() == before.closed());
                assert(self.blocked_spec(number) == before.blocked_spec(number));
                assert(self.epic_issue() == before.epic_issue());
            }
            Step::Checked { number, label, milestone }
        }
    }

    /// Hands over the issue that the walk waits for, or `None` where it could not be
    /// had. A fetched issue is stored under its URL whatever it holds; a URL whose issue
    /// could not be had is passed over now and whenever it comes up again.
    pub fn deliver(&mut self, fetched: Option<Issue>)
        requires
            old(self).wf(),
            old(self).walk_wf(),
        ensures
            final(self).wf(),
            final(self).walk_wf(),
            final(self).settings() == old(self).settings(),
            final(self).edges() == old(self).edges(),
            final(self).direct_refs() == old(self).direct_refs(),
            final(self).internal() == old(self).internal(),
            final(self).epic_issue() == old(self).epic_issue(),
            final(self).phase() == old(self).phase(),
            match old(self).awaited() {
                None => *final(self) == *old(self),
                Some((w, external)) => match fetched {
                    Some(issue) => {
                        &&& final(self).cache() == old(self).cache().push((w.full_issue_url, issue))
                        &&& final(self).is_cached(w.full_issue_url@)
                        &&& final(self).skipped() == old(self).skipped()
                        &&& final(self).position() == old(self).position()
                        &&& final(self).blocker_position() == old(self).blocker_position()
                        &&& forall|n: u64|
                            #[trigger] final(self).external().contains(n) <==> old(self).external().contains(n)
                                || (external && n == w.number)
                        &&& forall|n: u64|
                            #[trigger] final(self).closed().contains(n) <==> old(self).closed().contains(n)
                                || (issue.is_closed() && n == w.number)
                        &&& final(self).titles() == if old(self).has_title(w.number) {
                            old(self).titles()
                        } else {
                            old(self).titles().push((w.number, issue.title))
                        }
                        &&& forall|name: Seq<char>, n: u64|
                            #[trigger] final(self).in_cluster(name, n) <==> old(self).in_cluster(name, n) || (
                            n == w.number && issue.has_label(name) && is_component(&old(self).settings(), name))
                        &&& cluster_view(final(self).clusters()) == add_to_clusters(
                            cluster_view(old(self).clusters()),
                            issue.labels@,
                            old(self).settings(),
                            w.number,
                        )
                    },
                    None => {
                        &&& final(self).skipped() == old(self).skipped().insert(w.full_issue_url@)
                        &&& final(self).titles() == old(self).titles()
                        &&& final(self).clusters() == old(self).clusters()
                        &&& final(self).cache() == old(self).cache()
                        &&& final(self).closed() == old(self).closed()
                        &&& final(self).external() == old(self).external()
                        &&& old(self).phase() == Phase::Direct ==> final(self).position() == old(self).position() + 1
                        &&& old(self).phase() == Phase::Blockers ==> final(self).blocker_position() == old(self).blocker_position() + 1
                    },
                },
            },
    {
        match self.phase {
            Phase::Direct => {
                if self.pos >= self.refs.len() {
                    return;
                }
                if self.cached_fetch_issue(&self.refs[self.pos]).is_some()
                    || self.is_unavailable(&self.refs[self.pos].full_issue_url) {
                    return;
                }
                match fetched {
                    Some(issue) => {
                        let r = self.refs[self.pos].clone_ref();
                        self.fetch_issue(&r, false, issue);
                    },
                    None => {
                        self.skip_direct();
                    },
                }
            },
            Phase::Blockers => {
                if self.bpos >= self.blockers.len() {
                    return;
                }
                if self.cached_fetch_issue(&self.blockers[self.bpos]).is_some()
                    || self.is_unavailable(&self.blockers[self.bpos].full_issue_url) {
                    return;
                }
                match fetched {
                    Some(issue) => {
                        let r = self.blockers[self.bpos].clone_ref();
                        let external = !contains_number(&self.internal, r.number);
                        self.fetch_issue(&r, external, issue);
                    },
                    None => {
                        self.skip_blocker();
                    },
                }
            },
            _ => {},
        }
    }

    /// The edges of the graph, blocker first.
    pub fn issue_graph(&self) -> (r: &Vec<(u64, u64)>)
        ensures
            r@ == self.edges(),
    {
        &self.issue_graph
    }

    /// Titles by issue number.
    pub fn node_titles(&self) -> (r: &Vec<(u64, String)>)
        ensures
            r@ == self.titles(),
    {
        &self.node_titles
    }

    /// Members of each component label.
    pub fn cluster_members(&self) -> (r: &Vec<(String, Vec<u64>)>)
        ensures
            r@ == self.clusters(),
    {
        &self.cluster_members
    }

    pub fn closed_issues(&self) -> (r: &Vec<u64>)
        ensures
            r@ == self.closed(),
    {
        &self.closed_issues
    }

    /// Issues found only as blockers, outside the epic.
    pub fn external_issues(&self) -> (r: &Vec<u64>)
        ensures
            r@ == self.external(),
    {
        &self.issues_outside_milestone
    }

    /// Numbers of the epic's own references.
    pub fn internal_refs(&self) -> (r: &Vec<u64>)
        ensures
            r@ == self.internal(),
    {
        &self.internal
    }

    fn has_title_exec(&self, n: u64) -> (r: bool)
        ensures
            r == self.has_title(n),
    {
        let mut k: usize = 0;
        while k < self.node_titles.len()
            invariant
                k <= self.node_titles@.len(),
                forall|j: int| 0 <= j < k ==> #[trigger] self.node_titles@[j].0 != n,
            decreases self.node_titles@.len() - k,
        {
            if self.node_titles[k].0 == n {
                assert(self.titles()[k as int].0 == n);
                return true;
            }
            k = k + 1;
        }
        false
    }

    /// Puts issue `n` in the cluster of label `name`.
    fn add_to_cluster(&mut self, name: &String, n: u64)
        requires
            old(self).wf(),
        ensures
            final(self).wf(),
            final(self).cmd == old(self).cmd,
            final(self).issue_cache == old(self).issue_cache,
            final(self).issue_graph == old(self).issue_graph,
            final(self).node_titles == old(self).node_titles,
            final(self).closed_issues == old(self).closed_issues,
            final(self).issues_outside_milestone == old(self).issues_outside_milestone,
            final(self).epic == old(self).epic,
            final(self).repo_url == old(self).repo_url,
            final(self).refs == old(self).refs,
            final(self).internal == old(self).internal,
            final(self).phase == old(self).phase,
            final(self).pos == old(self).pos,
            final(self).current == old(self).current,
            final(self).blockers == old(self).blockers,
            final(self).bpos == old(self).bpos,
            final(self).skipped == old(self).skipped,
            final(self).unavailable == old(self).unavailable,
            final(self).walked == old(self).walked,
            forall|nm: Seq<char>, m: u64|
                #[trigger] final(self).in_cluster(nm, m) <==> old(self).in_cluster(nm, m) || (nm
                    == name@ && m == n),
            cluster_view(final(self).clusters()) == add_member(cluster_view(old(self).clusters()), name@, n),
    {
        let ghost before = self.clusters();
        let mut k: usize = 0;
        while k < self.cluster_members.len()
            invariant
                *self == *old(self),
                old(self).wf(),
                before == self.clusters(),
                distinct_labels(before),
                label_index(cluster_view(before), name@, 0) == label_index(cluster_view(before), name@, k as int),
                k <= before.len(),
                forall|j: int| 0 <= j < k ==> #[trigger] before[j].0@ != name@,
            decreases before.len() - k,
        {
            proof {
                assert(cluster_view(before)[k as int] == (before[k as int].0@, before[k as int].1@));
            }
            if self.cluster_members[k].0 == *name {
                let mut members = self.cluster_members[k].1.clone();
                assert(members@ == before[k as int].1@);
                insert_number(&mut members, n);
                proof {
                    lemma_push_contains(before[k as int].1@, n);
                }
                let label = self.cluster_members[k].0.clone();
                self.cluster_members.set(k, (label, members));
                proof {
                    assert forall|j: int| 0 <= j < before.len() && j != k implies #[trigger] self.clusters()[j] == before[j] by {}
                    assert forall|nm: Seq<char>, m: u64|
                        #[trigger] self.in_cluster(nm, m) <==> old(self).in_cluster(nm, m) || (nm
                            == name@ && m == n) by {
                        if old(self).in_cluster(nm, m) {
                            let j = choose|j: int|
                                0 <= j < before.len() && #[trigger] before[j].0@ == nm
                                    && before[j].1@.contains(m);
                            assert(self.clusters()[j].0@ == nm);
                            assert(self.clusters()[j].1@.contains(m));
                        }
                        if nm == name@ && m == n {
                            assert(self.clusters()[k as int].0@ == nm);
                            assert(self.clusters()[k as int].1@.contains(m));
                        }
                        if self.in_cluster(nm, m) {
                            let j = choose|j: int|
                                0 <= j < self.clusters().len() && #[trigger] self.clusters()[j].0@ == nm
                                    && self.clusters()[j].1@.contains(m);
                            if j != k {
                                assert(before[j] == self.clusters()[j]);
                            }
                        }
                    }
                    assert forall|a: int, b: int|
                        0 <= a < b < self.clusters().len() implies #[trigger] self.clusters()[a].0@
                            != #[trigger] self.clusters()[b].0@ by {
                        assert(self.clusters()[a].0@ == before[a].0@);
                        assert(self.clusters()[b].0@ == before[b].0@);
                        assert(before[a].0@ != before[b].0@);
                    }
                    assert(self.cache() == old(self).cache());
                    assert(self.titles() == old(self).titles());
                    lemma_wf_frame(*old(self), *self);
                    let v = cluster_view(before);
                    assert(label_index(v, name@, 0) == k);
                    assert(cluster_view(self.clusters()) =~= add_member(v, name@, n));
                }
                return;
            }
            k = k + 1;
        }
        let mut members: Vec<u64> = Vec::new();
        members.push(n);
        proof {
            lemma_push_contains(Seq::<u64>::empty(), n);
            assert(Seq::<u64>::empty().push(n) == members@);
        }
        self.cluster_members.push((name.clone(), members));
        proof {
            let last = before.len() as int;
            assert(self.clusters()[last].1@.contains(n));
            assert forall|j: int| 0 <= j < last implies #[trigger] self.clusters()[j] == before[j] by {}
            assert forall|nm: Seq<char>, m: u64|
                #[trigger] self.in_cluster(nm, m) <==> old(self).in_cluster(nm, m) || (nm == name@
                    && m == n) by {
                if old(self).in_cluster(nm, m) {
                    let j = choose|j: int|
                        0 <= j < before.len() && #[trigger] before[j].0@ == nm
                            && before[j].1@.contains(m);
                    assert(self.clusters()[j] == before[j]);
                }
                if nm == name@ && m == n {
                    assert(self.clusters()[last].0@ == nm);
                }
                if self.in_cluster(nm, m) {
                    let j = choose|j: int|
                        0 <= j < self.clusters().len() && #[trigger] self.clusters()[j].0@ == nm
                            && self.clusters()[j].1@.contains(m);
                    if j < last {
                        assert(before[j] == self.clusters()[j]);
                    } else {
                        assert(self.clusters()[j].1@ == seq![n]);
                        assert(m == n);
                    }
                }
            }
            assert forall|a: int, b: int|
                0 <= a < b < self.clusters().len() implies #[trigger] self.clusters()[a].0@
                    != #[trigger] self.clusters()[b].0@ by {
                assert(self.clusters()[a] == before[a]);
                if b == last {
                    assert(before[a].0@ != name@);
                } else {
                    assert(self.clusters()[b] == before[b]);
                    assert(before[a].0@ != before[b].0@);
                }
            }
            lemma_wf_frame(*old(self), *self);
            let v = cluster_view(before);
            assert(label_index(v, name@, 0) == v.len());
            assert(cluster_view(self.clusters()) =~= add_member(v, name@, n));
        }
    }
}

/// An issue is fetched once: once its URL is in the cache, no later state of the walk
/// waits for it, and every later state holds the same issue under that URL.
pub proof fn lemma_fetched_once(a: Logic, b: Logic, k: int)
    requires
        a.wf(),
        b.wf(),
        0 <= k < a.cache().len(),
        a.cache().len() <= b.cache().len(),
        b.cache().subrange(0, a.cache().len() as int) == a.cache(),
    ensures
        b.is_cached(a.cache()[k].0@),
        b.awaited() matches Some((w, _)) ==> w.full_issue_url@ != a.cache()[k].0@,
        forall|j: int|
            0 <= j < b.cache().len() && #[trigger] b.cache()[j].0@ == a.cache()[k].0@ ==> b.cache()[j].1
                == a.cache()[k].1,
{
    assert(b.cache()[k] == a.cache()[k]);
    assert forall|j: int|
        0 <= j < b.cache().len() && #[trigger] b.cache()[j].0@ == a.cache()[k].0@ implies b.cache()[j].1
            == a.cache()[k].1 by {
        if j != k {
            if j < k {
                assert(b.cache()[j].0@ != b.cache()[k].0@);
            } else {
                assert(b.cache()[k].0@ != b.cache()[j].0@);
            }
        }
    }
}

/// What the walk keeps true, stated openly: every edge is a listed one; each reference
/// of the epic walked so far is walked as `walked_ok` says; and while blockers are
/// walked, the issue at hand is the cached issue of the reference at hand, that
/// reference's number has a title, and the blockers are those its blocked-by block lists.
pub proof fn lemma_walk_invariant(l: Logic)
    requires
        l.walk_wf(),
    ensures
        l.edges_listed(),
        l.walked().len() == l.position(),
        0 <= l.position() <= l.direct_refs().len(),
        forall|p: int| 0 <= p < l.position() ==> #[trigger] l.walked_ok(p),
        l.phase() == Phase::Blockers ==> {
            &&& l.position() < l.direct_refs().len()
            &&& 0 <= l.current_index() < l.cache().len()
            &&& l.cache()[l.current_index()].0@ == l.direct_refs()[l.position()].full_issue_url@
            &&& l.has_title(l.direct_refs()[l.position()].number)
            &&& refs_of_lines(
                blocked_by_block(l.current_issue().body@, l.settings().prefix_blocked@),
                l.repo(),
                l.blocker_list(),
            )
        },
{
}

/// Once the walk is finished, every issue A of the epic that could be had is in the
/// cache, the blockers walked for it are those that A's blocked-by block lists, and each
/// blocker B whose issue could be had is an edge B -> A of the graph, marked external
/// exactly when the epic does not reference its number.
pub proof fn lemma_walk_records_blockers(l: Logic, p: int)
    requires
        l.walk_wf(),
        l.phase() == Phase::Finished,
        0 <= p < l.direct_refs().len(),
        !l.skipped().contains(l.direct_refs()[p].full_issue_url@),
    ensures
        exists|k: int|
            0 <= k < l.cache().len() && #[trigger] l.cache()[k].0@ == l.direct_refs()[p].full_issue_url@
                && refs_of_lines(
                blocked_by_block(l.cache()[k].1.body@, l.settings().prefix_blocked@),
                l.repo(),
                l.walked()[p],
            ),
        forall|j: int|
            0 <= j < l.walked()[p].len() && !l.skipped().contains(l.walked()[p][j].full_issue_url@)
                ==> {
                &&& l.edges().contains((#[trigger] l.walked()[p][j].number, l.direct_refs()[p].number))
                &&& l.external().contains(l.walked()[p][j].number) <==> !l.internal().contains(
                    l.walked()[p][j].number,
                )
            },
{
    assert(l.walked_ok(p));
    assert forall|j: int|
        0 <= j < l.walked()[p].len() && !l.skipped().contains(l.walked()[p][j].full_issue_url@)
            implies {
            &&& l.edges().contains((#[trigger] l.walked()[p][j].number, l.direct_refs()[p].number))
            &&& l.external().contains(l.walked()[p][j].number) <==> !l.internal().contains(
                l.walked()[p][j].number,
            )
        } by {
        assert(l.edge_or_skipped(l.walked()[p][j], l.direct_refs()[p].number));
    }
}

/// A URL whose issue could not be had is never asked for again: the walk does not wait
/// for it, and only `deliver` adds to the unavailable URLs.
pub proof fn lemma_unavailable_not_asked(l: Logic, u: Seq<char>)
    requires
        l.skipped().contains(u),
    ensures
        l.awaited() matches Some((w, _)) ==> w.full_issue_url@ != u,
{
}

/// No issue of the epic is marked external; the walk asks for an issue of the epic as
/// part of the epic, and for a blocker as external exactly when none of the epic's own
/// references has its number.
pub proof fn lemma_external_marking(l: Logic)
    requires
        l.walk_wf(),
    ensures
        l.internal().len() == l.direct_refs().len(),
        forall|k: int| 0 <= k < l.direct_refs().len() ==> #[trigger] l.internal()[k] == l.direct_refs()[k].number,
        forall|k: int| 0 <= k < l.direct_refs().len() ==> !l.external().contains(#[trigger] l.direct_refs()[k].number),
        l.awaited() matches Some((w, ext)) ==> {
            &&& l.phase() == Phase::Direct ==> !ext
            &&& l.phase() == Phase::Blockers ==> (ext <==> forall|k: int|
                0 <= k < l.direct_refs().len() ==> #[trigger] l.direct_refs()[k].number != w.number)
        },
{
    assert forall|k: int| 0 <= k < l.direct_refs().len() implies !l.external().contains(#[trigger] l.direct_refs()[k].number) by {
        assert(l.internal()[k] == l.direct_refs()[k].number);
        assert(l.internal().contains(l.internal()[k]));
    }
    if let Some((w, ext)) = l.awaited() {
        if l.phase() == Phase::Blockers {
            if l.internal().contains(w.number) {
                let k = choose|k: int| 0 <= k < l.internal().len() && l.internal()[k] == w.number;
                assert(l.direct_refs()[k].number == w.number);
            } else {
                assert forall|k: int| 0 <= k < l.direct_refs().len() implies #[trigger] l.direct_refs()[k].number != w.number by {
                    assert(l.internal()[k] == l.direct_refs()[k].number);
                }
            }
        }
    }
}

/// The blocked-label check: an issue with an open blocker and without the label gives
/// exactly the missing-label finding, and with the label none.
pub proof fn lemma_open_blocker_findings(l: Logic, issue: Issue, blocker: u64)
    requires
        l.edges().contains((blocker, issue.number)),
        !l.closed().contains(blocker),
    ensures
        !issue.has_label(l.settings().label_blocked@) ==> label_finding(
            l.blocked_spec(issue.number),
            issue.has_label(l.settings().label_blocked@),
        ) == Some(LabelFinding::MissingLabel),
        issue.has_label(l.settings().label_blocked@) ==> label_finding(
            l.blocked_spec(issue.number),
            issue.has_label(l.settings().label_blocked@),
        ) is None,
{
    assert(l.blocked_spec(issue.number));
}

/// The blocked-label check: an issue that nothing blocks and that carries the label gives
/// exactly the stale-label finding.
pub proof fn lemma_stale_label_finding(l: Logic, issue: Issue)
    requires
        forall|e: (u64, u64)| #[trigger] l.edges().contains(e) ==> e.1 != issue.number,
        issue.has_label(l.settings().label_blocked@),
    ensures
        label_finding(l.blocked_spec(issue.number), issue.has_label(l.settings().label_blocked@))
            == Some(LabelFinding::StaleLabel),
{
}

/// The unblocked set: an issue of the epic whose blockers are all closed is in it, and
/// one with an open blocker is not.
pub proof fn lemma_unblocked(l: Logic, internal_refs: Seq<u64>, n: u64)
    requires
        internal_refs.contains(n),
    ensures
        (forall|e: (u64, u64)| #[trigger] l.edges().contains(e) && e.1 == n ==> l.closed().contains(e.0))
            ==> internal_refs.filter(|m: u64| !l.blocked_spec(m)).contains(n),
        (exists|b: u64| #[trigger] l.edges().contains((b, n)) && !l.closed().contains(b))
            ==> !internal_refs.filter(|m: u64| !l.blocked_spec(m)).contains(n),
{
    let pred = |m: u64| !l.blocked_spec(m);
    if exists|b: u64| #[trigger] l.edges().contains((b, n)) && !l.closed().contains(b) {
        let b = choose|b: u64| #[trigger] l.edges().contains((b, n)) && !l.closed().contains(b);
        assert(l.edges().contains((b, n)));
        assert(l.blocked_spec(n));
        if internal_refs.filter(pred).contains(n) {
            let i = choose|i: int| 0 <= i < internal_refs.filter(pred).len() && internal_refs.filter(pred)[i] == n;
            internal_refs.lemma_filter_pred(pred, i);
        }
    }
    let i = choose|i: int| 0 <= i < internal_refs.len() && internal_refs[i] == n;
    if forall|e: (u64, u64)| #[trigger] l.edges().contains(e) && e.1 == n ==> l.closed().contains(e.0) {
        assert(!l.blocked_spec(n));
        internal_refs.lemma_filter_contains(pred, i);
    }
}

/// `refs` are the local references of `lines`, line after line.
pub open spec fn refs_of_lines(lines: Seq<Seq<char>>, base: Seq<char>, refs: Seq<Reference>) -> bool
    decreases lines.len(),
{
    if lines.len() == 0 {
        refs.len() == 0
    } else {
        let m = refs.len() - token_starts(false, lines.last(), 0).len();
        &&& 0 <= m
        &&& refs_of_lines(lines.drop_last(), base, refs.subrange(0, m))
        &&& extracted(false, lines.last(), base, refs.subrange(m, refs.len() as int))
    }
}

/// The references to the blockers that `body` lists under `prefix`, resolved against
/// the repository at `repo_url`.
pub fn blocker_refs(body: &str, prefix: &str, repo_url: &String) -> (r: Vec<Reference>)
    ensures
        refs_of_lines(blocked_by_block(body@, prefix@), repo_url@, r@),
{
    let lines = blocked_by_lines(body, prefix);
    let ghost ls = views(lines@);
    let extractor = LocalRefExtractor::new();
    let mut out: Vec<Reference> = Vec::new();
    let mut i: usize = 0;
    assert(ls.subrange(0, 0).len() == 0);
    while i < lines.len()
        invariant
            ls == views(lines@),
            ls == blocked_by_block(body@, prefix@),
            i <= lines@.len(),
            refs_of_lines(ls.subrange(0, i as int), repo_url@, out@),
        decreases lines@.len() - i,
    {
        let mut found = extractor.extract(lines[i].as_str(), repo_url);
        let ghost prev = out@;
        let ghost line_refs = found@;
        out.append(&mut found);
        proof {
            let next = ls.subrange(0, i as int + 1);
            assert(next.drop_last() =~= ls.subrange(0, i as int));
            assert(next.last() == lines@[i as int]@);
            assert(out@.subrange(0, prev.len() as int) =~= prev);
            assert(out@.subrange(prev.len() as int, out@.len() as int) =~= line_refs);
            assert(refs_of_lines(next.drop_last(), repo_url@, out@.subrange(0, prev.len() as int)));
            assert(extracted(false, next.last(), repo_url@, out@.subrange(prev.len() as int, out@.len() as int)));
            assert(refs_of_lines(next, repo_url@, out@));
        }
        i = i + 1;
    }
    assert(ls.subrange(0, i as int) =~= ls);
    out
}

/// Well-formedness holds on when the cache, the titles and the edges stay and the
/// cluster labels stay distinct.
proof fn lemma_wf_frame(a: Logic, b: Logic)
    requires
        a.wf(),
        b.cache() == a.cache(),
        b.titles() == a.titles(),
        b.edges() == a.edges(),
        distinct_labels(b.clusters()),
    ensures
        b.wf(),
{
    assert forall|n: u64| a.has_title(n) implies #[trigger] b.has_title(n) by {
        let k = choose|k: int| 0 <= k < a.titles().len() && #[trigger] a.titles()[k].0 == n;
        assert(b.titles()[k].0 == n);
    }
    assert forall|e: (u64, u64)| #[trigger] b.edges().contains(e) implies b.has_title(e.0) && b.has_title(e.1) by {
        assert(a.edges().contains(e));
    }
}

proof fn lemma_titles_grow(a: Logic, b: Logic)
    requires
        a.titles().len() <= b.titles().len(),
        forall|k: int| 0 <= k < a.titles().len() ==> #[trigger] b.titles()[k] == a.titles()[k],
    ensures
        forall|n: u64| a.has_title(n) ==> #[trigger] b.has_title(n),
{
    assert forall|n: u64| a.has_title(n) implies #[trigger] b.has_title(n) by {
        let k = choose|k: int| 0 <= k < a.titles().len() && #[trigger] a.titles()[k].0 == n;
        assert(b.titles()[k].0 == n);
    }
}

proof fn lemma_push_keeps(s: Seq<(u64, u64)>, x: (u64, u64))
    ensures
        forall|y: (u64, u64)| #[trigger] s.contains(y) ==> s.push(x).contains(y),
        s.push(x).contains(x),
{
    assert forall|y: (u64, u64)| #[trigger] s.contains(y) implies s.push(x).contains(y) by {
        let i = choose|i: int| 0 <= i < s.len() && s[i] == y;
        assert(s.push(x)[i] == y);
    }
    assert(s.push(x)[s.len() as int] == x);
}

proof fn lemma_push_contains(s: Seq<u64>, x: u64)
    ensures
        forall|y: u64| #[trigger] s.push(x).contains(y) <==> s.contains(y) || y == x,
{
    assert forall|y: u64| #[trigger] s.push(x).contains(y) <==> s.contains(y) || y == x by {
        if s.contains(y) {
            let i = choose|i: int| 0 <= i < s.len() && s[i] == y;
            assert(s.push(x)[i] == y);
        }
        if y == x {
            assert(s.push(x)[s.len() as int] == y);
        }
        if s.push(x).contains(y) {
            let i = choose|i: int| 0 <= i < s.len() + 1 && s.push(x)[i] == y;
            if i < s.len() {
                assert(s[i] == y);
            }
        }
    }
}

/// Whether `v` holds a string equal to `s`.
pub fn contains_string(v: &Vec<String>, s: &String) -> (r: bool)
    ensures
        r == exists|i: int| 0 <= i < v@.len() && #[trigger] v@[i]@ == s@,
{
    let mut i: usize = 0;
    while i < v.len()
        invariant
            i <= v@.len(),
            forall|k: int| 0 <= k < i ==> #[trigger] v@[k]@ != s@,
        decreases v@.len() - i,
    {
        if v[i] == *s {
            return true;
        }
        i = i + 1;
    }
    false
}

/// Adds `x` to `v` unless it is there already.
pub fn insert_number(v: &mut Vec<u64>, x: u64)
    ensures
        final(v)@ == if old(v)@.contains(x) {
            old(v)@
        } else {
            old(v)@.push(x)
        },
{
    if !contains_number(v, x) {
        v.push(x);
    }
}

/// Whether `v` holds `x`.
pub fn contains_number(v: &Vec<u64>, x: u64) -> (r: bool)
    ensures
        r == v@.contains(x),
{
    let mut i: usize = 0;
    while i < v.len()
        invariant
            i <= v@.len(),
            forall|k: int| 0 <= k < i ==> v@[k] != x,
        decreases v@.len() - i,
    {
        if v[i] == x {
            proof {
                assert(v@[i as int] == x);
            }
            return true;
        }
        i = i + 1;
    }
    false
}

} // verus!
