use vstd::prelude::*;

use crate::epic::Logic;

verus! {

pub open spec fn digit_chars() -> Seq<char> {
    seq!['0', '1', '2', '3', '4', '5', '6', '7', '8', '9']
}

/// The decimal digits of `n`.
pub open spec fn decimal(n: nat) -> Seq<char>
    decreases n,
{
    if n < 10 {
        seq![digit_chars()[n as int]]
    } else {
        decimal(n / 10) + seq![digit_chars()[(n % 10) as int]]
    }
}

/// Appends the decimal digits of `n` to `out`.
pub fn push_decimal(out: &mut String, n: u64)
    ensures
        final(out)@ == old(out)@ + decimal(n as nat),
    decreases n,
{
    if n >= 10 {
        push_decimal(out, n / 10);
    }
    let d = (n % 10) as usize;
    proof {
        reveal_strlit("0123456789");
        assert("0123456789"@ =~= digit_chars());
    }
    let digit = "0123456789".substring_char(d, d + 1);
    proof {
        assert(digit@ =~= seq![digit_chars()[d as int]]);
    }
    out.append(digit);
    proof {
        assert(out@ =~= old(out)@ + decimal(n as nat));
    }
}

pub open spec fn is_markup(c: char) -> bool {
    c == '`' || c == '<' || c == '>'
}

/// `s` without the characters that would break the graph's markup.
pub open spec fn sanitized(s: Seq<char>) -> Seq<char>
    decreases s.len(),
{
    if s.len() == 0 {
        s
    } else if is_markup(s.last()) {
        sanitized(s.drop_last())
    } else {
        sanitized(s.drop_last()).push(s.last())
    }
}

/// `at`, or the length where the text is no longer.
pub open spec fn cut(len: int, at: int) -> int {
    if len > at {
        at
    } else {
        len
    }
}

/// The part of `t` between two cut points; empty past its end.
pub open spec fn segment(t: Seq<char>, from: int, to: int) -> Seq<char> {
    t.subrange(cut(t.len() as int, from), cut(t.len() as int, to))
}

pub open spec fn segments(t: Seq<char>, c1: int, c2: int, c3: int, c4: int) -> (
    Seq<char>,
    Seq<char>,
    Seq<char>,
    Seq<char>,
) {
    (segment(t, 0, c1), segment(t, c1, c2), segment(t, c2, c3), segment(t, c3, c4))
}

pub const CUT1: usize = 10;

pub const CUT2: usize = 20;

pub const CUT3: usize = 30;

pub const CUT4: usize = 40;

/// `title` without markup characters.
pub fn sanitize_title(title: &str) -> (r: String)
    ensures
        r@ == sanitized(title@),
{
    let n = title.unicode_len();
    let mut out = String::new();
    let mut i: usize = 0;
    while i < n
        invariant
            n == title@.len(),
            i <= n,
            out@ == sanitized(title@.subrange(0, i as int)),
        decreases n - i,
    {
        let c = title.get_char(i);
        proof {
            assert(title@.subrange(0, i as int + 1).drop_last() =~= title@.subrange(0, i as int));
            assert(title@.subrange(0, i as int + 1).last() == c);
        }
        if !(c == '`' || c == '<' || c == '>') {
            let piece = title.substring_char(i, i + 1);
            out.append(piece);
            proof {
                assert(piece@ =~= seq![c]);
                assert(out@ =~= sanitized(title@.subrange(0, i as int + 1)));
            }
        }
        i = i + 1;
    }
    assert(title@.subrange(0, n as int) =~= title@);
    out
}

fn cut_exec(len: usize, at: usize) -> (r: usize)
    ensures
        r == cut(len as int, at as int),
{
    if len > at {
        at
    } else {
        len
    }
}

/// The sanitized title cut at `c1`, `c2`, `c3` and `c4` characters into four lines.
pub fn title_segments_at(title: &str, c1: usize, c2: usize, c3: usize, c4: usize) -> (r: (
    String,
    String,
    String,
    String,
))
    requires
        c1 <= c2 <= c3 <= c4,
    ensures
        (r.0@, r.1@, r.2@, r.3@) == segments(sanitized(title@), c1 as int, c2 as int, c3 as int, c4 as int),
{
    let t = sanitize_title(title);
    let len = t.as_str().unicode_len();
    let m1 = cut_exec(len, c1);
    let m2 = cut_exec(len, c2);
    let m3 = cut_exec(len, c3);
    let m4 = cut_exec(len, c4);
    let s = t.as_str();
    (
        String::from_str(s.substring_char(0, m1)),
        String::from_str(s.substring_char(m1, m2)),
        String::from_str(s.substring_char(m2, m3)),
        String::from_str(s.substring_char(m3, m4)),
    )
}

/// The sanitized title cut into four lines of ten characters.
pub fn title_segments(title: &str) -> (r: (String, String, String, String))
    ensures
        (r.0@, r.1@, r.2@, r.3@) == segments(
            sanitized(title@),
            CUT1 as int,
            CUT2 as int,
            CUT3 as int,
            CUT4 as int,
        ),
{
    title_segments_at(title, CUT1, CUT2, CUT3, CUT4)
}

/// A title no longer than the first cut point stands whole on the first line.
pub proof fn lemma_short_title(t: Seq<char>, c1: int, c2: int, c3: int, c4: int)
    requires
        0 <= c1 <= c2 <= c3 <= c4,
        t.len() <= c1,
    ensures
        segments(t, c1, c2, c3, c4) == (t, Seq::<char>::empty(), Seq::<char>::empty(), Seq::<char>::empty()),
{
    assert(t.subrange(0, t.len() as int) =~= t);
    assert(t.subrange(t.len() as int, t.len() as int) =~= Seq::<char>::empty());
}

/// A title that reaches the last cut point fills each line up to its cut point.
pub proof fn lemma_long_title(t: Seq<char>, c1: int, c2: int, c3: int, c4: int)
    requires
        0 <= c1 <= c2 <= c3 <= c4,
        t.len() >= c4,
    ensures
        segments(t, c1, c2, c3, c4) == (
            t.subrange(0, c1),
            t.subrange(c1, c2),
            t.subrange(c2, c3),
            t.subrange(c3, c4),
        ),
{
}

pub open spec fn edge_line(e: (u64, u64)) -> Seq<char> {
    decimal(e.0 as nat) + " -> "@ + decimal(e.1 as nat) + ";\n"@
}

/// One statement per edge, blocker first.
pub open spec fn edges_text(es: Seq<(u64, u64)>) -> Seq<char>
    decreases es.len(),
{
    if es.len() == 0 {
        seq![]
    } else {
        edges_text(es.drop_last()) + edge_line(es.last())
    }
}

pub open spec fn members_text(ms: Seq<u64>) -> Seq<char>
    decreases ms.len(),
{
    if ms.len() == 0 {
        seq![]
    } else {
        members_text(ms.drop_last()) + decimal(ms.last() as nat) + ";\n"@
    }
}

/// The block that groups the issues `ms` of the component label `name`.
pub open spec fn cluster_text(name: Seq<char>, ms: Seq<u64>) -> Seq<char> {
    "subgraph \"cluster"@ + name + "\" {\n"@ + members_text(ms) + "label=\""@ + name + "\";\n}\n"@
}

pub open spec fn clusters_text(cs: Seq<(String, Vec<u64>)>) -> Seq<char>
    decreases cs.len(),
{
    if cs.len() == 0 {
        seq![]
    } else {
        clusters_text(cs.drop_last()) + cluster_text(cs.last().0@, cs.last().1@)
    }
}

/// Closed issues are grey, blocked ones red, unblocked ones plain.
pub open spec fn node_style(closed: bool, unblocked: bool) -> Seq<char> {
    if closed {
        "style=filled,color=gray90,"@
    } else if unblocked {
        seq![]
    } else {
        "style=filled,color=indianred1,"@
    }
}

pub open spec fn external_mark(external: bool) -> Seq<char> {
    if external {
        "EXTERNAL<BR/> "@
    } else {
        seq![]
    }
}

pub open spec fn node_head(n: u64, style: Seq<char>, mark: Seq<char>) -> Seq<char> {
    decimal(n as nat) + " ["@ + style + "label=<"@ + mark + "issue #"@ + decimal(n as nat)
}

pub open spec fn title_lines(t: (Seq<char>, Seq<char>, Seq<char>, Seq<char>)) -> Seq<char> {
    "<BR /><FONT POINT-SIZE='12' color='gray20'>"@ + t.0 + "<BR />"@ + t.1 + "<BR />"@ + t.2
        + "<BR />"@ + t.3 + "</FONT>>]\n"@
}

/// The statement for issue `n` with its title on four lines.
pub open spec fn node_line(n: u64, title: Seq<char>, style: Seq<char>, mark: Seq<char>) -> Seq<char> {
    node_head(n, style, mark) + title_lines(
        segments(sanitized(title), CUT1 as int, CUT2 as int, CUT3 as int, CUT4 as int),
    )
}

pub open spec fn nodes_text(
    ts: Seq<(u64, String)>,
    closed: Seq<u64>,
    unblocked: Seq<u64>,
    external: Seq<u64>,
) -> Seq<char>
    decreases ts.len(),
{
    if ts.len() == 0 {
        seq![]
    } else {
        let n = ts.last().0;
        nodes_text(ts.drop_last(), closed, unblocked, external) + node_line(
            n,
            ts.last().1@,
            node_style(closed.contains(n), unblocked.contains(n)),
            external_mark(external.contains(n)),
        )
    }
}

/// The graph of `l` as a directed-graph description: edges, then clusters, then one
/// node per titled issue.
pub open spec fn graph_text(l: Logic, unblocked: Seq<u64>) -> Seq<char> {
    "digraph { \n"@ + edges_text(l.edges()) + clusters_text(l.clusters()) + nodes_text(
        l.titles(),
        l.closed(),
        unblocked,
        l.external(),
    ) + "} \n"@
}

fn push_edge(out: &mut String, e: (u64, u64))
    ensures
        final(out)@ == old(out)@ + edge_line(e),
{
    push_decimal(out, e.0);
    out.append(" -> ");
    push_decimal(out, e.1);
    out.append(";\n");
    assert(out@ =~= old(out)@ + edge_line(e));
}

fn push_cluster(out: &mut String, name: &String, ms: &Vec<u64>)
    ensures
        final(out)@ == old(out)@ + cluster_text(name@, ms@),
{
    out.append("subgraph \"cluster");
    out.append(name.as_str());
    out.append("\" {\n");
    let ghost head = out@;
    let mut i: usize = 0;
    while i < ms.len()
        invariant
            i <= ms@.len(),
            out@ == head + members_text(ms@.subrange(0, i as int)),
        decreases ms@.len() - i,
    {
        push_decimal(out, ms[i]);
        out.append(";\n");
        proof {
            let next = ms@.subrange(0, i as int + 1);
            assert(next.drop_last() =~= ms@.subrange(0, i as int));
            assert(out@ =~= head + members_text(next));
        }
        i = i + 1;
    }
    assert(ms@.subrange(0, i as int) =~= ms@);
    out.append("label=\"");
    out.append(name.as_str());
    out.append("\";\n}\n");
    assert(out@ =~= old(out)@ + cluster_text(name@, ms@));
}

fn push_node_head(out: &mut String, n: u64, closed: bool, unblocked: bool, external: bool)
    ensures
        final(out)@ == old(out)@ + node_head(n, node_style(closed, unblocked), external_mark(external)),
{
    push_decimal(out, n);
    out.append(" [");
    let ghost before_style = out@;
    if closed {
        out.append("style=filled,color=gray90,");
    } else if !unblocked {
        out.append("style=filled,color=indianred1,");
    }
    assert(out@ =~= before_style + node_style(closed, unblocked));
    out.append("label=<");
    let ghost before_mark = out@;
    if external {
        out.append("EXTERNAL<BR/> ");
    }
    assert(out@ =~= before_mark + external_mark(external));
    out.append("issue #");
    push_decimal(out, n);
    assert(out@ =~= old(out)@ + node_head(n, node_style(closed, unblocked), external_mark(external)));
}

fn push_title_lines(out: &mut String, title: &String)
    ensures
        final(out)@ == old(out)@ + title_lines(
            segments(sanitized(title@), CUT1 as int, CUT2 as int, CUT3 as int, CUT4 as int),
        ),
{
    let t = title_segments(title.as_str());
    out.append("<BR /><FONT POINT-SIZE='12' color='gray20'>");
    out.append(t.0.as_str());
    out.append("<BR />");
    out.append(t.1.as_str());
    out.append("<BR />");
    out.append(t.2.as_str());
    out.append("<BR />");
    out.append(t.3.as_str());
    out.append("</FONT>>]\n");
    assert(out@ =~= old(out)@ + title_lines((t.0@, t.1@, t.2@, t.3@)));
}

fn push_node(out: &mut String, n: u64, title: &String, closed: bool, unblocked: bool, external: bool)
    ensures
        final(out)@ == old(out)@ + node_line(
            n,
            title@,
            node_style(closed, unblocked),
            external_mark(external),
        ),
{
    push_node_head(out, n, closed, unblocked, external);
    push_title_lines(out, title);
    assert(out@ =~= old(out)@ + node_line(
        n,
        title@,
        node_style(closed, unblocked),
        external_mark(external),
    ));
}

impl Logic {
    /// The graph as a directed-graph description; `unblocked_issues` are drawn plain
    /// unless closed.
    pub fn build_graph(&self, unblocked_issues: &Vec<u64>) -> (r: String)
        ensures
            r@ == graph_text(*self, unblocked_issues@),
    {
        let mut out = String::new();
        out.append("digraph { \n");
        let ghost head = out@;
        let edges = self.issue_graph();
        let mut i: usize = 0;
        while i < edges.len()
            invariant
                edges@ == self.edges(),
                i <= edges@.len(),
                out@ == head + edges_text(edges@.subrange(0, i as int)),
            decreases edges@.len() - i,
        {
            push_edge(&mut out, edges[i]);
            proof {
                let next = edges@.subrange(0, i as int + 1);
                assert(next.drop_last() =~= edges@.subrange(0, i as int));
                assert(out@ =~= head + edges_text(next));
            }
            i = i + 1;
        }
        assert(edges@.subrange(0, i as int) =~= edges@);
        let ghost head2 = out@;
        let clusters = self.cluster_members();
        let mut i: usize = 0;
        while i < clusters.len()
            invariant
                clusters@ == self.clusters(),
                i <= clusters@.len(),
                out@ == head2 + clusters_text(clusters@.subrange(0, i as int)),
            decreases clusters@.len() - i,
        {
            push_cluster(&mut out, &clusters[i].0, &clusters[i].1);
            proof {
                let next = clusters@.subrange(0, i as int + 1);
                assert(next.drop_last() =~= clusters@.subrange(0, i as int));
                assert(out@ =~= head2 + clusters_text(next));
            }
            i = i + 1;
        }
        assert(clusters@.subrange(0, i as int) =~= clusters@);
        let ghost head3 = out@;
        let titles = self.node_titles();
        let closed = self.closed_issues();
        let external = self.external_issues();
        let mut i: usize = 0;
        while i < titles.len()
            invariant
                titles@ == self.titles(),
                closed@ == self.closed(),
                external@ == self.external(),
                i <= titles@.len(),
                out@ == head3 + nodes_text(
                    titles@.subrange(0, i as int),
                    closed@,
                    unblocked_issues@,
                    external@,
                ),
            decreases titles@.len() - i,
        {
            let n = titles[i].0;
            let is_closed = crate::epic::contains_number(closed, n);
            let is_unblocked = crate::epic::contains_number(unblocked_issues, n);
            let is_external = crate::epic::contains_number(external, n);
            push_node(&mut out, n, &titles[i].1, is_closed, is_unblocked, is_external);
            proof {
                let next = titles@.subrange(0, i as int + 1);
                assert(next.drop_last() =~= titles@.subrange(0, i as int));
                assert(out@ =~= head3 + nodes_text(next, closed@, unblocked_issues@, external@));
            }
            i = i + 1;
        }
        assert(titles@.subrange(0, i as int) =~= titles@);
        out.append("} \n");
        assert(out@ =~= graph_text(*self, unblocked_issues@));
        out
    }
}

} // verus!
