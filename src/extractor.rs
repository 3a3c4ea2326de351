use vstd::prelude::*;

use crate::config::{Config, Repo};
use crate::github::Github;
use crate::refs::{extracted, token_starts, LocalRefExtractor, Reference, RemoteRefExtractor};
use crate::text::{lines_of, split_lines, views};

verus! {

/// What the commits say of one issue.
pub struct IssueDetails {
    pub issue_url: String,
    pub issue_title: String,
    pub messages: Vec<String>,
}

/// Collects the references that commit messages make.
pub struct Extractor {
    pub repos: Vec<Repo>,
    pub days: i32,
    pub remote_ref_extractor: RemoteRefExtractor,
    pub local_ref_extractor: LocalRefExtractor,
    pub github: Github,
}

/// `refs` are the references of `lines`, line after line, each line's local ones first
/// and then its remote ones; `base` is the repository's own URL.
pub open spec fn commit_refs(lines: Seq<Seq<char>>, base: Seq<char>, refs: Seq<Reference>) -> bool
    decreases lines.len(),
{
    if lines.len() == 0 {
        refs.len() == 0
    } else {
        let line = lines.last();
        let r = refs.len() - token_starts(true, line, 0).len();
        let l = r - token_starts(false, line, 0).len();
        &&& 0 <= l
        &&& commit_refs(lines.drop_last(), base, refs.subrange(0, l))
        &&& extracted(false, line, base, refs.subrange(l, r))
        &&& extracted(true, line, Seq::empty(), refs.subrange(r, refs.len() as int))
    }
}

/// How many references `commit_refs` finds in `lines`.
pub open spec fn commit_count(lines: Seq<Seq<char>>) -> int
    decreases lines.len(),
{
    if lines.len() == 0 {
        0
    } else {
        commit_count(lines.drop_last()) + token_starts(false, lines.last(), 0).len()
            + token_starts(true, lines.last(), 0).len()
    }
}

/// `refs` are the references of the commits of each source, source after source; a
/// source is a repository's URL and its commit messages, one per line.
pub open spec fn sources_refs(sources: Seq<(Seq<char>, Seq<char>)>, refs: Seq<Reference>) -> bool
    decreases sources.len(),
{
    if sources.len() == 0 {
        refs.len() == 0
    } else {
        let m = refs.len() - commit_count(lines_of(sources.last().1));
        &&& 0 <= m
        &&& sources_refs(sources.drop_last(), refs.subrange(0, m))
        &&& commit_refs(lines_of(sources.last().1), sources.last().0, refs.subrange(m, refs.len() as int))
    }
}

pub open spec fn source_views(sources: Seq<(String, String)>) -> Seq<(Seq<char>, Seq<char>)> {
    sources.map_values(|p: (String, String)| (p.0@, p.1@))
}

proof fn lemma_commit_count(lines: Seq<Seq<char>>, base: Seq<char>, refs: Seq<Reference>)
    requires
        commit_refs(lines, base, refs),
    ensures
        refs.len() == commit_count(lines),
    decreases lines.len(),
{
    if lines.len() > 0 {
        let line = lines.last();
        let r = refs.len() - token_starts(true, line, 0).len();
        let l = r - token_starts(false, line, 0).len();
        lemma_commit_count(lines.drop_last(), base, refs.subrange(0, l));
    }
}

/// The messages of the references in `refs` to `url`, in order.
pub open spec fn messages_for(refs: Seq<Reference>, url: Seq<char>) -> Seq<Seq<char>>
    decreases refs.len(),
{
    if refs.len() == 0 {
        seq![]
    } else if refs.last().full_issue_url@ == url {
        messages_for(refs.drop_last(), url).push(refs.last().message@)
    } else {
        messages_for(refs.drop_last(), url)
    }
}

pub open spec fn has_url(v: Seq<String>, u: Seq<char>) -> bool {
    exists|i: int| 0 <= i < v.len() && #[trigger] v[i]@ == u
}

pub open spec fn has_entry(v: Seq<IssueDetails>, u: Seq<char>) -> bool {
    exists|i: int| 0 <= i < v.len() && #[trigger] v[i].issue_url@ == u
}

pub open spec fn mentions(refs: Seq<Reference>, url: Seq<char>) -> bool {
    exists|k: int| 0 <= k < refs.len() && #[trigger] refs[k].full_issue_url@ == url
}

/// `out` holds one entry per issue that `refs` mention, in the order of first mention,
/// each with the messages that mention it and no title yet.
pub open spec fn grouped(refs: Seq<Reference>, out: Seq<IssueDetails>) -> bool {
    &&& forall|i: int, j: int| 0 <= i < j < out.len() ==> #[trigger] out[i].issue_url@ != #[trigger] out[j].issue_url@
    &&& forall|k: int| 0 <= k < refs.len() ==> has_entry(out, #[trigger] refs[k].full_issue_url@)
    &&& forall|i: int| 0 <= i < out.len() ==> mentions(refs, #[trigger] out[i].issue_url@)
    &&& forall|i: int|
        0 <= i < out.len() ==> {
            &&& views(#[trigger] out[i].messages@) == messages_for(refs, out[i].issue_url@)
            &&& out[i].issue_title@ == Seq::<char>::empty()
        }
}

pub open spec fn unknown_title() -> Seq<char> {
    seq!['?', '?', '?']
}

impl Extractor {
    pub fn new(config: Config, days: i32) -> (r: Self)
        ensures
            r.repos == config.repos,
            r.days == days,
            r.github.user_token == config.user_token,
    {
        let github = config.github();
        Extractor {
            repos: config.repos,
            days,
            remote_ref_extractor: RemoteRefExtractor::new(),
            local_ref_extractor: LocalRefExtractor::new(),
            github,
        }
    }

    /// What the commits of each source say of each issue: one entry per issue they
    /// mention, in the order of first mention, with the messages that mention it and no
    /// title yet. A source is a repository's URL and its commit messages, one per line.
    pub fn extract(&self, sources: &Vec<(String, String)>) -> (r: Vec<IssueDetails>)
        ensures
            exists|refs: Seq<Reference>|
                #[trigger] sources_refs(source_views(sources@), refs) && grouped(refs, r@),
    {
        let mut all: Vec<Reference> = Vec::new();
        let mut i: usize = 0;
        while i < sources.len()
            invariant
                i <= sources@.len(),
                sources_refs(source_views(sources@).subrange(0, i as int), all@),
            decreases sources@.len() - i,
        {
            let mut found = self.commit_references(sources[i].1.as_str(), &sources[i].0);
            let ghost prev = all@;
            let ghost part = found@;
            all.append(&mut found);
            proof {
                let next = source_views(sources@).subrange(0, i as int + 1);
                assert(next.drop_last() =~= source_views(sources@).subrange(0, i as int));
                assert(next.last() == (sources@[i as int].0@, sources@[i as int].1@));
                lemma_commit_count(lines_of(sources@[i as int].1@), sources@[i as int].0@, part);
                assert(all@.subrange(0, prev.len() as int) =~= prev);
                assert(all@.subrange(prev.len() as int, all@.len() as int) =~= part);
                assert(sources_refs(next, all@));
            }
            i = i + 1;
        }
        assert(source_views(sources@).subrange(0, i as int) =~= source_views(sources@));
        let r = group_references(&all);
        assert(sources_refs(source_views(sources@), all@) && grouped(all@, r@));
        r
    }

    /// The references in `commits`, one commit message per line, of the repository at
    /// `url`.
    pub fn commit_references(&self, commits: &str, url: &String) -> (r: Vec<Reference>)
        ensures
            commit_refs(lines_of(commits@), url@, r@),
    {
        let lines = split_lines(commits);
        let ghost ls = views(lines@);
        let mut out: Vec<Reference> = Vec::new();
        let mut i: usize = 0;
        assert(ls.subrange(0, 0).len() == 0);
        while i < lines.len()
            invariant
                ls == views(lines@),
                ls == lines_of(commits@),
                i <= lines@.len(),
                commit_refs(ls.subrange(0, i as int), url@, out@),
            decreases lines@.len() - i,
        {
            let line = lines[i].as_str();
            let mut local = self.local_ref_extractor.extract(line, url);
            let mut remote = self.remote_ref_extractor.extract(line);
            let ghost prev = out@;
            let ghost lr = local@;
            let ghost rr = remote@;
            out.append(&mut local);
            out.append(&mut remote);
            proof {
                let next = ls.subrange(0, i as int + 1);
                assert(next.drop_last() =~= ls.subrange(0, i as int));
                assert(next.last() == lines@[i as int]@);
                let l = prev.len() as int;
                let r = l + lr.len();
                assert(out@.subrange(0, l) =~= prev);
                assert(out@.subrange(l, r) =~= lr);
                assert(out@.subrange(r, out@.len() as int) =~= rr);
                assert(commit_refs(next, url@, out@));
            }
            i = i + 1;
        }
        assert(ls.subrange(0, i as int) =~= ls);
        out
    }
}

/// The URLs that `refs` mention, each once, in the order of first mention.
fn distinct_urls(refs: &Vec<Reference>) -> (r: Vec<String>)
    ensures
        forall|i: int, j: int| 0 <= i < j < r@.len() ==> #[trigger] r@[i]@ != #[trigger] r@[j]@,
        forall|k: int| 0 <= k < refs@.len() ==> has_url(r@, #[trigger] refs@[k].full_issue_url@),
        forall|i: int| 0 <= i < r@.len() ==> mentions(refs@, #[trigger] r@[i]@),
{
    let mut urls: Vec<String> = Vec::new();
    let mut k: usize = 0;
    while k < refs.len()
        invariant
            k <= refs@.len(),
            forall|i: int, j: int| 0 <= i < j < urls@.len() ==> #[trigger] urls@[i]@ != #[trigger] urls@[j]@,
            forall|m: int| 0 <= m < k ==> has_url(urls@, #[trigger] refs@[m].full_issue_url@),
            forall|i: int| 0 <= i < urls@.len() ==> mentions(refs@, #[trigger] urls@[i]@),
        decreases refs@.len() - k,
    {
        let u = &refs[k].full_issue_url;
        let mut found = false;
        let mut j: usize = 0;
        while j < urls.len()
            invariant
                k < refs@.len(),
                u == &refs@[k as int].full_issue_url,
                forall|a: int, b: int| 0 <= a < b < urls@.len() ==> #[trigger] urls@[a]@ != #[trigger] urls@[b]@,
                forall|m: int| 0 <= m < k ==> has_url(urls@, #[trigger] refs@[m].full_issue_url@),
                forall|i: int| 0 <= i < urls@.len() ==> mentions(refs@, #[trigger] urls@[i]@),
                j <= urls@.len(),
                found ==> has_url(urls@, u@),
                !found ==> forall|i: int| 0 <= i < j ==> #[trigger] urls@[i]@ != u@,
            decreases urls@.len() - j,
        {
            if urls[j] == *u {
                found = true;
                assert(urls@[j as int]@ == u@);
            }
            j = j + 1;
        }
        if !found {
            let ghost before = urls@;
            urls.push(u.clone());
            proof {
                assert(urls@[before.len() as int]@ == u@);
                assert forall|m: int| 0 <= m < k + 1 implies has_url(urls@, #[trigger] refs@[m].full_issue_url@) by {
                    if m < k {
                        assert(has_url(before, refs@[m].full_issue_url@));
                        let i = choose|i: int| 0 <= i < before.len() && #[trigger] before[i]@ == refs@[m].full_issue_url@;
                        assert(urls@[i] == before[i]);
                    } else {
                        assert(urls@[before.len() as int]@ == refs@[m].full_issue_url@);
                    }
                }
                assert forall|i: int| 0 <= i < urls@.len() implies mentions(refs@, #[trigger] urls@[i]@) by {
                    if i < before.len() {
                        assert(urls@[i] == before[i]);
                    } else {
                        assert(refs@[k as int].full_issue_url@ == urls@[i]@);
                    }
                }
                assert forall|a: int, b: int| 0 <= a < b < urls@.len() implies #[trigger] urls@[a]@ != #[trigger] urls@[b]@ by {
                    assert(urls@[a] == before[a]);
                    if b < before.len() {
                        assert(urls@[b] == before[b]);
                    }
                }
            }
        } else {
            proof {
                assert forall|m: int| 0 <= m < k + 1 implies has_url(urls@, #[trigger] refs@[m].full_issue_url@) by {
                    if m == k {
                        assert(has_url(urls@, u@));
                    }
                }
            }
        }
        k = k + 1;
    }
    urls
}

/// The messages of the references in `refs` to `url`, in order.
fn messages_of(refs: &Vec<Reference>, url: &String) -> (r: Vec<String>)
    ensures
        views(r@) == messages_for(refs@, url@),
{
    let mut out: Vec<String> = Vec::new();
    let mut k: usize = 0;
    while k < refs.len()
        invariant
            k <= refs@.len(),
            views(out@) == messages_for(refs@.subrange(0, k as int), url@),
        decreases refs@.len() - k,
    {
        proof {
            let next = refs@.subrange(0, k as int + 1);
            assert(next.drop_last() =~= refs@.subrange(0, k as int));
            assert(next.last() == refs@[k as int]);
        }
        if refs[k].full_issue_url == *url {
            let m = refs[k].message.clone();
            proof {
                assert(views(out@.push(m)) =~= views(out@).push(m@));
            }
            out.push(m);
        }
        k = k + 1;
    }
    assert(refs@.subrange(0, k as int) =~= refs@);
    out
}

/// One entry per issue that `refs` mention, in the order of first mention, with the
/// messages that mention it.
pub fn group_references(refs: &Vec<Reference>) -> (r: Vec<IssueDetails>)
    ensures
        grouped(refs@, r@),
{
    let urls = distinct_urls(refs);
    let mut out: Vec<IssueDetails> = Vec::new();
    let mut i: usize = 0;
    while i < urls.len()
        invariant
            forall|a: int, b: int| 0 <= a < b < urls@.len() ==> #[trigger] urls@[a]@ != #[trigger] urls@[b]@,
            forall|k: int| 0 <= k < refs@.len() ==> has_url(urls@, #[trigger] refs@[k].full_issue_url@),
            forall|j: int| 0 <= j < urls@.len() ==> mentions(refs@, #[trigger] urls@[j]@),
            i <= urls@.len(),
            out@.len() == i,
            forall|j: int| 0 <= j < i ==> (#[trigger] out@[j]).issue_url@ == urls@[j]@,
            forall|j: int|
                0 <= j < i ==> {
                    &&& views(#[trigger] out@[j].messages@) == messages_for(refs@, out@[j].issue_url@)
                    &&& out@[j].issue_title@ == Seq::<char>::empty()
                },
        decreases urls@.len() - i,
    {
        let messages = messages_of(refs, &urls[i]);
        out.push(IssueDetails { issue_url: urls[i].clone(), issue_title: String::new(), messages });
        i = i + 1;
    }
    proof {
        assert forall|a: int, b: int| 0 <= a < b < out@.len() implies #[trigger] out@[a].issue_url@ != #[trigger] out@[b].issue_url@ by {
            assert(urls@[a]@ != urls@[b]@);
        }
        assert forall|k: int| 0 <= k < refs@.len() implies has_entry(out@, #[trigger] refs@[k].full_issue_url@) by {
            assert(has_url(urls@, refs@[k].full_issue_url@));
            let j = choose|j: int| 0 <= j < urls@.len() && #[trigger] urls@[j]@ == refs@[k].full_issue_url@;
            assert(out@[j].issue_url@ == urls@[j]@);
        }
        assert forall|j: int| 0 <= j < out@.len() implies mentions(refs@, #[trigger] out@[j].issue_url@) by {
            assert(out@[j].issue_url@ == urls@[j]@);
        }
    }
    out
}

/// `a` comes no later than `b` in the order of characters, as `String`s are ordered.
pub open spec fn lex_le(a: Seq<char>, b: Seq<char>) -> bool
    decreases a.len(),
{
    if a.len() == 0 {
        true
    } else if b.len() == 0 {
        false
    } else if a[0] != b[0] {
        a[0] < b[0]
    } else {
        lex_le(a.drop_first(), b.drop_first())
    }
}

proof fn lemma_lex_total(a: Seq<char>, b: Seq<char>)
    ensures
        lex_le(a, b) || lex_le(b, a),
    decreases a.len(),
{
    if a.len() > 0 && b.len() > 0 && a[0] == b[0] {
        lemma_lex_total(a.drop_first(), b.drop_first());
    }
}

proof fn lemma_lex_trans(a: Seq<char>, b: Seq<char>, c: Seq<char>)
    requires
        lex_le(a, b),
        lex_le(b, c),
    ensures
        lex_le(a, c),
    decreases a.len(),
{
    if a.len() > 0 && b.len() > 0 && c.len() > 0 && a[0] == b[0] && b[0] == c[0] {
        lemma_lex_trans(a.drop_first(), b.drop_first(), c.drop_first());
    }
}

/// Whether `a` comes no later than `b`.
fn text_le(a: &str, b: &str) -> (r: bool)
    ensures
        r == lex_le(a@, b@),
{
    let n = a.unicode_len();
    let m = b.unicode_len();
    let mut i: usize = 0;
    assert(a@.subrange(0, n as int) =~= a@);
    assert(b@.subrange(0, m as int) =~= b@);
    while i < n && i < m
        invariant
            n == a@.len(),
            m == b@.len(),
            i <= n,
            i <= m,
            lex_le(a@, b@) == lex_le(a@.subrange(i as int, n as int), b@.subrange(i as int, m as int)),
        decreases n - i,
    {
        let x = a.get_char(i);
        let y = b.get_char(i);
        proof {
            let sa = a@.subrange(i as int, n as int);
            let sb = b@.subrange(i as int, m as int);
            assert(sa[0] == x && sb[0] == y);
            assert(sa.drop_first() =~= a@.subrange(i as int + 1, n as int));
            assert(sb.drop_first() =~= b@.subrange(i as int + 1, m as int));
        }
        if x != y {
            return x < y;
        }
        i = i + 1;
    }
    proof {
        assert(a@.subrange(i as int, n as int).len() == n - i);
    }
    i == n
}

/// The entries ordered by URL.
pub fn sort_by_url(details: Vec<IssueDetails>) -> (r: Vec<IssueDetails>)
    ensures
        r@.to_multiset() == details@.to_multiset(),
        forall|i: int, j: int| 0 <= i < j < r@.len() ==> lex_le(#[trigger] r@[i].issue_url@, #[trigger] r@[j].issue_url@),
{
    broadcast use vstd::seq_lib::group_to_multiset_ensures;
    let ghost all = details@;
    let mut rest = details;
    let mut out: Vec<IssueDetails> = Vec::new();
    while rest.len() > 0
        invariant
            out@.to_multiset().add(rest@.to_multiset()) == all.to_multiset(),
            forall|i: int, j: int| 0 <= i < j < out@.len() ==> lex_le(#[trigger] out@[i].issue_url@, #[trigger] out@[j].issue_url@),
        decreases rest@.len(),
    {
        let ghost before_rest = rest@;
        let x = rest.pop().unwrap();
        proof {
            assert(before_rest =~= rest@.push(x));
            vstd::seq_lib::to_multiset_build(rest@, x);
        }
        let mut j: usize = 0;
        while j < out.len() && text_le(out[j].issue_url.as_str(), x.issue_url.as_str())
            invariant
                j <= out@.len(),
                forall|i: int| 0 <= i < j ==> lex_le(#[trigger] out@[i].issue_url@, x.issue_url@),
            decreases out@.len() - j,
        {
            j = j + 1;
        }
        let ghost before = out@;
        proof {
            if j < before.len() {
                lemma_lex_total(before[j as int].issue_url@, x.issue_url@);
            }
        }
        out.insert(j, x);
        proof {
            vstd::seq_lib::to_multiset_insert(before, j as int, x);
            assert forall|a: int, b: int| 0 <= a < b < out@.len() implies lex_le(#[trigger] out@[a].issue_url@, #[trigger] out@[b].issue_url@) by {
                if b < j {
                    assert(out@[a] == before[a] && out@[b] == before[b]);
                } else if b == j {
                    assert(out@[a] == before[a]);
                } else if a == j {
                    assert(out@[b] == before[b - 1]);
                    if b - 1 > j {
                        lemma_lex_trans(x.issue_url@, before[j as int].issue_url@, before[b - 1].issue_url@);
                    }
                } else if a < j {
                    assert(out@[a] == before[a] && out@[b] == before[b - 1]);
                } else {
                    assert(out@[a] == before[a - 1] && out@[b] == before[b - 1]);
                }
            }
        }
    }
    assert(rest@ =~= Seq::<IssueDetails>::empty());
    out
}

/// Sets the title fetched for each entry, `???` where none could be had.
pub fn fill_titles(details: Vec<IssueDetails>, fetched: Vec<Option<String>>) -> (r: Vec<IssueDetails>)
    requires
        details@.len() == fetched@.len(),
    ensures
        r@.len() == details@.len(),
        forall|i: int|
            0 <= i < r@.len() ==> {
                &&& (#[trigger] r@[i]).issue_url == details@[i].issue_url
                &&& r@[i].messages == details@[i].messages
                &&& r@[i].issue_title@ == match fetched@[i] {
                    Some(t) => t@,
                    None => unknown_title(),
                }
            },
{
    let ghost before = details@;
    let mut out: Vec<IssueDetails> = Vec::new();
    let mut titles = fetched;
    let mut rest = details;
    let ghost orig_titles = titles@;
    assert(rest@ == before);
    let mut i: usize = 0;
    let n = rest.len();
    while i < n
        invariant
            n == before.len(),
            n == orig_titles.len(),
            i <= n,
            out@.len() == i,
            rest@.len() == n - i,
            titles@.len() == n - i,
            forall|k: int| 0 <= k < n - i ==> #[trigger] rest@[k] == before[k],
            forall|k: int| 0 <= k < n - i ==> #[trigger] titles@[k] == orig_titles[k],
            forall|k: int|
                0 <= k < i ==> {
                    &&& (#[trigger] out@[k]).issue_url == before[n - 1 - k].issue_url
                    &&& out@[k].messages == before[n - 1 - k].messages
                    &&& out@[k].issue_title@ == match orig_titles[n - 1 - k] {
                        Some(t) => t@,
                        None => unknown_title(),
                    }
                },
        decreases n - i,
    {
        let mut d = rest.pop().unwrap();
        let t = titles.pop().unwrap();
        d.fill_title(t);
        out.push(d);
        i = i + 1;
    }
    let mut result: Vec<IssueDetails> = Vec::new();
    let mut j: usize = 0;
    while j < n
        invariant
            n == before.len(),
            n == orig_titles.len(),
            j <= n,
            out@.len() == n - j,
            result@.len() == j,
            forall|k: int|
                0 <= k < n - j ==> {
                    &&& (#[trigger] out@[k]).issue_url == before[n - 1 - k].issue_url
                    &&& out@[k].messages == before[n - 1 - k].messages
                    &&& out@[k].issue_title@ == match orig_titles[n - 1 - k] {
                        Some(t) => t@,
                        None => unknown_title(),
                    }
                },
            forall|k: int|
                0 <= k < j ==> {
                    &&& (#[trigger] result@[k]).issue_url == before[k].issue_url
                    &&& result@[k].messages == before[k].messages
                    &&& result@[k].issue_title@ == match orig_titles[k] {
                        Some(t) => t@,
                        None => unknown_title(),
                    }
                },
        decreases n - j,
    {
        let d = out.pop().unwrap();
        result.push(d);
        j = j + 1;
    }
    result
}

impl IssueDetails {
    /// Sets the title fetched for the issue, or `???` where none could be had.
    pub fn fill_title(&mut self, fetched: Option<String>)
        ensures
            final(self).issue_url == old(self).issue_url,
            final(self).messages == old(self).messages,
            final(self).issue_title@ == match fetched {
                Some(t) => t@,
                None => unknown_title(),
            },
    {
        match fetched {
            Some(t) => {
                self.issue_title = t;
            },
            None => {
                self.issue_title = String::from_str("???");
                proof {
                    reveal_strlit("???");
                    assert("???"@ =~= unknown_title());
                }
            },
        }
    }
}

} // verus!
