use vstd::prelude::*;

use crate::refs::{find_char, find_from, lemma_find_from};

verus! {

/// The line that starts at `i`: up to the next `\n`, without a `\r` just before it.
pub open spec fn line_at(s: Seq<char>, i: int) -> Seq<char> {
    let e = find_from(s, '\n', i);
    if i < e < s.len() && s[e - 1] == '\r' {
        s.subrange(i, e - 1)
    } else {
        s.subrange(i, e)
    }
}

/// The lines of `s` from `i` on; a final `\n` opens no empty line.
pub open spec fn lines_from(s: Seq<char>, i: int) -> Seq<Seq<char>>
    decreases s.len() - i,
{
    let e = find_from(s, '\n', i);
    if i < 0 || i >= s.len() || e < i {
        seq![]
    } else if e >= s.len() {
        seq![line_at(s, i)]
    } else {
        seq![line_at(s, i)] + lines_from(s, e + 1)
    }
}

pub open spec fn lines_of(s: Seq<char>) -> Seq<Seq<char>> {
    lines_from(s, 0)
}

pub open spec fn starts_with(l: Seq<char>, p: Seq<char>) -> bool {
    p.len() <= l.len() && l.subrange(0, p.len() as int) == p
}

pub open spec fn views(v: Seq<String>) -> Seq<Seq<char>> {
    v.map_values(|x: String| x@)
}

/// Whether `l` begins with `p`.
pub fn has_prefix(l: &str, p: &str) -> (r: bool)
    ensures
        r == starts_with(l@, p@),
{
    let n = l.unicode_len();
    let m = p.unicode_len();
    if m > n {
        return false;
    }
    let mut i: usize = 0;
    while i < m
        invariant
            n == l@.len(),
            m == p@.len(),
            m <= n,
            i <= m,
            forall|k: int| 0 <= k < i ==> l@[k] == p@[k],
        decreases m - i,
    {
        if l.get_char(i) != p.get_char(i) {
            return false;
        }
        i = i + 1;
    }
    assert(l@.subrange(0, m as int) =~= p@);
    true
}

/// The lines of `s`, as `str::lines` cuts them.
pub fn split_lines(s: &str) -> (r: Vec<String>)
    ensures
        views(r@) == lines_of(s@),
{
    let n = s.unicode_len();
    let mut out: Vec<String> = Vec::new();
    let mut i: usize = 0;
    while i < n
        invariant
            n == s@.len(),
            i <= n,
            lines_of(s@) == views(out@) + lines_from(s@, i as int),
        decreases n - i,
    {
        let e = find_char(s, n, '\n', i);
        proof {
            lemma_find_from(s@, '\n', i as int);
        }
        let end = if e < n && e > i && s.get_char(e - 1) == '\r' {
            e - 1
        } else {
            e
        };
        let line = String::from_str(s.substring_char(i, end));
        proof {
            assert(line@ == line_at(s@, i as int));
            assert(views(out@.push(line)) =~= views(out@).push(line@));
        }
        if e >= n {
            proof {
                assert(lines_from(s@, i as int) == seq![line@]);
                assert(views(out@) + lines_from(s@, i as int) =~= views(out@).push(line@));
            }
            out.push(line);
            return out;
        }
        proof {
            assert(lines_from(s@, i as int) == seq![line@] + lines_from(s@, e as int + 1));
            assert(views(out@) + lines_from(s@, i as int) =~= views(out@).push(line@) + lines_from(
                s@,
                e as int + 1,
            ));
        }
        out.push(line);
        i = e + 1;
    }
    proof {
        assert(views(out@) + lines_from(s@, i as int) =~= views(out@));
    }
    out
}


/// The lines from `k` on that start with `p`.
pub open spec fn lines_with_prefix(lines: Seq<Seq<char>>, p: Seq<char>, k: int) -> Seq<Seq<char>>
    decreases lines.len() - k,
{
    if k < 0 || k >= lines.len() {
        seq![]
    } else if starts_with(lines[k], p) {
        seq![lines[k]] + lines_with_prefix(lines, p, k + 1)
    } else {
        lines_with_prefix(lines, p, k + 1)
    }
}

/// Index of the first line from `k` on that starts with `p`, or the count of lines.
pub open spec fn first_with_prefix(lines: Seq<Seq<char>>, p: Seq<char>, k: int) -> int
    decreases lines.len() - k,
{
    if k < 0 || k >= lines.len() {
        lines.len() as int
    } else if starts_with(lines[k], p) {
        k
    } else {
        first_with_prefix(lines, p, k + 1)
    }
}

pub open spec fn list_marker() -> Seq<char> {
    seq!['-']
}

/// The list items from `k` on, passing over lines that start with `p`, up to the first
/// line that is neither.
pub open spec fn list_run(lines: Seq<Seq<char>>, p: Seq<char>, k: int) -> Seq<Seq<char>>
    decreases lines.len() - k,
{
    if k < 0 || k >= lines.len() {
        seq![]
    } else if starts_with(lines[k], p) {
        list_run(lines, p, k + 1)
    } else if starts_with(lines[k], list_marker()) {
        seq![lines[k]] + list_run(lines, p, k + 1)
    } else {
        seq![]
    }
}

/// The blocked-by block of a body: every line that starts with the prefix, then the list
/// items that follow the first of them.
pub open spec fn blocked_by_block(body: Seq<char>, p: Seq<char>) -> Seq<Seq<char>> {
    let lines = lines_of(body);
    lines_with_prefix(lines, p, 0) + list_run(lines, p, first_with_prefix(lines, p, 0) + 1)
}

/// The lines of `body` that name its blockers.
pub fn blocked_by_lines(body: &str, prefix: &str) -> (r: Vec<String>)
    ensures
        views(r@) == blocked_by_block(body@, prefix@),
{
    let lines = split_lines(body);
    let ghost ls = views(lines@);
    let mut out: Vec<String> = Vec::new();
    let mut first = lines.len();
    let mut k: usize = 0;
    while k < lines.len()
        invariant
            ls == views(lines@),
            ls == lines_of(body@),
            k <= lines.len(),
            lines_with_prefix(ls, prefix@, 0) == views(out@) + lines_with_prefix(ls, prefix@, k as int),
            first == lines.len() ==> first_with_prefix(ls, prefix@, 0) == first_with_prefix(ls, prefix@, k as int),
            first < lines.len() ==> first_with_prefix(ls, prefix@, 0) == first,
            first < lines.len() || first == lines.len(),
        decreases lines.len() - k,
    {
        let l = &lines[k];
        assert(ls[k as int] == lines@[k as int]@);
        if has_prefix(l.as_str(), prefix) {
            if first == lines.len() {
                first = k;
            }
            let c = l.clone();
            proof {
                assert(views(out@.push(c)) =~= views(out@).push(l@));
                assert(views(out@) + lines_with_prefix(ls, prefix@, k as int) =~= views(out@).push(l@)
                    + lines_with_prefix(ls, prefix@, k as int + 1));
            }
            out.push(c);
        }
        k = k + 1;
    }
    proof {
        assert(views(out@) + lines_with_prefix(ls, prefix@, k as int) =~= views(out@));
    }
    let ghost head = views(out@);
    if first < lines.len() {
        let mut j = first + 1;
        let mut stop = false;
        while j < lines.len() && !stop
            invariant
                stop ==> list_run(ls, prefix@, j as int) == Seq::<Seq<char>>::empty(),
                ls == views(lines@),
                first < j <= lines.len(),
                list_run(ls, prefix@, first + 1) == views(out@).subrange(head.len() as int, views(out@).len() as int) + list_run(ls, prefix@, j as int),
                head.len() <= out@.len(),
                head == lines_with_prefix(ls, prefix@, 0),
                first_with_prefix(ls, prefix@, 0) == first,
                views(out@).subrange(0, head.len() as int) == head,
            decreases lines.len() - j, if stop { 0int } else { 1int },
        {
            proof {
                assert(head == lines_with_prefix(ls, prefix@, 0));
            }
            let l = &lines[j];
            assert(ls[j as int] == lines@[j as int]@);
            if has_prefix(l.as_str(), prefix) {
            } else if has_prefix(l.as_str(), "-") {
                let c = l.clone();
                proof {
                    reveal_strlit("-");
                    assert("-"@ =~= list_marker());
                    assert(views(out@.push(c)) =~= views(out@).push(l@));
                    assert(views(out@).push(l@).subrange(head.len() as int, out@.len() + 1 as int) =~= views(out@).subrange(head.len() as int, out@.len() as int).push(l@));
                    assert(views(out@).push(l@).subrange(0, head.len() as int) =~= views(out@).subrange(0, head.len() as int));
                }
                out.push(c);
            } else {
                proof {
                    reveal_strlit("-");
                    assert("-"@ =~= list_marker());
                    assert(list_run(ls, prefix@, j as int) == Seq::<Seq<char>>::empty());
                }
                stop = true;
            }
            if !stop {
                j = j + 1;
            }
        }
        proof {
            if j == lines.len() {
                assert(list_run(ls, prefix@, j as int) == Seq::<Seq<char>>::empty());
            }
            assert(views(out@).subrange(head.len() as int, views(out@).len() as int) + Seq::<Seq<char>>::empty() =~= views(out@).subrange(head.len() as int, views(out@).len() as int));
        }
    }
    proof {
        assert(head == lines_with_prefix(ls, prefix@, 0));
        if first == lines.len() {
            assert(first_with_prefix(ls, prefix@, 0) == ls.len());
            assert(list_run(ls, prefix@, ls.len() + 1 as int) == Seq::<Seq<char>>::empty());
            assert(views(out@) =~= head + Seq::<Seq<char>>::empty());
        } else {
            assert(views(out@) =~= head + views(out@).subrange(head.len() as int, views(out@).len() as int));
            assert(views(out@).subrange(head.len() as int, views(out@).len() as int) == list_run(ls, prefix@, first + 1));
        }
        assert(ls == lines_of(body@));
        assert(views(out@) == lines_with_prefix(ls, prefix@, 0) + list_run(ls, prefix@, first_with_prefix(ls, prefix@, 0) + 1));
    }
    out
}

/// `s` from `i` on with each occurrence of `from`, taken left to right without
/// overlap, replaced by `to`.
pub open spec fn replaced_from(s: Seq<char>, from: Seq<char>, to: Seq<char>, i: int) -> Seq<char>
    decreases s.len() - i,
{
    if i < 0 || i >= s.len() {
        seq![]
    } else if from.len() > 0 && i + from.len() <= s.len() && s.subrange(i, i + from.len()) == from {
        to + replaced_from(s, from, to, i + from.len())
    } else {
        seq![s[i]] + replaced_from(s, from, to, i + 1)
    }
}

pub open spec fn replaced(s: Seq<char>, from: Seq<char>, to: Seq<char>) -> Seq<char> {
    replaced_from(s, from, to, 0)
}

/// `s` with every occurrence of `from` replaced by `to`, as `str::replace` does.
pub fn replace_text(s: &str, from: &str, to: &str) -> (r: String)
    requires
        from@.len() > 0,
    ensures
        r@ == replaced(s@, from@, to@),
{
    let n = s.unicode_len();
    let m = from.unicode_len();
    let mut out = String::new();
    let mut i: usize = 0;
    while i < n
        invariant
            n == s@.len(),
            m == from@.len(),
            m > 0,
            i <= n,
            replaced(s@, from@, to@) == out@ + replaced_from(s@, from@, to@, i as int),
        decreases n - i,
    {
        let rest = s.substring_char(i, n);
        if m <= n - i && has_prefix(rest, from) {
            proof {
                assert(rest@.subrange(0, m as int) =~= s@.subrange(i as int, i + m));
            }
            let ghost before = out@;
            out.append(to);
            proof {
                assert(before + replaced_from(s@, from@, to@, i as int) =~= out@ + replaced_from(s@, from@, to@, i + m));
            }
            i = i + m;
        } else {
            proof {
                if m <= n - i {
                    assert(rest@.subrange(0, m as int) =~= s@.subrange(i as int, i + m));
                }
            }
            let piece = s.substring_char(i, i + 1);
            let ghost before = out@;
            out.append(piece);
            proof {
                assert(piece@ =~= seq![s@[i as int]]);
                assert(before + replaced_from(s@, from@, to@, i as int) =~= out@ + replaced_from(s@, from@, to@, i + 1));
            }
            i = i + 1;
        }
    }
    assert(out@ + replaced_from(s@, from@, to@, i as int) =~= out@);
    out
}

} // verus!
