use vstd::prelude::*;

use crate::github::Issue;
use crate::refs::{digits_value, is_ascii_digit, is_digit};

verus! {

/// What `str::to_lowercase` makes of a text.
pub uninterp spec fn lower_of(s: Seq<char>) -> Seq<char>;

/// What a regular expression's replace-all makes of a text.
pub uninterp spec fn regex_replaced(pattern: Seq<char>, s: Seq<char>, rep: Seq<char>) -> Seq<char>;

/// Relies on `str::to_lowercase`: the lowercase form depends on the characters alone,
/// and an empty text stays empty.
#[verifier::external_body]
fn lowercase(s: &str) -> (r: String)
    ensures
        r@ == lower_of(s@),
        s@.len() == 0 ==> r@.len() == 0,
{
    s.to_lowercase()
}

/// Relies on `regex::Regex::new` and `Regex::replace_all`: where `pattern` compiles,
/// every non-overlapping match in `s` is replaced by `rep`; the result depends on the
/// three texts alone.
#[verifier::external_body]
fn regex_replace_all(pattern: &str, s: &str, rep: &str) -> (r: Option<String>)
    ensures
        r matches Some(x) ==> x@ == regex_replaced(pattern@, s@, rep@),
{
    match regex::Regex::new(pattern) {
        Ok(re) => Some(re.replace_all(s, rep).to_string()),
        Err(_) => None,
    }
}

/// The pattern of a run of characters that are not word characters: `[\W]+`.
pub open spec fn non_word_runs() -> Seq<char> {
    seq!['[', '\\', 'W', ']', '+']
}

/// Proposes a branch for an issue assigned to the user.
pub struct BranchFromIssue {
    pub repo: Option<String>,
    /// Only issues whose cards are in the repository's in-progress column.
    pub only_active_column: bool,
}

pub open spec fn underscore() -> Seq<char> {
    seq!['_']
}

impl BranchFromIssue {
    /// The title in lower case with each run of non-word characters made one `_`.
    pub fn stupify(title: String) -> (r: Option<String>)
        ensures
            r matches Some(x) ==> x@ == regex_replaced(non_word_runs(), lower_of(title@), underscore()),
    {
        let lower = lowercase(title.as_str());
        proof {
            reveal_strlit("_");
            reveal_strlit("[\\W]+");
            assert("_"@ =~= underscore());
            assert("[\\W]+"@ =~= non_word_runs());
        }
        let r = regex_replace_all("[\\W]+", lower.as_str(), "_");
        r
    }

    /// The branch name for issue `id` titled `title`: the id, `_`, the stupified title.
    pub fn branch_name(id: &str, title: String) -> (r: Option<String>)
        ensures
            r matches Some(x) ==> x@ == id@ + underscore() + regex_replaced(
                non_word_runs(),
                lower_of(title@),
                underscore(),
            ),
    {
        match BranchFromIssue::stupify(title) {
            Some(t) => {
                let mut name = String::from_str(id);
                name.append("_");
                name.append(t.as_str());
                proof {
                    reveal_strlit("_");
                    assert("_"@ =~= underscore());
                    assert(name@ =~= id@ + underscore() + t@);
                }
                Some(name)
            },
            None => None,
        }
    }
}

impl Issue {
    /// One of the issue's assignees has the login `login`.
    pub open spec fn assigned_spec(&self, login: Seq<char>) -> bool {
        exists|i: int| 0 <= i < self.assignees@.len() && #[trigger] self.assignees@[i].login@ == login
    }

    pub fn is_assigned_to(&self, login: &String) -> (r: bool)
        ensures
            r == self.assigned_spec(login@),
    {
        let mut i: usize = 0;
        while i < self.assignees.len()
            invariant
                i <= self.assignees@.len(),
                forall|k: int| 0 <= k < i ==> #[trigger] self.assignees@[k].login@ != login@,
            decreases self.assignees@.len() - i,
        {
            if self.assignees[i].login == *login {
                return true;
            }
            i = i + 1;
        }
        false
    }
}

/// The last `/`-separated part of `s`.
pub open spec fn last_segment(s: Seq<char>) -> Seq<char>
    decreases s.len(),
{
    if s.len() == 0 {
        s
    } else if s.last() == '/' {
        seq![]
    } else {
        last_segment(s.drop_last()).push(s.last())
    }
}

/// The issue number a project card's content URL ends with, where its last part is a
/// number that fits in a `u64`.
pub fn card_issue_number(content_url: &str) -> (r: Option<u64>)
    ensures
        ({
            let seg = last_segment(content_url@);
            r is Some <==> (seg.len() > 0 && (forall|i: int| 0 <= i < seg.len() ==> is_digit(#[trigger] seg[i]))
                && digits_value(seg, 0, seg.len() as int) <= u64::MAX)
        }),
        r matches Some(n) ==> n == digits_value(last_segment(content_url@), 0, last_segment(content_url@).len() as int),
{
    let n = content_url.unicode_len();
    let mut start = n;
    assert(content_url@.subrange(0, n as int) =~= content_url@);
    assert(last_segment(content_url@) =~= last_segment(content_url@.subrange(0, n as int)) + content_url@.subrange(n as int, n as int));
    while start > 0 && content_url.get_char(start - 1) != '/'
        invariant
            n == content_url@.len(),
            start <= n,
            last_segment(content_url@) == last_segment(content_url@.subrange(0, start as int)) + content_url@.subrange(start as int, n as int),
        decreases start,
    {
        proof {
            let s = content_url@.subrange(0, start as int);
            assert(s.drop_last() =~= content_url@.subrange(0, start as int - 1));
            assert(content_url@.subrange(start as int - 1, n as int) =~= seq![s.last()] + content_url@.subrange(start as int, n as int));
            assert(last_segment(s) == last_segment(s.drop_last()).push(s.last()));
            assert(last_segment(s.drop_last()).push(s.last()) + content_url@.subrange(start as int, n as int) =~= last_segment(s.drop_last()) + content_url@.subrange(start as int - 1, n as int));
        }
        start = start - 1;
    }
    proof {
        let s = content_url@.subrange(0, start as int);
        if start > 0 {
            assert(s.last() == '/');
        }
        assert(last_segment(s) =~= Seq::<char>::empty());
        assert(last_segment(content_url@) =~= content_url@.subrange(start as int, n as int));
    }
    let ghost seg = content_url@.subrange(start as int, n as int);
    if start == n {
        return None;
    }
    let mut value: u64 = 0;
    let mut i = start;
    while i < n
        invariant
            n == content_url@.len(),
            start <= i <= n,
            seg == content_url@.subrange(start as int, n as int),
            seg == last_segment(content_url@),
            forall|k: int| 0 <= k < i - start ==> is_digit(#[trigger] seg[k]),
            value == digits_value(seg, 0, i - start),
        decreases n - i,
    {
        let c = content_url.get_char(i);
        if !is_ascii_digit(c) {
            assert(!is_digit(seg[i - start]));
            return None;
        }
        let d = (c as u32 - '0' as u32) as u64;
        assert(digits_value(seg, 0, i - start + 1) == digits_value(seg, 0, i - start) * 10 + (seg[i - start] as int - '0' as int));
        match value.checked_mul(10) {
            Some(m) => match m.checked_add(d) {
                Some(v) => {
                    value = v;
                },
                None => {
                    proof {
                        lemma_value_bound(seg, (i - start) as int + 1);
                    }
                    return None;
                },
            },
            None => {
                proof {
                    assert(digits_value(seg, 0, i - start + 1) >= digits_value(seg, 0, i - start) * 10) by (nonlinear_arith)
                        requires
                            digits_value(seg, 0, i - start + 1) == digits_value(seg, 0, i - start) * 10 + (seg[i - start] as int - '0' as int),
                            '0' <= seg[i - start],
                    {}
                    lemma_value_bound(seg, (i - start) as int + 1);
                }
                return None;
            },
        }
        i = i + 1;
    }
    assert(i - start == seg.len());
    Some(value)
}

/// A prefix of a digit run is worth no more than the whole run.
proof fn lemma_value_bound(seg: Seq<char>, b: int)
    requires
        0 <= b <= seg.len(),
        forall|k: int| 0 <= k < b ==> is_digit(#[trigger] seg[k]),
    ensures
        (forall|k: int| 0 <= k < seg.len() ==> is_digit(#[trigger] seg[k])) ==> digits_value(seg, 0, b)
            <= digits_value(seg, 0, seg.len() as int),
    decreases seg.len() - b,
{
    if (forall|k: int| 0 <= k < seg.len() ==> is_digit(#[trigger] seg[k])) && b < seg.len() {
        lemma_value_bound(seg, b + 1);
        assert(is_digit(seg[b]));
    }
}

} // verus!
