use vstd::prelude::*;

verus! {

/// A link to an issue found in a line of text.
pub struct Reference {
    pub full_issue_url: String,
    pub message: String,
    pub number: u64,
}

impl Reference {
    /// A copy of the reference.
    pub fn clone_ref(&self) -> (r: Reference)
        ensures
            r == *self,
    {
        Reference {
            full_issue_url: self.full_issue_url.clone(),
            message: self.message.clone(),
            number: self.number,
        }
    }
}

pub open spec fn is_digit(c: char) -> bool {
    '0' <= c && c <= '9'
}

/// End (exclusive) of the run of digits that starts at `i`.
pub open spec fn digits_end(s: Seq<char>, i: int) -> int
    decreases s.len() - i,
{
    if 0 <= i < s.len() && is_digit(s[i]) {
        digits_end(s, i + 1)
    } else {
        i
    }
}

/// Decimal value of the digits `s[a..b]`.
pub open spec fn digits_value(s: Seq<char>, a: int, b: int) -> nat
    decreases b - a,
{
    if b <= a {
        0
    } else {
        (digits_value(s, a, b - 1) * 10 + (s[b - 1] as int - '0' as int)) as nat
    }
}

/// First index at or after `i` that holds `c`, or the length when there is none.
pub open spec fn find_from(s: Seq<char>, c: char, i: int) -> int
    decreases s.len() - i,
{
    if i < 0 || i >= s.len() {
        s.len() as int
    } else if s[i] == c {
        i
    } else {
        find_from(s, c, i + 1)
    }
}

pub open spec fn is_space(c: char) -> bool {
    c == ' ' || c == '\t' || c == '\n' || c == '\r' || c == '\x0b' || c == '\x0c'
}

/// Whether `c` ends a name in a remote token: whitespace and `#` end both the owner and
/// the repository, `/` ends the owner.
pub open spec fn ends_name(c: char, owner: bool) -> bool {
    is_space(c) || c == '#' || (owner && c == '/')
}

/// First index at or after `i` whose character ends a name, or the length.
pub open spec fn name_end(s: Seq<char>, i: int, owner: bool) -> int
    decreases s.len() - i,
{
    if i < 0 || i >= s.len() {
        s.len() as int
    } else if ends_name(s[i], owner) {
        i
    } else {
        name_end(s, i + 1, owner)
    }
}

/// Where the `/` after the owner of a remote token at `i` stands.
pub open spec fn owner_end(s: Seq<char>, i: int) -> int {
    name_end(s, i + 1, true)
}

/// Where the `#` after the repository of a remote token at `i` stands.
pub open spec fn repo_end(s: Seq<char>, i: int) -> int {
    name_end(s, owner_end(s, i) + 1, false)
}

/// Where the issue number of a token starting at `i` begins.
/// A local token is ` #<digits>`; a remote one is ` <owner>/<repo>#<digits>`, where the
/// owner holds no whitespace, `/` or `#`, and the repository no whitespace or `#`.
pub open spec fn number_start(remote: bool, s: Seq<char>, i: int) -> int {
    if remote {
        repo_end(s, i) + 1
    } else {
        i + 2
    }
}

pub open spec fn token_end(remote: bool, s: Seq<char>, i: int) -> int {
    digits_end(s, number_start(remote, s, i))
}

pub open spec fn token_number(remote: bool, s: Seq<char>, i: int) -> nat {
    digits_value(s, number_start(remote, s, i), token_end(remote, s, i))
}

/// The `owner/repo` part of a remote token.
pub open spec fn token_repo(s: Seq<char>, i: int) -> Seq<char> {
    s.subrange(i + 1, number_start(true, s, i) - 1)
}

/// The digits of a token, as written.
pub open spec fn token_digits(remote: bool, s: Seq<char>, i: int) -> Seq<char> {
    s.subrange(number_start(remote, s, i), token_end(remote, s, i))
}

/// A token starts at `i` and its number fits in a `u64`.
pub open spec fn token_at(remote: bool, s: Seq<char>, i: int) -> bool {
    let ns = number_start(remote, s, i);
    &&& 0 <= i < s.len()
    &&& s[i] == ' '
    &&& !remote ==> i + 1 < s.len() && s[i + 1] == '#'
    &&& remote ==> {
        let slash = owner_end(s, i);
        let hash = repo_end(s, i);
        &&& i + 1 < slash < s.len()
        &&& s[slash] == '/'
        &&& slash + 1 < hash < s.len()
        &&& s[hash] == '#'
    }
    &&& ns < s.len()
    &&& is_digit(s[ns])
    &&& token_number(remote, s, i) <= u64::MAX
}

/// Start positions of the tokens found scanning from `i`, leftmost first,
/// each search going on after the end of the previous token.
pub open spec fn token_starts(remote: bool, s: Seq<char>, i: int) -> Seq<int>
    decreases s.len() - i,
{
    if i < 0 || i >= s.len() {
        seq![]
    } else if token_at(remote, s, i) && i < token_end(remote, s, i) <= s.len() {
        seq![i] + token_starts(remote, s, token_end(remote, s, i))
    } else {
        token_starts(remote, s, i + 1)
    }
}

/// The text from `i` on with every token removed.
pub open spec fn strip_tokens(remote: bool, s: Seq<char>, i: int) -> Seq<char>
    decreases s.len() - i,
{
    if i < 0 || i >= s.len() {
        seq![]
    } else if token_at(remote, s, i) && i < token_end(remote, s, i) <= s.len() {
        strip_tokens(remote, s, token_end(remote, s, i))
    } else {
        seq![s[i]] + strip_tokens(remote, s, i + 1)
    }
}

pub open spec fn issues_path() -> Seq<char> {
    seq!['/', 'i', 's', 's', 'u', 'e', 's', '/']
}

pub open spec fn github_prefix() -> Seq<char> {
    seq![
        'h', 't', 't', 'p', 's', ':', '/', '/', 'g', 'i', 't', 'h', 'u', 'b', '.', 'c', 'o', 'm',
        '/',
    ]
}

/// The URL of the issue that a token at `i` names; `base` is the repository's own URL.
pub open spec fn token_url(remote: bool, s: Seq<char>, i: int, base: Seq<char>) -> Seq<char> {
    if remote {
        github_prefix() + token_repo(s, i) + issues_path() + token_digits(true, s, i)
    } else {
        base + issues_path() + token_digits(false, s, i)
    }
}

/// `refs` are the references of the tokens of `s`, in order, each carrying `s` without its tokens.
pub open spec fn extracted(remote: bool, s: Seq<char>, base: Seq<char>, refs: Seq<Reference>) -> bool {
    let starts = token_starts(remote, s, 0);
    &&& refs.len() == starts.len()
    &&& forall|k: int|
        0 <= k < refs.len() ==> {
            &&& #[trigger] refs[k].full_issue_url@ == token_url(remote, s, starts[k], base)
            &&& refs[k].message@ == strip_tokens(remote, s, 0)
            &&& refs[k].number as nat == token_number(remote, s, starts[k])
        }
}

proof fn lemma_digits_end(s: Seq<char>, i: int)
    requires
        0 <= i <= s.len(),
    ensures
        i <= digits_end(s, i) <= s.len(),
        forall|k: int| i <= k < digits_end(s, i) ==> is_digit(#[trigger] s[k]),
        digits_end(s, i) < s.len() ==> !is_digit(s[digits_end(s, i)]),
    decreases s.len() - i,
{
    if i < s.len() && is_digit(s[i]) {
        lemma_digits_end(s, i + 1);
    }
}

proof fn lemma_name_end(s: Seq<char>, i: int, owner: bool)
    requires
        0 <= i,
    ensures
        i <= name_end(s, i, owner) || i > s.len(),
        name_end(s, i, owner) <= s.len(),
        forall|k: int| i <= k < name_end(s, i, owner) ==> !ends_name(#[trigger] s[k], owner),
        name_end(s, i, owner) < s.len() ==> ends_name(s[name_end(s, i, owner)], owner),
    decreases s.len() - i,
{
    if i < s.len() && !ends_name(s[i], owner) {
        lemma_name_end(s, i + 1, owner);
    }
}

/// First index at or after `from` whose character ends a name, or the length.
fn scan_name(l: &str, n: usize, from: usize, owner: bool) -> (r: usize)
    requires
        n == l@.len(),
    ensures
        r == name_end(l@, from as int, owner),
{
    if from >= n {
        return n;
    }
    let mut i = from;
    while i < n
        invariant
            n == l@.len(),
            from <= i <= n,
            name_end(l@, from as int, owner) == name_end(l@, i as int, owner),
        decreases n - i,
    {
        let c = l.get_char(i);
        if c == ' ' || c == '\t' || c == '\n' || c == '\r' || c == '\x0b' || c == '\x0c' || c == '#' || (
        owner && c == '/') {
            return i;
        }
        i = i + 1;
    }
    i
}

pub(crate) proof fn lemma_find_from(s: Seq<char>, c: char, i: int)
    requires
        0 <= i,
    ensures
        i <= find_from(s, c, i) || i > s.len(),
        find_from(s, c, i) <= s.len(),
        forall|k: int| i <= k < find_from(s, c, i) ==> #[trigger] s[k] != c,
        find_from(s, c, i) < s.len() ==> s[find_from(s, c, i)] == c,
    decreases s.len() - i,
{
    if i < s.len() && s[i] != c {
        lemma_find_from(s, c, i + 1);
    }
}

proof fn lemma_value_grows(s: Seq<char>, a: int, b: int, c: int)
    requires
        a <= b <= c,
        forall|k: int| a <= k < c ==> is_digit(#[trigger] s[k]),
    ensures
        digits_value(s, a, b) <= digits_value(s, a, c),
    decreases c - b,
{
    if b < c {
        lemma_value_grows(s, a, b, c - 1);
        assert(is_digit(s[c - 1]));
    }
}

proof fn lemma_token_end(remote: bool, s: Seq<char>, i: int)
    requires
        token_at(remote, s, i),
    ensures
        i < number_start(remote, s, i) < token_end(remote, s, i) <= s.len(),
{
    let ns = number_start(remote, s, i);
    if remote {
        lemma_name_end(s, i + 1, true);
        lemma_name_end(s, owner_end(s, i) + 1, false);
    }
    lemma_digits_end(s, ns + 1);
}

proof fn lemma_no_tokens_from(remote: bool, s: Seq<char>, j: int)
    requires
        0 <= j <= s.len(),
        forall|i: int| j <= i < s.len() ==> !#[trigger] token_at(remote, s, i),
    ensures
        token_starts(remote, s, j) == Seq::<int>::empty(),
        strip_tokens(remote, s, j) == s.subrange(j, s.len() as int),
    decreases s.len() - j,
{
    if j < s.len() {
        assert(!token_at(remote, s, j));
        lemma_no_tokens_from(remote, s, j + 1);
        assert(s.subrange(j, s.len() as int) =~= seq![s[j]] + s.subrange(j + 1, s.len() as int));
    } else {
        assert(s.subrange(j, s.len() as int) =~= Seq::<char>::empty());
    }
}

proof fn lemma_one_token_from(remote: bool, s: Seq<char>, p: int, j: int)
    requires
        0 <= j <= p,
        token_at(remote, s, p),
        forall|i: int| 0 <= i < s.len() && i != p ==> !#[trigger] token_at(remote, s, i),
    ensures
        token_starts(remote, s, j) == seq![p],
        strip_tokens(remote, s, j) == s.subrange(j, p) + s.subrange(
            token_end(remote, s, p),
            s.len() as int,
        ),
    decreases p - j,
{
    lemma_token_end(remote, s, p);
    let e = token_end(remote, s, p);
    if j < p {
        assert(!token_at(remote, s, j));
        lemma_one_token_from(remote, s, p, j + 1);
        assert(s.subrange(j, p) =~= seq![s[j]] + s.subrange(j + 1, p));
    } else {
        lemma_no_tokens_from(remote, s, e);
        assert(s.subrange(p, p) =~= Seq::<char>::empty());
        assert(seq![p] + Seq::<int>::empty() =~= seq![p]);
    }
}

/// A line without a token yields no reference.
pub proof fn lemma_no_token_no_reference(
    remote: bool,
    s: Seq<char>,
    base: Seq<char>,
    refs: Seq<Reference>,
)
    requires
        extracted(remote, s, base, refs),
        forall|i: int| !#[trigger] token_at(remote, s, i),
    ensures
        refs.len() == 0,
{
    lemma_no_tokens_from(remote, s, 0);
}

/// A line with exactly one token, at `p`, yields exactly one reference: it carries the
/// token's number and the line with the token cut out.
pub proof fn lemma_one_token_one_reference(
    remote: bool,
    s: Seq<char>,
    base: Seq<char>,
    refs: Seq<Reference>,
    p: int,
)
    requires
        extracted(remote, s, base, refs),
        token_at(remote, s, p),
        forall|i: int| i != p ==> !#[trigger] token_at(remote, s, i),
    ensures
        refs.len() == 1,
        refs[0].number as nat == token_number(remote, s, p),
        refs[0].full_issue_url@ == token_url(remote, s, p, base),
        refs[0].message@ == s.subrange(0, p) + s.subrange(token_end(remote, s, p), s.len() as int),
{
    lemma_one_token_from(remote, s, p, 0);
    assert(refs[0].full_issue_url@ == token_url(remote, s, token_starts(remote, s, 0)[0], base));
}

/// `a` holds no space followed by `#`.
pub open spec fn no_local_mark(a: Seq<char>) -> bool {
    forall|i: int| 0 <= i < a.len() - 1 ==> !(#[trigger] a[i] == ' ' && a[i + 1] == '#')
}

pub open spec fn all_digits(d: Seq<char>) -> bool {
    forall|i: int| 0 <= i < d.len() ==> is_digit(#[trigger] d[i])
}

proof fn lemma_digits_end_at(s: Seq<char>, i: int, e: int)
    requires
        0 <= i <= e <= s.len(),
        forall|k: int| i <= k < e ==> is_digit(#[trigger] s[k]),
        e == s.len() || !is_digit(s[e]),
    ensures
        digits_end(s, i) == e,
    decreases e - i,
{
    if i < e {
        lemma_digits_end_at(s, i + 1, e);
    }
}

proof fn lemma_digits_value_shift(s: Seq<char>, i: int, d: Seq<char>, n: int)
    requires
        0 <= i,
        0 <= n <= d.len(),
        i + d.len() <= s.len(),
        forall|k: int| 0 <= k < d.len() ==> #[trigger] s[i + k] == d[k],
    ensures
        digits_value(s, i, i + n) == digits_value(d, 0, n),
    decreases n,
{
    if n > 0 {
        lemma_digits_value_shift(s, i, d, n - 1);
        assert(s[i + (n - 1)] == d[n - 1]);
    }
}

/// A line written as `a`, then ` #`, then the digits `d`, then `b`, where neither `a` nor
/// `b` holds ` #` and `b` does not go on with a digit, yields exactly one local
/// reference: its number is `d`'s value, its URL ends in `d`, and its message is `a`
/// followed by `b`.
pub proof fn lemma_line_with_one_local_token(
    a: Seq<char>,
    d: Seq<char>,
    b: Seq<char>,
    base: Seq<char>,
    refs: Seq<Reference>,
)
    requires
        extracted(false, a + seq![' ', '#'] + d + b, base, refs),
        d.len() > 0,
        all_digits(d),
        digits_value(d, 0, d.len() as int) <= u64::MAX,
        b.len() == 0 || !is_digit(b[0]),
        no_local_mark(a),
        no_local_mark(b),
    ensures
        refs.len() == 1,
        refs[0].number as nat == digits_value(d, 0, d.len() as int),
        refs[0].full_issue_url@ == base + issues_path() + d,
        refs[0].message@ == a + b,
{
    let s = a + seq![' ', '#'] + d + b;
    let p = a.len() as int;
    let e = p + 2 + d.len();
    assert forall|k: int| p + 2 <= k < e implies is_digit(#[trigger] s[k]) by {
        assert(s[k] == d[k - p - 2]);
    }
    if e < s.len() {
        assert(s[e] == b[0]);
    }
    lemma_digits_end_at(s, p + 2, e);
    assert forall|k: int| 0 <= k < d.len() implies #[trigger] s[p + 2 + k] == d[k] by {}
    lemma_digits_value_shift(s, p + 2, d, d.len() as int);
    assert(token_at(false, s, p));
    assert forall|i: int| i != p implies !#[trigger] token_at(false, s, i) by {
        if token_at(false, s, i) {
            if i < p - 1 {
                assert(s[i] == a[i] && s[i + 1] == a[i + 1]);
            } else if i == p - 1 {
                assert(s[i + 1] == ' ');
            } else if i == p + 1 {
                assert(s[i] == '#');
            } else if p + 2 <= i < e {
                assert(is_digit(s[i]));
            } else {
                let j = i - e;
                assert(s[i] == b[j]);
                if j < b.len() - 1 {
                    assert(s[i + 1] == b[j + 1]);
                }
            }
        }
    }
    lemma_one_token_one_reference(false, s, base, refs, p);
    assert(s.subrange(p + 2, e) =~= d);
    assert(s.subrange(0, p) + s.subrange(e, s.len() as int) =~= a + b);
}

/// First index at or after `from` that holds `c`, or the length.
pub(crate) fn find_char(l: &str, n: usize, c: char, from: usize) -> (r: usize)
    requires
        n == l@.len(),
    ensures
        r == find_from(l@, c, from as int),
{
    let mut i = from;
    if i >= n {
        return n;
    }
    while i < n
        invariant
            n == l@.len(),
            from <= i <= n,
            find_from(l@, c, from as int) == find_from(l@, c, i as int),
        decreases n - i,
    {
        if l.get_char(i) == c {
            return i;
        }
        i = i + 1;
    }
    i
}

/// End of the digit run at `from`, and its value where that fits in a `u64`.
fn digit_run(l: &str, n: usize, from: usize) -> (r: (usize, Option<u64>))
    requires
        n == l@.len(),
        from <= n,
    ensures
        r.0 == digits_end(l@, from as int),
        r.1 is Some <==> digits_value(l@, from as int, r.0 as int) <= u64::MAX,
        r.1 is Some ==> r.1->0 == digits_value(l@, from as int, r.0 as int),
{
    proof {
        lemma_digits_end(l@, from as int);
    }
    let mut i = from;
    let mut value: u64 = 0;
    let mut fits = true;
    while i < n && is_ascii_digit(l.get_char(i))
        invariant
            n == l@.len(),
            from <= i <= digits_end(l@, from as int) <= n,
            digits_end(l@, from as int) == digits_end(l@, i as int),
            forall|k: int| from <= k < digits_end(l@, from as int) ==> is_digit(#[trigger] l@[k]),
            fits ==> value == digits_value(l@, from as int, i as int),
            !fits ==> digits_value(l@, from as int, i as int) > u64::MAX,
        decreases n - i,
    {
        let c = l.get_char(i);
        proof {
            lemma_digits_end(l@, i as int + 1);
        }
        let d = (c as u32 - '0' as u32) as u64;
        if fits {
            match value.checked_mul(10) {
                Some(m) => match m.checked_add(d) {
                    Some(v) => {
                        value = v;
                    },
                    None => {
                        fits = false;
                    },
                },
                None => {
                    fits = false;
                    assert(digits_value(l@, from as int, i as int + 1) >= digits_value(l@, from as int, i as int) * 10)
                        by (nonlinear_arith)
                        requires
                            digits_value(l@, from as int, i as int + 1) == digits_value(l@, from as int, i as int) * 10 + (c as int - '0' as int),
                            '0' <= c,
                    {}
                },
            }
        } else {
            proof {
                lemma_value_grows(l@, from as int, i as int, i as int + 1);
            }
        }
        i = i + 1;
    }
    proof {
        if i < n {
            assert(!is_digit(l@[i as int]));
        }
    }
    if fits {
        (i, Some(value))
    } else {
        (i, None)
    }
}

/// The token at `i`, if any: where its number starts, where it ends, and the number.
fn token_match(l: &str, n: usize, i: usize, remote: bool) -> (r: Option<(usize, usize, u64)>)
    requires
        n == l@.len(),
        i < n,
    ensures
        r is Some <==> token_at(remote, l@, i as int),
        r matches Some((ns, e, v)) ==> {
            &&& ns == number_start(remote, l@, i as int)
            &&& e == token_end(remote, l@, i as int)
            &&& v == token_number(remote, l@, i as int)
            &&& i < ns < e <= n
        },
{
    if l.get_char(i) != ' ' {
        return None;
    }
    let ns = if remote {
        let slash = scan_name(l, n, i + 1, true);
        if slash <= i + 1 || slash >= n || l.get_char(slash) != '/' {
            return None;
        }
        let hash = scan_name(l, n, slash + 1, false);
        if hash <= slash + 1 || hash >= n || l.get_char(hash) != '#' {
            return None;
        }
        hash + 1
    } else {
        if n - i <= 2 || l.get_char(i + 1) != '#' {
            return None;
        }
        i + 2
    };
    if ns >= n || !is_ascii_digit(l.get_char(ns)) {
        return None;
    }
    let (e, v) = digit_run(l, n, ns);
    proof {
        lemma_digits_end(l@, ns as int + 1);
    }
    match v {
        Some(v) => Some((ns, e, v)),
        None => None,
    }
}

/// The tokens of `l` (start, number start, end, number) and `l` without them.
fn scan(l: &str, remote: bool) -> (r: (Vec<(usize, usize, usize, u64)>, String))
    ensures
        r.0@.len() == token_starts(remote, l@, 0).len(),
        forall|k: int|
            0 <= k < r.0@.len() ==> {
                let t = #[trigger] r.0@[k];
                &&& t.0 == token_starts(remote, l@, 0)[k]
                &&& token_at(remote, l@, t.0 as int)
                &&& t.1 == number_start(remote, l@, t.0 as int)
                &&& t.2 == token_end(remote, l@, t.0 as int)
                &&& t.3 == token_number(remote, l@, t.0 as int)
                &&& t.0 < t.1 < t.2 <= l@.len()
            },
        r.1@ == strip_tokens(remote, l@, 0),
{
    let n = l.unicode_len();
    let ghost s = l@;
    let mut toks: Vec<(usize, usize, usize, u64)> = Vec::new();
    let mut msg = String::new();
    let ghost mut starts: Seq<int> = seq![];
    let mut i: usize = 0;
    let mut seg: usize = 0;
    while i < n
        invariant
            s == l@,
            n == s.len(),
            seg <= i <= n,
            token_starts(remote, s, 0) == starts + token_starts(remote, s, i as int),
            strip_tokens(remote, s, 0) == msg@ + s.subrange(seg as int, i as int) + strip_tokens(
                remote,
                s,
                i as int,
            ),
            starts.len() == toks@.len(),
            forall|k: int|
                0 <= k < toks@.len() ==> {
                    let t = #[trigger] toks@[k];
                    &&& t.0 == starts[k]
                    &&& token_at(remote, s, t.0 as int)
                    &&& t.1 == number_start(remote, s, t.0 as int)
                    &&& t.2 == token_end(remote, s, t.0 as int)
                    &&& t.3 == token_number(remote, s, t.0 as int)
                    &&& t.0 < t.1 < t.2 <= s.len()
                },
        decreases n - i,
    {
        match token_match(l, n, i, remote) {
            Some((ns, e, v)) => {
                let piece = l.substring_char(seg, i);
                proof {
                    assert(token_starts(remote, s, i as int) == seq![i as int] + token_starts(
                        remote,
                        s,
                        e as int,
                    ));
                    assert(starts + token_starts(remote, s, i as int) =~= starts.push(i as int)
                        + token_starts(remote, s, e as int));
                    assert(s.subrange(e as int, e as int) =~= seq![]);
                    assert(msg@ + piece@ + s.subrange(e as int, e as int) + strip_tokens(
                        remote,
                        s,
                        e as int,
                    ) =~= msg@ + s.subrange(seg as int, i as int) + strip_tokens(remote, s, i as int));
                    starts = starts.push(i as int);
                }
                msg.append(piece);
                toks.push((i, ns, e, v));
                i = e;
                seg = e;
            },
            None => {
                proof {
                    assert(s.subrange(seg as int, i as int + 1) =~= s.subrange(seg as int, i as int)
                        + seq![s[i as int]]);
                }
                i = i + 1;
            },
        }
    }
    let piece = l.substring_char(seg, n);
    proof {
        assert(strip_tokens(remote, s, n as int) == Seq::<char>::empty());
        assert(starts + token_starts(remote, s, n as int) =~= starts);
        assert(msg@ + s.subrange(seg as int, n as int) + strip_tokens(remote, s, n as int) =~= msg@
            + piece@);
    }
    msg.append(piece);
    (toks, msg)
}

/// Finds local references, ` #<number>`, resolved against a repository URL.
pub struct LocalRefExtractor {}

impl LocalRefExtractor {
    pub fn new() -> Self {
        LocalRefExtractor {  }
    }

    /// One reference per token of `l`, in order; `url` is the repository's own URL.
    pub fn extract(&self, l: &str, url: &String) -> (r: Vec<Reference>)
        ensures
            extracted(false, l@, url@, r@),
    {
        build_refs(l, false, url)
    }
}

/// Finds remote references, ` <owner>/<repo>#<number>`, resolved on github.com.
pub struct RemoteRefExtractor {}

impl RemoteRefExtractor {
    pub fn new() -> Self {
        RemoteRefExtractor {  }
    }

    /// One reference per token of `l`, in order.
    pub fn extract(&self, l: &str) -> (r: Vec<Reference>)
        ensures
            extracted(true, l@, Seq::empty(), r@),
    {
        let base = String::new();
        build_refs(l, true, &base)
    }
}

fn build_refs(l: &str, remote: bool, base: &String) -> (r: Vec<Reference>)
    requires
        remote ==> base@ == Seq::<char>::empty(),
    ensures
        extracted(remote, l@, base@, r@),
{
    let (toks, msg) = scan(l, remote);
    let ghost starts = token_starts(remote, l@, 0);
    let mut refs: Vec<Reference> = Vec::new();
    let mut k: usize = 0;
    while k < toks.len()
        invariant
            toks@.len() == starts.len(),
            starts == token_starts(remote, l@, 0),
            msg@ == strip_tokens(remote, l@, 0),
            remote ==> base@ == Seq::<char>::empty(),
            forall|j: int|
                0 <= j < toks@.len() ==> {
                    let t = #[trigger] toks@[j];
                    &&& t.0 == starts[j]
                    &&& token_at(remote, l@, t.0 as int)
                    &&& t.1 == number_start(remote, l@, t.0 as int)
                    &&& t.2 == token_end(remote, l@, t.0 as int)
                    &&& t.3 == token_number(remote, l@, t.0 as int)
                    &&& t.0 < t.1 < t.2 <= l@.len()
                },
            k <= toks@.len(),
            refs@.len() == k,
            forall|j: int|
                0 <= j < k ==> {
                    &&& #[trigger] refs@[j].full_issue_url@ == token_url(remote, l@, starts[j], base@)
                    &&& refs@[j].message@ == strip_tokens(remote, l@, 0)
                    &&& refs@[j].number as nat == token_number(remote, l@, starts[j])
                },
        decreases toks@.len() - k,
    {
        let (st, ns, e, v) = toks[k];
        let mut u: String;
        if remote {
            u = String::from_str("https://github.com/");
            u.append(l.substring_char(st + 1, ns - 1));
        } else {
            u = base.clone();
        }
        u.append("/issues/");
        u.append(l.substring_char(ns, e));
        proof {
            reveal_strlit("https://github.com/");
            reveal_strlit("/issues/");
            assert("https://github.com/"@ =~= github_prefix());
            assert("/issues/"@ =~= issues_path());
            if remote {
                assert(u@ =~= token_url(remote, l@, starts[k as int], base@));
            } else {
                assert(u@ =~= token_url(remote, l@, starts[k as int], base@));
            }
        }
        refs.push(Reference { full_issue_url: u, message: msg.clone(), number: v });
        k = k + 1;
    }
    refs
}

pub fn is_ascii_digit(c: char) -> (r: bool)
    ensures
        r == is_digit(c),
{
    '0' <= c && c <= '9'
}

} // verus!
