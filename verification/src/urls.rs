//! URL parsing through the `url` crate, and the text edits done on URLs
//! before and after parsing.

use vstd::prelude::*;
use vstd::string::*;

use crate::text::{chars_of, push_char};

verus! {

/// The parts of a parsed URL that the library reads.
pub struct ParsedUrl {
    /// The normalized serialization.
    pub serialization: String,
    pub scheme: String,
    /// Empty when the URL carries no user name.
    pub username: String,
    pub host: Option<String>,
    pub password: Option<String>,
    pub query: Option<String>,
    pub fragment: Option<String>,
}

pub struct UrlView {
    pub serialization: Seq<char>,
    pub scheme: Seq<char>,
    pub username: Seq<char>,
    pub host: Option<Seq<char>>,
    pub password: Option<Seq<char>>,
    pub query: Option<Seq<char>>,
    pub fragment: Option<Seq<char>>,
}

/// Characters of an optional string.
pub open spec fn opt_chars(o: Option<String>) -> Option<Seq<char>> {
    match o {
        Some(s) => Some(s@),
        None => None,
    }
}

impl ParsedUrl {
    pub open spec fn view(&self) -> UrlView {
        UrlView {
            serialization: self.serialization@,
            scheme: self.scheme@,
            username: self.username@,
            host: opt_chars(self.host),
            password: opt_chars(self.password),
            query: opt_chars(self.query),
            fragment: opt_chars(self.fragment),
        }
    }
}

/// What `url::Url::parse` makes of a text: its serialization and parts, or
/// nothing where it rejects the text.
pub uninterp spec fn parsed_url(s: Seq<char>) -> Option<UrlView>;

/// Calls `url::Url::parse` and reads back the serialization, scheme, user
/// name, host, password, query and fragment. Which texts it accepts and how
/// it normalizes them is named, not stated: the result depends on the text
/// alone.
#[verifier::external_body]
pub(crate) fn parse_url(s: &str) -> (r: Option<ParsedUrl>)
    ensures
        match r {
            Some(u) => parsed_url(s@) == Some(u.view()),
            None => parsed_url(s@) is None,
        },
{
    url::Url::parse(s).ok().map(|u| ParsedUrl {
        serialization: u.as_str().to_owned(),
        scheme: u.scheme().to_owned(),
        username: u.username().to_owned(),
        host: u.host_str().map(str::to_owned),
        password: u.password().map(str::to_owned),
        query: u.query().map(str::to_owned),
        fragment: u.fragment().map(str::to_owned),
    })
}

/// `s` with every non-overlapping occurrence of `pat`, from the left,
/// replaced by `to`. The empty pattern occurs before every character and at
/// the end.
pub open spec fn replaced(s: Seq<char>, pat: Seq<char>, to: Seq<char>) -> Seq<char>
    decreases s.len(),
{
    if pat.len() == 0 {
        if s.len() == 0 {
            to
        } else {
            to + seq![s[0]] + replaced(s.drop_first(), pat, to)
        }
    } else if s.len() < pat.len() {
        s
    } else if s.subrange(0, pat.len() as int) == pat {
        to + replaced(s.subrange(pat.len() as int, s.len() as int), pat, to)
    } else {
        seq![s[0]] + replaced(s.drop_first(), pat, to)
    }
}

/// Whether `b` occurs in `a` at position `i`.
fn occurs_at(a: &Vec<char>, i: usize, b: &Vec<char>) -> (r: bool)
    requires
        i + b@.len() <= a@.len(),
    ensures
        r == (a@.subrange(i as int, i + b@.len()) == b@),
{
    let n = a.len();
    let mut k: usize = 0;
    while k < b.len()
        invariant
            n == a@.len(),
            k <= b@.len(),
            i + b@.len() <= a@.len(),
            forall|q: int| 0 <= q < k ==> a@[i + q] == b@[q],
        decreases b.len() - k,
    {
        if a[i + k] != b[k] {
            assert(a@.subrange(i as int, i + b@.len())[k as int] == a@[i + k]);
            return false;
        }
        k = k + 1;
    }
    assert(a@.subrange(i as int, i + b@.len()) =~= b@);
    true
}

/// Replace every occurrence of a pattern, as `str::replace` does.
pub fn replace_all(s: &str, pat: &str, to: &str) -> (r: String)
    ensures
        r@ == replaced(s@, pat@, to@),
{
    let a = chars_of(s);
    let b = chars_of(pat);
    let n = a.len();
    let m = b.len();
    let mut out = String::new();
    let mut i: usize = 0;
    assert(s@.subrange(0, n as int) =~= s@);
    if m == 0 {
        while i < n
            invariant
                a@ == s@,
                pat@.len() == 0,
                n == a@.len(),
                i <= n,
                out@ + replaced(s@.subrange(i as int, n as int), pat@, to@) == replaced(s@, pat@, to@),
            decreases n - i,
        {
            let ghost rest = s@.subrange(i as int, n as int);
            let ghost before = out@;
            assert(rest.drop_first() =~= s@.subrange(i + 1, n as int));
            out.append(to);
            push_char(&mut out, a[i]);
            assert(before + (to@ + seq![rest[0]] + replaced(rest.drop_first(), pat@, to@)) =~= out@ + replaced(
                rest.drop_first(),
                pat@,
                to@,
            ));
            i = i + 1;
        }
        let ghost before = out@;
        assert(s@.subrange(n as int, n as int).len() == 0);
        out.append(to);
        assert(out@ =~= before + to@);
        return out;
    }
    while i < n
        invariant
            a@ == s@,
            b@ == pat@,
            n == a@.len(),
            m == b@.len(),
            m > 0,
            i <= n,
            out@ + replaced(s@.subrange(i as int, n as int), pat@, to@) == replaced(s@, pat@, to@),
        decreases n - i,
    {
        let ghost rest = s@.subrange(i as int, n as int);
        let ghost before = out@;
        if m <= n - i && occurs_at(&a, i, &b) {
            assert(rest.subrange(0, m as int) =~= s@.subrange(i as int, i + m));
            assert(rest.subrange(m as int, rest.len() as int) =~= s@.subrange(i + m, n as int));
            out.append(to);
            assert(before + (to@ + replaced(s@.subrange(i + m, n as int), pat@, to@)) =~= out@ + replaced(
                s@.subrange(i + m, n as int),
                pat@,
                to@,
            ));
            i = i + m;
        } else {
            proof {
                if rest.len() >= m {
                    assert(rest.subrange(0, m as int) =~= s@.subrange(i as int, i + m));
                }
                assert(rest.drop_first() =~= s@.subrange(i + 1, n as int));
            }
            push_char(&mut out, a[i]);
            assert(before + (seq![rest[0]] + replaced(rest.drop_first(), pat@, to@)) =~= out@ + replaced(
                rest.drop_first(),
                pat@,
                to@,
            ));
            i = i + 1;
        }
    }
    assert(out@ + replaced(s@.subrange(n as int, n as int), pat@, to@) =~= out@);
    out
}

/// `s` without any trailing `c`.
pub open spec fn trimmed_end(s: Seq<char>, c: char) -> Seq<char>
    decreases s.len(),
{
    if s.len() > 0 && s.last() == c {
        trimmed_end(s.drop_last(), c)
    } else {
        s
    }
}

/// Remove every trailing `c`, as `str::trim_end_matches` does with a character.
pub fn trim_end_char(s: &str, c: char) -> (r: String)
    ensures
        r@ == trimmed_end(s@, c),
{
    let a = chars_of(s);
    let mut end: usize = a.len();
    assert(s@.subrange(0, end as int) =~= s@);
    while end > 0 && a[end - 1] == c
        invariant
            a@ == s@,
            end <= a@.len(),
            trimmed_end(s@.subrange(0, end as int), c) == trimmed_end(s@, c),
        decreases end,
    {
        assert(s@.subrange(0, end as int).drop_last() =~= s@.subrange(0, end - 1));
        end = end - 1;
    }
    assert(trimmed_end(s@.subrange(0, end as int), c) == s@.subrange(0, end as int));
    let mut out = String::new();
    let mut k: usize = 0;
    while k < end
        invariant
            a@ == s@,
            end <= a@.len(),
            k <= end,
            out@ == s@.subrange(0, k as int),
        decreases end - k,
    {
        push_char(&mut out, a[k]);
        assert(out@ =~= s@.subrange(0, k + 1));
        k = k + 1;
    }
    out
}


/// Trimming a trailing character removes exactly its final run: what is
/// left is a prefix of the text that does not end in that character, and
/// every removed character is that character.
pub proof fn law_trimmed_end_removes_the_final_run(s: Seq<char>, c: char)
    ensures
        trimmed_end(s, c).len() <= s.len(),
        s.take(trimmed_end(s, c).len() as int) == trimmed_end(s, c),
        trimmed_end(s, c).len() == 0 || trimmed_end(s, c).last() != c,
        forall|k: int| trimmed_end(s, c).len() <= k < s.len() ==> s[k] == c,
    decreases s.len(),
{
    if s.len() > 0 && s.last() == c {
        law_trimmed_end_removes_the_final_run(s.drop_last(), c);
        let t = trimmed_end(s, c);
        assert(s.take(t.len() as int) =~= s.drop_last().take(t.len() as int));
        assert forall|k: int| t.len() <= k < s.len() implies s[k] == c by {
            if k < s.len() - 1 {
                assert(s.drop_last()[k] == s[k]);
            }
        }
    } else {
        assert(s.take(s.len() as int) =~= s);
    }
}

} // verus!
