//! `${VAR}` and `${VAR:-default}` placeholders in configuration values.
//!
//! Values are resolved against an environment snapshot handed in by the host;
//! the library never reads process state itself.

use vstd::prelude::*;
use vstd::string::*;

use crate::text::chars_of;

verus! {

/// One placeholder span, in character positions of the scanned value.
pub struct PlaceholderSpan {
    pub start: int,
    pub end: int,
    pub name: Seq<char>,
    pub default: Option<Seq<char>>,
}

/// Whether `${` starts at `i`.
pub open spec fn opens_at(s: Seq<char>, i: int) -> bool {
    0 <= i && i + 1 < s.len() && s[i] == '$' && s[i + 1] == '{'
}

/// First `}` at or after `from`.
pub open spec fn next_close(s: Seq<char>, from: int) -> Option<int>
    decreases s.len() - from,
{
    if from < 0 || from >= s.len() {
        None
    } else if s[from] == '}' {
        Some(from)
    } else {
        next_close(s, from + 1)
    }
}

/// First `:-` that starts in `[from, to - 1)`.
pub open spec fn next_separator(s: Seq<char>, from: int, to: int) -> Option<int>
    decreases to - from,
{
    if from < 0 || from + 1 >= to {
        None
    } else if s[from] == ':' && s[from + 1] == '-' {
        Some(from)
    } else {
        next_separator(s, from + 1, to)
    }
}

pub proof fn lemma_next_close_bounds(s: Seq<char>, from: int)
    ensures
        next_close(s, from) matches Some(c) ==> from <= c < s.len() && s[c] == '}',
        next_close(s, from) is None && from >= 0 ==> forall|k: int| from <= k < s.len() ==> s[k] != '}',
    decreases s.len() - from,
{
    if 0 <= from < s.len() && s[from] != '}' {
        lemma_next_close_bounds(s, from + 1);
    }
}

pub proof fn lemma_next_separator_bounds(s: Seq<char>, from: int, to: int)
    ensures
        next_separator(s, from, to) matches Some(k) ==> from <= k && k + 1 < to && s[k] == ':'
            && s[k + 1] == '-',
    decreases to - from,
{
    if 0 <= from && from + 1 < to && !(s[from] == ':' && s[from + 1] == '-') {
        lemma_next_separator_bounds(s, from + 1, to);
    }
}

/// The placeholder opened at `start` and closed by the `}` at `close`: the name
/// is the body before its first `:-`, and the default is everything after it.
pub open spec fn span_at(s: Seq<char>, start: int, close: int) -> PlaceholderSpan {
    match next_separator(s, start + 2, close) {
        Some(k) => PlaceholderSpan {
            start,
            end: close + 1,
            name: s.subrange(start + 2, k),
            default: Some(s.subrange(k + 2, close)),
        },
        None => PlaceholderSpan {
            start,
            end: close + 1,
            name: s.subrange(start + 2, close),
            default: None,
        },
    }
}

/// The placeholders of `s` from position `i`, left to right. A `${` with no
/// later `}` is literal text, and so is everything after it.
pub open spec fn placeholders_from(s: Seq<char>, i: int) -> Seq<PlaceholderSpan>
    decreases s.len() - i,
{
    if i < 0 || i >= s.len() {
        Seq::empty()
    } else if opens_at(s, i) && next_close(s, i + 2) is Some {
        let close = next_close(s, i + 2)->0;
        proof {
            lemma_next_close_bounds(s, i + 2);
        }
        seq![span_at(s, i, close)] + placeholders_from(s, close + 1)
    } else {
        placeholders_from(s, i + 1)
    }
}

/// All placeholders of a value.
pub open spec fn placeholders(s: Seq<char>) -> Seq<PlaceholderSpan> {
    placeholders_from(s, 0)
}

/// The spans are ordered, disjoint and inside the value.
pub open spec fn spans_ordered(s: Seq<char>, from: int, spans: Seq<PlaceholderSpan>) -> bool {
    &&& forall|k: int|
        0 <= k < spans.len() ==> from <= #[trigger] spans[k].start && spans[k].start + 3
            <= spans[k].end <= s.len()
    &&& forall|k: int| 0 < k < spans.len() ==> spans[k - 1].end <= #[trigger] spans[k].start
}

pub proof fn lemma_placeholders_ordered(s: Seq<char>, i: int)
    requires
        0 <= i,
    ensures
        spans_ordered(s, i, placeholders_from(s, i)),
    decreases s.len() - i,
{
    if i < s.len() {
        if opens_at(s, i) && next_close(s, i + 2) is Some {
            let close = next_close(s, i + 2)->0;
            lemma_next_close_bounds(s, i + 2);
            lemma_placeholders_ordered(s, close + 1);
            lemma_next_separator_bounds(s, i + 2, close);
            let rest = placeholders_from(s, close + 1);
            let all = seq![span_at(s, i, close)] + rest;
            assert(all == placeholders_from(s, i));
            assert forall|k: int| 0 <= k < all.len() implies i <= #[trigger] all[k].start
                && all[k].start + 3 <= all[k].end <= s.len() by {
                if k > 0 {
                    assert(all[k] == rest[k - 1]);
                }
            }
            assert forall|k: int| 0 < k < all.len() implies all[k - 1].end <= #[trigger] all[k].start by {
                if k > 1 {
                    assert(all[k - 1] == rest[k - 2]);
                    assert(all[k] == rest[k - 1]);
                }
            }
        } else {
            lemma_placeholders_ordered(s, i + 1);
        }
    }
}

/// With no `}` at or after `i` there are no more placeholders.
proof fn lemma_no_close_no_placeholders(s: Seq<char>, i: int)
    requires
        0 <= i,
        forall|k: int| i <= k < s.len() ==> s[k] != '}',
    ensures
        placeholders_from(s, i) == Seq::<PlaceholderSpan>::empty(),
    decreases s.len() - i,
{
    if i < s.len() {
        lemma_next_close_bounds(s, i + 2);
        lemma_no_close_no_placeholders(s, i + 1);
    }
}

/// A placeholder found in a configuration value.
pub struct Placeholder {
    /// Character range of the whole `${...}` span.
    pub start: usize,
    pub end: usize,
    /// The variable name, the part before any `:-`.
    pub name: String,
    /// The literal default of `${VAR:-default}`, when the form supplies one.
    pub default: Option<String>,
}

impl Placeholder {
    pub open spec fn view(&self) -> PlaceholderSpan {
        PlaceholderSpan {
            start: self.start as int,
            end: self.end as int,
            name: self.name@,
            default: match self.default {
                Some(d) => Some(d@),
                None => None,
            },
        }
    }
}

pub open spec fn span_views(v: Seq<Placeholder>) -> Seq<PlaceholderSpan> {
    v.map_values(|p: Placeholder| p.view())
}

fn find_close(v: &Vec<char>, from: usize) -> (r: Option<usize>)
    requires
        from <= v@.len(),
    ensures
        r == (match next_close(v@, from as int) {
            Some(c) => Some(c as usize),
            None => None::<usize>,
        }),
{
    let mut j = from;
    while j < v.len()
        invariant
            from <= j <= v@.len(),
            next_close(v@, from as int) == next_close(v@, j as int),
        decreases v.len() - j,
    {
        if v[j] == '}' {
            return Some(j);
        }
        j = j + 1;
    }
    None
}

fn find_separator(v: &Vec<char>, from: usize, to: usize) -> (r: Option<usize>)
    requires
        from <= to <= v@.len(),
    ensures
        r == (match next_separator(v@, from as int, to as int) {
            Some(k) => Some(k as usize),
            None => None::<usize>,
        }),
{
    let mut k = from;
    while k < to && to - k > 1
        invariant
            from <= k <= to,
            to <= v@.len(),
            next_separator(v@, from as int, to as int) == next_separator(v@, k as int, to as int),
        decreases to - k,
    {
        if v[k] == ':' && v[k + 1] == '-' {
            return Some(k);
        }
        k = k + 1;
    }
    None
}

/// Scan `input` for `${VAR}` and `${VAR:-default}` placeholders, in order.
///
/// An unterminated `${` is not a placeholder and is left alone, so a value
/// that merely contains a stray `${` is passed through rather than rejected.
pub fn find_placeholders(input: &str) -> (found: Vec<Placeholder>)
    ensures
        span_views(found@) == placeholders(input@),
{
    let v = chars_of(input);
    let n = v.len();
    let mut found: Vec<Placeholder> = Vec::new();
    let mut i: usize = 0;
    while i < n
        invariant
            v@ == input@,
            n == v@.len(),
            i <= n,
            span_views(found@) + placeholders_from(v@, i as int) == placeholders(v@),
        decreases n - i,
    {
        if i + 1 < n && v[i] == '$' && v[i + 1] == '{' {
            match find_close(&v, i + 2) {
                Some(close) => {
                    proof {
                        lemma_next_close_bounds(v@, i + 2);
                        lemma_next_separator_bounds(v@, i + 2, close as int);
                    }
                    let (name, default) = match find_separator(&v, i + 2, close) {
                        Some(k) => {
                            let mut name = String::new();
                            name.append(input.substring_char(i + 2, k));
                            let mut default = String::new();
                            default.append(input.substring_char(k + 2, close));
                            (name, Some(default))
                        },
                        None => {
                            let mut name = String::new();
                            name.append(input.substring_char(i + 2, close));
                            (name, None)
                        },
                    };
                    let p = Placeholder { start: i, end: close + 1, name, default };
                    let ghost before = found@;
                    found.push(p);
                    proof {
                        assert(p.view() == span_at(v@, i as int, close as int));
                        assert(span_views(found@) =~= span_views(before).push(p.view()));
                        assert(placeholders_from(v@, i as int) == seq![span_at(v@, i as int, close as int)]
                            + placeholders_from(v@, close + 1));
                        assert(span_views(found@) + placeholders_from(v@, close + 1) =~= span_views(before)
                            + placeholders_from(v@, i as int));
                    }
                    i = close + 1;
                },
                None => {
                    proof {
                        lemma_next_close_bounds(v@, i + 2);
                        lemma_no_close_no_placeholders(v@, i as int);
                        assert(span_views(found@) + placeholders_from(v@, i as int) =~= span_views(found@));
                        lemma_no_close_no_placeholders(v@, n as int);
                        assert(span_views(found@) + placeholders_from(v@, n as int) =~= span_views(found@));
                    }
                    i = n;
                },
            }
        } else {
            i = i + 1;
        }
    }
    proof {
        assert(span_views(found@) + placeholders_from(v@, n as int) =~= span_views(found@));
    }
    found
}


/// Character views of an environment snapshot, in the order given.
pub open spec fn env_view(env: Seq<(String, String)>) -> Seq<(Seq<char>, Seq<char>)> {
    env.map_values(|e: (String, String)| (e.0@, e.1@))
}

/// The value of the first variable called `name`.
pub open spec fn env_lookup(env: Seq<(Seq<char>, Seq<char>)>, name: Seq<char>) -> Option<Seq<char>>
    decreases env.len(),
{
    if env.len() == 0 {
        None
    } else if env[0].0 == name {
        Some(env[0].1)
    } else {
        env_lookup(env.drop_first(), name)
    }
}

/// A variable that is set to a non-empty value; set-but-empty counts as unset,
/// as with the shell's `:-`.
pub open spec fn env_value(env: Seq<(Seq<char>, Seq<char>)>, name: Seq<char>) -> Option<Seq<char>> {
    match env_lookup(env, name) {
        Some(v) => if v.len() > 0 { Some(v) } else { None },
        None => None,
    }
}

/// What a placeholder resolves to: a non-empty variable, else its default.
pub open spec fn resolution(p: PlaceholderSpan, env: Seq<(Seq<char>, Seq<char>)>) -> Option<Seq<char>> {
    match env_value(env, p.name) {
        Some(v) => Some(v),
        None => p.default,
    }
}

/// The text that replaces a placeholder; an unresolvable one stays as written.
pub open spec fn replacement(s: Seq<char>, p: PlaceholderSpan, env: Seq<(Seq<char>, Seq<char>)>) -> Seq<char> {
    match resolution(p, env) {
        Some(v) => v,
        None => s.subrange(p.start, p.end),
    }
}

/// `s` from `cursor` with each of `spans` replaced.
pub open spec fn expand_spans(
    s: Seq<char>,
    cursor: int,
    spans: Seq<PlaceholderSpan>,
    env: Seq<(Seq<char>, Seq<char>)>,
) -> Seq<char>
    decreases spans.len(),
{
    if spans.len() == 0 {
        s.subrange(cursor, s.len() as int)
    } else {
        s.subrange(cursor, spans[0].start) + replacement(s, spans[0], env) + expand_spans(
            s,
            spans[0].end,
            spans.drop_first(),
            env,
        )
    }
}

/// The value with every placeholder replaced by its resolution, or left in
/// place when it has none.
pub open spec fn expanded(s: Seq<char>, env: Seq<(Seq<char>, Seq<char>)>) -> Seq<char> {
    expand_spans(s, 0, placeholders(s), env)
}

/// Names of the placeholders that resolve to nothing, in order.
pub open spec fn unresolved_names(spans: Seq<PlaceholderSpan>, env: Seq<(Seq<char>, Seq<char>)>) -> Seq<Seq<char>>
    decreases spans.len(),
{
    if spans.len() == 0 {
        Seq::empty()
    } else if resolution(spans[0], env) is None {
        seq![spans[0].name] + unresolved_names(spans.drop_first(), env)
    } else {
        unresolved_names(spans.drop_first(), env)
    }
}

/// The first variable called `name` in the snapshot, if any.
pub fn lookup<'a>(env: &'a [(String, String)], name: &String) -> (r: Option<&'a String>)
    ensures
        match r {
            Some(v) => env_lookup(env_view(env@), name@) == Some(v@),
            None => env_lookup(env_view(env@), name@) is None,
        },
{
    let mut i: usize = 0;
    assert(env_view(env@).subrange(0, env@.len() as int) =~= env_view(env@));
    while i < env.len()
        invariant
            i <= env@.len(),
            env_lookup(env_view(env@), name@) == env_lookup(env_view(env@).subrange(i as int, env@.len() as int), name@),
        decreases env.len() - i,
    {
        let ghost rest = env_view(env@).subrange(i as int, env@.len() as int);
        assert(rest.drop_first() =~= env_view(env@).subrange(i + 1, env@.len() as int));
        if env[i].0 == *name {
            return Some(&env[i].1);
        }
        i = i + 1;
    }
    None
}

/// Replace the placeholders of `input`, returning the text and the names of
/// the placeholders that had neither a non-empty variable nor a default.
pub(crate) fn substitute(input: &str, environment: &[(String, String)]) -> (r: (String, Vec<String>))
    ensures
        r.0@ == expanded(input@, env_view(environment@)),
        crate::text::views(r.1@) == unresolved_names(placeholders(input@), env_view(environment@)),
{
    let found = find_placeholders(input);
    let ghost s = input@;
    let ghost env = env_view(environment@);
    let ghost spans = span_views(found@);
    proof {
        lemma_placeholders_ordered(s, 0);
    }
    let total = input.unicode_len();
    let mut out = String::new();
    let mut unresolved: Vec<String> = Vec::new();
    let mut cursor: usize = 0;
    let mut k: usize = 0;
    assert(spans.subrange(0, spans.len() as int) =~= spans);
    assert(out@ + expand_spans(s, 0, spans, env) =~= expanded(s, env));
    while k < found.len()
        invariant
            spans == span_views(found@),
            spans == placeholders(s),
            s == input@,
            total == s.len(),
            env == env_view(environment@),
            spans_ordered(s, 0, spans),
            k <= found@.len(),
            k == 0 ==> cursor == 0,
            k > 0 ==> cursor as int == spans[k - 1].end,
            cursor <= total,
            out@ + expand_spans(s, cursor as int, spans.subrange(k as int, spans.len() as int), env)
                == expanded(s, env),
            crate::text::views(unresolved@) + unresolved_names(spans.subrange(k as int, spans.len() as int), env)
                == unresolved_names(spans, env),
        decreases found.len() - k,
    {
        let p = &found[k];
        let ghost rest = spans.subrange(k as int, spans.len() as int);
        assert(rest[0] == spans[k as int]);
        assert(rest.drop_first() =~= spans.subrange(k + 1, spans.len() as int));
        assert(spans[k as int] == p.view());
        let ghost before = out@;
        out.append(input.substring_char(cursor, p.start));
        let value = lookup(environment, &p.name);
        let usable = match value {
            Some(v) => if v.unicode_len() > 0 { Some(v) } else { None },
            None => None,
        };
        match usable {
            Some(v) => {
                out.append(v.as_str());
            },
            None => match &p.default {
                Some(d) => {
                    out.append(d.as_str());
                },
                None => {
                    out.append(input.substring_char(p.start, p.end));
                    unresolved.push(p.name.clone());
                },
            },
        }
        proof {
            assert(out@ =~= before + s.subrange(cursor as int, p.start as int) + replacement(s, p.view(), env));
            assert(crate::text::views(unresolved@) =~= crate::text::views(unresolved@));
        }
        cursor = p.end;
        k = k + 1;
        assert(out@ + expand_spans(s, cursor as int, spans.subrange(k as int, spans.len() as int), env)
            =~= expanded(s, env));
        assert(crate::text::views(unresolved@) + unresolved_names(spans.subrange(k as int, spans.len() as int), env)
            =~= unresolved_names(spans, env));
    }
    let ghost before = out@;
    out.append(input.substring_char(cursor, total));
    assert(out@ =~= expanded(s, env));
    assert(crate::text::views(unresolved@) =~= unresolved_names(spans, env));
    (out, unresolved)
}

proof fn lemma_no_dollar_no_placeholders(s: Seq<char>, i: int)
    requires
        forall|k: int| 0 <= k < s.len() ==> s[k] != '$',
    ensures
        placeholders_from(s, i).len() == 0,
    decreases s.len() - i,
{
    if 0 <= i < s.len() {
        assert(!opens_at(s, i));
        lemma_no_dollar_no_placeholders(s, i + 1);
    }
}

/// A value without any `$` has no placeholders and expands to itself, in
/// every environment.
pub proof fn law_plain_values_are_unchanged(s: Seq<char>, env: Seq<(Seq<char>, Seq<char>)>)
    requires
        forall|k: int| 0 <= k < s.len() ==> s[k] != '$',
    ensures
        placeholders(s).len() == 0,
        expanded(s, env) == s,
        unresolved_names(placeholders(s), env).len() == 0,
{
    lemma_no_dollar_no_placeholders(s, 0);
    assert(s.subrange(0, s.len() as int) =~= s);
}

} // verus!
