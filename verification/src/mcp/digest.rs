//! The configuration digest: a length-prefixed byte encoding of a server's
//! launch inputs, hashed with SHA-256 and printed as lowercase hex.

use vstd::prelude::*;
use vstd::utf8::encode_utf8;

use crate::mcp::config::{EntryView, McpServerEntry};
use crate::mcp::placeholder::env_view;
use crate::text::{chars_less, chars_lt, chars_of, push_char};

verus! {

/// SHA-256 of a byte string.
pub uninterp spec fn sha256(data: Seq<u8>) -> Seq<u8>;

/// Calls `sha2::Sha256::digest`. The result is named; its length is the
/// 32 bytes of the `Sha256` output type.
#[verifier::external_body]
fn sha256_digest(data: &[u8]) -> (r: Vec<u8>)
    ensures
        r@ == sha256(data@),
        r@.len() == 32,
{
    <sha2::Sha256 as sha2::Digest>::digest(data).to_vec()
}

/// Eight bytes, most significant first.
pub open spec fn be64(n: nat) -> Seq<u8> {
    seq![
        (n / 0x100000000000000 % 256) as u8,
        (n / 0x1000000000000 % 256) as u8,
        (n / 0x10000000000 % 256) as u8,
        (n / 0x100000000 % 256) as u8,
        (n / 0x1000000 % 256) as u8,
        (n / 0x10000 % 256) as u8,
        (n / 0x100 % 256) as u8,
        (n % 256) as u8,
    ]
}

/// A string as its UTF-8 length, then its UTF-8 bytes.
pub open spec fn field(s: Seq<char>) -> Seq<u8> {
    be64(encode_utf8(s).len()) + encode_utf8(s)
}

/// The fields of a list of strings, in order.
pub open spec fn fields(v: Seq<Seq<char>>) -> Seq<u8>
    decreases v.len(),
{
    if v.len() == 0 {
        Seq::empty()
    } else {
        fields(v.drop_last()) + field(v.last())
    }
}

/// Position before the first entry whose key does not precede `k`.
pub open spec fn insert_pos(s: Seq<(Seq<char>, Seq<char>)>, k: Seq<char>) -> int
    decreases s.len(),
{
    if s.len() == 0 {
        0
    } else if !chars_lt(s[0].0, k) {
        0
    } else {
        1 + insert_pos(s.drop_first(), k)
    }
}

/// An environment's entries in key order.
pub open spec fn sorted_env(env: Seq<(Seq<char>, Seq<char>)>) -> Seq<(Seq<char>, Seq<char>)>
    decreases env.len(),
{
    if env.len() == 0 {
        Seq::empty()
    } else {
        let s = sorted_env(env.drop_last());
        s.insert(insert_pos(s, env.last().0), env.last())
    }
}

/// Key and value fields of each entry, in order.
pub open spec fn pair_fields(env: Seq<(Seq<char>, Seq<char>)>) -> Seq<u8>
    decreases env.len(),
{
    if env.len() == 0 {
        Seq::empty()
    } else {
        pair_fields(env.drop_last()) + field(env.last().0) + field(env.last().1)
    }
}

/// An environment as its entry count, then its entries in key order.
pub open spec fn env_field(env: Seq<(Seq<char>, Seq<char>)>) -> Seq<u8> {
    be64(env.len()) + pair_fields(sorted_env(env))
}

/// The domain-separation tag that starts every encoding.
pub open spec fn domain_tag() -> Seq<u8> {
    encode_utf8("uar.mcp.server-config.v1\u{0}"@)
}

/// The bytes hashed for a declaration's transport and launch inputs.
pub open spec fn config_preimage(e: EntryView) -> Seq<u8> {
    match e {
        EntryView::Stdio { command, args, env, sandboxed } => domain_tag() + seq![0u8] + field(command)
            + be64(args.len()) + fields(args) + env_field(env) + seq![if sandboxed { 1u8 } else { 0u8 }],
        EntryView::RemoteHttp { url, env, .. } => domain_tag() + seq![1u8] + field(url) + env_field(env),
    }
}

/// A lowercase hex digit.
pub open spec fn hex_digit(n: u8) -> char {
    if n < 10 {
        (('0' as int) + n) as char
    } else {
        (('a' as int) + n - 10) as char
    }
}

/// Bytes as lowercase hex, two digits each.
pub open spec fn hex(data: Seq<u8>) -> Seq<char>
    decreases data.len(),
{
    if data.len() == 0 {
        Seq::empty()
    } else {
        hex(data.drop_last()) + seq![hex_digit(data.last() / 16), hex_digit(data.last() % 16)]
    }
}

/// The identity of a declaration's configuration.
pub open spec fn config_digest(e: EntryView) -> Seq<char> {
    hex(sha256(config_preimage(e)))
}

fn push_bytes(buf: &mut Vec<u8>, bytes: &[u8])
    ensures
        final(buf)@ == old(buf)@ + bytes@,
{
    let mut i: usize = 0;
    while i < bytes.len()
        invariant
            i <= bytes@.len(),
            buf@ == old(buf)@ + bytes@.subrange(0, i as int),
        decreases bytes.len() - i,
    {
        buf.push(bytes[i]);
        i = i + 1;
        assert(buf@ =~= old(buf)@ + bytes@.subrange(0, i as int));
    }
    assert(bytes@.subrange(0, bytes@.len() as int) =~= bytes@);
}

fn push_be64(buf: &mut Vec<u8>, n: usize)
    ensures
        final(buf)@ == old(buf)@ + be64(n as nat),
{
    let n = n as u64;
    buf.push((n / 0x100000000000000 % 256) as u8);
    buf.push((n / 0x1000000000000 % 256) as u8);
    buf.push((n / 0x10000000000 % 256) as u8);
    buf.push((n / 0x100000000 % 256) as u8);
    buf.push((n / 0x1000000 % 256) as u8);
    buf.push((n / 0x10000 % 256) as u8);
    buf.push((n / 0x100 % 256) as u8);
    buf.push((n % 256) as u8);
    assert(buf@ =~= old(buf)@ + be64(n as nat));
}

fn push_field(buf: &mut Vec<u8>, s: &str)
    ensures
        final(buf)@ == old(buf)@ + field(s@),
{
    let bytes = s.as_bytes();
    push_be64(buf, bytes.len());
    push_bytes(buf, bytes);
    assert(buf@ =~= old(buf)@ + field(s@));
}

/// Sort environment entries by key (keys are distinct).
pub fn sort_env(env: &Vec<(String, String)>) -> (r: Vec<(String, String)>)
    ensures
        env_view(r@) == sorted_env(env_view(env@)),
{
    let mut r: Vec<(String, String)> = Vec::new();
    let mut i: usize = 0;
    while i < env.len()
        invariant
            i <= env@.len(),
            env_view(r@) == sorted_env(env_view(env@).subrange(0, i as int)),
        decreases env.len() - i,
    {
        let key = chars_of(env[i].0.as_str());
        let mut p: usize = 0;
        let ghost s = env_view(r@);
        assert(s.subrange(0, s.len() as int) =~= s);
        while p < r.len() && chars_less(chars_of(r[p].0.as_str()).as_slice(), key.as_slice())
            invariant
                s == env_view(r@),
                key@ == env[i as int].0@,
                p <= r@.len(),
                insert_pos(s, key@) == p + insert_pos(s.subrange(p as int, s.len() as int), key@),
            decreases r.len() - p,
        {
            assert(s.subrange(p as int, s.len() as int).drop_first() =~= s.subrange(p + 1, s.len() as int));
            p = p + 1;
        }
        proof {
            if p < r@.len() {
                assert(s.subrange(p as int, s.len() as int)[0] == s[p as int]);
            }
            assert(insert_pos(s, key@) == p);
        }
        let entry = (env[i].0.clone(), env[i].1.clone());
        r.insert(p, entry);
        proof {
            let pre = env_view(env@).subrange(0, i + 1);
            assert(pre.drop_last() =~= env_view(env@).subrange(0, i as int));
            assert(pre.last() == (env[i as int].0@, env[i as int].1@));
            assert(env_view(r@) =~= s.insert(p as int, pre.last()));
        }
        i = i + 1;
    }
    assert(env_view(env@).subrange(0, env@.len() as int) =~= env_view(env@));
    r
}

fn push_env(buf: &mut Vec<u8>, env: &Vec<(String, String)>)
    ensures
        final(buf)@ == old(buf)@ + env_field(env_view(env@)),
{
    push_be64(buf, env.len());
    let sorted = sort_env(env);
    let ghost sv = env_view(sorted@);
    let ghost start = buf@;
    let mut i: usize = 0;
    while i < sorted.len()
        invariant
            sv == env_view(sorted@),
            i <= sorted@.len(),
            buf@ == start + pair_fields(sv.subrange(0, i as int)),
        decreases sorted.len() - i,
    {
        push_field(buf, sorted[i].0.as_str());
        push_field(buf, sorted[i].1.as_str());
        proof {
            let pre = sv.subrange(0, i + 1);
            assert(pre.drop_last() =~= sv.subrange(0, i as int));
        }
        i = i + 1;
    }
    assert(sv.subrange(0, sorted@.len() as int) =~= sv);
    assert(env_view(env@).len() == env@.len());
}

fn push_args(buf: &mut Vec<u8>, args: &Vec<String>)
    ensures
        final(buf)@ == old(buf)@ + be64(args@.len()) + fields(crate::text::views(args@)),
{
    push_be64(buf, args.len());
    let ghost start = buf@;
    let ghost av = crate::text::views(args@);
    let mut i: usize = 0;
    while i < args.len()
        invariant
            av == crate::text::views(args@),
            i <= args@.len(),
            buf@ == start + fields(av.subrange(0, i as int)),
        decreases args.len() - i,
    {
        push_field(buf, args[i].as_str());
        proof {
            let pre = av.subrange(0, i + 1);
            assert(pre.drop_last() =~= av.subrange(0, i as int));
        }
        i = i + 1;
    }
    assert(av.subrange(0, args@.len() as int) =~= av);
    assert(buf@ =~= old(buf)@ + be64(args@.len()) + fields(av));
}

fn preimage(configuration: &McpServerEntry) -> (r: Vec<u8>)
    ensures
        r@ == config_preimage(configuration.view()),
{
    let mut buf: Vec<u8> = Vec::new();
    push_bytes(&mut buf, "uar.mcp.server-config.v1\0".as_bytes());
    match configuration {
        McpServerEntry::Stdio { command, args, env, sandboxed } => {
            buf.push(0);
            push_field(&mut buf, command.as_str());
            push_args(&mut buf, args);
            push_env(&mut buf, env);
            buf.push(if *sandboxed { 1 } else { 0 });
        },
        McpServerEntry::RemoteHttp { url, env, .. } => {
            buf.push(1);
            push_field(&mut buf, url.as_str());
            push_env(&mut buf, env);
        },
    }
    assert(buf@ =~= config_preimage(configuration.view()));
    buf
}

fn hex_char(n: u8) -> (c: char)
    requires
        n < 16,
    ensures
        c == hex_digit(n),
{
    match n {
        0 => '0',
        1 => '1',
        2 => '2',
        3 => '3',
        4 => '4',
        5 => '5',
        6 => '6',
        7 => '7',
        8 => '8',
        9 => '9',
        10 => 'a',
        11 => 'b',
        12 => 'c',
        13 => 'd',
        14 => 'e',
        _ => 'f',
    }
}

pub fn to_hex(data: &Vec<u8>) -> (r: String)
    ensures
        r@ == hex(data@),
{
    let mut out = String::new();
    let mut i: usize = 0;
    while i < data.len()
        invariant
            i <= data@.len(),
            out@ == hex(data@.subrange(0, i as int)),
        decreases data.len() - i,
    {
        let b = data[i];
        push_char(&mut out, hex_char(b / 16));
        push_char(&mut out, hex_char(b % 16));
        proof {
            let pre = data@.subrange(0, i + 1);
            assert(pre.drop_last() =~= data@.subrange(0, i as int));
        }
        i = i + 1;
    }
    assert(data@.subrange(0, data@.len() as int) =~= data@);
    out
}

/// The lowercase-hex SHA-256 digest of a declaration's encoded inputs.
pub fn hash_configuration(configuration: &McpServerEntry) -> (r: String)
    ensures
        r@ == config_digest(configuration.view()),
{
    let bytes = preimage(configuration);
    let digest = sha256_digest(bytes.as_slice());
    to_hex(&digest)
}

/// No key occurs twice.
pub open spec fn keys_distinct(env: Seq<(Seq<char>, Seq<char>)>) -> bool {
    forall|a: int, b: int| 0 <= a < b < env.len() ==> #[trigger] env[a].0 != #[trigger] env[b].0
}

/// Keys strictly increase.
pub open spec fn keys_sorted(env: Seq<(Seq<char>, Seq<char>)>) -> bool {
    forall|a: int, b: int| 0 <= a < b < env.len() ==> chars_lt(#[trigger] env[a].0, #[trigger] env[b].0)
}

proof fn lemma_insert_pos(s: Seq<(Seq<char>, Seq<char>)>, k: Seq<char>)
    ensures
        0 <= insert_pos(s, k) <= s.len(),
        forall|a: int| 0 <= a < insert_pos(s, k) ==> chars_lt(#[trigger] s[a].0, k),
        insert_pos(s, k) < s.len() ==> !chars_lt(s[insert_pos(s, k)].0, k),
    decreases s.len(),
{
    if s.len() > 0 && chars_lt(s[0].0, k) {
        lemma_insert_pos(s.drop_first(), k);
        assert forall|a: int| 0 <= a < insert_pos(s, k) implies chars_lt(#[trigger] s[a].0, k) by {
            if a > 0 {
                assert(s[a] == s.drop_first()[a - 1]);
            }
        }
    }
}

proof fn lemma_sorted_env(env: Seq<(Seq<char>, Seq<char>)>)
    requires
        keys_distinct(env),
    ensures
        keys_sorted(sorted_env(env)),
        sorted_env(env).to_set() == env.to_set(),
        sorted_env(env).len() == env.len(),
    decreases env.len(),
{
    if env.len() > 0 {
        let d = env.drop_last();
        let x = env.last();
        assert(keys_distinct(d));
        lemma_sorted_env(d);
        let s = sorted_env(d);
        let p = insert_pos(s, x.0);
        lemma_insert_pos(s, x.0);
        let t = s.insert(p, x);
        assert forall|a: int| 0 <= a < s.len() implies #[trigger] s[a].0 != x.0 by {
            assert(s.to_set().contains(s[a]));
            assert(d.to_set().contains(s[a]));
            let j = choose|j: int| 0 <= j < d.len() && d[j] == s[a];
            assert(env[j] == d[j]);
            assert(env[env.len() - 1] == x);
        }
        if p < s.len() {
            crate::text::lemma_chars_lt_total(s[p].0, x.0);
        }
        assert forall|a: int, b: int| 0 <= a < b < t.len() implies chars_lt(#[trigger] t[a].0, #[trigger] t[b].0) by {
            if b < p {
                assert(t[a] == s[a] && t[b] == s[b]);
            } else if b == p {
                assert(t[a] == s[a]);
            } else if a < p {
                assert(t[a] == s[a] && t[b] == s[b - 1]);
                if b - 1 > p {
                    crate::text::lemma_chars_lt_transitive(x.0, s[p].0, s[b - 1].0);
                }
                crate::text::lemma_chars_lt_transitive(s[a].0, x.0, s[b - 1].0);
            } else if a == p {
                assert(t[b] == s[b - 1]);
                if b - 1 > p {
                    crate::text::lemma_chars_lt_transitive(x.0, s[p].0, s[b - 1].0);
                }
            } else {
                assert(t[a] == s[a - 1] && t[b] == s[b - 1]);
            }
        }
        assert forall|y: (Seq<char>, Seq<char>)| t.to_set().contains(y) <==> env.to_set().contains(y) by {
            if t.contains(y) {
                let k = choose|k: int| 0 <= k < t.len() && t[k] == y;
                if k < p {
                    assert(s[k] == y);
                    assert(s.to_set().contains(y));
                    let j = choose|j: int| 0 <= j < d.len() && d[j] == y;
                    assert(env[j] == y);
                } else if k > p {
                    assert(s[k - 1] == y);
                    assert(s.to_set().contains(y));
                    let j = choose|j: int| 0 <= j < d.len() && d[j] == y;
                    assert(env[j] == y);
                } else {
                    assert(env[env.len() - 1] == y);
                }
            }
            if env.contains(y) {
                let k = choose|k: int| 0 <= k < env.len() && env[k] == y;
                if k < env.len() - 1 {
                    assert(d[k] == y);
                    assert(d.to_set().contains(y));
                    let j = choose|j: int| 0 <= j < s.len() && s[j] == y;
                    if j < p {
                        assert(t[j] == y);
                    } else {
                        assert(t[j + 1] == y);
                    }
                } else {
                    assert(t[p] == y);
                }
            }
        }
        assert(t.to_set() =~= env.to_set());
    }
}

proof fn lemma_sorted_unique(a: Seq<(Seq<char>, Seq<char>)>, b: Seq<(Seq<char>, Seq<char>)>)
    requires
        keys_sorted(a),
        keys_sorted(b),
        a.to_set() == b.to_set(),
    ensures
        a == b,
    decreases a.len(),
{
    if a.len() == 0 {
        if b.len() > 0 {
            assert(b.to_set().contains(b[0]));
        }
        assert(a =~= b);
    } else {
        assert(a.to_set().contains(a[0]));
        assert(b.len() > 0);
        assert(b.to_set().contains(b[0]));
        let j = choose|j: int| 0 <= j < b.len() && b[j] == a[0];
        let i = choose|i: int| 0 <= i < a.len() && a[i] == b[0];
        crate::text::lemma_chars_lt_irreflexive(a[0].0);
        crate::text::lemma_chars_lt_irreflexive(b[0].0);
        if j > 0 {
            if i > 0 {
                crate::text::lemma_chars_lt_transitive(a[0].0, a[i].0, a[0].0);
            }
        }
        assert(a[0] == b[0]);
        let a2 = a.drop_first();
        let b2 = b.drop_first();
        assert forall|y: (Seq<char>, Seq<char>)| a2.to_set().contains(y) <==> b2.to_set().contains(y) by {
            if a2.contains(y) {
                let k = choose|k: int| 0 <= k < a2.len() && a2[k] == y;
                assert(a[k + 1] == y);
                assert(chars_lt(a[0].0, a[k + 1].0));
                assert(a.to_set().contains(y));
                let m = choose|m: int| 0 <= m < b.len() && b[m] == y;
                if m == 0 {
                    assert(false);
                }
                assert(b2[m - 1] == y);
            }
            if b2.contains(y) {
                let k = choose|k: int| 0 <= k < b2.len() && b2[k] == y;
                assert(b[k + 1] == y);
                assert(chars_lt(b[0].0, b[k + 1].0));
                assert(b.to_set().contains(y));
                let m = choose|m: int| 0 <= m < a.len() && a[m] == y;
                if m == 0 {
                    assert(false);
                }
                assert(a2[m - 1] == y);
            }
        }
        assert(a2.to_set() =~= b2.to_set());
        lemma_sorted_unique(a2, b2);
        assert(a =~= b2.insert(0, b[0]));
        assert(b =~= b2.insert(0, b[0]));
    }
}

/// An entry with another environment.
pub open spec fn with_env(e: EntryView, env: Seq<(Seq<char>, Seq<char>)>) -> EntryView {
    match e {
        EntryView::Stdio { command, args, sandboxed, .. } => EntryView::Stdio { command, args, env, sandboxed },
        EntryView::RemoteHttp { url, headers, grant_policy, .. } => EntryView::RemoteHttp { url, env, headers, grant_policy },
    }
}

/// The configuration digest is independent of environment map order: the
/// same variables listed in another order give the same digest.
pub proof fn law_digest_ignores_environment_order(e: EntryView, env1: Seq<(Seq<char>, Seq<char>)>, env2: Seq<(Seq<char>, Seq<char>)>)
    requires
        keys_distinct(env1),
        keys_distinct(env2),
        env1.to_set() == env2.to_set(),
    ensures
        config_digest(with_env(e, env1)) == config_digest(with_env(e, env2)),
{
    lemma_sorted_env(env1);
    lemma_sorted_env(env2);
    lemma_sorted_unique(sorted_env(env1), sorted_env(env2));
    assert(env_field(env1) == env_field(env2));
}

/// Lengths below 2^64, as the eight-byte prefixes hold them.
pub open spec fn fits64(n: nat) -> bool {
    n < 0x10000000000000000
}

/// Eight big-endian bytes determine a 64-bit length.
proof fn lemma_be64_injective(a: nat, b: nat)
    requires
        fits64(a),
        fits64(b),
        be64(a) == be64(b),
    ensures
        a == b,
{
    let x = a as u64;
    let y = b as u64;
    assert(be64(a)[0] == be64(b)[0] && be64(a)[1] == be64(b)[1] && be64(a)[2] == be64(b)[2] && be64(a)[3] == be64(b)[3]);
    assert(be64(a)[4] == be64(b)[4] && be64(a)[5] == be64(b)[5] && be64(a)[6] == be64(b)[6] && be64(a)[7] == be64(b)[7]);
    assert(x / 0x100000000000000u64 % 256u64 == y / 0x100000000000000u64 % 256u64);
    assert(x / 0x1000000000000u64 % 256u64 == y / 0x1000000000000u64 % 256u64);
    assert(x / 0x10000000000u64 % 256u64 == y / 0x10000000000u64 % 256u64);
    assert(x / 0x100000000u64 % 256u64 == y / 0x100000000u64 % 256u64);
    assert(x / 0x1000000u64 % 256u64 == y / 0x1000000u64 % 256u64);
    assert(x / 0x10000u64 % 256u64 == y / 0x10000u64 % 256u64);
    assert(x / 0x100u64 % 256u64 == y / 0x100u64 % 256u64);
    assert(x % 256u64 == y % 256u64);
    assert(x == y) by (bit_vector)
        requires
            x / 0x100000000000000u64 % 256u64 == y / 0x100000000000000u64 % 256u64,
            x / 0x1000000000000u64 % 256u64 == y / 0x1000000000000u64 % 256u64,
            x / 0x10000000000u64 % 256u64 == y / 0x10000000000u64 % 256u64,
            x / 0x100000000u64 % 256u64 == y / 0x100000000u64 % 256u64,
            x / 0x1000000u64 % 256u64 == y / 0x1000000u64 % 256u64,
            x / 0x10000u64 % 256u64 == y / 0x10000u64 % 256u64,
            x / 0x100u64 % 256u64 == y / 0x100u64 % 256u64,
            x % 256u64 == y % 256u64,
    ;
}


/// A text whose UTF-8 length fits its prefix.
pub open spec fn text_fits(s: Seq<char>) -> bool {
    fits64(encode_utf8(s).len())
}

/// A field is a prefix code: two fields that start equal byte strings are
/// equal, and so are the bytes after them.
proof fn lemma_field_prefix(a: Seq<char>, b: Seq<char>, x: Seq<u8>, y: Seq<u8>)
    requires
        text_fits(a),
        text_fits(b),
        field(a) + x == field(b) + y,
    ensures
        a == b,
        x == y,
{
    let ea = encode_utf8(a);
    let eb = encode_utf8(b);
    let la: int = ea.len() as int;
    let lb: int = eb.len() as int;
    let l = field(a) + x;
    assert(l.subrange(0, 8) =~= be64(ea.len()));
    assert((field(b) + y).subrange(0, 8) =~= be64(eb.len()));
    lemma_be64_injective(ea.len(), eb.len());
    assert(l.subrange(8, 8 + la) =~= ea);
    assert((field(b) + y).subrange(8, 8 + lb) =~= eb);
    vstd::utf8::encode_utf8_decode_utf8(a);
    vstd::utf8::encode_utf8_decode_utf8(b);
    assert(l.subrange(8 + la, l.len() as int) =~= x);
    assert((field(b) + y).subrange(8 + lb, l.len() as int) =~= y);
}

/// The fields of a list, from the front.
proof fn lemma_fields_front(v: Seq<Seq<char>>)
    requires
        v.len() > 0,
    ensures
        fields(v) == field(v[0]) + fields(v.drop_first()),
    decreases v.len(),
{
    if v.len() == 1 {
        assert(v.drop_last() =~= Seq::<Seq<char>>::empty());
        assert(v.drop_first() =~= Seq::<Seq<char>>::empty());
        assert(fields(v) =~= field(v[0]) + fields(v.drop_first()));
    } else {
        lemma_fields_front(v.drop_last());
        assert(v.drop_last().drop_first() =~= v.drop_first().drop_last());
        assert(v.drop_first().last() == v.last());
        assert(fields(v) =~= field(v[0]) + fields(v.drop_first()));
    }
}

/// Lists of the same length with equal field encodings are equal.
proof fn lemma_fields_prefix(v: Seq<Seq<char>>, w: Seq<Seq<char>>, x: Seq<u8>, y: Seq<u8>)
    requires
        v.len() == w.len(),
        forall|k: int| 0 <= k < v.len() ==> text_fits(#[trigger] v[k]),
        forall|k: int| 0 <= k < w.len() ==> text_fits(#[trigger] w[k]),
        fields(v) + x == fields(w) + y,
    ensures
        v == w,
        x == y,
    decreases v.len(),
{
    if v.len() == 0 {
        assert(fields(v) + x =~= x);
        assert(fields(w) + y =~= y);
        assert(v =~= w);
    } else {
        lemma_fields_front(v);
        lemma_fields_front(w);
        assert(fields(v) + x =~= field(v[0]) + (fields(v.drop_first()) + x));
        assert(fields(w) + y =~= field(w[0]) + (fields(w.drop_first()) + y));
        lemma_field_prefix(v[0], w[0], fields(v.drop_first()) + x, fields(w.drop_first()) + y);
        lemma_fields_prefix(v.drop_first(), w.drop_first(), x, y);
        assert(v =~= seq![v[0]] + v.drop_first());
        assert(w =~= seq![w[0]] + w.drop_first());
    }
}

/// The pair fields of an environment, from the front.
proof fn lemma_pair_fields_front(e: Seq<(Seq<char>, Seq<char>)>)
    requires
        e.len() > 0,
    ensures
        pair_fields(e) == field(e[0].0) + field(e[0].1) + pair_fields(e.drop_first()),
    decreases e.len(),
{
    if e.len() == 1 {
        assert(e.drop_last() =~= Seq::<(Seq<char>, Seq<char>)>::empty());
        assert(e.drop_first() =~= Seq::<(Seq<char>, Seq<char>)>::empty());
        assert(pair_fields(e) =~= field(e[0].0) + field(e[0].1) + pair_fields(e.drop_first()));
    } else {
        lemma_pair_fields_front(e.drop_last());
        assert(e.drop_last().drop_first() =~= e.drop_first().drop_last());
        assert(e.drop_first().last() == e.last());
        assert(pair_fields(e) =~= field(e[0].0) + field(e[0].1) + pair_fields(e.drop_first()));
    }
}

/// Every key and value of an environment fits its prefix.
pub open spec fn env_fits(e: Seq<(Seq<char>, Seq<char>)>) -> bool {
    fits64(e.len()) && forall|k: int| 0 <= k < e.len() ==> #[trigger] pair_fits(e[k])
}

/// A key and value that fit their prefixes.
pub open spec fn pair_fits(p: (Seq<char>, Seq<char>)) -> bool {
    text_fits(p.0) && text_fits(p.1)
}

proof fn lemma_regroup(a: Seq<u8>, b: Seq<u8>, c: Seq<u8>, x: Seq<u8>)
    ensures
        a + b + c + x == a + (b + (c + x)),
{
    assert(a + b + c + x =~= a + (b + (c + x)));
}

/// Environments of the same length with equal pair encodings are equal.
proof fn lemma_pair_fields_prefix(v: Seq<(Seq<char>, Seq<char>)>, w: Seq<(Seq<char>, Seq<char>)>, x: Seq<u8>, y: Seq<u8>)
    requires
        v.len() == w.len(),
        forall|k: int| 0 <= k < v.len() ==> #[trigger] pair_fits(v[k]),
        forall|k: int| 0 <= k < w.len() ==> #[trigger] pair_fits(w[k]),
        pair_fields(v) + x == pair_fields(w) + y,
    ensures
        v == w,
        x == y,
    decreases v.len(),
{
    if v.len() == 0 {
        assert(pair_fields(v) + x =~= x);
        assert(pair_fields(w) + y =~= y);
        assert(v =~= w);
    } else {
        let rv = v.drop_first();
        let rw = w.drop_first();
        let tv = pair_fields(rv) + x;
        let tw = pair_fields(rw) + y;
        lemma_pair_fields_front(v);
        lemma_pair_fields_front(w);
        lemma_regroup(field(v[0].0), field(v[0].1), pair_fields(rv), x);
        lemma_regroup(field(w[0].0), field(w[0].1), pair_fields(rw), y);
        assert(pair_fits(v[0]) && pair_fits(w[0]));
        lemma_field_prefix(v[0].0, w[0].0, field(v[0].1) + tv, field(w[0].1) + tw);
        lemma_field_prefix(v[0].1, w[0].1, tv, tw);
        assert forall|k: int| 0 <= k < rv.len() implies #[trigger] pair_fits(rv[k]) by {
            assert(rv[k] == v[k + 1]);
        }
        assert forall|k: int| 0 <= k < rw.len() implies #[trigger] pair_fits(rw[k]) by {
            assert(rw[k] == w[k + 1]);
        }
        lemma_pair_fields_prefix(rv, rw, x, y);
        assert(v[0] == w[0]);
        assert(v =~= seq![v[0]] + rv);
        assert(w =~= seq![w[0]] + rw);
    }
}


/// Sorting keeps the length and only reorders entries.
proof fn lemma_sorted_env_members(env: Seq<(Seq<char>, Seq<char>)>)
    ensures
        sorted_env(env).len() == env.len(),
        forall|k: int| 0 <= k < env.len() ==> env.contains(#[trigger] sorted_env(env)[k]),
    decreases env.len(),
{
    if env.len() > 0 {
        let d = env.drop_last();
        lemma_sorted_env_members(d);
        let s = sorted_env(d);
        let p = insert_pos(s, env.last().0);
        lemma_insert_pos(s, env.last().0);
        assert forall|k: int| 0 <= k < env.len() implies env.contains(#[trigger] sorted_env(env)[k]) by {
            if k < p {
                assert(sorted_env(env)[k] == s[k]);
                assert(d.contains(s[k]));
                let j = choose|j: int| 0 <= j < d.len() && d[j] == s[k];
                assert(env[j] == d[j]);
            } else if k == p {
                assert(sorted_env(env)[k] == env.last());
                assert(env[env.len() - 1] == env.last());
            } else {
                assert(sorted_env(env)[k] == s[k - 1]);
                assert(d.contains(s[k - 1]));
                let j = choose|j: int| 0 <= j < d.len() && d[j] == s[k - 1];
                assert(env[j] == d[j]);
            }
        }
    }
}

/// Launch inputs whose lengths and counts fit the 64-bit prefixes, as any
/// configuration held in memory does.
pub open spec fn entry_fits(e: EntryView) -> bool {
    match e {
        EntryView::Stdio { command, args, env, .. } => text_fits(command) && fits64(args.len()) && (forall|k: int|
            0 <= k < args.len() ==> text_fits(#[trigger] args[k])) && env_fits(env),
        EntryView::RemoteHttp { url, env, .. } => text_fits(url) && env_fits(env),
    }
}

/// Same transport and the same launch inputs: command, arguments in order,
/// environment entries in key order and sandbox flag, or url and
/// environment.
pub open spec fn same_launch_inputs(a: EntryView, b: EntryView) -> bool {
    match (a, b) {
        (
            EntryView::Stdio { command: c1, args: a1, env: e1, sandboxed: s1 },
            EntryView::Stdio { command: c2, args: a2, env: e2, sandboxed: s2 },
        ) => c1 == c2 && a1 == a2 && sorted_env(e1) == sorted_env(e2) && s1 == s2,
        (EntryView::RemoteHttp { url: u1, env: e1, .. }, EntryView::RemoteHttp { url: u2, env: e2, .. }) => u1 == u2
            && sorted_env(e1) == sorted_env(e2),
        _ => false,
    }
}

/// Splitting a concatenation at the end of its first part.
proof fn lemma_split(p: Seq<u8>, rest: Seq<u8>)
    ensures
        (p + rest).subrange(0, p.len() as int) == p,
        (p + rest).subrange(p.len() as int, (p + rest).len() as int) == rest,
{
    assert((p + rest).subrange(0, p.len() as int) =~= p);
    assert((p + rest).subrange(p.len() as int, (p + rest).len() as int) =~= rest);
}

proof fn lemma_assoc(a: Seq<u8>, b: Seq<u8>, c: Seq<u8>)
    ensures
        a + b + c == a + (b + c),
{
    assert(a + b + c =~= a + (b + c));
}

/// Equal concatenations whose first parts have equal lengths have equal
/// first parts and equal rests.
proof fn lemma_split_equal(p1: Seq<u8>, r1: Seq<u8>, p2: Seq<u8>, r2: Seq<u8>)
    requires
        p1 + r1 == p2 + r2,
        p1.len() == p2.len(),
    ensures
        p1 == p2,
        r1 == r2,
{
    lemma_split(p1, r1);
    lemma_split(p2, r2);
}

/// The count prefix of an environment's encoding.
proof fn lemma_env_head(e1: Seq<(Seq<char>, Seq<char>)>, e2: Seq<(Seq<char>, Seq<char>)>, x: Seq<u8>, y: Seq<u8>)
    requires
        fits64(e1.len()),
        fits64(e2.len()),
        env_field(e1) + x == env_field(e2) + y,
    ensures
        e1.len() == e2.len(),
        pair_fields(sorted_env(e1)) + x == pair_fields(sorted_env(e2)) + y,
{
    let h1 = be64(e1.len());
    let h2 = be64(e2.len());
    let p1 = pair_fields(sorted_env(e1));
    let p2 = pair_fields(sorted_env(e2));
    assert(env_field(e1) == h1 + p1);
    assert(env_field(e2) == h2 + p2);
    lemma_assoc(h1, p1, x);
    lemma_assoc(h2, p2, y);
    assert(h1.len() == 8 && h2.len() == 8);
    lemma_split_equal(h1, p1 + x, h2, p2 + y);
    lemma_be64_injective(e1.len(), e2.len());
}

/// The entries of a sorted environment fit their prefixes.
proof fn lemma_sorted_fits(e: Seq<(Seq<char>, Seq<char>)>)
    requires
        env_fits(e),
    ensures
        forall|k: int| 0 <= k < sorted_env(e).len() ==> #[trigger] pair_fits(sorted_env(e)[k]),
{
    let s = sorted_env(e);
    lemma_sorted_env_members(e);
    assert forall|k: int| 0 <= k < s.len() implies #[trigger] pair_fits(s[k]) by {
        assert(e.contains(s[k]));
        let j = choose|j: int| 0 <= j < e.len() && e[j] == s[k];
        assert(pair_fits(e[j]));
    }
}

/// The environment part of an encoding determines the sorted environment
/// and the bytes after it.
proof fn lemma_env_field_prefix(e1: Seq<(Seq<char>, Seq<char>)>, e2: Seq<(Seq<char>, Seq<char>)>, x: Seq<u8>, y: Seq<u8>)
    requires
        env_fits(e1),
        env_fits(e2),
        env_field(e1) + x == env_field(e2) + y,
    ensures
        sorted_env(e1) == sorted_env(e2),
        x == y,
{
    lemma_env_head(e1, e2, x, y);
    lemma_sorted_env_members(e1);
    lemma_sorted_env_members(e2);
    lemma_sorted_fits(e1);
    lemma_sorted_fits(e2);
    lemma_pair_fields_prefix(sorted_env(e1), sorted_env(e2), x, y);
}

/// The sandbox flag's byte.
pub open spec fn flag_byte(b: bool) -> Seq<u8> {
    seq![if b { 1u8 } else { 0u8 }]
}

proof fn lemma_stdio_shape(c: Seq<char>, args: Seq<Seq<char>>, env: Seq<(Seq<char>, Seq<char>)>, sb: bool)
    ensures
        config_preimage(EntryView::Stdio { command: c, args, env, sandboxed: sb }) == (domain_tag() + seq![0u8]) + (field(c)
            + (be64(args.len()) + (fields(args) + (env_field(env) + flag_byte(sb))))),
{
    let a = domain_tag() + seq![0u8];
    let b = field(c);
    let cc = be64(args.len());
    let d = fields(args);
    let e = env_field(env);
    let f = flag_byte(sb);
    lemma_assoc(a + b + cc + d, e, f);
    lemma_assoc(a + b + cc, d, e + f);
    lemma_assoc(a + b, cc, d + (e + f));
    lemma_assoc(a, b, cc + (d + (e + f)));
}

proof fn lemma_stdio_inputs(c1: Seq<char>, a1: Seq<Seq<char>>, e1: Seq<(Seq<char>, Seq<char>)>, s1: bool, c2: Seq<char>, a2: Seq<Seq<char>>, e2: Seq<(Seq<char>, Seq<char>)>, s2: bool)
    requires
        entry_fits(EntryView::Stdio { command: c1, args: a1, env: e1, sandboxed: s1 }),
        entry_fits(EntryView::Stdio { command: c2, args: a2, env: e2, sandboxed: s2 }),
        config_preimage(EntryView::Stdio { command: c1, args: a1, env: e1, sandboxed: s1 }) == config_preimage(
            EntryView::Stdio { command: c2, args: a2, env: e2, sandboxed: s2 },
        ),
    ensures
        c1 == c2 && a1 == a2 && sorted_env(e1) == sorted_env(e2) && s1 == s2,
{
    lemma_stdio_shape(c1, a1, e1, s1);
    lemma_stdio_shape(c2, a2, e2, s2);
    let h = domain_tag() + seq![0u8];
    let v1 = env_field(e1) + flag_byte(s1);
    let v2 = env_field(e2) + flag_byte(s2);
    let u1 = fields(a1) + v1;
    let u2 = fields(a2) + v2;
    let r1 = be64(a1.len()) + u1;
    let r2 = be64(a2.len()) + u2;
    lemma_split_equal(h, field(c1) + r1, h, field(c2) + r2);
    lemma_field_prefix(c1, c2, r1, r2);
    assert(be64(a1.len()).len() == 8 && be64(a2.len()).len() == 8);
    lemma_split_equal(be64(a1.len()), u1, be64(a2.len()), u2);
    lemma_be64_injective(a1.len(), a2.len());
    lemma_fields_prefix(a1, a2, v1, v2);
    lemma_env_field_prefix(e1, e2, flag_byte(s1), flag_byte(s2));
    assert(flag_byte(s1)[0] == flag_byte(s2)[0]);
}

proof fn lemma_remote_inputs(u1: Seq<char>, e1: Seq<(Seq<char>, Seq<char>)>, u2: Seq<char>, e2: Seq<(Seq<char>, Seq<char>)>)
    requires
        text_fits(u1) && env_fits(e1),
        text_fits(u2) && env_fits(e2),
        (domain_tag() + seq![1u8]) + field(u1) + env_field(e1) == (domain_tag() + seq![1u8]) + field(u2) + env_field(e2),
    ensures
        u1 == u2 && sorted_env(e1) == sorted_env(e2),
{
    let h = domain_tag() + seq![1u8];
    lemma_assoc(h, field(u1), env_field(e1));
    lemma_assoc(h, field(u2), env_field(e2));
    lemma_split_equal(h, field(u1) + env_field(e1), h, field(u2) + env_field(e2));
    lemma_field_prefix(u1, u2, env_field(e1), env_field(e2));
    assert(env_field(e1) + Seq::<u8>::empty() =~= env_field(e1));
    assert(env_field(e2) + Seq::<u8>::empty() =~= env_field(e2));
    lemma_env_field_prefix(e1, e2, Seq::empty(), Seq::empty());
}

/// Encodings that differ in the transport byte after a common tag differ.
proof fn lemma_transport_byte(t: Seq<u8>, x: Seq<u8>, y: Seq<u8>)
    ensures
        (t + seq![0u8]) + x != (t + seq![1u8]) + y,
{
    let n: int = t.len() as int;
    assert(((t + seq![0u8]) + x)[n] == 0u8);
    assert(((t + seq![1u8]) + y)[n] == 1u8);
}

/// The hashed encoding of a configuration determines its transport and
/// launch inputs: two configurations with the same preimage have the same
/// command, arguments in order, environment (in key order), sandbox flag
/// or url. With a collision-resistant hash, different launch inputs thus
/// give different digests.
pub proof fn law_preimage_determines_launch_inputs(a: EntryView, b: EntryView)
    requires
        entry_fits(a),
        entry_fits(b),
        config_preimage(a) == config_preimage(b),
    ensures
        same_launch_inputs(a, b),
{
    match (a, b) {
        (
            EntryView::Stdio { command: c1, args: a1, env: e1, sandboxed: s1 },
            EntryView::Stdio { command: c2, args: a2, env: e2, sandboxed: s2 },
        ) => {
            lemma_stdio_inputs(c1, a1, e1, s1, c2, a2, e2, s2);
        },
        (EntryView::RemoteHttp { url: u1, env: e1, .. }, EntryView::RemoteHttp { url: u2, env: e2, .. }) => {
            lemma_remote_inputs(u1, e1, u2, e2);
        },
        (EntryView::Stdio { command, args, env, sandboxed }, EntryView::RemoteHttp { url, env: e2, .. }) => {
            lemma_stdio_shape(command, args, env, sandboxed);
            lemma_assoc(domain_tag() + seq![1u8], field(url), env_field(e2));
            lemma_transport_byte(
                domain_tag(),
                field(command) + (be64(args.len()) + (fields(args) + (env_field(env) + flag_byte(sandboxed)))),
                field(url) + env_field(e2),
            );
        },
        (EntryView::RemoteHttp { url, env, .. }, EntryView::Stdio { command, args, env: e2, sandboxed }) => {
            lemma_stdio_shape(command, args, e2, sandboxed);
            lemma_assoc(domain_tag() + seq![1u8], field(url), env_field(env));
            lemma_transport_byte(
                domain_tag(),
                field(command) + (be64(args.len()) + (fields(args) + (env_field(e2) + flag_byte(sandboxed)))),
                field(url) + env_field(env),
            );
        },
    }
}

} // verus!
