//! Fresh random identities in the textual forms of UUIDs.

use vstd::prelude::*;

use crate::mcp::digest::{hex, to_hex};
use crate::text::{concat, push_char};

verus! {

/// Sixteen bytes of a random (version 4, RFC variant) UUID: the high
/// nibble of byte 6 is 4 and the two high bits of byte 8 are `10`.
pub open spec fn v4_bytes(b: Seq<u8>) -> bool {
    b.len() == 16 && b[6] / 16 == 4 && b[8] / 64 == 2
}

/// Calls `uuid::Uuid::new_v4` and returns its 16 bytes. The bytes are random
/// apart from the version and variant bits that `new_v4` sets.
#[verifier::external_body]
fn random_uuid_bytes() -> (r: Vec<u8>)
    ensures
        v4_bytes(r@),
{
    uuid::Uuid::new_v4().as_bytes().to_vec()
}

/// The hyphenated lowercase form: 8, 4, 4, 4 and 12 hex digits.
pub open spec fn hyphenated(b: Seq<u8>) -> Seq<char> {
    hex(b.subrange(0, 4)) + seq!['-'] + hex(b.subrange(4, 6)) + seq!['-'] + hex(b.subrange(6, 8)) + seq!['-'] + hex(
        b.subrange(8, 10),
    ) + seq!['-'] + hex(b.subrange(10, 16))
}

fn slice_hex(b: &Vec<u8>, from: usize, to: usize) -> (r: String)
    requires
        from <= to <= b@.len(),
    ensures
        r@ == hex(b@.subrange(from as int, to as int)),
{
    let mut part: Vec<u8> = Vec::new();
    let mut i = from;
    while i < to
        invariant
            from <= i <= to <= b@.len(),
            part@ == b@.subrange(from as int, i as int),
        decreases to - i,
    {
        part.push(b[i]);
        assert(part@ =~= b@.subrange(from as int, i + 1));
        i = i + 1;
    }
    to_hex(&part)
}

/// The hyphenated form of 16 bytes.
pub fn hyphenate(b: &Vec<u8>) -> (r: String)
    requires
        b@.len() == 16,
    ensures
        r@ == hyphenated(b@),
{
    let mut s = slice_hex(b, 0, 4);
    push_char(&mut s, '-');
    let mut s = concat(s.as_str(), slice_hex(b, 4, 6).as_str());
    push_char(&mut s, '-');
    let mut s = concat(s.as_str(), slice_hex(b, 6, 8).as_str());
    push_char(&mut s, '-');
    let mut s = concat(s.as_str(), slice_hex(b, 8, 10).as_str());
    push_char(&mut s, '-');
    let s = concat(s.as_str(), slice_hex(b, 10, 16).as_str());
    assert(s@ =~= hyphenated(b@));
    s
}

/// A fresh random identity in hyphenated form.
pub fn fresh_id() -> (r: String)
    ensures
        exists|b: Seq<u8>| v4_bytes(b) && r@ == hyphenated(b),
{
    let b = random_uuid_bytes();
    hyphenate(&b)
}

/// A fresh random identity as 32 lowercase hex digits.
pub fn fresh_simple_id() -> (r: String)
    ensures
        exists|b: Seq<u8>| v4_bytes(b) && r@ == hex(b),
{
    let b = random_uuid_bytes();
    to_hex(&b)
}

/// The value of a hex digit, either case.
pub open spec fn hex_nibble(c: char) -> Option<u8> {
    if '0' <= c && c <= '9' {
        Some(((c as u32) - ('0' as u32)) as u8)
    } else if 'a' <= c && c <= 'f' {
        Some(((c as u32) - ('a' as u32) + 10) as u8)
    } else if 'A' <= c && c <= 'F' {
        Some(((c as u32) - ('A' as u32) + 10) as u8)
    } else {
        None
    }
}

/// 32 hex digits, read as 16 bytes, high digit first.
pub open spec fn simple_uuid(s: Seq<char>) -> Option<Seq<u8>> {
    if s.len() == 32 && forall|k: int| 0 <= k < 32 ==> #[trigger] hex_nibble(s[k]) is Some {
        Some(Seq::new(16, |i: int| (hex_nibble(s[2 * i]).unwrap() * 16 + hex_nibble(s[2 * i + 1]).unwrap()) as u8))
    } else {
        None
    }
}

/// 36 characters: groups of 8, 4, 4, 4 and 12 hex digits separated by hyphens.
pub open spec fn hyphenated_uuid(s: Seq<char>) -> Option<Seq<u8>> {
    if s.len() == 36 && s[8] == '-' && s[13] == '-' && s[18] == '-' && s[23] == '-' {
        simple_uuid(s.subrange(0, 8) + s.subrange(9, 13) + s.subrange(14, 18) + s.subrange(19, 23) + s.subrange(24, 36))
    } else {
        None
    }
}

/// ASCII letters in lowercase; other characters unchanged.
pub open spec fn ascii_lower(c: char) -> char {
    if 'A' <= c && c <= 'Z' {
        ((c as u32) + 32) as char
    } else {
        c
    }
}

/// The 16 bytes `uuid::Uuid::parse_str` reads from a text, if it accepts it:
/// the simple form of 32 hex digits, the hyphenated form, the hyphenated
/// form in braces, or the hyphenated form after a `urn:uuid:` prefix in any
/// ASCII case. Hex digits may be of either case.
#[verifier::opaque]
pub open spec fn parsed_uuid(s: Seq<char>) -> Option<Seq<u8>> {
    if s.len() == 32 {
        simple_uuid(s)
    } else if s.len() == 36 {
        hyphenated_uuid(s)
    } else if s.len() == 38 && s[0] == '{' && s[37] == '}' {
        hyphenated_uuid(s.subrange(1, 37))
    } else if s.len() == 45 && s.subrange(0, 9).map_values(|c: char| ascii_lower(c)) == "urn:uuid:"@ {
        hyphenated_uuid(s.subrange(9, 45))
    } else {
        None
    }
}

/// Calls `uuid::Uuid::parse_str` and returns the parsed bytes, as
/// `parsed_uuid` states them.
#[verifier::external_body]
fn parse_uuid_bytes(s: &str) -> (r: Option<Vec<u8>>)
    ensures
        match r {
            Some(b) => parsed_uuid(s@) == Some(b@) && b@.len() == 16,
            None => parsed_uuid(s@) is None,
        },
{
    uuid::Uuid::parse_str(s).ok().map(|u| u.as_bytes().to_vec())
}

/// The canonical hyphenated form of a UUID text, if it is one.
pub fn canonical_uuid(s: &str) -> (r: Option<String>)
    ensures
        match parsed_uuid(s@) {
            Some(b) => r matches Some(t) && t@ == hyphenated(b),
            None => r is None,
        },
{
    match parse_uuid_bytes(s) {
        Some(b) => Some(hyphenate(&b)),
        None => None,
    }
}


proof fn lemma_hex_digit_reads_back(n: u8)
    requires
        n < 16,
    ensures
        hex_nibble(crate::mcp::digest::hex_digit(n)) == Some(n),
{
}

proof fn lemma_hex_shape(d: Seq<u8>)
    ensures
        hex(d).len() == 2 * d.len(),
        forall|i: int|
            0 <= i < d.len() ==> #[trigger] hex(d)[2 * i] == crate::mcp::digest::hex_digit(d[i] / 16) && hex(d)[2 * i + 1]
                == crate::mcp::digest::hex_digit(d[i] % 16),
    decreases d.len(),
{
    if d.len() > 0 {
        lemma_hex_shape(d.drop_last());
        assert forall|i: int| 0 <= i < d.len() implies #[trigger] hex(d)[2 * i] == crate::mcp::digest::hex_digit(d[i] / 16)
            && hex(d)[2 * i + 1] == crate::mcp::digest::hex_digit(d[i] % 16) by {
            if i < d.len() - 1 {
                assert(d.drop_last()[i] == d[i]);
                assert(hex(d.drop_last())[2 * i] == crate::mcp::digest::hex_digit(d[i] / 16));
            }
        }
    }
}

proof fn lemma_hex_concat(a: Seq<u8>, c: Seq<u8>)
    ensures
        hex(a + c) == hex(a) + hex(c),
    decreases c.len(),
{
    if c.len() == 0 {
        assert(a + c =~= a);
        assert(hex(c) =~= Seq::<char>::empty());
        assert(hex(a) + hex(c) =~= hex(a));
    } else {
        lemma_hex_concat(a, c.drop_last());
        assert((a + c).drop_last() =~= a + c.drop_last());
        assert((a + c).last() == c.last());
        assert(hex(a + c) =~= hex(a) + hex(c));
    }
}

/// The hyphenated text of sixteen bytes is a UUID that reads back as the
/// same bytes: 36 characters with hyphens after 8, 12, 16 and 20 hex digits.
pub proof fn law_hyphenated_ids_read_back(b: Seq<u8>)
    requires
        b.len() == 16,
    ensures
        hyphenated(b).len() == 36,
        hyphenated_uuid(hyphenated(b)) == Some(b),
{
    let p0 = b.subrange(0, 4);
    let p1 = b.subrange(4, 6);
    let p2 = b.subrange(6, 8);
    let p3 = b.subrange(8, 10);
    let p4 = b.subrange(10, 16);
    lemma_hex_shape(p0);
    lemma_hex_shape(p1);
    lemma_hex_shape(p2);
    lemma_hex_shape(p3);
    lemma_hex_shape(p4);
    let h = hyphenated(b);
    assert(h.subrange(0, 8) =~= hex(p0));
    assert(h.subrange(9, 13) =~= hex(p1));
    assert(h.subrange(14, 18) =~= hex(p2));
    assert(h.subrange(19, 23) =~= hex(p3));
    assert(h.subrange(24, 36) =~= hex(p4));
    lemma_hex_concat(p0, p1);
    lemma_hex_concat(p0 + p1, p2);
    lemma_hex_concat(p0 + p1 + p2, p3);
    lemma_hex_concat(p0 + p1 + p2 + p3, p4);
    assert(p0 + p1 + p2 + p3 + p4 =~= b);
    let s = h.subrange(0, 8) + h.subrange(9, 13) + h.subrange(14, 18) + h.subrange(19, 23) + h.subrange(24, 36);
    assert(s =~= hex(b));
    lemma_hex_shape(b);
    assert forall|k: int| 0 <= k < 32 implies #[trigger] hex_nibble(s[k]) is Some by {
        let i = k / 2;
        lemma_hex_digit_reads_back(b[i] / 16);
        lemma_hex_digit_reads_back(b[i] % 16);
        assert(hex(b)[2 * i] == crate::mcp::digest::hex_digit(b[i] / 16));
        if k % 2 == 0 {
            assert(k == 2 * i);
        } else {
            assert(k == 2 * i + 1);
        }
    }
    let r = Seq::new(16, |i: int| (hex_nibble(s[2 * i]).unwrap() * 16 + hex_nibble(s[2 * i + 1]).unwrap()) as u8);
    assert forall|i: int| 0 <= i < 16 implies r[i] == b[i] by {
        lemma_hex_digit_reads_back(b[i] / 16);
        lemma_hex_digit_reads_back(b[i] % 16);
        assert(hex(b)[2 * i] == crate::mcp::digest::hex_digit(b[i] / 16));
        assert(hex(b)[2 * i + 1] == crate::mcp::digest::hex_digit(b[i] % 16));
        assert((b[i] / 16) * 16 + b[i] % 16 == b[i]);
    }
    assert(r =~= b);
}

} // verus!
