//! Textual address forms: decimal and hexadecimal digit strings, IPv4
//! dotted-quad text, IPv6 group text with `::` compression, and the
//! `host:port` split used by socket-address resolution.
//!
//! Each parser is specified against a spec-level grammar over `Seq<char>`.

use vstd::prelude::*;
use crate::addr::IpAddr;

verus! {

// ---------------------------------------------------------------------------
// Digits and their numeric values
// ---------------------------------------------------------------------------

pub open spec fn is_dec_digit(c: char) -> bool {
    '0' as u32 <= c as u32 && c as u32 <= '9' as u32
}

pub open spec fn dec_digit_val(c: char) -> int {
    c as u32 - '0' as u32
}

pub open spec fn is_hex_digit(c: char) -> bool {
    is_dec_digit(c) || ('a' as u32 <= c as u32 && c as u32 <= 'f' as u32) || ('A' as u32
        <= c as u32 && c as u32 <= 'F' as u32)
}

pub open spec fn hex_digit_val(c: char) -> int {
    if is_dec_digit(c) {
        dec_digit_val(c)
    } else if 'a' as u32 <= c as u32 && c as u32 <= 'f' as u32 {
        c as u32 - 'a' as u32 + 10
    } else {
        c as u32 - 'A' as u32 + 10
    }
}

pub open spec fn all_dec_digits(s: Seq<char>) -> bool {
    forall|i: int| 0 <= i < s.len() ==> is_dec_digit(#[trigger] s[i])
}

pub open spec fn all_hex_digits(s: Seq<char>) -> bool {
    forall|i: int| 0 <= i < s.len() ==> is_hex_digit(#[trigger] s[i])
}

/// The number denoted by a decimal digit string (0 for the empty string).
pub open spec fn dec_value(s: Seq<char>) -> int
    decreases s.len(),
{
    if s.len() == 0 {
        0
    } else {
        dec_value(s.drop_last()) * 10 + dec_digit_val(s.last())
    }
}

/// The number denoted by a hexadecimal digit string (0 for the empty string).
pub open spec fn hex_value(s: Seq<char>) -> int
    decreases s.len(),
{
    if s.len() == 0 {
        0
    } else {
        hex_value(s.drop_last()) * 16 + hex_digit_val(s.last())
    }
}

pub proof fn lemma_dec_value_prefix(s: Seq<char>, i: int)
    requires
        0 <= i < s.len(),
    ensures
        dec_value(s.subrange(0, i + 1)) == dec_value(s.subrange(0, i)) * 10 + dec_digit_val(s[i]),
{
    let p = s.subrange(0, i + 1);
    assert(p.drop_last() =~= s.subrange(0, i));
    assert(p.last() == s[i]);
}

pub proof fn lemma_hex_value_prefix(s: Seq<char>, i: int)
    requires
        0 <= i < s.len(),
    ensures
        hex_value(s.subrange(0, i + 1)) == hex_value(s.subrange(0, i)) * 16 + hex_digit_val(s[i]),
{
    let p = s.subrange(0, i + 1);
    assert(p.drop_last() =~= s.subrange(0, i));
    assert(p.last() == s[i]);
}

pub proof fn lemma_dec_value_nonneg(s: Seq<char>)
    requires
        all_dec_digits(s),
    ensures
        dec_value(s) >= 0,
    decreases s.len(),
{
    if s.len() > 0 {
        assert(all_dec_digits(s.drop_last()));
        lemma_dec_value_nonneg(s.drop_last());
    }
}

/// The value of a prefix never exceeds the value of the whole digit string.
pub proof fn lemma_dec_value_prefix_le(s: Seq<char>, i: int)
    requires
        all_dec_digits(s),
        0 <= i <= s.len(),
    ensures
        dec_value(s.subrange(0, i)) <= dec_value(s),
    decreases s.len() - i,
{
    if i == s.len() {
        assert(s.subrange(0, i) =~= s);
    } else {
        let p = s.subrange(0, i);
        assert(all_dec_digits(p));
        lemma_dec_value_nonneg(p);
        lemma_dec_value_prefix(s, i);
        lemma_dec_value_prefix_le(s, i + 1);
    }
}

/// A hexadecimal digit string of at most four digits denotes at most 0xFFFF.
pub proof fn lemma_hex_value_bounded(s: Seq<char>)
    requires
        all_hex_digits(s),
        s.len() <= 4,
    ensures
        0 <= hex_value(s) < 0x10000,
        s.len() <= 3 ==> hex_value(s) < 0x1000,
        s.len() <= 2 ==> hex_value(s) < 0x100,
        s.len() <= 1 ==> hex_value(s) < 0x10,
    decreases s.len(),
{
    if s.len() > 0 {
        assert(all_hex_digits(s.drop_last()));
        lemma_hex_value_bounded(s.drop_last());
    }
}

/// A decimal digit string of at most three digits denotes less than 1000.
pub proof fn lemma_dec_value_bounded(s: Seq<char>)
    requires
        all_dec_digits(s),
        s.len() <= 3,
    ensures
        0 <= dec_value(s) < 1000,
        s.len() <= 2 ==> dec_value(s) < 100,
        s.len() <= 1 ==> dec_value(s) < 10,
    decreases s.len(),
{
    if s.len() > 0 {
        assert(all_dec_digits(s.drop_last()));
        lemma_dec_value_bounded(s.drop_last());
    }
}

// ---------------------------------------------------------------------------
// Finding separators
// ---------------------------------------------------------------------------

/// Index of the first occurrence of `c` in `s`, or -1.
pub open spec fn first_idx(s: Seq<char>, c: char) -> int
    decreases s.len(),
{
    if s.len() == 0 {
        -1
    } else if s[0] == c {
        0
    } else {
        let r = first_idx(s.drop_first(), c);
        if r < 0 {
            -1
        } else {
            r + 1
        }
    }
}

/// Index of the last occurrence of `c` in `s`, or -1.
pub open spec fn last_idx(s: Seq<char>, c: char) -> int
    decreases s.len(),
{
    if s.len() == 0 {
        -1
    } else if s.last() == c {
        s.len() - 1
    } else {
        last_idx(s.drop_last(), c)
    }
}

pub proof fn lemma_first_idx(s: Seq<char>, c: char)
    ensures
        (first_idx(s, c) == -1) <==> (forall|k: int| 0 <= k < s.len() ==> s[k] != c),
        first_idx(s, c) != -1 ==> 0 <= first_idx(s, c) < s.len() && s[first_idx(s, c)] == c && (
        forall|k: int| 0 <= k < first_idx(s, c) ==> s[k] != c),
    decreases s.len(),
{
    if s.len() == 0 {
    } else if s[0] == c {
    } else {
        let t = s.drop_first();
        lemma_first_idx(t, c);
        if first_idx(t, c) == -1 {
            assert forall|k: int| 0 <= k < s.len() implies s[k] != c by {
                if k >= 1 {
                    assert(t[k - 1] != c);
                }
            }
        } else {
            let r = first_idx(t, c);
            assert(s[r + 1] == t[r]);
            assert forall|k: int| 0 <= k < r + 1 implies s[k] != c by {
                if k >= 1 {
                    assert(t[k - 1] != c);
                }
            }
        }
    }
}

pub proof fn lemma_last_idx(s: Seq<char>, c: char)
    ensures
        (last_idx(s, c) == -1) <==> (forall|k: int| 0 <= k < s.len() ==> s[k] != c),
        last_idx(s, c) != -1 ==> 0 <= last_idx(s, c) < s.len() && s[last_idx(s, c)] == c && (
        forall|k: int| last_idx(s, c) < k < s.len() ==> s[k] != c),
    decreases s.len(),
{
    if s.len() == 0 {
    } else if s.last() == c {
    } else {
        lemma_last_idx(s.drop_last(), c);
        assert(forall|k: int| 0 <= k < s.drop_last().len() ==> s.drop_last()[k] == s[k]);
        assert(s[s.len() - 1] != c);
    }
}

/// If position `j` holds `c` and nothing after it does, `j` is the last index.
pub proof fn lemma_last_idx_unique(s: Seq<char>, c: char, j: int)
    requires
        0 <= j < s.len(),
        s[j] == c,
        forall|k: int| j < k < s.len() ==> s[k] != c,
    ensures
        last_idx(s, c) == j,
{
    lemma_last_idx(s, c);
}

/// Index of the first occurrence of "::" in `s`, or -1.
pub open spec fn first_dcolon(s: Seq<char>) -> int
    decreases s.len(),
{
    if s.len() < 2 {
        -1
    } else if s[0] == ':' && s[1] == ':' {
        0
    } else {
        let r = first_dcolon(s.drop_first());
        if r < 0 {
            -1
        } else {
            r + 1
        }
    }
}

pub proof fn lemma_first_dcolon(s: Seq<char>)
    ensures
        (first_dcolon(s) == -1) <==> (forall|k: int|
            0 <= k < s.len() - 1 ==> !((#[trigger] s[k]) == ':' && s[k + 1] == ':')),
        first_dcolon(s) != -1 ==> 0 <= first_dcolon(s) < s.len() - 1 && s[first_dcolon(s)] == ':'
            && s[first_dcolon(s) + 1] == ':' && (forall|k: int|
            0 <= k < first_dcolon(s) ==> !((#[trigger] s[k]) == ':' && s[k + 1] == ':')),
    decreases s.len(),
{
    if s.len() < 2 {
    } else if s[0] == ':' && s[1] == ':' {
    } else {
        let t = s.drop_first();
        lemma_first_dcolon(t);
        if first_dcolon(t) == -1 {
            assert forall|k: int| 0 <= k < s.len() - 1 implies !((#[trigger] s[k]) == ':' && s[k
                + 1] == ':') by {
                if k >= 1 {
                    assert(!(t[k - 1] == ':' && t[k] == ':'));
                    assert(s[k] == t[k - 1] && s[k + 1] == t[k]);
                }
            }
        } else {
            let r = first_dcolon(t);
            assert(s[r + 1] == t[r] && s[r + 2] == t[r + 1]);
            assert forall|k: int| 0 <= k < r + 1 implies !((#[trigger] s[k]) == ':' && s[k + 1]
                == ':') by {
                if k >= 1 {
                    assert(!(t[k - 1] == ':' && t[k] == ':'));
                    assert(s[k] == t[k - 1] && s[k + 1] == t[k]);
                }
            }
        }
    }
}

// ---------------------------------------------------------------------------
// Splitting on a separator
// ---------------------------------------------------------------------------

/// The pieces of `s` between occurrences of `c`, in order. Always at least
/// one piece; a separator at either end contributes an empty piece.
pub open spec fn split_seq(s: Seq<char>, c: char) -> Seq<Seq<char>>
    decreases s.len(),
{
    let i = first_idx(s, c);
    if i < 0 || i >= s.len() {
        seq![s]
    } else {
        seq![s.subrange(0, i)] + split_seq(s.subrange(i + 1, s.len() as int), c)
    }
}

// ---------------------------------------------------------------------------
// Grammar of the textual forms
// ---------------------------------------------------------------------------

/// A dotted-quad octet: one to three decimal digits, no leading zero,
/// value at most 255.
pub open spec fn spec_parse_octet(s: Seq<char>) -> Option<u8> {
    if 1 <= s.len() <= 3 && all_dec_digits(s) && (s.len() > 1 ==> s[0] != '0') && dec_value(s)
        <= 255 {
        Some(dec_value(s) as u8)
    } else {
        None
    }
}

/// IPv4 text: four octets separated by dots.
pub open spec fn spec_parse_ipv4(s: Seq<char>) -> Option<IpAddr> {
    let ps = split_seq(s, '.');
    if ps.len() == 4 && spec_parse_octet(ps[0]) is Some && spec_parse_octet(ps[1]) is Some
        && spec_parse_octet(ps[2]) is Some && spec_parse_octet(ps[3]) is Some {
        Some(
            IpAddr::V4(
                spec_parse_octet(ps[0])->Some_0,
                spec_parse_octet(ps[1])->Some_0,
                spec_parse_octet(ps[2])->Some_0,
                spec_parse_octet(ps[3])->Some_0,
            ),
        )
    } else {
        None
    }
}

/// An IPv6 group: one to four hexadecimal digits.
pub open spec fn spec_parse_group(s: Seq<char>) -> Option<u16> {
    if 1 <= s.len() <= 4 && all_hex_digits(s) {
        Some(hex_value(s) as u16)
    } else {
        None
    }
}

/// A colon-separated run of IPv6 groups, all of which must be well formed.
pub open spec fn spec_groups(s: Seq<char>) -> Option<Seq<u16>> {
    let ps = split_seq(s, ':');
    if forall|i: int| 0 <= i < ps.len() ==> (#[trigger] spec_parse_group(ps[i])) is Some {
        Some(Seq::new(ps.len(), |i: int| spec_parse_group(ps[i])->Some_0))
    } else {
        None
    }
}

pub open spec fn v6_from_groups(g: Seq<u16>) -> IpAddr
    recommends
        g.len() == 8,
{
    IpAddr::V6(g[0], g[1], g[2], g[3], g[4], g[5], g[6], g[7])
}

/// IPv6 text: eight groups, or two runs of groups joined by one `::` that
/// stands for at least one zero group.
pub open spec fn spec_parse_ipv6(s: Seq<char>) -> Option<IpAddr> {
    let i = first_dcolon(s);
    if i < 0 {
        match spec_groups(s) {
            Some(g) => if g.len() == 8 {
                Some(v6_from_groups(g))
            } else {
                None
            },
            None => None,
        }
    } else if 0 <= i && i + 2 <= s.len() {
        let left = s.subrange(0, i);
        let right = s.subrange(i + 2, s.len() as int);
        let lg = if left.len() == 0 {
            Some(Seq::<u16>::empty())
        } else {
            spec_groups(left)
        };
        let rg = if right.len() == 0 {
            Some(Seq::<u16>::empty())
        } else {
            spec_groups(right)
        };
        match (lg, rg) {
            (Some(l), Some(r)) => if l.len() + r.len() <= 7 {
                Some(v6_from_groups(l + Seq::new((8 - l.len() - r.len()) as nat, |k: int| 0u16) + r))
            } else {
                None
            },
            _ => None,
        }
    } else {
        None
    }
}

/// Bare IP literal text of either family.
pub open spec fn spec_parse_ip(s: Seq<char>) -> Option<IpAddr> {
    if spec_parse_ipv4(s) is Some {
        spec_parse_ipv4(s)
    } else {
        spec_parse_ipv6(s)
    }
}

/// The host part of a socket-address text: a bare IP literal, or an IPv6
/// literal in square brackets.
pub open spec fn spec_host_literal(s: Seq<char>) -> Option<IpAddr> {
    if spec_parse_ip(s) is Some {
        spec_parse_ip(s)
    } else if s.len() >= 2 && s[0] == '[' && s.last() == ']' {
        spec_parse_ipv6(s.subrange(1, s.len() - 1))
    } else {
        None
    }
}

/// Port text: one or more decimal digits denoting at most 65535.
pub open spec fn spec_parse_port(s: Seq<char>) -> Option<u16> {
    if s.len() >= 1 && all_dec_digits(s) && dec_value(s) <= 0xFFFF {
        Some(dec_value(s) as u16)
    } else {
        None
    }
}

/// Splits `host:port` text at its last colon; the part after it must be
/// valid port text.
pub open spec fn spec_split_host_port(s: Seq<char>) -> Option<(Seq<char>, u16)> {
    let i = last_idx(s, ':');
    if i < 0 {
        None
    } else {
        match spec_parse_port(s.subrange(i + 1, s.len() as int)) {
            Some(p) => Some((s.subrange(0, i), p)),
            None => None,
        }
    }
}


// ---------------------------------------------------------------------------
// Executable parsers, each proved against the grammar above
// ---------------------------------------------------------------------------

/// First occurrence of `c` in `s`, as an index, if any.
pub(crate) fn find_first(s: &str, c: char) -> (r: Option<usize>)
    ensures
        match r {
            Some(i) => first_idx(s@, c) == i as int,
            None => first_idx(s@, c) == -1,
        },
{
    let n = s.unicode_len();
    let mut i: usize = 0;
    while i < n
        invariant
            n == s@.len(),
            0 <= i <= n,
            forall|k: int| 0 <= k < i ==> s@[k] != c,
        decreases n - i,
    {
        if s.get_char(i) == c {
            proof {
                lemma_first_idx(s@, c);
            }
            return Some(i);
        }
        i += 1;
    }
    proof {
        lemma_first_idx(s@, c);
    }
    None
}

/// The pieces of `s` between occurrences of `c`, in order.
pub(crate) fn split_str(s: &str, c: char) -> (v: Vec<String>)
    ensures
        v.deep_view() == split_seq(s@, c),
    decreases s@.len(),
{
    match find_first(s, c) {
        None => {
            let mut v: Vec<String> = Vec::new();
            v.push(s.to_owned());
            proof {
                assert(v.deep_view() =~= split_seq(s@, c));
            }
            v
        },
        Some(i) => {
            let n = s.unicode_len();
            proof {
                lemma_first_idx(s@, c);
            }
            let head = s.substring_char(0, i).to_owned();
            let tail = s.substring_char(i + 1, n);
            let mut rest = split_str(tail, c);
            rest.insert(0, head);
            proof {
                assert(rest.deep_view() =~= seq![s@.subrange(0, i as int)] + split_seq(
                    s@.subrange(i as int + 1, s@.len() as int),
                    c,
                ));
            }
            rest
        },
    }
}

/// Parses one dotted-quad octet.
fn parse_octet_str(s: &str) -> (r: Option<u8>)
    ensures
        r == spec_parse_octet(s@),
{
    let n = s.unicode_len();
    if n < 1 || n > 3 {
        return None;
    }
    if n > 1 && s.get_char(0) == '0' {
        return None;
    }
    let mut i: usize = 0;
    let mut acc: u32 = 0;
    while i < n
        invariant
            n == s@.len(),
            1 <= n <= 3,
            0 <= i <= n,
            forall|k: int| 0 <= k < i ==> is_dec_digit(#[trigger] s@[k]),
            acc == dec_value(s@.subrange(0, i as int)),
            0 <= acc < 1000,
        decreases n - i,
    {
        let cu = s.get_char(i) as u32;
        if cu < '0' as u32 || cu > '9' as u32 {
            return None;
        }
        proof {
            lemma_dec_value_prefix(s@, i as int);
            assert(all_dec_digits(s@.subrange(0, i as int + 1)));
            lemma_dec_value_bounded(s@.subrange(0, i as int + 1));
        }
        acc = acc * 10 + (cu - '0' as u32);
        i += 1;
    }
    proof {
        assert(s@.subrange(0, n as int) =~= s@);
    }
    if acc <= 255 {
        Some(acc as u8)
    } else {
        None
    }
}

/// Parses one IPv6 group of one to four hexadecimal digits.
fn parse_group_str(s: &str) -> (r: Option<u16>)
    ensures
        r == spec_parse_group(s@),
{
    let n = s.unicode_len();
    if n < 1 || n > 4 {
        return None;
    }
    let mut i: usize = 0;
    let mut acc: u32 = 0;
    while i < n
        invariant
            n == s@.len(),
            1 <= n <= 4,
            0 <= i <= n,
            forall|k: int| 0 <= k < i ==> is_hex_digit(#[trigger] s@[k]),
            acc == hex_value(s@.subrange(0, i as int)),
            0 <= acc < 0x10000,
        decreases n - i,
    {
        let cu = s.get_char(i) as u32;
        let d: u32 = if cu >= '0' as u32 && cu <= '9' as u32 {
            cu - '0' as u32
        } else if cu >= 'a' as u32 && cu <= 'f' as u32 {
            cu - 'a' as u32 + 10
        } else if cu >= 'A' as u32 && cu <= 'F' as u32 {
            cu - 'A' as u32 + 10
        } else {
            return None;
        };
        proof {
            lemma_hex_value_prefix(s@, i as int);
            assert(all_hex_digits(s@.subrange(0, i as int + 1)));
            lemma_hex_value_bounded(s@.subrange(0, i as int + 1));
        }
        acc = acc * 16 + d;
        i += 1;
    }
    proof {
        assert(s@.subrange(0, n as int) =~= s@);
    }
    Some(acc as u16)
}

/// Parses port text: decimal digits denoting at most 65535.
pub fn parse_port_str(s: &str) -> (r: Option<u16>)
    ensures
        r == spec_parse_port(s@),
{
    let n = s.unicode_len();
    if n < 1 {
        return None;
    }
    let mut i: usize = 0;
    let mut acc: u32 = 0;
    while i < n
        invariant
            n == s@.len(),
            n >= 1,
            0 <= i <= n,
            forall|k: int| 0 <= k < i ==> is_dec_digit(#[trigger] s@[k]),
            acc == dec_value(s@.subrange(0, i as int)),
            0 <= acc <= 0xFFFF,
        decreases n - i,
    {
        let cu = s.get_char(i) as u32;
        if cu < '0' as u32 || cu > '9' as u32 {
            return None;
        }
        proof {
            lemma_dec_value_prefix(s@, i as int);
        }
        let next = acc * 10 + (cu - '0' as u32);
        if next > 0xFFFF {
            proof {
                if all_dec_digits(s@) {
                    lemma_dec_value_prefix_le(s@, i as int + 1);
                }
            }
            return None;
        }
        acc = next;
        i += 1;
    }
    proof {
        assert(s@.subrange(0, n as int) =~= s@);
    }
    Some(acc as u16)
}

/// Parses IPv4 dotted-quad text.
pub fn parse_ipv4_str(s: &str) -> (r: Option<IpAddr>)
    ensures
        r == spec_parse_ipv4(s@),
{
    let parts = split_str(s, '.');
    proof {
        assert(parts@.len() == parts.deep_view().len());
    }
    if parts.len() != 4 {
        return None;
    }
    proof {
        assert forall|k: int| 0 <= k < 4 implies parts@[k]@ == split_seq(s@, '.')[k] by {
            assert(parts.deep_view()[k] == parts@[k]@);
        }
    }
    let a = match parse_octet_str(parts[0].as_str()) {
        Some(x) => x,
        None => {
            return None;
        },
    };
    let b = match parse_octet_str(parts[1].as_str()) {
        Some(x) => x,
        None => {
            return None;
        },
    };
    let c = match parse_octet_str(parts[2].as_str()) {
        Some(x) => x,
        None => {
            return None;
        },
    };
    let d = match parse_octet_str(parts[3].as_str()) {
        Some(x) => x,
        None => {
            return None;
        },
    };
    Some(IpAddr::V4(a, b, c, d))
}

/// Parses a colon-separated run of IPv6 groups.
fn parse_groups_str(s: &str) -> (r: Option<Vec<u16>>)
    ensures
        match r {
            Some(g) => spec_groups(s@) == Some(g@),
            None => spec_groups(s@) is None,
        },
{
    let parts = split_str(s, ':');
    proof {
        assert(parts@.len() == parts.deep_view().len());
        assert forall|k: int| 0 <= k < parts@.len() implies parts@[k]@ == split_seq(s@, ':')[k] by {
            assert(parts.deep_view()[k] == parts@[k]@);
        }
    }
    let ghost ps = split_seq(s@, ':');
    let mut out: Vec<u16> = Vec::new();
    let mut i: usize = 0;
    while i < parts.len()
        invariant
            ps == split_seq(s@, ':'),
            parts@.len() == ps.len(),
            forall|k: int| 0 <= k < ps.len() ==> parts@[k]@ == ps[k],
            0 <= i <= ps.len(),
            out@.len() == i,
            forall|k: int|
                0 <= k < i ==> (#[trigger] spec_parse_group(ps[k])) is Some && out@[k]
                    == spec_parse_group(ps[k])->Some_0,
        decreases parts@.len() - i,
    {
        match parse_group_str(parts[i].as_str()) {
            Some(g) => {
                out.push(g);
            },
            None => {
                proof {
                    assert(spec_parse_group(ps[i as int]) is None);
                }
                return None;
            },
        }
        i += 1;
    }
    proof {
        assert(spec_groups(s@) == Some(Seq::new(ps.len(), |i: int| spec_parse_group(ps[i])->Some_0)));
        assert(out@ =~= Seq::new(ps.len(), |i: int| spec_parse_group(ps[i])->Some_0));
    }
    Some(out)
}

/// First occurrence of "::" in `s`, as an index, if any.
fn find_dcolon(s: &str) -> (r: Option<usize>)
    ensures
        match r {
            Some(i) => first_dcolon(s@) == i as int,
            None => first_dcolon(s@) == -1,
        },
{
    let n = s.unicode_len();
    if n < 2 {
        proof {
            lemma_first_dcolon(s@);
        }
        return None;
    }
    let mut i: usize = 0;
    while i < n - 1
        invariant
            n == s@.len(),
            n >= 2,
            0 <= i <= n - 1,
            forall|k: int| 0 <= k < i ==> !((#[trigger] s@[k]) == ':' && s@[k + 1] == ':'),
        decreases n - i,
    {
        if s.get_char(i) == ':' && s.get_char(i + 1) == ':' {
            proof {
                lemma_first_dcolon(s@);
            }
            return Some(i);
        }
        i += 1;
    }
    proof {
        lemma_first_dcolon(s@);
    }
    None
}

/// Parses IPv6 text, with at most one `::` compression.
pub fn parse_ipv6_str(s: &str) -> (r: Option<IpAddr>)
    ensures
        r == spec_parse_ipv6(s@),
{
    let n = s.unicode_len();
    let dc = find_dcolon(s);
    proof {
        lemma_first_dcolon(s@);
    }
    match dc {
        None => {
            match parse_groups_str(s) {
                Some(g) => {
                    if g.len() == 8 {
                        Some(IpAddr::V6(g[0], g[1], g[2], g[3], g[4], g[5], g[6], g[7]))
                    } else {
                        None
                    }
                },
                None => None,
            }
        },
        Some(j) => {
            let left = s.substring_char(0, j);
            let right = s.substring_char(j + 2, n);
            let lg: Vec<u16> = if left.unicode_len() == 0 {
                Vec::new()
            } else {
                match parse_groups_str(left) {
                    Some(g) => g,
                    None => {
                        return None;
                    },
                }
            };
            let rg: Vec<u16> = if right.unicode_len() == 0 {
                Vec::new()
            } else {
                match parse_groups_str(right) {
                    Some(g) => g,
                    None => {
                        return None;
                    },
                }
            };
            if lg.len() > 7 || rg.len() > 7 - lg.len() {
                return None;
            }
            let zeros: usize = 8 - lg.len() - rg.len();
            let mut g: Vec<u16> = Vec::new();
            let mut k: usize = 0;
            while k < lg.len()
                invariant
                    0 <= k <= lg@.len(),
                    g@ =~= lg@.subrange(0, k as int),
                decreases lg@.len() - k,
            {
                g.push(lg[k]);
                k += 1;
            }
            let mut z: usize = 0;
            while z < zeros
                invariant
                    0 <= z <= zeros,
                    g@ =~= lg@ + Seq::new(z as nat, |t: int| 0u16),
                decreases zeros - z,
            {
                g.push(0u16);
                z += 1;
            }
            let mut k2: usize = 0;
            while k2 < rg.len()
                invariant
                    0 <= k2 <= rg@.len(),
                    g@ =~= lg@ + Seq::new(zeros as nat, |t: int| 0u16) + rg@.subrange(0, k2 as int),
                decreases rg@.len() - k2,
            {
                g.push(rg[k2]);
                k2 += 1;
            }
            proof {
                assert(g@ =~= lg@ + Seq::new(zeros as nat, |t: int| 0u16) + rg@);
                assert(g@.len() == 8);
            }
            Some(IpAddr::V6(g[0], g[1], g[2], g[3], g[4], g[5], g[6], g[7]))
        },
    }
}

/// Parses a bare IP literal of either family.
pub fn parse_ip_str(s: &str) -> (r: Option<IpAddr>)
    ensures
        r == spec_parse_ip(s@),
{
    match parse_ipv4_str(s) {
        Some(ip) => Some(ip),
        None => parse_ipv6_str(s),
    }
}

/// Parses a host literal: a bare IP, or a bracketed IPv6 literal.
pub fn host_literal_str(s: &str) -> (r: Option<IpAddr>)
    ensures
        r == spec_host_literal(s@),
{
    match parse_ip_str(s) {
        Some(ip) => Some(ip),
        None => {
            let n = s.unicode_len();
            if n >= 2 && s.get_char(0) == '[' && s.get_char(n - 1) == ']' {
                parse_ipv6_str(s.substring_char(1, n - 1))
            } else {
                None
            }
        },
    }
}

/// Splits `host:port` text at its last colon and parses the port.
pub fn split_host_port_str(s: &str) -> (r: Option<(String, u16)>)
    ensures
        match r {
            Some(hp) => spec_split_host_port(s@) == Some((hp.0@, hp.1)),
            None => spec_split_host_port(s@) is None,
        },
{
    let n = s.unicode_len();
    let mut k: usize = n;
    while k > 0
        invariant
            n == s@.len(),
            0 <= k <= n,
            forall|t: int| k <= t < n ==> s@[t] != ':',
        decreases k,
    {
        k -= 1;
        if s.get_char(k) == ':' {
            proof {
                lemma_last_idx_unique(s@, ':', k as int);
            }
            let host = s.substring_char(0, k).to_owned();
            let ptext = s.substring_char(k + 1, n);
            match parse_port_str(ptext) {
                Some(p) => {
                    return Some((host, p));
                },
                None => {
                    return None;
                },
            }
        }
    }
    proof {
        lemma_last_idx(s@, ':');
    }
    None
}


} // verus!
