//! IPv4 and IPv6 addresses: the textual grammar (dotted quad, colon-hex with
//! `::` and an embedded dotted quad) and the canonical textual form.
use vstd::prelude::*;

verus! {

/// An IP address, version 4 (four octets) or version 6 (eight 16-bit segments).
#[derive(Clone, Copy, Debug, PartialEq, Eq)]
pub enum IpAddress {
    V4([u8; 4]),
    V6([u16; 8]),
}

/// Value of `c` as a digit in base `radix` (10 or 16, either case), if it is one.
pub open spec fn digit_of(c: char, radix: nat) -> Option<nat> {
    if '0' <= c && c <= '9' {
        Some((c as u32 - '0' as u32) as nat)
    } else if radix == 16 && 'a' <= c && c <= 'f' {
        Some((c as u32 - 'a' as u32 + 10) as nat)
    } else if radix == 16 && 'A' <= c && c <= 'F' {
        Some((c as u32 - 'A' as u32 + 10) as nat)
    } else {
        None
    }
}

/// End of the run of digits that starts at `pos`.
pub open spec fn digits_end(s: Seq<char>, pos: int, radix: nat) -> int
    decreases s.len() - pos,
{
    if 0 <= pos < s.len() && digit_of(s[pos], radix) is Some {
        digits_end(s, pos + 1, radix)
    } else {
        pos
    }
}

/// The number that the digits `s[lo..hi]` denote.
pub open spec fn value_of(s: Seq<char>, lo: int, hi: int, radix: nat) -> nat
    decreases hi - lo,
{
    if hi <= lo {
        0
    } else {
        value_of(s, lo, hi - 1, radix) * radix + digit_of(s[hi - 1], radix)->0
    }
}

/// Reads a number at `pos`: the whole run of digits, at most `max_digits` of them,
/// with no leading zero unless `zero_prefix`, and a value of at most `max_value`.
/// Gives the value and the position after it.
pub open spec fn read_number(
    s: Seq<char>,
    pos: int,
    radix: nat,
    max_digits: nat,
    zero_prefix: bool,
    max_value: nat,
) -> Option<(nat, int)> {
    let e = digits_end(s, pos, radix);
    let v = value_of(s, pos, e, radix);
    if e == pos || e - pos > max_digits || (!zero_prefix && s[pos] == '0' && e - pos > 1)
        || v > max_value {
        None
    } else {
        Some((v, e))
    }
}

/// Reads a decimal octet: one to three digits, no leading zero, at most 255.
pub open spec fn read_octet(s: Seq<char>, pos: int) -> Option<(nat, int)> {
    read_number(s, pos, 10, 3, false, 255)
}

/// Reads a hex group: one to four hex digits.
pub open spec fn read_hex_group(s: Seq<char>, pos: int) -> Option<(nat, int)> {
    read_number(s, pos, 16, 4, true, 65535)
}

/// Position after the separator `sep` that precedes item `i` (none before the first).
pub open spec fn after_sep(s: Seq<char>, pos: int, i: nat, sep: char) -> Option<int> {
    if i == 0 {
        Some(pos)
    } else if 0 <= pos < s.len() && s[pos] == sep {
        Some(pos + 1)
    } else {
        None
    }
}

/// Reads `n` octets separated by `.`.
pub open spec fn read_octets(s: Seq<char>, pos: int, n: nat) -> Option<(Seq<u8>, int)>
    decreases n,
{
    if n == 0 {
        Some((seq![], pos))
    } else {
        match read_octets(s, pos, (n - 1) as nat) {
            None => None,
            Some((o, p)) => match after_sep(s, p, (n - 1) as nat, '.') {
                None => None,
                Some(q) => match read_octet(s, q) {
                    None => None,
                    Some((v, e)) => Some((o.push(v as u8), e)),
                },
            },
        }
    }
}

/// Reads a dotted quad at `pos`.
pub open spec fn read_v4(s: Seq<char>, pos: int) -> Option<(Seq<u8>, int)> {
    read_octets(s, pos, 4)
}

/// The two segments that a dotted quad stands for inside an IPv6 address.
pub open spec fn v4_segments(o: Seq<u8>) -> Seq<u16> {
    seq![(o[0] as nat * 256 + o[1] as nat) as u16, (o[2] as nat * 256 + o[3] as nat) as u16]
}

/// Reads colon-separated groups after the `groups` already read, up to `limit`
/// in all; where two or more slots are left, a dotted quad may stand for the last
/// two. Gives the groups, the position after them, and whether a dotted quad ended
/// them.
pub open spec fn read_groups(s: Seq<char>, limit: nat, groups: Seq<u16>, pos: int) -> (
    Seq<u16>,
    int,
    bool,
)
    decreases limit - groups.len(),
{
    if groups.len() >= limit {
        (groups, pos, false)
    } else {
        let i = groups.len();
        let quad = if i + 1 < limit {
            match after_sep(s, pos, i, ':') {
                None => None,
                Some(q) => read_v4(s, q),
            }
        } else {
            None
        };
        match quad {
            Some((o, e)) => (groups + v4_segments(o), e, true),
            None => match after_sep(s, pos, i, ':') {
                None => (groups, pos, false),
                Some(q) => match read_hex_group(s, q) {
                    None => (groups, pos, false),
                    Some((g, e)) => read_groups(s, limit, groups.push(g as u16), e),
                },
            },
        }
    }
}

/// Reads an IPv6 address at `pos`: eight groups, or a head, `::` standing for at
/// least one zero group, and a tail.
pub open spec fn read_v6(s: Seq<char>, pos: int) -> Option<(Seq<u16>, int)> {
    let (head, p, quad) = read_groups(s, 8, seq![], pos);
    if head.len() == 8 {
        Some((head, p))
    } else if quad {
        None
    } else if 0 <= p && p + 1 < s.len() && s[p] == ':' && s[p + 1] == ':' {
        let (tail, e, _) = read_groups(s, (8 - (head.len() + 1)) as nat, seq![], p + 2);
        Some((head + Seq::new((8 - head.len() - tail.len()) as nat, |i: int| 0u16) + tail, e))
    } else {
        None
    }
}

/// The address that the whole of `s` writes, if it writes one.
pub open spec fn parse_ip(s: Seq<char>) -> Option<IpAddress> {
    match read_v4(s, 0) {
        Some((o, e)) => if e == s.len() {
            Some(IpAddress::V4([o[0], o[1], o[2], o[3]]))
        } else {
            None
        },
        None => match read_v6(s, 0) {
            Some((g, e)) => if e == s.len() {
                Some(IpAddress::V6([g[0], g[1], g[2], g[3], g[4], g[5], g[6], g[7]]))
            } else {
                None
            },
            None => None,
        },
    }
}


proof fn lemma_digits_end_bounds(s: Seq<char>, pos: int, radix: nat)
    requires
        0 <= pos <= s.len(),
    ensures
        pos <= digits_end(s, pos, radix) <= s.len(),
    decreases s.len() - pos,
{
    if pos < s.len() && digit_of(s[pos], radix) is Some {
        lemma_digits_end_bounds(s, pos + 1, radix);
    }
}

/// Once fewer octets cannot be read, more cannot be either.
pub proof fn lemma_octets_none(s: Seq<char>, pos: int, k: nat, n: nat)
    requires
        read_octets(s, pos, k) is None,
        k <= n,
    ensures
        read_octets(s, pos, n) is None,
    decreases n - k,
{
    if k < n {
        lemma_octets_none(s, pos, k + 1, n);
    }
}

fn digit(c: char, radix: u32) -> (r: Option<u32>)
    requires
        radix == 10 || radix == 16,
    ensures
        match r {
            Some(d) => digit_of(c, radix as nat) == Some(d as nat) && d < radix,
            None => digit_of(c, radix as nat) is None,
        },
{
    if '0' <= c && c <= '9' {
        Some(c as u32 - '0' as u32)
    } else if radix == 16 && 'a' <= c && c <= 'f' {
        Some(c as u32 - 'a' as u32 + 10)
    } else if radix == 16 && 'A' <= c && c <= 'F' {
        Some(c as u32 - 'A' as u32 + 10)
    } else {
        None
    }
}

fn exec_read_number(
    v: &Vec<char>,
    pos: usize,
    radix: u32,
    max_digits: usize,
    zero_prefix: bool,
    max_value: u32,
) -> (r: Option<(u32, usize)>)
    requires
        pos <= v.len(),
        radix == 10 || radix == 16,
        1 <= max_digits <= 4,
    ensures
        match r {
            Some((x, e)) => read_number(
                v@,
                pos as int,
                radix as nat,
                max_digits as nat,
                zero_prefix,
                max_value as nat,
            ) == Some((x as nat, e as int)) && e <= v.len(),
            None => read_number(
                v@,
                pos as int,
                radix as nat,
                max_digits as nat,
                zero_prefix,
                max_value as nat,
            ) is None,
        },
{
    let mut j: usize = pos;
    let mut val: u32 = 0;
    while j < v.len() && digit(v[j], radix).is_some()
        invariant
            pos <= j <= v.len(),
            j - pos <= max_digits <= 4,
            radix == 10 || radix == 16,
            val as nat == value_of(v@, pos as int, j as int, radix as nat),
            digits_end(v@, pos as int, radix as nat) == digits_end(v@, j as int, radix as nat),
            j - pos == 0 ==> val == 0,
            j - pos <= 1 ==> val < 16,
            j - pos <= 2 ==> val < 256,
            j - pos <= 3 ==> val < 4096,
            val < 65536,
        decreases v.len() - j,
    {
        let d = digit(v[j], radix).unwrap();
        if j - pos == max_digits {
            proof {
                lemma_digits_end_bounds(v@, j as int + 1, radix as nat);
            }
            return None;
        }
        assert((val as int) * (radix as int) + (d as int) < 16 * ((val as int) + 1)) by (nonlinear_arith)
            requires
                radix <= 16,
                d < radix,
                val >= 0,
        ;
        val = val * radix + d;
        j = j + 1;
    }
    if j == pos || (!zero_prefix && v[pos] == '0' && j - pos > 1) || val > max_value {
        None
    } else {
        Some((val, j))
    }
}

/// Reads a dotted quad at `pos`.
fn exec_read_v4(v: &Vec<char>, pos: usize) -> (r: Option<(Vec<u8>, usize)>)
    requires
        pos <= v.len(),
    ensures
        match r {
            Some((o, e)) => read_v4(v@, pos as int) == Some((o@, e as int)) && e <= v.len()
                && o@.len() == 4,
            None => read_v4(v@, pos as int) is None,
        },
{
    let mut o: Vec<u8> = Vec::new();
    let mut p: usize = pos;
    let mut k: usize = 0;
    while k < 4
        invariant
            k <= 4,
            p <= v.len(),
            read_octets(v@, pos as int, k as nat) == Some((o@, p as int)),
            o@.len() == k,
        decreases 4 - k,
    {
        let q: usize;
        if k == 0 {
            q = p;
        } else if p < v.len() && v[p] == '.' {
            q = p + 1;
        } else {
            proof {
                lemma_octets_none(v@, pos as int, (k + 1) as nat, 4);
            }
            return None;
        }
        match exec_read_number(v, q, 10, 3, false, 255) {
            None => {
                proof {
                    lemma_octets_none(v@, pos as int, (k + 1) as nat, 4);
                }
                return None;
            },
            Some((x, e)) => {
                o.push(x as u8);
                p = e;
            },
        }
        k = k + 1;
    }
    Some((o, p))
}

/// Reads colon-separated groups at `pos`, up to `limit` of them.
fn exec_read_groups(v: &Vec<char>, limit: usize, pos: usize) -> (r: (Vec<u16>, usize, bool))
    requires
        limit <= 8,
        pos <= v.len(),
    ensures
        read_groups(v@, limit as nat, seq![], pos as int) == (r.0@, r.1 as int, r.2),
        r.0@.len() <= limit,
        r.1 <= v.len(),
{
    let mut g: Vec<u16> = Vec::new();
    let mut p: usize = pos;
    while g.len() < limit
        invariant
            g@.len() <= limit <= 8,
            p <= v.len(),
            read_groups(v@, limit as nat, seq![], pos as int) == read_groups(
                v@,
                limit as nat,
                g@,
                p as int,
            ),
        decreases limit - g@.len(),
    {
        let i = g.len();
        let sep: Option<usize> = if i == 0 {
            Some(p)
        } else if p < v.len() && v[p] == ':' {
            Some(p + 1)
        } else {
            None
        };
        if i + 1 < limit {
            if let Some(q) = sep {
                if let Some((o, e)) = exec_read_v4(v, q) {
                    let hi: u16 = o[0] as u16 * 256 + o[1] as u16;
                    let lo: u16 = o[2] as u16 * 256 + o[3] as u16;
                    let ghost before = g@;
                    g.push(hi);
                    g.push(lo);
                    assert(g@ =~= before + v4_segments(o@));
                    return (g, e, true);
                }
            }
        }
        match sep {
            None => {
                return (g, p, false);
            },
            Some(q) => match exec_read_number(v, q, 16, 4, true, 65535) {
                None => {
                    return (g, p, false);
                },
                Some((x, e)) => {
                    g.push(x as u16);
                    p = e;
                },
            },
        }
    }
    (g, p, false)
}

/// Reads an IPv6 address at `pos`.
fn exec_read_v6(v: &Vec<char>, pos: usize) -> (r: Option<(Vec<u16>, usize)>)
    requires
        pos <= v.len(),
    ensures
        match r {
            Some((g, e)) => read_v6(v@, pos as int) == Some((g@, e as int)) && e <= v.len()
                && g@.len() == 8,
            None => read_v6(v@, pos as int) is None,
        },
{
    let (head, p, quad) = exec_read_groups(v, 8, pos);
    if head.len() == 8 {
        return Some((head, p));
    }
    if quad {
        return None;
    }
    if p < v.len() && p + 1 < v.len() && v[p] == ':' && v[p + 1] == ':' {
        let (tail, e, _) = exec_read_groups(v, 8 - (head.len() + 1), p + 2);
        let zeros: usize = 8 - head.len() - tail.len();
        let mut out = head;
        let mut k: usize = 0;
        while k < zeros
            invariant
                k <= zeros,
                out@ == head@ + Seq::new(k as nat, |i: int| 0u16),
            decreases zeros - k,
        {
            out.push(0);
            k = k + 1;
            assert(out@ =~= head@ + Seq::new(k as nat, |i: int| 0u16));
        }
        let mut t: usize = 0;
        while t < tail.len()
            invariant
                t <= tail.len(),
                out@ == head@ + Seq::new(zeros as nat, |i: int| 0u16) + tail@.subrange(0, t as int),
            decreases tail.len() - t,
        {
            out.push(tail[t]);
            t = t + 1;
            assert(out@ =~= head@ + Seq::new(zeros as nat, |i: int| 0u16) + tail@.subrange(
                0,
                t as int,
            ));
        }
        assert(tail@.subrange(0, tail@.len() as int) =~= tail@);
        Some((out, e))
    } else {
        None
    }
}

impl IpAddress {
    /// The address that `s` writes, if it writes one.
    pub fn parse(s: &str) -> (r: Option<IpAddress>)
        ensures
            r == parse_ip(s@),
    {
        let v = crate::text::chars_of(s);
        IpAddress::parse_chars(&v)
    }

    /// The address that the characters `v` write, if they write one.
    pub fn parse_chars(v: &Vec<char>) -> (r: Option<IpAddress>)
        ensures
            r == parse_ip(v@),
    {
        match exec_read_v4(v, 0) {
            Some((o, e)) => {
                if e == v.len() {
                    Some(IpAddress::V4([o[0], o[1], o[2], o[3]]))
                } else {
                    None
                }
            },
            None => match exec_read_v6(v, 0) {
                Some((g, e)) => {
                    if e == v.len() {
                        Some(IpAddress::V6([g[0], g[1], g[2], g[3], g[4], g[5], g[6], g[7]]))
                    } else {
                        None
                    }
                },
                None => None,
            },
        }
    }
}


/// The digits of base 16, in lower case; the first ten are those of base 10.
pub open spec fn digit_chars() -> Seq<char> {
    seq!['0', '1', '2', '3', '4', '5', '6', '7', '8', '9', 'a', 'b', 'c', 'd', 'e', 'f']
}

/// `n` written in base `radix` (10 or 16, lower case), without leading zeros.
pub open spec fn num_text(n: nat, radix: nat) -> Seq<char>
    decreases n,
    via num_text_decreases
{
    if n < radix || radix < 2 {
        seq![digit_chars()[n as int]]
    } else {
        num_text(n / radix, radix).push(digit_chars()[(n % radix) as int])
    }
}

#[via_fn]
proof fn num_text_decreases(n: nat, radix: nat) {
    if !(n < radix || radix < 2) {
        assert(n / radix < n) by (nonlinear_arith)
            requires
                n >= radix,
                radix >= 2,
        ;
    }
}

/// A dotted quad.
pub open spec fn v4_text(o: Seq<u8>) -> Seq<char> {
    num_text(o[0] as nat, 10) + seq!['.'] + num_text(o[1] as nat, 10) + seq!['.'] + num_text(
        o[2] as nat,
        10,
    ) + seq!['.'] + num_text(o[3] as nat, 10)
}

/// Segments in hex, separated by `:`.
pub open spec fn groups_text(g: Seq<u16>) -> Seq<char>
    decreases g.len(),
{
    if g.len() == 0 {
        seq![]
    } else if g.len() == 1 {
        num_text(g[0] as nat, 16)
    } else {
        groups_text(g.drop_last()) + seq![':'] + num_text(g.last() as nat, 16)
    }
}

/// Number of zero segments in the run that starts at `i`.
pub open spec fn zero_run_at(g: Seq<u16>, i: int) -> nat
    decreases g.len() - i,
{
    if 0 <= i < g.len() && g[i] == 0 {
        1 + zero_run_at(g, i + 1)
    } else {
        0
    }
}

/// Start and length of the first longest run of zero segments among those that
/// start before `k`.
pub open spec fn longest_zero_run(g: Seq<u16>, k: nat) -> (int, nat)
    decreases k,
{
    if k == 0 {
        (0, 0)
    } else {
        let (st, l) = longest_zero_run(g, (k - 1) as nat);
        let r = zero_run_at(g, k - 1);
        if r > l {
            (k - 1, r)
        } else {
            (st, l)
        }
    }
}

/// Whether the segments are those of an IPv4-mapped address, `::ffff:a.b.c.d`.
pub open spec fn is_v4_mapped(g: Seq<u16>) -> bool {
    g[0] == 0 && g[1] == 0 && g[2] == 0 && g[3] == 0 && g[4] == 0 && g[5] == 0xffff
}

/// The dotted quad that the last two segments of a mapped address hold.
pub open spec fn mapped_octets(g: Seq<u16>) -> Seq<u8> {
    seq![(g[6] / 256) as u8, (g[6] % 256) as u8, (g[7] / 256) as u8, (g[7] % 256) as u8]
}

/// Canonical IPv6 text: `::ffff:` and a dotted quad for a mapped address; else
/// the first longest run of two or more zero segments written as `::`.
pub open spec fn v6_text(g: Seq<u16>) -> Seq<char> {
    if is_v4_mapped(g) {
        seq![':', ':', 'f', 'f', 'f', 'f', ':'] + v4_text(mapped_octets(g))
    } else {
        let (st, l) = longest_zero_run(g, 8);
        if l > 1 {
            groups_text(g.subrange(0, st)) + seq![':', ':'] + groups_text(
                g.subrange(st + l, g.len() as int),
            )
        } else {
            groups_text(g)
        }
    }
}

/// The canonical text of an address.
pub open spec fn ip_text(ip: IpAddress) -> Seq<char> {
    match ip {
        IpAddress::V4(o) => v4_text(o@),
        IpAddress::V6(g) => v6_text(g@),
    }
}

pub(crate) fn push_digit(out: &mut String, d: u32)
    requires
        d < 16,
    ensures
        final(out)@ == old(out)@.push(digit_chars()[d as int]),
{
    let all = "0123456789abcdef";
    proof {
        reveal_strlit("0123456789abcdef");
        assert(all@ =~= digit_chars());
    }
    let one = all.substring_char(d as usize, d as usize + 1);
    assert(one@ =~= seq![digit_chars()[d as int]]);
    out.append(one);
}

fn push_num(out: &mut String, n: u32, radix: u32)
    requires
        radix == 10 || radix == 16,
    ensures
        final(out)@ == old(out)@ + num_text(n as nat, radix as nat),
    decreases n,
{
    if n < radix {
        push_digit(out, n);
        assert(num_text(n as nat, radix as nat) =~= seq![digit_chars()[n as int]]);
    } else {
        push_num(out, n / radix, radix);
        push_digit(out, n % radix);
        assert(final(out)@ =~= old(out)@ + num_text(n as nat, radix as nat));
    }
}

fn push_str(out: &mut String, s: &str)
    ensures
        final(out)@ == old(out)@ + s@,
{
    out.append(s);
}

fn push_v4(out: &mut String, o: &[u8; 4])
    ensures
        final(out)@ == old(out)@ + v4_text(o@),
{
    proof {
        reveal_strlit(".");
    }
    push_num(out, o[0] as u32, 10);
    push_str(out, ".");
    push_num(out, o[1] as u32, 10);
    push_str(out, ".");
    push_num(out, o[2] as u32, 10);
    push_str(out, ".");
    push_num(out, o[3] as u32, 10);
    assert(final(out)@ =~= old(out)@ + v4_text(o@));
}

/// Appends the segments `g[lo..hi]` in hex, separated by `:`.
fn push_groups(out: &mut String, g: &[u16; 8], lo: usize, hi: usize)
    requires
        lo <= hi <= 8,
    ensures
        final(out)@ == old(out)@ + groups_text(g@.subrange(lo as int, hi as int)),
{
    let mut i: usize = lo;
    while i < hi
        invariant
            lo <= i <= hi <= 8,
            out@ == old(out)@ + groups_text(g@.subrange(lo as int, i as int)),
        decreases hi - i,
    {
        proof {
            reveal_strlit(":");
        }
        if i > lo {
            push_str(out, ":");
        }
        push_num(out, g[i] as u32, 16);
        proof {
            let s = g@.subrange(lo as int, i as int + 1);
            assert(s.drop_last() =~= g@.subrange(lo as int, i as int));
            assert(s.last() == g@[i as int]);
            assert(s[0] == g@[lo as int]);
            if i > lo {
                assert(out@ =~= old(out)@ + groups_text(s));
            } else {
                assert(out@ =~= old(out)@ + groups_text(s));
            }
        }
        i = i + 1;
    }
}

fn zero_run(g: &[u16; 8], i: usize) -> (r: usize)
    requires
        i <= 8,
    ensures
        r as nat == zero_run_at(g@, i as int),
        i + r <= 8,
{
    let mut j: usize = 8;
    let mut r: usize = 0;
    let mut k: usize = i;
    while k < 8 && g[k] == 0
        invariant
            i <= k <= 8,
            r == k - i,
            zero_run_at(g@, i as int) == r + zero_run_at(g@, k as int),
        decreases 8 - k,
    {
        k = k + 1;
        r = r + 1;
    }
    r
}

impl IpAddress {
    /// The canonical text of the address.
    pub fn to_text(&self) -> (r: String)
        ensures
            r@ == ip_text(*self),
    {
        let mut out = String::new();
        match self {
            IpAddress::V4(o) => {
                push_v4(&mut out, o);
            },
            IpAddress::V6(g) => {
                if g[0] == 0 && g[1] == 0 && g[2] == 0 && g[3] == 0 && g[4] == 0 && g[5] == 0xffff {
                    let o: [u8; 4] = [
                        (g[6] / 256) as u8,
                        (g[6] % 256) as u8,
                        (g[7] / 256) as u8,
                        (g[7] % 256) as u8,
                    ];
                    proof {
                        reveal_strlit("::ffff:");
                        assert(o@ =~= mapped_octets(g@));
                    }
                    push_str(&mut out, "::ffff:");
                    push_v4(&mut out, &o);
                } else {
                    let mut st: usize = 0;
                    let mut len: usize = 0;
                    let mut k: usize = 0;
                    while k < 8
                        invariant
                            k <= 8,
                            longest_zero_run(g@, k as nat) == (st as int, len as nat),
                            len <= 8,
                            st <= 8,
                            len > 0 ==> st + len <= 8,
                        decreases 8 - k,
                    {
                        let r = zero_run(g, k);
                        if r > len {
                            st = k;
                            len = r;
                        }
                        k = k + 1;
                    }
                    if len > 1 {
                        proof {
                            reveal_strlit("::");
                        }
                        push_groups(&mut out, g, 0, st);
                        push_str(&mut out, "::");
                        push_groups(&mut out, g, st + len, 8);
                    } else {
                        push_groups(&mut out, g, 0, 8);
                        assert(g@.subrange(0, 8) =~= g@);
                    }
                }
            },
        }
        out
    }
}

} // verus!
