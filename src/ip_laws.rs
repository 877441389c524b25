//! The canonical text of an address reads back as that address.
use vstd::prelude::*;

use crate::ip::{
    digit_chars, digit_of, digits_end, groups_text, ip_text, longest_zero_run, num_text, parse_ip,
    read_octet, read_octets, v4_text, v6_text, value_of, zero_run_at, IpAddress,
};
use crate::laws::plain;

verus! {

/// A character that the text of an address may hold.
pub open spec fn ip_char(c: char) -> bool {
    ('0' <= c && c <= '9') || ('a' <= c && c <= 'f') || c == '.' || c == ':'
}

proof fn lemma_digit_char(d: int)
    requires
        0 <= d < 16,
    ensures
        ip_char(digit_chars()[d]),
{
    let s = digit_chars();
    assert(s[0] == '0' && s[1] == '1' && s[2] == '2' && s[3] == '3' && s[4] == '4' && s[5] == '5'
        && s[6] == '6' && s[7] == '7' && s[8] == '8' && s[9] == '9' && s[10] == 'a' && s[11]
        == 'b' && s[12] == 'c' && s[13] == 'd' && s[14] == 'e' && s[15] == 'f');
}

proof fn lemma_num_text_chars(n: nat, radix: nat)
    requires
        radix == 10 || radix == 16,
        n < 65536,
    ensures
        num_text(n, radix).len() > 0,
        forall|i: int| 0 <= i < num_text(n, radix).len() ==> ip_char(#[trigger] num_text(n, radix)[i]),
    decreases n,
{
    if n < radix {
        lemma_digit_char(n as int);
    } else {
        lemma_num_text_chars(n / radix, radix);
        lemma_digit_char((n % radix) as int);
    }
}

proof fn lemma_groups_text_chars(g: Seq<u16>)
    ensures
        forall|i: int| 0 <= i < groups_text(g).len() ==> ip_char(#[trigger] groups_text(g)[i]),
    decreases g.len(),
{
    if g.len() == 1 {
        lemma_num_text_chars(g[0] as nat, 16);
    } else if g.len() > 1 {
        lemma_groups_text_chars(g.drop_last());
        lemma_num_text_chars(g.last() as nat, 16);
        let a = groups_text(g.drop_last());
        let b = num_text(g.last() as nat, 16);
        assert forall|i: int| 0 <= i < groups_text(g).len() implies ip_char(
            #[trigger] groups_text(g)[i],
        ) by {
            if i < a.len() {
                assert(groups_text(g)[i] == a[i]);
            } else if i > a.len() {
                assert(groups_text(g)[i] == b[i - a.len() - 1]);
            }
        }
    }
}

proof fn lemma_v4_text_chars(o: Seq<u8>)
    requires
        o.len() == 4,
    ensures
        v4_text(o).len() > 0,
        forall|i: int| 0 <= i < v4_text(o).len() ==> ip_char(#[trigger] v4_text(o)[i]),
{
    lemma_num_text_chars(o[0] as nat, 10);
    lemma_num_text_chars(o[1] as nat, 10);
    lemma_num_text_chars(o[2] as nat, 10);
    lemma_num_text_chars(o[3] as nat, 10);
    let a = num_text(o[0] as nat, 10);
    let b = num_text(o[1] as nat, 10);
    let c = num_text(o[2] as nat, 10);
    let d = num_text(o[3] as nat, 10);
    let t = v4_text(o);
    assert forall|i: int| 0 <= i < t.len() implies ip_char(#[trigger] t[i]) by {
        let dot = seq!['.'];
        if i < a.len() {
            assert(t[i] == a[i]);
        } else if i == a.len() {
        } else if i < a.len() + 1 + b.len() {
            assert(t[i] == b[i - a.len() - 1]);
        } else if i == a.len() + 1 + b.len() {
        } else if i < a.len() + 2 + b.len() + c.len() {
            assert(t[i] == c[i - a.len() - 2 - b.len()]);
        } else if i == a.len() + 2 + b.len() + c.len() {
        } else {
            assert(t[i] == d[i - a.len() - 3 - b.len() - c.len()]);
        }
    }
}

/// The text of an address is never empty and holds neither whitespace nor `#`.
pub proof fn lemma_ip_text_plain(ip: IpAddress)
    ensures
        ip_text(ip).len() > 0,
        plain(ip_text(ip)),
{
    match ip {
        IpAddress::V4(o) => {
            lemma_v4_text_chars(o@);
        },
        IpAddress::V6(g) => {
            let g = g@;
            let t = v6_text(g);
            if crate::ip::is_v4_mapped(g) {
                let m = crate::ip::mapped_octets(g);
                lemma_v4_text_chars(m);
                let pre = seq![':', ':', 'f', 'f', 'f', 'f', ':'];
                assert forall|i: int| 0 <= i < t.len() implies ip_char(#[trigger] t[i]) by {
                    if i >= 7 {
                        assert(t[i] == v4_text(m)[i - 7]);
                    }
                }
            } else {
                let (st, l) = crate::ip::longest_zero_run(g, 8);
                if l > 1 {
                    let a = groups_text(g.subrange(0, st));
                    let b = groups_text(g.subrange(st + l, g.len() as int));
                    lemma_groups_text_chars(g.subrange(0, st));
                    lemma_groups_text_chars(g.subrange(st + l, g.len() as int));
                    assert forall|i: int| 0 <= i < t.len() implies ip_char(#[trigger] t[i]) by {
                        if i < a.len() {
                            assert(t[i] == a[i]);
                        } else if i >= a.len() + 2 {
                            assert(t[i] == b[i - a.len() - 2]);
                        }
                    }
                } else {
                    lemma_groups_text_chars(g);
                    assert(g.len() == 8);
                    assert(g.drop_last().len() == 7);
                    assert(groups_text(g).len() > 0);
                }
            }
        },
    }
}


proof fn lemma_dec_digit(d: int)
    requires
        0 <= d < 10,
    ensures
        digit_of(digit_chars()[d], 10) == Some(d as nat),
        d > 0 ==> digit_chars()[d] != '0',
{
    let s = digit_chars();
    assert(s[0] == '0' && s[1] == '1' && s[2] == '2' && s[3] == '3' && s[4] == '4' && s[5] == '5'
        && s[6] == '6' && s[7] == '7' && s[8] == '8' && s[9] == '9');
}

proof fn lemma_value_prefix(s: Seq<char>, t: Seq<char>, lo: int, hi: int, radix: nat)
    requires
        0 <= lo <= hi <= s.len(),
        hi <= t.len(),
        forall|i: int| lo <= i < hi ==> s[i] == t[i],
    ensures
        value_of(s, lo, hi, radix) == value_of(t, lo, hi, radix),
    decreases hi - lo,
{
    if hi > lo {
        lemma_value_prefix(s, t, lo, hi - 1, radix);
    }
}

proof fn lemma_value_shift(s: Seq<char>, d: Seq<char>, pos: int, k: int, radix: nat)
    requires
        0 <= pos,
        0 <= k <= d.len(),
        pos + d.len() <= s.len(),
        forall|i: int| 0 <= i < d.len() ==> s[pos + i] == d[i],
    ensures
        value_of(s, pos, pos + k, radix) == value_of(d, 0, k, radix),
    decreases k,
{
    if k > 0 {
        lemma_value_shift(s, d, pos, k - 1, radix);
        assert(s[pos + k - 1] == d[k - 1]);
    }
}

/// Facts about the decimal text of an octet.
proof fn lemma_dec_text(n: nat)
    requires
        n <= 255,
    ensures
        1 <= num_text(n, 10).len() <= 3,
        n < 100 ==> num_text(n, 10).len() <= 2,
        n < 10 ==> num_text(n, 10).len() == 1,
        n >= 10 ==> num_text(n, 10).len() >= 2,
        forall|i: int|
            0 <= i < num_text(n, 10).len() ==> digit_of(#[trigger] num_text(n, 10)[i], 10) is Some,
        num_text(n, 10).len() > 1 ==> num_text(n, 10)[0] != '0',
        value_of(num_text(n, 10), 0, num_text(n, 10).len() as int, 10) == n,
    decreases n,
{
    let d = num_text(n, 10);
    if n < 10 {
        lemma_dec_digit(n as int);
        assert(d == seq![digit_chars()[n as int]]);
        assert(value_of(d, 0, 1, 10) == value_of(d, 0, 0, 10) * 10 + digit_of(d[0], 10)->0);
    } else {
        let p = num_text(n / 10, 10);
        lemma_dec_text(n / 10);
        lemma_dec_digit((n % 10) as int);
        assert(d == p.push(digit_chars()[(n % 10) as int]));
        assert forall|i: int| 0 <= i < d.len() implies digit_of(#[trigger] d[i], 10) is Some by {
            if i < p.len() {
                assert(d[i] == p[i]);
            }
        }
        assert(d[0] == p[0]);
        if p.len() == 1 {
            lemma_dec_digit((n / 10) as int);
        }
        lemma_value_prefix(d, p, 0, p.len() as int, 10);
        assert(value_of(d, 0, d.len() as int, 10) == value_of(d, 0, p.len() as int, 10) * 10
            + digit_of(d[p.len() as int], 10)->0);
        assert(d[p.len() as int] == digit_chars()[(n % 10) as int]);
        assert((n / 10) * 10 + n % 10 == n);
    }
}

proof fn lemma_digits_run(s: Seq<char>, pos: int, e: int, radix: nat)
    requires
        0 <= pos <= e <= s.len(),
        forall|i: int| pos <= i < e ==> digit_of(#[trigger] s[i], radix) is Some,
        e == s.len() || digit_of(s[e], radix) is None,
    ensures
        digits_end(s, pos, radix) == e,
    decreases e - pos,
{
    if pos < e {
        lemma_digits_run(s, pos + 1, e, radix);
    }
}

/// An octet's decimal text, followed by the end or by a non-digit, reads back as
/// the octet.
proof fn lemma_read_octet_text(s: Seq<char>, pos: int, n: nat)
    requires
        n <= 255,
        0 <= pos,
        pos + num_text(n, 10).len() <= s.len(),
        s.subrange(pos, pos + num_text(n, 10).len()) == num_text(n, 10),
        pos + num_text(n, 10).len() == s.len() || digit_of(s[pos + num_text(n, 10).len()], 10)
            is None,
    ensures
        read_octet(s, pos) == Some((n, pos + num_text(n, 10).len())),
{
    let d = num_text(n, 10);
    let e = pos + d.len();
    lemma_dec_text(n);
    assert forall|i: int| 0 <= i < d.len() implies s[pos + i] == d[i] by {
        assert(s.subrange(pos, e)[i] == s[pos + i]);
    }
    assert forall|i: int| pos <= i < e implies digit_of(#[trigger] s[i], 10) is Some by {
        assert(s[pos + (i - pos)] == d[i - pos]);
    }
    lemma_digits_run(s, pos, e, 10);
    lemma_value_shift(s, d, pos, d.len() as int, 10);
    assert(s[pos + 0] == d[0]);
}

/// A dotted quad at `pos`, followed by the end or by a non-digit, reads back.
proof fn lemma_read_v4_at(s: Seq<char>, pos: int, o: Seq<u8>)
    requires
        o.len() == 4,
        0 <= pos,
        pos + v4_text(o).len() <= s.len(),
        s.subrange(pos, pos + v4_text(o).len()) == v4_text(o),
        pos + v4_text(o).len() == s.len() || digit_of(s[pos + v4_text(o).len()], 10) is None,
    ensures
        crate::ip::read_v4(s, pos) == Some((o, pos + v4_text(o).len())),
{
    let a = num_text(o[0] as nat, 10);
    let b = num_text(o[1] as nat, 10);
    let c = num_text(o[2] as nat, 10);
    let d = num_text(o[3] as nat, 10);
    let dot = seq!['.'];
    let t = v4_text(o);
    assert(t == a + dot + b + dot + c + dot + d);
    lemma_dec_text(o[0] as nat);
    lemma_dec_text(o[1] as nat);
    lemma_dec_text(o[2] as nat);
    lemma_dec_text(o[3] as nat);
    let pa: int = pos;
    let pb: int = pa + a.len() + 1;
    let pc: int = pb + b.len() + 1;
    let pd: int = pc + c.len() + 1;
    let e: int = pd + d.len();
    assert(e == pos + t.len());
    assert forall|i: int| 0 <= i < t.len() implies s[pos + i] == t[i] by {
        assert(s.subrange(pos, pos + t.len())[i] == s[pos + i]);
    }
    assert(s.subrange(pa, pa + a.len()) =~= a) by {
        assert forall|i: int| 0 <= i < a.len() implies s[pa + i] == a[i] by {
            assert(t[i] == a[i]);
        }
    }
    assert(s[pa + a.len()] == '.') by {
        assert(t[a.len() as int] == '.');
    }
    assert(s.subrange(pb, pb + b.len()) =~= b) by {
        assert forall|i: int| 0 <= i < b.len() implies s[pb + i] == b[i] by {
            assert(t[a.len() + 1 + i] == b[i]);
        }
    }
    assert(s[pb + b.len()] == '.') by {
        assert(t[a.len() + 1 + b.len() as int] == '.');
    }
    assert(s.subrange(pc, pc + c.len()) =~= c) by {
        assert forall|i: int| 0 <= i < c.len() implies s[pc + i] == c[i] by {
            assert(t[a.len() + 2 + b.len() + i] == c[i]);
        }
    }
    assert(s[pc + c.len()] == '.') by {
        assert(t[a.len() + 2 + b.len() + c.len() as int] == '.');
    }
    assert(s.subrange(pd, pd + d.len()) =~= d) by {
        assert forall|i: int| 0 <= i < d.len() implies s[pd + i] == d[i] by {
            assert(t[a.len() + 3 + b.len() + c.len() + i] == d[i]);
        }
    }
    lemma_read_octet_text(s, pa, o[0] as nat);
    lemma_read_octet_text(s, pb, o[1] as nat);
    lemma_read_octet_text(s, pc, o[2] as nat);
    lemma_read_octet_text(s, pd, o[3] as nat);
    assert(read_octets(s, pos, 0) == Some((Seq::<u8>::empty(), pos)));
    assert(read_octets(s, pos, 1) == Some((seq![o[0]], pa + a.len())));
    assert(read_octets(s, pos, 2) == Some((seq![o[0], o[1]], pb + b.len())));
    assert(read_octets(s, pos, 3) == Some((seq![o[0], o[1], o[2]], pc + c.len())));
    assert(read_octets(s, pos, 4) == Some((seq![o[0], o[1], o[2], o[3]], e)));
    assert(seq![o[0], o[1], o[2], o[3]] =~= o);
}

proof fn lemma_read_v4_text(o: Seq<u8>)
    requires
        o.len() == 4,
    ensures
        crate::ip::read_v4(v4_text(o), 0) == Some((o, v4_text(o).len() as int)),
{
    let t = v4_text(o);
    assert(t.subrange(0, t.len() as int) =~= t);
    lemma_read_v4_at(t, 0, o);
}

/// The dotted quad of four octets reads back as those octets.
pub proof fn lemma_v4_round_trip(o: [u8; 4])
    ensures
        parse_ip(ip_text(IpAddress::V4(o))) == Some(IpAddress::V4(o)),
{
    lemma_read_v4_text(o@);
    let t = ip_text(IpAddress::V4(o));
    assert(t == v4_text(o@));
    let back = [o@[0], o@[1], o@[2], o@[3]];
    assert(o@ =~= back@);
    assert(back == o);
    assert(parse_ip(t) == Some(IpAddress::V4(back)));
}

proof fn lemma_hex_digit(d: int)
    requires
        0 <= d < 16,
    ensures
        digit_of(digit_chars()[d], 16) == Some(d as nat),
        digit_chars()[d] != ':',
        digit_chars()[d] != '.',
{
    let s = digit_chars();
    assert(s[0] == '0' && s[1] == '1' && s[2] == '2' && s[3] == '3' && s[4] == '4' && s[5] == '5'
        && s[6] == '6' && s[7] == '7' && s[8] == '8' && s[9] == '9' && s[10] == 'a' && s[11]
        == 'b' && s[12] == 'c' && s[13] == 'd' && s[14] == 'e' && s[15] == 'f');
}

/// Facts about the hex text of a segment.
proof fn lemma_hex_text(n: nat)
    requires
        n < 65536,
    ensures
        1 <= num_text(n, 16).len() <= 4,
        n < 4096 ==> num_text(n, 16).len() <= 3,
        n < 256 ==> num_text(n, 16).len() <= 2,
        n < 16 ==> num_text(n, 16).len() == 1,
        forall|i: int|
            0 <= i < num_text(n, 16).len() ==> digit_of(#[trigger] num_text(n, 16)[i], 16) is Some,
        forall|i: int|
            0 <= i < num_text(n, 16).len() ==> #[trigger] num_text(n, 16)[i] != ':' && num_text(
                n,
                16,
            )[i] != '.',
        value_of(num_text(n, 16), 0, num_text(n, 16).len() as int, 16) == n,
    decreases n,
{
    let d = num_text(n, 16);
    if n < 16 {
        lemma_hex_digit(n as int);
        assert(d == seq![digit_chars()[n as int]]);
        assert(value_of(d, 0, 1, 16) == value_of(d, 0, 0, 16) * 16 + digit_of(d[0], 16)->0);
    } else {
        let p = num_text(n / 16, 16);
        lemma_hex_text(n / 16);
        lemma_hex_digit((n % 16) as int);
        assert(d == p.push(digit_chars()[(n % 16) as int]));
        assert forall|i: int| 0 <= i < d.len() implies digit_of(#[trigger] d[i], 16) is Some
            && d[i] != ':' && d[i] != '.' by {
            if i < p.len() {
                assert(d[i] == p[i]);
            }
        }
        lemma_value_prefix(d, p, 0, p.len() as int, 16);
        assert(value_of(d, 0, d.len() as int, 16) == value_of(d, 0, p.len() as int, 16) * 16
            + digit_of(d[p.len() as int], 16)->0);
        assert(d[p.len() as int] == digit_chars()[(n % 16) as int]);
        assert((n / 16) * 16 + n % 16 == n);
    }
}

/// A segment's hex text, followed by the end or by a non-digit, reads back as the
/// segment.
proof fn lemma_read_hex_text(s: Seq<char>, pos: int, n: nat)
    requires
        n < 65536,
        0 <= pos,
        pos + num_text(n, 16).len() <= s.len(),
        forall|i: int| 0 <= i < num_text(n, 16).len() ==> s[pos + i] == num_text(n, 16)[i],
        pos + num_text(n, 16).len() == s.len() || digit_of(s[pos + num_text(n, 16).len()], 16)
            is None,
    ensures
        crate::ip::read_hex_group(s, pos) == Some((n, pos + num_text(n, 16).len())),
{
    let d = num_text(n, 16);
    let e = pos + d.len();
    lemma_hex_text(n);
    assert forall|i: int| pos <= i < e implies digit_of(#[trigger] s[i], 16) is Some by {
        assert(s[pos + (i - pos)] == d[i - pos]);
    }
    lemma_digits_run(s, pos, e, 16);
    lemma_value_shift(s, d, pos, d.len() as int, 16);
}

/// Without a `.`, no dotted quad can be read.
proof fn lemma_no_quad(s: Seq<char>, pos: int)
    requires
        forall|i: int| 0 <= i < s.len() ==> s[i] != '.',
    ensures
        crate::ip::read_v4(s, pos) is None,
{
    if read_octets(s, pos, 2) is Some {
        match read_octets(s, pos, 1) {
            Some((o, p)) => {
                assert(crate::ip::after_sep(s, p, 1, '.') is Some);
                assert(s[p] == '.');
            },
            None => {},
        }
    }
    assert(read_octets(s, pos, 2) is None);
    assert(read_octets(s, pos, 3) is None);
}

/// The text of the first `k` segments of `h`.
pub open spec fn groups_prefix_text(h: Seq<u16>, k: int) -> Seq<char> {
    groups_text(h.take(k))
}

proof fn lemma_groups_prefix_step(h: Seq<u16>, k: int)
    requires
        0 <= k < h.len(),
    ensures
        groups_prefix_text(h, k + 1) == groups_prefix_text(h, k) + (if k > 0 {
            seq![':']
        } else {
            seq![]
        }) + num_text(h[k] as nat, 16),
{
    let t = h.take(k + 1);
    assert(t.drop_last() =~= h.take(k));
    assert(t.last() == h[k]);
    if k == 0 {
        assert(t[0] == h[0]);
        assert(h.take(0) =~= Seq::<u16>::empty());
        assert(groups_prefix_text(h, 0) =~= seq![]);
        assert(groups_prefix_text(h, 1) =~= groups_prefix_text(h, 0) + seq![] + num_text(h[0] as nat, 16));
    }
}

proof fn lemma_groups_prefix_grows(h: Seq<u16>, k: int, j: int)
    requires
        0 <= k <= j <= h.len(),
    ensures
        groups_prefix_text(h, k).len() <= groups_prefix_text(h, j).len(),
        groups_prefix_text(h, j).subrange(0, groups_prefix_text(h, k).len() as int) == groups_prefix_text(h, k),
    decreases j - k,
{
    if k == j {
        assert(groups_prefix_text(h, j).subrange(0, groups_prefix_text(h, k).len() as int) =~= groups_prefix_text(h, k));
    } else {
        lemma_groups_prefix_grows(h, k, j - 1);
        lemma_groups_prefix_step(h, j - 1);
        assert(groups_prefix_text(h, j).subrange(0, groups_prefix_text(h, k).len() as int) =~= groups_prefix_text(h, j - 1).subrange(
            0,
            groups_prefix_text(h, k).len() as int,
        ));
    }
}

/// The text of segments `h` at `base` reads back as `h`.
proof fn lemma_read_groups_text(s: Seq<char>, base: int, h: Seq<u16>, limit: nat, k: int)
    requires
        h.len() <= limit <= 8,
        0 <= k <= h.len(),
        forall|i: int| 0 <= i < s.len() ==> s[i] != '.',
        0 <= base,
        base + groups_text(h).len() <= s.len(),
        s.subrange(base, base + groups_text(h).len()) == groups_text(h),
        base + groups_text(h).len() == s.len() || digit_of(s[base + groups_text(h).len()], 16)
            is None,
        h.len() > 0 && base + groups_text(h).len() + 1 < s.len() && s[base + groups_text(
            h,
        ).len()] == ':' ==> digit_of(s[base + groups_text(h).len() + 1], 16) is None,
    ensures
        crate::ip::read_groups(s, limit, h.take(k), base + groups_prefix_text(h, k).len()) == (
            h,
            base + groups_text(h).len(),
            false,
        ),
    decreases h.len() - k,
{
    let g = groups_text(h);
    let e = base + g.len();
    let pk = base + groups_prefix_text(h, k).len();
    assert(h.take(h.len() as int) =~= h);
    lemma_no_quad(s, 0);
    if k == h.len() {
        assert(pk == e);
        let m = h.len();
        if m < limit {
            if m + 1 < limit {
                match crate::ip::after_sep(s, e, m, ':') {
                    Some(q) => lemma_no_quad(s, q),
                    None => {},
                }
            }
            match crate::ip::after_sep(s, e, m, ':') {
                Some(q) => {
                    if q < s.len() {
                        assert(digit_of(s[q], 16) is None);
                    }
                    assert(digits_end(s, q, 16) == q);
                },
                None => {},
            }
        }
    } else {
        lemma_read_groups_text(s, base, h, limit, k + 1);
        lemma_groups_prefix_step(h, k);
        lemma_groups_prefix_grows(h, k + 1, h.len() as int);
        lemma_hex_text(h[k] as nat);
        let hx = num_text(h[k] as nat, 16);
        let q = if k > 0 {
            pk + 1
        } else {
            pk
        };
        let next = groups_prefix_text(h, k + 1);
        assert(next.len() == q - base + hx.len());
        assert forall|i: int| 0 <= i < next.len() implies s[base + i] == next[i] by {
            assert(g.subrange(0, next.len() as int)[i] == next[i]);
            assert(s.subrange(base, e)[i] == s[base + i]);
        }
        if k > 0 {
            assert(next[groups_prefix_text(h, k).len() as int] == ':');
            assert(s[pk] == ':');
        }
        assert forall|i: int| 0 <= i < hx.len() implies s[q + i] == hx[i] by {
            assert(next[q - base + i] == hx[i]);
        }
        if k + 1 < h.len() {
            lemma_groups_prefix_step(h, k + 1);
            lemma_groups_prefix_grows(h, k + 2, h.len() as int);
            let after = groups_prefix_text(h, k + 2);
            assert(after[next.len() as int] == ':');
            assert(g.subrange(0, after.len() as int)[next.len() as int] == ':');
            assert(s[base + next.len()] == ':');
        }
        lemma_read_hex_text(s, q, h[k] as nat);
        if k + 1 < limit {
            match crate::ip::after_sep(s, pk, k as nat, ':') {
                Some(q2) => lemma_no_quad(s, q2),
                None => {},
            }
        }
        assert(h.take(k).push(h[k]) =~= h.take(k + 1));
        assert(h.take(k).len() == k);
    }
}


proof fn lemma_groups_no_dot(g: Seq<u16>)
    ensures
        forall|i: int| 0 <= i < groups_text(g).len() ==> #[trigger] groups_text(g)[i] != '.',
    decreases g.len(),
{
    if g.len() == 1 {
        lemma_hex_text(g[0] as nat);
    } else if g.len() > 1 {
        lemma_groups_no_dot(g.drop_last());
        lemma_hex_text(g.last() as nat);
        let a = groups_text(g.drop_last());
        let b = num_text(g.last() as nat, 16);
        assert forall|i: int| 0 <= i < groups_text(g).len() implies #[trigger] groups_text(g)[i]
            != '.' by {
            if i < a.len() {
                assert(groups_text(g)[i] == a[i]);
            } else if i > a.len() {
                assert(groups_text(g)[i] == b[i - a.len() - 1]);
            }
        }
    }
}

proof fn lemma_zero_run(g: Seq<u16>, i: int)
    requires
        0 <= i,
    ensures
        zero_run_at(g, i) > 0 ==> i + zero_run_at(g, i) <= g.len(),
        forall|j: int| i <= j < i + zero_run_at(g, i) ==> g[j] == 0,
    decreases g.len() - i,
{
    if 0 <= i < g.len() && g[i] == 0 {
        lemma_zero_run(g, i + 1);
    }
}

proof fn lemma_longest(g: Seq<u16>, k: nat)
    ensures
        longest_zero_run(g, k).1 > 0 ==> 0 <= longest_zero_run(g, k).0 < k
            && longest_zero_run(g, k).1 == zero_run_at(g, longest_zero_run(g, k).0),
    decreases k,
{
    if k > 0 {
        lemma_longest(g, (k - 1) as nat);
    }
}

/// The compressed form reads back: head, `::`, tail.
proof fn lemma_read_compressed(g: Seq<u16>, st: int, l: int)
    requires
        g.len() == 8,
        0 <= st,
        l > 1,
        st + l <= 8,
        forall|j: int| st <= j < st + l ==> g[j] == 0,
    ensures
        ({
            let s = groups_text(g.subrange(0, st)) + seq![':', ':'] + groups_text(
                g.subrange(st + l, 8),
            );
            crate::ip::read_v4(s, 0) is None && crate::ip::read_v6(s, 0) == Some((g, s.len() as int))
        }),
{
    let ha = g.subrange(0, st);
    let hb = g.subrange(st + l, 8);
    let a = groups_text(ha);
    let b = groups_text(hb);
    let s = a + seq![':', ':'] + b;
    lemma_groups_no_dot(ha);
    lemma_groups_no_dot(hb);
    assert forall|i: int| 0 <= i < s.len() implies s[i] != '.' by {
        if i < a.len() {
            assert(s[i] == a[i]);
        } else if i >= a.len() + 2 {
            assert(s[i] == b[i - a.len() - 2]);
        }
    }
    lemma_no_quad(s, 0);
    assert(s.subrange(0, a.len() as int) =~= a);
    assert(s[a.len() as int] == ':');
    assert(s[a.len() as int + 1] == ':');
    lemma_read_groups_text(s, 0, ha, 8, 0);
    assert(ha.take(0) =~= Seq::<u16>::empty());
    assert(groups_prefix_text(ha, 0) =~= seq![]);
    let pb: int = a.len() as int + 2;
    assert(s.subrange(pb, pb + b.len()) =~= b);
    lemma_read_groups_text(s, pb, hb, (7 - st) as nat, 0);
    assert(hb.take(0) =~= Seq::<u16>::empty());
    assert(groups_prefix_text(hb, 0) =~= seq![]);
    let z = Seq::new((8 - ha.len() - hb.len()) as nat, |i: int| 0u16);
    assert(ha + z + hb =~= g);
}

/// The mapped form `::ffff:a.b.c.d` reads back.
proof fn lemma_read_mapped(g: Seq<u16>)
    requires
        g.len() == 8,
        crate::ip::is_v4_mapped(g),
    ensures
        ({
            let s = seq![':', ':', 'f', 'f', 'f', 'f', ':'] + v4_text(crate::ip::mapped_octets(g));
            crate::ip::read_v4(s, 0) is None && crate::ip::read_v6(s, 0) == Some((g, s.len() as int))
        }),
{
    let m = crate::ip::mapped_octets(g);
    let v = v4_text(m);
    let s = seq![':', ':', 'f', 'f', 'f', 'f', ':'] + v;
    assert(s[0] == ':' && s[1] == ':' && s[2] == 'f' && s[3] == 'f' && s[4] == 'f' && s[5] == 'f'
        && s[6] == ':');
    assert(digits_end(s, 0, 10) == 0);
    assert(read_octet(s, 0) is None);
    assert(read_octets(s, 0, 0) == Some((Seq::<u8>::empty(), 0int)));
    assert(read_octets(s, 0, 1) is None);
    crate::ip::lemma_octets_none(s, 0, 1, 4);
    assert(digits_end(s, 0, 16) == 0);
    assert(crate::ip::read_groups(s, 8, seq![], 0) == (Seq::<u16>::empty(), 0int, false));
    assert(digits_end(s, 2, 10) == 2);
    assert(read_octet(s, 2) is None);
    assert(read_octets(s, 2, 0) == Some((Seq::<u8>::empty(), 2int)));
    assert(read_octets(s, 2, 1) is None);
    crate::ip::lemma_octets_none(s, 2, 1, 4);
    assert forall|i: int| 2 <= i < 6 implies digit_of(#[trigger] s[i], 16) is Some by {}
    lemma_digits_run(s, 2, 6, 16);
    assert(digit_of('f', 16) == Some(15nat));
    assert(value_of(s, 2, 2, 16) == 0);
    assert(value_of(s, 2, 3, 16) == value_of(s, 2, 2, 16) * 16 + digit_of(s[2], 16)->0);
    assert(value_of(s, 2, 3, 16) == 15);
    assert(value_of(s, 2, 4, 16) == 255);
    assert(value_of(s, 2, 5, 16) == 4095);
    assert(value_of(s, 2, 6, 16) == 65535);
    assert(crate::ip::read_hex_group(s, 2) == Some((65535nat, 6int)));
    assert(s.subrange(7, 7 + v.len() as int) =~= v);
    lemma_read_v4_at(s, 7, m);
    let tail = seq![0xffffu16] + crate::ip::v4_segments(m);
    assert(crate::ip::read_groups(s, 7, seq![0xffffu16], 6) == (tail, s.len() as int, true));
    assert(crate::ip::read_groups(s, 7, seq![], 2) == (tail, s.len() as int, true));
    assert((g[6] / 256) * 256 + g[6] % 256 == g[6]);
    assert((g[7] / 256) * 256 + g[7] % 256 == g[7]);
    let z = Seq::new(5, |i: int| 0u16);
    assert(Seq::<u16>::empty() + z + tail =~= g);
}

/// The canonical text of an IPv6 address reads back as the address.
pub proof fn lemma_v6_round_trip(g: [u16; 8])
    ensures
        parse_ip(ip_text(IpAddress::V6(g))) == Some(IpAddress::V6(g)),
{
    let gs = g@;
    let t = ip_text(IpAddress::V6(g));
    assert(t == v6_text(gs));
    if crate::ip::is_v4_mapped(gs) {
        lemma_read_mapped(gs);
    } else {
        let (st, l) = crate::ip::longest_zero_run(gs, 8);
        if l > 1 {
            lemma_longest(gs, 8);
            lemma_zero_run(gs, st);
            lemma_read_compressed(gs, st, l as int);
        } else {
            lemma_groups_no_dot(gs);
            lemma_no_quad(t, 0);
            assert(t.subrange(0, t.len() as int) =~= t);
            lemma_read_groups_text(t, 0, gs, 8, 0);
            assert(gs.take(0) =~= Seq::<u16>::empty());
            assert(groups_prefix_text(gs, 0) =~= seq![]);
            assert(gs.take(8) =~= gs);
        }
    }
    let back = [gs[0], gs[1], gs[2], gs[3], gs[4], gs[5], gs[6], gs[7]];
    assert(gs =~= back@);
    assert(back == g);
}


/// The canonical text of any address reads back as that address.
pub proof fn lemma_ip_round_trip(ip: IpAddress)
    ensures
        parse_ip(ip_text(ip)) == Some(ip),
{
    match ip {
        IpAddress::V4(o) => lemma_v4_round_trip(o),
        IpAddress::V6(g) => lemma_v6_round_trip(g),
    }
}

} // verus!
