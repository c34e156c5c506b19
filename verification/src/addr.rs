//! Textual form of addresses: rendering for kernel set elements and
//! status reports, and parsing of address strings reported by the
//! container engine.
//!
//! The accepted textual grammar is stated exactly by the spec scanners
//! below: dotted decimal without leading zeros for v4; colon-separated
//! hex groups of one to four digits for v6, with at most one `::`
//! compression and no embedded v4 tail.  Rendering uses the same dotted
//! decimal for v4 and uncompressed lowercase groups for v6.

use vstd::prelude::*;
use vstd::string::*;
use vstd::arithmetic::div_mod::{lemma_div_denominator, lemma_fundamental_div_mod};

use crate::types::IpAddress;

verus! {

/// The character for one digit value in base 10 or 16, lowercase.
pub open spec fn digit_char(d: int) -> char {
    if d == 0 {
        '0'
    } else if d == 1 {
        '1'
    } else if d == 2 {
        '2'
    } else if d == 3 {
        '3'
    } else if d == 4 {
        '4'
    } else if d == 5 {
        '5'
    } else if d == 6 {
        '6'
    } else if d == 7 {
        '7'
    } else if d == 8 {
        '8'
    } else if d == 9 {
        '9'
    } else if d == 10 {
        'a'
    } else if d == 11 {
        'b'
    } else if d == 12 {
        'c'
    } else if d == 13 {
        'd'
    } else if d == 14 {
        'e'
    } else {
        'f'
    }
}

/// Decimal text of a nonnegative number, without leading zeros.
pub open spec fn dec_text(n: int) -> Seq<char>
    decreases n,
{
    if n < 10 {
        seq![digit_char(n)]
    } else {
        dec_text(n / 10).push(digit_char(n % 10))
    }
}

/// Hexadecimal text of a nonnegative number, lowercase, without leading
/// zeros.
pub open spec fn hex_text(n: int) -> Seq<char>
    decreases n,
{
    if n < 16 {
        seq![digit_char(n)]
    } else {
        hex_text(n / 16).push(digit_char(n % 16))
    }
}

/// Dotted-decimal text of a v4 address.
pub open spec fn ipv4_text(a: u32) -> Seq<char> {
    dec_text(a as int / 0x1000000) + seq!['.'] + dec_text((a as int / 0x10000) % 256) + seq!['.']
        + dec_text((a as int / 256) % 256) + seq!['.'] + dec_text(a as int % 256)
}

/// The eight 16-bit groups of a v6 address, left to right.
pub open spec fn ipv6_groups(a: u128) -> Seq<int> {
    seq![
        a as int / 0x10000000000000000000000000000,
        (a as int / 0x1000000000000000000000000) % 0x10000,
        (a as int / 0x100000000000000000000) % 0x10000,
        (a as int / 0x10000000000000000) % 0x10000,
        (a as int / 0x1000000000000) % 0x10000,
        (a as int / 0x100000000) % 0x10000,
        (a as int / 0x10000) % 0x10000,
        a as int % 0x10000,
    ]
}

/// Uncompressed lowercase text of a v6 address: eight hex groups joined
/// by colons.
pub open spec fn ipv6_text(a: u128) -> Seq<char> {
    hex_text(ipv6_groups(a)[0]) + seq![':'] + hex_text(ipv6_groups(a)[1]) + seq![':'] + hex_text(
        ipv6_groups(a)[2],
    ) + seq![':'] + hex_text(ipv6_groups(a)[3]) + seq![':'] + hex_text(ipv6_groups(a)[4])
        + seq![':'] + hex_text(ipv6_groups(a)[5]) + seq![':'] + hex_text(ipv6_groups(a)[6])
        + seq![':'] + hex_text(ipv6_groups(a)[7])
}

/// The text of an address, per family.
pub open spec fn ip_text(a: IpAddress) -> Seq<char> {
    match a {
        IpAddress::V4(x) => ipv4_text(x),
        IpAddress::V6(x) => ipv6_text(x),
    }
}

/// One digit as a string slice.
fn digit_str(d: u32) -> (c: &'static str)
    requires
        d < 16,
    ensures
        c@ == seq![digit_char(d as int)],
{
    let c: &'static str = if d == 0 {
        "0"
    } else if d == 1 {
        "1"
    } else if d == 2 {
        "2"
    } else if d == 3 {
        "3"
    } else if d == 4 {
        "4"
    } else if d == 5 {
        "5"
    } else if d == 6 {
        "6"
    } else if d == 7 {
        "7"
    } else if d == 8 {
        "8"
    } else if d == 9 {
        "9"
    } else if d == 10 {
        "a"
    } else if d == 11 {
        "b"
    } else if d == 12 {
        "c"
    } else if d == 13 {
        "d"
    } else if d == 14 {
        "e"
    } else {
        "f"
    };
    proof {
        reveal_strlit("0");
        reveal_strlit("1");
        reveal_strlit("2");
        reveal_strlit("3");
        reveal_strlit("4");
        reveal_strlit("5");
        reveal_strlit("6");
        reveal_strlit("7");
        reveal_strlit("8");
        reveal_strlit("9");
        reveal_strlit("a");
        reveal_strlit("b");
        reveal_strlit("c");
        reveal_strlit("d");
        reveal_strlit("e");
        reveal_strlit("f");
        assert(c@ =~= seq![digit_char(d as int)]);
    }
    c
}

/// Appends the decimal text of `n`.
fn append_dec(s: &mut String, n: u32)
    ensures
        final(s)@ == old(s)@ + dec_text(n as int),
    decreases n,
{
    if n < 10 {
        let c = digit_str(n);
        s.append(c);
        proof {
            assert(s@ =~= old(s)@ + dec_text(n as int));
        }
    } else {
        append_dec(s, n / 10);
        let c = digit_str(n % 10);
        s.append(c);
        proof {
            assert(s@ =~= old(s)@ + dec_text(n as int));
        }
    }
}

/// Appends the lowercase hex text of `n`.
fn append_hex(s: &mut String, n: u32)
    ensures
        final(s)@ == old(s)@ + hex_text(n as int),
    decreases n,
{
    if n < 16 {
        let c = digit_str(n);
        s.append(c);
        proof {
            assert(s@ =~= old(s)@ + hex_text(n as int));
        }
    } else {
        append_hex(s, n / 16);
        let c = digit_str(n % 16);
        s.append(c);
        proof {
            assert(s@ =~= old(s)@ + hex_text(n as int));
        }
    }
}

/// Renders a v4 address as dotted decimal.
pub fn ipv4_string(a: u32) -> (r: String)
    ensures
        r@ == ipv4_text(a),
{
    let mut s = String::new();
    append_dec(&mut s, a / 0x1000000);
    s.append(".");
    append_dec(&mut s, (a / 0x10000) % 256);
    s.append(".");
    append_dec(&mut s, (a / 256) % 256);
    s.append(".");
    append_dec(&mut s, a % 256);
    proof {
        reveal_strlit(".");
        assert("."@ =~= seq!['.']);
        assert(s@ =~= ipv4_text(a));
    }
    s
}

/// Renders a v6 address as eight lowercase hex groups.
pub fn ipv6_string(a: u128) -> (r: String)
    ensures
        r@ == ipv6_text(a),
{
    let g0 = (a / 0x10000000000000000000000000000) as u32;
    let g1 = ((a / 0x1000000000000000000000000) % 0x10000) as u32;
    let g2 = ((a / 0x100000000000000000000) % 0x10000) as u32;
    let g3 = ((a / 0x10000000000000000) % 0x10000) as u32;
    let g4 = ((a / 0x1000000000000) % 0x10000) as u32;
    let g5 = ((a / 0x100000000) % 0x10000) as u32;
    let g6 = ((a / 0x10000) % 0x10000) as u32;
    let g7 = (a % 0x10000) as u32;
    let mut s = String::new();
    append_hex(&mut s, g0);
    s.append(":");
    append_hex(&mut s, g1);
    s.append(":");
    append_hex(&mut s, g2);
    s.append(":");
    append_hex(&mut s, g3);
    s.append(":");
    append_hex(&mut s, g4);
    s.append(":");
    append_hex(&mut s, g5);
    s.append(":");
    append_hex(&mut s, g6);
    s.append(":");
    append_hex(&mut s, g7);
    proof {
        reveal_strlit(":");
        assert(":"@ =~= seq![':']);
        assert(s@ =~= ipv6_text(a));
    }
    s
}

/// Renders an address per its family.
pub fn format_ip(a: &IpAddress) -> (r: String)
    ensures
        r@ == ip_text(*a),
{
    match a {
        IpAddress::V4(x) => ipv4_string(*x),
        IpAddress::V6(x) => ipv6_string(*x),
    }
}

// ---------------------------------------------------------------------------
// Parsing
// ---------------------------------------------------------------------------

/// Value of a decimal digit character, or -1.
pub open spec fn dec_val(c: char) -> int {
    if 48 <= c as u32 && c as u32 <= 57 {
        c as u32 - 48
    } else {
        -1
    }
}

/// Value of a hex digit character, or -1.
pub open spec fn hex_val(c: char) -> int {
    if 48 <= c as u32 && c as u32 <= 57 {
        c as u32 - 48
    } else if 97 <= c as u32 && c as u32 <= 102 {
        c as u32 - 87
    } else if 65 <= c as u32 && c as u32 <= 70 {
        c as u32 - 55
    } else {
        -1
    }
}

/// The u32 value of a v4 address given its four octets.
pub open spec fn v4_value(o0: int, o1: int, o2: int, o3: int) -> u32 {
    (o0 * 0x1000000 + o1 * 0x10000 + o2 * 256 + o3) as u32
}

/// Left-to-right scanner for dotted-decimal v4 text: octets of one to
/// three digits, no leading zeros, each at most 255, joined by dots.
/// `acc` and `digits` describe the octet being read, `done` the
/// completed octets.
pub open spec fn scan_v4(s: Seq<char>, i: int, acc: int, digits: int, done: Seq<int>) -> Option<
    u32,
>
    decreases s.len() - i,
{
    if i < 0 || i >= s.len() {
        if digits > 0 && done.len() == 3 {
            Some(v4_value(done[0], done[1], done[2], acc))
        } else {
            None
        }
    } else {
        let c = s[i];
        if dec_val(c) >= 0 {
            if digits > 0 && acc == 0 {
                None
            } else if acc * 10 + dec_val(c) > 255 {
                None
            } else {
                scan_v4(s, i + 1, acc * 10 + dec_val(c), digits + 1, done)
            }
        } else if c == '.' {
            if digits == 0 || done.len() >= 3 {
                None
            } else {
                scan_v4(s, i + 1, 0, 0, done.push(acc))
            }
        } else {
            None
        }
    }
}

/// What `parse_ipv4` accepts, and the value it returns.
pub open spec fn parse_ipv4_spec(s: Seq<char>) -> Option<u32> {
    scan_v4(s, 0, 0, 0, Seq::empty())
}

/// A u32 sequence read at spec level.
pub open spec fn ints(s: Seq<u32>) -> Seq<int> {
    s.map_values(|x: u32| x as int)
}

/// Parses dotted-decimal v4 text.
pub fn parse_ipv4(s: &str) -> (r: Option<u32>)
    ensures
        r == parse_ipv4_spec(s@),
{
    let n = s.unicode_len();
    let mut i: usize = 0;
    let mut acc: u32 = 0;
    let mut digits: usize = 0;
    let mut done: Vec<u32> = Vec::new();
    proof {
        assert(ints(done@) =~= Seq::<int>::empty());
    }
    while i < n
        invariant
            n == s@.len(),
            i <= n,
            digits <= i,
            acc <= 255,
            done@.len() <= 3,
            forall|k: int| 0 <= k < done@.len() ==> done@[k] <= 255,
            scan_v4(s@, i as int, acc as int, digits as int, ints(done@)) == parse_ipv4_spec(s@),
        decreases n - i,
    {
        let c = s.get_char(i);
        let u = c as u32;
        if u >= 48 && u <= 57 {
            let d = u - 48;
            proof {
                assert(dec_val(c) == d as int);
            }
            if digits > 0 && acc == 0 {
                return None;
            }
            let acc2 = acc * 10 + d;
            if acc2 > 255 {
                return None;
            }
            acc = acc2;
            digits += 1;
        } else if c == '.' {
            proof {
                assert(dec_val(c) < 0);
            }
            if digits == 0 || done.len() >= 3 {
                return None;
            }
            let ghost pre = done@;
            let ghost a0 = acc as int;
            done.push(acc);
            acc = 0;
            digits = 0;
            proof {
                assert(ints(done@) =~= ints(pre).push(a0));
            }
        } else {
            proof {
                assert(dec_val(c) < 0);
            }
            return None;
        }
        i += 1;
    }
    if digits > 0 && done.len() == 3 {
        let v = done[0] * 0x1000000 + done[1] * 0x10000 + done[2] * 256 + acc;
        proof {
            assert(ints(done@)[0] == done@[0] as int);
            assert(ints(done@)[1] == done@[1] as int);
            assert(ints(done@)[2] == done@[2] as int);
        }
        Some(v)
    } else {
        None
    }
}

/// The value of a group sequence read as base-0x10000 digits.
pub open spec fn groups_val(g: Seq<int>) -> int
    decreases g.len(),
{
    if g.len() == 0 {
        0
    } else {
        groups_val(g.drop_last()) * 0x10000 + g.last()
    }
}

/// `0x10000` to the power `k`.
pub open spec fn p16(k: int) -> int
    decreases k,
{
    if k <= 0 {
        1
    } else {
        0x10000 * p16(k - 1)
    }
}

/// Group values below 0x10000 give a value below `p16` of the length.
pub proof fn lemma_groups_val_bound(g: Seq<int>)
    requires
        forall|k: int| 0 <= k < g.len() ==> 0 <= #[trigger] g[k] < 0x10000,
    ensures
        0 <= groups_val(g) < p16(g.len() as int),
    decreases g.len(),
{
    if g.len() == 0 {
    } else {
        lemma_groups_val_bound(g.drop_last());
        let v = groups_val(g.drop_last());
        let last = g.last();
        assert(0 <= last < 0x10000);
        assert(p16(g.len() as int) == 0x10000 * p16(g.len() as int - 1));
        assert(0 <= v * 0x10000 + last < 0x10000 * p16(g.len() as int - 1)) by (nonlinear_arith)
            requires
                0 <= v < p16(g.len() as int - 1),
                0 <= last < 0x10000,
        {}
    }
}

/// `p16` is at least one.
pub proof fn lemma_p16_pos(k: int)
    ensures
        p16(k) >= 1,
    decreases k,
{
    if k > 0 {
        lemma_p16_pos(k - 1);
        assert(p16(k) == 0x10000 * p16(k - 1));
        assert(0x10000 * p16(k - 1) >= 1) by (nonlinear_arith)
            requires
                p16(k - 1) >= 1,
        {}
    }
}

/// `p16` grows with its argument.
pub proof fn lemma_p16_mono(a: int, b: int)
    requires
        a <= b,
    ensures
        p16(a) <= p16(b),
    decreases b - a,
{
    if a < b {
        if b <= 0 {
            assert(p16(a) == 1);
            assert(p16(b) == 1);
        } else {
            lemma_p16_mono(a, b - 1);
            lemma_p16_pos(b - 1);
            assert(p16(b) == 0x10000 * p16(b - 1));
            assert(p16(b - 1) <= 0x10000 * p16(b - 1)) by (nonlinear_arith)
                requires
                    p16(b - 1) >= 1,
            {}
        }
    }
}

/// A run of zero groups.
pub open spec fn pad_zeros(k: int) -> Seq<int> {
    Seq::new(
        if k >= 0 {
            k as nat
        } else {
            0
        },
        |i: int| 0,
    )
}

/// The v6 value with leading groups `front`, a compressed zero run, and
/// trailing groups `back`.
pub open spec fn v6_value(front: Seq<int>, back: Seq<int>) -> u128 {
    groups_val(front + pad_zeros(8 - front.len() - back.len()) + back) as u128
}

/// Left-to-right scanner for v6 text: hex groups of one to four digits
/// joined by colons, eight groups, or fewer with one `::` compression
/// standing for at least one zero group.  `front` holds the groups read
/// before the compression, `back` those after it (absent before any
/// `::`), `pending` records that a lone colon was just read and a group
/// must follow.
pub open spec fn scan_v6(
    s: Seq<char>,
    i: int,
    acc: int,
    digits: int,
    front: Seq<int>,
    back: Option<Seq<int>>,
    pending: bool,
) -> Option<u128>
    decreases s.len() - i,
{
    if i < 0 || i >= s.len() {
        if digits > 0 {
            match back {
                Option::None => if front.len() == 7 {
                    Some(v6_value(front.push(acc), Seq::empty()))
                } else {
                    None
                },
                Option::Some(b) => if front.len() + b.len() + 1 <= 7 {
                    Some(v6_value(front, b.push(acc)))
                } else {
                    None
                },
            }
        } else {
            match back {
                Option::Some(b) => if !pending && front.len() + b.len() <= 7 {
                    Some(v6_value(front, b))
                } else {
                    None
                },
                Option::None => None,
            }
        }
    } else {
        let c = s[i];
        if hex_val(c) >= 0 {
            if digits >= 4 {
                None
            } else {
                scan_v6(s, i + 1, acc * 16 + hex_val(c), digits + 1, front, back, false)
            }
        } else if c == ':' {
            if digits > 0 {
                if i + 1 < s.len() && s[i + 1] == ':' {
                    match back {
                        Option::Some(_) => None,
                        Option::None => scan_v6(
                            s,
                            i + 2,
                            0,
                            0,
                            front.push(acc),
                            Some(Seq::empty()),
                            false,
                        ),
                    }
                } else {
                    match back {
                        Option::None => scan_v6(s, i + 1, 0, 0, front.push(acc), Option::None, true),
                        Option::Some(b) => scan_v6(s, i + 1, 0, 0, front, Some(b.push(acc)), true),
                    }
                }
            } else {
                if i + 1 < s.len() && s[i + 1] == ':' {
                    match back {
                        Option::Some(_) => None,
                        Option::None => scan_v6(s, i + 2, 0, 0, front, Some(Seq::empty()), false),
                    }
                } else {
                    None
                }
            }
        } else {
            None
        }
    }
}

/// What `parse_ipv6` accepts, and the value it returns.
pub open spec fn parse_ipv6_spec(s: Seq<char>) -> Option<u128> {
    scan_v6(s, 0, 0, 0, Seq::empty(), Option::None, false)
}

/// Folds full group lists (front, zero run, back) into the address value.
fn assemble_v6(front: &Vec<u32>, back: &Vec<u32>) -> (r: u128)
    requires
        front@.len() + back@.len() <= 8,
        forall|k: int| 0 <= k < front@.len() ==> front@[k] < 0x10000,
        forall|k: int| 0 <= k < back@.len() ==> back@[k] < 0x10000,
    ensures
        r == v6_value(ints(front@), ints(back@)),
{
    proof {
        assert(p16(0) == 1);
        assert(p16(1) == 0x10000);
        assert(p16(2) == 0x10000 * p16(1));
        assert(p16(3) == 0x10000 * p16(2));
        assert(p16(4) == 0x10000 * p16(3));
        assert(p16(5) == 0x10000 * p16(4));
        assert(p16(6) == 0x10000 * p16(5));
        assert(p16(7) == 0x10000 * p16(6));
        assert(p16(8) == 0x10000 * p16(7));
        assert(p16(8) == 0x100000000000000000000000000000000);
    }
    let ghost full = ints(front@) + pad_zeros(8 - front@.len() - back@.len()) + ints(back@);
    proof {
        assert(full.len() == 8);
        assert forall|k: int| 0 <= k < full.len() implies 0 <= #[trigger] full[k] < 0x10000 by {
            if k < front@.len() {
                assert(full[k] == ints(front@)[k]);
            } else if k < 8 - back@.len() {
                assert(full[k] == pad_zeros(8 - front@.len() - back@.len())[k - front@.len()]);
            } else {
                assert(full[k] == ints(back@)[k - (8 - back@.len())]);
            }
        }
    }
    let zeros: usize = 8 - front.len() - back.len();
    let mut acc: u128 = 0;
    let mut count: usize = 0;
    let mut j: usize = 0;
    while j < front.len()
        invariant
            front@.len() + back@.len() <= 8,
            forall|k: int| 0 <= k < front@.len() ==> front@[k] < 0x10000,
            forall|k: int| 0 <= k < full.len() ==> 0 <= #[trigger] full[k] < 0x10000,
            full.len() == 8,
            full == ints(front@) + pad_zeros(8 - front@.len() - back@.len()) + ints(back@),
            j <= front@.len(),
            count == j,
            acc == groups_val(full.take(count as int)),
            p16(8) == 0x100000000000000000000000000000000,
        decreases front@.len() - j,
    {
        proof {
            lemma_groups_val_bound(full.take(count as int));
            assert(full.take(count as int).len() == count as int);
            assert(acc < p16(count as int));
            assert(p16(count as int) <= p16(7)) by {
                lemma_p16_mono(count as int, 7);
            }
            assert(acc * 0x10000 + full[count as int] < p16(8)) by (nonlinear_arith)
                requires
                    0 <= acc < p16(7),
                    p16(8) == 0x10000 * p16(7),
                    0 <= full[count as int] < 0x10000,
            {}
            assert(full[count as int] == ints(front@)[j as int]);
        }
        let g = front[j];
        proof {
            assert(g as int == full[count as int]);
            assert((acc as int) * 0x10000 + (g as int) < p16(8)) by (nonlinear_arith)
                requires
                    0 <= acc < p16(7),
                    p16(8) == 0x10000 * p16(7),
                    0 <= (g as int) < 0x10000,
            {}
            assert((acc as int) * 0x10000 + (g as int) <= 0xffffffffffffffffffffffffffffffff);
        }
        acc = acc * 0x10000 + (g as u128);
        proof {
            assert(full.take(count as int + 1).drop_last() =~= full.take(count as int));
            assert(full.take(count as int + 1).last() == full[count as int]);
        }
        j += 1;
        count += 1;
    }
    let mut z: usize = 0;
    while z < zeros
        invariant
            front@.len() + back@.len() <= 8,
            zeros == 8 - front@.len() - back@.len(),
            forall|k: int| 0 <= k < full.len() ==> 0 <= #[trigger] full[k] < 0x10000,
            full.len() == 8,
            full == ints(front@) + pad_zeros(8 - front@.len() - back@.len()) + ints(back@),
            z <= zeros,
            count == front@.len() + z,
            acc == groups_val(full.take(count as int)),
            p16(8) == 0x100000000000000000000000000000000,
        decreases zeros - z,
    {
        proof {
            lemma_groups_val_bound(full.take(count as int));
            assert(full.take(count as int).len() == count as int);
            assert(acc < p16(count as int));
            assert(p16(count as int) <= p16(7)) by {
                lemma_p16_mono(count as int, 7);
            }
            assert(acc * 0x10000 + full[count as int] < p16(8)) by (nonlinear_arith)
                requires
                    0 <= acc < p16(7),
                    p16(8) == 0x10000 * p16(7),
                    0 <= full[count as int] < 0x10000,
            {}
            assert(full[count as int] == pad_zeros(8 - front@.len() - back@.len())[z as int]);
            assert(full[count as int] == 0);
            assert((acc as int) * 0x10000 < p16(8)) by (nonlinear_arith)
                requires
                    0 <= acc < p16(7),
                    p16(8) == 0x10000 * p16(7),
            {}
            assert((acc as int) * 0x10000 <= 0xffffffffffffffffffffffffffffffff);
        }
        acc = acc * 0x10000;
        proof {
            assert(full.take(count as int + 1).drop_last() =~= full.take(count as int));
            assert(full.take(count as int + 1).last() == full[count as int]);
        }
        z += 1;
        count += 1;
    }
    let mut b: usize = 0;
    while b < back.len()
        invariant
            front@.len() + back@.len() <= 8,
            zeros == 8 - front@.len() - back@.len(),
            forall|k: int| 0 <= k < back@.len() ==> back@[k] < 0x10000,
            forall|k: int| 0 <= k < full.len() ==> 0 <= #[trigger] full[k] < 0x10000,
            full.len() == 8,
            full == ints(front@) + pad_zeros(8 - front@.len() - back@.len()) + ints(back@),
            b <= back@.len(),
            count == front@.len() + zeros + b,
            acc == groups_val(full.take(count as int)),
            p16(8) == 0x100000000000000000000000000000000,
        decreases back@.len() - b,
    {
        proof {
            lemma_groups_val_bound(full.take(count as int));
            assert(full.take(count as int).len() == count as int);
            assert(acc < p16(count as int));
            assert(p16(count as int) <= p16(7)) by {
                lemma_p16_mono(count as int, 7);
            }
            assert(acc * 0x10000 + full[count as int] < p16(8)) by (nonlinear_arith)
                requires
                    0 <= acc < p16(7),
                    p16(8) == 0x10000 * p16(7),
                    0 <= full[count as int] < 0x10000,
            {}
            assert(full[count as int] == ints(back@)[b as int]);
        }
        let g = back[b];
        proof {
            assert(g as int == full[count as int]);
            assert((acc as int) * 0x10000 + (g as int) < p16(8)) by (nonlinear_arith)
                requires
                    0 <= acc < p16(7),
                    p16(8) == 0x10000 * p16(7),
                    0 <= (g as int) < 0x10000,
            {}
            assert((acc as int) * 0x10000 + (g as int) <= 0xffffffffffffffffffffffffffffffff);
        }
        acc = acc * 0x10000 + (g as u128);
        proof {
            assert(full.take(count as int + 1).drop_last() =~= full.take(count as int));
            assert(full.take(count as int + 1).last() == full[count as int]);
        }
        b += 1;
        count += 1;
    }
    proof {
        assert(count == 8);
        assert(full.take(8) =~= full);
        lemma_groups_val_bound(full);
        assert(acc == groups_val(full));
        assert(v6_value(ints(front@), ints(back@)) == groups_val(full) as u128);
    }
    acc
}

/// Parses v6 text per the scanner's grammar.
pub fn parse_ipv6(s: &str) -> (r: Option<u128>)
    ensures
        r == parse_ipv6_spec(s@),
{
    let n = s.unicode_len();
    let mut i: usize = 0;
    let mut acc: u32 = 0;
    let mut digits: usize = 0;
    let mut front: Vec<u32> = Vec::new();
    let mut back: Vec<u32> = Vec::new();
    let mut has_back: bool = false;
    let mut pending: bool = false;
    proof {
        assert(ints(front@) =~= Seq::<int>::empty());
    }
    while i < n
        invariant
            n == s@.len(),
            i <= n,
            digits <= 4,
            acc < 0x10000,
            digits < 4 ==> acc < 0x1000,
            digits < 3 ==> acc < 0x100,
            digits < 2 ==> acc < 0x10,
            digits < 1 ==> acc == 0,
            front@.len() + back@.len() <= i,
            forall|k: int| 0 <= k < front@.len() ==> front@[k] < 0x10000,
            forall|k: int| 0 <= k < back@.len() ==> back@[k] < 0x10000,
            !has_back ==> back@.len() == 0,
            scan_v6(
                s@,
                i as int,
                acc as int,
                digits as int,
                ints(front@),
                if has_back {
                    Option::Some(ints(back@))
                } else {
                    Option::None
                },
                pending,
            ) == parse_ipv6_spec(s@),
        decreases n - i,
    {
        let c = s.get_char(i);
        let u = c as u32;
        let hv: u32 = if u >= 48 && u <= 57 {
            u - 48
        } else if u >= 97 && u <= 102 {
            u - 87
        } else if u >= 65 && u <= 70 {
            u - 55
        } else {
            16
        };
        if hv < 16 {
            proof {
                assert(hex_val(c) == hv as int);
            }
            if digits >= 4 {
                return None;
            }
            acc = acc * 16 + hv;
            digits += 1;
            pending = false;
            i += 1;
        } else if c == ':' {
            proof {
                assert(hex_val(c) < 0);
            }
            let double = i + 1 < n && s.get_char(i + 1) == ':';
            if digits > 0 {
                if double {
                    if has_back {
                        return None;
                    }
                    let ghost prefront = front@;
                    front.push(acc);
                    proof {
                        assert(ints(front@) =~= ints(prefront).push(acc as int));
                        assert(ints(back@) =~= Seq::<int>::empty());
                    }
                    has_back = true;
                    acc = 0;
                    digits = 0;
                    pending = false;
                    i += 2;
                } else {
                    if !has_back {
                        let ghost prefront = front@;
                        front.push(acc);
                        proof {
                            assert(ints(front@) =~= ints(prefront).push(acc as int));
                        }
                    } else {
                        let ghost preback = back@;
                        back.push(acc);
                        proof {
                            assert(ints(back@) =~= ints(preback).push(acc as int));
                        }
                    }
                    acc = 0;
                    digits = 0;
                    pending = true;
                    i += 1;
                }
            } else {
                if double {
                    if has_back {
                        return None;
                    }
                    proof {
                        assert(ints(back@) =~= Seq::<int>::empty());
                    }
                    has_back = true;
                    pending = false;
                    i += 2;
                } else {
                    return None;
                }
            }
        } else {
            proof {
                assert(hex_val(c) < 0);
            }
            return None;
        }
    }
    if digits > 0 {
        if !has_back {
            if front.len() == 7 {
                let ghost prefront = front@;
                front.push(acc);
                proof {
                    assert(ints(front@) =~= ints(prefront).push(acc as int));
                    assert(ints(back@) =~= Seq::<int>::empty());
                }
                let v = assemble_v6(&front, &back);
                return Some(v);
            } else {
                return None;
            }
        } else {
            if front.len() <= 6 && back.len() <= 6 && front.len() + back.len() + 1 <= 7 {
                let ghost preback = back@;
                back.push(acc);
                proof {
                    assert(ints(back@) =~= ints(preback).push(acc as int));
                }
                let v = assemble_v6(&front, &back);
                return Some(v);
            } else {
                return None;
            }
        }
    } else {
        if has_back && !pending && front.len() <= 7 && back.len() <= 7 && front.len() + back.len()
            <= 7 {
            let v = assemble_v6(&front, &back);
            return Some(v);
        } else {
            return None;
        }
    }
}

/// `10` to the power `k`.
pub open spec fn p10(k: int) -> int
    decreases k,
{
    if k <= 0 {
        1
    } else {
        10 * p10(k - 1)
    }
}

/// Decimal text is never empty.
pub proof fn lemma_dec_text_len(n: int)
    ensures
        dec_text(n).len() >= 1,
    decreases n,
{
    if n >= 10 {
        lemma_dec_text_len(n / 10);
    }
}

/// A digit character scans back to its value.
pub proof fn lemma_dec_val_digit(v: int)
    requires
        0 <= v <= 9,
    ensures
        dec_val(digit_char(v)) == v,
{
}

/// Scanning the decimal text of `n` carries the accumulator from `a` to
/// `a * 10^len + n`, octet bounds permitting.
proof fn lemma_scan_dec(s: Seq<char>, i: int, n: int, a: int, d: int, done: Seq<int>)
    requires
        0 <= n,
        0 <= a,
        d > 0 ==> a > 0,
        a * p10(dec_text(n).len() as int) + n <= 255,
        0 <= i,
        i + dec_text(n).len() <= s.len(),
        s.subrange(i, i + dec_text(n).len() as int) == dec_text(n),
    ensures
        scan_v4(s, i, a, d, done) == scan_v4(
            s,
            i + dec_text(n).len() as int,
            a * p10(dec_text(n).len() as int) + n,
            d + dec_text(n).len() as int,
            done,
        ),
    decreases n,
{
    lemma_dec_text_len(n);
    if n < 10 {
        assert(dec_text(n) =~= seq![digit_char(n)]);
        assert(s[i] == dec_text(n)[0]) by {
            assert(s.subrange(i, i + 1)[0] == s[i]);
        }
        lemma_dec_val_digit(n);
        assert(p10(1) == 10 * p10(0));
        assert(a * 10 + n <= 255);
        assert(scan_v4(s, i, a, d, done) == scan_v4(s, i + 1, a * 10 + n, d + 1, done));
    } else {
        let front = dec_text(n / 10);
        let lf = front.len() as int;
        assert(dec_text(n) == front.push(digit_char(n % 10)));
        assert(s.subrange(i, i + lf) =~= front) by {
            assert forall|j: int| 0 <= j < lf implies s.subrange(i, i + lf)[j] == front[j] by {
                assert(s.subrange(i, i + lf)[j] == s[i + j]);
                assert(s[i + j] == s.subrange(i, i + lf + 1)[j]);
                assert(dec_text(n)[j] == front[j]);
            }
        }
        assert(s[i + lf] == digit_char(n % 10)) by {
            assert(s.subrange(i, i + lf + 1)[lf] == s[i + lf]);
            assert(dec_text(n)[lf] == digit_char(n % 10));
        }
        lemma_dec_text_len(n / 10);
        lemma_p10_pos(lf);
        assert(p10(lf + 1) == 10 * p10(lf));
        assert(a * p10(lf + 1) + n == (a * p10(lf) + n / 10) * 10 + n % 10) by (nonlinear_arith)
            requires
                p10(lf + 1) == 10 * p10(lf),
                n == 10 * (n / 10) + n % 10,
        {}
        assert(0 <= n % 10 <= 9);
        assert(a * p10(lf) + n / 10 <= 255) by (nonlinear_arith)
            requires
                (a * p10(lf) + n / 10) * 10 + n % 10 <= 255,
                0 <= n % 10,
        {}
        lemma_scan_dec(s, i, n / 10, a, d, done);
        let a1 = a * p10(lf) + n / 10;
        assert(a1 > 0) by (nonlinear_arith)
            requires
                a >= 0,
                p10(lf) >= 1,
                n / 10 >= 1,
                a1 == a * p10(lf) + n / 10,
        {}
        lemma_dec_val_digit(n % 10);
        assert(scan_v4(s, i + lf, a1, d + lf, done) == scan_v4(
            s,
            i + lf + 1,
            a1 * 10 + n % 10,
            d + lf + 1,
            done,
        ));
    }
}

/// `p10` is at least one.
pub proof fn lemma_p10_pos(k: int)
    ensures
        p10(k) >= 1,
    decreases k,
{
    if k > 0 {
        lemma_p10_pos(k - 1);
        assert(p10(k) == 10 * p10(k - 1));
        assert(10 * p10(k - 1) >= 1) by (nonlinear_arith)
            requires
                p10(k - 1) >= 1,
        {}
    }
}

/// `16` to the power `k`.
pub open spec fn hp16(k: int) -> int
    decreases k,
{
    if k <= 0 {
        1
    } else {
        16 * hp16(k - 1)
    }
}

/// `hp16` is at least one.
pub proof fn lemma_hp16_pos(k: int)
    ensures
        hp16(k) >= 1,
    decreases k,
{
    if k > 0 {
        lemma_hp16_pos(k - 1);
        assert(hp16(k) == 16 * hp16(k - 1));
        assert(16 * hp16(k - 1) >= 1) by (nonlinear_arith)
            requires
                hp16(k - 1) >= 1,
        {}
    }
}

/// Hex text is never empty.
pub proof fn lemma_hex_text_len(n: int)
    ensures
        hex_text(n).len() >= 1,
    decreases n,
{
    if n >= 16 {
        lemma_hex_text_len(n / 16);
    }
}

/// A value below `16^k` renders with at most `k` hex digits.
pub proof fn lemma_hex_text_len_bound(n: int, k: int)
    requires
        0 <= n < hp16(k),
        k >= 1,
    ensures
        hex_text(n).len() <= k,
    decreases k,
{
    if n < 16 {
    } else {
        assert(hp16(k) == 16 * hp16(k - 1));
        assert(n / 16 < hp16(k - 1)) by (nonlinear_arith)
            requires
                0 <= n,
                n < 16 * hp16(k - 1),
        {}
        assert(k >= 2) by {
            if k == 1 {
                assert(hp16(1) == 16 * hp16(0));
                assert(n < 16);
            }
        }
        lemma_hex_text_len_bound(n / 16, k - 1);
    }
}

/// A hex digit character scans back to its value.
pub proof fn lemma_hex_val_digit(v: int)
    requires
        0 <= v <= 15,
    ensures
        hex_val(digit_char(v)) == v,
{
}

/// Every character of hex text is a hex digit.
pub proof fn lemma_hex_text_chars(n: int)
    requires
        0 <= n,
    ensures
        forall|j: int| 0 <= j < hex_text(n).len() ==> hex_val(#[trigger] hex_text(n)[j]) >= 0,
    decreases n,
{
    if n < 16 {
        lemma_hex_val_digit(n);
        assert(hex_text(n)[0] == digit_char(n));
    } else {
        lemma_hex_text_chars(n / 16);
        lemma_hex_val_digit(n % 16);
        assert forall|j: int| 0 <= j < hex_text(n).len() implies hex_val(
            #[trigger] hex_text(n)[j],
        ) >= 0 by {
            if j < hex_text(n).len() - 1 {
                assert(hex_text(n)[j] == hex_text(n / 16)[j]);
            } else {
                assert(hex_text(n)[j] == digit_char(n % 16));
            }
        }
    }
}

/// Scanning the hex text of a group carries the accumulator from `a` to
/// `a * 16^len + n`, within the four-digit cap.
proof fn lemma_scan_hex(
    s: Seq<char>,
    i: int,
    n: int,
    a: int,
    d: int,
    front: Seq<int>,
    back: Option<Seq<int>>,
    pending: bool,
)
    requires
        0 <= n,
        0 <= a,
        0 <= d,
        d + hex_text(n).len() <= 4,
        0 <= i,
        i + hex_text(n).len() <= s.len(),
        s.subrange(i, i + hex_text(n).len() as int) == hex_text(n),
    ensures
        scan_v6(s, i, a, d, front, back, pending) == scan_v6(
            s,
            i + hex_text(n).len() as int,
            a * hp16(hex_text(n).len() as int) + n,
            d + hex_text(n).len() as int,
            front,
            back,
            false,
        ),
    decreases n,
{
    lemma_hex_text_len(n);
    if n < 16 {
        assert(hex_text(n) =~= seq![digit_char(n)]);
        assert(s[i] == hex_text(n)[0]) by {
            assert(s.subrange(i, i + 1)[0] == s[i]);
        }
        lemma_hex_val_digit(n);
        assert(hp16(1) == 16 * hp16(0));
        assert(scan_v6(s, i, a, d, front, back, pending) == scan_v6(
            s,
            i + 1,
            a * 16 + n,
            d + 1,
            front,
            back,
            false,
        ));
    } else {
        let fr = hex_text(n / 16);
        let lf = fr.len() as int;
        assert(hex_text(n) == fr.push(digit_char(n % 16)));
        assert(s.subrange(i, i + lf) =~= fr) by {
            assert forall|j: int| 0 <= j < lf implies s.subrange(i, i + lf)[j] == fr[j] by {
                assert(s.subrange(i, i + lf)[j] == s[i + j]);
                assert(s[i + j] == s.subrange(i, i + lf + 1)[j]);
                assert(hex_text(n)[j] == fr[j]);
            }
        }
        assert(s[i + lf] == digit_char(n % 16)) by {
            assert(s.subrange(i, i + lf + 1)[lf] == s[i + lf]);
            assert(hex_text(n)[lf] == digit_char(n % 16));
        }
        lemma_hex_text_len(n / 16);
        lemma_hp16_pos(lf);
        assert(hp16(lf + 1) == 16 * hp16(lf));
        lemma_scan_hex(s, i, n / 16, a, d, front, back, pending);
        lemma_hex_val_digit(n % 16);
        let a1 = a * hp16(lf) + n / 16;
        assert(scan_v6(s, i + lf, a1, d + lf, front, back, false) == scan_v6(
            s,
            i + lf + 1,
            a1 * 16 + n % 16,
            d + lf + 1,
            front,
            back,
            false,
        ));
        assert(a1 * 16 + n % 16 == a * hp16(lf + 1) + n) by (nonlinear_arith)
            requires
                hp16(lf + 1) == 16 * hp16(lf),
                n == 16 * (n / 16) + n % 16,
                a1 == a * hp16(lf) + n / 16,
        {}
    }
}

/// The division groups reassemble to the address value.
proof fn lemma_groups_val_ipv6(a: u128)
    ensures
        groups_val(ipv6_groups(a)) == a as int,
{
    let g = ipv6_groups(a);
    let x = a as int;
    let q6 = x / 0x10000;
    let q5 = x / 0x100000000;
    let q4 = x / 0x1000000000000;
    let q3 = x / 0x10000000000000000;
    let q2 = x / 0x100000000000000000000;
    let q1 = x / 0x1000000000000000000000000;
    let q0 = x / 0x10000000000000000000000000000;
    // each quotient is the previous one divided by one more group
    lemma_div_denominator(x, 0x10000, 0x10000);
    assert(0x10000 * 0x10000 == 0x100000000) by (nonlinear_arith) {}
    lemma_div_denominator(x, 0x100000000, 0x10000);
    assert(0x100000000 * 0x10000 == 0x1000000000000) by (nonlinear_arith) {}
    lemma_div_denominator(x, 0x1000000000000, 0x10000);
    assert(0x1000000000000 * 0x10000 == 0x10000000000000000) by (nonlinear_arith) {}
    lemma_div_denominator(x, 0x10000000000000000, 0x10000);
    assert(0x10000000000000000 * 0x10000 == 0x100000000000000000000) by (nonlinear_arith) {}
    lemma_div_denominator(x, 0x100000000000000000000, 0x10000);
    assert(0x100000000000000000000 * 0x10000 == 0x1000000000000000000000000)
        by (nonlinear_arith) {}
    lemma_div_denominator(x, 0x1000000000000000000000000, 0x10000);
    assert(0x1000000000000000000000000 * 0x10000 == 0x10000000000000000000000000000)
        by (nonlinear_arith) {}
    assert(q6 / 0x10000 == q5);
    assert(q5 / 0x10000 == q4);
    assert(q4 / 0x10000 == q3);
    assert(q3 / 0x10000 == q2);
    assert(q2 / 0x10000 == q1);
    assert(q1 / 0x10000 == q0);
    // Euclid at each level
    lemma_fundamental_div_mod(x, 0x10000);
    lemma_fundamental_div_mod(q6, 0x10000);
    lemma_fundamental_div_mod(q5, 0x10000);
    lemma_fundamental_div_mod(q4, 0x10000);
    lemma_fundamental_div_mod(q3, 0x10000);
    lemma_fundamental_div_mod(q2, 0x10000);
    lemma_fundamental_div_mod(q1, 0x10000);
    // fold the groups, most significant first
    let s0 = seq![g[0]];
    let s1 = seq![g[0], g[1]];
    let s2 = seq![g[0], g[1], g[2]];
    let s3 = seq![g[0], g[1], g[2], g[3]];
    let s4 = seq![g[0], g[1], g[2], g[3], g[4]];
    let s5 = seq![g[0], g[1], g[2], g[3], g[4], g[5]];
    let s6 = seq![g[0], g[1], g[2], g[3], g[4], g[5], g[6]];
    assert(s0.drop_last() =~= Seq::<int>::empty());
    assert(groups_val(Seq::<int>::empty()) == 0);
    assert(groups_val(s0) == g[0]);
    assert(s1.drop_last() =~= s0);
    assert(groups_val(s1) == groups_val(s0) * 0x10000 + g[1]);
    assert(s2.drop_last() =~= s1);
    assert(groups_val(s2) == groups_val(s1) * 0x10000 + g[2]);
    assert(s3.drop_last() =~= s2);
    assert(groups_val(s3) == groups_val(s2) * 0x10000 + g[3]);
    assert(s4.drop_last() =~= s3);
    assert(groups_val(s4) == groups_val(s3) * 0x10000 + g[4]);
    assert(s5.drop_last() =~= s4);
    assert(groups_val(s5) == groups_val(s4) * 0x10000 + g[5]);
    assert(s6.drop_last() =~= s5);
    assert(groups_val(s6) == groups_val(s5) * 0x10000 + g[6]);
    assert(g.drop_last() =~= s6);
    assert(groups_val(g) == groups_val(s6) * 0x10000 + g[7]);
    // each partial equals the matching quotient
    assert(groups_val(s0) == q0);
    assert(groups_val(s1) == q1) by {
        assert(q1 == 0x10000 * (q1 / 0x10000) + q1 % 0x10000);
    }
    assert(groups_val(s2) == q2) by {
        assert(q2 == 0x10000 * (q2 / 0x10000) + q2 % 0x10000);
    }
    assert(groups_val(s3) == q3) by {
        assert(q3 == 0x10000 * (q3 / 0x10000) + q3 % 0x10000);
    }
    assert(groups_val(s4) == q4) by {
        assert(q4 == 0x10000 * (q4 / 0x10000) + q4 % 0x10000);
    }
    assert(groups_val(s5) == q5) by {
        assert(q5 == 0x10000 * (q5 / 0x10000) + q5 % 0x10000);
    }
    assert(groups_val(s6) == q6) by {
        assert(q6 == 0x10000 * (q6 / 0x10000) + q6 % 0x10000);
    }
    assert(groups_val(g) == x) by {
        assert(x == 0x10000 * (x / 0x10000) + x % 0x10000);
    }
}

/// Round trip: the rendered text of any v6 address parses back to it.
#[verifier::rlimit(100)]
#[verifier::spinoff_prover]
pub proof fn lemma_parse_format_v6(a: u128)
    ensures
        parse_ipv6_spec(ipv6_text(a)) == Some(a),
{
    let g = ipv6_groups(a);
    let x = a as int;
    assert(g[0] < 0x10000) by (nonlinear_arith)
        requires
            0 <= x,
            x < 0x100000000000000000000000000000000,
            g[0] == x / 0x10000000000000000000000000000,
            0x10000000000000000000000000000 * 0x10000
                == 0x100000000000000000000000000000000,
    {}
    assert(forall|k: int| 1 <= k < 8 ==> 0 <= #[trigger] g[k] < 0x10000);
    assert(0 <= g[0]) by (nonlinear_arith)
        requires
            0 <= x,
            g[0] == x / 0x10000000000000000000000000000,
    {}
    let t0 = hex_text(g[0]);
    let t1 = hex_text(g[1]);
    let t2 = hex_text(g[2]);
    let t3 = hex_text(g[3]);
    let t4 = hex_text(g[4]);
    let t5 = hex_text(g[5]);
    let t6 = hex_text(g[6]);
    let t7 = hex_text(g[7]);
    let t = ipv6_text(a);
    assert(t == t0 + seq![':'] + t1 + seq![':'] + t2 + seq![':'] + t3 + seq![':'] + t4 + seq![':']
        + t5 + seq![':'] + t6 + seq![':'] + t7);
    assert(hp16(4) == 16 * hp16(3) && hp16(3) == 16 * hp16(2) && hp16(2) == 16 * hp16(1) && hp16(1)
        == 16 * hp16(0));
    assert(hp16(4) == 0x10000);
    lemma_hex_text_len(g[0]);
    lemma_hex_text_len(g[1]);
    lemma_hex_text_len(g[2]);
    lemma_hex_text_len(g[3]);
    lemma_hex_text_len(g[4]);
    lemma_hex_text_len(g[5]);
    lemma_hex_text_len(g[6]);
    lemma_hex_text_len(g[7]);
    lemma_hex_text_len_bound(g[0], 4);
    lemma_hex_text_len_bound(g[1], 4);
    lemma_hex_text_len_bound(g[2], 4);
    lemma_hex_text_len_bound(g[3], 4);
    lemma_hex_text_len_bound(g[4], 4);
    lemma_hex_text_len_bound(g[5], 4);
    lemma_hex_text_len_bound(g[6], 4);
    lemma_hex_text_len_bound(g[7], 4);
    lemma_hex_text_chars(g[0]);
    lemma_hex_text_chars(g[1]);
    lemma_hex_text_chars(g[2]);
    lemma_hex_text_chars(g[3]);
    lemma_hex_text_chars(g[4]);
    lemma_hex_text_chars(g[5]);
    lemma_hex_text_chars(g[6]);
    lemma_hex_text_chars(g[7]);
    let l0 = t0.len() as int;
    let l1 = t1.len() as int;
    let l2 = t2.len() as int;
    let l3 = t3.len() as int;
    let l4 = t4.len() as int;
    let l5 = t5.len() as int;
    let l6 = t6.len() as int;
    let l7 = t7.len() as int;
    let c0 = l0;
    let c1 = c0 + 1 + l1;
    let c2 = c1 + 1 + l2;
    let c3 = c2 + 1 + l3;
    let c4 = c3 + 1 + l4;
    let c5 = c4 + 1 + l5;
    let c6 = c5 + 1 + l6;
    let c7 = c6 + 1 + l7;
    assert(t.len() == c7);
    assert(t.subrange(0, c0) =~= t0);
    assert(t[c0] == ':');
    assert(t.subrange(c0 + 1, c1) =~= t1);
    assert(t[c1] == ':');
    assert(t.subrange(c1 + 1, c2) =~= t2);
    assert(t[c2] == ':');
    assert(t.subrange(c2 + 1, c3) =~= t3);
    assert(t[c3] == ':');
    assert(t.subrange(c3 + 1, c4) =~= t4);
    assert(t[c4] == ':');
    assert(t.subrange(c4 + 1, c5) =~= t5);
    assert(t[c5] == ':');
    assert(t.subrange(c5 + 1, c6) =~= t6);
    assert(t[c6] == ':');
    assert(t.subrange(c6 + 1, c7) =~= t7);
    // the character after each colon is a hex digit, so no colon pairs up
    assert(t[c0 + 1] == t1[0] && hex_val(t[c0 + 1]) >= 0) by {
        assert(t.subrange(c0 + 1, c1)[0] == t[c0 + 1]);
    }
    assert(t[c1 + 1] == t2[0] && hex_val(t[c1 + 1]) >= 0) by {
        assert(t.subrange(c1 + 1, c2)[0] == t[c1 + 1]);
    }
    assert(t[c2 + 1] == t3[0] && hex_val(t[c2 + 1]) >= 0) by {
        assert(t.subrange(c2 + 1, c3)[0] == t[c2 + 1]);
    }
    assert(t[c3 + 1] == t4[0] && hex_val(t[c3 + 1]) >= 0) by {
        assert(t.subrange(c3 + 1, c4)[0] == t[c3 + 1]);
    }
    assert(t[c4 + 1] == t5[0] && hex_val(t[c4 + 1]) >= 0) by {
        assert(t.subrange(c4 + 1, c5)[0] == t[c4 + 1]);
    }
    assert(t[c5 + 1] == t6[0] && hex_val(t[c5 + 1]) >= 0) by {
        assert(t.subrange(c5 + 1, c6)[0] == t[c5 + 1]);
    }
    assert(t[c6 + 1] == t7[0] && hex_val(t[c6 + 1]) >= 0) by {
        assert(t.subrange(c6 + 1, c7)[0] == t[c6 + 1]);
    }
    assert(hex_val(':') < 0);
    assert(t[c0 + 1] != ':' && t[c1 + 1] != ':' && t[c2 + 1] != ':' && t[c3 + 1] != ':' && t[c4
        + 1] != ':' && t[c5 + 1] != ':' && t[c6 + 1] != ':');
    // scan the eight groups, crossing one colon after each of the first seven
    let e: Seq<int> = Seq::empty();
    lemma_scan_hex(t, 0, g[0], 0, 0, e, Option::None, false);
    assert(0 * hp16(l0) + g[0] == g[0]);
    assert(scan_v6(t, 0, 0, 0, e, Option::None, false) == scan_v6(
        t, c0, g[0], l0, e, Option::None, false,
    ));
    let f1 = e.push(g[0]);
    assert(scan_v6(t, c0, g[0], l0, e, Option::None, false) == scan_v6(
        t, c0 + 1, 0, 0, f1, Option::None, true,
    ));
    lemma_scan_hex(t, c0 + 1, g[1], 0, 0, f1, Option::None, true);
    assert(0 * hp16(l1) + g[1] == g[1]);
    let f2 = f1.push(g[1]);
    assert(scan_v6(t, c1, g[1], l1, f1, Option::None, false) == scan_v6(
        t, c1 + 1, 0, 0, f2, Option::None, true,
    ));
    lemma_scan_hex(t, c1 + 1, g[2], 0, 0, f2, Option::None, true);
    assert(0 * hp16(l2) + g[2] == g[2]);
    let f3 = f2.push(g[2]);
    assert(scan_v6(t, c2, g[2], l2, f2, Option::None, false) == scan_v6(
        t, c2 + 1, 0, 0, f3, Option::None, true,
    ));
    lemma_scan_hex(t, c2 + 1, g[3], 0, 0, f3, Option::None, true);
    assert(0 * hp16(l3) + g[3] == g[3]);
    let f4 = f3.push(g[3]);
    assert(scan_v6(t, c3, g[3], l3, f3, Option::None, false) == scan_v6(
        t, c3 + 1, 0, 0, f4, Option::None, true,
    ));
    lemma_scan_hex(t, c3 + 1, g[4], 0, 0, f4, Option::None, true);
    assert(0 * hp16(l4) + g[4] == g[4]);
    let f5 = f4.push(g[4]);
    assert(scan_v6(t, c4, g[4], l4, f4, Option::None, false) == scan_v6(
        t, c4 + 1, 0, 0, f5, Option::None, true,
    ));
    lemma_scan_hex(t, c4 + 1, g[5], 0, 0, f5, Option::None, true);
    assert(0 * hp16(l5) + g[5] == g[5]);
    let f6 = f5.push(g[5]);
    assert(scan_v6(t, c5, g[5], l5, f5, Option::None, false) == scan_v6(
        t, c5 + 1, 0, 0, f6, Option::None, true,
    ));
    lemma_scan_hex(t, c5 + 1, g[6], 0, 0, f6, Option::None, true);
    assert(0 * hp16(l6) + g[6] == g[6]);
    let f7 = f6.push(g[6]);
    assert(scan_v6(t, c6, g[6], l6, f6, Option::None, false) == scan_v6(
        t, c6 + 1, 0, 0, f7, Option::None, true,
    ));
    lemma_scan_hex(t, c6 + 1, g[7], 0, 0, f7, Option::None, true);
    assert(0 * hp16(l7) + g[7] == g[7]);
    assert(f7.len() == 7);
    // the string ends with the eighth group still in the accumulator
    assert(scan_v6(t, c7, g[7], l7, f7, Option::None, false) == Some(
        v6_value(f7.push(g[7]), Seq::empty()),
    ));
    let f8 = f7.push(g[7]);
    assert(f8 =~= g);
    assert(f8 + pad_zeros(8 - f8.len() - Seq::<int>::empty().len()) + Seq::<int>::empty() =~= g);
    lemma_groups_val_ipv6(a);
    assert(v6_value(f8, Seq::empty()) == a);
}

/// Round trip: the rendered text of any v4 address parses back to it.
pub proof fn lemma_parse_format_v4(a: u32)
    ensures
        parse_ipv4_spec(ipv4_text(a)) == Some(a),
{
    let o0 = a as int / 0x1000000;
    let o1 = (a as int / 0x10000) % 256;
    let o2 = (a as int / 256) % 256;
    let o3 = a as int % 256;
    let s0 = dec_text(o0);
    let s1 = dec_text(o1);
    let s2 = dec_text(o2);
    let s3 = dec_text(o3);
    let t = ipv4_text(a);
    assert(t == s0 + seq!['.'] + s1 + seq!['.'] + s2 + seq!['.'] + s3);
    let l0 = s0.len() as int;
    let l1 = s1.len() as int;
    let l2 = s2.len() as int;
    let l3 = s3.len() as int;
    lemma_dec_text_len(o0);
    lemma_dec_text_len(o1);
    lemma_dec_text_len(o2);
    lemma_dec_text_len(o3);
    lemma_p10_pos(l0);
    lemma_p10_pos(l1);
    lemma_p10_pos(l2);
    lemma_p10_pos(l3);
    // the four octet texts sit at known positions
    assert(t.subrange(0, l0) =~= s0);
    assert(t[l0] == '.');
    assert(t.subrange(l0 + 1, l0 + 1 + l1) =~= s1);
    assert(t[l0 + 1 + l1] == '.');
    assert(t.subrange(l0 + l1 + 2, l0 + l1 + 2 + l2) =~= s2);
    assert(t[l0 + l1 + 2 + l2] == '.');
    assert(t.subrange(l0 + l1 + l2 + 3, l0 + l1 + l2 + 3 + l3) =~= s3);
    assert(t.len() == l0 + l1 + l2 + l3 + 3);
    // scan the first octet, cross the dot, and so on
    lemma_scan_dec(t, 0, o0, 0, 0, Seq::empty());
    assert(0 * p10(l0) + o0 == o0) by (nonlinear_arith) {}
    assert(scan_v4(t, 0, 0, 0, Seq::empty()) == scan_v4(t, l0, o0, l0, Seq::empty()));
    assert(dec_val('.') < 0);
    assert(scan_v4(t, l0, o0, l0, Seq::empty()) == scan_v4(
        t,
        l0 + 1,
        0,
        0,
        Seq::empty().push(o0),
    ));
    lemma_scan_dec(t, l0 + 1, o1, 0, 0, Seq::empty().push(o0));
    assert(0 * p10(l1) + o1 == o1) by (nonlinear_arith) {}
    assert(scan_v4(t, l0 + 1, 0, 0, Seq::empty().push(o0)) == scan_v4(
        t,
        l0 + 1 + l1,
        o1,
        l1,
        Seq::empty().push(o0),
    ));
    assert(scan_v4(t, l0 + 1 + l1, o1, l1, Seq::empty().push(o0)) == scan_v4(
        t,
        l0 + l1 + 2,
        0,
        0,
        Seq::empty().push(o0).push(o1),
    ));
    lemma_scan_dec(t, l0 + l1 + 2, o2, 0, 0, Seq::empty().push(o0).push(o1));
    assert(0 * p10(l2) + o2 == o2) by (nonlinear_arith) {}
    assert(scan_v4(t, l0 + l1 + 2, 0, 0, Seq::empty().push(o0).push(o1)) == scan_v4(
        t,
        l0 + l1 + 2 + l2,
        o2,
        l2,
        Seq::empty().push(o0).push(o1),
    ));
    assert(scan_v4(t, l0 + l1 + 2 + l2, o2, l2, Seq::empty().push(o0).push(o1)) == scan_v4(
        t,
        l0 + l1 + l2 + 3,
        0,
        0,
        Seq::empty().push(o0).push(o1).push(o2),
    ));
    lemma_scan_dec(t, l0 + l1 + l2 + 3, o3, 0, 0, Seq::empty().push(o0).push(o1).push(o2));
    assert(0 * p10(l3) + o3 == o3) by (nonlinear_arith) {}
    let done = Seq::empty().push(o0).push(o1).push(o2);
    assert(scan_v4(t, l0 + l1 + l2 + 3, 0, 0, done) == scan_v4(
        t,
        l0 + l1 + l2 + l3 + 3,
        o3,
        l3,
        done,
    ));
    assert(done.len() == 3);
    assert(done[0] == o0 && done[1] == o1 && done[2] == o2);
    assert(scan_v4(t, t.len() as int, o3, l3, done) == Some(v4_value(o0, o1, o2, o3)));
    assert(v4_value(o0, o1, o2, o3) == a) by {
        assert((a / 0x1000000) * 0x1000000 + ((a / 0x10000) % 256) * 0x10000 + ((a / 256) % 256)
            * 256 + a % 256 == a) by (bit_vector);
    }
}

/// What `parse_ip` accepts: the v4 grammar, else the v6 grammar.
pub open spec fn parse_ip_spec(s: Seq<char>) -> Option<IpAddress> {
    match parse_ipv4_spec(s) {
        Some(x) => Some(IpAddress::V4(x)),
        None => match parse_ipv6_spec(s) {
            Some(x) => Some(IpAddress::V6(x)),
            None => None,
        },
    }
}

/// Parses an address string of either family.
pub fn parse_ip(s: &str) -> (r: Option<IpAddress>)
    ensures
        r == parse_ip_spec(s@),
{
    match parse_ipv4(s) {
        Some(x) => Some(IpAddress::V4(x)),
        None => match parse_ipv6(s) {
            Some(x) => Some(IpAddress::V6(x)),
            None => None,
        },
    }
}

} // verus!
