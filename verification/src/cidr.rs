//! IPv4 network notation (`a.b.c.d/p`): recognising it and listing the
//! addresses of the network.

use vstd::prelude::*;
use crate::text::{
    all_digits, chars_of, decimal, decimal_string, digits_value, find_first, first_index_of,
    is_digit, lemma_decimal_roundtrip, lemma_first_index_of, lemma_first_index_of_at,
    parse_unsigned, parse_unsigned_in, views,
};
use vstd::string::StringExecFns;

verus! {

/// The pieces of `s` between occurrences of `c` (`str::split` with a char).
pub open spec fn split_on(s: Seq<char>, c: char) -> Seq<Seq<char>>
    decreases s.len(),
{
    match first_index_of(s, c) {
        Some(i) => {
            if 0 <= i < s.len() {
                seq![s.take(i)] + split_on(s.skip(i + 1), c)
            } else {
                seq![s]
            }
        },
        None => seq![s],
    }
}

/// One decimal component of a dotted-quad address, as `Ipv4Addr::from_str`
/// accepts it: one to three ASCII digits, no leading zero, at most 255.
pub open spec fn octet_ok(p: Seq<char>) -> bool {
    &&& 1 <= p.len() <= 3
    &&& all_digits(p)
    &&& (p.len() > 1 ==> p[0] != '0')
    &&& digits_value(p) <= 255
}

/// `Ipv4Addr::from_str` followed by `u32::from`: the address written as `a.b.c.d`.
pub open spec fn parse_ipv4(s: Seq<char>) -> Option<nat> {
    let parts = split_on(s, '.');
    if parts.len() == 4 && octet_ok(parts[0]) && octet_ok(parts[1]) && octet_ok(parts[2])
        && octet_ok(parts[3]) {
        Some(
            digits_value(parts[0]) * 16777216 + digits_value(parts[1]) * 65536 + digits_value(
                parts[2],
            ) * 256 + digits_value(parts[3]),
        )
    } else {
        None
    }
}

/// `2` to the power `e`.
pub open spec fn pow2(e: nat) -> nat
    decreases e,
{
    if e == 0 {
        1
    } else {
        2 * pow2((e - 1) as nat)
    }
}

/// The text before the first `/` and the text after it (`str::split_once('/')`).
pub open spec fn split_once(s: Seq<char>, c: char) -> Option<(Seq<char>, Seq<char>)> {
    match first_index_of(s, c) {
        Some(i) => Some((s.take(i), s.skip(i + 1))),
        None => None,
    }
}

/// `is_cidr`: an IPv4 address, a `/`, and a prefix length from 0 to 32.
pub open spec fn is_cidr_spec(s: Seq<char>) -> bool {
    match split_once(s, '/') {
        Some((ip, prefix)) => parse_ipv4(ip) is Some && match parse_unsigned(prefix) {
            Some(p) => p <= 32,
            None => false,
        },
        None => false,
    }
}

/// The address and prefix length written in a network notation accepted by `is_cidr_spec`.
pub open spec fn cidr_fields(s: Seq<char>) -> (nat, nat) {
    let (ip, prefix) = split_once(s, '/').unwrap();
    (parse_ipv4(ip).unwrap(), parse_unsigned(prefix).unwrap())
}

/// The number of addresses in a network with prefix length `prefix`.
pub open spec fn block_size(prefix: nat) -> nat {
    pow2((32 - prefix) as nat)
}

/// The first address of the network holding `addr` (the address with the host bits cleared).
pub open spec fn network_of(addr: nat, prefix: nat) -> nat {
    (addr / block_size(prefix)) * block_size(prefix)
}

/// `Ipv4Addr`'s `Display`: the four bytes of `a` in decimal, separated by dots.
pub open spec fn ipv4_string(a: nat) -> Seq<char> {
    decimal(a / 16777216) + seq!['.'] + decimal((a / 65536) % 256) + seq!['.'] + decimal(
        (a / 256) % 256,
    ) + seq!['.'] + decimal(a % 256)
}

/// The dotted-quad addresses from the network address to the broadcast address,
/// in increasing order.
pub open spec fn block_strings(network: nat, size: nat) -> Seq<Seq<char>> {
    Seq::new(size, |k: int| ipv4_string((network + k) as nat))
}

/// What `expand_cidr` lists for a notation accepted by `is_cidr_spec`.
pub open spec fn expand_cidr_spec(s: Seq<char>) -> Seq<Seq<char>> {
    let (addr, prefix) = cidr_fields(s);
    block_strings(network_of(addr, prefix), block_size(prefix))
}

/// `pow2(a) * pow2(b) == pow2(a + b)`.
pub proof fn lemma_pow2_add(a: nat, b: nat)
    ensures
        pow2(a) * pow2(b) == pow2(a + b),
    decreases a,
{
    if a > 0 {
        lemma_pow2_add((a - 1) as nat, b);
        assert(pow2(a + b) == 2 * pow2((a - 1) as nat + b));
        assert(pow2(a) * pow2(b) == 2 * (pow2((a - 1) as nat) * pow2(b))) by (nonlinear_arith)
            requires
                pow2(a) == 2 * pow2((a - 1) as nat),
        ;
    } else {
        assert(pow2(a) * pow2(b) == pow2(b)) by (nonlinear_arith)
            requires
                pow2(a) == 1,
        ;
    }
}

/// `pow2` is positive.
pub proof fn lemma_pow2_pos(e: nat)
    ensures
        pow2(e) >= 1,
    decreases e,
{
    if e > 0 {
        lemma_pow2_pos((e - 1) as nat);
    }
}

/// A network lies wholly below `2^32`.
pub proof fn lemma_network_in_range(addr: nat, prefix: nat)
    requires
        addr < 4294967296,
        prefix <= 32,
    ensures
        network_of(addr, prefix) + block_size(prefix) <= 4294967296,
        network_of(addr, prefix) <= addr,
        block_size(prefix) >= 1,
{
    let size = block_size(prefix);
    lemma_pow2_add((32 - prefix) as nat, prefix);
    reveal_with_fuel(pow2, 33);
    assert(pow2(32) == 4294967296);
    lemma_pow2_pos((32 - prefix) as nat);
    lemma_pow2_pos(prefix);
    let m = pow2(prefix);
    assert(size * m == 4294967296);
    let q = addr / size;
    assert(q * size <= addr) by (nonlinear_arith)
        requires
            size >= 1,
            q == addr / size,
    ;
    assert(q < m) by (nonlinear_arith)
        requires
            q * size <= addr,
            addr < size * m,
            size >= 1,
    ;
    assert(q * size + size <= 4294967296) by (nonlinear_arith)
        requires
            q < m,
            size >= 1,
            size * m == 4294967296,
    ;
}

/// A piece without `c` splits into itself.
proof fn lemma_split_on_plain(x: Seq<char>, c: char)
    requires
        forall|i: int| 0 <= i < x.len() ==> x[i] != c,
    ensures
        split_on(x, c) == seq![x],
{
    lemma_first_index_of_at(x, c, x.len() as int);
}

/// Splitting a piece without `c`, a `c`, and the rest.
proof fn lemma_split_on_cons(x: Seq<char>, y: Seq<char>, c: char)
    requires
        forall|i: int| 0 <= i < x.len() ==> x[i] != c,
    ensures
        split_on(x + seq![c] + y, c) == seq![x] + split_on(y, c),
{
    let s = x + seq![c] + y;
    assert forall|j: int| 0 <= j < x.len() implies s[j] != c by {
        assert(s[j] == x[j]);
    }
    lemma_first_index_of_at(s, c, x.len() as int);
    assert(s.take(x.len() as int) =~= x);
    assert(s.skip(x.len() as int + 1) =~= y);
}

/// The decimal notation of a number has no dot.
proof fn lemma_decimal_no_dot(n: nat)
    ensures
        forall|i: int| 0 <= i < decimal(n).len() ==> decimal(n)[i] != '.',
{
    lemma_decimal_roundtrip(n);
    assert forall|i: int| 0 <= i < decimal(n).len() implies decimal(n)[i] != '.' by {
        assert(is_digit(decimal(n)[i]));
    }
}

/// A byte's decimal notation is a valid component of a dotted quad.
proof fn lemma_octet_ok(n: nat)
    requires
        n <= 255,
    ensures
        octet_ok(decimal(n)),
        digits_value(decimal(n)) == n,
{
    lemma_decimal_roundtrip(n);
}

/// An address is the sum of its four bytes at their places.
proof fn lemma_bytes_recombine(a: nat)
    requires
        a < 4294967296,
    ensures
        a / 16777216 < 256,
        (a / 16777216) * 16777216 + ((a / 65536) % 256) * 65536 + ((a / 256) % 256) * 256 + a % 256
            == a,
{
    let q1 = a / 256;
    let q2 = q1 / 256;
    let q3 = q2 / 256;
    assert(a == q1 * 256 + a % 256);
    assert(q1 == q2 * 256 + q1 % 256);
    assert(q2 == q3 * 256 + q2 % 256);
    assert(q2 == a / 65536) by (nonlinear_arith)
        requires
            q1 == a / 256,
            q2 == q1 / 256,
    ;
    assert(q3 == a / 16777216) by (nonlinear_arith)
        requires
            q2 == a / 65536,
            q3 == q2 / 256,
    ;
}

/// Printing an address and parsing it back gives the address (`Display` and
/// `from_str` of `Ipv4Addr` are inverse).
#[verifier::rlimit(40)]
#[verifier::spinoff_prover]
pub proof fn lemma_ipv4_roundtrip(a: nat)
    requires
        a < 4294967296,
    ensures
        parse_ipv4(ipv4_string(a)) == Some(a),
{
    lemma_bytes_recombine(a);
    let b0 = a / 16777216;
    let b1 = (a / 65536) % 256;
    let b2 = (a / 256) % 256;
    let b3 = a % 256;
    let d0 = decimal(b0);
    let d1 = decimal(b1);
    let d2 = decimal(b2);
    let d3 = decimal(b3);
    lemma_octet_ok(b0);
    lemma_octet_ok(b1);
    lemma_octet_ok(b2);
    lemma_octet_ok(b3);
    lemma_decimal_no_dot(b0);
    lemma_decimal_no_dot(b1);
    lemma_decimal_no_dot(b2);
    lemma_decimal_no_dot(b3);
    let s = ipv4_string(a);
    assert(s =~= d0 + seq!['.'] + (d1 + seq!['.'] + (d2 + seq!['.'] + d3)));
    lemma_split_on_plain(d3, '.');
    lemma_split_on_cons(d2, d3, '.');
    lemma_split_on_cons(d1, d2 + seq!['.'] + d3, '.');
    lemma_split_on_cons(d0, d1 + seq!['.'] + (d2 + seq!['.'] + d3), '.');
    let parts = split_on(s, '.');
    assert(parts =~= seq![d0, d1, d2, d3]);
}

/// The addresses `expand_cidr` lists are the `2^(32 - p)` addresses of the network,
/// in order: each one parses back to the network address plus its position, and the
/// network holds the address that was written.
pub proof fn lemma_expand_cidr_addresses(s: Seq<char>)
    requires
        is_cidr_spec(s),
    ensures
        ({
            let (addr, prefix) = cidr_fields(s);
            let net = network_of(addr, prefix);
            let size = block_size(prefix);
            &&& expand_cidr_spec(s).len() == size
            &&& net <= addr < net + size
            &&& net + size <= 4294967296
            &&& forall|k: int|
                0 <= k < size ==> parse_ipv4(#[trigger] expand_cidr_spec(s)[k]) == Some(
                    (net + k) as nat,
                )
        }),
{
    let (addr, prefix) = cidr_fields(s);
    let (ip, pre) = split_once(s, '/').unwrap();
    assert(parse_ipv4(ip) is Some);
    assert(addr < 4294967296);
    lemma_network_in_range(addr, prefix);
    let net = network_of(addr, prefix);
    let size = block_size(prefix);
    assert(addr < net + size) by (nonlinear_arith)
        requires
            net == (addr / size) * size,
            size >= 1,
    ;
    assert forall|k: int| 0 <= k < size implies parse_ipv4(#[trigger] expand_cidr_spec(s)[k])
        == Some((net + k) as nat) by {
        lemma_ipv4_roundtrip((net + k) as nat);
    }
}

/// Splits `cs[from..to]` at the first `c`, as `split_once` does.
fn split_once_in(cs: &Vec<char>, from: usize, to: usize, c: char) -> (r: Option<usize>)
    requires
        from <= to <= cs@.len(),
    ensures
        match split_once(cs@.subrange(from as int, to as int), c) {
            Some((a, b)) => r matches Some(k) && from <= k < to && a == cs@.subrange(
                from as int,
                k as int,
            ) && b == cs@.subrange(k + 1, to as int),
            None => r is None,
        },
{
    let r = find_first(cs, from, to, c);
    proof {
        let sub = cs@.subrange(from as int, to as int);
        lemma_first_index_of(sub, c);
        if let Some(k) = r {
            assert(sub.take(k - from) =~= cs@.subrange(from as int, k as int));
            assert(sub.skip(k - from + 1) =~= cs@.subrange(k + 1, to as int));
        }
    }
    r
}

/// The pieces of `cs[from..to]` between dots, as positions `(start, end)` in `cs`.
fn split_dots_in(cs: &Vec<char>, from: usize, to: usize) -> (r: Vec<(usize, usize)>)
    requires
        from <= to <= cs@.len(),
    ensures
        r@.len() == split_on(cs@.subrange(from as int, to as int), '.').len(),
        forall|k: int|
            0 <= k < r@.len() ==> (#[trigger] r@[k]).0 <= r@[k].1 <= cs@.len() && cs@.subrange(
                r@[k].0 as int,
                r@[k].1 as int,
            ) == split_on(cs@.subrange(from as int, to as int), '.')[k],
{
    let ghost whole = split_on(cs@.subrange(from as int, to as int), '.');
    let mut r: Vec<(usize, usize)> = Vec::new();
    let mut cur = from;
    loop
        invariant
            from <= cur <= to <= cs@.len(),
            whole == split_on(cs@.subrange(from as int, to as int), '.'),
            r@.len() + split_on(cs@.subrange(cur as int, to as int), '.').len() == whole.len(),
            forall|k: int|
                0 <= k < r@.len() ==> (#[trigger] r@[k]).0 <= r@[k].1 <= cs@.len()
                    && cs@.subrange(r@[k].0 as int, r@[k].1 as int) == whole[k],
            forall|k: int|
                0 <= k < split_on(cs@.subrange(cur as int, to as int), '.').len() ==> whole[r@.len()
                    + k] == #[trigger] split_on(cs@.subrange(cur as int, to as int), '.')[k],
        decreases to - cur,
    {
        let ghost rest = cs@.subrange(cur as int, to as int);
        proof {
            lemma_first_index_of(rest, '.');
        }
        match find_first(cs, cur, to, '.') {
            Some(k) => {
                proof {
                    let tail = cs@.subrange(k + 1, to as int);
                    assert(rest.take(k - cur) =~= cs@.subrange(cur as int, k as int));
                    assert(rest.skip(k - cur + 1) =~= tail);
                    assert(split_on(rest, '.') == seq![rest.take(k - cur)] + split_on(tail, '.'));
                    assert(whole[r@.len() as int] == split_on(rest, '.')[0]);
                    assert forall|t: int| 0 <= t < split_on(tail, '.').len() implies whole[r@.len()
                        + 1 + t] == #[trigger] split_on(tail, '.')[t] by {
                        assert(split_on(rest, '.')[t + 1] == split_on(tail, '.')[t]);
                    }
                }
                r.push((cur, k));
                cur = k + 1;
            },
            None => {
                proof {
                    assert(split_on(rest, '.') == seq![rest]);
                    assert(whole[r@.len() as int] == split_on(rest, '.')[0]);
                }
                r.push((cur, to));
                return r;
            },
        }
    }
}

/// One component of a dotted quad: its value when `octet_ok` holds.
fn parse_octet_in(cs: &Vec<char>, from: usize, to: usize) -> (r: Option<u64>)
    requires
        from <= to <= cs@.len(),
    ensures
        match r {
            Some(v) => octet_ok(cs@.subrange(from as int, to as int)) && v == digits_value(
                cs@.subrange(from as int, to as int),
            ),
            None => !octet_ok(cs@.subrange(from as int, to as int)),
        },
{
    let ghost p = cs@.subrange(from as int, to as int);
    if to - from < 1 || to - from > 3 {
        return None;
    }
    if to - from > 1 && cs[from] == '0' {
        assert(p[0] == '0');
        return None;
    }
    if cs[from] == '+' {
        assert(!is_digit(p[0]));
        return None;
    }
    match parse_unsigned_in(cs, from, to, 255) {
        Some(v) => {
            assert(parse_unsigned(p) == Some(digits_value(p)));
            Some(v)
        },
        None => None,
    }
}

/// `Ipv4Addr::from_str` on `cs[from..to]`, giving the address as a number.
pub fn parse_ipv4_in(cs: &Vec<char>, from: usize, to: usize) -> (r: Option<u32>)
    requires
        from <= to <= cs@.len(),
    ensures
        match parse_ipv4(cs@.subrange(from as int, to as int)) {
            Some(a) => r == Some(a as u32) && a < 4294967296,
            None => r is None,
        },
{
    let parts = split_dots_in(cs, from, to);
    let ghost sp = split_on(cs@.subrange(from as int, to as int), '.');
    if parts.len() != 4 {
        return None;
    }
    let (s0, e0) = parts[0];
    let (s1, e1) = parts[1];
    let (s2, e2) = parts[2];
    let (s3, e3) = parts[3];
    proof {
        assert(parts@[0].0 == s0 && parts@[1].0 == s1 && parts@[2].0 == s2 && parts@[3].0 == s3);
    }
    let a = match parse_octet_in(cs, s0, e0) {
        Some(v) => v,
        None => return None,
    };
    let b = match parse_octet_in(cs, s1, e1) {
        Some(v) => v,
        None => return None,
    };
    let c = match parse_octet_in(cs, s2, e2) {
        Some(v) => v,
        None => return None,
    };
    let d = match parse_octet_in(cs, s3, e3) {
        Some(v) => v,
        None => return None,
    };
    Some((a * 16777216 + b * 65536 + c * 256 + d) as u32)
}

/// `is_cidr`: `s` is an IPv4 address, a `/` and a prefix length from 0 to 32.
pub fn is_cidr(s: &str) -> (r: bool)
    ensures
        r == is_cidr_spec(s@),
{
    let cs = chars_of(s);
    match split_once_in(&cs, 0, cs.len(), '/') {
        Some(k) => {
            proof {
                assert(cs@.subrange(0, cs@.len() as int) =~= s@);
            }
            let ip_ok = parse_ipv4_in(&cs, 0, k).is_some();
            let prefix_ok = match parse_unsigned_in(&cs, k + 1, cs.len(), 255) {
                Some(p) => p <= 32,
                None => false,
            };
            ip_ok && prefix_ok
        },
        None => {
            proof {
                assert(cs@.subrange(0, cs@.len() as int) =~= s@);
            }
            false
        },
    }
}

/// `Ipv4Addr`'s `Display` of the address `a`.
pub fn ipv4_to_string(a: u32) -> (r: String)
    ensures
        r@ == ipv4_string(a as nat),
{
    let mut r = decimal_string((a / 16777216) as u64);
    r.append(".");
    let b = decimal_string(((a / 65536) % 256) as u64);
    r.append(b.as_str());
    r.append(".");
    let c = decimal_string(((a / 256) % 256) as u64);
    r.append(c.as_str());
    r.append(".");
    let d = decimal_string((a % 256) as u64);
    r.append(d.as_str());
    proof {
        reveal_strlit(".");
    }
    r
}

/// The addresses of a network of `size` addresses starting at `network`, as strings.
pub fn block_addresses(network: u64, size: u64) -> (r: Vec<String>)
    requires
        network + size <= 4294967296,
    ensures
        views(r@) == block_strings(network as nat, size as nat),
{
    let mut r: Vec<String> = Vec::new();
    let mut k: u64 = 0;
    while k < size
        invariant
            network + size <= 4294967296,
            k <= size,
            r@.len() == k,
            views(r@) == block_strings(network as nat, k as nat),
        decreases size - k,
    {
        let s = ipv4_to_string((network + k) as u32);
        let ghost before = views(r@);
        assert(s@ == ipv4_string((network + k) as nat));
        r.push(s);
        proof {
            let want = block_strings(network as nat, (k + 1) as nat);
            assert forall|j: int| 0 <= j < k + 1 implies views(r@)[j] == want[j] by {
                if j < k {
                    assert(before[j] == block_strings(network as nat, k as nat)[j]);
                }
            }
            assert(views(r@) =~= want);
        }
        k = k + 1;
    }
    r
}

/// `pow2(e)` for `e <= 32`.
fn pow2_exec(e: u64) -> (r: u64)
    requires
        e <= 32,
    ensures
        r == pow2(e as nat),
        r <= 4294967296,
{
    let mut r: u64 = 1;
    let mut i: u64 = 0;
    proof {
        reveal_with_fuel(pow2, 33);
        assert(pow2(32) == 4294967296);
    }
    while i < e
        invariant
            i <= e <= 32,
            r == pow2(i as nat),
            pow2(32) == 4294967296,
        decreases e - i,
    {
        proof {
            lemma_pow2_add((i + 1) as nat, (32 - i - 1) as nat);
            lemma_pow2_pos((32 - i - 1) as nat);
            assert(pow2((i + 1) as nat) <= 4294967296) by (nonlinear_arith)
                requires
                    pow2((i + 1) as nat) * pow2((32 - i - 1) as nat) == 4294967296,
                    pow2((32 - i - 1) as nat) >= 1,
            ;
        }
        r = r * 2;
        i = i + 1;
    }
    proof {
        lemma_pow2_add(e as nat, (32 - e) as nat);
        lemma_pow2_pos((32 - e) as nat);
        assert(r <= 4294967296) by (nonlinear_arith)
            requires
                r * pow2((32 - e) as nat) == 4294967296,
                pow2((32 - e) as nat) >= 1,
        ;
    }
    r
}

/// The addresses of the network with address `addr` and prefix length `prefix`, from
/// the network address to the broadcast address.
pub fn network_addresses(addr: u32, prefix: u64) -> (r: Vec<String>)
    requires
        prefix <= 32,
    ensures
        views(r@) == block_strings(network_of(addr as nat, prefix as nat), block_size(prefix as nat)),
{
    let size = pow2_exec(32 - prefix);
    proof {
        lemma_network_in_range(addr as nat, prefix as nat);
    }
    let network = (addr as u64 / size) * size;
    block_addresses(network, size)
}

/// `expand_cidr`: every address of the network written in `cidr`, from the network
/// address to the broadcast address, in dotted-quad notation.
pub fn expand_cidr(cidr: &str) -> (r: Vec<String>)
    requires
        is_cidr_spec(cidr@),
    ensures
        views(r@) == expand_cidr_spec(cidr@),
{
    let cs = chars_of(cidr);
    proof {
        assert(cs@.subrange(0, cs@.len() as int) =~= cidr@);
    }
    let k = split_once_in(&cs, 0, cs.len(), '/').unwrap();
    let addr = parse_ipv4_in(&cs, 0, k).unwrap();
    let prefix = parse_unsigned_in(&cs, k + 1, cs.len(), 4294967295).unwrap();
    network_addresses(addr, prefix)
}

} // verus!
