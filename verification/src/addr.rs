//! Candidate endpoints and the address grammar of input records.
//!
//! An input record carries an address field that is either an address
//! (`"203.0.113.5"`, `"2001:db8::1"`) or an address with a port
//! (`"203.0.113.9:8080"`, `"[2001:db8::1]:443"`).  A bare address
//! takes the configured default port.  Anything else denotes nothing:
//! such a record is skipped, by design, without an error.
//!
//! The dotted-quad forms are this module's own verified grammar.  The
//! IPv6 textual forms are read by the caller's lexer, which hands the
//! library their plain values; the decision of what becomes a
//! candidate — which form wins, which port applies, what is skipped —
//! is made here, in [`record_endpoint`].

use vstd::prelude::*;

use crate::text::{
    all_digits, dec_str, dec_string, dec_val, hex_str, hex_string, is_digit,
    lemma_dec_str_canonical, lemma_dec_str_len, lemma_dec_val_nonneg, lemma_split_on_prefix,
    lemma_split_on_whole, parse_digits, pow10, split_on, split_str,
};

verus! {

/// A network address of either family, held as its numeric value.
#[derive(Clone, Copy, Debug, PartialEq, Eq, Structural)]
pub enum IpAddress {
    V4(u32),
    V6(u128),
}

/// A candidate endpoint: an address and a port.
#[derive(Clone, Copy, Debug, PartialEq, Eq, Structural)]
pub struct Endpoint {
    pub ip: IpAddress,
    pub port: u16,
}

/// One octet of a dotted quad: one to three digits, no leading zero,
/// value at most 255.
pub open spec fn is_octet_text(s: Seq<char>) -> bool {
    &&& 1 <= s.len() <= 3
    &&& all_digits(s)
    &&& (s.len() > 1 ==> s[0] != '0')
    &&& dec_val(s) <= 255
}

/// A port field: digits whose value fits a 16-bit port.  Leading
/// zeros are allowed, and any number of them.
pub open spec fn is_port_text(s: Seq<char>) -> bool {
    &&& 1 <= s.len()
    &&& all_digits(s)
    &&& dec_val(s) <= 65535
}

/// The 32-bit value of the address whose octets are `a.b.c.d`.
pub open spec fn octets_value(a: int, b: int, c: int, d: int) -> u32 {
    (a * 0x1000000 + b * 0x10000 + c * 0x100 + d) as u32
}

/// The address denoted by a dotted quad, or nothing when `s` is not
/// one: four octets separated by dots.
pub open spec fn spec_parse_ipv4(s: Seq<char>) -> Option<u32> {
    let parts = split_on(s, '.');
    if parts.len() == 4 && is_octet_text(parts[0]) && is_octet_text(parts[1]) && is_octet_text(
        parts[2],
    ) && is_octet_text(parts[3]) {
        Some(octets_value(dec_val(parts[0]), dec_val(parts[1]), dec_val(parts[2]), dec_val(parts[3])))
    } else {
        None
    }
}

/// The endpoint denoted by an input record's address field: a dotted
/// quad takes `default_port`; a dotted quad, a colon and a port field
/// take that port; anything else denotes nothing.
pub open spec fn spec_parse_record(s: Seq<char>, default_port: u16) -> Option<Endpoint> {
    let parts = split_on(s, ':');
    if parts.len() == 1 {
        match spec_parse_ipv4(s) {
            Some(ip) => Some(Endpoint { ip: IpAddress::V4(ip), port: default_port }),
            None => None,
        }
    } else if parts.len() == 2 && is_port_text(parts[1]) {
        match spec_parse_ipv4(parts[0]) {
            Some(ip) => Some(Endpoint { ip: IpAddress::V4(ip), port: dec_val(parts[1]) as u16 }),
            None => None,
        }
    } else {
        None
    }
}

/// One input record as it reaches the library: the address field's
/// text, and — where that text is one of the IPv6 forms, which only
/// the caller's lexer reads — the plain values it denotes:
/// `v6_with_port` for `"[address]:port"`, `v6_bare` for a bare
/// address.  A record whose text is a dotted-quad form carries `None`
/// in both.
pub struct InputRecord {
    pub text: String,
    pub v6_with_port: Option<(u128, u16)>,
    pub v6_bare: Option<u128>,
}

/// The candidate one record denotes.  The library's own dotted-quad
/// grammar decides first; failing that, an IPv6 address with its own
/// port; then a bare IPv6 address with the default port; otherwise
/// the record denotes nothing and is skipped.
pub open spec fn spec_record_endpoint(r: InputRecord, default_port: u16) -> Option<Endpoint> {
    match spec_parse_record(r.text@, default_port) {
        Some(e) => Some(e),
        None => match r.v6_with_port {
            Some(ap) => Some(Endpoint { ip: IpAddress::V6(ap.0), port: ap.1 }),
            None => match r.v6_bare {
                Some(a) => Some(Endpoint { ip: IpAddress::V6(a), port: default_port }),
                None => None,
            },
        },
    }
}

/// Decides what one record becomes: see [`spec_record_endpoint`].
pub fn record_endpoint(r: &InputRecord, default_port: u16) -> (e: Option<Endpoint>)
    ensures
        e == spec_record_endpoint(*r, default_port),
{
    match parse_record(r.text.as_str(), default_port) {
        Some(e) => Some(e),
        None => match r.v6_with_port {
            Some((a, p)) => Some(Endpoint { ip: IpAddress::V6(a), port: p }),
            None => match r.v6_bare {
                Some(a) => Some(Endpoint { ip: IpAddress::V6(a), port: default_port }),
                None => None,
            },
        },
    }
}

/// The candidates a record list denotes, in file order: each record's
/// endpoint, with records that denote nothing skipped silently.
pub open spec fn candidates_of(records: Seq<InputRecord>, default_port: u16) -> Seq<Endpoint> {
    records.filter_map(|r: InputRecord| spec_record_endpoint(r, default_port))
}

/// Parses a record list into candidate endpoints, in file order.
/// A record that denotes nothing contributes no candidate and no
/// error: the list is best-effort input.
pub fn parse_records(records: &Vec<InputRecord>, default_port: u16) -> (out: Vec<Endpoint>)
    ensures
        out@ == candidates_of(records@, default_port),
{
    let ghost all = records@;
    let mut out: Vec<Endpoint> = Vec::new();
    let mut k: usize = 0;
    proof {
        assert(all.subrange(0, 0) =~= Seq::<InputRecord>::empty());
    }
    while k < records.len()
        invariant
            k <= all.len(),
            all == records@,
            out@ == candidates_of(all.subrange(0, k as int), default_port),
        decreases all.len() - k,
    {
        proof {
            assert(all.subrange(0, k + 1).drop_last() =~= all.subrange(0, k as int));
            assert(all.subrange(0, k + 1).last() == all[k as int]);
        }
        match record_endpoint(&records[k], default_port) {
            Some(e) => {
                out.push(e);
                proof {
                    assert(out@ =~= candidates_of(all.subrange(0, k + 1), default_port));
                }
            },
            None => {
                proof {
                    assert(out@ =~= candidates_of(all.subrange(0, k + 1), default_port));
                }
            },
        }
        k = k + 1;
    }
    proof {
        assert(all.subrange(0, all.len() as int) =~= all);
    }
    out
}

/// The octets of the 32-bit address `ip`, highest first.
pub open spec fn octet1(ip: u32) -> int {
    ip as int / 0x1000000
}

pub open spec fn octet2(ip: u32) -> int {
    (ip as int / 0x10000) % 256
}

pub open spec fn octet3(ip: u32) -> int {
    (ip as int / 0x100) % 256
}

pub open spec fn octet4(ip: u32) -> int {
    ip as int % 256
}

/// The dotted quad of `ip`: the four octets as canonical decimal
/// numerals, separated by dots.
pub open spec fn ipv4_str(ip: u32) -> Seq<char> {
    dec_str(octet1(ip)) + seq!['.'] + dec_str(octet2(ip)) + seq!['.'] + dec_str(octet3(ip))
        + seq!['.'] + dec_str(octet4(ip))
}

/// The `k`-th 16-bit group of the IPv6 address `ip`, highest first.
pub open spec fn v6_group(ip: u128, k: int) -> int {
    if k == 0 {
        ip as int / 0x10000000000000000000000000000
    } else if k == 1 {
        (ip as int / 0x1000000000000000000000000) % 0x10000
    } else if k == 2 {
        (ip as int / 0x100000000000000000000) % 0x10000
    } else if k == 3 {
        (ip as int / 0x10000000000000000) % 0x10000
    } else if k == 4 {
        (ip as int / 0x1000000000000) % 0x10000
    } else if k == 5 {
        (ip as int / 0x100000000) % 0x10000
    } else if k == 6 {
        (ip as int / 0x10000) % 0x10000
    } else {
        ip as int % 0x10000
    }
}

/// The full textual form of the IPv6 address `ip`: eight hexadecimal
/// groups separated by colons, lower case, no leading zeros within a
/// group, and no zero compression — the loopback address is rendered
/// `0:0:0:0:0:0:0:1`.
pub open spec fn ipv6_str(ip: u128) -> Seq<char> {
    hex_str(v6_group(ip, 0)) + seq![':'] + hex_str(v6_group(ip, 1)) + seq![':'] + hex_str(
        v6_group(ip, 2),
    ) + seq![':'] + hex_str(v6_group(ip, 3)) + seq![':'] + hex_str(v6_group(ip, 4)) + seq![':']
        + hex_str(v6_group(ip, 5)) + seq![':'] + hex_str(v6_group(ip, 6)) + seq![':'] + hex_str(
        v6_group(ip, 7),
    )
}

/// The textual form of an address of either family.
pub open spec fn ip_str(ip: IpAddress) -> Seq<char> {
    match ip {
        IpAddress::V4(a) => ipv4_str(a),
        IpAddress::V6(a) => ipv6_str(a),
    }
}

/// `"IP:port"`; an IPv6 address stands in brackets, `"[IP]:port"`.
pub open spec fn endpoint_str(e: Endpoint) -> Seq<char> {
    match e.ip {
        IpAddress::V4(a) => ipv4_str(a) + seq![':'] + dec_str(e.port as int),
        IpAddress::V6(a) => seq!['['] + ipv6_str(a) + seq![']'] + seq![':'] + dec_str(
            e.port as int,
        ),
    }
}

/// The URL that routes traffic through `e` as an HTTP forward proxy.
pub open spec fn proxy_url_str(e: Endpoint) -> Seq<char> {
    "http://"@ + endpoint_str(e)
}

proof fn lemma_octet_text_of(n: int)
    requires
        0 <= n <= 255,
    ensures
        is_octet_text(dec_str(n)),
        dec_val(dec_str(n)) == n,
        forall|i: int| 0 <= i < dec_str(n).len() ==> dec_str(n)[i] != '.',
{
    lemma_dec_str_canonical(n);
    assert(pow10(3) == 1000) by {
        reveal_with_fuel(pow10, 4);
    }
    lemma_dec_str_len(n, 3);
    assert forall|i: int| 0 <= i < dec_str(n).len() implies dec_str(n)[i] != '.' by {
        assert(is_digit(dec_str(n)[i]));
    }
}

/// Rendering and the grammar agree: the dotted quad of an address
/// parses back to exactly that address.
pub proof fn lemma_ipv4_round_trip(ip: u32)
    ensures
        spec_parse_ipv4(ipv4_str(ip)) == Some(ip),
{
    let o1 = octet1(ip);
    let o2 = octet2(ip);
    let o3 = octet3(ip);
    let o4 = octet4(ip);
    vstd::arithmetic::div_mod::lemma_fundamental_div_mod(ip as int, 0x1000000);
    assert(o1 <= 255) by {
        if o1 >= 256 {
            vstd::arithmetic::mul::lemma_mul_inequality(256, o1, 0x1000000);
        }
    }
    vstd::arithmetic::div_mod::lemma_mod_breakdown(ip as int, 0x10000, 0x100);
    vstd::arithmetic::div_mod::lemma_mod_breakdown(ip as int, 0x100, 0x100);
    assert(ip as int == o1 * 0x1000000 + o2 * 0x10000 + o3 * 0x100 + o4);
    lemma_octet_text_of(o1);
    lemma_octet_text_of(o2);
    lemma_octet_text_of(o3);
    lemma_octet_text_of(o4);
    let d1 = dec_str(o1);
    let d2 = dec_str(o2);
    let d3 = dec_str(o3);
    let d4 = dec_str(o4);
    let s = ipv4_str(ip);
    let r2 = d2 + seq!['.'] + d3 + seq!['.'] + d4;
    let r3 = d3 + seq!['.'] + d4;
    assert(s =~= d1 + seq!['.'] + r2);
    assert(r2 =~= d2 + seq!['.'] + r3);
    lemma_split_on_prefix(d1, r2, '.');
    lemma_split_on_prefix(d2, r3, '.');
    lemma_split_on_prefix(d3, d4, '.');
    lemma_split_on_whole(d4, '.');
    let parts = split_on(s, '.');
    assert(split_on(s, '.') == seq![d1] + split_on(r2, '.'));
    assert(split_on(r2, '.') == seq![d2] + split_on(r3, '.'));
    assert(split_on(r3, '.') == seq![d3] + split_on(d4, '.'));
    assert(split_on(d4, '.') == seq![d4]);
    assert(parts =~= seq![d1] + (seq![d2] + (seq![d3] + seq![d4])));
    assert(parts =~= seq![d1, d2, d3, d4]);
    assert(parts[0] == d1 && parts[1] == d2 && parts[2] == d3 && parts[3] == d4);
    assert(octets_value(o1, o2, o3, o4) == ip);
}

/// Renders an IPv4 address as a dotted quad.
pub fn ipv4_string(ip: u32) -> (r: String)
    ensures
        r@ == ipv4_str(ip),
{
    let o1: u32 = ip / 0x1000000;
    let o2: u32 = (ip / 0x10000) % 256;
    let o3: u32 = (ip / 0x100) % 256;
    let o4: u32 = ip % 256;
    let mut r = dec_string(o1 as u128);
    let dot = ".";
    proof {
        reveal_strlit(".");
        assert(dot@ =~= seq!['.']);
    }
    r.append(dot);
    let p2 = dec_string(o2 as u128);
    r.append(p2.as_str());
    r.append(dot);
    let p3 = dec_string(o3 as u128);
    r.append(p3.as_str());
    r.append(dot);
    let p4 = dec_string(o4 as u128);
    r.append(p4.as_str());
    r
}

proof fn lemma_v6_group_bounds(ip: u128)
    ensures
        forall|k: int| 0 <= #[trigger] v6_group(ip, k) < 0x10000,
{
    assert forall|k: int| 0 <= #[trigger] v6_group(ip, k) < 0x10000 by {
        let q = ip as int / 0x10000000000000000000000000000;
        vstd::arithmetic::div_mod::lemma_fundamental_div_mod(
            ip as int,
            0x10000000000000000000000000000,
        );
        if q >= 0x10000 {
            vstd::arithmetic::mul::lemma_mul_inequality(
                0x10000,
                q,
                0x10000000000000000000000000000,
            );
        }
    }
}

/// Renders an IPv6 address in its full textual form.
pub fn ipv6_string(ip: u128) -> (r: String)
    ensures
        r@ == ipv6_str(ip),
{
    proof {
        lemma_v6_group_bounds(ip);
    }
    let colon = ":";
    proof {
        reveal_strlit(":");
        assert(colon@ =~= seq![':']);
    }
    let mut r = hex_string((ip / 0x10000000000000000000000000000) as u16);
    r.append(colon);
    let g1 = hex_string(((ip / 0x1000000000000000000000000) % 0x10000) as u16);
    r.append(g1.as_str());
    r.append(colon);
    let g2 = hex_string(((ip / 0x100000000000000000000) % 0x10000) as u16);
    r.append(g2.as_str());
    r.append(colon);
    let g3 = hex_string(((ip / 0x10000000000000000) % 0x10000) as u16);
    r.append(g3.as_str());
    r.append(colon);
    let g4 = hex_string(((ip / 0x1000000000000) % 0x10000) as u16);
    r.append(g4.as_str());
    r.append(colon);
    let g5 = hex_string(((ip / 0x100000000) % 0x10000) as u16);
    r.append(g5.as_str());
    r.append(colon);
    let g6 = hex_string(((ip / 0x10000) % 0x10000) as u16);
    r.append(g6.as_str());
    r.append(colon);
    let g7 = hex_string((ip % 0x10000) as u16);
    r.append(g7.as_str());
    r
}

/// Renders an address of either family.
pub fn ip_string(ip: IpAddress) -> (r: String)
    ensures
        r@ == ip_str(ip),
{
    match ip {
        IpAddress::V4(a) => ipv4_string(a),
        IpAddress::V6(a) => ipv6_string(a),
    }
}

/// Renders `e` as `"IP:port"`, with brackets around an IPv6 address.
pub fn endpoint_string(e: Endpoint) -> (r: String)
    ensures
        r@ == endpoint_str(e),
{
    let colon = ":";
    proof {
        reveal_strlit(":");
        assert(colon@ =~= seq![':']);
    }
    match e.ip {
        IpAddress::V4(a) => {
            let mut r = ipv4_string(a);
            r.append(colon);
            let p = dec_string(e.port as u128);
            r.append(p.as_str());
            r
        },
        IpAddress::V6(a) => {
            let open_bracket = "[";
            let close_bracket = "]";
            proof {
                reveal_strlit("[");
                reveal_strlit("]");
                assert(open_bracket@ =~= seq!['[']);
                assert(close_bracket@ =~= seq![']']);
            }
            let mut r = String::from_str(open_bracket);
            let a_text = ipv6_string(a);
            r.append(a_text.as_str());
            r.append(close_bracket);
            r.append(colon);
            let p = dec_string(e.port as u128);
            r.append(p.as_str());
            r
        },
    }
}

/// Renders the proxy URL of `e`.
pub fn proxy_url(e: Endpoint) -> (r: String)
    ensures
        r@ == proxy_url_str(e),
{
    let mut r = String::from_str("http://");
    let rest = endpoint_string(e);
    r.append(rest.as_str());
    r
}

/// Parses one octet field.
fn parse_octet(s: &str) -> (r: Option<u8>)
    ensures
        r is Some <==> is_octet_text(s@),
        r matches Some(v) ==> v == dec_val(s@),
{
    let n = s.unicode_len();
    proof {
        assert(s@.subrange(0, n as int) =~= s@);
    }
    let v = match parse_digits(s, 0, n, 3) {
        Some(v) => v,
        None => {
            return None;
        },
    };
    if n > 1 && s.get_char(0) == '0' {
        return None;
    }
    if v > 255 {
        return None;
    }
    Some(v as u8)
}

/// Parses a port field.  The value accumulates with saturation, so a
/// long run of leading zeros is read and an oversized value is
/// rejected without overflow.
fn parse_port(s: &str) -> (r: Option<u16>)
    ensures
        r is Some <==> is_port_text(s@),
        r matches Some(v) ==> v == dec_val(s@),
{
    let n = s.unicode_len();
    if n == 0 {
        return None;
    }
    let mut val: u32 = 0;
    let mut k: usize = 0;
    while k < n
        invariant
            0 <= k <= n,
            n == s@.len(),
            all_digits(s@.subrange(0, k as int)),
            dec_val(s@.subrange(0, k as int)) <= 65535 ==> val == dec_val(
                s@.subrange(0, k as int),
            ),
            dec_val(s@.subrange(0, k as int)) > 65535 ==> val == 66000,
            val <= 66000,
        decreases n - k,
    {
        let ghost pref = s@.subrange(0, k as int);
        let c = s.get_char(k);
        if c < '0' || c > '9' {
            assert(!is_digit(s@[k as int]));
            return None;
        }
        proof {
            assert(s@.subrange(0, k + 1 as int).drop_last() =~= pref);
            assert(s@.subrange(0, k + 1 as int).last() == s@[k as int]);
            assert(all_digits(s@.subrange(0, k + 1 as int)));
            lemma_dec_val_nonneg(pref);
        }
        let d = c as u32 - 48;
        if val > 6553 || (val == 6553 && d > 5) {
            val = 66000;
        } else {
            val = val * 10 + d;
        }
        k = k + 1;
    }
    proof {
        assert(s@.subrange(0, n as int) =~= s@);
    }
    if val > 65535 {
        return None;
    }
    Some(val as u16)
}

/// Parses a dotted quad.
pub fn parse_ipv4(s: &str) -> (r: Option<u32>)
    ensures
        r == spec_parse_ipv4(s@),
{
    let parts = split_str(s, '.');
    if parts.len() != 4 {
        return None;
    }
    let a = match parse_octet(parts[0].as_str()) {
        Some(v) => v,
        None => {
            return None;
        },
    };
    let b = match parse_octet(parts[1].as_str()) {
        Some(v) => v,
        None => {
            return None;
        },
    };
    let c = match parse_octet(parts[2].as_str()) {
        Some(v) => v,
        None => {
            return None;
        },
    };
    let d = match parse_octet(parts[3].as_str()) {
        Some(v) => v,
        None => {
            return None;
        },
    };
    let ip: u32 = (a as u32) * 0x1000000 + (b as u32) * 0x10000 + (c as u32) * 0x100 + (d as u32);
    Some(ip)
}

/// Parses one input record's address field, `"IP"` or `"IP:port"`.
pub fn parse_record(s: &str, default_port: u16) -> (r: Option<Endpoint>)
    ensures
        r == spec_parse_record(s@, default_port),
{
    let parts = split_str(s, ':');
    if parts.len() == 1 {
        match parse_ipv4(s) {
            Some(ip) => Some(Endpoint { ip: IpAddress::V4(ip), port: default_port }),
            None => None,
        }
    } else if parts.len() == 2 {
        let port = match parse_port(parts[1].as_str()) {
            Some(p) => p,
            None => {
                return None;
            },
        };
        match parse_ipv4(parts[0].as_str()) {
            Some(ip) => Some(Endpoint { ip: IpAddress::V4(ip), port }),
            None => None,
        }
    } else {
        None
    }
}

} // verus!
