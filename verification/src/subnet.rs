//! Range mode: a subnet in CIDR notation, and its usable hosts.
//!
//! `"198.51.100.0/30"` denotes a block of four addresses; its usable
//! hosts are the block without its network and broadcast addresses.
//! A /31 or /32 has no such reserved pair, so every address of the
//! block is a host.  An IPv6 block reserves nothing: every address of
//! it is a host.  Each host is probed, at the configured port, for an
//! open TCP port; the probing itself happens outside the library, as
//! does the reading of IPv6 subnet text, which hands the enumeration
//! its plain address and prefix.
//!
//! The quad of a subnet notation is read more leniently than an input
//! record's: an octet may carry leading zeros (`"198.051.100.0/30"`).

use vstd::prelude::*;

use crate::addr::octets_value;
use crate::text::{all_digits, dec_val, parse_digits, split_on, split_str};

verus! {

/// Two raised to `n`.
pub open spec fn two_pow(n: nat) -> int
    decreases n,
{
    if n == 0 {
        1
    } else {
        2 * two_pow((n - 1) as nat)
    }
}

proof fn lemma_two_pow_increases(a: nat, b: nat)
    requires
        a <= b,
    ensures
        1 <= two_pow(a) <= two_pow(b),
    decreases b,
{
    if a < b {
        lemma_two_pow_increases(a, (b - 1) as nat);
    } else if a > 0 {
        lemma_two_pow_increases((a - 1) as nat, (b - 1) as nat);
    }
}

/// A prefix-length field: one or two digits, value at most 32.
pub open spec fn is_prefix_text(s: Seq<char>) -> bool {
    &&& 1 <= s.len() <= 2
    &&& all_digits(s)
    &&& dec_val(s) <= 32
}

/// One octet as the subnet notation reads it: one to three digits,
/// leading zeros allowed, value at most 255.
pub open spec fn is_lenient_octet_text(s: Seq<char>) -> bool {
    &&& 1 <= s.len() <= 3
    &&& all_digits(s)
    &&& dec_val(s) <= 255
}

/// The address denoted by a subnet notation's dotted quad.
pub open spec fn spec_parse_quad(s: Seq<char>) -> Option<u32> {
    let parts = split_on(s, '.');
    if parts.len() == 4 && is_lenient_octet_text(parts[0]) && is_lenient_octet_text(parts[1])
        && is_lenient_octet_text(parts[2]) && is_lenient_octet_text(parts[3]) {
        Some(
            octets_value(dec_val(parts[0]), dec_val(parts[1]), dec_val(parts[2]), dec_val(parts[3])),
        )
    } else {
        None
    }
}

/// The subnet denoted in CIDR notation — a dotted quad, a slash and a
/// prefix length — as its address and prefix, or nothing when `s` is
/// not such a notation.
pub open spec fn spec_parse_cidr(s: Seq<char>) -> Option<(u32, u32)> {
    let parts = split_on(s, '/');
    if parts.len() == 2 && is_prefix_text(parts[1]) {
        match spec_parse_quad(parts[0]) {
            Some(ip) => Some((ip, dec_val(parts[1]) as u32)),
            None => None,
        }
    } else {
        None
    }
}

fn parse_lenient_octet(s: &str) -> (r: Option<u8>)
    ensures
        r is Some <==> is_lenient_octet_text(s@),
        r matches Some(v) ==> v == dec_val(s@),
{
    let n = s.unicode_len();
    proof {
        assert(s@.subrange(0, n as int) =~= s@);
    }
    let v = match parse_digits(s, 0, n, 3) {
        Some(v) => v,
        None => {
            return None;
        },
    };
    if v > 255 {
        return None;
    }
    Some(v as u8)
}

/// Parses a subnet notation's dotted quad.
fn parse_quad(s: &str) -> (r: Option<u32>)
    ensures
        r == spec_parse_quad(s@),
{
    let parts = split_str(s, '.');
    if parts.len() != 4 {
        return None;
    }
    let a = match parse_lenient_octet(parts[0].as_str()) {
        Some(v) => v,
        None => {
            return None;
        },
    };
    let b = match parse_lenient_octet(parts[1].as_str()) {
        Some(v) => v,
        None => {
            return None;
        },
    };
    let c = match parse_lenient_octet(parts[2].as_str()) {
        Some(v) => v,
        None => {
            return None;
        },
    };
    let d = match parse_lenient_octet(parts[3].as_str()) {
        Some(v) => v,
        None => {
            return None;
        },
    };
    let ip: u32 = (a as u32) * 0x1000000 + (b as u32) * 0x10000 + (c as u32) * 0x100 + (d as u32);
    Some(ip)
}

/// The size of a prefix's address block: 2^(32-p).
pub open spec fn block_size(p: u32) -> int {
    two_pow((32 - p) as nat)
}

/// The first address of the block `ip` lies in: `ip` with its host
/// bits cleared.
pub open spec fn network_addr(ip: u32, p: u32) -> int {
    ip - (ip as int % block_size(p))
}

/// How many usable hosts the subnet has: the whole block for a /31 or
/// /32, the block without its network and broadcast addresses
/// otherwise.
pub open spec fn host_count(p: u32) -> int {
    if p >= 31 {
        block_size(p)
    } else {
        block_size(p) - 2
    }
}

/// The first usable host of the block.
pub open spec fn first_host(ip: u32, p: u32) -> int {
    if p >= 31 {
        network_addr(ip, p)
    } else {
        network_addr(ip, p) + 1
    }
}

/// The usable hosts of the subnet, in ascending address order.
pub open spec fn spec_hosts(ip: u32, p: u32) -> Seq<u32> {
    Seq::new(host_count(p) as nat, |i: int| (first_host(ip, p) + i) as u32)
}

proof fn lemma_two_pow_values()
    ensures
        two_pow(2) == 4,
        two_pow(31) == 0x80000000,
        two_pow(32) == 0x100000000,
{
    reveal_with_fuel(two_pow, 33);
}

fn two_pow_exec(n: u32) -> (r: u64)
    requires
        n <= 32,
    ensures
        r == two_pow(n as nat),
        r >= 1,
{
    let mut r: u64 = 1;
    let mut i: u32 = 0;
    while i < n
        invariant
            i <= n <= 32,
            r == two_pow(i as nat),
            r >= 1,
        decreases n - i,
    {
        proof {
            lemma_two_pow_values();
            lemma_two_pow_increases(i as nat, 31);
        }
        r = r * 2;
        i = i + 1;
    }
    r
}

fn parse_prefix(s: &str) -> (r: Option<u32>)
    ensures
        r is Some <==> is_prefix_text(s@),
        r matches Some(v) ==> v == dec_val(s@),
{
    let n = s.unicode_len();
    proof {
        assert(s@.subrange(0, n as int) =~= s@);
    }
    let v = match parse_digits(s, 0, n, 2) {
        Some(v) => v,
        None => {
            return None;
        },
    };
    if v > 32 {
        return None;
    }
    Some(v)
}

/// Enumerates the usable hosts of the subnet given in CIDR notation,
/// in ascending order, or nothing when the notation does not parse.
/// A range that fails to parse degrades to no candidates at all.
pub fn subnet_hosts(s: &str) -> (r: Option<Vec<u32>>)
    ensures
        (match spec_parse_cidr(s@) {
            Some((ip, p)) => r matches Some(v) && v@ == spec_hosts(ip, p),
            None => r is None,
        }),
{
    let parts = split_str(s, '/');
    if parts.len() != 2 {
        return None;
    }
    let p = match parse_prefix(parts[1].as_str()) {
        Some(v) => v,
        None => {
            return None;
        },
    };
    let ip = match parse_quad(parts[0].as_str()) {
        Some(v) => v,
        None => {
            return None;
        },
    };
    let bs: u64 = two_pow_exec(32 - p);
    proof {
        lemma_two_pow_values();
        lemma_two_pow_increases((32 - p) as nat, 32);
        if p <= 30 {
            lemma_two_pow_increases(2, (32 - p) as nat);
        }
        vstd::arithmetic::div_mod::lemma_mod_decreases(ip as nat, bs as nat);
    }
    let net: u64 = (ip as u64) - (ip as u64) % bs;
    let count: u64 = if p >= 31 {
        bs
    } else {
        bs - 2
    };
    let first: u64 = if p >= 31 {
        net
    } else {
        net + 1
    };
    let ghost hosts = spec_hosts(ip, p);
    let mut v: Vec<u32> = Vec::new();
    let mut i: u64 = 0;
    while i < count
        invariant
            0 <= i <= count,
            v@.len() == i,
            net <= ip < 0x100000000,
            first == first_host(ip, p),
            count == host_count(p),
            count <= 0x100000000,
            forall|j: int| 0 <= j < i ==> v@[j] == hosts[j],
            hosts == spec_hosts(ip, p),
        decreases count - i,
    {
        v.push((first + i) as u32);
        i = i + 1;
    }
    proof {
        assert(v@ =~= hosts);
    }
    Some(v)
}

proof fn lemma_two_pow_adds(a: nat, b: nat)
    ensures
        two_pow(a + b) == two_pow(a) * two_pow(b),
    decreases b,
{
    if b == 0 {
    } else {
        lemma_two_pow_adds(a, (b - 1) as nat);
        assert(two_pow(a + b) == 2 * (two_pow(a) * two_pow((b - 1) as nat)));
        vstd::arithmetic::mul::lemma_mul_is_associative(2, two_pow(a), two_pow((b - 1) as nat));
        vstd::arithmetic::mul::lemma_mul_is_commutative(2, two_pow(a));
        vstd::arithmetic::mul::lemma_mul_is_associative(two_pow(a), 2, two_pow((b - 1) as nat));
    }
}

/// The first address of the IPv6 block `ip` lies in: `ip` with its
/// host bits cleared.
pub open spec fn network_addr_v6(ip: u128, p: u32) -> int {
    ip - (ip as int % two_pow((128 - p) as nat))
}

/// The addresses of an IPv6 block, ascending: every address of the
/// block is a usable host, since IPv6 reserves no network or
/// broadcast address.
pub open spec fn spec_hosts_v6(ip: u128, p: u32) -> Seq<u128> {
    Seq::new(two_pow((128 - p) as nat) as nat, |i: int| (network_addr_v6(ip, p) + i) as u128)
}

/// The narrowest prefix whose IPv6 block the scanner will enumerate
/// host by host: two to the twenty-fourth addresses.
pub const MIN_V6_SCAN_PREFIX: u32 = 104;

/// Enumerates the addresses of the IPv6 block `ip/p`, in ascending
/// order.  A block wider than [`MIN_V6_SCAN_PREFIX`] allows cannot be
/// materialized host by host and yields nothing.
pub fn subnet_hosts_v6(ip: u128, p: u32) -> (r: Option<Vec<u128>>)
    requires
        p <= 128,
    ensures
        p >= MIN_V6_SCAN_PREFIX ==> (r matches Some(v) && v@ == spec_hosts_v6(ip, p)),
        p < MIN_V6_SCAN_PREFIX ==> r is None,
{
    if p < MIN_V6_SCAN_PREFIX {
        return None;
    }
    let count: u64 = two_pow_exec(128 - p);
    let bs: u128 = count as u128;
    proof {
        lemma_two_pow_values();
        lemma_two_pow_increases((128 - p) as nat, 32);
        vstd::arithmetic::div_mod::lemma_mod_decreases(ip as nat, bs as nat);
    }
    let net: u128 = ip - ip % bs;
    let ghost hosts = spec_hosts_v6(ip, p);
    proof {
        // The block ends at or before the top of the address space:
        // its start is a multiple of its power-of-two size, and that
        // size divides the size of the whole space.
        let k = (128 - p) as nat;
        lemma_two_pow_adds(k, p as nat);
        lemma_two_pow_adds(64, 64);
        lemma_two_pow_adds(32, 32);
        assert(two_pow(32) == 0x100000000);
        assert(two_pow(64) == 0x10000000000000000);
        assert(two_pow(128) == 0x100000000000000000000000000000000) by (nonlinear_arith)
            requires
                two_pow(128) == two_pow(64) * two_pow(64),
                two_pow(64) == 0x10000000000000000,
        ;
        let whole = two_pow(128);
        let m = two_pow(p as nat);
        let q = ip as int / bs as int;
        vstd::arithmetic::div_mod::lemma_fundamental_div_mod(ip as int, bs as int);
        if q + 1 > m {
            vstd::arithmetic::mul::lemma_mul_inequality(m, q, bs as int);
            vstd::arithmetic::mul::lemma_mul_is_commutative(m, bs as int);
            vstd::arithmetic::mul::lemma_mul_is_commutative(q, bs as int);
        }
        vstd::arithmetic::mul::lemma_mul_inequality(q + 1, m, bs as int);
        vstd::arithmetic::mul::lemma_mul_is_distributive_add(bs as int, q, 1);
        vstd::arithmetic::mul::lemma_mul_is_commutative(q + 1, bs as int);
        vstd::arithmetic::mul::lemma_mul_is_commutative(m, bs as int);
        assert(net + count <= whole);
    }
    let mut v: Vec<u128> = Vec::new();
    let mut i: u64 = 0;
    while i < count
        invariant
            0 <= i <= count,
            v@.len() == i,
            net == network_addr_v6(ip, p),
            count == two_pow((128 - p) as nat),
            net + count <= two_pow(128),
            two_pow(128) == 0x100000000000000000000000000000000,
            forall|j: int| 0 <= j < i ==> v@[j] == hosts[j],
            hosts == spec_hosts_v6(ip, p),
        decreases count - i,
    {
        v.push(net + i as u128);
        i = i + 1;
    }
    proof {
        assert(v@ =~= hosts);
    }
    Some(v)
}

} // verus!
