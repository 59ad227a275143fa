//! Decimal digits, splitting on a separator, and decimal rendering.
//!
//! The address grammar of the library is built from these pieces: an
//! input record is split on `':'`, a dotted quad on `'.'`, a subnet on
//! `'/'`, and every numeric field is a run of decimal digits.

use vstd::prelude::*;

verus! {

/// `c` is a decimal digit.
pub open spec fn is_digit(c: char) -> bool {
    '0' as int <= c as int && c as int <= '9' as int
}

/// Numeric value of the digit `c`.
pub open spec fn digit_val(c: char) -> int {
    c as int - '0' as int
}

/// Every character of `s` is a decimal digit.
pub open spec fn all_digits(s: Seq<char>) -> bool {
    forall|i: int| 0 <= i < s.len() ==> is_digit(#[trigger] s[i])
}

/// The value of `s` read as a decimal numeral.
pub open spec fn dec_val(s: Seq<char>) -> int
    decreases s.len(),
{
    if s.len() == 0 {
        0
    } else {
        dec_val(s.drop_last()) * 10 + digit_val(s.last())
    }
}

/// An all-digit numeral never denotes a negative value.
pub proof fn lemma_dec_val_nonneg(s: Seq<char>)
    requires
        all_digits(s),
    ensures
        dec_val(s) >= 0,
    decreases s.len(),
{
    if s.len() > 0 {
        assert(all_digits(s.drop_last()));
        lemma_dec_val_nonneg(s.drop_last());
    }
}

/// The first index at or after `from` where `sep` occurs, or the
/// length of `s` when it does not occur there.
pub open spec fn find_from(s: Seq<char>, sep: char, from: int) -> int
    decreases s.len() - from,
{
    if from < 0 || from >= s.len() {
        s.len() as int
    } else if s[from] == sep {
        from
    } else {
        find_from(s, sep, from + 1)
    }
}

pub proof fn lemma_find_from(s: Seq<char>, sep: char, from: int)
    requires
        0 <= from <= s.len(),
    ensures
        from <= find_from(s, sep, from) <= s.len(),
        find_from(s, sep, from) < s.len() ==> s[find_from(s, sep, from)] == sep,
        forall|i: int| from <= i < find_from(s, sep, from) ==> s[i] != sep,
    decreases s.len() - from,
{
    if from < s.len() && s[from] != sep {
        lemma_find_from(s, sep, from + 1);
    }
}

/// The pieces of `s` between occurrences of `sep`, in order.  A string
/// without the separator is a single piece; every occurrence of the
/// separator ends a piece, so `n` occurrences give `n + 1` pieces.
pub open spec fn split_on(s: Seq<char>, sep: char) -> Seq<Seq<char>>
    decreases s.len()
    via split_on_dec
{
    let i = find_from(s, sep, 0);
    if i >= s.len() {
        seq![s]
    } else {
        seq![s.subrange(0, i)] + split_on(s.subrange(i + 1, s.len() as int), sep)
    }
}

#[via_fn]
proof fn split_on_dec(s: Seq<char>, sep: char) {
    lemma_find_from(s, sep, 0);
}

/// A string with no separator is one piece, itself.
pub proof fn lemma_split_on_whole(s: Seq<char>, sep: char)
    requires
        forall|i: int| 0 <= i < s.len() ==> s[i] != sep,
    ensures
        split_on(s, sep) == seq![s],
{
    lemma_find_from(s, sep, 0);
    if find_from(s, sep, 0) < s.len() {
        assert(s[find_from(s, sep, 0)] == sep);
    }
}

/// Searching a suffix finds the same occurrence, shifted by the cut.
proof fn lemma_find_from_suffix(s: Seq<char>, sep: char, start: int, from: int)
    requires
        0 <= start <= from <= s.len(),
    ensures
        find_from(s.subrange(start, s.len() as int), sep, from - start) == find_from(
            s,
            sep,
            from,
        ) - start,
    decreases s.len() - from,
{
    let sub = s.subrange(start, s.len() as int);
    if from >= s.len() {
    } else if s[from] == sep {
        assert(sub[from - start] == sep);
    } else {
        assert(sub[from - start] != sep);
        lemma_find_from_suffix(s, sep, start, from + 1);
    }
}

/// Finds the first occurrence of `sep` in `s` at or after `from`,
/// giving the length of `s` when there is none.
pub fn find_char(s: &str, sep: char, from: usize) -> (r: usize)
    requires
        from <= s@.len(),
    ensures
        r == find_from(s@, sep, from as int),
{
    let n = s.unicode_len();
    let mut i = from;
    loop
        invariant
            from <= i <= n,
            n == s@.len(),
            find_from(s@, sep, from as int) == find_from(s@, sep, i as int),
        decreases n - i,
    {
        if i == n {
            return i;
        }
        let c = s.get_char(i);
        if c == sep {
            return i;
        }
        i = i + 1;
    }
}

/// Splits `s` into its pieces between occurrences of `sep`.
pub fn split_str(s: &str, sep: char) -> (parts: Vec<String>)
    ensures
        parts@.map_values(|p: String| p@) == split_on(s@, sep),
{
    let n = s.unicode_len();
    let mut parts: Vec<String> = Vec::new();
    let mut start: usize = 0;
    proof {
        assert(s@.subrange(0, n as int) =~= s@);
        assert(parts@.map_values(|p: String| p@) =~= Seq::<Seq<char>>::empty());
        assert(Seq::<Seq<char>>::empty() + split_on(s@, sep) =~= split_on(s@, sep));
    }
    loop
        invariant
            start <= n,
            n == s@.len(),
            split_on(s@, sep) == parts@.map_values(|p: String| p@) + split_on(
                s@.subrange(start as int, n as int),
                sep,
            ),
        decreases n - start,
    {
        let ghost done = parts@.map_values(|p: String| p@);
        let ghost rest = s@.subrange(start as int, n as int);
        proof {
            lemma_find_from(s@, sep, start as int);
            lemma_find_from_suffix(s@, sep, start as int, start as int);
        }
        let i = find_char(s, sep, start);
        let piece = String::from_str(s.substring_char(start, i));
        parts.push(piece);
        proof {
            assert(piece@ =~= rest.subrange(0, i - start as int));
            assert(parts@.map_values(|p: String| p@) =~= done.push(piece@));
        }
        if i == n {
            proof {
                assert(piece@ =~= rest);
                assert(done.push(piece@) =~= done + seq![rest]);
                assert(done + split_on(rest, sep) =~= done.push(piece@));
            }
            return parts;
        }
        proof {
            let tail = s@.subrange(i + 1 as int, n as int);
            assert(tail =~= rest.subrange(i - start as int + 1, rest.len() as int));
            assert(split_on(rest, sep) == seq![rest.subrange(0, i - start as int)] + split_on(
                tail,
                sep,
            ));
            assert(done + split_on(rest, sep) =~= done.push(piece@) + split_on(tail, sep));
        }
        start = i + 1;
    }
}

/// Ten raised to `n`.
pub open spec fn pow10(n: nat) -> int
    decreases n,
{
    if n == 0 {
        1
    } else {
        10 * pow10((n - 1) as nat)
    }
}

proof fn lemma_pow10_increases(a: nat, b: nat)
    requires
        a <= b,
    ensures
        1 <= pow10(a) <= pow10(b),
    decreases b,
{
    if a < b {
        lemma_pow10_increases(a, (b - 1) as nat);
    } else if a > 0 {
        lemma_pow10_increases((a - 1) as nat, (b - 1) as nat);
    }
}

/// Reads `s[from..to]` as a decimal numeral of one to `max_len`
/// digits, giving `None` when the range is empty, too long, or not
/// made of digits alone.
pub fn parse_digits(s: &str, from: usize, to: usize, max_len: usize) -> (r: Option<u32>)
    requires
        from <= to <= s@.len(),
        1 <= max_len <= 9,
    ensures
        ({
            let part = s@.subrange(from as int, to as int);
            &&& (r is Some <==> 1 <= part.len() <= max_len && all_digits(part))
            &&& (r matches Some(v) ==> v == dec_val(part))
        }),
{
    let ghost part = s@.subrange(from as int, to as int);
    if to == from || to - from > max_len {
        return None;
    }
    let mut val: u32 = 0;
    let mut k: usize = 0;
    while k < to - from
        invariant
            from <= to <= s@.len(),
            0 <= k <= to - from <= max_len <= 9,
            part == s@.subrange(from as int, to as int),
            all_digits(part.subrange(0, k as int)),
            val == dec_val(part.subrange(0, k as int)),
            val < pow10(k as nat),
        decreases to - from - k,
    {
        let ghost pref = part.subrange(0, k as int);
        let c = s.get_char(from + k);
        assert(c == part[k as int]);
        if c < '0' || c > '9' {
            assert(!is_digit(part[k as int]));
            return None;
        }
        proof {
            lemma_pow10_increases((k + 1) as nat, 9);
            lemma_pow10_increases(9, 9);
            assert(pow10(9) == 1000000000) by {
                reveal_with_fuel(pow10, 10);
            }
            assert(part.subrange(0, k + 1 as int).drop_last() =~= pref);
            assert(part.subrange(0, k + 1 as int).last() == part[k as int]);
        }
        val = val * 10 + (c as u32 - 48);
        k = k + 1;
    }
    proof {
        assert(part.subrange(0, k as int) =~= part);
    }
    Some(val)
}

/// The character of the digit `d`.
pub open spec fn digit_char(d: int) -> char {
    (d + 48) as char
}

/// The canonical decimal numeral of `n`: no leading zero, and a
/// single `'0'` for zero itself.
pub open spec fn dec_str(n: int) -> Seq<char>
    decreases n,
{
    if n < 10 {
        seq![digit_char(n)]
    } else {
        dec_str(n / 10).push(digit_char(n % 10))
    }
}

/// The canonical numeral is made of digits and never starts with a
/// superfluous zero.
pub proof fn lemma_dec_str_canonical(n: int)
    requires
        0 <= n,
    ensures
        dec_str(n).len() >= 1,
        n >= 10 ==> dec_str(n).len() >= 2,
        all_digits(dec_str(n)),
        dec_str(n).len() > 1 ==> dec_str(n)[0] != '0',
        dec_val(dec_str(n)) == n,
    decreases n,
{
    if n < 10 {
        assert(dec_str(n) =~= seq![digit_char(n)]);
        assert(dec_val(dec_str(n)) == dec_val(seq![digit_char(n)].drop_last()) * 10 + digit_val(
            digit_char(n),
        ));
        assert(seq![digit_char(n)].drop_last() =~= Seq::<char>::empty());
    } else {
        lemma_dec_str_canonical(n / 10);
        let s = dec_str(n);
        assert(s == dec_str(n / 10).push(digit_char(n % 10)));
        assert(s.drop_last() =~= dec_str(n / 10));
        assert forall|i: int| 0 <= i < s.len() implies is_digit(#[trigger] s[i]) by {
            if i < s.len() - 1 {
                assert(s[i] == dec_str(n / 10)[i]);
            }
        }
        assert(s[0] == dec_str(n / 10)[0]);
        assert(dec_str(n / 10)[0] != '0') by {
            if n / 10 < 10 {
                assert(dec_str(n / 10) == seq![digit_char(n / 10)]);
                assert(n / 10 >= 1);
            }
        }
    }
}

/// A canonical numeral of a value below `pow10(k)` is at most `k`
/// digits wide.
pub proof fn lemma_dec_str_len(n: int, k: nat)
    requires
        0 <= n,
        1 <= k,
        n < pow10(k),
    ensures
        dec_str(n).len() <= k,
    decreases n,
{
    if n >= 10 {
        if k == 1 {
            assert(pow10(1) == 10) by {
                reveal_with_fuel(pow10, 2);
            }
        }
        assert(n / 10 < pow10((k - 1) as nat));
        lemma_dec_str_len(n / 10, (k - 1) as nat);
    }
}

/// Splitting starts at the first separator: a separator-free prefix
/// becomes the first piece, and the rest splits on its own.
pub proof fn lemma_split_on_prefix(a: Seq<char>, rest: Seq<char>, sep: char)
    requires
        forall|i: int| 0 <= i < a.len() ==> a[i] != sep,
    ensures
        split_on(a + seq![sep] + rest, sep) == seq![a] + split_on(rest, sep),
{
    let s = a + seq![sep] + rest;
    lemma_find_from(s, sep, 0);
    let f = find_from(s, sep, 0);
    assert(s[a.len() as int] == sep);
    if f < a.len() {
        assert(s[f] == a[f]);
    }
    assert(f == a.len());
    assert(s.subrange(0, f) =~= a);
    assert(s.subrange(f + 1, s.len() as int) =~= rest);
}

/// The single-character string of the digit `d`.
pub fn digit_str(d: u8) -> (r: &'static str)
    requires
        d <= 9,
    ensures
        r@ == seq![digit_char(d as int)],
{
    proof {
        reveal_strlit("0");
        reveal_strlit("1");
        reveal_strlit("2");
        reveal_strlit("3");
        reveal_strlit("4");
        reveal_strlit("5");
        reveal_strlit("6");
        reveal_strlit("7");
        reveal_strlit("8");
        reveal_strlit("9");
    }
    let r = match d {
        0 => "0",
        1 => "1",
        2 => "2",
        3 => "3",
        4 => "4",
        5 => "5",
        6 => "6",
        7 => "7",
        8 => "8",
        _ => "9",
    };
    proof {
        assert(r@ =~= seq![digit_char(d as int)]);
    }
    r
}

/// Renders `n` as its canonical decimal numeral.
pub fn dec_string(n: u128) -> (r: String)
    ensures
        r@ == dec_str(n as int),
    decreases n,
{
    if n < 10 {
        String::from_str(digit_str(n as u8))
    } else {
        let mut r = dec_string(n / 10);
        r.append(digit_str((n % 10) as u8));
        proof {
            assert(r@ =~= dec_str(n as int / 10).push(digit_char(n as int % 10)));
        }
        r
    }
}

/// The character of the hexadecimal digit `d`, lower case.
pub open spec fn hex_digit_char(d: int) -> char {
    if d < 10 {
        (d + 48) as char
    } else {
        (d + 87) as char
    }
}

/// The canonical hexadecimal numeral of `n`, lower case, without
/// leading zeros; a single `'0'` for zero itself.
pub open spec fn hex_str(n: int) -> Seq<char>
    decreases n,
{
    if n < 16 {
        seq![hex_digit_char(n)]
    } else {
        hex_str(n / 16).push(hex_digit_char(n % 16))
    }
}

/// The single-character string of the hexadecimal digit `d`.
pub fn hex_digit_str(d: u8) -> (r: &'static str)
    requires
        d <= 15,
    ensures
        r@ == seq![hex_digit_char(d as int)],
{
    proof {
        reveal_strlit("a");
        reveal_strlit("b");
        reveal_strlit("c");
        reveal_strlit("d");
        reveal_strlit("e");
        reveal_strlit("f");
    }
    if d < 10 {
        return digit_str(d);
    }
    let r = match d {
        10 => "a",
        11 => "b",
        12 => "c",
        13 => "d",
        14 => "e",
        _ => "f",
    };
    proof {
        assert(r@ =~= seq![hex_digit_char(d as int)]);
    }
    r
}

/// Renders `n` as its canonical hexadecimal numeral.
pub fn hex_string(n: u16) -> (r: String)
    ensures
        r@ == hex_str(n as int),
    decreases n,
{
    if n < 16 {
        String::from_str(hex_digit_str(n as u8))
    } else {
        let mut r = hex_string(n / 16);
        r.append(hex_digit_str((n % 16) as u8));
        proof {
            assert(r@ =~= hex_str(n as int / 16).push(hex_digit_char(n as int % 16)));
        }
        r
    }
}

} // verus!
