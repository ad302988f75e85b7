//! Integer reading and writing with the exact rules of Rust's `str::parse`
//! / `from_str_radix` (an optional leading `+`, a `-` only for signed types,
//! at least one digit, no overflow) and of `Display` for integers.
use vstd::prelude::*;

verus! {

/// The value of digit `c` in base `radix` (`char::to_digit`), for `radix <= 36`.
pub open spec fn digit_value(c: char, radix: nat) -> Option<nat> {
    let d: int = if '0' <= c && c <= '9' {
        (c as int) - ('0' as int)
    } else if 'a' <= c && c <= 'z' {
        (c as int) - ('a' as int) + 10
    } else if 'A' <= c && c <= 'Z' {
        (c as int) - ('A' as int) + 10
    } else {
        99
    };
    if d < radix {
        Some(d as nat)
    } else {
        None
    }
}

/// Every character of `s` is a digit in base `radix`.
pub open spec fn all_digits(s: Seq<char>, radix: nat) -> bool {
    forall|i: int| 0 <= i < s.len() ==> (#[trigger] digit_value(s[i], radix)) is Some
}

/// The number the digit string `s` denotes in base `radix`.
pub open spec fn digits_value(s: Seq<char>, radix: nat) -> nat
    decreases s.len(),
{
    if s.len() == 0 {
        0
    } else {
        digits_value(s.drop_last(), radix) * radix + digit_value(s.last(), radix).unwrap_or(0)
    }
}

/// What `from_str_radix` gives for an unsigned type whose largest value is
/// `max`: an optional `+`, then one or more digits, with no overflow.
pub open spec fn parse_unsigned(s: Seq<char>, radix: nat, max: nat) -> Option<nat> {
    let body = if s.len() > 0 && s[0] == '+' {
        s.drop_first()
    } else {
        s
    };
    if body.len() > 0 && all_digits(body, radix) && digits_value(body, radix) <= max {
        Some(digits_value(body, radix))
    } else {
        None
    }
}

/// What `s.parse::<i64>()` gives.
pub open spec fn parse_i64_spec(s: Seq<char>) -> Option<i64> {
    if s.len() > 0 && s[0] == '-' {
        let body = s.drop_first();
        if body.len() > 0 && all_digits(body, 10) && digits_value(body, 10) <= 0x8000_0000_0000_0000 {
            Some((0 - digits_value(body, 10)) as i64)
        } else {
            None
        }
    } else {
        match parse_unsigned(s, 10, 0x7fff_ffff_ffff_ffff) {
            Some(v) => Some(v as i64),
            None => None,
        }
    }
}

/// What `s.parse::<u32>()` gives.
pub open spec fn parse_u32_spec(s: Seq<char>) -> Option<u32> {
    match parse_unsigned(s, 10, 0xffff_ffff) {
        Some(v) => Some(v as u32),
        None => None,
    }
}

proof fn lemma_digits_value_grows(s: Seq<char>, radix: nat, k: int)
    requires
        0 <= k <= s.len(),
        radix >= 1,
    ensures
        digits_value(s, radix) >= digits_value(s.take(k), radix),
    decreases s.len(),
{
    if k < s.len() {
        lemma_digits_value_grows(s.drop_last(), radix, k);
        assert(s.drop_last().take(k) =~= s.take(k));
        let p = digits_value(s.drop_last(), radix);
        assert(p * radix >= p) by (nonlinear_arith)
            requires
                radix >= 1,
        ;
    } else {
        assert(s.take(k) =~= s);
    }
}

pub fn digit_of(c: char, radix: u32) -> (r: Option<u32>)
    requires
        2 <= radix <= 36,
    ensures
        match digit_value(c, radix as nat) {
            Some(d) => r == Some(d as u32),
            None => r is None,
        },
        r matches Some(x) ==> x < radix,
{
    let d: u32 = if '0' <= c && c <= '9' {
        (c as u32) - ('0' as u32)
    } else if 'a' <= c && c <= 'z' {
        (c as u32) - ('a' as u32) + 10
    } else if 'A' <= c && c <= 'Z' {
        (c as u32) - ('A' as u32) + 10
    } else {
        99
    };
    if d < radix {
        Some(d)
    } else {
        None
    }
}

/// The value of the digit string `v[lo..hi]` in base `radix`, when it is
/// non-empty, all digits, and at most `max`.
fn digits_range(v: &[char], lo: usize, hi: usize, radix: u32, max: u64) -> (r: Option<u64>)
    requires
        lo <= hi <= v@.len(),
        2 <= radix <= 16,
    ensures
        ({
            let s = v@.subrange(lo as int, hi as int);
            if s.len() > 0 && all_digits(s, radix as nat) && digits_value(s, radix as nat) <= max {
                r == Some(digits_value(s, radix as nat) as u64)
            } else {
                r is None
            }
        }),
{
    let ghost s = v@.subrange(lo as int, hi as int);
    if lo == hi {
        return None;
    }
    let mut acc: u64 = 0;
    let mut i = lo;
    while i < hi
        invariant
            lo <= i <= hi <= v@.len(),
            2 <= radix <= 16,
            s == v@.subrange(lo as int, hi as int),
            all_digits(s.take(i - lo), radix as nat),
            acc as nat == digits_value(s.take(i - lo), radix as nat),
            acc <= max,
        decreases hi - i,
    {
        let ghost k = i - lo;
        assert(s.take(k + 1).drop_last() =~= s.take(k));
        assert(s.take(k + 1).last() == v@[i as int]);
        match digit_of(v[i], radix) {
            None => {
                assert(!all_digits(s, radix as nat)) by {
                    assert(digit_value(s[k], radix as nat) is None);
                }
                return None;
            },
            Some(d) => {
                assert((acc as u128) * (radix as u128) <= 0xffff_ffff_ffff_ffffu128 * 16) by (nonlinear_arith)
                    requires
                        acc <= u64::MAX,
                        radix <= 16,
                ;
                let wide: u128 = (acc as u128) * (radix as u128) + (d as u128);
                assert(wide == acc * radix + d) by (nonlinear_arith)
                    requires
                        wide == (acc as u128) * (radix as u128) + (d as u128),
                        acc <= u64::MAX,
                        radix <= 16,
                        d < 16,
                ;
                if wide > max as u128 {
                    proof {
                        if all_digits(s, radix as nat) {
                            lemma_digits_value_grows(s, radix as nat, k + 1);
                        }
                    }
                    return None;
                }
                acc = wide as u64;
                assert(all_digits(s.take(k + 1), radix as nat)) by {
                    assert forall|j: int| 0 <= j < k + 1 implies (#[trigger] digit_value(
                        s.take(k + 1)[j],
                        radix as nat,
                    )) is Some by {
                        if j < k {
                            assert(s.take(k + 1)[j] == s.take(k)[j]);
                        }
                    }
                }
                i = i + 1;
            },
        }
    }
    assert(s.take(hi - lo) =~= s);
    Some(acc)
}

/// `v[lo..hi]` read as an unsigned number (`from_str_radix` for an
/// unsigned type whose largest value is `max`).
pub fn parse_unsigned_range(v: &[char], lo: usize, hi: usize, radix: u32, max: u64) -> (r: Option<u64>)
    requires
        lo <= hi <= v@.len(),
        2 <= radix <= 16,
    ensures
        match parse_unsigned(v@.subrange(lo as int, hi as int), radix as nat, max as nat) {
            Some(n) => r == Some(n as u64),
            None => r is None,
        },
{
    let ghost s = v@.subrange(lo as int, hi as int);
    if lo < hi && v[lo] == '+' {
        assert(s.drop_first() =~= v@.subrange(lo + 1, hi as int));
        digits_range(v, lo + 1, hi, radix, max)
    } else {
        digits_range(v, lo, hi, radix, max)
    }
}

/// `v[lo..hi].parse::<i64>()`.
pub fn parse_i64_range(v: &[char], lo: usize, hi: usize) -> (r: Option<i64>)
    requires
        lo <= hi <= v@.len(),
    ensures
        r == parse_i64_spec(v@.subrange(lo as int, hi as int)),
{
    let ghost s = v@.subrange(lo as int, hi as int);
    if lo < hi && v[lo] == '-' {
        assert(s.drop_first() =~= v@.subrange(lo + 1, hi as int));
        match digits_range(v, lo + 1, hi, 10, 0x8000_0000_0000_0000) {
            None => None,
            Some(m) => {
                if m == 0x8000_0000_0000_0000 {
                    Some(i64::MIN)
                } else {
                    let p = m as i64;
                    Some(-p)
                }
            },
        }
    } else {
        match parse_unsigned_range(v, lo, hi, 10, 0x7fff_ffff_ffff_ffff) {
            None => None,
            Some(m) => Some(m as i64),
        }
    }
}

/// `v[lo..hi].parse::<u32>()`.
pub fn parse_u32_range(v: &[char], lo: usize, hi: usize) -> (r: Option<u32>)
    requires
        lo <= hi <= v@.len(),
    ensures
        r == parse_u32_spec(v@.subrange(lo as int, hi as int)),
{
    match parse_unsigned_range(v, lo, hi, 10, 0xffff_ffff) {
        None => None,
        Some(m) => Some(m as u32),
    }
}

/// The decimal digit character for `d < 10`.
pub open spec fn digit_char(d: nat) -> char {
    if d == 0 { '0' } else if d == 1 { '1' } else if d == 2 { '2' } else if d == 3 { '3' }
    else if d == 4 { '4' } else if d == 5 { '5' } else if d == 6 { '6' } else if d == 7 { '7' }
    else if d == 8 { '8' } else { '9' }
}

/// The decimal digit character for `d < 10`.
pub fn digit_char_of(d: u64) -> (c: char)
    requires
        d < 10,
    ensures
        c == digit_char(d as nat),
{
    if d == 0 { '0' } else if d == 1 { '1' } else if d == 2 { '2' } else if d == 3 { '3' }
    else if d == 4 { '4' } else if d == 5 { '5' } else if d == 6 { '6' } else if d == 7 { '7' }
    else if d == 8 { '8' } else { '9' }
}

/// The decimal rendering of `n` (`Display` for unsigned integers).
pub open spec fn dec_nat(n: nat) -> Seq<char>
    decreases n,
{
    if n < 10 {
        seq![digit_char(n)]
    } else {
        dec_nat(n / 10).push(digit_char(n % 10))
    }
}

/// The decimal rendering of `n` (`Display` for signed integers).
pub open spec fn dec_int(n: int) -> Seq<char> {
    if n < 0 {
        seq!['-'] + dec_nat((0 - n) as nat)
    } else {
        dec_nat(n as nat)
    }
}

/// Appends the decimal rendering of `n` to `out`.
pub fn push_dec_u64(out: &mut String, n: u64)
    ensures
        final(out)@ == old(out)@ + dec_nat(n as nat),
    decreases n,
{
    if n >= 10 {
        push_dec_u64(out, n / 10);
    }
    let c = digit_char_of(n % 10);
    crate::text::push_char(out, c);
    assert(out@ =~= old(out)@ + dec_nat(n as nat));
}

/// Appends the decimal rendering of `n` to `out`.
pub fn push_dec_i64(out: &mut String, n: i64)
    ensures
        final(out)@ == old(out)@ + dec_int(n as int),
{
    if n < 0 {
        crate::text::push_char(out, '-');
        let m: u64 = if n == i64::MIN {
            0x8000_0000_0000_0000
        } else {
            (-n) as u64
        };
        push_dec_u64(out, m);
        assert(out@ =~= old(out)@ + dec_int(n as int));
    } else {
        push_dec_u64(out, n as u64);
    }
}

pub proof fn lemma_dec_nat_digits(n: nat)
    ensures
        dec_nat(n).len() > 0,
        all_digits(dec_nat(n), 10),
        digits_value(dec_nat(n), 10) == n,
        '0' <= dec_nat(n)[0] <= '9',
    decreases n,
{
    if n >= 10 {
        lemma_dec_nat_digits(n / 10);
        let s = dec_nat(n);
        assert(s.drop_last() =~= dec_nat(n / 10));
        assert((n / 10) * 10 + n % 10 == n) by (nonlinear_arith);
        let d = n % 10;
        assert(digit_value(digit_char(d), 10) == Some(d));
        assert(s.last() == digit_char(d));
        assert(digits_value(s, 10) == digits_value(dec_nat(n / 10), 10) * 10 + d);
        assert forall|i: int| 0 <= i < s.len() implies (#[trigger] digit_value(s[i], 10)) is Some by {
            if i < s.len() - 1 {
                assert(s[i] == dec_nat(n / 10)[i]);
            }
        }
    } else {
        assert(digit_value(digit_char(n), 10) == Some(n));
        assert(dec_nat(n).drop_last() =~= Seq::<char>::empty());
        assert(digits_value(Seq::<char>::empty(), 10) == 0);
    }
}

/// A decimal digit character.
pub open spec fn is_digit_char(c: char) -> bool {
    '0' <= c && c <= '9'
}

/// A rendered integer is digits, possibly after a leading `-`, and ends in a
/// digit.
pub proof fn lemma_dec_int_shape(n: int)
    ensures
        dec_int(n).len() > 0,
        is_digit_char(dec_int(n)[0]) || dec_int(n)[0] == '-',
        is_digit_char(dec_int(n).last()),
        forall|i: int| 0 < i < dec_int(n).len() ==> is_digit_char(#[trigger] dec_int(n)[i]),
{
    let m: nat = if n < 0 {
        (0 - n) as nat
    } else {
        n as nat
    };
    lemma_dec_nat_digits(m);
    let d = dec_nat(m);
    assert forall|i: int| 0 <= i < d.len() implies is_digit_char(#[trigger] d[i]) by {
        assert(digit_value(d[i], 10) is Some);
    }
    if n < 0 {
        let s = seq!['-'] + d;
        assert forall|i: int| 0 < i < s.len() implies is_digit_char(#[trigger] s[i]) by {
            assert(s[i] == d[i - 1]);
        }
        assert(s.last() == d.last());
    }
}

/// Reading back a rendered `i64` gives the same number.
pub proof fn lemma_parse_dec_i64(n: i64)
    ensures
        parse_i64_spec(dec_int(n as int)) == Some(n),
{
    if n < 0 {
        let m = (0 - n) as nat;
        lemma_dec_nat_digits(m);
        assert((seq!['-'] + dec_nat(m)).drop_first() =~= dec_nat(m));
    } else {
        lemma_dec_nat_digits(n as nat);
    }
}

/// Reading back a rendered `u32` gives the same number.
pub proof fn lemma_parse_dec_u32(n: nat)
    requires
        n <= 0xffff_ffff,
    ensures
        parse_u32_spec(dec_nat(n)) == Some(n as u32),
{
    lemma_dec_nat_digits(n);
}

} // verus!
