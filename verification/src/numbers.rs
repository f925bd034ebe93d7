//! Reading integers, booleans, quoted strings and the extent of decimal numbers
//! from a byte buffer, starting at a given position.
//!
//! Integer arithmetic here wraps on overflow, as the service's release build
//! does: a digit run too long for an `i64` yields its value modulo 2^64, read
//! as two's complement.
use vstd::prelude::*;
use crate::scan::{find_byte, lemma_find_byte, position_of_byte};

verus! {

/// The modulus of 64-bit machine arithmetic.
pub open spec fn two_pow_64() -> int {
    0x1_0000_0000_0000_0000
}

/// The modulus of `usize` arithmetic.
pub open spec fn usize_modulus() -> int {
    usize::MAX + 1
}

/// An ASCII decimal digit.
pub open spec fn is_digit(c: u8) -> bool {
    48 <= c <= 57
}

/// The value of an ASCII digit byte.
pub open spec fn digit_value(c: u8) -> int {
    c - 48
}

/// The first position at or after `i` that does not hold a digit.
pub open spec fn digit_run_end(b: Seq<u8>, i: nat) -> nat
    decreases b.len() - i,
{
    if i < b.len() && is_digit(b[i as int]) {
        digit_run_end(b, i + 1)
    } else {
        i
    }
}

/// The number that a run of digits spells in base ten.
pub open spec fn digits_value(s: Seq<u8>) -> int
    decreases s.len(),
{
    if s.len() == 0 {
        0
    } else {
        digits_value(s.drop_last()) * 10 + digit_value(s.last())
    }
}

/// `n` reduced to a signed 64-bit integer (two's complement wrap-around).
pub open spec fn wrap_i64(n: int) -> int {
    let r = n % two_pow_64();
    if r > i64::MAX {
        r - two_pow_64()
    } else {
        r
    }
}

/// The integer read at `start` and the position after its last digit.
pub open spec fn int_at(b: Seq<u8>, start: nat) -> (int, nat) {
    if start >= b.len() {
        (0, start)
    } else {
        let end = digit_run_end(b, start);
        (wrap_i64(digits_value(b.subrange(start as int, end as int))), end)
    }
}

/// The boolean read at `start` (`t` means true, anything else false) and the
/// position after the word `true` or `false`.
pub open spec fn bool_at(b: Seq<u8>, start: nat) -> (bool, nat) {
    if start < b.len() && b[start as int] == 116 {
        (true, start + 4)
    } else {
        (false, start + 5)
    }
}

/// The contents of the double-quoted string that opens at `start` and the
/// position after its closing quote. Without an opening quote at `start` the
/// result is empty and the position stays; without a closing quote the result
/// is empty and the position is the end of the buffer.
pub open spec fn quoted_at(b: Seq<u8>, start: nat) -> (Seq<u8>, nat) {
    if start < b.len() && b[start as int] == 34 {
        match find_byte(b, 34, start + 1) {
            Some(j) => (b.subrange(start + 1 as int, j as int), j + 1),
            None => (Seq::empty(), b.len()),
        }
    } else {
        (Seq::empty(), start)
    }
}

/// A byte of a decimal number: a digit or a point.
pub open spec fn is_decimal_byte(c: u8) -> bool {
    is_digit(c) || c == 46
}

/// The first position at or after `i` that is neither a digit nor a point.
pub open spec fn decimal_end(b: Seq<u8>, i: nat) -> nat
    decreases b.len() - i,
{
    if i < b.len() && is_decimal_byte(b[i as int]) {
        decimal_end(b, i + 1)
    } else {
        i
    }
}

/// The first point of the decimal number at `start`, or its end when it has none.
pub open spec fn decimal_point(b: Seq<u8>, start: nat) -> nat {
    let end = decimal_end(b, start);
    match find_byte(b, 46, start) {
        Some(p) => if p < end {
            p
        } else {
            end
        },
        None => end,
    }
}

/// The decimal text of `n`, most significant digit first, without leading zeros.
pub open spec fn decimal_text(n: nat) -> Seq<u8>
    decreases n,
{
    if n < 10 {
        seq![(48 + n) as u8]
    } else {
        decimal_text(n / 10).push((48 + n % 10) as u8)
    }
}

proof fn lemma_wrap_i64_mul_add(x: int, d: int)
    ensures
        wrap_i64(wrap_i64(x) * 10 + d) == wrap_i64(x * 10 + d),
{
    let m = two_pow_64();
    let r = x % m;
    vstd::arithmetic::div_mod::lemma_mul_mod_noop_left(x, 10, m);
    vstd::arithmetic::div_mod::lemma_add_mod_noop(x * 10, d, m);
    vstd::arithmetic::div_mod::lemma_add_mod_noop(r * 10, d, m);
    if r > i64::MAX {
        vstd::arithmetic::div_mod::lemma_mod_multiples_vanish(-10, r * 10 + d, m);
        assert((r - m) * 10 + d == m * (-10) + (r * 10 + d)) by (nonlinear_arith);
    }
}

proof fn lemma_wrap_i64_small(x: int)
    requires
        i64::MIN <= x <= i64::MAX,
    ensures
        wrap_i64(x) == x,
{
    let m = two_pow_64();
    if x < 0 {
        vstd::arithmetic::div_mod::lemma_mod_multiples_vanish(-1, x + m, m);
        vstd::arithmetic::div_mod::lemma_small_mod((x + m) as nat, m as nat);
    } else {
        vstd::arithmetic::div_mod::lemma_small_mod(x as nat, m as nat);
    }
}

proof fn lemma_wrap_i64_shift(x: int)
    ensures
        wrap_i64(x + two_pow_64()) == wrap_i64(x),
        wrap_i64(x - two_pow_64()) == wrap_i64(x),
{
    let m = two_pow_64();
    vstd::arithmetic::div_mod::lemma_mod_multiples_vanish(1, x, m);
    vstd::arithmetic::div_mod::lemma_mod_multiples_vanish(-1, x, m);
}

/// One step of the wrapping accumulation `val * 10 + d` in `i64`.
proof fn lemma_accumulate_digit(val: i64, x: int, d: i64)
    requires
        val == wrap_i64(x),
        0 <= d <= 9,
    ensures
        vstd::wrapping::i64_specs::wrapping_add(vstd::wrapping::i64_specs::wrapping_mul(val, 10), d)
            == wrap_i64(x * 10 + d),
{
    let p = vstd::wrapping::i64_specs::wrapping_mul(val, 10);
    let y = val as int * 10;
    assert(p == wrap_i64(y));
    if p + d > i64::MAX {
        lemma_wrap_i64_small(p + d - two_pow_64());
        lemma_wrap_i64_shift(p + d - two_pow_64());
    } else {
        lemma_wrap_i64_small(p + d);
    }
    lemma_wrap_i64_mul_add_const(y, d as int);
    lemma_wrap_i64_mul_add(x, d as int);
}

proof fn lemma_wrap_i64_mul_add_const(y: int, d: int)
    ensures
        wrap_i64(wrap_i64(y) + d) == wrap_i64(y + d),
{
    let m = two_pow_64();
    let r = y % m;
    vstd::arithmetic::div_mod::lemma_add_mod_noop(y, d, m);
    vstd::arithmetic::div_mod::lemma_add_mod_noop(r, d, m);
    vstd::arithmetic::div_mod::lemma_mod_twice(y, m);
    if r > i64::MAX {
        vstd::arithmetic::div_mod::lemma_mod_multiples_vanish(-1, r + d, m);
    }
}

/// Reads the decimal integer that starts at `start` and returns it with the
/// position after its last digit; (0, `start`) when no digit stands there.
pub fn parse_int_fast(b: &[u8], start: usize) -> (r: (i64, usize))
    ensures
        r.0 == int_at(b@, start as nat).0,
        r.1 == int_at(b@, start as nat).1,
{
    let n = b.len();
    if start >= n {
        return (0, start);
    }
    let mut val: i64 = 0;
    let mut i = start;
    assert(b@.subrange(start as int, start as int) =~= Seq::<u8>::empty());
    while i < n && 48 <= b[i] && b[i] <= 57
        invariant
            n == b@.len(),
            start < n,
            start <= i <= n,
            digit_run_end(b@, start as nat) == digit_run_end(b@, i as nat),
            val == wrap_i64(digits_value(b@.subrange(start as int, i as int))),
        decreases n - i,
    {
        let d = (b[i] - 48) as i64;
        proof {
            let s = b@.subrange(start as int, i + 1);
            assert(s.drop_last() =~= b@.subrange(start as int, i as int));
            assert(s.last() == b@[i as int]);
            lemma_accumulate_digit(val, digits_value(b@.subrange(start as int, i as int)), d);
        }
        val = val.wrapping_mul(10).wrapping_add(d);
        i = i + 1;
    }
    (val, i)
}

/// Reads a JSON boolean at `start`: true when the byte there is `t`, and the
/// position after the word (`true` is four bytes, `false` five).
pub fn parse_bool_fast(b: &[u8], start: usize) -> (r: (bool, usize))
    requires
        start + 5 <= usize::MAX,
    ensures
        r.0 == bool_at(b@, start as nat).0,
        r.1 == bool_at(b@, start as nat).1,
{
    if start < b.len() && b[start] == 116 {
        (true, start + 4)
    } else {
        (false, start + 5)
    }
}

/// Reads the double-quoted string that opens at `start`: its contents and the
/// position after the closing quote. No escapes are interpreted.
pub fn parse_string_fast(b: &[u8], start: usize) -> (r: (&[u8], usize))
    ensures
        r.0@ == quoted_at(b@, start as nat).0,
        r.1 == quoted_at(b@, start as nat).1,
{
    if start >= b.len() || b[start] != 34 {
        let empty = &b[0..0];
        assert(empty@ =~= Seq::<u8>::empty());
        return (empty, start);
    }
    let from = start + 1;
    match position_of_byte(b, 34, from) {
        Some(i) => {
            proof {
                lemma_find_byte(b@, 34, from as nat);
            }
            (&b[from..i], i + 1)
        },
        None => {
            let empty = &b[0..0];
            assert(empty@ =~= Seq::<u8>::empty());
            (empty, b.len())
        },
    }
}

/// The extent of the decimal number at `start` (digits and points): the
/// position of its first point (its end when it has none) and its end.
pub fn decimal_span(b: &[u8], start: usize) -> (r: (usize, usize))
    ensures
        r.0 == decimal_point(b@, start as nat),
        r.1 == decimal_end(b@, start as nat),
        start <= r.0 <= r.1,
        start <= b@.len() ==> r.1 <= b@.len(),
{
    let n = b.len();
    let mut i = start;
    let mut point: Option<usize> = None;
    while i < n && ((48 <= b[i] && b[i] <= 57) || b[i] == 46)
        invariant
            n == b@.len(),
            start <= i,
            start <= n ==> i <= n,
            decimal_end(b@, start as nat) == decimal_end(b@, i as nat),
            match point {
                Some(p) => find_byte(b@, 46, start as nat) == Some(p as nat) && start <= p < i,
                None => find_byte(b@, 46, start as nat) == find_byte(b@, 46, i as nat),
            },
        decreases n - i,
    {
        if point.is_none() && b[i] == 46 {
            point = Some(i);
        }
        i = i + 1;
    }
    proof {
        lemma_decimal_end_bounds(b@, i as nat);
        lemma_find_byte(b@, 46, i as nat);
    }
    match point {
        Some(p) => (p, i),
        None => {
            proof {
                if i < n {
                    assert(b@[i as int] != 46);
                }
                match find_byte(b@, 46, i as nat) {
                    Some(q) => { assert(q >= i); },
                    None => {},
                }
            }
            (i, i)
        },
    }
}

/// The decimal number at `i` ends at or after `i`.
pub proof fn lemma_decimal_end_bounds(b: Seq<u8>, i: nat)
    ensures
        i <= decimal_end(b, i),
        i <= b.len() ==> decimal_end(b, i) <= b.len(),
    decreases b.len() - i,
{
    if i < b.len() && is_decimal_byte(b[i as int]) {
        lemma_decimal_end_bounds(b, i + 1);
    }
}

proof fn lemma_digit_run_of_text(d: Seq<u8>, rest: Seq<u8>, i: nat)
    requires
        i <= d.len(),
        forall|k: int| 0 <= k < d.len() ==> is_digit(#[trigger] d[k]),
        rest.len() == 0 || !is_digit(rest[0]),
    ensures
        digit_run_end(d + rest, i) == d.len(),
    decreases d.len() - i,
{
    if i < d.len() {
        assert((d + rest)[i as int] == d[i as int]);
        lemma_digit_run_of_text(d, rest, i + 1);
    } else if rest.len() > 0 {
        assert((d + rest)[i as int] == rest[0]);
    }
}

/// The decimal text of `n` is a non-empty run of digits that spells `n`.
pub proof fn lemma_decimal_text(n: nat)
    ensures
        decimal_text(n).len() > 0,
        forall|k: int| 0 <= k < decimal_text(n).len() ==> is_digit(#[trigger] decimal_text(n)[k]),
        digits_value(decimal_text(n)) == n,
    decreases n,
{
    if n < 10 {
        let t = decimal_text(n);
        assert(t.drop_last() =~= Seq::<u8>::empty());
        assert(t.last() == (48 + n) as u8);
        assert(digits_value(t.drop_last()) == 0);
    } else {
        lemma_decimal_text(n / 10);
        let t = decimal_text(n);
        assert(t.drop_last() =~= decimal_text(n / 10));
        assert(t.last() == (48 + n % 10) as u8);
        assert(digit_value(t.last()) == n % 10);
        assert((n / 10) * 10 + n % 10 == n);
        assert forall|k: int| 0 <= k < t.len() implies is_digit(#[trigger] t[k]) by {
            if k < t.len() - 1 {
                assert(t[k] == decimal_text(n / 10)[k]);
            }
        }
    }
}

/// Reading back written integers: the decimal text of any `n` that fits in an
/// `i64`, followed by anything that does not start with a digit, reads as `n`,
/// and the read stops right after the text.
pub proof fn lemma_int_roundtrip(n: nat, rest: Seq<u8>)
    requires
        n <= i64::MAX,
        rest.len() == 0 || !is_digit(rest[0]),
    ensures
        int_at(decimal_text(n) + rest, 0) == (n as int, decimal_text(n).len()),
{
    let t = decimal_text(n);
    let b = t + rest;
    lemma_decimal_text(n);
    lemma_digit_run_of_text(t, rest, 0);
    assert(b.subrange(0, t.len() as int) =~= t);
    lemma_wrap_i64_small(n as int);
}

proof fn lemma_digit_run_after_prefix(p: Seq<u8>, d: Seq<u8>, rest: Seq<u8>, i: nat)
    requires
        p.len() <= i <= p.len() + d.len(),
        forall|k: int| 0 <= k < d.len() ==> is_digit(#[trigger] d[k]),
        rest.len() == 0 || !is_digit(rest[0]),
    ensures
        digit_run_end(p + d + rest, i) == p.len() + d.len(),
    decreases p.len() + d.len() - i,
{
    let b = p + d + rest;
    if i < p.len() + d.len() {
        assert(b[i as int] == d[i - p.len()]);
        lemma_digit_run_after_prefix(p, d, rest, i + 1);
    } else if rest.len() > 0 {
        assert(b[i as int] == rest[0]);
    }
}

/// Reading back an integer written anywhere in a buffer: the decimal text of
/// `n` (fitting in an `i64`) after any prefix, followed by anything that does
/// not start with a digit, reads as `n` from the end of the prefix, and the read
/// stops right after the text.
pub proof fn lemma_int_roundtrip_at(prefix: Seq<u8>, n: nat, rest: Seq<u8>)
    requires
        n <= i64::MAX,
        rest.len() == 0 || !is_digit(rest[0]),
    ensures
        int_at(prefix + decimal_text(n) + rest, prefix.len()) == (
            n as int,
            prefix.len() + decimal_text(n).len(),
        ),
{
    let t = decimal_text(n);
    let b = prefix + t + rest;
    lemma_decimal_text(n);
    lemma_digit_run_after_prefix(prefix, t, rest, prefix.len());
    assert(b.subrange(prefix.len() as int, prefix.len() + t.len() as int) =~= t);
    lemma_wrap_i64_small(n as int);
}

/// Reading back written booleans: `true` reads as true and stops after its
/// four bytes; `false` reads as false and stops after its five bytes.
pub proof fn lemma_bool_roundtrip(prefix: Seq<u8>, rest: Seq<u8>)
    ensures
        bool_at(prefix + seq![116u8, 114u8, 117u8, 101u8] + rest, prefix.len()) == (
            true,
            prefix.len() + 4,
        ),
        bool_at(prefix + seq![102u8, 97u8, 108u8, 115u8, 101u8] + rest, prefix.len()) == (
            false,
            prefix.len() + 5,
        ),
{
    assert((prefix + seq![116u8, 114u8, 117u8, 101u8] + rest)[prefix.len() as int] == 116u8);
    assert((prefix + seq![102u8, 97u8, 108u8, 115u8, 101u8] + rest)[prefix.len() as int] == 102u8);
}

/// The extent of a decimal number: every byte from `start` to its end is a
/// digit or a point, the byte at the end (if any) is neither, and the point
/// position is the first point in it (or its end when it has none).
pub proof fn lemma_decimal_span_characterized(b: Seq<u8>, start: nat)
    requires
        start <= b.len(),
    ensures
        start <= decimal_point(b, start) <= decimal_end(b, start) <= b.len(),
        forall|k: int|
            start <= k < decimal_end(b, start) ==> (48 <= #[trigger] b[k] <= 57 || b[k] == 46),
        decimal_end(b, start) == b.len() || !(48 <= b[decimal_end(b, start) as int] <= 57
            || b[decimal_end(b, start) as int] == 46),
        forall|k: int| start <= k < decimal_point(b, start) ==> #[trigger] b[k] != 46,
        decimal_point(b, start) < decimal_end(b, start) ==> b[decimal_point(b, start) as int]
            == 46,
{
    lemma_decimal_end_run(b, start);
    lemma_find_byte(b, 46, start);
}

proof fn lemma_decimal_end_run(b: Seq<u8>, i: nat)
    requires
        i <= b.len(),
    ensures
        i <= decimal_end(b, i) <= b.len(),
        forall|k: int| i <= k < decimal_end(b, i) ==> is_decimal_byte(#[trigger] b[k]),
        decimal_end(b, i) == b.len() || !is_decimal_byte(b[decimal_end(b, i) as int]),
    decreases b.len() - i,
{
    if i < b.len() && is_decimal_byte(b[i as int]) {
        lemma_decimal_end_run(b, i + 1);
    }
}

/// Reading back written strings: a quoted string whose contents hold no quote,
/// followed by anything, reads as its contents, and the read stops right after
/// the closing quote.
pub proof fn lemma_quoted_roundtrip(s: Seq<u8>, rest: Seq<u8>)
    requires
        !s.contains(34),
    ensures
        quoted_at(seq![34u8] + s + seq![34u8] + rest, 0) == (s, s.len() + 2),
{
    let b = seq![34u8] + s + seq![34u8] + rest;
    let j = s.len() + 1;
    assert(b[0] == 34);
    assert(b[j as int] == 34);
    assert forall|k: int| 1 <= k < j implies b[k] != 34 by {
        assert(b[k] == s[k - 1]);
    }
    lemma_find_byte(b, 34, 1);
    match find_byte(b, 34, 1) {
        Some(p) => {
            assert(p == j);
        },
        None => {},
    }
    assert(b.subrange(1, j as int) =~= s);
}

} // verus!
